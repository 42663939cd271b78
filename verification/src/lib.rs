//! An in-process rate limiter: given an identity and a route it decides
//! whether a request is admitted, under a global quota for each identity and a
//! quota for each route, and it keeps the memory of its own records bounded.
//!
//! - [`types`]: durations, rules, and the window record with its two ways of
//!   counting, the fixed window and the sliding log.
//! - [`config`]: the rules of a limiter.
//! - [`string_map`], [`store`]: the records, by identity and scope.
//! - [`admission`]: what a check decides and what it counts, and what follows
//!   from that for runs of checks.
//! - [`limiter`]: the engine that checks requests.
//! - [`reclaim`]: what cleanup keeps and what it drops.
//! - [`gc`]: the collector that cleans a store.

pub mod admission;
pub mod config;
pub mod gc;
pub mod limiter;
pub mod reclaim;
pub mod store;
pub mod string_map;
pub mod types;

pub use admission::GLOBAL_SCOPE;
pub use config::LimiterConfig;
pub use gc::GarbageCollector;
pub use limiter::RateLimiter;
pub use store::RecordStore;
pub use types::{current_timestamp, ClockError, Duration, RequestRecord, RuleConfig};
