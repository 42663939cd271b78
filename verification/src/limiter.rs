use crate::admission::{
    admits, after_check, lemma_room_to_count, record_before, scope_exceeded, with_request,
    GLOBAL_SCOPE,
};
use crate::config::LimiterConfig;
use crate::gc::GarbageCollector;
use crate::reclaim::{collected, evicted_oldest_first, swept};
use crate::store::{lemma_put_after_take, record_total, RecordStore, ScopesModel, StoreModel};
use crate::types::{capped, current_timestamp, ClockError, RequestRecord, RuleConfig};
use vstd::prelude::*;

verus! {

/// The admission-control engine: the rules, the records of every identity, and
/// the collector that keeps the records' memory bounded.
pub struct RateLimiter {
    collector: GarbageCollector,
    records: RecordStore,
}

impl View for RateLimiter {
    type V = StoreModel;

    closed spec fn view(&self) -> StoreModel {
        self.records@
    }
}

impl RateLimiter {
    /// The rules that the limiter was made with.
    pub closed spec fn config(&self) -> LimiterConfig {
        self.collector.config()
    }

    /// The identities in the order in which the limiter holds them: each
    /// identity with records once.
    pub closed spec fn identity_order(&self) -> Seq<Seq<char>> {
        self.records.identity_order()
    }

    /// A limiter with the given rules and no records.
    pub fn new(config: LimiterConfig) -> (limiter: Self)
        requires
            config.valid(),
        ensures
            limiter.config() == config,
            limiter@ == Map::<Seq<char>, ScopesModel>::empty(),
    {
        Self { collector: GarbageCollector::new(config), records: RecordStore::new() }
    }

    /// Decides at the current time whether the request is admitted, and counts
    /// it if it is. In override mode a route without a rule of its own is
    /// admitted without a look at the clock. Else, if the clock cannot be
    /// read, nothing is decided and nothing is counted.
    pub fn check_limit(&mut self, who: &str, route: &str, override_mode: bool) -> (verdict: Result<
        bool,
        ClockError,
    >)
        ensures
            final(self).config() == old(self).config(),
            override_mode && !old(self).config().has_rule(route@) ==> verdict == Ok::<
                bool,
                ClockError,
            >(true),
            match verdict {
                Ok(allowed) => exists|now: u64|
                    allowed == admits(
                        old(self).config(),
                        old(self)@,
                        who@,
                        route@,
                        override_mode,
                        now,
                    ) && final(self)@ == #[trigger] after_check(
                        old(self).config(),
                        old(self)@,
                        who@,
                        route@,
                        override_mode,
                        now,
                    ),
                Err(_) => final(self)@ == old(self)@,
            },
    {
        if override_mode && !self.collector.rules().has_route_rule(route) {
            proof {
                assert(after_check(self.config(), self@, who@, route@, override_mode, 0) == self@);
            }
            return Ok(true);
        }
        match current_timestamp() {
            Ok(now) => Ok(self.check_limit_at(who, route, override_mode, now)),
            Err(error) => Err(error),
        }
    }

    /// Decides whether a request made at `now` is admitted, and counts it if
    /// it is.
    pub fn check_limit_at(&mut self, who: &str, route: &str, override_mode: bool, now: u64) -> (allowed:
        bool)
        ensures
            allowed == admits(old(self).config(), old(self)@, who@, route@, override_mode, now),
            final(self)@ == after_check(
                old(self).config(),
                old(self)@,
                who@,
                route@,
                override_mode,
                now,
            ),
            final(self).config() == old(self).config(),
    {
        let config = self.collector.rules();
        let (global_rule, route_rule): (Option<RuleConfig>, Option<RuleConfig>) = if override_mode {
            let rule = if config.has_route_rule(route) {
                Some(*config.get_rule_for_route(route))
            } else {
                None
            };
            (None, rule)
        } else {
            (Some(config.default_rule), Some(*config.get_rule_for_route(route)))
        };

        if override_mode && route_rule.is_none() {
            return true;
        }
        let who_key = who.to_owned();
        let route_key = route.to_owned();
        let global_key = GLOBAL_SCOPE.to_owned();

        let mut allow = true;

        if let Some(rule) = global_rule {
            if self.is_record_exceeded(&who_key, &global_key, &rule, now) {
                allow = false;
            }
        }
        if allow {
            if let Some(rule) = route_rule {
                if self.is_record_exceeded(&who_key, &route_key, &rule, now) {
                    allow = false;
                }
            }
        }
        if allow {
            if let Some(rule) = global_rule {
                proof {
                    lemma_room_to_count(self@, who@, GLOBAL_SCOPE@, rule, now);
                }
                self.update_record(&who_key, &global_key, &rule, now);
            }
            if let Some(rule) = route_rule {
                // the global scope, met again under the name of a route, has its count
                if global_rule.is_none() || !(route_key == global_key) {
                    proof {
                        lemma_room_to_count(self@, who@, route@, rule, now);
                    }
                    self.update_record(&who_key, &route_key, &rule, now);
                }
            }
        }
        allow
    }

    /// The identity has used up the rule's limit in the scope at `now`.
    fn is_record_exceeded(&self, who: &String, scope: &String, rule: &RuleConfig, now: u64) -> (exceeded:
        bool)
        requires
            rule.interval.fits(),
        ensures
            exceeded == scope_exceeded(self@, who@, scope@, *rule, now),
    {
        let is_short_interval = rule.interval.is_short_interval();
        let window_size = rule.interval.as_seconds();
        match self.records.get(who, scope) {
            Some(record) => record.is_limit_exceeded_at(
                rule.limit,
                is_short_interval,
                window_size,
                now,
            ),
            None => false,
        }
    }

    /// Counts a request of the identity at `now` in the scope, in its record
    /// there or else in a new one.
    fn update_record(&mut self, who: &String, scope: &String, rule: &RuleConfig, now: u64)
        requires
            rule.interval.fits(),
            record_before(old(self)@, who@, scope@, now).can_count(
                rule.interval.is_short(),
                rule.interval.spec_seconds(),
                now,
            ),
        ensures
            final(self)@ == with_request(old(self)@, who@, scope@, *rule, now),
            final(self).config() == old(self).config(),
    {
        let is_short_interval = rule.interval.is_short_interval();
        let window_size = rule.interval.as_seconds();
        let mut record = match self.records.take(who, scope) {
            Some(record) => record,
            None => RequestRecord::new_at(is_short_interval, now),
        };
        record.add_request_at(is_short_interval, window_size, now);
        proof {
            lemma_put_after_take(old(self)@, who@, scope@, record@);
        }
        self.records.put(who, scope, record);
    }

    /// The number of identities with records, and the number of records, the
    /// latter capped at `usize::MAX`.
    pub fn get_stats(&self) -> (totals: (usize, usize))
        ensures
            self@.dom().finite(),
            totals.0 == self@.len(),
            totals.1 == capped(record_total(self@, self.identity_order())),
            self.identity_order().no_duplicates(),
            forall|who: Seq<char>|
                self.identity_order().contains(who) <==> #[trigger] self@.contains_key(who),
    {
        self.records.stats()
    }

    /// Drops every record.
    pub fn clear_all(&mut self)
        ensures
            final(self)@ == Map::<Seq<char>, ScopesModel>::empty(),
            final(self).config() == old(self).config(),
    {
        self.records.clear();
    }

    /// Runs the collector on the limiter's records at the current time. A
    /// limiter without records is left as it is, whatever the clock says. If
    /// there are records and the clock cannot be read, the records stay as
    /// they are as well.
    pub fn collect_garbage(&mut self) -> (done: Result<(), ClockError>)
        ensures
            final(self).config() == old(self).config(),
            old(self)@ == Map::<Seq<char>, ScopesModel>::empty() ==> done is Ok,
            match done {
                Ok(_) => exists|now: u64| #[trigger]
                    collected(
                        old(self)@,
                        final(self)@,
                        old(self).config().max_age(),
                        old(self).config().max_memory,
                        now,
                    ),
                Err(_) => final(self)@ == old(self)@,
            },
    {
        let done = self.collector.collect_garbage(&mut self.records);
        proof {
            if done is Ok {
                let now = choose|now: u64| #[trigger]
                    collected(
                        old(self).records@,
                        self.records@,
                        self.collector.config().max_age(),
                        self.collector.config().max_memory,
                        now,
                    );
                assert(collected(
                    old(self)@,
                    self@,
                    old(self).config().max_age(),
                    old(self).config().max_memory,
                    now,
                ));
            }
        }
        done
    }

    /// Runs the collector on the limiter's records at `now`: stale records
    /// leave, and if the memory estimate is above the ceiling and still above
    /// it once they have left, the oldest of the others too, until the
    /// estimate is down to eighty percent of the ceiling.
    pub fn collect_garbage_at(&mut self, now: u64)
        ensures
            final(self).config() == old(self).config(),
            collected(
                old(self)@,
                final(self)@,
                old(self).config().max_age(),
                old(self).config().max_memory,
                now,
            ),
            evicted_oldest_first(
                swept(old(self)@, old(self).config().max_age(), now),
                final(self)@,
            ),
    {
        self.collector.collect_garbage_at(&mut self.records, now);
    }
}

} // verus!
