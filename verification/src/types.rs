use std::time::{SystemTime, SystemTimeError, UNIX_EPOCH};
use vstd::prelude::*;

verus! {

/// Intervals of at most this many seconds are tracked with a fixed window;
/// longer ones keep a log of individual timestamps.
pub const SHORT_INTERVAL_SECONDS: u64 = 300;

/// A span of time given in one of four units.
#[derive(Debug, Clone, Copy, PartialEq, Eq, PartialOrd, Ord)]
pub enum Duration {
    Seconds(u64),
    Minutes(u64),
    Hours(u64),
    Days(u64),
}

impl Duration {
    /// The length of the span in seconds, as a mathematical number.
    pub open spec fn spec_seconds(self) -> nat {
        match self {
            Duration::Seconds(n) => n as nat,
            Duration::Minutes(n) => n as nat * 60,
            Duration::Hours(n) => n as nat * 3600,
            Duration::Days(n) => n as nat * 86400,
        }
    }

    /// The second count can be held in a `u64`.
    pub open spec fn fits(self) -> bool {
        self.spec_seconds() <= u64::MAX
    }

    /// The span is short enough for fixed-window counting.
    pub open spec fn is_short(self) -> bool {
        self.spec_seconds() <= SHORT_INTERVAL_SECONDS
    }

    pub fn seconds(n: u64) -> (d: Self)
        ensures
            d == Duration::Seconds(n),
    {
        Duration::Seconds(n)
    }

    pub fn minutes(n: u64) -> (d: Self)
        ensures
            d == Duration::Minutes(n),
    {
        Duration::Minutes(n)
    }

    pub fn hours(n: u64) -> (d: Self)
        ensures
            d == Duration::Hours(n),
    {
        Duration::Hours(n)
    }

    pub fn days(n: u64) -> (d: Self)
        ensures
            d == Duration::Days(n),
    {
        Duration::Days(n)
    }

    /// The second count in a type wide enough for every `Duration`.
    pub fn total_seconds(&self) -> (s: u128)
        ensures
            s == self.spec_seconds(),
    {
        match self {
            Duration::Seconds(n) => *n as u128,
            Duration::Minutes(n) => (*n as u128) * 60,
            Duration::Hours(n) => (*n as u128) * 3600,
            Duration::Days(n) => (*n as u128) * 86400,
        }
    }

    /// The second count as a `u64`, for spans whose second count fits one.
    pub fn as_seconds(&self) -> (s: u64)
        requires
            self.fits(),
        ensures
            s == self.spec_seconds(),
    {
        match self {
            Duration::Seconds(n) => *n,
            Duration::Minutes(n) => *n * 60,
            Duration::Hours(n) => *n * 3600,
            Duration::Days(n) => *n * 86400,
        }
    }

    pub fn is_short_interval(&self) -> (short: bool)
        ensures
            short == self.is_short(),
    {
        self.total_seconds() <= SHORT_INTERVAL_SECONDS as u128
    }
}

/// At most `limit` admitted requests per `interval`.
#[derive(Debug, Clone, Copy)]
pub struct RuleConfig {
    pub interval: Duration,
    pub limit: u32,
}

impl RuleConfig {
    pub fn new(interval: Duration, limit: u32) -> (rule: Self)
        ensures
            rule.interval == interval,
            rule.limit == limit,
    {
        Self { interval, limit }
    }
}

/// A fixed window that began at `start` is over at `now`: at least `window`
/// seconds lie between the two.
pub open spec fn window_elapsed(start: u64, window: nat, now: u64) -> bool {
    now - start >= window
}

/// The timestamp `t` lies strictly after `now - window`.
pub open spec fn within_window(t: u64, window: nat, now: u64) -> bool {
    t > now - window
}

/// The entries of `log` that lie within the trailing window, in their order.
pub open spec fn live_entries(log: Seq<u64>, window: nat, now: u64) -> Seq<u64>
    decreases log.len(),
{
    if log.len() == 0 {
        log
    } else {
        let earlier = live_entries(log.drop_last(), window, now);
        if within_window(log.last(), window, now) {
            earlier.push(log.last())
        } else {
            earlier
        }
    }
}

/// No entry is gained by keeping only the live ones.
pub proof fn lemma_live_entries_len(log: Seq<u64>, window: nat, now: u64)
    ensures
        live_entries(log, window, now).len() <= log.len(),
    decreases log.len(),
{
    if log.len() > 0 {
        lemma_live_entries_len(log.drop_last(), window, now);
    }
}

/// A log whose entries all lie within the window is kept whole.
pub proof fn lemma_live_entries_all(log: Seq<u64>, window: nat, now: u64)
    requires
        forall|i: int| 0 <= i < log.len() ==> within_window(#[trigger] log[i], window, now),
    ensures
        live_entries(log, window, now) == log,
    decreases log.len(),
{
    if log.len() > 0 {
        lemma_live_entries_all(log.drop_last(), window, now);
        assert(log.drop_last().push(log.last()) == log);
    }
}

/// What a window record holds: the counter and start of a fixed window, and the
/// log of a sliding one.
pub struct RecordView {
    pub count: u32,
    pub window_start: u64,
    pub timestamps: Seq<u64>,
}

impl RecordView {
    /// The record made at `now`, before any request is counted.
    pub open spec fn fresh(now: u64) -> Self {
        RecordView { count: 0, window_start: now, timestamps: Seq::empty() }
    }

    /// The limit is reached at `now`. A fixed window that is over never blocks;
    /// a sliding log blocks when `limit` or more of its entries are live.
    pub open spec fn exceeded(self, limit: u32, is_short: bool, window: nat, now: u64) -> bool {
        if is_short {
            !window_elapsed(self.window_start, window, now) && self.count >= limit
        } else {
            live_entries(self.timestamps, window, now).len() >= limit
        }
    }

    /// The record after one more request at `now`.
    pub open spec fn after_request(self, is_short: bool, window: nat, now: u64) -> Self {
        if is_short {
            if window_elapsed(self.window_start, window, now) {
                RecordView { count: 1, window_start: now, timestamps: self.timestamps }
            } else {
                RecordView {
                    count: (self.count + 1) as u32,
                    window_start: self.window_start,
                    timestamps: self.timestamps,
                }
            }
        } else {
            let kept = live_entries(self.timestamps.push(now), window, now);
            RecordView {
                count: kept.len() as u32,
                window_start: self.window_start,
                timestamps: kept,
            }
        }
    }

    /// The counter can take one more request at `now`: a fixed window is over
    /// or its counter is not at its end; a log has room in any case, or
    /// at least once the entries that have left the window are dropped.
    pub open spec fn can_count(self, is_short: bool, window: nat, now: u64) -> bool {
        if is_short {
            window_elapsed(self.window_start, window, now) || self.count < u32::MAX
        } else {
            self.timestamps.len() < u32::MAX || live_entries(
                self.timestamps.push(now),
                window,
                now,
            ).len() <= u32::MAX
        }
    }

    /// The time of the latest request that the record knows of.
    pub open spec fn last_activity(self) -> u64 {
        if self.timestamps.len() > 0 {
            self.timestamps.last()
        } else {
            self.window_start
        }
    }

    /// The time of the earliest request that the record knows of.
    pub open spec fn oldest(self) -> u64 {
        if self.timestamps.len() > 0 {
            self.timestamps[0]
        } else {
            self.window_start
        }
    }

    /// More than `max_age` seconds have passed since the last activity.
    pub open spec fn stale(self, max_age: nat, now: u64) -> bool {
        now - self.last_activity() > max_age
    }
}

/// The request-tracking state of one identity in one scope.
#[derive(Debug, Clone)]
pub struct RequestRecord {
    pub count: u32,
    pub window_start: u64,
    pub timestamps: Vec<u64>,
}

impl View for RequestRecord {
    type V = RecordView;

    open spec fn view(&self) -> RecordView {
        RecordView {
            count: self.count,
            window_start: self.window_start,
            timestamps: self.timestamps@,
        }
    }
}

/// A count as a `usize`: itself if it fits, else `usize::MAX`.
pub open spec fn capped(count: nat) -> usize {
    if count <= usize::MAX {
        count as usize
    } else {
        usize::MAX
    }
}

/// The bytes that a record with a timestamp buffer of the given capacity is
/// counted as: the size of the record itself and eight bytes for each slot,
/// capped at `usize::MAX`.
pub open spec fn spec_footprint(capacity: usize) -> usize {
    capped(vstd::layout::size_of::<RequestRecord>() + 8 * capacity as nat)
}

/// The number of bytes is what a record is counted as whose buffer has room
/// for some number of entries, at least as many as the record's log holds.
pub open spec fn is_footprint(bytes: usize, entries: nat) -> bool {
    exists|capacity: usize| capacity >= entries && bytes == #[trigger] spec_footprint(capacity)
}

impl RequestRecord {
    /// A record without requests whose window starts at the current time.
    pub fn new(is_short_interval: bool) -> (made: Result<Self, ClockError>)
        ensures
            made matches Ok(record) ==> record@ == RecordView::fresh(record.window_start),
    {
        match current_timestamp() {
            Ok(now) => Ok(Self::new_at(is_short_interval, now)),
            Err(error) => Err(error),
        }
    }

    /// A record without requests whose window starts at `now`.
    pub fn new_at(is_short_interval: bool, now: u64) -> (record: Self)
        ensures
            record@ == RecordView::fresh(now),
    {
        Self {
            count: 0,
            window_start: now,
            timestamps: if is_short_interval {
                Vec::new()
            } else {
                Vec::with_capacity(16)
            },
        }
    }

    /// Counts one request at the current time. If the clock cannot be read,
    /// the record stays as it is.
    pub fn add_request(&mut self, is_short_interval: bool, window_size: u64) -> (counted: Result<
        (),
        ClockError,
    >)
        requires
            is_short_interval ==> old(self).count < u32::MAX,
            !is_short_interval ==> old(self).timestamps.len() < u32::MAX,
        ensures
            match counted {
                Ok(_) => exists|now: u64|
                    final(self)@ == old(self)@.after_request(
                        is_short_interval,
                        window_size as nat,
                        now,
                    ),
                Err(_) => *final(self) == *old(self),
            },
    {
        match current_timestamp() {
            Ok(now) => {
                self.add_request_at(is_short_interval, window_size, now);
                Ok(())
            },
            Err(error) => Err(error),
        }
    }

    /// Counts one request at `now`.
    pub fn add_request_at(&mut self, is_short_interval: bool, window_size: u64, now: u64)
        requires
            old(self)@.can_count(is_short_interval, window_size as nat, now),
        ensures
            final(self)@ == old(self)@.after_request(is_short_interval, window_size as nat, now),
            final(self).timestamps@.len() <= old(self).timestamps@.len() + 1,
    {
        if is_short_interval {
            if now >= self.window_start && now - self.window_start >= window_size {
                self.window_start = now;
                self.count = 1;
            } else {
                self.count += 1;
            }
        } else {
            proof {
                lemma_live_entries_len(self.timestamps@.push(now), window_size as nat, now);
            }
            self.timestamps.push(now);
            let ghost log = self.timestamps@;
            let len = self.timestamps.len();
            let mut kept: usize = 0;
            let mut i: usize = 0;
            while i < len
                invariant
                    kept <= i <= len,
                    self.timestamps@.len() == len,
                    log.len() == len,
                    self.timestamps@.take(kept as int) == live_entries(
                        log.take(i as int),
                        window_size as nat,
                        now,
                    ),
                    forall|j: int| i <= j < len ==> self.timestamps@[j] == log[j],
                    self.count == old(self).count,
                    self.window_start == old(self).window_start,
                decreases len - i,
            {
                let t = self.timestamps[i];
                let ghost before = self.timestamps@;
                proof {
                    assert(log.take(i + 1).drop_last() == log.take(i as int));
                    assert(log.take(i + 1).last() == log[i as int]);
                }
                if now < window_size || t > now - window_size {
                    self.timestamps[kept] = t;
                    proof {
                        assert(self.timestamps@.take(kept + 1) == before.take(kept as int).push(t));
                    }
                    kept += 1;
                } else {
                    proof {
                        assert(self.timestamps@.take(kept as int) == before.take(kept as int));
                    }
                }
                i += 1;
            }
            proof {
                assert(log.take(len as int) == log);
            }
            self.timestamps.truncate(kept);
            self.count = kept as u32;
        }
    }

    /// The limit is reached at the current time.
    pub fn is_limit_exceeded(&self, limit: u32, is_short_interval: bool, window_size: u64) -> (verdict:
        Result<bool, ClockError>)
        ensures
            verdict matches Ok(exceeded) ==> exists|now: u64|
                exceeded == self@.exceeded(limit, is_short_interval, window_size as nat, now),
    {
        match current_timestamp() {
            Ok(now) => Ok(self.is_limit_exceeded_at(limit, is_short_interval, window_size, now)),
            Err(error) => Err(error),
        }
    }

    /// The limit is reached at `now`.
    pub fn is_limit_exceeded_at(
        &self,
        limit: u32,
        is_short_interval: bool,
        window_size: u64,
        now: u64,
    ) -> (exceeded: bool)
        ensures
            exceeded == self@.exceeded(limit, is_short_interval, window_size as nat, now),
    {
        if is_short_interval {
            if now >= self.window_start && now - self.window_start >= window_size {
                false
            } else {
                self.count >= limit
            }
        } else {
            let len = self.timestamps.len();
            let mut valid_requests: usize = 0;
            let mut i: usize = 0;
            while i < len
                invariant
                    valid_requests <= i <= len,
                    len == self.timestamps@.len(),
                    valid_requests == live_entries(
                        self.timestamps@.take(i as int),
                        window_size as nat,
                        now,
                    ).len(),
                decreases len - i,
            {
                let t = self.timestamps[i];
                proof {
                    assert(self.timestamps@.take(i + 1).drop_last() == self.timestamps@.take(
                        i as int,
                    ));
                    assert(self.timestamps@.take(i + 1).last() == self.timestamps@[i as int]);
                }
                if now < window_size || t > now - window_size {
                    valid_requests += 1;
                }
                i += 1;
            }
            proof {
                assert(self.timestamps@.take(len as int) == self.timestamps@);
            }
            valid_requests >= limit as usize
        }
    }

    /// The bytes that a record with a timestamp buffer of `capacity` slots is
    /// counted as.
    pub fn footprint(capacity: usize) -> (bytes: usize)
        ensures
            bytes == spec_footprint(capacity),
    {
        let fixed: usize = core::mem::size_of::<RequestRecord>();
        if capacity > usize::MAX / 8 {
            usize::MAX
        } else {
            fixed.saturating_add(capacity * 8)
        }
    }

    /// An estimate of the bytes that the record occupies, from the capacity of
    /// its timestamp buffer as the allocator left it.
    pub fn memory_usage(&self) -> (bytes: usize)
        ensures
            is_footprint(bytes, self@.timestamps.len()),
    {
        Self::footprint(buffer_capacity(&self.timestamps))
    }

    /// The time of the earliest request that the record knows of.
    pub fn oldest_time(&self) -> (t: u64)
        ensures
            t == self@.oldest(),
    {
        if self.timestamps.len() == 0 {
            self.window_start
        } else {
            self.timestamps[0]
        }
    }

    /// More than `max_age_seconds` have passed between the record's last
    /// activity and the current time.
    pub fn should_cleanup(&self, max_age_seconds: u64) -> (verdict: Result<bool, ClockError>)
        ensures
            verdict matches Ok(stale) ==> exists|now: u64|
                stale == self@.stale(max_age_seconds as nat, now),
    {
        match current_timestamp() {
            Ok(now) => Ok(self.should_cleanup_at(max_age_seconds, now)),
            Err(error) => Err(error),
        }
    }

    /// More than `max_age_seconds` have passed between the record's last
    /// activity and `now`.
    pub fn should_cleanup_at(&self, max_age_seconds: u64, now: u64) -> (stale: bool)
        ensures
            stale == self@.stale(max_age_seconds as nat, now),
    {
        let len = self.timestamps.len();
        let last_activity = if len > 0 {
            self.timestamps[len - 1]
        } else {
            self.window_start
        };
        now > last_activity && now - last_activity > max_age_seconds
    }
}

/// `Vec::capacity` on a timestamp buffer: the number of entries that the
/// buffer can hold without reallocating, which is at least the number that it
/// holds. How much more the allocator reserved is not a matter of the buffer's
/// contents, so nothing else is claimed of the number.
#[verifier::external_body]
fn buffer_capacity(buffer: &Vec<u64>) -> (capacity: usize)
    ensures
        capacity >= buffer@.len(),
{
    buffer.capacity()
}

/// The system clock reads a time before the Unix epoch.
#[derive(Debug, Clone, Copy, PartialEq, Eq)]
pub enum ClockError {
    BeforeEpoch,
}

/// `std::time::SystemTime`, a reading of the system clock. Nothing is known
/// of what a value holds.
#[verifier::external_type_specification]
#[verifier::external_body]
pub struct ExSystemTime(SystemTime);

/// `std::time::SystemTimeError`, the error of a time that lies before the one
/// it is measured against. Nothing is known of what a value holds.
#[verifier::external_type_specification]
#[verifier::external_body]
pub struct ExSystemTimeError(SystemTimeError);

/// `SystemTime::now`: the system clock. Nothing is claimed of the reading.
#[verifier::external_body]
fn system_now() -> SystemTime {
    SystemTime::now()
}

/// `SystemTime::duration_since` against `UNIX_EPOCH`: how far the time lies
/// after the epoch, or the error of a time that lies before it. Nothing is
/// claimed of either.
#[verifier::external_body]
fn since_unix_epoch(time: &SystemTime) -> Result<std::time::Duration, SystemTimeError> {
    time.duration_since(UNIX_EPOCH)
}

/// `Duration::as_secs`: the whole seconds of a span. Nothing is claimed of the
/// number.
#[verifier::external_body]
fn whole_seconds(span: &std::time::Duration) -> u64 {
    span.as_secs()
}

/// The system clock as whole seconds since the Unix epoch.
pub fn current_timestamp() -> Result<u64, ClockError> {
    let time = system_now();
    match since_unix_epoch(&time) {
        Ok(span) => Ok(whole_seconds(&span)),
        Err(_) => Err(ClockError::BeforeEpoch),
    }
}

} // verus!
