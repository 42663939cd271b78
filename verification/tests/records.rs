use lazy_limit::{current_timestamp, Duration, RequestRecord, RuleConfig};

#[test]
fn durations_in_seconds() {
    assert_eq!(Duration::seconds(7).as_seconds(), 7);
    assert_eq!(Duration::minutes(2).as_seconds(), 120);
    assert_eq!(Duration::hours(3).as_seconds(), 10_800);
    assert_eq!(Duration::days(2).as_seconds(), 172_800);
    assert_eq!(Duration::days(u64::MAX).total_seconds(), u64::MAX as u128 * 86_400);
}

#[test]
fn durations_are_built_by_unit() {
    assert_eq!(Duration::seconds(1), Duration::Seconds(1));
    assert_eq!(Duration::minutes(1), Duration::Minutes(1));
    assert_eq!(Duration::hours(1), Duration::Hours(1));
    assert_eq!(Duration::days(1), Duration::Days(1));
}

#[test]
fn short_intervals_end_at_five_minutes() {
    assert!(Duration::seconds(0).is_short_interval());
    assert!(Duration::seconds(300).is_short_interval());
    assert!(!Duration::seconds(301).is_short_interval());
    assert!(Duration::minutes(5).is_short_interval());
    assert!(!Duration::minutes(6).is_short_interval());
    assert!(!Duration::hours(1).is_short_interval());
    assert!(Duration::hours(0).is_short_interval());
    assert!(!Duration::days(1).is_short_interval());
    assert!(!Duration::days(u64::MAX).is_short_interval());
}

#[test]
fn rule_keeps_interval_and_limit() {
    let rule = RuleConfig::new(Duration::minutes(1), 3);
    assert_eq!(rule.interval, Duration::Minutes(1));
    assert_eq!(rule.limit, 3);
}

#[test]
fn new_record_is_empty() {
    let short = RequestRecord::new_at(true, 42);
    assert_eq!(short.count, 0);
    assert_eq!(short.window_start, 42);
    assert!(short.timestamps.is_empty());
    let long = RequestRecord::new_at(false, 43);
    assert_eq!(long.count, 0);
    assert_eq!(long.window_start, 43);
    assert!(long.timestamps.is_empty());
}

#[test]
fn new_record_starts_at_the_current_time() {
    let before = current_timestamp().unwrap();
    let record = RequestRecord::new(true).unwrap();
    let after = current_timestamp().unwrap();
    assert!(before <= record.window_start && record.window_start <= after);
    assert_eq!(record.count, 0);
    assert!(record.timestamps.is_empty());
}

#[test]
fn fixed_window_counts_and_resets() {
    let mut record = RequestRecord::new_at(true, 100);
    record.add_request_at(true, 10, 100);
    assert_eq!((record.count, record.window_start), (1, 100));
    record.add_request_at(true, 10, 105);
    assert_eq!((record.count, record.window_start), (2, 100));
    record.add_request_at(true, 10, 109);
    assert_eq!((record.count, record.window_start), (3, 100));
    // ten seconds after the start the window is over
    record.add_request_at(true, 10, 110);
    assert_eq!((record.count, record.window_start), (1, 110));
    assert!(record.timestamps.is_empty());
}

#[test]
fn fixed_window_limit() {
    let mut record = RequestRecord::new_at(true, 100);
    assert!(!record.is_limit_exceeded_at(1, true, 10, 100));
    record.add_request_at(true, 10, 100);
    record.add_request_at(true, 10, 101);
    assert!(!record.is_limit_exceeded_at(3, true, 10, 102));
    assert!(record.is_limit_exceeded_at(2, true, 10, 102));
    assert!(record.is_limit_exceeded_at(1, true, 10, 109));
    // a window that is over never blocks
    assert!(!record.is_limit_exceeded_at(1, true, 10, 110));
    // a clock that reads before the start of the window has not passed it
    assert!(record.is_limit_exceeded_at(2, true, 10, 50));
}

#[test]
fn sliding_log_keeps_the_live_entries() {
    let mut record = RequestRecord::new_at(false, 1_000);
    record.add_request_at(false, 600, 1_000);
    record.add_request_at(false, 600, 1_200);
    record.add_request_at(false, 600, 1_599);
    assert_eq!(record.timestamps, vec![1_000, 1_200, 1_599]);
    assert_eq!(record.count, 3);
    // at 1600 the entry of 1000 is exactly 600 seconds old and leaves
    record.add_request_at(false, 600, 1_600);
    assert_eq!(record.timestamps, vec![1_200, 1_599, 1_600]);
    assert_eq!(record.count, 3);
    record.add_request_at(false, 600, 5_000);
    assert_eq!(record.timestamps, vec![5_000]);
    assert_eq!(record.count, 1);
    assert_eq!(record.window_start, 1_000);
}

#[test]
fn sliding_log_before_one_window_has_passed() {
    // the clock reads less than the window: nothing can have left it yet
    let mut record = RequestRecord::new_at(false, 0);
    record.add_request_at(false, 600, 0);
    record.add_request_at(false, 600, 10);
    assert_eq!(record.timestamps, vec![0, 10]);
    assert!(record.is_limit_exceeded_at(2, false, 600, 599));
    assert!(!record.is_limit_exceeded_at(2, false, 600, 600));
}

#[test]
fn sliding_log_limit() {
    let mut record = RequestRecord::new_at(false, 1_000);
    assert!(!record.is_limit_exceeded_at(1, false, 600, 1_000));
    assert!(record.is_limit_exceeded_at(0, false, 600, 1_000));
    record.add_request_at(false, 600, 1_000);
    record.add_request_at(false, 600, 1_300);
    assert!(record.is_limit_exceeded_at(2, false, 600, 1_599));
    assert!(!record.is_limit_exceeded_at(3, false, 600, 1_599));
    // only the entry of 1300 is younger than 600 seconds at 1600
    assert!(!record.is_limit_exceeded_at(2, false, 600, 1_600));
    assert!(record.is_limit_exceeded_at(1, false, 600, 1_600));
    assert!(!record.is_limit_exceeded_at(1, false, 600, 1_900));
}

#[test]
fn stale_after_max_age() {
    let mut fixed = RequestRecord::new_at(true, 100);
    fixed.add_request_at(true, 10, 100);
    assert!(!fixed.should_cleanup_at(50, 150));
    assert!(fixed.should_cleanup_at(50, 151));
    assert!(!fixed.should_cleanup_at(50, 10));

    let mut log = RequestRecord::new_at(false, 100);
    log.add_request_at(false, 600, 100);
    log.add_request_at(false, 600, 400);
    // the last entry counts, not the start
    assert!(!log.should_cleanup_at(50, 450));
    assert!(log.should_cleanup_at(50, 451));
}

#[test]
fn oldest_time_is_first_entry_or_start() {
    let mut fixed = RequestRecord::new_at(true, 100);
    fixed.add_request_at(true, 10, 105);
    assert_eq!(fixed.oldest_time(), 100);
    let mut log = RequestRecord::new_at(false, 100);
    assert_eq!(log.oldest_time(), 100);
    log.add_request_at(false, 600, 200);
    log.add_request_at(false, 600, 300);
    assert_eq!(log.oldest_time(), 200);
}

#[test]
fn footprint_is_record_size_and_eight_bytes_a_slot() {
    let fixed = std::mem::size_of::<RequestRecord>();
    assert_eq!(RequestRecord::footprint(0), fixed);
    assert_eq!(RequestRecord::footprint(16), fixed + 128);
    assert_eq!(RequestRecord::footprint(usize::MAX), usize::MAX);
    assert_eq!(RequestRecord::footprint(usize::MAX / 8), usize::MAX);
}

#[test]
fn memory_usage_follows_the_buffer() {
    let fixed = std::mem::size_of::<RequestRecord>();
    let short = RequestRecord::new_at(true, 1);
    assert_eq!(short.memory_usage(), fixed);
    let long = RequestRecord::new_at(false, 1);
    assert_eq!(long.memory_usage(), RequestRecord::footprint(long.timestamps.capacity()));
    assert!(long.memory_usage() >= fixed + 16 * 8);
}

#[test]
fn methods_on_the_system_clock() {
    let mut record = RequestRecord::new(true).unwrap();
    record.add_request(true, 3_600).unwrap();
    assert_eq!(record.count, 1);
    assert!(record.is_limit_exceeded(1, true, 3_600).unwrap());
    assert!(!record.is_limit_exceeded(2, true, 3_600).unwrap());
    assert!(!record.should_cleanup(3_600).unwrap());

    let mut log = RequestRecord::new(false).unwrap();
    log.add_request(false, 3_600).unwrap();
    assert_eq!(log.timestamps.len(), 1);
    assert!(log.is_limit_exceeded(1, false, 3_600).unwrap());
    assert!(!log.should_cleanup(3_600).unwrap());
    // a record of 1970 is long stale
    let ancient = RequestRecord::new_at(true, 0);
    assert!(ancient.should_cleanup(3_600).unwrap());
}

#[test]
fn clock_reads_a_time_of_this_century() {
    let now = current_timestamp().unwrap();
    assert!(now > 1_600_000_000);
    assert!(current_timestamp().unwrap() >= now);
}
