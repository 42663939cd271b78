use lazy_limit::{current_timestamp, Duration, LimiterConfig, RateLimiter, RuleConfig};

/// Spins until the clock shows a new second and hands that second back, so
/// that a burst of calls that follows falls into one second.
fn wait_for_tick() -> u64 {
    let start = current_timestamp().unwrap();
    loop {
        let now = current_timestamp().unwrap();
        if now != start {
            return now;
        }
    }
}

/// Spins until the clock shows `second` or later.
fn wait_until(second: u64) {
    while current_timestamp().unwrap() < second {}
}

#[test]
fn test_basic_rate_limiting() {
    let config = LimiterConfig::new(RuleConfig::new(Duration::seconds(1), 2));
    let mut limiter = RateLimiter::new(config);

    let who = "test_ip";
    let route = "/test";

    let started = wait_for_tick();
    assert!(limiter.check_limit(who, route, false).unwrap());
    assert!(limiter.check_limit(who, route, false).unwrap());

    assert!(!limiter.check_limit(who, route, false).unwrap());

    wait_until(started + 2);
    assert!(limiter.check_limit(who, route, false).unwrap());
}

#[test]
fn test_rate_limiting_basic() {
    let config = LimiterConfig::new(RuleConfig::new(Duration::seconds(1), 2));
    let mut limiter = RateLimiter::new(config);

    let who = "test_user_basic";
    let route = "/test";

    let started = wait_for_tick();
    assert!(limiter.check_limit(who, route, false).unwrap());
    assert!(limiter.check_limit(who, route, false).unwrap());
    assert!(!limiter.check_limit(who, route, false).unwrap());

    wait_until(started + 2);
    assert!(limiter.check_limit(who, route, false).unwrap());
}

#[test]
fn test_route_specific_rules_and_global_limit() {
    let config = LimiterConfig::new(RuleConfig::new(Duration::seconds(1), 2))
        .add_route_rule("/special", RuleConfig::new(Duration::seconds(1), 5));

    let mut limiter = RateLimiter::new(config);
    let who = "test_user_route";

    let started = wait_for_tick();
    assert!(
        limiter.check_limit(who, "/special", false).unwrap(),
        "Req 1 to /special should pass"
    );
    assert!(
        limiter.check_limit(who, "/special", false).unwrap(),
        "Req 2 to /special should pass"
    );

    assert!(
        !limiter.check_limit(who, "/special", false).unwrap(),
        "Req 3 to /special should fail due to global limit"
    );

    assert!(
        !limiter.check_limit(who, "/regular", false).unwrap(),
        "Req to /regular should fail as global limit is reached"
    );

    wait_until(started + 2);
    wait_for_tick();

    assert!(
        limiter.check_limit(who, "/regular", false).unwrap(),
        "Req 1 to /regular after wait should pass"
    );
    assert!(
        limiter.check_limit(who, "/regular", false).unwrap(),
        "Req 2 to /regular after wait should pass"
    );
    assert!(
        !limiter.check_limit(who, "/regular", false).unwrap(),
        "Req 3 to /regular after wait should fail"
    );
}

#[test]
fn test_override_mode() {
    let config = LimiterConfig::new(RuleConfig::new(Duration::seconds(1), 1))
        .add_route_rule("/premium", RuleConfig::new(Duration::seconds(1), 5));

    let mut limiter = RateLimiter::new(config);
    let who = "test_user_override";

    wait_for_tick();
    for i in 1..=5 {
        assert!(
            limiter.check_limit(who, "/premium", true).unwrap(),
            "Override request {} should pass",
            i
        );
    }
    assert!(
        !limiter.check_limit(who, "/premium", true).unwrap(),
        "Override request 6 should fail"
    );

    assert!(
        limiter.check_limit(who, "/other", true).unwrap(),
        "/other should be allowed in override"
    );
}

#[test]
fn test_different_users() {
    let config = LimiterConfig::new(RuleConfig::new(Duration::seconds(1), 1));
    let mut limiter = RateLimiter::new(config);
    let route = "/test_multi_user";

    wait_for_tick();
    assert!(limiter.check_limit("user1", route, false).unwrap());
    assert!(!limiter.check_limit("user1", route, false).unwrap());

    assert!(limiter.check_limit("user2", route, false).unwrap());
    assert!(!limiter.check_limit("user2", route, false).unwrap());
}

fn limiter_with(default: RuleConfig) -> RateLimiter {
    RateLimiter::new(LimiterConfig::new(default))
}

#[test]
fn nine_immediate_calls_then_one_after_a_second() {
    let mut limiter = limiter_with(RuleConfig::new(Duration::seconds(1), 5));
    let mut verdicts = Vec::new();
    for _ in 0..9 {
        verdicts.push(limiter.check_limit_at("1.1.1.1", "/p", false, 1_000));
    }
    assert_eq!(
        verdicts,
        vec![true, true, true, true, true, false, false, false, false]
    );
    assert!(limiter.check_limit_at("1.1.1.1", "/p", false, 1_001));
}

#[test]
fn global_rule_caps_a_looser_route_rule() {
    let config = LimiterConfig::new(RuleConfig::new(Duration::seconds(1), 5))
        .add_route_rule("/api/public", RuleConfig::new(Duration::seconds(1), 10));
    let mut limiter = RateLimiter::new(config);
    let mut verdicts = Vec::new();
    for _ in 0..6 {
        verdicts.push(limiter.check_limit_at("2.2.2.2", "/api/public", false, 50));
    }
    assert_eq!(verdicts, vec![true, true, true, true, true, false]);
    assert!(!limiter.check_limit_at("2.2.2.2", "/elsewhere", false, 50));
}

#[test]
fn limit_holds_until_the_window_is_over() {
    let mut limiter = limiter_with(RuleConfig::new(Duration::seconds(10), 3));
    assert!(limiter.check_limit_at("a", "/r", false, 100));
    assert!(limiter.check_limit_at("a", "/r", false, 103));
    assert!(limiter.check_limit_at("a", "/r", false, 109));
    assert!(!limiter.check_limit_at("a", "/r", false, 109));
    // one second short of the interval: the window that began at 100 still holds
    assert!(!limiter.check_limit_at("a", "/r", false, 109));
    assert!(limiter.check_limit_at("a", "/r", false, 110));
}

#[test]
fn fixed_window_resets_whatever_came_before() {
    let mut limiter = limiter_with(RuleConfig::new(Duration::minutes(1), 2));
    assert!(limiter.check_limit_at("a", "/r", false, 500));
    assert!(limiter.check_limit_at("a", "/r", false, 510));
    assert!(!limiter.check_limit_at("a", "/r", false, 520));
    assert!(!limiter.check_limit_at("a", "/r", false, 559));
    assert!(limiter.check_limit_at("a", "/r", false, 560));
    // the new window began at 560
    assert!(limiter.check_limit_at("a", "/r", false, 600));
    assert!(!limiter.check_limit_at("a", "/r", false, 619));
    assert!(limiter.check_limit_at("a", "/r", false, 620));
}

#[test]
fn sliding_log_admits_when_the_oldest_request_leaves() {
    // ten minutes: longer than 300 s, so the log of timestamps is used
    let mut limiter = limiter_with(RuleConfig::new(Duration::minutes(10), 3));
    assert!(limiter.check_limit_at("a", "/r", false, 1_000));
    assert!(limiter.check_limit_at("a", "/r", false, 1_100));
    assert!(limiter.check_limit_at("a", "/r", false, 1_500));
    assert!(!limiter.check_limit_at("a", "/r", false, 1_599));
    // 600 s after the oldest admitted request
    assert!(limiter.check_limit_at("a", "/r", false, 1_600));
    // the log now holds 1100, 1500, 1600: a fixed window would have reset here
    assert!(!limiter.check_limit_at("a", "/r", false, 1_650));
    assert!(!limiter.check_limit_at("a", "/r", false, 1_699));
    assert!(limiter.check_limit_at("a", "/r", false, 1_700));
}

#[test]
fn refused_request_is_not_counted() {
    let mut limiter = limiter_with(RuleConfig::new(Duration::minutes(10), 1));
    assert!(limiter.check_limit_at("a", "/r", false, 1_000));
    assert!(!limiter.check_limit_at("a", "/r", false, 1_300));
    // had the refusal at 1300 been logged, this one would be refused too
    assert!(limiter.check_limit_at("a", "/r", false, 1_600));
}

#[test]
fn exhausted_global_scope_leaves_the_route_untouched() {
    let config = LimiterConfig::new(RuleConfig::new(Duration::seconds(60), 2))
        .add_route_rule("/wide", RuleConfig::new(Duration::seconds(60), 100));
    let mut limiter = RateLimiter::new(config);
    assert!(limiter.check_limit_at("a", "/one", false, 10));
    assert!(limiter.check_limit_at("a", "/two", false, 10));
    assert_eq!(limiter.get_stats(), (1, 3));
    // the global budget of two is spent: refused on a route never seen, and no
    // record is made for that route
    assert!(!limiter.check_limit_at("a", "/wide", false, 10));
    assert_eq!(limiter.get_stats(), (1, 3));
    // in override mode the route's own rule decides, and it has room
    assert!(limiter.check_limit_at("a", "/wide", true, 10));
    assert_eq!(limiter.get_stats(), (1, 4));
}

#[test]
fn override_mode_without_route_rule_always_admits_and_counts_nothing() {
    let mut limiter = limiter_with(RuleConfig::new(Duration::seconds(1), 1));
    for _ in 0..20 {
        assert!(limiter.check_limit_at("a", "/free", true, 7));
    }
    assert_eq!(limiter.get_stats(), (0, 0));
    // nothing was counted against the global budget either
    assert!(limiter.check_limit_at("a", "/free", false, 7));
    assert!(!limiter.check_limit_at("a", "/free", false, 7));
}

#[test]
fn override_mode_with_route_rule_ignores_the_global_scope() {
    let config = LimiterConfig::new(RuleConfig::new(Duration::seconds(30), 1))
        .add_route_rule("/premium", RuleConfig::new(Duration::seconds(30), 3));
    let mut limiter = RateLimiter::new(config);
    // spend the global budget
    assert!(limiter.check_limit_at("a", "/plain", false, 5));
    assert!(!limiter.check_limit_at("a", "/plain", false, 5));
    let verdicts: Vec<bool> =
        (0..4).map(|_| limiter.check_limit_at("a", "/premium", true, 5)).collect();
    assert_eq!(verdicts, vec![true, true, true, false]);
    // global record, /plain and /premium
    assert_eq!(limiter.get_stats(), (1, 3));
}

#[test]
fn identities_do_not_share_a_quota() {
    let mut limiter = limiter_with(RuleConfig::new(Duration::seconds(60), 2));
    assert!(limiter.check_limit_at("A", "/r", false, 1));
    assert!(limiter.check_limit_at("A", "/r", false, 1));
    assert!(!limiter.check_limit_at("A", "/r", false, 1));
    assert!(limiter.check_limit_at("B", "/r", false, 1));
    assert!(limiter.check_limit_at("B", "/r", false, 1));
    assert!(!limiter.check_limit_at("B", "/r", false, 1));
    assert_eq!(limiter.get_stats(), (2, 4));
}

#[test]
fn unconfigured_route_is_booked_against_global_and_route_scope() {
    let mut limiter = limiter_with(RuleConfig::new(Duration::seconds(60), 5));
    // three requests on /a and two on /b: each route stays under its own
    // five, and together they spend the global five
    for _ in 0..3 {
        assert!(limiter.check_limit_at("a", "/a", false, 9));
    }
    for _ in 0..2 {
        assert!(limiter.check_limit_at("a", "/b", false, 9));
    }
    assert_eq!(limiter.get_stats(), (1, 3));
    // /c was never used, yet the global scope refuses
    assert!(!limiter.check_limit_at("a", "/c", false, 9));
    // once the global window is over, /a has its own window over as well
    assert!(limiter.check_limit_at("a", "/a", false, 69));
}

#[test]
fn route_named_like_the_global_scope_is_counted_once() {
    let mut limiter = limiter_with(RuleConfig::new(Duration::seconds(60), 2));
    assert!(limiter.check_limit_at("a", "__global__", false, 3));
    assert_eq!(limiter.get_stats(), (1, 1));
    assert!(limiter.check_limit_at("a", "__global__", false, 3));
    assert!(!limiter.check_limit_at("a", "__global__", false, 3));
    assert_eq!(limiter.get_stats(), (1, 1));
    // the budget that it spent is the global one
    assert!(!limiter.check_limit_at("a", "/r", false, 3));
}

#[test]
fn first_request_passes_even_with_a_limit_of_zero() {
    let mut limiter = limiter_with(RuleConfig::new(Duration::seconds(60), 0));
    assert!(limiter.check_limit_at("a", "/r", false, 3));
    assert!(!limiter.check_limit_at("a", "/r", false, 3));
}

#[test]
fn clear_all_forgets_every_record() {
    let mut limiter = limiter_with(RuleConfig::new(Duration::seconds(60), 1));
    assert!(limiter.check_limit_at("a", "/r", false, 3));
    assert!(!limiter.check_limit_at("a", "/r", false, 3));
    limiter.clear_all();
    assert_eq!(limiter.get_stats(), (0, 0));
    assert!(limiter.check_limit_at("a", "/r", false, 3));
}

#[test]
fn collector_drops_stale_records_of_a_limiter() {
    let mut limiter = limiter_with(RuleConfig::new(Duration::seconds(60), 5));
    assert!(limiter.check_limit_at("old", "/r", false, 1_000));
    assert!(limiter.check_limit_at("new", "/r", false, 1_300));
    // stale after 60 + 300 seconds without activity
    limiter.collect_garbage_at(1_360);
    assert_eq!(limiter.get_stats(), (2, 4));
    limiter.collect_garbage_at(1_361);
    assert_eq!(limiter.get_stats(), (1, 2));
    limiter.collect_garbage_at(1_361);
    assert_eq!(limiter.get_stats(), (1, 2));
    limiter.collect_garbage_at(1_661);
    assert_eq!(limiter.get_stats(), (0, 0));
}

#[test]
fn override_without_rule_is_admitted_on_the_system_clock_too() {
    let mut limiter = limiter_with(RuleConfig::new(Duration::seconds(3_600), 1));
    assert!(limiter.check_limit("w", "/r", false).unwrap());
    assert!(!limiter.check_limit("w", "/r", false).unwrap());
    // the global record and the record of (w, /r) are both at their limit
    for _ in 0..3 {
        assert_eq!(limiter.check_limit("w", "/r", true), Ok(true));
    }
    assert_eq!(limiter.get_stats(), (1, 2));
}

#[test]
fn collector_leaves_a_limiter_without_records_alone() {
    let mut limiter = limiter_with(RuleConfig::new(Duration::seconds(60), 5));
    assert_eq!(limiter.collect_garbage(), Ok(()));
    assert_eq!(limiter.get_stats(), (0, 0));
}

#[test]
fn collector_runs_on_the_system_clock() {
    let mut limiter = limiter_with(RuleConfig::new(Duration::seconds(60), 5));
    assert!(limiter.check_limit("a", "/r", false).unwrap());
    limiter.collect_garbage().unwrap();
    assert_eq!(limiter.get_stats(), (1, 2));
}
