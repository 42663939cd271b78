use lazy_limit::{Duration, LimiterConfig, RuleConfig};

#[test]
fn new_config_has_the_defaults() {
    let config = LimiterConfig::new(RuleConfig::new(Duration::seconds(1), 5));
    assert_eq!(config.default_rule.limit, 5);
    assert_eq!(config.default_rule.interval, Duration::Seconds(1));
    assert_eq!(config.max_memory, 64 * 1024 * 1024);
    assert_eq!(config.gc_interval, 10);
    assert!(config.route_rules.is_empty());
    assert!(!config.has_route_rule("/any"));
}

#[test]
fn builders_set_one_field_each() {
    let config = LimiterConfig::new(RuleConfig::new(Duration::seconds(1), 5))
        .with_max_memory(1_000)
        .with_gc_interval(3)
        .add_route_rule("/login", RuleConfig::new(Duration::minutes(1), 3));
    assert_eq!(config.max_memory, 1_000);
    assert_eq!(config.gc_interval, 3);
    assert_eq!(config.default_rule.limit, 5);
    assert_eq!(config.route_rules.len(), 1);
}

#[test]
fn route_rule_overrides_the_default() {
    let config = LimiterConfig::new(RuleConfig::new(Duration::seconds(1), 5))
        .add_route_rule("/login", RuleConfig::new(Duration::minutes(1), 3));
    assert!(config.has_route_rule("/login"));
    assert!(!config.has_route_rule("/login/"));
    assert!(!config.has_route_rule("/LOGIN"));
    let own = config.get_rule_for_route("/login");
    assert_eq!((own.interval, own.limit), (Duration::Minutes(1), 3));
    let other = config.get_rule_for_route("/log");
    assert_eq!((other.interval, other.limit), (Duration::Seconds(1), 5));
}

#[test]
fn last_rule_for_a_route_wins() {
    let config = LimiterConfig::new(RuleConfig::new(Duration::seconds(1), 5))
        .add_route_rule("/a", RuleConfig::new(Duration::seconds(2), 1))
        .add_route_rule("/b", RuleConfig::new(Duration::seconds(3), 2))
        .add_route_rule("/a", RuleConfig::new(Duration::seconds(4), 9));
    assert_eq!(config.route_rules.len(), 2);
    let rule = config.get_rule_for_route("/a");
    assert_eq!((rule.interval, rule.limit), (Duration::Seconds(4), 9));
    let rule = config.get_rule_for_route("/b");
    assert_eq!((rule.interval, rule.limit), (Duration::Seconds(3), 2));
}

#[test]
fn max_interval_is_the_longest_in_seconds() {
    let config = LimiterConfig::new(RuleConfig::new(Duration::seconds(1), 5));
    assert_eq!(config.max_interval(), Duration::Seconds(1));
    let config = config
        .add_route_rule("/a", RuleConfig::new(Duration::minutes(1), 1))
        .add_route_rule("/b", RuleConfig::new(Duration::seconds(1_000), 1))
        .add_route_rule("/c", RuleConfig::new(Duration::minutes(2), 1));
    assert_eq!(config.max_interval(), Duration::Seconds(1_000));
    let config = config.add_route_rule("/d", RuleConfig::new(Duration::hours(1), 1));
    assert_eq!(config.max_interval().as_seconds(), 3_600);
    // a rule that is replaced no longer counts
    let config = config.add_route_rule("/d", RuleConfig::new(Duration::seconds(5), 1));
    assert_eq!(config.max_interval(), Duration::Seconds(1_000));
}

#[test]
fn max_interval_may_be_the_default() {
    let config = LimiterConfig::new(RuleConfig::new(Duration::days(1), 5))
        .add_route_rule("/a", RuleConfig::new(Duration::hours(23), 1));
    assert_eq!(config.max_interval(), Duration::Days(1));
}

#[test]
fn config_is_valid_while_intervals_fit() {
    let config = LimiterConfig::new(RuleConfig::new(Duration::seconds(u64::MAX - 300), 5));
    assert!(config.is_valid());
    let config = LimiterConfig::new(RuleConfig::new(Duration::seconds(u64::MAX - 299), 5));
    assert!(!config.is_valid());
    let config = LimiterConfig::new(RuleConfig::new(Duration::seconds(1), 5))
        .add_route_rule("/a", RuleConfig::new(Duration::days(u64::MAX), 1));
    assert!(!config.is_valid());
    let config = config.add_route_rule("/a", RuleConfig::new(Duration::days(1), 1));
    assert!(config.is_valid());
}

#[test]
fn clone_keeps_every_rule() {
    let config = LimiterConfig::new(RuleConfig::new(Duration::seconds(1), 5))
        .with_max_memory(77)
        .with_gc_interval(8)
        .add_route_rule("/a", RuleConfig::new(Duration::seconds(2), 1))
        .add_route_rule("/b", RuleConfig::new(Duration::seconds(3), 2));
    let copy = config.clone();
    assert_eq!(copy.max_memory, 77);
    assert_eq!(copy.gc_interval, 8);
    assert_eq!(copy.default_rule.limit, 5);
    assert_eq!(copy.route_rules.len(), 2);
    assert_eq!(copy.get_rule_for_route("/a").limit, 1);
    assert_eq!(copy.get_rule_for_route("/b").limit, 2);
    assert_eq!(copy.get_rule_for_route("/c").limit, 5);
}
