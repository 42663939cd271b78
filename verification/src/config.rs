use crate::string_map::StringMap;
use crate::types::{Duration, RuleConfig};
use vstd::prelude::*;

verus! {

/// The memory ceiling of a new configuration: 64 MiB.
pub const DEFAULT_MAX_MEMORY: usize = 64 * 1024 * 1024;

/// The collector period of a new configuration, in seconds.
pub const DEFAULT_GC_INTERVAL: u64 = 10;

/// A record is kept this many seconds beyond the longest interval before it
/// counts as stale.
pub const CLEANUP_GRACE_SECONDS: u64 = 300;

/// The rules of a rate limiter: the default rule, the rules of single routes,
/// the memory ceiling in bytes and the collector period in seconds.
pub struct LimiterConfig {
    pub default_rule: RuleConfig,
    pub route_rules: StringMap<RuleConfig>,
    pub max_memory: usize,
    pub gc_interval: u64,
}

impl Clone for LimiterConfig {
    fn clone(&self) -> (copy: Self)
        ensures
            copy.default_rule == self.default_rule,
            copy.route_rules@ == self.route_rules@,
            copy.max_memory == self.max_memory,
            copy.gc_interval == self.gc_interval,
    {
        let route_rules = self.route_rules.clone();
        assert(route_rules@ =~= self.route_rules@);
        Self {
            default_rule: self.default_rule,
            route_rules,
            max_memory: self.max_memory,
            gc_interval: self.gc_interval,
        }
    }
}

impl LimiterConfig {
    /// The route has a rule of its own.
    pub open spec fn has_rule(self, route: Seq<char>) -> bool {
        self.route_rules@.contains_key(route)
    }

    /// The rule that applies to the route: its own, or else the default rule.
    pub open spec fn rule_for(self, route: Seq<char>) -> RuleConfig {
        if self.route_rules@.contains_key(route) {
            self.route_rules@[route]
        } else {
            self.default_rule
        }
    }

    /// No interval of the configuration is longer than `seconds`.
    pub open spec fn bounded_by(self, seconds: nat) -> bool {
        &&& self.default_rule.interval.spec_seconds() <= seconds
        &&& forall|route: Seq<char>| #[trigger]
            self.route_rules@.contains_key(route)
                ==> self.route_rules@[route].interval.spec_seconds() <= seconds
    }

    /// The interval is that of the default rule or of some route's rule.
    pub open spec fn has_interval(self, interval: Duration) -> bool {
        ||| self.default_rule.interval == interval
        ||| exists|route: Seq<char>| #[trigger]
            self.route_rules@.contains_key(route) && self.route_rules@[route].interval == interval
    }

    /// The interval is one of the configuration's, and none of them is longer.
    pub open spec fn is_longest(self, interval: Duration) -> bool {
        self.has_interval(interval) && self.bounded_by(interval.spec_seconds())
    }

    /// The age in seconds beyond which a record is stale: the longest interval
    /// and the grace period.
    pub open spec fn max_age(self) -> nat {
        let longest = choose|interval: Duration| self.is_longest(interval);
        longest.spec_seconds() + CLEANUP_GRACE_SECONDS as nat
    }

    /// Every interval, and the age beyond which records are stale, can be held
    /// in a `u64`.
    pub open spec fn valid(self) -> bool {
        self.bounded_by((u64::MAX - CLEANUP_GRACE_SECONDS) as nat)
    }

    /// All longest intervals have the same length, so any of them gives the
    /// age beyond which a record is stale.
    pub proof fn lemma_longest_gives_max_age(self, interval: Duration)
        requires
            self.is_longest(interval),
        ensures
            self.max_age() == interval.spec_seconds() + CLEANUP_GRACE_SECONDS,
    {
        let chosen = choose|interval: Duration| self.is_longest(interval);
        assert(self.is_longest(chosen));
        assert(chosen.spec_seconds() <= interval.spec_seconds());
        assert(interval.spec_seconds() <= chosen.spec_seconds());
    }

    /// A configuration with the given default rule, no route rules, a memory
    /// ceiling of 64 MiB and a collector period of ten seconds.
    pub fn new(default_rule: RuleConfig) -> (config: Self)
        ensures
            config.default_rule == default_rule,
            config.route_rules@ == Map::<Seq<char>, RuleConfig>::empty(),
            config.max_memory == DEFAULT_MAX_MEMORY,
            config.gc_interval == DEFAULT_GC_INTERVAL,
    {
        Self {
            default_rule,
            route_rules: StringMap::new(),
            max_memory: DEFAULT_MAX_MEMORY,
            gc_interval: DEFAULT_GC_INTERVAL,
        }
    }

    /// Gives the route a rule of its own, in place of any it had.
    pub fn add_route_rule(self, route: &str, rule: RuleConfig) -> (config: Self)
        ensures
            config.route_rules@ == self.route_rules@.insert(route@, rule),
            config.default_rule == self.default_rule,
            config.max_memory == self.max_memory,
            config.gc_interval == self.gc_interval,
    {
        let mut config = self;
        let key = route.to_owned();
        config.route_rules.insert(&key, rule);
        config
    }

    pub fn with_max_memory(self, max_memory: usize) -> (config: Self)
        ensures
            config.max_memory == max_memory,
            config.default_rule == self.default_rule,
            config.route_rules@ == self.route_rules@,
            config.gc_interval == self.gc_interval,
    {
        let mut config = self;
        config.max_memory = max_memory;
        config
    }

    pub fn with_gc_interval(self, gc_interval: u64) -> (config: Self)
        ensures
            config.gc_interval == gc_interval,
            config.default_rule == self.default_rule,
            config.route_rules@ == self.route_rules@,
            config.max_memory == self.max_memory,
    {
        let mut config = self;
        config.gc_interval = gc_interval;
        config
    }

    /// The longest interval among the default rule and the route rules.
    pub fn max_interval(&self) -> (longest: Duration)
        ensures
            self.is_longest(longest),
    {
        let mut max = self.default_rule.interval;
        let n = self.route_rules.len();
        let mut i: usize = 0;
        while i < n
            invariant
                i <= n,
                n == self.route_rules.order().len(),
                self.has_interval(max),
                self.default_rule.interval.spec_seconds() <= max.spec_seconds(),
                forall|j: int|
                    0 <= j < i ==> self.route_rules@[#[trigger] self.route_rules.order()[j]].interval.spec_seconds()
                        <= max.spec_seconds(),
            decreases n - i,
        {
            let rule = self.route_rules.value_at(i);
            if rule.interval.total_seconds() > max.total_seconds() {
                max = rule.interval;
            }
            i += 1;
        }
        proof {
            assert forall|route: Seq<char>| #[trigger]
                self.route_rules@.contains_key(route) implies self.route_rules@[route].interval.spec_seconds()
                <= max.spec_seconds() by {
                assert(self.route_rules.order().contains(route));
                let j = choose|j: int|
                    0 <= j < self.route_rules.order().len() && self.route_rules.order()[j]
                        == route;
                assert(self.route_rules@[self.route_rules.order()[j]].interval.spec_seconds()
                    <= max.spec_seconds());
            }
        }
        max
    }

    /// The rule of the route if it has one of its own, else the default rule.
    pub fn get_rule_for_route(&self, route: &str) -> (rule: &RuleConfig)
        ensures
            *rule == self.rule_for(route@),
    {
        let key = route.to_owned();
        match self.route_rules.get(&key) {
            Some(rule) => rule,
            None => &self.default_rule,
        }
    }

    /// The route has a rule of its own.
    pub fn has_route_rule(&self, route: &str) -> (found: bool)
        ensures
            found == self.has_rule(route@),
    {
        let key = route.to_owned();
        self.route_rules.contains_key(&key)
    }

    /// Tells whether the configuration is valid: whether every interval, with
    /// the grace period added, can be held in a `u64`.
    pub fn is_valid(&self) -> (valid: bool)
        ensures
            valid == self.valid(),
    {
        let bound: u128 = (u64::MAX - CLEANUP_GRACE_SECONDS) as u128;
        self.max_interval().total_seconds() <= bound
    }
}

} // verus!
