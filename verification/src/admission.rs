use crate::config::LimiterConfig;
use crate::store::{has_record, with_record, StoreModel};
use crate::types::{
    lemma_live_entries_all, lemma_live_entries_len, live_entries, within_window, window_elapsed,
    RecordView, RuleConfig,
};
use vstd::prelude::*;

verus! {

/// The scope under which the global budget of an identity is tracked. A route
/// of this name has no scope of its own: it is the global scope.
pub const GLOBAL_SCOPE: &'static str = "__global__";

/// The identity has used up the rule's limit in the scope at `now`. An
/// identity without a record in the scope has not.
pub open spec fn scope_exceeded(
    store: StoreModel,
    who: Seq<char>,
    scope: Seq<char>,
    rule: RuleConfig,
    now: u64,
) -> bool {
    has_record(store, who, scope) && store[who][scope].exceeded(
        rule.limit,
        rule.interval.is_short(),
        rule.interval.spec_seconds(),
        now,
    )
}

/// The record with which the identity enters a request in the scope: the one
/// in the store, or else one made at `now`.
pub open spec fn record_before(
    store: StoreModel,
    who: Seq<char>,
    scope: Seq<char>,
    now: u64,
) -> RecordView {
    if has_record(store, who, scope) {
        store[who][scope]
    } else {
        RecordView::fresh(now)
    }
}

/// The store after a request of the identity at `now` was counted in the scope
/// under the rule.
pub open spec fn with_request(
    store: StoreModel,
    who: Seq<char>,
    scope: Seq<char>,
    rule: RuleConfig,
    now: u64,
) -> StoreModel {
    with_record(
        store,
        who,
        scope,
        record_before(store, who, scope, now).after_request(
            rule.interval.is_short(),
            rule.interval.spec_seconds(),
            now,
        ),
    )
}

/// The verdict on a request of `who` for `route` at `now`.
///
/// In override mode only the route's own rule counts, and a route without one
/// is always admitted. Otherwise the request must pass the default rule in the
/// global scope and the route's rule (its own, or else the default rule) in
/// the route's scope.
pub open spec fn admits(
    config: LimiterConfig,
    store: StoreModel,
    who: Seq<char>,
    route: Seq<char>,
    override_mode: bool,
    now: u64,
) -> bool {
    if override_mode {
        !config.has_rule(route) || !scope_exceeded(store, who, route, config.rule_for(route), now)
    } else {
        &&& !scope_exceeded(store, who, GLOBAL_SCOPE@, config.default_rule, now)
        &&& !scope_exceeded(store, who, route, config.rule_for(route), now)
    }
}

/// The store after an admitted request was counted in every scope that the
/// verdict looked at, once in each.
pub open spec fn committed(
    config: LimiterConfig,
    store: StoreModel,
    who: Seq<char>,
    route: Seq<char>,
    override_mode: bool,
    now: u64,
) -> StoreModel {
    if override_mode {
        if config.has_rule(route) {
            with_request(store, who, route, config.rule_for(route), now)
        } else {
            store
        }
    } else {
        let counted = with_request(store, who, GLOBAL_SCOPE@, config.default_rule, now);
        if route == GLOBAL_SCOPE@ {
            counted
        } else {
            with_request(counted, who, route, config.rule_for(route), now)
        }
    }
}

/// The store after a request: counted if it was admitted, untouched if not.
pub open spec fn after_check(
    config: LimiterConfig,
    store: StoreModel,
    who: Seq<char>,
    route: Seq<char>,
    override_mode: bool,
    now: u64,
) -> StoreModel {
    if admits(config, store, who, route, override_mode, now) {
        committed(config, store, who, route, override_mode, now)
    } else {
        store
    }
}

/// A log that gains one entry gains at most one live entry.
pub proof fn lemma_one_more_live(log: Seq<u64>, window: nat, now: u64)
    ensures
        live_entries(log.push(now), window, now).len() <= live_entries(log, window, now).len() + 1,
{
    assert(log.push(now).drop_last() == log);
}

/// Where an identity has not used up the rule's limit in a scope, the record
/// with which it enters a request there can count one more.
pub proof fn lemma_room_to_count(
    store: StoreModel,
    who: Seq<char>,
    scope: Seq<char>,
    rule: RuleConfig,
    now: u64,
)
    requires
        !scope_exceeded(store, who, scope, rule, now),
    ensures
        record_before(store, who, scope, now).can_count(
            rule.interval.is_short(),
            rule.interval.spec_seconds(),
            now,
        ),
{
    let record = record_before(store, who, scope, now);
    lemma_one_more_live(record.timestamps, rule.interval.spec_seconds(), now);
}


/// The store after checks of one identity on one route at the given times, one
/// after the other.
pub open spec fn after_checks(
    config: LimiterConfig,
    store: StoreModel,
    who: Seq<char>,
    route: Seq<char>,
    override_mode: bool,
    times: Seq<u64>,
) -> StoreModel
    decreases times.len(),
{
    if times.len() == 0 {
        store
    } else {
        after_check(
            config,
            after_checks(config, store, who, route, override_mode, times.drop_last()),
            who,
            route,
            override_mode,
            times.last(),
        )
    }
}

/// The verdict on the check at `times[i]`, which follows those at the earlier
/// times.
pub open spec fn verdict_at(
    config: LimiterConfig,
    store: StoreModel,
    who: Seq<char>,
    route: Seq<char>,
    override_mode: bool,
    times: Seq<u64>,
    i: int,
) -> bool {
    admits(
        config,
        after_checks(config, store, who, route, override_mode, times.take(i)),
        who,
        route,
        override_mode,
        times[i],
    )
}

/// Time does not run backwards along `times`, and each of them lies less than
/// `window` seconds after the first.
pub open spec fn within_one_window(times: Seq<u64>, window: nat) -> bool {
    &&& forall|i: int, j: int| 0 <= i <= j < times.len() ==> times[i] <= times[j]
    &&& forall|i: int| 0 <= i < times.len() ==> #[trigger] times[i] - times[0] < window
}

/// What a scope's record holds once `counted` requests were counted in it, the
/// first at `times[0]` and all within one window.
pub open spec fn record_of_run(rule: RuleConfig, times: Seq<u64>, counted: int) -> RecordView {
    RecordView {
        count: counted as u32,
        window_start: times[0],
        timestamps: if rule.interval.is_short() {
            Seq::empty()
        } else {
            times.take(counted)
        },
    }
}

/// The smaller of two numbers.
pub open spec fn at_most(n: int, limit: int) -> int {
    if n < limit {
        n
    } else {
        limit
    }
}

/// A new identity on a route without a rule of its own: after `n >= 1` checks
/// within one window, the global scope and the route's scope both hold the
/// record of a run in which the first `limit` checks were counted.
proof fn lemma_run_state(
    config: LimiterConfig,
    store: StoreModel,
    who: Seq<char>,
    route: Seq<char>,
    times: Seq<u64>,
    n: int,
)
    requires
        !config.has_rule(route),
        !has_record(store, who, GLOBAL_SCOPE@),
        !has_record(store, who, route),
        config.default_rule.limit >= 1,
        within_one_window(times, config.default_rule.interval.spec_seconds()),
        1 <= n <= times.len(),
    ensures
        ({
            let rule = config.default_rule;
            let after = after_checks(config, store, who, route, false, times.take(n));
            let record = record_of_run(rule, times, at_most(n, rule.limit as int));
            &&& has_record(after, who, GLOBAL_SCOPE@)
            &&& has_record(after, who, route)
            &&& after[who][GLOBAL_SCOPE@] == record
            &&& after[who][route] == record
            &&& verdict_at(config, store, who, route, false, times, n - 1) == (n - 1
                < rule.limit)
        }),
    decreases n,
{
    let rule = config.default_rule;
    let window = rule.interval.spec_seconds();
    let limit = rule.limit as int;
    let now = times[n - 1];
    let earlier = times.take(n - 1);
    assert(times.take(n).drop_last() == earlier);
    assert(times.take(n).last() == now);
    let before = after_checks(config, store, who, route, false, earlier);
    let after = after_checks(config, store, who, route, false, times.take(n));
    assert(after == after_check(config, before, who, route, false, now));
    assert(now - times[0] < window);
    if n == 1 {
        assert(before == store);
        let first = RecordView::fresh(now).after_request(rule.interval.is_short(), window, now);
        assert(live_entries(Seq::<u64>::empty().push(now), window, now) == seq![now]) by {
            assert(Seq::<u64>::empty().push(now).drop_last() == Seq::<u64>::empty());
            assert(live_entries(Seq::<u64>::empty(), window, now) == Seq::<u64>::empty());
            assert(within_window(now, window, now));
        }
        assert(times.take(1) == seq![now]);
        assert(first == record_of_run(rule, times, 1));
    } else {
        lemma_run_state(config, store, who, route, times, n - 1);
        let counted = at_most(n - 1, limit);
        let record = record_of_run(rule, times, counted);
        assert(!window_elapsed(record.window_start, window, now));
        if !rule.interval.is_short() {
            assert forall|i: int| 0 <= i < times.take(counted).len() implies within_window(
                #[trigger] times.take(counted)[i],
                window,
                now,
            ) by {
                assert(times[0] <= times[i]);
            }
            lemma_live_entries_all(times.take(counted), window, now);
            if counted < limit {
                assert(times.take(counted).push(now) == times.take(counted + 1));
                assert forall|i: int| 0 <= i < times.take(counted + 1).len() implies within_window(
                    #[trigger] times.take(counted + 1)[i],
                    window,
                    now,
                ) by {
                    assert(times[0] <= times[i]);
                }
                lemma_live_entries_all(times.take(counted + 1), window, now);
            }
        }
    }
}

/// With a default rule of `limit >= 1` requests per interval and a route
/// without a rule of its own, the checks of a new identity within one window
/// are admitted until `limit` of them were, and refused from then on.
pub proof fn lemma_limit_within_window(
    config: LimiterConfig,
    store: StoreModel,
    who: Seq<char>,
    route: Seq<char>,
    times: Seq<u64>,
)
    requires
        !config.has_rule(route),
        !has_record(store, who, GLOBAL_SCOPE@),
        !has_record(store, who, route),
        config.default_rule.limit >= 1,
        within_one_window(times, config.default_rule.interval.spec_seconds()),
    ensures
        forall|i: int|
            0 <= i < times.len() ==> #[trigger] verdict_at(
                config,
                store,
                who,
                route,
                false,
                times,
                i,
            ) == (i < config.default_rule.limit),
{
    assert forall|i: int| 0 <= i < times.len() implies #[trigger] verdict_at(
        config,
        store,
        who,
        route,
        false,
        times,
        i,
    ) == (i < config.default_rule.limit) by {
        lemma_run_state(config, store, who, route, times, i + 1);
    }
}

/// Under a short default interval, in a run of checks that a new identity makes
/// within one window on a route without a rule of its own, the global scope
/// and the route's scope keep the window that the first check opened.
proof fn lemma_window_stays_open(
    config: LimiterConfig,
    store: StoreModel,
    who: Seq<char>,
    route: Seq<char>,
    times: Seq<u64>,
    n: int,
)
    requires
        !config.has_rule(route),
        !has_record(store, who, GLOBAL_SCOPE@),
        !has_record(store, who, route),
        config.default_rule.interval.is_short(),
        within_one_window(times, config.default_rule.interval.spec_seconds()),
        1 <= n <= times.len(),
    ensures
        ({
            let after = after_checks(config, store, who, route, false, times.take(n));
            &&& has_record(after, who, GLOBAL_SCOPE@)
            &&& has_record(after, who, route)
            &&& after[who][GLOBAL_SCOPE@].window_start == times[0]
            &&& after[who][route].window_start == times[0]
        }),
    decreases n,
{
    let now = times[n - 1];
    assert(times.take(n).drop_last() == times.take(n - 1));
    assert(times.take(n).last() == now);
    assert(now - times[0] < config.default_rule.interval.spec_seconds());
    let before = after_checks(config, store, who, route, false, times.take(n - 1));
    let after = after_checks(config, store, who, route, false, times.take(n));
    assert(after == after_check(config, before, who, route, false, now));
    if n == 1 {
        assert(before == store);
    } else {
        lemma_window_stays_open(config, store, who, route, times, n - 1);
    }
}

/// With a short default interval and a route without a rule of its own: once
/// the interval has passed since the first check of a new identity, the next
/// check is admitted, however many checks the window saw and whatever their
/// verdicts were.
pub proof fn lemma_fixed_window_resets(
    config: LimiterConfig,
    store: StoreModel,
    who: Seq<char>,
    route: Seq<char>,
    times: Seq<u64>,
    now: u64,
)
    requires
        !config.has_rule(route),
        !has_record(store, who, GLOBAL_SCOPE@),
        !has_record(store, who, route),
        config.default_rule.interval.is_short(),
        within_one_window(times, config.default_rule.interval.spec_seconds()),
        times.len() >= 1,
        now - times[0] >= config.default_rule.interval.spec_seconds(),
    ensures
        admits(
            config,
            after_checks(config, store, who, route, false, times),
            who,
            route,
            false,
            now,
        ),
{
    lemma_window_stays_open(config, store, who, route, times, times.len() as int);
    assert(times.take(times.len() as int) == times);
}

/// A fixed window that is over never blocks: a request is admitted if, in
/// each scope that its check looks at, the rule's interval is short and has
/// passed since the window of the scope's record began.
pub proof fn lemma_elapsed_windows_admit(
    config: LimiterConfig,
    store: StoreModel,
    who: Seq<char>,
    route: Seq<char>,
    override_mode: bool,
    now: u64,
)
    requires
        !override_mode ==> config.default_rule.interval.is_short(),
        !override_mode && has_record(store, who, GLOBAL_SCOPE@) ==> window_elapsed(
            store[who][GLOBAL_SCOPE@].window_start,
            config.default_rule.interval.spec_seconds(),
            now,
        ),
        config.rule_for(route).interval.is_short(),
        has_record(store, who, route) ==> window_elapsed(
            store[who][route].window_start,
            config.rule_for(route).interval.spec_seconds(),
            now,
        ),
    ensures
        admits(config, store, who, route, override_mode, now),
{
}

/// A log whose first entry has left the window has fewer live entries than
/// entries.
pub proof fn lemma_oldest_left_window(log: Seq<u64>, window: nat, now: u64)
    requires
        log.len() >= 1,
        !within_window(log[0], window, now),
    ensures
        live_entries(log, window, now).len() < log.len(),
    decreases log.len(),
{
    if log.len() == 1 {
        assert(live_entries(log.drop_last(), window, now).len() == 0);
        assert(log.last() == log[0]);
    } else {
        assert(log.drop_last()[0] == log[0]);
        lemma_oldest_left_window(log.drop_last(), window, now);
    }
}

/// With a long default interval, a limit of `times.len()` and a route without
/// a rule of its own: when a new identity has used up the limit within one
/// window, a check that comes the interval or more after the first of those
/// requests is admitted.
pub proof fn lemma_sliding_log_frees_oldest(
    config: LimiterConfig,
    store: StoreModel,
    who: Seq<char>,
    route: Seq<char>,
    times: Seq<u64>,
    now: u64,
)
    requires
        !config.has_rule(route),
        !has_record(store, who, GLOBAL_SCOPE@),
        !has_record(store, who, route),
        config.default_rule.limit >= 1,
        !config.default_rule.interval.is_short(),
        within_one_window(times, config.default_rule.interval.spec_seconds()),
        times.len() == config.default_rule.limit,
        now - times[0] >= config.default_rule.interval.spec_seconds(),
    ensures
        forall|i: int|
            0 <= i < times.len() ==> #[trigger] verdict_at(
                config,
                store,
                who,
                route,
                false,
                times,
                i,
            ),
        admits(
            config,
            after_checks(config, store, who, route, false, times),
            who,
            route,
            false,
            now,
        ),
{
    lemma_limit_within_window(config, store, who, route, times);
    lemma_run_state(config, store, who, route, times, times.len() as int);
    assert(times.take(times.len() as int) == times);
    lemma_oldest_left_window(times, config.default_rule.interval.spec_seconds(), now);
}

/// An identity that has used up the global budget is refused whatever the
/// route's scope holds, and nothing is counted: the store stays as it is.
pub proof fn lemma_global_takes_precedence(
    config: LimiterConfig,
    store: StoreModel,
    who: Seq<char>,
    route: Seq<char>,
    now: u64,
)
    requires
        scope_exceeded(store, who, GLOBAL_SCOPE@, config.default_rule, now),
    ensures
        !admits(config, store, who, route, false, now),
        after_check(config, store, who, route, false, now) == store,
{
}

/// In override mode a route without a rule of its own is always admitted, and
/// nothing is counted.
pub proof fn lemma_override_without_rule(
    config: LimiterConfig,
    store: StoreModel,
    who: Seq<char>,
    route: Seq<char>,
    now: u64,
)
    requires
        !config.has_rule(route),
    ensures
        admits(config, store, who, route, true, now),
        after_check(config, store, who, route, true, now) == store,
{
}

/// In override mode a route with a rule of its own is judged by that rule in
/// the route's scope alone, and an admitted request is counted there alone:
/// no other record of the identity is read or changed.
pub proof fn lemma_override_with_rule(
    config: LimiterConfig,
    store: StoreModel,
    who: Seq<char>,
    route: Seq<char>,
    now: u64,
)
    requires
        config.has_rule(route),
    ensures
        admits(config, store, who, route, true, now) == !scope_exceeded(
            store,
            who,
            route,
            config.route_rules@[route],
            now,
        ),
        after_check(config, store, who, route, true, now) == if admits(
            config,
            store,
            who,
            route,
            true,
            now,
        ) {
            with_request(store, who, route, config.route_rules@[route], now)
        } else {
            store
        },
        forall|scope: Seq<char>|
            scope != route ==> #[trigger] has_record(
                after_check(config, store, who, route, true, now),
                who,
                scope,
            ) == has_record(store, who, scope),
        forall|scope: Seq<char>|
            scope != route && #[trigger] has_record(store, who, scope) ==> after_check(
                config,
                store,
                who,
                route,
                true,
                now,
            )[who][scope] == store[who][scope],
{
}

/// A check of one identity leaves the records of every other identity as
/// they are, and so also the verdict on any request of theirs.
pub proof fn lemma_identities_are_independent(
    config: LimiterConfig,
    store: StoreModel,
    who: Seq<char>,
    route: Seq<char>,
    override_mode: bool,
    now: u64,
    other: Seq<char>,
    other_route: Seq<char>,
    other_mode: bool,
    other_now: u64,
)
    requires
        who != other,
    ensures
        ({
            let after = after_check(config, store, who, route, override_mode, now);
            &&& after.contains_key(other) == store.contains_key(other)
            &&& store.contains_key(other) ==> after[other] == store[other]
            &&& admits(config, after, other, other_route, other_mode, other_now) == admits(
                config,
                store,
                other,
                other_route,
                other_mode,
                other_now,
            )
        }),
{
}

} // verus!
