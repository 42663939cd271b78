use crate::store::{
    has_record, lemma_without_record, without_record, ScopeMap, ScopesModel, StoreModel,
};
use crate::types::{capped, is_footprint, RecordView};
use vstd::prelude::*;

verus! {

/// The length of a name in bytes.
pub open spec fn name_bytes(name: Seq<char>) -> nat {
    vstd::utf8::encode_utf8(name).len()
}

/// The identity has a record that is not stale at `now`.
pub open spec fn has_fresh(scopes: ScopesModel, max_age: nat, now: u64) -> bool {
    exists|scope: Seq<char>| #[trigger] scopes.contains_key(scope) && !scopes[scope].stale(max_age, now)
}

/// The records of an identity that are not stale at `now`.
pub open spec fn fresh_scopes(scopes: ScopesModel, max_age: nat, now: u64) -> ScopesModel {
    Map::new(
        |scope: Seq<char>| scopes.contains_key(scope) && !scopes[scope].stale(max_age, now),
        |scope: Seq<char>| scopes[scope],
    )
}

/// The store after routine cleanup at `now`: every stale record is dropped,
/// and with it every identity that is left without records.
pub open spec fn swept(store: StoreModel, max_age: nat, now: u64) -> StoreModel {
    Map::new(
        |who: Seq<char>| store.contains_key(who) && has_fresh(store[who], max_age, now),
        |who: Seq<char>| fresh_scopes(store[who], max_age, now),
    )
}

/// Routine cleanup drops the stale records and no others: what it keeps are
/// the records that are not stale, each as it was. No identity is left
/// without records.
pub proof fn lemma_swept_drops_stale_only(store: StoreModel, max_age: nat, now: u64)
    ensures
        forall|who: Seq<char>, scope: Seq<char>| #[trigger]
            has_record(swept(store, max_age, now), who, scope) <==> has_record(store, who, scope)
                && !store[who][scope].stale(max_age, now),
        forall|who: Seq<char>, scope: Seq<char>| #[trigger]
            has_record(swept(store, max_age, now), who, scope) ==> swept(
                store,
                max_age,
                now,
            )[who][scope] == store[who][scope],
        forall|who: Seq<char>| #[trigger]
            swept(store, max_age, now).contains_key(who) ==> has_fresh(
                swept(store, max_age, now)[who],
                max_age,
                now,
            ),
{
    let after = swept(store, max_age, now);
    assert forall|who: Seq<char>| #[trigger] after.contains_key(who) implies has_fresh(
        after[who],
        max_age,
        now,
    ) by {
        let scope = choose|scope: Seq<char>| #[trigger]
            store[who].contains_key(scope) && !store[who][scope].stale(max_age, now);
        assert(after[who].contains_key(scope));
    }
}

/// Routine cleanup of a store that was just cleaned at the same time changes
/// nothing.
pub proof fn lemma_swept_twice(store: StoreModel, max_age: nat, now: u64)
    ensures
        swept(swept(store, max_age, now), max_age, now) == swept(store, max_age, now),
{
    lemma_swept_later(store, max_age, now, now);
}

/// Routine cleanup at a later time makes up for one left out at an earlier
/// time: with no request in between, cleaning at both times gives what
/// cleaning at the later time alone gives.
pub proof fn lemma_swept_later(store: StoreModel, max_age: nat, earlier: u64, later: u64)
    requires
        earlier <= later,
    ensures
        swept(swept(store, max_age, earlier), max_age, later) == swept(store, max_age, later),
{
    let once = swept(store, max_age, earlier);
    let twice = swept(once, max_age, later);
    let direct = swept(store, max_age, later);
    assert forall|who: Seq<char>| twice.contains_key(who) == direct.contains_key(who) by {
        if direct.contains_key(who) {
            let scope = choose|scope: Seq<char>| #[trigger]
                store[who].contains_key(scope) && !store[who][scope].stale(max_age, later);
            assert(store[who].contains_key(scope) && !store[who][scope].stale(max_age, earlier));
            assert(once[who].contains_key(scope));
        }
        if twice.contains_key(who) {
            let scope = choose|scope: Seq<char>| #[trigger]
                once[who].contains_key(scope) && !once[who][scope].stale(max_age, later);
            assert(store[who].contains_key(scope));
        }
    }
    assert forall|who: Seq<char>| #[trigger] twice.contains_key(who) implies twice[who]
        =~= direct[who] by {}
    assert(twice =~= direct);
}

/// `after` is `before` without some of its records, oldest first: each record
/// that is left is as it was, none that left was younger than one that
/// stayed, and an identity stays exactly as long as it has a record left.
pub open spec fn evicted_oldest_first(before: StoreModel, after: StoreModel) -> bool {
    &&& forall|who: Seq<char>, scope: Seq<char>| #[trigger]
        has_record(after, who, scope) ==> has_record(before, who, scope) && after[who][scope]
            == before[who][scope]
    &&& forall|who: Seq<char>, scope: Seq<char>, kept_who: Seq<char>, kept_scope: Seq<char>|
        has_record(before, who, scope) && !(#[trigger] has_record(after, who, scope))
            && #[trigger] has_record(after, kept_who, kept_scope) ==> before[who][scope].oldest()
            <= before[kept_who][kept_scope].oldest()
    &&& forall|who: Seq<char>| #[trigger]
        after.contains_key(who) ==> before.contains_key(who) && (after[who] == before[who]
            || has_named_record(after, who))
    &&& forall|who: Seq<char>|
        before.contains_key(who) && !(#[trigger] after.contains_key(who)) ==> has_named_record(
            before,
            who,
        )
}

/// A store from which nothing was taken counts as one from which the oldest
/// records were taken first.
pub proof fn lemma_nothing_evicted(store: StoreModel)
    ensures
        evicted_oldest_first(store, store),
{
}

/// The identity has at least one record in the store.
pub open spec fn has_named_record(store: StoreModel, who: Seq<char>) -> bool {
    exists|scope: Seq<char>| #[trigger] has_record(store, who, scope)
}

/// The store has no record at all.
pub open spec fn no_records(store: StoreModel) -> bool {
    forall|who: Seq<char>, scope: Seq<char>| !(#[trigger] has_record(store, who, scope))
}

/// Eighty percent of the memory ceiling, rounded down: the estimate at which
/// eviction stops.
pub open spec fn eviction_target(max_memory: usize) -> int {
    max_memory * 80 / 100
}

/// A record named for eviction, with the time of the earliest request that it
/// knows of and the bytes that it and the name of its scope are counted as.
#[derive(Debug)]
pub struct Candidate {
    pub who: String,
    pub scope: String,
    pub oldest: u64,
    pub bytes: usize,
}

/// The candidate's bytes are the length of its scope's name and what its
/// record is counted as, capped at `usize::MAX`.
pub open spec fn cost_is_measured(candidate: Candidate, store: StoreModel) -> bool {
    exists|footprint: usize|
        #[trigger] is_footprint(
            footprint,
            store[candidate.who@][candidate.scope@].timestamps.len(),
        ) && candidate.bytes == capped(name_bytes(candidate.scope@) + footprint as nat)
}

/// The candidate names a record of the store and gives its age rightly.
pub open spec fn names_record(candidate: Candidate, store: StoreModel) -> bool {
    &&& has_record(store, candidate.who@, candidate.scope@)
    &&& store[candidate.who@][candidate.scope@].oldest() == candidate.oldest
}

/// Some candidate of the list names the identity's record in the scope.
pub open spec fn listed(candidates: Seq<Candidate>, who: Seq<char>, scope: Seq<char>) -> bool {
    exists|k: int|
        0 <= k < candidates.len() && (#[trigger] candidates[k]).who@ == who && candidates[k].scope@
            == scope
}

/// The list names every record of the store, and nothing else.
pub open spec fn lists_store(candidates: Seq<Candidate>, store: StoreModel) -> bool {
    &&& forall|k: int| 0 <= k < candidates.len() ==> names_record(#[trigger] candidates[k], store)
    &&& forall|who: Seq<char>, scope: Seq<char>| #[trigger]
        has_record(store, who, scope) ==> listed(candidates, who, scope)
}

/// The candidates stand in the order of their age, the oldest first.
pub open spec fn oldest_first(candidates: Seq<Candidate>) -> bool {
    forall|i: int, j: int|
        0 <= i <= j < candidates.len() ==> (#[trigger] candidates[i]).oldest <= (
        #[trigger] candidates[j]).oldest
}

/// What is left of `amount` once `less` is taken from it, and nothing if
/// `less` is more.
pub open spec fn less_by(amount: usize, less: usize) -> usize {
    if amount >= less {
        (amount - less) as usize
    } else {
        0
    }
}

/// The memory estimate after the candidate's record has left a store that was
/// estimated at `current` bytes: less by the candidate's bytes and, if the
/// identity left with its last record, by the length of its name and the size
/// of a scope map. A candidate that names no record frees nothing.
pub open spec fn estimate_after(store: StoreModel, candidate: Candidate, current: usize) -> usize {
    if has_record(store, candidate.who@, candidate.scope@) {
        let freed = less_by(current, candidate.bytes);
        if without_record(store, candidate.who@, candidate.scope@).contains_key(candidate.who@) {
            freed
        } else {
            less_by(
                freed,
                capped(name_bytes(candidate.who@) + vstd::layout::size_of::<ScopeMap>()),
            )
        }
    } else {
        current
    }
}

/// The store and its memory estimate after eviction along the list: as long
/// as the estimate is above the target and the list lasts, the record of the
/// next candidate leaves.
pub open spec fn evict_run(
    store: StoreModel,
    entries: Seq<Candidate>,
    current: usize,
    target: usize,
) -> (StoreModel, usize)
    decreases entries.len(),
{
    if entries.len() == 0 || current <= target {
        (store, current)
    } else {
        evict_run(
            without_record(store, entries[0].who@, entries[0].scope@),
            entries.skip(1),
            estimate_after(store, entries[0], current),
            target,
        )
    }
}

/// Each candidate that names a record of the store gives its age rightly.
pub open spec fn ages_are_right(entries: Seq<Candidate>, store: StoreModel) -> bool {
    forall|k: int|
        0 <= k < entries.len() && has_record(
            store,
            (#[trigger] entries[k]).who@,
            entries[k].scope@,
        ) ==> store[entries[k].who@][entries[k].scope@].oldest() == entries[k].oldest
}

/// The list names every record of the store.
pub open spec fn covers_store(entries: Seq<Candidate>, store: StoreModel) -> bool {
    forall|who: Seq<char>, scope: Seq<char>| #[trigger]
        has_record(store, who, scope) ==> listed(entries, who, scope)
}

/// Eviction along a list that names every record of the store, the oldest
/// first, takes the oldest records first, and it goes on until the estimate
/// is down to the target or no record is left. It takes nothing from a store
/// whose estimate is within the target.
pub proof fn lemma_evict_run_oldest_first(
    store: StoreModel,
    entries: Seq<Candidate>,
    current: usize,
    target: usize,
)
    requires
        oldest_first(entries),
        covers_store(entries, store),
        ages_are_right(entries, store),
    ensures
        evicted_oldest_first(store, evict_run(store, entries, current, target).0),
        evict_run(store, entries, current, target).1 <= current,
        evict_run(store, entries, current, target).1 <= target || no_records(
            evict_run(store, entries, current, target).0,
        ),
        current <= target ==> evict_run(store, entries, current, target) == (store, current),
    decreases entries.len(),
{
    if entries.len() == 0 || current <= target {
        if entries.len() == 0 {
            assert forall|who: Seq<char>, scope: Seq<char>| !(#[trigger] has_record(
                store,
                who,
                scope,
            )) by {
                if has_record(store, who, scope) {
                    assert(listed(entries, who, scope));
                }
            }
        }
    } else {
        let first = entries[0];
        let rest = entries.skip(1);
        let next = without_record(store, first.who@, first.scope@);
        let freed = estimate_after(store, first, current);
        let after = evict_run(next, rest, freed, target).0;
        lemma_without_record(store, first.who@, first.scope@);
        assert(oldest_first(rest)) by {
            assert forall|i: int, j: int| 0 <= i <= j < rest.len() implies (#[trigger] rest[i]).oldest
                <= (#[trigger] rest[j]).oldest by {
                assert(rest[i] == entries[i + 1]);
                assert(rest[j] == entries[j + 1]);
            }
        }
        assert(covers_store(rest, next)) by {
            assert forall|who: Seq<char>, scope: Seq<char>| #[trigger]
                has_record(next, who, scope) implies listed(rest, who, scope) by {
                assert(listed(entries, who, scope));
                let k = choose|k: int|
                    0 <= k < entries.len() && (#[trigger] entries[k]).who@ == who
                        && entries[k].scope@ == scope;
                assert(k != 0);
                assert(rest[k - 1] == entries[k]);
            }
        }
        assert(ages_are_right(rest, next)) by {
            assert forall|k: int|
                0 <= k < rest.len() && has_record(
                    next,
                    (#[trigger] rest[k]).who@,
                    rest[k].scope@,
                ) implies next[rest[k].who@][rest[k].scope@].oldest() == rest[k].oldest by {
                assert(rest[k] == entries[k + 1]);
            }
        }
        lemma_evict_run_oldest_first(next, rest, freed, target);
        assert forall|who: Seq<char>, scope: Seq<char>, kept_who: Seq<char>, kept_scope: Seq<char>|
            has_record(store, who, scope) && !(#[trigger] has_record(after, who, scope))
                && #[trigger] has_record(after, kept_who, kept_scope) implies store[who][scope].oldest()
            <= store[kept_who][kept_scope].oldest() by {
            if !has_record(next, who, scope) {
                assert(who == first.who@ && scope == first.scope@);
                assert(has_record(next, kept_who, kept_scope));
                assert(listed(rest, kept_who, kept_scope));
                let k = choose|k: int|
                    0 <= k < rest.len() && (#[trigger] rest[k]).who@ == kept_who && rest[k].scope@
                        == kept_scope;
                assert(rest[k] == entries[k + 1]);
                assert(entries[0].oldest <= entries[k + 1].oldest);
            }
        }
        assert forall|who: Seq<char>| #[trigger] after.contains_key(who) implies store.contains_key(
            who,
        ) && (after[who] == store[who] || has_named_record(after, who)) by {
            if after[who] == next[who] && next[who] != store[who] {
                assert(who == first.who@);
                let left = store[who].remove(first.scope@);
                assert(exists|scope: Seq<char>| left.contains_key(scope)) by {
                    if forall|scope: Seq<char>| !left.contains_key(scope) {
                        assert(left =~= Map::<Seq<char>, RecordView>::empty());
                    }
                }
                let scope = choose|scope: Seq<char>| left.contains_key(scope);
                assert(has_record(after, who, scope));
            }
        }
        assert forall|who: Seq<char>|
            store.contains_key(who) && !(#[trigger] after.contains_key(who)) implies has_named_record(
            store,
            who,
        ) by {
            if next.contains_key(who) {
                assert(has_named_record(next, who));
                let scope = choose|scope: Seq<char>| #[trigger] has_record(next, who, scope);
                assert(has_record(store, who, scope));
            } else {
                assert(has_record(store, first.who@, first.scope@));
            }
        }
    }
}

/// No two candidates of the list name the same record.
pub open spec fn distinct_records(entries: Seq<Candidate>) -> bool {
    forall|i: int, j: int|
        0 <= i < j < entries.len() ==> !((#[trigger] entries[i]).who@ == (#[trigger] entries[j]).who@
            && entries[i].scope@ == entries[j].scope@)
}

/// The list is a measurement of the store: it names every record of the
/// store once and nothing else, each with its age and with the bytes that it
/// was measured at.
pub open spec fn measures(entries: Seq<Candidate>, store: StoreModel) -> bool {
    &&& lists_store(entries, store)
    &&& distinct_records(entries)
    &&& forall|k: int| 0 <= k < entries.len() ==> cost_is_measured(#[trigger] entries[k], store)
}

/// The list is one that eviction from the store goes by: a measurement of the
/// store, the oldest record first.
pub open spec fn eviction_order(entries: Seq<Candidate>, store: StoreModel) -> bool {
    measures(entries, store) && oldest_first(entries)
}

/// The list names each identity of the store once, and nothing else.
pub open spec fn enumerates(identities: Seq<Seq<char>>, store: StoreModel) -> bool {
    &&& identities.no_duplicates()
    &&& forall|who: Seq<char>| identities.contains(who) <==> #[trigger] store.contains_key(who)
}

/// What the identities of the list are counted as by themselves: for each the
/// length of its name and the size of a scope map.
pub open spec fn overhead(identities: Seq<Seq<char>>) -> nat
    decreases identities.len(),
{
    if identities.len() == 0 {
        0
    } else {
        overhead(identities.drop_last()) + name_bytes(identities.last())
            + vstd::layout::size_of::<ScopeMap>()
    }
}

/// The bytes of the candidates of the list, taken together.
pub open spec fn bytes_sum(entries: Seq<Candidate>) -> nat
    decreases entries.len(),
{
    if entries.len() == 0 {
        0
    } else {
        bytes_sum(entries.drop_last()) + entries.last().bytes as nat
    }
}

/// The memory estimate that a measurement gives: what the identities are
/// counted as and the bytes of the records, capped at `usize::MAX`.
pub open spec fn estimate_from(identities: Seq<Seq<char>>, entries: Seq<Candidate>) -> usize {
    capped(overhead(identities) + bytes_sum(entries))
}

/// The number is an estimate of the store's memory: the estimate that some
/// measurement of the store gives.
pub open spec fn is_estimate(store: StoreModel, total: usize) -> bool {
    exists|identities: Seq<Seq<char>>, entries: Seq<Candidate>|
        enumerates(identities, store) && measures(entries, store) && total
            == #[trigger] estimate_from(identities, entries)
}

/// `after` is what eviction down to `target` bytes leaves of `before`: what
/// is left when, starting from the estimate that a measurement of the store
/// gives, records leave along that measurement, the oldest first, until the
/// estimate is down to the target or no record is left.
pub open spec fn evicted_down_to(before: StoreModel, after: StoreModel, target: usize) -> bool {
    exists|identities: Seq<Seq<char>>, entries: Seq<Candidate>|
        enumerates(identities, before) && eviction_order(entries, before) && after == evict_run(
            before,
            entries,
            #[trigger] estimate_from(identities, entries),
            target,
        ).0
}

/// `after` is what relief under a ceiling of `max_memory` bytes leaves of
/// `before`: the store as it is if the estimate that a measurement gives is
/// within the ceiling, and else what eviction along that measurement leaves,
/// from that estimate down to eighty percent of the ceiling.
pub open spec fn relieved(before: StoreModel, after: StoreModel, max_memory: usize) -> bool {
    exists|identities: Seq<Seq<char>>, entries: Seq<Candidate>|
        enumerates(identities, before) && eviction_order(entries, before) && after == (if (
        #[trigger] estimate_from(identities, entries)) <= max_memory {
            before
        } else {
            evict_run(
                before,
                entries,
                estimate_from(identities, entries),
                eviction_target(max_memory) as usize,
            ).0
        })
}

/// `after` is what the cleanup at `now` that a memory estimate calls for
/// leaves of `before`: routine cleanup if the estimate is within the ceiling;
/// if it is above, routine cleanup and then relief.
pub open spec fn cleaned_for(
    before: StoreModel,
    after: StoreModel,
    max_age: nat,
    max_memory: usize,
    now: u64,
    estimate: usize,
) -> bool {
    if estimate <= max_memory {
        after == swept(before, max_age, now)
    } else {
        relieved(swept(before, max_age, now), after, max_memory)
    }
}

/// `after` is what a collector pass at `now` leaves of `before`: the cleanup
/// that some estimate of the store's memory calls for.
pub open spec fn collected(
    before: StoreModel,
    after: StoreModel,
    max_age: nat,
    max_memory: usize,
    now: u64,
) -> bool {
    exists|estimate: usize|
        is_estimate(before, estimate) && #[trigger] cleaned_for(
            before,
            after,
            max_age,
            max_memory,
            now,
            estimate,
        )
}

/// A pass over a store without records leaves it as it is.
pub proof fn lemma_nothing_to_collect(max_age: nat, max_memory: usize, now: u64)
    ensures
        collected(
            Map::<Seq<char>, ScopesModel>::empty(),
            Map::<Seq<char>, ScopesModel>::empty(),
            max_age,
            max_memory,
            now,
        ),
{
    let store = Map::<Seq<char>, ScopesModel>::empty();
    let identities = Seq::<Seq<char>>::empty();
    let entries = Seq::<Candidate>::empty();
    assert(enumerates(identities, store));
    assert(measures(entries, store));
    assert(estimate_from(identities, entries) == 0);
    assert(is_estimate(store, 0));
    assert(swept(store, max_age, now) =~= store);
    assert(cleaned_for(store, store, max_age, max_memory, now, 0));
}

/// Whatever estimate a collector pass went by, it dropped the stale records
/// and, of the others, none that was younger than one that it kept.
pub proof fn lemma_collected_oldest_first(
    before: StoreModel,
    after: StoreModel,
    max_age: nat,
    max_memory: usize,
    now: u64,
)
    requires
        collected(before, after, max_age, max_memory, now),
    ensures
        evicted_oldest_first(swept(before, max_age, now), after),
{
    let estimate = choose|estimate: usize|
        is_estimate(before, estimate) && #[trigger] cleaned_for(
            before,
            after,
            max_age,
            max_memory,
            now,
            estimate,
        );
    let clean = swept(before, max_age, now);
    lemma_swept_drops_stale_only(before, max_age, now);
    if estimate <= max_memory {
        lemma_nothing_evicted(clean);
    } else {
        let (identities, entries) = choose|identities: Seq<Seq<char>>, entries: Seq<Candidate>|
            enumerates(identities, clean) && eviction_order(entries, clean) && after == (if (
            #[trigger] estimate_from(identities, entries)) <= max_memory {
                clean
            } else {
                evict_run(
                    clean,
                    entries,
                    estimate_from(identities, entries),
                    eviction_target(max_memory) as usize,
                ).0
            });
        lemma_nothing_evicted(clean);
        lemma_evict_run_oldest_first(
            clean,
            entries,
            estimate_from(identities, entries),
            eviction_target(max_memory) as usize,
        );
    }
}

/// The sorted form of a measurement is a list that eviction goes by.
pub proof fn lemma_sorted_measurement(
    unsorted: Seq<Candidate>,
    sorted: Seq<Candidate>,
    store: StoreModel,
)
    requires
        measures(unsorted, store),
        oldest_first(sorted),
        sorted.to_multiset() == unsorted.to_multiset(),
        forall|k: int| 0 <= k < unsorted.len() ==> sorted.contains(#[trigger] unsorted[k]),
        forall|k: int| 0 <= k < sorted.len() ==> unsorted.contains(#[trigger] sorted[k]),
    ensures
        eviction_order(sorted, store),
{
    assert forall|k: int| 0 <= k < sorted.len() implies names_record(#[trigger] sorted[k], store)
        && cost_is_measured(sorted[k], store) by {
        assert(unsorted.contains(sorted[k]));
    }
    assert forall|who: Seq<char>, scope: Seq<char>| #[trigger]
        has_record(store, who, scope) implies listed(sorted, who, scope) by {
        assert(listed(unsorted, who, scope));
        let u = choose|u: int|
            0 <= u < unsorted.len() && (#[trigger] unsorted[u]).who@ == who && unsorted[u].scope@
                == scope;
        assert(sorted.contains(unsorted[u]));
        let k = choose|k: int| 0 <= k < sorted.len() && sorted[k] == unsorted[u];
        assert(sorted[k].who@ == who);
    }
    assert(unsorted.no_duplicates()) by {
        assert forall|i: int, j: int|
            0 <= i < unsorted.len() && 0 <= j < unsorted.len() && i != j implies unsorted[i]
            != unsorted[j] by {
            if i < j {
                assert(!(unsorted[i].who@ == unsorted[j].who@ && unsorted[i].scope@
                    == unsorted[j].scope@));
            } else {
                assert(!(unsorted[j].who@ == unsorted[i].who@ && unsorted[j].scope@
                    == unsorted[i].scope@));
            }
        }
    }
    unsorted.lemma_multiset_has_no_duplicates();
    sorted.lemma_multiset_has_no_duplicates_conv();
    assert forall|i: int, j: int| 0 <= i < j < sorted.len() implies !((#[trigger] sorted[i]).who@
        == (#[trigger] sorted[j]).who@ && sorted[i].scope@ == sorted[j].scope@) by {
        assert(sorted[i] != sorted[j]);
        assert(unsorted.contains(sorted[i]));
        assert(unsorted.contains(sorted[j]));
        let p = choose|p: int| 0 <= p < unsorted.len() && unsorted[p] == sorted[i];
        let q = choose|q: int| 0 <= q < unsorted.len() && unsorted[q] == sorted[j];
        if p < q {
            assert(!(unsorted[p].who@ == unsorted[q].who@ && unsorted[p].scope@
                == unsorted[q].scope@));
        } else if q < p {
            assert(!(unsorted[q].who@ == unsorted[p].who@ && unsorted[q].scope@
                == unsorted[p].scope@));
        }
    }
}

/// A list that gains a candidate still names what it named.
pub proof fn lemma_listed_grows(candidates: Seq<Candidate>, candidate: Candidate)
    ensures
        forall|who: Seq<char>, scope: Seq<char>| #[trigger]
            listed(candidates, who, scope) ==> listed(candidates.push(candidate), who, scope),
{
    assert forall|who: Seq<char>, scope: Seq<char>| #[trigger]
        listed(candidates, who, scope) implies listed(candidates.push(candidate), who, scope) by {
        let k = choose|k: int|
            0 <= k < candidates.len() && (#[trigger] candidates[k]).who@ == who && candidates[k].scope@
                == scope;
        assert(candidates.push(candidate)[k] == candidates[k]);
    }
}

} // verus!
