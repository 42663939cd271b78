use crate::config::{LimiterConfig, CLEANUP_GRACE_SECONDS};
use crate::reclaim::{
    bytes_sum, cleaned_for, collected, cost_is_measured, distinct_records, enumerates, evict_run,
    evicted_down_to, evicted_oldest_first, eviction_order, eviction_target, estimate_from,
    fresh_scopes, has_fresh, is_estimate, lemma_evict_run_oldest_first, lemma_listed_grows,
    lemma_nothing_evicted, lemma_nothing_to_collect, lemma_sorted_measurement, listed, measures,
    name_bytes, names_record, oldest_first, overhead, relieved, swept, Candidate,
};
use crate::store::{has_record, scopes_view, RecordStore, ScopeMap, ScopesModel};
use crate::string_map::StringMap;
use crate::types::{
    capped, current_timestamp, is_footprint, ClockError, RecordView, RequestRecord,
};
use vstd::prelude::*;

verus! {

/// The reclaimer: it keeps the memory of a record store under the ceiling of
/// its configuration.
pub struct GarbageCollector {
    config: LimiterConfig,
}

impl GarbageCollector {
    #[verifier::type_invariant]
    spec fn config_is_valid(self) -> bool {
        self.config.valid()
    }

    /// The rules that the collector was made with.
    pub closed spec fn config(&self) -> LimiterConfig {
        self.config
    }

    /// A collector for stores that are used under the given rules.
    pub fn new(config: LimiterConfig) -> (collector: Self)
        requires
            config.valid(),
        ensures
            collector.config() == config,
    {
        Self { config }
    }

    /// The rules that the collector was made with. They are valid.
    pub fn rules(&self) -> (config: &LimiterConfig)
        ensures
            *config == self.config(),
            config.valid(),
    {
        proof {
            use_type_invariant(self);
        }
        &self.config
    }

    /// The age in seconds beyond which a record is stale.
    fn max_age(&self) -> (seconds: u64)
        ensures
            seconds == self.config().max_age(),
    {
        proof {
            use_type_invariant(self);
        }
        let longest = self.config.max_interval();
        proof {
            self.config.lemma_longest_gives_max_age(longest);
        }
        longest.as_seconds() + CLEANUP_GRACE_SECONDS
    }

    /// Drops every record that is stale at `now`, and every identity that is
    /// left without records.
    pub fn routine_cleanup(&self, records: &mut RecordStore, now: u64)
        ensures
            final(records)@ == swept(old(records)@, self.config().max_age(), now),
    {
        let max_age = self.max_age();
        let mut kept: StringMap<ScopeMap> = StringMap::new();
        proof {
            records.identities.lemma_finite();
        }
        loop
            invariant
                records.identities@.dom().finite(),
                max_age == self.config().max_age(),
                forall|who: Seq<char>| #[trigger]
                    records@.contains_key(who) ==> old(records)@.contains_key(who) && records@[who]
                        == old(records)@[who] && !kept@.contains_key(who),
                forall|who: Seq<char>| #[trigger]
                    kept@.contains_key(who) ==> old(records)@.contains_key(who) && has_fresh(
                        old(records)@[who],
                        max_age as nat,
                        now,
                    ) && scopes_view(kept@[who]) == fresh_scopes(
                        old(records)@[who],
                        max_age as nat,
                        now,
                    ),
                forall|who: Seq<char>| #[trigger]
                    old(records)@.contains_key(who) && has_fresh(
                        old(records)@[who],
                        max_age as nat,
                        now,
                    ) ==> records@.contains_key(who) || kept@.contains_key(who),
            ensures
                records.identities@ == Map::<Seq<char>, ScopeMap>::empty(),
            decreases records.identities@.len(),
        {
            let ghost before = records@;
            match records.identities.pop() {
                None => {
                    break ;
                },
                Some(entry) => {
                    let (who, scopes) = entry;
                    assert(records@ =~= before.remove(who@));
                    assert(before.contains_key(who@));
                    let fresh = Self::retain_fresh(scopes, max_age, now);
                    if !fresh.is_empty() {
                        proof {
                            assert(scopes_view(fresh).dom() =~= fresh@.dom());
                            let scope = choose|scope: Seq<char>| fresh@.contains_key(scope);
                            assert(scopes_view(fresh).contains_key(scope));
                        }
                        kept.push_new(who, fresh);
                    } else {
                        proof {
                            assert(scopes_view(fresh) =~= Map::<Seq<char>, RecordView>::empty());
                            if has_fresh(before[who@], max_age as nat, now) {
                                let scope = choose|scope: Seq<char>| #[trigger]
                                    before[who@].contains_key(scope) && !before[who@][scope].stale(
                                        max_age as nat,
                                        now,
                                    );
                                assert(scopes_view(fresh).contains_key(scope));
                            }
                        }
                    }
                },
            }
        }
        records.identities = kept;
        assert(records@ =~= swept(old(records)@, max_age as nat, now));
    }

    /// Runs the cleanup that the store's memory calls for at the current
    /// time. A store without records is left as it is, whatever the clock
    /// says. If there are records and the clock cannot be read, the store
    /// stays as it is as well.
    pub fn collect_garbage(&self, records: &mut RecordStore) -> (done: Result<(), ClockError>)
        ensures
            old(records)@ == Map::<Seq<char>, ScopesModel>::empty() ==> done is Ok,
            match done {
                Ok(_) => exists|now: u64| #[trigger]
                    collected(
                        old(records)@,
                        final(records)@,
                        self.config().max_age(),
                        self.config().max_memory,
                        now,
                    ),
                Err(_) => *final(records) == *old(records),
            },
    {
        if records.identities.is_empty() {
            proof {
                assert(records@ =~= Map::<Seq<char>, ScopesModel>::empty());
                lemma_nothing_to_collect(self.config().max_age(), self.config().max_memory, 0);
            }
            return Ok(());
        }
        proof {
            if records@ == Map::<Seq<char>, ScopesModel>::empty() {
                assert(records.identities@.dom() =~= records@.dom());
                assert(records.identities@ =~= Map::<Seq<char>, ScopeMap>::empty());
            }
        }
        match current_timestamp() {
            Ok(now) => {
                self.collect_garbage_at(records, now);
                Ok(())
            },
            Err(error) => Err(error),
        }
    }

    /// Runs the cleanup that the store's memory calls for at `now`: routine
    /// cleanup while the estimate is within the ceiling, aggressive cleanup
    /// when it is above.
    pub fn collect_garbage_at(&self, records: &mut RecordStore, now: u64)
        ensures
            collected(
                old(records)@,
                final(records)@,
                self.config().max_age(),
                self.config().max_memory,
                now,
            ),
            evicted_oldest_first(
                swept(old(records)@, self.config().max_age(), now),
                final(records)@,
            ),
    {
        let current_memory = self.estimate_memory_usage(records);
        self.cleanup_for(records, now, current_memory);
    }

    /// Runs at `now` the cleanup that a memory estimate of `current_memory`
    /// bytes calls for: routine cleanup if the estimate is within the
    /// ceiling, aggressive cleanup if it is above.
    pub fn cleanup_for(&self, records: &mut RecordStore, now: u64, current_memory: usize)
        ensures
            cleaned_for(
                old(records)@,
                final(records)@,
                self.config().max_age(),
                self.config().max_memory,
                now,
                current_memory,
            ),
            evicted_oldest_first(
                swept(old(records)@, self.config().max_age(), now),
                final(records)@,
            ),
    {
        if current_memory > self.max_memory() {
            self.aggressive_cleanup(records, now);
        } else {
            self.routine_cleanup(records, now);
            proof {
                lemma_nothing_evicted(records@);
            }
        }
    }

    /// The memory ceiling in bytes.
    fn max_memory(&self) -> (bytes: usize)
        ensures
            bytes == self.config().max_memory,
    {
        self.config.max_memory
    }

    /// Routine cleanup at `now` and then relief: if the estimate of what is
    /// left is still above the ceiling, eviction of the oldest records until
    /// it is down to eighty percent of the ceiling.
    pub fn aggressive_cleanup(&self, records: &mut RecordStore, now: u64)
        ensures
            relieved(
                swept(old(records)@, self.config().max_age(), now),
                final(records)@,
                self.config().max_memory,
            ),
            evicted_oldest_first(
                swept(old(records)@, self.config().max_age(), now),
                final(records)@,
            ),
    {
        self.routine_cleanup(records, now);
        self.relieve(records);
    }

    /// Measures the store and, if the estimate is above the ceiling, evicts
    /// the oldest records until it is down to eighty percent of the ceiling or
    /// no record is left. A store whose estimate is within the ceiling is left
    /// as it is.
    pub fn relieve(&self, records: &mut RecordStore)
        ensures
            relieved(old(records)@, final(records)@, self.config().max_memory),
            evicted_oldest_first(old(records)@, final(records)@),
    {
        let entries = Self::measure_by_age(records);
        let current_memory = Self::estimate_for(records, &entries);
        if current_memory > self.max_memory() {
            let target_memory = Self::target_for(self.max_memory());
            proof {
                lemma_evict_run_oldest_first(records@, entries@, current_memory, target_memory);
            }
            Self::evict_listed(records, &entries, current_memory, target_memory);
        } else {
            proof {
                lemma_nothing_evicted(records@);
            }
        }
        proof {
            assert(records@ == (if estimate_from(old(records).identity_order(), entries@)
                <= self.config().max_memory {
                old(records)@
            } else {
                evict_run(
                    old(records)@,
                    entries@,
                    estimate_from(old(records).identity_order(), entries@),
                    eviction_target(self.config().max_memory) as usize,
                ).0
            }));
        }
    }

    /// Eighty percent of the ceiling, rounded down.
    pub fn target_for(max_memory: usize) -> (target: usize)
        ensures
            target == eviction_target(max_memory),
    {
        ((max_memory as u128) * 80 / 100) as usize
    }

    /// Measures the store and evicts records, the oldest first, until the
    /// estimate of the store's memory is down to `target_memory` or no record
    /// is left.
    pub fn remove_oldest_entries(&self, records: &mut RecordStore, target_memory: usize)
        ensures
            evicted_down_to(old(records)@, final(records)@, target_memory),
            evicted_oldest_first(old(records)@, final(records)@),
    {
        let entries = Self::measure_by_age(records);
        let current_memory = Self::estimate_for(records, &entries);
        proof {
            lemma_evict_run_oldest_first(records@, entries@, current_memory, target_memory);
        }
        Self::evict_listed(records, &entries, current_memory, target_memory);
        proof {
            assert(records@ == evict_run(
                old(records)@,
                entries@,
                estimate_from(old(records).identity_order(), entries@),
                target_memory,
            ).0);
        }
    }

    /// A measurement of the store, the oldest record first.
    pub fn measure_by_age(records: &RecordStore) -> (entries: Vec<Candidate>)
        ensures
            eviction_order(entries@, records@),
    {
        let unsorted = Self::collect_candidates(records);
        let ghost measured = unsorted@;
        let entries = Self::sort_by_age(unsorted);
        proof {
            lemma_sorted_measurement(measured, entries@, records@);
        }
        entries
    }

    /// The memory estimate that the measurement gives for the store: what the
    /// identities of the store are counted as and the bytes of the candidates,
    /// capped at `usize::MAX`.
    pub fn estimate_for(records: &RecordStore, entries: &Vec<Candidate>) -> (total: usize)
        ensures
            total == estimate_from(records.identity_order(), entries@),
            enumerates(records.identity_order(), records@),
    {
        let mut total: usize = 0;
        let ghost order = records.identity_order();
        let identities = records.identities.len();
        assert(records@.dom() =~= records.identities@.dom());
        let mut i: usize = 0;
        while i < identities
            invariant
                i <= identities,
                identities == order.len(),
                order == records.identity_order(),
                total == capped(overhead(order.take(i as int))),
            decreases identities - i,
        {
            let who = records.identities.key_at(i);
            proof {
                assert(order.take(i + 1).drop_last() == order.take(i as int));
                assert(order.take(i + 1).last() == who@);
            }
            total = total.saturating_add(name_len(who)).saturating_add(
                core::mem::size_of::<ScopeMap>(),
            );
            i += 1;
        }
        proof {
            assert(order.take(identities as int) == order);
        }
        let count = entries.len();
        let mut k: usize = 0;
        while k < count
            invariant
                k <= count,
                count == entries@.len(),
                total == capped(overhead(order) + bytes_sum(entries@.take(k as int))),
            decreases count - k,
        {
            proof {
                assert(entries@.take(k + 1).drop_last() == entries@.take(k as int));
                assert(entries@.take(k + 1).last() == entries@[k as int]);
            }
            total = total.saturating_add(entries[k].bytes);
            k += 1;
        }
        proof {
            assert(entries@.take(count as int) == entries@);
        }
        total
    }

    /// Evicts along the list the records that the candidates name, from a
    /// store whose memory is estimated at `current_memory` bytes: one after
    /// the other, as long as the estimate is above `target_memory`. Each
    /// eviction brings the estimate down by the candidate's bytes and, if the
    /// identity leaves with its last record, by what the identity is counted
    /// as. Hands back the estimate at the end.
    pub fn evict_listed(
        records: &mut RecordStore,
        entries: &Vec<Candidate>,
        current_memory: usize,
        target_memory: usize,
    ) -> (remaining: usize)
        ensures
            (final(records)@, remaining) == evict_run(
                old(records)@,
                entries@,
                current_memory,
                target_memory,
            ),
    {
        let mut current = current_memory;
        let mut k: usize = 0;
        assert(entries@.skip(0) == entries@);
        while k < entries.len() && current > target_memory
            invariant
                k <= entries@.len(),
                evict_run(old(records)@, entries@, current_memory, target_memory) == evict_run(
                    records@,
                    entries@.skip(k as int),
                    current,
                    target_memory,
                ),
            decreases entries@.len() - k,
        {
            let ghost before = records@;
            let candidate = &entries[k];
            proof {
                assert(entries@.skip(k as int)[0] == entries@[k as int]);
                assert(entries@.skip(k as int).skip(1) == entries@.skip(k + 1));
            }
            match records.take(&candidate.who, &candidate.scope) {
                Some(_) => {
                    current = current.saturating_sub(candidate.bytes);
                    if !records.identities.contains_key(&candidate.who) {
                        current = current.saturating_sub(
                            name_len(&candidate.who).saturating_add(
                                core::mem::size_of::<ScopeMap>(),
                            ),
                        );
                    }
                },
                None => {},
            }
            k += 1;
        }
        current
    }

    /// An estimate of the bytes that the store occupies: for each identity the
    /// length of its name and the size of a scope map, and for each record
    /// the length of its scope's name and the record's own estimate, which
    /// goes by the capacity of its buffer. The sum is capped at `usize::MAX`.
    pub fn estimate_memory_usage(&self, records: &RecordStore) -> (total: usize)
        ensures
            is_estimate(records@, total),
    {
        let entries = Self::collect_candidates(records);
        Self::estimate_for(records, &entries)
    }

    /// A measurement of the store: one candidate for each record, with its
    /// age and the bytes that it and the name of its scope are counted as.
    pub fn collect_candidates(records: &RecordStore) -> (entries: Vec<Candidate>)
        ensures
            measures(entries@, records@),
    {
        let mut entries: Vec<Candidate> = Vec::new();
        let ghost order = records.identities.order();
        let identities = records.identities.len();
        let mut i: usize = 0;
        while i < identities
            invariant
                i <= identities,
                identities == order.len(),
                order == records.identities.order(),
                order.no_duplicates(),
                forall|who: Seq<char>|
                    order.contains(who) <==> #[trigger] records.identities@.contains_key(who),
                forall|k: int| 0 <= k < entries@.len() ==> names_record(#[trigger] entries@[k], records@),
                forall|k: int|
                    0 <= k < entries@.len() ==> cost_is_measured(#[trigger] entries@[k], records@),
                forall|k: int|
                    0 <= k < entries@.len() ==> order.take(i as int).contains(
                        (#[trigger] entries@[k]).who@,
                    ),
                distinct_records(entries@),
                forall|seen: int, scope: Seq<char>|
                    0 <= seen < i && #[trigger] has_record(records@, order[seen], scope) ==> listed(
                        entries@,
                        order[seen],
                        scope,
                    ),
            decreases identities - i,
        {
            let who = records.identities.key_at(i);
            let scopes = records.identities.value_at(i);
            let ghost names = scopes.order();
            let count = scopes.len();
            let mut j: usize = 0;
            while j < count
                invariant
                    j <= count,
                    count == names.len(),
                    names == scopes.order(),
                    names.no_duplicates(),
                    i < identities,
                    identities == order.len(),
                    order == records.identities.order(),
                    order.no_duplicates(),
                    who@ == order[i as int],
                    records.identities@.contains_key(who@),
                    *scopes == records.identities@[who@],
                    forall|scope: Seq<char>|
                        names.contains(scope) <==> #[trigger] scopes@.contains_key(scope),
                    forall|k: int|
                        0 <= k < entries@.len() ==> names_record(#[trigger] entries@[k], records@),
                    forall|k: int|
                        0 <= k < entries@.len() ==> cost_is_measured(
                            #[trigger] entries@[k],
                            records@,
                        ),
                    forall|k: int|
                        0 <= k < entries@.len() ==> order.take(i as int).contains(
                            (#[trigger] entries@[k]).who@,
                        ) || (entries@[k].who@ == who@ && names.take(j as int).contains(
                            entries@[k].scope@,
                        )),
                    distinct_records(entries@),
                    forall|seen: int, scope: Seq<char>|
                        0 <= seen < i && #[trigger] has_record(records@, order[seen], scope)
                            ==> listed(entries@, order[seen], scope),
                    forall|seen: int| 0 <= seen < j ==> listed(entries@, who@, #[trigger] names[seen]),
                decreases count - j,
            {
                let scope = scopes.key_at(j);
                let record = scopes.value_at(j);
                let measured = record.memory_usage();
                let candidate = Candidate {
                    who: who.clone(),
                    scope: scope.clone(),
                    oldest: record.oldest_time(),
                    bytes: name_len(scope).saturating_add(measured),
                };
                let ghost before = entries@;
                entries.push(candidate);
                proof {
                    lemma_listed_grows(before, candidate);
                    assert(entries@[before.len() as int] == candidate);
                    assert(listed(entries@, who@, scope@));
                    assert(records@[who@][scope@] == record@);
                    assert(is_footprint(measured, records@[who@][scope@].timestamps.len()));
                    assert(cost_is_measured(candidate, records@));
                    let done = names.take(j as int);
                    let next = names.take(j + 1);
                    assert forall|k: int| 0 <= k < entries@.len() implies order.take(
                        i as int,
                    ).contains((#[trigger] entries@[k]).who@) || (entries@[k].who@ == who@
                        && next.contains(entries@[k].scope@)) by {
                        if k < before.len() {
                            assert(entries@[k] == before[k]);
                            if !order.take(i as int).contains(before[k].who@) {
                                let at = choose|at: int|
                                    0 <= at < done.len() && done[at] == before[k].scope@;
                                assert(next[at] == before[k].scope@);
                            }
                        } else {
                            assert(next[j as int] == scope@);
                        }
                    }
                    assert forall|a: int, b: int| 0 <= a < b < entries@.len() implies !((
                    #[trigger] entries@[a]).who@ == (#[trigger] entries@[b]).who@
                        && entries@[a].scope@ == entries@[b].scope@) by {
                        if b < before.len() {
                            assert(entries@[a] == before[a]);
                            assert(entries@[b] == before[b]);
                        } else {
                            assert(entries@[a] == before[a]);
                            if order.take(i as int).contains(before[a].who@) {
                                let at = choose|at: int|
                                    0 <= at < order.take(i as int).len() && order.take(
                                        i as int,
                                    )[at] == before[a].who@;
                                assert(order[at] != order[i as int]);
                            } else {
                                let at = choose|at: int|
                                    0 <= at < done.len() && done[at] == before[a].scope@;
                                assert(names[at] != names[j as int]);
                            }
                        }
                    }
                }
                j += 1;
            }
            proof {
                assert(names.take(count as int) == names);
                assert forall|scope: Seq<char>| #[trigger]
                    has_record(records@, who@, scope) implies listed(entries@, who@, scope) by {
                    assert(scopes@.contains_key(scope));
                    assert(names.contains(scope));
                    let seen = choose|seen: int| 0 <= seen < names.len() && names[seen] == scope;
                    assert(listed(entries@, who@, names[seen]));
                }
                let next = order.take(i + 1);
                assert forall|k: int| 0 <= k < entries@.len() implies next.contains(
                    (#[trigger] entries@[k]).who@,
                ) by {
                    if order.take(i as int).contains(entries@[k].who@) {
                        let at = choose|at: int|
                            0 <= at < order.take(i as int).len() && order.take(i as int)[at]
                                == entries@[k].who@;
                        assert(next[at] == entries@[k].who@);
                    } else {
                        assert(next[i as int] == who@);
                    }
                }
            }
            i += 1;
        }
        proof {
            assert forall|who: Seq<char>, scope: Seq<char>| #[trigger]
                has_record(records@, who, scope) implies listed(entries@, who, scope) by {
                assert(records.identities@.contains_key(who));
                assert(order.contains(who));
                let seen = choose|seen: int| 0 <= seen < order.len() && order[seen] == who;
                assert(has_record(records@, order[seen], scope));
            }
        }
        entries
    }

    /// The candidates in the order of their age, the oldest first.
    pub fn sort_by_age(entries: Vec<Candidate>) -> (sorted: Vec<Candidate>)
        ensures
            oldest_first(sorted@),
            sorted@.to_multiset() == entries@.to_multiset(),
            sorted@.len() == entries@.len(),
            forall|k: int| 0 <= k < entries@.len() ==> sorted@.contains(#[trigger] entries@[k]),
            forall|k: int| 0 <= k < sorted@.len() ==> entries@.contains(#[trigger] sorted@[k]),
    {
        let mut rest = entries;
        let mut sorted: Vec<Candidate> = Vec::new();
        let mut remaining = rest.len();
        proof {
            assert(rest@.to_multiset().add(sorted@.to_multiset()) =~= entries@.to_multiset()) by {
                broadcast use vstd::seq_lib::group_to_multiset_ensures;

            }
        }
        while remaining > 0
            invariant
                remaining == rest@.len(),
                rest@.len() + sorted@.len() == entries@.len(),
                rest@.to_multiset().add(sorted@.to_multiset()) == entries@.to_multiset(),
                oldest_first(sorted@),
                forall|k: int|
                    0 <= k < entries@.len() ==> rest@.contains(#[trigger] entries@[k])
                        || sorted@.contains(entries@[k]),
                forall|k: int| 0 <= k < rest@.len() ==> entries@.contains(#[trigger] rest@[k]),
                forall|k: int| 0 <= k < sorted@.len() ==> entries@.contains(#[trigger] sorted@[k]),
            decreases remaining,
        {
            let ghost rest_before = rest@;
            let ghost sorted_before = sorted@;
            let candidate = rest.pop().unwrap();
            let mut at: usize = 0;
            while at < sorted.len() && sorted[at].oldest < candidate.oldest
                invariant
                    at <= sorted@.len(),
                    sorted@ == sorted_before,
                    forall|k: int| 0 <= k < at ==> (#[trigger] sorted@[k]).oldest < candidate.oldest,
                decreases sorted@.len() - at,
            {
                at += 1;
            }
            sorted.insert(at, candidate);
            proof {
                assert(candidate == rest_before[rest_before.len() - 1]);
                assert(rest_before == rest@.push(candidate));
                vstd::seq_lib::to_multiset_build(rest@, candidate);
                vstd::seq_lib::to_multiset_insert(sorted_before, at as int, candidate);
                assert(rest@.to_multiset().add(sorted@.to_multiset()) =~= rest_before.to_multiset().add(
                    sorted_before.to_multiset(),
                ));
                assert forall|i: int, j: int| 0 <= i <= j < sorted@.len() implies (
                #[trigger] sorted@[i]).oldest <= (#[trigger] sorted@[j]).oldest by {
                    if i < at && j > at {
                        assert(sorted@[i] == sorted_before[i]);
                        assert(sorted@[j] == sorted_before[j - 1]);
                    } else if i > at {
                        assert(sorted@[i] == sorted_before[i - 1]);
                        assert(sorted@[j] == sorted_before[j - 1]);
                    } else if j < at {
                        assert(sorted@[i] == sorted_before[i]);
                        assert(sorted@[j] == sorted_before[j]);
                    } else if i == at && j > at {
                        assert(sorted@[j] == sorted_before[j - 1]);
                        assert(sorted_before[at as int].oldest <= sorted_before[j - 1].oldest);
                    } else if i < at && j == at {
                        assert(sorted@[i] == sorted_before[i]);
                    }
                }
                assert forall|k: int| 0 <= k < sorted_before.len() implies sorted@.contains(
                    #[trigger] sorted_before[k],
                ) by {
                    if k < at {
                        assert(sorted@[k] == sorted_before[k]);
                    } else {
                        assert(sorted@[k + 1] == sorted_before[k]);
                    }
                }
                assert(sorted@[at as int] == candidate);
                assert forall|k: int| 0 <= k < entries@.len() implies rest@.contains(
                    #[trigger] entries@[k],
                ) || sorted@.contains(entries@[k]) by {
                    if rest_before.contains(entries@[k]) {
                        let found = choose|found: int|
                            0 <= found < rest_before.len() && rest_before[found] == entries@[k];
                        if found < rest@.len() {
                            assert(rest@[found] == entries@[k]);
                        }
                    } else {
                        let found = choose|found: int|
                            0 <= found < sorted_before.len() && sorted_before[found] == entries@[k];
                        assert(sorted@.contains(sorted_before[found]));
                    }
                }
                assert forall|k: int| 0 <= k < rest@.len() implies entries@.contains(
                    #[trigger] rest@[k],
                ) by {
                    assert(rest@[k] == rest_before[k]);
                }
                assert forall|k: int| 0 <= k < sorted@.len() implies entries@.contains(
                    #[trigger] sorted@[k],
                ) by {
                    if k < at {
                        assert(sorted@[k] == sorted_before[k]);
                    } else if k > at {
                        assert(sorted@[k] == sorted_before[k - 1]);
                    }
                }
            }
            remaining -= 1;
        }
        proof {
            assert(rest@ =~= Seq::<Candidate>::empty());
            assert(entries@.to_multiset() =~= sorted@.to_multiset()) by {
                broadcast use vstd::seq_lib::group_to_multiset_ensures;

            }
        }
        sorted
    }

    /// The records among `scopes` that are not stale at `now`.
    fn retain_fresh(scopes: ScopeMap, max_age: u64, now: u64) -> (fresh: ScopeMap)
        ensures
            scopes_view(fresh) == fresh_scopes(scopes_view(scopes), max_age as nat, now),
    {
        let mut scopes = scopes;
        let ghost all = scopes_view(scopes);
        let mut fresh: ScopeMap = StringMap::new();
        proof {
            scopes.lemma_finite();
        }
        loop
            invariant
                scopes@.dom().finite(),
                forall|scope: Seq<char>| #[trigger]
                    scopes@.contains_key(scope) ==> all.contains_key(scope) && scopes@[scope]@
                        == all[scope] && !fresh@.contains_key(scope),
                forall|scope: Seq<char>| #[trigger]
                    fresh@.contains_key(scope) ==> all.contains_key(scope) && !all[scope].stale(
                        max_age as nat,
                        now,
                    ) && fresh@[scope]@ == all[scope],
                forall|scope: Seq<char>| #[trigger]
                    all.contains_key(scope) && !all[scope].stale(max_age as nat, now)
                        ==> scopes@.contains_key(scope) || fresh@.contains_key(scope),
            ensures
                scopes@ == Map::<Seq<char>, RequestRecord>::empty(),
            decreases scopes@.len(),
        {
            match scopes.pop() {
                None => {
                    break ;
                },
                Some(entry) => {
                    let (scope, record) = entry;
                    if !record.should_cleanup_at(max_age, now) {
                        fresh.push_new(scope, record);
                    }
                },
            }
        }
        assert(scopes_view(fresh) =~= fresh_scopes(all, max_age as nat, now));
        fresh
    }
}

/// The length of a name in bytes.
pub fn name_len(name: &String) -> (bytes: usize)
    ensures
        bytes == name_bytes(name@),
{
    name.as_str().as_bytes().len()
}

} // verus!
