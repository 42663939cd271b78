use crate::string_map::StringMap;
use crate::types::{capped, RecordView, RequestRecord};
use vstd::prelude::*;

verus! {

/// The records of one identity, by scope.
pub type ScopeMap = StringMap<RequestRecord>;

/// What the records of one identity hold, by scope.
pub type ScopesModel = Map<Seq<char>, RecordView>;

/// What a record store holds: for each identity, its records by scope.
pub type StoreModel = Map<Seq<char>, ScopesModel>;

/// What the records of one identity hold.
pub open spec fn scopes_view(scopes: ScopeMap) -> ScopesModel {
    scopes@.map_values(|record: RequestRecord| record@)
}

/// The store has a record for the identity in the scope.
pub open spec fn has_record(store: StoreModel, who: Seq<char>, scope: Seq<char>) -> bool {
    store.contains_key(who) && store[who].contains_key(scope)
}

/// The records of the identity; none if the store does not know it.
pub open spec fn scopes_of(store: StoreModel, who: Seq<char>) -> ScopesModel {
    if store.contains_key(who) {
        store[who]
    } else {
        Map::empty()
    }
}

/// The store with `record` for the identity in the scope, in place of any
/// record that stood there.
pub open spec fn with_record(
    store: StoreModel,
    who: Seq<char>,
    scope: Seq<char>,
    record: RecordView,
) -> StoreModel {
    store.insert(who, scopes_of(store, who).insert(scope, record))
}

/// The store without the record of the identity in the scope. An identity
/// whose last record leaves is dropped with it.
pub open spec fn without_record(store: StoreModel, who: Seq<char>, scope: Seq<char>) -> StoreModel {
    if has_record(store, who, scope) {
        let rest = store[who].remove(scope);
        if rest == Map::<Seq<char>, RecordView>::empty() {
            store.remove(who)
        } else {
            store.insert(who, rest)
        }
    } else {
        store
    }
}

/// The number of records that the identities of the list have, taken together.
pub open spec fn record_total(store: StoreModel, names: Seq<Seq<char>>) -> nat
    decreases names.len(),
{
    if names.len() == 0 {
        0
    } else {
        record_total(store, names.drop_last()) + store[names.last()].len()
    }
}

/// The shared store of window records: identity, then scope, then record.
pub struct RecordStore {
    pub identities: StringMap<ScopeMap>,
}

impl View for RecordStore {
    type V = StoreModel;

    open spec fn view(&self) -> StoreModel {
        self.identities@.map_values(|scopes: ScopeMap| scopes_view(scopes))
    }
}

impl RecordStore {
    /// The store without records.
    pub fn new() -> (store: Self)
        ensures
            store@ == Map::<Seq<char>, ScopesModel>::empty(),
    {
        let store = RecordStore { identities: StringMap::new() };
        assert(store@ =~= Map::<Seq<char>, ScopesModel>::empty());
        store
    }

    /// The record of the identity in the scope, if there is one.
    pub fn get(&self, who: &String, scope: &String) -> (found: Option<&RequestRecord>)
        ensures
            match found {
                Some(record) => has_record(self@, who@, scope@) && record@ == self@[who@][scope@],
                None => !has_record(self@, who@, scope@),
            },
    {
        match self.identities.get(who) {
            Some(scopes) => scopes.get(scope),
            None => None,
        }
    }

    /// Stores the record for the identity in the scope, in place of any that
    /// stood there.
    pub fn put(&mut self, who: &String, scope: &String, record: RequestRecord)
        ensures
            final(self)@ == with_record(old(self)@, who@, scope@, record@),
    {
        let mut scopes = match self.identities.remove(who) {
            Some(scopes) => scopes,
            None => StringMap::new(),
        };
        assert(scopes_view(scopes) =~= scopes_of(old(self)@, who@));
        scopes.insert(scope, record);
        assert(scopes_view(scopes) =~= scopes_of(old(self)@, who@).insert(scope@, record@));
        self.identities.push_new(who.clone(), scopes);
        assert(self@ =~= with_record(old(self)@, who@, scope@, record@));
    }

    /// Takes the record of the identity in the scope out of the store. An
    /// identity whose last record leaves is dropped with it.
    pub fn take(&mut self, who: &String, scope: &String) -> (taken: Option<RequestRecord>)
        ensures
            match taken {
                Some(record) => has_record(old(self)@, who@, scope@) && record@ == old(
                    self,
                )@[who@][scope@],
                None => !has_record(old(self)@, who@, scope@),
            },
            final(self)@ == without_record(old(self)@, who@, scope@),
    {
        match self.identities.remove(who) {
            Some(scopes) => {
                let mut scopes = scopes;
                let ghost before = scopes_view(scopes);
                let taken = scopes.remove(scope);
                let ghost rest = scopes_view(scopes);
                assert(rest =~= before.remove(scope@));
                if taken.is_some() && scopes.is_empty() {
                    assert(rest =~= Map::<Seq<char>, RecordView>::empty());
                } else {
                    if taken.is_some() {
                        assert(rest.dom() =~= scopes@.dom());
                        assert(rest != Map::<Seq<char>, RecordView>::empty());
                    } else {
                        assert(rest =~= before);
                    }
                    self.identities.push_new(who.clone(), scopes);
                }
                assert(self@ =~= without_record(old(self)@, who@, scope@));
                taken
            },
            None => {
                assert(self@ =~= old(self)@);
                None
            },
        }
    }

    /// The identities in the order in which the store holds them: each
    /// identity of the store once.
    pub open spec fn identity_order(&self) -> Seq<Seq<char>> {
        self.identities.order()
    }

    /// The number of identities and the number of records, the latter capped
    /// at `usize::MAX`.
    pub fn stats(&self) -> (totals: (usize, usize))
        ensures
            self@.dom().finite(),
            totals.0 == self@.len(),
            totals.1 == capped(record_total(self@, self.identity_order())),
            self.identity_order().no_duplicates(),
            forall|who: Seq<char>|
                self.identity_order().contains(who) <==> #[trigger] self@.contains_key(who),
    {
        let total_users = self.identities.len();
        assert(self@.dom() =~= self.identities@.dom());
        let ghost order = self.identities.order();
        let mut total_routes: usize = 0;
        let mut i: usize = 0;
        while i < total_users
            invariant
                i <= total_users,
                total_users == order.len(),
                order == self.identities.order(),
                total_routes == capped(record_total(self@, order.take(i as int))),
            decreases total_users - i,
        {
            let scopes = self.identities.value_at(i);
            let count = scopes.len();
            proof {
                assert(order.take(i + 1).drop_last() == order.take(i as int));
                assert(order.take(i + 1).last() == order[i as int]);
                assert(self@[order[i as int]].dom() =~= scopes@.dom());
            }
            total_routes = total_routes.saturating_add(count);
            i += 1;
        }
        proof {
            assert(order.take(total_users as int) == order);
        }
        (total_users, total_routes)
    }

    /// Drops every record.
    pub fn clear(&mut self)
        ensures
            final(self)@ == Map::<Seq<char>, ScopesModel>::empty(),
    {
        self.identities = StringMap::new();
        assert(self@ =~= Map::<Seq<char>, ScopesModel>::empty());
    }
}

/// Storing a record where one was just taken out gives the store with that
/// record in the other's place.
pub proof fn lemma_put_after_take(
    store: StoreModel,
    who: Seq<char>,
    scope: Seq<char>,
    record: RecordView,
)
    ensures
        with_record(without_record(store, who, scope), who, scope, record) == with_record(
            store,
            who,
            scope,
            record,
        ),
{
    let taken = without_record(store, who, scope);
    if has_record(store, who, scope) {
        let rest = store[who].remove(scope);
        assert(scopes_of(taken, who).insert(scope, record) =~= scopes_of(store, who).insert(
            scope,
            record,
        ));
    }
    assert(with_record(taken, who, scope, record) =~= with_record(store, who, scope, record));
}

/// Taking a record out leaves every other record where and as it was.
pub proof fn lemma_without_record(store: StoreModel, who: Seq<char>, scope: Seq<char>)
    ensures
        forall|w: Seq<char>, s: Seq<char>| #[trigger]
            has_record(without_record(store, who, scope), w, s) <==> has_record(store, w, s) && !(w
                == who && s == scope),
        forall|w: Seq<char>, s: Seq<char>| #[trigger]
            has_record(without_record(store, who, scope), w, s) ==> without_record(
                store,
                who,
                scope,
            )[w][s] == store[w][s],
        forall|w: Seq<char>| #[trigger]
            without_record(store, who, scope).contains_key(w) ==> store.contains_key(w),
        forall|w: Seq<char>|
            w != who ==> (#[trigger] without_record(store, who, scope).contains_key(w))
                == store.contains_key(w),
        forall|w: Seq<char>|
            w != who && store.contains_key(w) ==> #[trigger] without_record(store, who, scope)[w]
                == store[w],
        !has_record(store, who, scope) ==> without_record(store, who, scope) == store,
{
    let after = without_record(store, who, scope);
    if has_record(store, who, scope) {
        let rest = store[who].remove(scope);
        assert forall|w: Seq<char>, s: Seq<char>| #[trigger]
            has_record(after, w, s) <==> has_record(store, w, s) && !(w == who && s == scope) by {
            if rest == Map::<Seq<char>, RecordView>::empty() {
                if w == who && s != scope && store[who].contains_key(s) {
                    assert(rest.contains_key(s));
                }
            }
        }
    }
}

} // verus!
