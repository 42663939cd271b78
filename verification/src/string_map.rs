use vstd::hash_map::StringHashMap;
use vstd::prelude::*;

verus! {

/// No two entries of the list have the same key.
pub open spec fn distinct_keys<V>(entries: Seq<(String, V)>) -> bool {
    forall|i: int, j: int|
        0 <= i < j < entries.len() ==> (#[trigger] entries[i]).0@ != (#[trigger] entries[j]).0@
}

/// Some entry of the list has the key.
pub open spec fn has_key<V>(entries: Seq<(String, V)>, key: Seq<char>) -> bool {
    exists|i: int| 0 <= i < entries.len() && (#[trigger] entries[i]).0@ == key
}

/// The map from each key in the list to the value beside it.
pub open spec fn entries_map<V>(entries: Seq<(String, V)>) -> Map<Seq<char>, V> {
    Map::new(
        |key: Seq<char>| has_key(entries, key),
        |key: Seq<char>|
            entries[choose|i: int| 0 <= i < entries.len() && (#[trigger] entries[i]).0@ == key].1,
    )
}

/// In a list without repeated keys the map holds each entry as it stands.
pub proof fn lemma_entry_in_map<V>(entries: Seq<(String, V)>, i: int)
    requires
        distinct_keys(entries),
        0 <= i < entries.len(),
    ensures
        entries_map(entries).contains_key(entries[i].0@),
        entries_map(entries)[entries[i].0@] == entries[i].1,
{
    let key = entries[i].0@;
    assert(has_key(entries, key));
    let j = choose|j: int| 0 <= j < entries.len() && (#[trigger] entries[j]).0@ == key;
    if j < i {
        assert(entries[j].0@ != entries[i].0@);
    } else if i < j {
        assert(entries[i].0@ != entries[j].0@);
    }
}

/// The map of a list with one more entry under a key that the list lacks.
pub proof fn lemma_push_entry<V>(entries: Seq<(String, V)>, key: String, value: V)
    requires
        distinct_keys(entries),
        !has_key(entries, key@),
    ensures
        distinct_keys(entries.push((key, value))),
        entries_map(entries.push((key, value))) == entries_map(entries).insert(key@, value),
{
    let longer = entries.push((key, value));
    assert(distinct_keys(longer)) by {
        assert forall|i: int, j: int| 0 <= i < j < longer.len() implies (#[trigger] longer[i]).0@
            != (#[trigger] longer[j]).0@ by {
            if j < entries.len() {
                assert(entries[i].0@ != entries[j].0@);
            } else {
                assert(entries[i].0@ != key@);
            }
        }
    }
    assert forall|k: Seq<char>| #[trigger]
        entries_map(longer).contains_key(k) == entries_map(entries).insert(
            key@,
            value,
        ).contains_key(k) by {
        if has_key(entries, k) {
            let i = choose|i: int| 0 <= i < entries.len() && (#[trigger] entries[i]).0@ == k;
            assert(longer[i].0@ == k);
        }
        if k == key@ {
            assert(longer[entries.len() as int].0@ == k);
        }
        if has_key(longer, k) {
            let i = choose|i: int| 0 <= i < longer.len() && (#[trigger] longer[i]).0@ == k;
            if i < entries.len() {
                assert(entries[i].0@ == k);
            }
        }
    }
    assert forall|k: Seq<char>| #[trigger] entries_map(longer).contains_key(k) implies entries_map(
        longer,
    )[k] == entries_map(entries).insert(key@, value)[k] by {
        let i = choose|i: int| 0 <= i < longer.len() && (#[trigger] longer[i]).0@ == k;
        lemma_entry_in_map(longer, i);
        if i < entries.len() {
            assert(entries[i] == longer[i]);
            lemma_entry_in_map(entries, i);
        }
    }
    assert(entries_map(longer) =~= entries_map(entries).insert(key@, value));
}

/// The map of a list from which the entry at `at` was taken by moving the last
/// entry into its place.
pub proof fn lemma_swap_remove_entry<V>(entries: Seq<(String, V)>, at: int)
    requires
        distinct_keys(entries),
        0 <= at < entries.len(),
    ensures
        distinct_keys(entries.update(at, entries.last()).drop_last()),
        entries_map(entries.update(at, entries.last()).drop_last()) == entries_map(entries).remove(
            entries[at].0@,
        ),
{
    let shorter = entries.update(at, entries.last()).drop_last();
    let last = entries.len() - 1;
    // where each entry of the shorter list stood in the longer one
    let origin = |i: int| if i == at { last } else { i };
    assert forall|i: int| 0 <= i < shorter.len() implies #[trigger] shorter[i] == entries[origin(i)]
        by {}
    assert(distinct_keys(shorter)) by {
        assert forall|i: int, j: int| 0 <= i < j < shorter.len() implies (#[trigger] shorter[i]).0@
            != (#[trigger] shorter[j]).0@ by {
            let a = origin(i);
            let b = origin(j);
            if a < b {
                assert(entries[a].0@ != entries[b].0@);
            } else {
                assert(entries[b].0@ != entries[a].0@);
            }
        }
    }
    let gone = entries[at].0@;
    assert forall|k: Seq<char>| #[trigger]
        entries_map(shorter).contains_key(k) == entries_map(entries).remove(gone).contains_key(
            k,
        ) by {
        if has_key(shorter, k) {
            let i = choose|i: int| 0 <= i < shorter.len() && (#[trigger] shorter[i]).0@ == k;
            let a = origin(i);
            assert(entries[a].0@ == k);
            if a < at {
                assert(entries[a].0@ != entries[at].0@);
            } else if at < a {
                assert(entries[at].0@ != entries[a].0@);
            }
        }
        if has_key(entries, k) && k != gone {
            let a = choose|a: int| 0 <= a < entries.len() && (#[trigger] entries[a]).0@ == k;
            if a == last {
                assert(shorter[at].0@ == k);
            } else {
                assert(shorter[a].0@ == k);
            }
        }
    }
    assert forall|k: Seq<char>| #[trigger] entries_map(shorter).contains_key(k) implies entries_map(
        shorter,
    )[k] == entries_map(entries).remove(gone)[k] by {
        let i = choose|i: int| 0 <= i < shorter.len() && (#[trigger] shorter[i]).0@ == k;
        lemma_entry_in_map(shorter, i);
        lemma_entry_in_map(entries, origin(i));
    }
    assert(entries_map(shorter) =~= entries_map(entries).remove(gone));
}

/// The map of a list has one key for each entry.
pub proof fn lemma_map_size<V>(entries: Seq<(String, V)>)
    requires
        distinct_keys(entries),
    ensures
        entries_map(entries).dom().finite(),
        entries_map(entries).dom().len() == entries.len(),
    decreases entries.len(),
{
    if entries.len() == 0 {
        assert(entries_map(entries).dom() =~= Set::<Seq<char>>::empty());
    } else {
        let shorter = entries.drop_last();
        let last = entries.last();
        assert forall|i: int, j: int| 0 <= i < j < shorter.len() implies (#[trigger] shorter[i]).0@
            != (#[trigger] shorter[j]).0@ by {
            assert(entries[i].0@ != entries[j].0@);
        }
        assert(!has_key(shorter, last.0@)) by {
            if has_key(shorter, last.0@) {
                let i = choose|i: int|
                    0 <= i < shorter.len() && (#[trigger] shorter[i]).0@ == last.0@;
                assert(entries[i].0@ != entries[entries.len() - 1].0@);
            }
        }
        lemma_map_size(shorter);
        lemma_push_entry(shorter, last.0, last.1);
        assert(shorter.push((last.0, last.1)) == entries);
        assert(entries_map(entries).dom() =~= entries_map(shorter).dom().insert(last.0@));
    }
}

/// The map of a list has finitely many keys.
pub proof fn lemma_map_finite<V>(entries: Seq<(String, V)>)
    ensures
        entries_map(entries).dom().finite(),
    decreases entries.len(),
{
    if entries.len() == 0 {
        assert(entries_map(entries).dom() =~= Set::<Seq<char>>::empty());
    } else {
        let shorter = entries.drop_last();
        let last = entries.last();
        lemma_map_finite(shorter);
        assert forall|key: Seq<char>|
            entries_map(entries).dom().contains(key) <==> entries_map(shorter).dom().insert(
                last.0@,
            ).contains(key) by {
            if has_key(entries, key) {
                let i = choose|i: int| 0 <= i < entries.len() && (#[trigger] entries[i]).0@ == key;
                if i < shorter.len() {
                    assert(shorter[i].0@ == key);
                }
            }
            if has_key(shorter, key) {
                let i = choose|i: int| 0 <= i < shorter.len() && (#[trigger] shorter[i]).0@ == key;
                assert(entries[i].0@ == key);
            }
            if key == last.0@ {
                assert(entries[entries.len() - 1].0@ == key);
            }
        }
        assert(entries_map(entries).dom() =~= entries_map(shorter).dom().insert(last.0@));
    }
}

/// The keys of the list, in its order.
pub open spec fn entry_keys<V>(entries: Seq<(String, V)>) -> Seq<Seq<char>> {
    Seq::new(entries.len(), |i: int| entries[i].0@)
}

/// The keys of a list without repeated keys are the keys of its map, each once.
pub proof fn lemma_entry_keys<V>(entries: Seq<(String, V)>)
    requires
        distinct_keys(entries),
    ensures
        entry_keys(entries).no_duplicates(),
        forall|key: Seq<char>|
            entry_keys(entries).contains(key) <==> #[trigger] entries_map(entries).contains_key(key),
{
    let keys = entry_keys(entries);
    assert forall|i: int, j: int| 0 <= i < keys.len() && 0 <= j < keys.len() && i != j implies keys[i]
        != keys[j] by {
        if i < j {
            assert(entries[i].0@ != entries[j].0@);
        } else {
            assert(entries[j].0@ != entries[i].0@);
        }
    }
    assert forall|key: Seq<char>| keys.contains(key) <==> #[trigger] entries_map(
        entries,
    ).contains_key(key) by {
        if keys.contains(key) {
            let i = choose|i: int| 0 <= i < keys.len() && keys[i] == key;
            assert(entries[i].0@ == key);
        }
        if has_key(entries, key) {
            let i = choose|i: int| 0 <= i < entries.len() && (#[trigger] entries[i]).0@ == key;
            assert(keys[i] == key);
        }
    }
}

/// The index gives the place of each entry of the list, and of nothing else.
pub open spec fn indexes<V>(index: Map<Seq<char>, usize>, entries: Seq<(String, V)>) -> bool {
    &&& forall|i: int|
        0 <= i < entries.len() ==> index.contains_key((#[trigger] entries[i]).0@)
            && index[entries[i].0@] == i
    &&& forall|key: Seq<char>| #[trigger]
        index.contains_key(key) ==> index[key] < entries.len() && entries[index[key] as int].0@
            == key
}

/// A list with an index has no repeated keys, and the index has the keys of
/// the list.
pub proof fn lemma_indexed<V>(index: Map<Seq<char>, usize>, entries: Seq<(String, V)>)
    requires
        indexes(index, entries),
    ensures
        distinct_keys(entries),
        forall|key: Seq<char>| has_key(entries, key) <==> #[trigger] index.contains_key(key),
{
    assert forall|i: int, j: int| 0 <= i < j < entries.len() implies (#[trigger] entries[i]).0@
        != (#[trigger] entries[j]).0@ by {
        assert(index[entries[i].0@] == i);
        assert(index[entries[j].0@] == j);
    }
    assert forall|key: Seq<char>| has_key(entries, key) <==> #[trigger] index.contains_key(
        key,
    ) by {
        if index.contains_key(key) {
            assert(entries[index[key] as int].0@ == key);
        }
    }
}

/// A map from strings to values: a list of entries with distinct keys, and a
/// hash index that finds the place of a key in the list.
pub struct StringMap<V> {
    entries: Vec<(String, V)>,
    index: StringHashMap<usize>,
}

impl<V> View for StringMap<V> {
    type V = Map<Seq<char>, V>;

    closed spec fn view(&self) -> Map<Seq<char>, V> {
        entries_map(self.entries@)
    }
}

impl<V: Clone> Clone for StringMap<V> {
    /// A map with the same keys, each with a clone of its value.
    fn clone(&self) -> (copy: Self)
        ensures
            copy@.dom() == self@.dom(),
            forall|key: Seq<char>| #[trigger]
                copy@.contains_key(key) ==> cloned::<V>(self@[key], copy@[key]),
    {
        let mut copy = StringMap::new();
        let n = self.len();
        let mut i: usize = 0;
        while i < n
            invariant
                i <= n,
                n == self.order().len(),
                self.order().no_duplicates(),
                forall|key: Seq<char>|
                    self.order().contains(key) <==> #[trigger] self@.contains_key(key),
                forall|key: Seq<char>| #[trigger]
                    copy@.contains_key(key) <==> self.order().take(i as int).contains(key),
                forall|key: Seq<char>| #[trigger]
                    copy@.contains_key(key) ==> cloned::<V>(self@[key], copy@[key]),
            decreases n - i,
        {
            let key = self.key_at(i).clone();
            let value = self.value_at(i).clone();
            proof {
                let keys = self.order();
                let done = keys.take(i as int);
                if done.contains(key@) {
                    let j = choose|j: int| 0 <= j < done.len() && done[j] == key@;
                    assert(keys[j] == keys[i as int]);
                }
                assert(keys.take(i + 1) == done.push(keys[i as int]));
                assert forall|k: Seq<char>| keys.take(i + 1).contains(k) <==> (done.contains(k)
                    || k == key@) by {
                    if done.contains(k) {
                        let j = choose|j: int| 0 <= j < done.len() && done[j] == k;
                        assert(keys.take(i + 1)[j] == k);
                    }
                    if k == key@ {
                        assert(keys.take(i + 1)[i as int] == k);
                    }
                }
            }
            copy.push_new(key, value);
            i += 1;
        }
        proof {
            assert(self.order().take(n as int) == self.order());
            assert(copy@.dom() =~= self@.dom());
        }
        copy
    }
}

impl<V> StringMap<V> {
    #[verifier::type_invariant]
    spec fn index_fits_entries(self) -> bool {
        indexes(self.index@, self.entries@)
    }

    /// A map of this kind has finitely many keys.
    pub proof fn lemma_finite(self)
        ensures
            self@.dom().finite(),
    {
        lemma_map_finite(self.entries@);
    }

    /// The map without entries.
    pub fn new() -> (map: Self)
        ensures
            map@ == Map::<Seq<char>, V>::empty(),
    {
        let map = StringMap { entries: Vec::new(), index: StringHashMap::new() };
        assert(map@ =~= Map::<Seq<char>, V>::empty());
        map
    }

    /// The keys in the order in which `key_at` and `value_at` number them.
    pub closed spec fn order(&self) -> Seq<Seq<char>> {
        entry_keys(self.entries@)
    }

    /// The number of entries. Each key of the map stands once in `order`.
    pub fn len(&self) -> (n: usize)
        ensures
            self@.dom().finite(),
            n == self@.len(),
            n == self.order().len(),
            self.order().no_duplicates(),
            forall|key: Seq<char>| self.order().contains(key) <==> #[trigger] self@.contains_key(key),
    {
        proof {
            use_type_invariant(self);
            lemma_indexed(self.index@, self.entries@);
            lemma_map_size(self.entries@);
            lemma_entry_keys(self.entries@);
        }
        self.entries.len()
    }

    /// The key of the entry numbered `i`.
    pub fn key_at(&self, i: usize) -> (key: &String)
        requires
            i < self.order().len(),
        ensures
            key@ == self.order()[i as int],
            self@.contains_key(key@),
    {
        proof {
            use_type_invariant(self);
            lemma_indexed(self.index@, self.entries@);
            lemma_entry_in_map(self.entries@, i as int);
        }
        &self.entries[i].0
    }

    /// The value of the entry numbered `i`.
    pub fn value_at(&self, i: usize) -> (value: &V)
        requires
            i < self.order().len(),
        ensures
            self@.contains_key(self.order()[i as int]),
            *value == self@[self.order()[i as int]],
    {
        proof {
            use_type_invariant(self);
            lemma_indexed(self.index@, self.entries@);
            lemma_entry_in_map(self.entries@, i as int);
        }
        &self.entries[i].1
    }

    /// The map has no entries.
    pub fn is_empty(&self) -> (empty: bool)
        ensures
            empty == self@.is_empty(),
            empty == (self@ == Map::<Seq<char>, V>::empty()),
    {
        proof {
            use_type_invariant(self);
            lemma_indexed(self.index@, self.entries@);
            if self.entries@.len() > 0 {
                lemma_entry_in_map(self.entries@, 0);
            } else {
                assert(self@ =~= Map::<Seq<char>, V>::empty());
            }
        }
        self.entries.len() == 0
    }

    /// Where in the list the key stands.
    fn position(&self, key: &String) -> (found: Option<usize>)
        ensures
            match found {
                Some(i) => i < self.entries@.len() && self.entries@[i as int].0@ == key@,
                None => !has_key(self.entries@, key@),
            },
    {
        proof {
            use_type_invariant(self);
            lemma_indexed(self.index@, self.entries@);
        }
        match self.index.get(key.as_str()) {
            Some(i) => Some(*i),
            None => None,
        }
    }

    /// The map has an entry under the key.
    pub fn contains_key(&self, key: &String) -> (found: bool)
        ensures
            found == self@.contains_key(key@),
    {
        self.position(key).is_some()
    }

    /// The value under the key, if there is one.
    pub fn get(&self, key: &String) -> (value: Option<&V>)
        ensures
            match value {
                Some(v) => self@.contains_key(key@) && *v == self@[key@],
                None => !self@.contains_key(key@),
            },
    {
        proof {
            use_type_invariant(self);
            lemma_indexed(self.index@, self.entries@);
        }
        match self.position(key) {
            Some(i) => {
                proof {
                    lemma_entry_in_map(self.entries@, i as int);
                }
                Some(&self.entries[i].1)
            },
            None => None,
        }
    }

    /// Puts the value under the key and hands back the value that stood there.
    pub fn insert(&mut self, key: &String, value: V) -> (previous: Option<V>)
        ensures
            final(self)@ == old(self)@.insert(key@, value),
            match previous {
                Some(v) => old(self)@.contains_key(key@) && v == old(self)@[key@],
                None => !old(self)@.contains_key(key@),
            },
    {
        let previous = self.remove(key);
        let ghost between = self@;
        self.push_new(key.clone(), value);
        assert(between.insert(key@, value) =~= old(self)@.insert(key@, value));
        previous
    }

    /// Takes the entry under the key out of the map.
    pub fn remove(&mut self, key: &String) -> (removed: Option<V>)
        ensures
            final(self)@ == old(self)@.remove(key@),
            match removed {
                Some(v) => old(self)@.contains_key(key@) && v == old(self)@[key@],
                None => !old(self)@.contains_key(key@),
            },
    {
        proof {
            use_type_invariant(&*self);
            lemma_indexed(self.index@, self.entries@);
        }
        match self.position(key) {
            Some(i) => {
                proof {
                    lemma_entry_in_map(self.entries@, i as int);
                    lemma_swap_remove_entry(self.entries@, i as int);
                }
                let mut whole = StringMap::new();
                std::mem::swap(self, &mut whole);
                let StringMap { mut entries, mut index } = whole;
                let ghost before = entries@;
                let last = entries.len() - 1;
                let entry = entries.swap_remove(i);
                index.remove(key.as_str());
                if i < last {
                    let moved = entries[i].0.clone();
                    index.insert(moved, i);
                }
                proof {
                    assert forall|j: int| 0 <= j < entries@.len() implies index@.contains_key(
                        (#[trigger] entries@[j]).0@,
                    ) && index@[entries@[j].0@] == j by {
                        if j != i {
                            assert(entries@[j] == before[j]);
                            assert(before[j].0@ != before[i as int].0@);
                            assert(before[j].0@ != before[last as int].0@);
                        }
                    }
                    assert forall|k: Seq<char>| #[trigger] index@.contains_key(k) implies index@[k]
                        < entries@.len() && entries@[index@[k] as int].0@ == k by {
                        if i < last && k == before[last as int].0@ {
                        } else {
                            let j = old(self).index@[k];
                            assert(before[j as int].0@ == k);
                            assert(j != i);
                            assert(j != last);
                            assert(entries@[j as int] == before[j as int]);
                        }
                    }
                }
                *self = StringMap { entries, index };
                Some(entry.1)
            },
            None => {
                assert(self@.remove(key@) =~= self@);
                None
            },
        }
    }

    /// Adds an entry under a key that the map lacks.
    pub fn push_new(&mut self, key: String, value: V)
        requires
            !old(self)@.contains_key(key@),
        ensures
            final(self)@ == old(self)@.insert(key@, value),
    {
        proof {
            use_type_invariant(&*self);
            lemma_indexed(self.index@, self.entries@);
            lemma_push_entry(self.entries@, key, value);
        }
        let mut whole = StringMap::new();
        std::mem::swap(self, &mut whole);
        let StringMap { mut entries, mut index } = whole;
        let ghost before = entries@;
        index.insert(key.clone(), entries.len());
        entries.push((key, value));
        proof {
            assert forall|j: int| 0 <= j < entries@.len() implies index@.contains_key(
                (#[trigger] entries@[j]).0@,
            ) && index@[entries@[j].0@] == j by {
                if j < before.len() {
                    assert(entries@[j] == before[j]);
                    assert(has_key(before, before[j].0@));
                }
            }
            assert forall|k: Seq<char>| #[trigger] index@.contains_key(k) implies index@[k]
                < entries@.len() && entries@[index@[k] as int].0@ == k by {
                if k != key@ {
                    let j = old(self).index@[k];
                    assert(entries@[j as int] == before[j as int]);
                }
            }
        }
        *self = StringMap { entries, index };
    }

    /// Takes some entry out of the map, if it has one.
    pub fn pop(&mut self) -> (taken: Option<(String, V)>)
        ensures
            match taken {
                Some(entry) => old(self)@.contains_key(entry.0@) && old(self)@[entry.0@] == entry.1
                    && final(self)@ == old(self)@.remove(entry.0@),
                None => old(self)@ == Map::<Seq<char>, V>::empty() && final(self)@ == old(self)@,
            },
    {
        proof {
            use_type_invariant(&*self);
            lemma_indexed(self.index@, self.entries@);
        }
        let len = self.entries.len();
        if len == 0 {
            assert(self@ =~= Map::<Seq<char>, V>::empty());
            None
        } else {
            proof {
                lemma_entry_in_map(self.entries@, len - 1);
                lemma_swap_remove_entry(self.entries@, len - 1);
                assert(self.entries@.update(len - 1, self.entries@.last()) == self.entries@);
            }
            let mut whole = StringMap::new();
            std::mem::swap(self, &mut whole);
            let StringMap { mut entries, mut index } = whole;
            let ghost before = entries@;
            let entry = entries.pop().unwrap();
            index.remove(entry.0.as_str());
            proof {
                assert forall|j: int| 0 <= j < entries@.len() implies index@.contains_key(
                    (#[trigger] entries@[j]).0@,
                ) && index@[entries@[j].0@] == j by {
                    assert(entries@[j] == before[j]);
                    assert(before[j].0@ != before[len - 1].0@);
                }
                assert forall|k: Seq<char>| #[trigger] index@.contains_key(k) implies index@[k]
                    < entries@.len() && entries@[index@[k] as int].0@ == k by {
                    let j = old(self).index@[k];
                    assert(before[j as int].0@ == k);
                    assert(entries@[j as int] == before[j as int]);
                }
            }
            *self = StringMap { entries, index };
            Some(entry)
        }
    }
}

} // verus!
