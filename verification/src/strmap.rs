//! A map from strings to values, kept in increasing key order.
use crate::order::{
    lemma_insert_keeps_sorted, lemma_lt_total, lemma_sorted_no_duplicates, lemma_sorted_set_of, seq_lt,
    sorted_set, str_eq, str_lt, strictly_sorted,
};
use vstd::prelude::*;

verus! {

/// A finite map keyed by strings. Its entries are always held in increasing key order,
/// so two maps with the same contents are equal entry by entry, and walking a map visits
/// its keys in sorted order.
///
/// It stands where a `HashMap<String, _>` would: vstd does not take `String` keys to obey
/// its model of hashed keys, so nothing about such a map's contents follows from its
/// operations (not even its size after one insertion), and the order in which a `HashMap`
/// is walked varies from one process to another.
#[derive(Debug, PartialEq, Eq)]
pub struct StringMap<T> {
    entries: Vec<(String, T)>,
}

impl<T> StringMap<T> {
    /// The keys, in the order the entries are held.
    pub closed spec fn key_order(&self) -> Seq<Seq<char>> {
        self.entries@.map_values(|e: (String, T)| e.0@)
    }

    /// The values, in the order the entries are held.
    pub closed spec fn value_order(&self) -> Seq<T> {
        self.entries@.map_values(|e: (String, T)| e.1)
    }

    /// The keys are held in strictly increasing order.
    #[verifier::type_invariant]
    pub closed spec fn wf(&self) -> bool {
        strictly_sorted(self.key_order())
    }

    /// What a well-formed map's entries say of its contents.
    pub proof fn lemma_entries(&self)
        requires
            self.wf(),
        ensures
            strictly_sorted(self.key_order()),
            self.key_order().no_duplicates(),
            self.key_order().len() == self.value_order().len(),
            self@.dom() == self.key_order().to_set(),
            self@.dom().finite(),
            self@.len() == self.key_order().len(),
            self.key_order() == sorted_set(self@.dom()),
            forall|i: int|
                0 <= i < self.key_order().len() ==> #[trigger] self@[self.key_order()[i]]
                    == self.value_order()[i],
    {
        lemma_sorted_no_duplicates(self.key_order());
        lemma_sorted_set_of(self.key_order());
        assert(self@.dom() =~= self.key_order().to_set());
        assert forall|i: int| 0 <= i < self.key_order().len() implies #[trigger] self@[self.key_order()[i]]
            == self.value_order()[i] by {
            let k = self.key_order()[i];
            let j = self.key_order().index_of(k);
            assert(self.key_order()[j] == k);
        }
        self.key_order().unique_seq_to_set();
    }

    /// An empty map.
    pub fn new() -> (m: Self)
        ensures
            m@ == Map::<Seq<char>, T>::empty(),
            m.key_order() == Seq::<Seq<char>>::empty(),
    {
        let m = StringMap { entries: Vec::new() };
        assert(m.key_order() =~= Seq::<Seq<char>>::empty());
        assert(m@ =~= Map::<Seq<char>, T>::empty());
        m
    }

    /// The number of entries.
    pub fn len(&self) -> (n: usize)
        ensures
            n == self.key_order().len(),
            n == self.value_order().len(),
    {
        self.entries.len()
    }

    /// Whether the map has no entries.
    pub fn is_empty(&self) -> (b: bool)
        ensures
            b == (self@.dom() == Set::<Seq<char>>::empty()),
            b == (self.key_order().len() == 0),
    {
        proof {
            use_type_invariant(self);
            self.lemma_entries();
            if self.key_order().len() > 0 {
                assert(self@.dom().contains(self.key_order()[0]));
            } else {
                assert(self@.dom() =~= Set::<Seq<char>>::empty());
            }
        }
        self.entries.len() == 0
    }

    /// The key of the `i`-th entry in increasing key order.
    pub fn key_at(&self, i: usize) -> (k: &String)
        requires
            i < self.key_order().len(),
        ensures
            k@ == self.key_order()[i as int],
    {
        &self.entries[i].0
    }

    /// The value of the `i`-th entry in increasing key order.
    pub fn value_at(&self, i: usize) -> (v: &T)
        requires
            i < self.key_order().len(),
        ensures
            *v == self.value_order()[i as int],
            *v == self@[self.key_order()[i as int]],
    {
        proof {
            use_type_invariant(self);
            self.lemma_entries();
        }
        &self.entries[i].1
    }

    /// The position of `key` among the entries, if it is a key of the map.
    pub fn find(&self, key: &str) -> (r: Option<usize>)
        ensures
            match r {
                Some(i) => i < self.key_order().len() && self.key_order()[i as int] == key@,
                None => !self@.dom().contains(key@),
            },
    {
        proof {
            use_type_invariant(self);
            self.lemma_entries();
        }
        let mut i: usize = 0;
        while i < self.entries.len()
            invariant
                i <= self.key_order().len(),
                self.key_order().len() == self.entries@.len(),
                forall|j: int| 0 <= j < i ==> #[trigger] self.key_order()[j] != key@,
            decreases self.entries.len() - i,
        {
            if str_eq(self.entries[i].0.as_str(), key) {
                return Some(i);
            }
            i = i + 1;
        }
        None
    }

    /// The value stored under `key`, if any.
    pub fn get(&self, key: &str) -> (r: Option<&T>)
        ensures
            match r {
                Some(v) => self@.dom().contains(key@) && *v == self@[key@],
                None => !self@.dom().contains(key@),
            },
    {
        proof {
            use_type_invariant(self);
            self.lemma_entries();
        }
        match self.find(key) {
            Some(i) => Some(&self.entries[i].1),
            None => None,
        }
    }

    /// Whether `key` is a key of the map.
    pub fn contains_key(&self, key: &str) -> (b: bool)
        ensures
            b == self@.dom().contains(key@),
    {
        proof {
            use_type_invariant(self);
            self.lemma_entries();
        }
        self.find(key).is_some()
    }

    /// Stores `value` under `key`, replacing any value stored there before.
    pub fn insert(&mut self, key: String, value: T)
        ensures
            final(self)@ == old(self)@.insert(key@, value),
    {
        proof {
            use_type_invariant(&*self);
            self.lemma_entries();
        }
        let ghost old_keys = self.key_order();
        let ghost old_vals = self.value_order();
        let ghost old_map = self@;
        let mut i: usize = 0;
        while i < self.entries.len()
            invariant
                old_keys == self.key_order(),
                strictly_sorted(old_keys),
                old_keys.len() == self.entries@.len(),
                i <= self.entries@.len(),
                forall|k: int| 0 <= k < i ==> seq_lt(#[trigger] old_keys[k], key@),
            ensures
                i <= self.entries@.len(),
                forall|k: int| 0 <= k < i ==> seq_lt(#[trigger] old_keys[k], key@),
                i < self.entries@.len() ==> !seq_lt(old_keys[i as int], key@),
            decreases self.entries.len() - i,
        {
            if !str_lt(self.entries[i].0.as_str(), key.as_str()) {
                break;
            }
            i = i + 1;
        }
        if i < self.entries.len() && !str_lt(key.as_str(), self.entries[i].0.as_str()) {
            proof {
                lemma_lt_total(key@, old_keys[i as int]);
            }
            let mut entries: Vec<(String, T)> = Vec::new();
            std::mem::swap(&mut entries, &mut self.entries);
            entries.set(i, (key, value));
            assert(entries@.map_values(|e: (String, T)| e.0@) =~= old_keys);
            self.entries = entries;
            proof {
                assert(self.key_order() =~= old_keys);
                assert(self.value_order() =~= old_vals.update(i as int, value));
                lemma_sorted_no_duplicates(old_keys);
                assert(self@ =~= old_map.insert(key@, value)) by {
                    assert forall|y: Seq<char>| #[trigger] self@.dom().contains(y) implies self@[y]
                        == old_map.insert(key@, value)[y] by {
                        let j = self.key_order().index_of(y);
                        let j0 = old_keys.index_of(y);
                        assert(self.key_order()[j] == y);
                        assert(old_keys[j0] == y);
                        assert(j == j0);
                        if y == key@ {
                            assert(j == i);
                        }
                    }
                }
            }
        } else {
            proof {
                if i < self.entries@.len() {
                    lemma_lt_total(key@, old_keys[i as int]);
                }
                lemma_insert_keeps_sorted(old_keys, i as int, key@);
            }
            let ghost k2 = key@;
            let mut entries: Vec<(String, T)> = Vec::new();
            std::mem::swap(&mut entries, &mut self.entries);
            entries.insert(i, (key, value));
            assert(entries@.map_values(|e: (String, T)| e.0@) =~= old_keys.insert(i as int, k2));
            self.entries = entries;
            proof {
                assert(self.key_order() =~= old_keys.insert(i as int, k2));
                assert(self.value_order() =~= old_vals.insert(i as int, value));
                let nk = self.key_order();
                lemma_sorted_no_duplicates(nk);
                lemma_sorted_no_duplicates(old_keys);
                assert(self@ =~= old_map.insert(k2, value)) by {
                    assert forall|y: Seq<char>| self@.dom().contains(y) <==> old_map.insert(k2, value).dom().contains(y) by {
                        if nk.contains(y) {
                            let j = choose|j: int| 0 <= j < nk.len() && nk[j] == y;
                            if j < i {
                                assert(old_keys[j] == y);
                            } else if j > i {
                                assert(old_keys[j - 1] == y);
                            }
                        }
                        if old_keys.contains(y) {
                            let j = choose|j: int| 0 <= j < old_keys.len() && old_keys[j] == y;
                            if j < i {
                                assert(nk[j] == y);
                            } else {
                                assert(nk[j + 1] == y);
                            }
                        }
                        if y == k2 {
                            assert(nk[i as int] == y);
                        }
                    }
                    assert forall|y: Seq<char>| #[trigger] self@.dom().contains(y) implies self@[y]
                        == old_map.insert(k2, value)[y] by {
                        let j = nk.index_of(y);
                        assert(nk[j] == y);
                        assert(self@[y] == self.value_order()[j]);
                        assert(nk[i as int] == k2);
                        if j < i {
                            assert(old_keys[j] == y);
                            let j0 = old_keys.index_of(y);
                            assert(old_keys[j0] == y);
                            assert(j0 == j);
                            assert(y != k2);
                            assert(old_map[y] == old_vals[j0]);
                        } else if j > i {
                            assert(old_keys[j - 1] == y);
                            let j0 = old_keys.index_of(y);
                            assert(old_keys[j0] == y);
                            assert(j0 == j - 1);
                            assert(y != k2);
                            assert(old_map[y] == old_vals[j0]);
                        } else {
                            assert(y == k2);
                        }
                    }
                }
            }
        }
    }
}

impl<T> View for StringMap<T> {
    type V = Map<Seq<char>, T>;

    closed spec fn view(&self) -> Map<Seq<char>, T> {
        Map::new(
            |k: Seq<char>| self.key_order().contains(k),
            |k: Seq<char>| self.value_order()[self.key_order().index_of(k)],
        )
    }
}

} // verus!
