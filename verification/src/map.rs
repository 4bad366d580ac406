//! The dual-keyed map and its operations.

use crate::model::{
    alt_key, alt_value, entries_inserted, entries_map, entries_wf, has_alt, lemma_alt_lookup,
    lemma_entries_inserted_wf, lemma_entries_map_index, lemma_entries_map_len,
    lemma_entries_map_push, lemma_entries_map_remove, lemma_insert_entry_decomposition,
    lemma_entries_map_update_value, lemma_no_alt, lemma_seq_find_hit, lemma_seq_find_miss,
    lemma_seq_find_some, lemma_wf_map, map_insert_entry, seq_find_key1, seq_has_key1,
    seq_has_key2, seq_key1_index, seq_key2_index, triples_inserted,
};
use core::hash::Hash;
use vstd::laws_eq::obeys_concrete_eq;
use vstd::prelude::*;
use vstd::std_specs::cmp::PartialEqSpec;

verus! {

/// A map that can be looked up by either of two independent keys.
///
/// Every stored element is a triple `(k1, k2, v)`: the value `v` lives
/// under the primary key `k1` and also carries the secondary key `k2`.
/// The structure maintains, as an invariant visible through [`Self::wf`],
/// that no two elements share a primary key and no two elements share a
/// secondary key, so a lookup through either key reaches at most one
/// element. Re-inserting under an existing primary key replaces that
/// element, and an insertion whose secondary key is already bound evicts
/// the element holding it; stale secondary bindings are never left
/// behind.
///
/// Elements are held in one backing table keyed by both keys at once, so
/// the primary and the derived secondary index can never drift apart.
#[derive(Debug)]
pub struct MultiMap<K1, K2, V> where K1: Eq + Hash + Clone, K2: Eq + Hash + Clone {
    entries: Vec<(K1, (K2, V))>,
}

impl<K1, K2, V> View for MultiMap<K1, K2, V> where K1: Eq + Hash + Clone, K2: Eq + Hash + Clone {
    type V = Map<K1, (K2, V)>;

    closed spec fn view(&self) -> Map<K1, (K2, V)> {
        entries_map(self.entries@)
    }
}

impl<K1, K2, V> MultiMap<K1, K2, V> where K1: Eq + Hash + Clone, K2: Eq + Hash + Clone {
    /// The invariant of the structure: no duplicate primary keys, no
    /// duplicate secondary keys. Established by every constructor and
    /// preserved by every operation.
    pub closed spec fn wf(self) -> bool {
        entries_wf(self.entries@)
    }

    /// The stored elements in iteration order.
    pub closed spec fn entry_seq(self) -> Seq<(K1, (K2, V))> {
        self.entries@
    }

    /// Creates an empty map.
    pub fn new() -> (r: Self)
        ensures
            r.wf(),
            r@ == Map::<K1, (K2, V)>::empty(),
            r.entry_seq() == Seq::<(K1, (K2, V))>::empty(),
    {
        let r = MultiMap { entries: Vec::new() };
        proof {
            assert(r@ =~= Map::<K1, (K2, V)>::empty());
        }
        r
    }

    /// Creates an empty map whose backing storage is pre-sized for at
    /// least `capacity` elements.
    pub fn with_capacity(capacity: usize) -> (r: Self)
        ensures
            r.wf(),
            r@ == Map::<K1, (K2, V)>::empty(),
            r.entry_seq() == Seq::<(K1, (K2, V))>::empty(),
    {
        let r = MultiMap { entries: Vec::with_capacity(capacity) };
        proof {
            assert(r@ =~= Map::<K1, (K2, V)>::empty());
        }
        r
    }

    /// Finds the position of the element stored under primary key `key`,
    /// scanning from the front.
    fn find_key1(&self, key: &K1) -> (r: Option<usize>)
        ensures
            match r {
                Some(i) => i < self.entries@.len() && (obeys_concrete_eq::<K1>()
                    ==> self.entries@[i as int].0 == *key && forall|j: int|
                    0 <= j < i ==> (#[trigger] self.entries@[j]).0 != *key),
                None => obeys_concrete_eq::<K1>() ==> forall|j: int|
                    0 <= j < self.entries@.len() ==> (#[trigger] self.entries@[j]).0 != *key,
            },
    {
        let mut i: usize = 0;
        while i < self.entries.len()
            invariant
                i <= self.entries@.len(),
                obeys_concrete_eq::<K1>() ==> forall|j: int|
                    0 <= j < i ==> (#[trigger] self.entries@[j]).0 != *key,
            decreases self.entries@.len() - i,
        {
            proof {
                reveal(vstd::laws_eq::obeys_concrete_eq);
            }
            let e = &self.entries[i];
            if e.0 == *key {
                return Some(i);
            }
            i += 1;
        }
        None
    }

    /// Finds the stored `(k2, v)` pair under primary key `key`,
    /// scanning from the front.
    fn lookup_pair(&self, key: &K1) -> (r: Option<&(K2, V)>)
        ensures
            obeys_concrete_eq::<K1>() ==> match r {
                Some(p) => seq_find_key1(self.entries@, *key) == Some(*p),
                None => seq_find_key1(self.entries@, *key).is_none(),
            },
    {
        match self.find_key1(key) {
            Some(i) => {
                proof {
                    if obeys_concrete_eq::<K1>() {
                        lemma_seq_find_hit(self.entries@, *key, i as int);
                    }
                }
                Some(&self.entries[i].1)
            },
            None => {
                proof {
                    if obeys_concrete_eq::<K1>() {
                        lemma_seq_find_miss(self.entries@, *key);
                    }
                }
                None
            },
        }
    }

    /// Returns a reference to the value stored under primary key `key`,
    /// if any.
    pub fn get(&self, key: &K1) -> (result: Option<&V>)
        requires
            self.wf(),
            obeys_concrete_eq::<K1>(),
        ensures
            match result {
                Some(v) => self@.contains_key(*key) && *v == (self@[*key]).1,
                None => !self@.contains_key(*key),
            },
    {
        match self.find_key1(key) {
            Some(i) => {
                proof {
                    lemma_entries_map_index(self.entries@, i as int);
                }
                Some(&(self.entries[i].1).1)
            },
            None => {
                proof {
                    assert(!seq_has_key1(self.entries@, *key));
                }
                None
            },
        }
    }

    /// Finds the position of the element carrying secondary key `key`,
    /// scanning from the front.
    fn find_key2(&self, key: &K2) -> (r: Option<usize>)
        ensures
            match r {
                Some(i) => i < self.entries@.len() && (obeys_concrete_eq::<K2>()
                    ==> (self.entries@[i as int].1).0 == *key && forall|j: int|
                    0 <= j < i ==> ((#[trigger] self.entries@[j]).1).0 != *key),
                None => obeys_concrete_eq::<K2>() ==> forall|j: int|
                    0 <= j < self.entries@.len() ==> ((#[trigger] self.entries@[j]).1).0 != *key,
            },
    {
        let mut i: usize = 0;
        while i < self.entries.len()
            invariant
                i <= self.entries@.len(),
                obeys_concrete_eq::<K2>() ==> forall|j: int|
                    0 <= j < i ==> ((#[trigger] self.entries@[j]).1).0 != *key,
            decreases self.entries@.len() - i,
        {
            proof {
                reveal(vstd::laws_eq::obeys_concrete_eq);
            }
            let e = &self.entries[i];
            if (e.1).0 == *key {
                return Some(i);
            }
            i += 1;
        }
        None
    }

    /// Returns a reference to the value of the element carrying
    /// secondary key `key`, if any. The secondary key of a stored
    /// element always resolves to that element itself, so this lookup
    /// can never reach a value other than the one inserted beside `key`.
    pub fn get_alt(&self, key: &K2) -> (result: Option<&V>)
        requires
            self.wf(),
            obeys_concrete_eq::<K2>(),
        ensures
            match result {
                Some(v) => has_alt(self@, *key) && *v == alt_value(self@, *key),
                None => !has_alt(self@, *key),
            },
    {
        match self.find_key2(key) {
            Some(i) => {
                proof {
                    lemma_alt_lookup(self.entries@, i as int);
                }
                Some(&(self.entries[i].1).1)
            },
            None => {
                proof {
                    lemma_no_alt(self.entries@, *key);
                }
                None
            },
        }
    }

    /// Reports whether an element is stored under primary key `key`.
    pub fn contains_key(&self, key: &K1) -> (result: bool)
        requires
            self.wf(),
            obeys_concrete_eq::<K1>(),
        ensures
            result == self@.contains_key(*key),
    {
        match self.find_key1(key) {
            Some(i) => {
                proof {
                    lemma_entries_map_index(self.entries@, i as int);
                }
                true
            },
            None => {
                proof {
                    assert(!seq_has_key1(self.entries@, *key));
                }
                false
            },
        }
    }

    /// Reports whether some element carries secondary key `key`.
    pub fn contains_key_alt(&self, key: &K2) -> (result: bool)
        requires
            self.wf(),
            obeys_concrete_eq::<K2>(),
        ensures
            result == has_alt(self@, *key),
    {
        match self.find_key2(key) {
            Some(i) => {
                proof {
                    lemma_alt_lookup(self.entries@, i as int);
                }
                true
            },
            None => {
                proof {
                    lemma_no_alt(self.entries@, *key);
                }
                false
            },
        }
    }

    /// Removes the element stored under primary key `key` and returns
    /// its value; the element's secondary key is released along with it.
    /// Removing an absent key returns nothing and leaves the map
    /// untouched.
    pub fn remove(&mut self, key: &K1) -> (result: Option<V>)
        requires
            old(self).wf(),
            obeys_concrete_eq::<K1>(),
        ensures
            final(self).wf(),
            final(self)@ == old(self)@.remove(*key),
            match result {
                Some(v) => old(self)@.contains_key(*key) && v == (old(self)@[*key]).1,
                None => !old(self)@.contains_key(*key) && *final(self) == *old(self),
            },
    {
        match self.find_key1(key) {
            Some(i) => {
                proof {
                    lemma_entries_map_index(self.entries@, i as int);
                    lemma_entries_map_remove(self.entries@, i as int);
                }
                let e = self.entries.remove(i);
                Some((e.1).1)
            },
            None => {
                proof {
                    assert(!seq_has_key1(self.entries@, *key));
                    assert(old(self)@.remove(*key) =~= old(self)@);
                }
                None
            },
        }
    }

    /// Removes the element carrying secondary key `key` and returns its
    /// value; the element's primary key is released along with it.
    /// Removing an absent secondary key returns nothing and leaves the
    /// map untouched.
    pub fn remove_alt(&mut self, key: &K2) -> (result: Option<V>)
        requires
            old(self).wf(),
            obeys_concrete_eq::<K2>(),
        ensures
            final(self).wf(),
            !has_alt(final(self)@, *key),
            final(self)@ == (if has_alt(old(self)@, *key) {
                old(self)@.remove(alt_key(old(self)@, *key))
            } else {
                old(self)@
            }),
            match result {
                Some(v) => has_alt(old(self)@, *key) && v == alt_value(old(self)@, *key),
                None => !has_alt(old(self)@, *key) && *final(self) == *old(self),
            },
    {
        let ghost s = self.entries@;
        match self.find_key2(key) {
            Some(i) => {
                proof {
                    lemma_alt_lookup(s, i as int);
                    lemma_entries_map_remove(s, i as int);
                }
                let e = self.entries.remove(i);
                proof {
                    let t = self.entries@;
                    assert forall|j: int| 0 <= j < t.len() implies ((#[trigger] t[j]).1).0 != *key
                        by {
                        if j < i {
                            assert(t[j] == s[j]);
                            assert((s[j].1).0 != (s[i as int].1).0);
                        } else {
                            assert(t[j] == s[j + 1]);
                            assert((s[i as int].1).0 != (s[j + 1].1).0);
                        }
                    }
                    lemma_no_alt(t, *key);
                }
                Some((e.1).1)
            },
            None => {
                proof {
                    lemma_no_alt(s, *key);
                }
                None
            },
        }
    }

    /// Returns an exclusive reference to the value stored under primary
    /// key `key`, if any, for mutation in place. The keys of the
    /// element cannot be changed through it.
    pub fn get_mut(&mut self, key: &K1) -> (result: Option<&mut V>)
        requires
            old(self).wf(),
            obeys_concrete_eq::<K1>(),
        ensures
            final(self).wf(),
            old(self)@.contains_key(*key) ==> result.is_some() && *result.unwrap() == (old(
                self,
            )@[*key]).1 && final(self)@ == old(self)@.insert(
                *key,
                ((old(self)@[*key]).0, *final(result.unwrap())),
            ),
            !old(self)@.contains_key(*key) ==> result.is_none() && *final(self) == *old(self),
    {
        match self.find_key1(key) {
            Some(i) => {
                proof {
                    lemma_entries_map_index(self.entries@, i as int);
                    assert forall|v: V| #![auto]
                        entries_wf(
                            self.entries@.update(
                                i as int,
                                (self.entries@[i as int].0, ((self.entries@[i as int].1).0, v)),
                            ),
                        ) && entries_map(
                            self.entries@.update(
                                i as int,
                                (self.entries@[i as int].0, ((self.entries@[i as int].1).0, v)),
                            ),
                        ) == entries_map(self.entries@).insert(
                            self.entries@[i as int].0,
                            ((self.entries@[i as int].1).0, v),
                        ) by {
                        lemma_entries_map_update_value(self.entries@, i as int, v);
                    }
                }
                Some(&mut (self.entries[i].1).1)
            },
            None => {
                proof {
                    assert(!seq_has_key1(self.entries@, *key));
                }
                None
            },
        }
    }

    /// Returns an exclusive reference to the value of the element
    /// carrying secondary key `key`, if any, for mutation in place.
    pub fn get_mut_alt(&mut self, key: &K2) -> (result: Option<&mut V>)
        requires
            old(self).wf(),
            obeys_concrete_eq::<K2>(),
        ensures
            final(self).wf(),
            has_alt(old(self)@, *key) ==> result.is_some() && *result.unwrap() == alt_value(
                old(self)@,
                *key,
            ) && final(self)@ == old(self)@.insert(
                alt_key(old(self)@, *key),
                (*key, *final(result.unwrap())),
            ),
            !has_alt(old(self)@, *key) ==> result.is_none() && *final(self) == *old(self),
    {
        match self.find_key2(key) {
            Some(i) => {
                proof {
                    lemma_alt_lookup(self.entries@, i as int);
                    assert forall|v: V| #![auto]
                        entries_wf(
                            self.entries@.update(
                                i as int,
                                (self.entries@[i as int].0, ((self.entries@[i as int].1).0, v)),
                            ),
                        ) && entries_map(
                            self.entries@.update(
                                i as int,
                                (self.entries@[i as int].0, ((self.entries@[i as int].1).0, v)),
                            ),
                        ) == entries_map(self.entries@).insert(
                            self.entries@[i as int].0,
                            ((self.entries@[i as int].1).0, v),
                        ) by {
                        lemma_entries_map_update_value(self.entries@, i as int, v);
                    }
                }
                Some(&mut (self.entries[i].1).1)
            },
            None => {
                proof {
                    lemma_no_alt(self.entries@, *key);
                }
                None
            },
        }
    }

    /// Stores the element `(key_one, key_two, value)`. Any element
    /// previously stored under `key_one` is replaced, and any element
    /// previously carrying `key_two` is evicted first, so no stale
    /// secondary binding is ever left behind.
    pub fn insert(&mut self, key_one: K1, key_two: K2, value: V)
        requires
            old(self).wf(),
            obeys_concrete_eq::<K1>(),
            obeys_concrete_eq::<K2>(),
        ensures
            final(self).wf(),
            final(self)@ == map_insert_entry(old(self)@, key_one, key_two, value),
    {
        proof {
            lemma_wf_map(self.entries@);
        }
        let _evicted = self.remove_alt(&key_two);
        let ghost mid = self@;
        let _replaced = self.remove(&key_one);
        proof {
            assert(!seq_has_key1(self.entries@, key_one)) by {
                if seq_has_key1(self.entries@, key_one) {
                    assert(entries_map(self.entries@).dom().contains(key_one));
                }
            }
            assert(!has_alt(self@, key_two)) by {
                if has_alt(self@, key_two) {
                    let k = alt_key(self@, key_two);
                    assert(self@.dom().contains(k) && (self@[k]).0 == key_two);
                    assert(mid.dom().contains(k) && mid[k] == self@[k]);
                    assert(has_alt(mid, key_two));
                }
            }
            assert(!seq_has_key2(self.entries@, key_two)) by {
                if seq_has_key2(self.entries@, key_two) {
                    let i = seq_key2_index(self.entries@, key_two);
                    assert(0 <= i < self.entries@.len() && (self.entries@[i].1).0 == key_two);
                    lemma_entries_map_index(self.entries@, i);
                    assert(has_alt(self@, key_two));
                }
            }
            lemma_entries_map_push(self.entries@, key_one, key_two, value);
        }
        self.entries.push((key_one, (key_two, value)));
        proof {
            lemma_insert_entry_decomposition(old(self)@, key_one, key_two, value);
            assert(self@ == map_insert_entry(old(self)@, key_one, key_two, value));
        }
    }

    /// Returns a borrowing iterator over all stored elements as
    /// `(k1, (k2, v))` pairs. The order is the backing storage order and
    /// carries no meaning; a fresh pass over an unmodified map yields the
    /// same elements again.
    pub fn iter<'a>(&'a self) -> (r: Iter<'a, K1, K2, V>)
        ensures
            r.wf(),
            r.remaining() == self.entry_seq(),
    {
        let r = Iter { entries: &self.entries, pos: 0 };
        proof {
            assert(r.remaining() =~= self.entry_seq());
        }
        r
    }

    /// Turns the map into a consuming iterator that transfers every
    /// element out as an owned `(k1, (k2, v))` pair; the map itself is
    /// consumed and gone afterwards.
    pub fn into_iter(self) -> (r: IntoIter<K1, K2, V>)
        ensures
            r.remaining() == self.entry_seq(),
    {
        IntoIter { entries: self.entries }
    }

    /// Builds a map from a flat table of `(k1, (k2, v))` entries, for
    /// example one recovered from a serialized form, by replaying each
    /// entry through the normal insertion step. The derived secondary
    /// bindings are therefore consistent by construction.
    pub fn from_entries(list: Vec<(K1, (K2, V))>) -> (r: Self)
        requires
            obeys_concrete_eq::<K1>(),
            obeys_concrete_eq::<K2>(),
        ensures
            r.wf(),
            r@ == entries_inserted(list@),
    {
        let ghost all = list@;
        let mut list = list;
        let mut r = MultiMap::with_capacity(list.len());
        proof {
            assert(all.take(0) =~= Seq::<(K1, (K2, V))>::empty());
            assert(all.skip(0) =~= all);
        }
        while list.len() > 0
            invariant
                obeys_concrete_eq::<K1>(),
                obeys_concrete_eq::<K2>(),
                r.wf(),
                list@.len() <= all.len(),
                list@ == all.skip(all.len() - list@.len()),
                r@ == entries_inserted(all.take(all.len() - list@.len())),
            decreases list@.len(),
        {
            let ghost k: int = all.len() - list@.len();
            let e = list.remove(0);
            let (k1, pair) = e;
            let (k2, v) = pair;
            proof {
                assert(e == all[k]);
                assert(list@ =~= all.skip(k + 1));
            }
            r.insert(k1, k2, v);
            proof {
                assert(all.take(k + 1).drop_last() =~= all.take(k));
                assert(all.take(k + 1).last() == all[k]);
            }
        }
        proof {
            assert(all.take(all.len() as int) =~= all);
        }
        r
    }

    /// Builds a map from a list of `(k1, k2, v)` triples, with capacity
    /// pre-sized to the list's length: the bulk-literal construction
    /// form. The result is exactly the map obtained by creating an empty
    /// map and inserting the triples in order; an empty list gives an
    /// empty map.
    pub fn from_list(list: Vec<(K1, K2, V)>) -> (r: Self)
        requires
            obeys_concrete_eq::<K1>(),
            obeys_concrete_eq::<K2>(),
        ensures
            r.wf(),
            r@ == triples_inserted(list@),
    {
        let ghost all = list@;
        let mut list = list;
        let mut r = MultiMap::with_capacity(list.len());
        proof {
            assert(all.take(0) =~= Seq::<(K1, K2, V)>::empty());
            assert(all.skip(0) =~= all);
        }
        while list.len() > 0
            invariant
                obeys_concrete_eq::<K1>(),
                obeys_concrete_eq::<K2>(),
                r.wf(),
                list@.len() <= all.len(),
                list@ == all.skip(all.len() - list@.len()),
                r@ == triples_inserted(all.take(all.len() - list@.len())),
            decreases list@.len(),
        {
            let ghost k: int = all.len() - list@.len();
            let e = list.remove(0);
            let (k1, k2, v) = e;
            proof {
                assert(e == all[k]);
                assert(list@ =~= all.skip(k + 1));
            }
            r.insert(k1, k2, v);
            proof {
                assert(all.take(k + 1).drop_last() =~= all.take(k));
                assert(all.take(k + 1).last() == all[k]);
            }
        }
        proof {
            assert(all.take(all.len() as int) =~= all);
        }
        r
    }
}

/// The executable `==` of all three component types decides structural
/// equality: the capability that the map's own comparison relies on.
pub open spec fn eq_capable<K1: PartialEq, K2: PartialEq, V: PartialEq>() -> bool {
    obeys_concrete_eq::<K1>() && obeys_concrete_eq::<K2>() && obeys_concrete_eq::<V>()
}

impl<K1, K2, V> vstd::std_specs::cmp::PartialEqSpecImpl for MultiMap<K1, K2, V> where
    K1: Eq + Hash + Clone,
    K2: Eq + Hash + Clone,
    V: Eq,
 {
    open spec fn obeys_eq_spec() -> bool {
        eq_capable::<K1, K2, V>()
    }

    open spec fn eq_spec(&self, other: &MultiMap<K1, K2, V>) -> bool {
        self.entry_seq().len() == other.entry_seq().len() && (forall|j: int|
            0 <= j < self.entry_seq().len() ==> seq_find_key1(
                other.entry_seq(),
                (#[trigger] self.entry_seq()[j]).0,
            ) == Some(self.entry_seq()[j].1))
    }
}

impl<K1, K2, V> PartialEq for MultiMap<K1, K2, V> where
    K1: Eq + Hash + Clone,
    K2: Eq + Hash + Clone,
    V: Eq,
 {
    /// Two maps are equal when they store the same elements: the same
    /// set of `(k1, (k2, v))` triples, values compared by `==`. The
    /// derived secondary bindings carry no information of their own and
    /// take no part in the comparison.
    fn eq(&self, other: &MultiMap<K1, K2, V>) -> (r: bool) {
        if self.entries.len() != other.entries.len() {
            return false;
        }
        let mut i: usize = 0;
        while i < self.entries.len()
            invariant
                i <= self.entries@.len(),
                self.entries@.len() == other.entries@.len(),
                eq_capable::<K1, K2, V>() ==> forall|j: int|
                    0 <= j < i ==> seq_find_key1(other.entries@, (#[trigger] self.entries@[j]).0)
                        == Some(self.entries@[j].1),
            decreases self.entries@.len() - i,
        {
            proof {
                reveal(vstd::laws_eq::obeys_concrete_eq);
            }
            let e = &self.entries[i];
            match other.lookup_pair(&e.0) {
                Some(p) => {
                    let key_two_same = p.0 == (e.1).0;
                    let value_same = p.1 == (e.1).1;
                    if !(key_two_same && value_same) {
                        proof {
                            if eq_capable::<K1, K2, V>() {
                                assert(*p != e.1);
                                assert(seq_find_key1(other.entries@, self.entries@[i as int].0)
                                    != Some(self.entries@[i as int].1));
                            }
                        }
                        return false;
                    }
                },
                None => {
                    proof {
                        if eq_capable::<K1, K2, V>() {
                            assert(seq_find_key1(other.entries@, self.entries@[i as int].0)
                                != Some(self.entries@[i as int].1));
                        }
                    }
                    return false;
                },
            }
            i += 1;
        }
        true
    }
}

impl<K1, K2, V> Eq for MultiMap<K1, K2, V> where
    K1: Eq + Hash + Clone,
    K2: Eq + Hash + Clone,
    V: Eq,
 {
}

impl<K1, K2, V> Default for MultiMap<K1, K2, V> where
    K1: Eq + Hash + Clone,
    K2: Eq + Hash + Clone,
 {
    /// Creates an empty map.
    fn default() -> (r: Self)
        ensures
            r.wf(),
            r@ == Map::<K1, (K2, V)>::empty(),
    {
        MultiMap::new()
    }
}

/// A borrowing iterator over the elements of a [`MultiMap`], created by
/// [`MultiMap::iter`]. Each step yields references to a stored
/// `(k1, (k2, v))` pair.
pub struct Iter<'a, K1, K2, V> {
    entries: &'a Vec<(K1, (K2, V))>,
    pos: usize,
}

impl<'a, K1, K2, V> Iter<'a, K1, K2, V> {
    /// The elements not yet yielded, in the order they will come.
    pub closed spec fn remaining(self) -> Seq<(K1, (K2, V))> {
        self.entries@.skip(self.pos as int)
    }

    /// The iterator's position has not run past the end of the
    /// elements.
    pub closed spec fn wf(self) -> bool {
        self.pos <= self.entries@.len()
    }

    /// Yields the next element, or nothing once every element has been
    /// yielded.
    pub fn next(&mut self) -> (r: Option<(&'a K1, &'a (K2, V))>)
        requires
            old(self).wf(),
        ensures
            final(self).wf(),
            old(self).remaining().len() > 0 ==> r.is_some()
                && *r.unwrap().0 == old(self).remaining()[0].0
                && *r.unwrap().1 == old(self).remaining()[0].1
                && final(self).remaining() == old(self).remaining().drop_first(),
            old(self).remaining().len() == 0 ==> r.is_none()
                && final(self).remaining() == old(self).remaining(),
    {
        if self.pos < self.entries.len() {
            let ent = self.entries;
            let e = &ent[self.pos];
            self.pos = self.pos + 1;
            proof {
                assert(old(self).remaining()[0] == ent@[old(self).pos as int]);
                assert(old(self).remaining().drop_first() =~= ent@.skip(old(self).pos + 1));
            }
            Some((&e.0, &e.1))
        } else {
            None
        }
    }
}

/// A consuming iterator over the elements of a [`MultiMap`], created by
/// [`MultiMap::into_iter`]. Each step transfers one owned
/// `(k1, (k2, v))` pair out.
pub struct IntoIter<K1, K2, V> {
    entries: Vec<(K1, (K2, V))>,
}

impl<K1, K2, V> IntoIter<K1, K2, V> {
    /// The elements not yet yielded; they come from the back of this
    /// sequence.
    pub closed spec fn remaining(self) -> Seq<(K1, (K2, V))> {
        self.entries@
    }

    /// Yields the next element, or nothing once every element has been
    /// yielded.
    pub fn next(&mut self) -> (r: Option<(K1, (K2, V))>)
        ensures
            old(self).remaining().len() > 0 ==> r.is_some()
                && r.unwrap() == old(self).remaining().last()
                && final(self).remaining() == old(self).remaining().drop_last(),
            old(self).remaining().len() == 0 ==> r.is_none()
                && final(self).remaining() == old(self).remaining(),
    {
        self.entries.pop()
    }
}

/// Law: looking an element up through its primary key and through its
/// secondary key reaches the same value. After `insert(k1, k2, v)` has
/// stored an element, `get(&k1)` and `get_alt(&k2)` therefore both
/// return `v`, by the contracts of those operations.
pub proof fn lemma_dual_lookup_consistency<K1, K2, V>(m: MultiMap<K1, K2, V>, k1: K1) where
    K1: Eq + Hash + Clone,
    K2: Eq + Hash + Clone,

    requires
        m.wf(),
        m@.contains_key(k1),
    ensures
        has_alt(m@, (m@[k1]).0),
        alt_key(m@, (m@[k1]).0) == k1,
        alt_value(m@, (m@[k1]).0) == (m@[k1]).1,
{
    let s = m.entry_seq();
    assert(seq_has_key1(s, k1));
    let i = seq_key1_index(s, k1);
    assert(0 <= i < s.len() && s[i].0 == k1);
    lemma_entries_map_index(s, i);
    lemma_alt_lookup(s, i);
}

/// Law: removing an element through its primary key erases it from
/// both key spaces: neither its primary key nor its secondary key can
/// be found afterwards.
pub proof fn lemma_removal_symmetry<K1, K2, V>(m: MultiMap<K1, K2, V>, k1: K1) where
    K1: Eq + Hash + Clone,
    K2: Eq + Hash + Clone,

    requires
        m.wf(),
        m@.contains_key(k1),
    ensures
        !m@.remove(k1).contains_key(k1),
        !has_alt(m@.remove(k1), (m@[k1]).0),
{
    lemma_wf_map(m.entry_seq());
    let k2 = (m@[k1]).0;
    if has_alt(m@.remove(k1), k2) {
        let k = alt_key(m@.remove(k1), k2);
        assert(m@.remove(k1).dom().contains(k) && (m@.remove(k1)[k]).0 == k2);
        assert(k != k1);
        assert(m@.dom().contains(k) && m@[k] == m@.remove(k1)[k]);
        assert((m@[k]).0 == (m@[k1]).0);
    }
}

/// Law: removing an element through its secondary key erases it from
/// both key spaces: neither its primary key nor its secondary key can
/// be found afterwards.
pub proof fn lemma_removal_symmetry_alt<K1, K2, V>(m: MultiMap<K1, K2, V>, k2: K2) where
    K1: Eq + Hash + Clone,
    K2: Eq + Hash + Clone,

    requires
        m.wf(),
        has_alt(m@, k2),
    ensures
        !m@.remove(alt_key(m@, k2)).contains_key(alt_key(m@, k2)),
        !has_alt(m@.remove(alt_key(m@, k2)), k2),
{
    lemma_wf_map(m.entry_seq());
    let a = alt_key(m@, k2);
    assert(m@.dom().contains(a) && (m@[a]).0 == k2);
    if has_alt(m@.remove(a), k2) {
        let k = alt_key(m@.remove(a), k2);
        assert(m@.remove(a).dom().contains(k) && (m@.remove(a)[k]).0 == k2);
        assert(k != a);
        assert(m@.dom().contains(k) && m@[k] == m@.remove(a)[k]);
    }
}

/// Law: one full iteration pass yields every stored element exactly
/// once: the yielded elements, taken as a set, are exactly the map's
/// elements, whatever order they come in. Since [`MultiMap::iter`]
/// always starts from the same element sequence, a restarted pass over
/// an unmodified map yields the same set again.
pub proof fn lemma_iteration_complete<K1, K2, V>(m: MultiMap<K1, K2, V>) where
    K1: Eq + Hash + Clone,
    K2: Eq + Hash + Clone,

    requires
        m.wf(),
    ensures
        m.entry_seq().to_set() == m@.kv_pairs(),
        m.entry_seq().no_duplicates(),
        m.entry_seq().len() == m@.len(),
{
    let s = m.entry_seq();
    lemma_entries_map_len(s);
    assert forall|i: int, j: int|
        0 <= i < s.len() && 0 <= j < s.len() && i != j implies s[i] != s[j] by {
        if i < j {
            assert(s[i].0 != s[j].0);
        } else {
            assert(s[j].0 != s[i].0);
        }
    }
    assert(s.no_duplicates());
    assert forall|e: (K1, (K2, V))| #[trigger] s.to_set().contains(e) implies m@.kv_pairs().contains(
        e,
    ) by {
        assert(s.contains(e));
        let i = choose|i: int| 0 <= i < s.len() && s[i] == e;
        lemma_entries_map_index(s, i);
    }
    assert forall|e: (K1, (K2, V))| #[trigger] m@.kv_pairs().contains(e) implies s.to_set().contains(
        e,
    ) by {
        assert(m@.dom().contains(e.0) && m@[e.0] == e.1);
        assert(seq_has_key1(s, e.0));
        let i = seq_key1_index(s, e.0);
        assert(0 <= i < s.len() && s[i].0 == e.0);
        lemma_entries_map_index(s, i);
        assert(e == (e.0, e.1));
        assert(s[i] == (s[i].0, s[i].1));
        assert(s.contains(e));
    }
    assert(s.to_set() =~= m@.kv_pairs());
}

/// Law: equality ignores derived state and insertion order. Two
/// well-formed maps compare equal exactly when their contents are the
/// same map of elements, however and in whatever order those elements
/// came to be inserted; nothing else about the structures takes part.
pub proof fn lemma_equality_ignores_derived_state<K1, K2, V>(
    a: MultiMap<K1, K2, V>,
    b: MultiMap<K1, K2, V>,
) where K1: Eq + Hash + Clone, K2: Eq + Hash + Clone, V: Eq
    requires
        a.wf(),
        b.wf(),
    ensures
        a.eq_spec(&b) <==> a@ == b@,
{
    let sa = a.entry_seq();
    let sb = b.entry_seq();
    lemma_entries_map_len(sa);
    lemma_entries_map_len(sb);
    if a.eq_spec(&b) {
        assert forall|k: K1| #[trigger] a@.dom().contains(k) implies b@.dom().contains(k) && b@[k]
            == a@[k] by {
            assert(seq_has_key1(sa, k));
            let i = seq_key1_index(sa, k);
            assert(0 <= i < sa.len() && sa[i].0 == k);
            lemma_entries_map_index(sa, i);
            assert(seq_find_key1(sb, k) == Some(sa[i].1));
            lemma_seq_find_some(sb, k);
            let j = choose|j: int|
                0 <= j < sb.len() && (#[trigger] sb[j]).0 == k && sb[j].1 == seq_find_key1(
                    sb,
                    k,
                ).unwrap();
            lemma_entries_map_index(sb, j);
        }
        assert(a@.dom().subset_of(b@.dom()));
        vstd::set_lib::lemma_subset_equality(a@.dom(), b@.dom());
        assert(a@ =~= b@);
    }
    if a@ == b@ {
        assert(sa.len() == sb.len());
        assert forall|j: int| 0 <= j < sa.len() implies seq_find_key1(sb, (#[trigger] sa[j]).0)
            == Some(sa[j].1) by {
            lemma_entries_map_index(sa, j);
            let k = sa[j].0;
            assert(b@.dom().contains(k) && b@[k] == sa[j].1);
            assert(seq_has_key1(sb, k));
            let jb = seq_key1_index(sb, k);
            assert(0 <= jb < sb.len() && sb[jb].0 == k);
            lemma_entries_map_index(sb, jb);
            assert forall|l: int| 0 <= l < jb implies (#[trigger] sb[l]).0 != k by {}
            lemma_seq_find_hit(sb, k, jb);
        }
        assert(a.eq_spec(&b));
    }
}

/// Law: rebuilding a map from its flat primary contents restores it.
/// Replaying the stored `(k1, (k2, v))` entries through the insertion
/// step, as [`MultiMap::from_entries`] does with a deserialized table,
/// yields a map whose contents equal the original's, so every lookup
/// through either key, `get_alt` included, agrees with the original.
pub proof fn lemma_flat_reconstruction<K1, K2, V>(m: MultiMap<K1, K2, V>) where
    K1: Eq + Hash + Clone,
    K2: Eq + Hash + Clone,

    requires
        m.wf(),
    ensures
        entries_inserted(m.entry_seq()) == m@,
{
    lemma_entries_inserted_wf(m.entry_seq());
}

} // verus!
