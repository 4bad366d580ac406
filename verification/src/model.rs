//! The mathematical model of a dual-keyed map.
//!
//! A populated map is modelled as a `Map<K1, (K2, V)>`: the primary key
//! leads directly to the stored pair, and the secondary key is resolved
//! through the `has_alt` / `alt_key` / `alt_value` functions below.
//! The executable structure stores its elements as a sequence of
//! `(K1, (K2, V))` entries; `entries_map` abstracts such a sequence into
//! the model map, and `entries_wf` is the well-formedness condition that
//! every public operation preserves: no two entries share a primary key,
//! and no two entries share a secondary key.

use vstd::prelude::*;

verus! {

/// Some entry of `s` carries primary key `k`.
pub open spec fn seq_has_key1<K1, K2, V>(s: Seq<(K1, (K2, V))>, k: K1) -> bool {
    exists|i: int| 0 <= i < s.len() && (#[trigger] s[i]).0 == k
}

/// The index of an entry of `s` carrying primary key `k`.
pub open spec fn seq_key1_index<K1, K2, V>(s: Seq<(K1, (K2, V))>, k: K1) -> int {
    choose|i: int| 0 <= i < s.len() && (#[trigger] s[i]).0 == k
}

/// Some entry of `s` carries secondary key `k`.
pub open spec fn seq_has_key2<K1, K2, V>(s: Seq<(K1, (K2, V))>, k: K2) -> bool {
    exists|i: int| 0 <= i < s.len() && ((#[trigger] s[i]).1).0 == k
}

/// The index of an entry of `s` carrying secondary key `k`.
pub open spec fn seq_key2_index<K1, K2, V>(s: Seq<(K1, (K2, V))>, k: K2) -> int {
    choose|i: int| 0 <= i < s.len() && ((#[trigger] s[i]).1).0 == k
}

/// Well-formedness of an entry sequence: primary keys are pairwise
/// distinct, and so are secondary keys.
pub open spec fn entries_wf<K1, K2, V>(s: Seq<(K1, (K2, V))>) -> bool {
    forall|i: int, j: int|
        0 <= i < j < s.len() ==> (#[trigger] s[i]).0 != (#[trigger] s[j]).0 && (s[i].1).0
            != (s[j].1).0
}

/// The map described by an entry sequence, keyed by the primary key.
pub open spec fn entries_map<K1, K2, V>(s: Seq<(K1, (K2, V))>) -> Map<K1, (K2, V)> {
    Map::new(|k: K1| seq_has_key1(s, k), |k: K1| s[seq_key1_index(s, k)].1)
}

/// Well-formedness at the map level: the secondary keys of the stored
/// pairs are pairwise distinct, so a secondary key determines at most
/// one primary key.
pub open spec fn map_wf<K1, K2, V>(m: Map<K1, (K2, V)>) -> bool {
    forall|a: K1, b: K1|
        m.dom().contains(a) && m.dom().contains(b) && (#[trigger] m[a]).0 == (#[trigger] m[b]).0
            ==> a == b
}

/// Some element of `m` carries secondary key `k2`.
pub open spec fn has_alt<K1, K2, V>(m: Map<K1, (K2, V)>, k2: K2) -> bool {
    exists|k: K1| #[trigger] m.dom().contains(k) && (m[k]).0 == k2
}

/// The primary key of the element of `m` carrying secondary key `k2`.
pub open spec fn alt_key<K1, K2, V>(m: Map<K1, (K2, V)>, k2: K2) -> K1 {
    choose|k: K1| #[trigger] m.dom().contains(k) && (m[k]).0 == k2
}

/// The value of the element of `m` carrying secondary key `k2`.
pub open spec fn alt_value<K1, K2, V>(m: Map<K1, (K2, V)>, k2: K2) -> V {
    (m[alt_key(m, k2)]).1
}

/// The effect of inserting `(k1, k2, v)` on the model: the element
/// previously stored under `k1`, if any, is replaced, and the element
/// previously carrying secondary key `k2`, if any, is evicted, so that
/// both key spaces stay free of duplicates.
pub open spec fn map_insert_entry<K1, K2, V>(
    m: Map<K1, (K2, V)>,
    k1: K1,
    k2: K2,
    v: V,
) -> Map<K1, (K2, V)> {
    Map::new(
        |k: K1| k == k1 || (m.dom().contains(k) && (m[k]).0 != k2),
        |k: K1| if k == k1 { (k2, v) } else { m[k] },
    )
}

/// In a well-formed entry sequence, the entry at index `i` is exactly
/// the element that the model map stores under its primary key.
pub proof fn lemma_entries_map_index<K1, K2, V>(s: Seq<(K1, (K2, V))>, i: int)
    requires
        entries_wf(s),
        0 <= i < s.len(),
    ensures
        entries_map(s).dom().contains(s[i].0),
        entries_map(s)[s[i].0] == s[i].1,
        seq_key1_index(s, s[i].0) == i,
{
    assert(seq_has_key1(s, s[i].0));
    let j = seq_key1_index(s, s[i].0);
    assert(0 <= j < s.len() && s[j].0 == s[i].0);
    if i < j {
        assert(s[i].0 != s[j].0);
    } else if j < i {
        assert(s[j].0 != s[i].0);
    }
}

/// The first entry of `s` stored under primary key `k`, scanning from
/// the front: the specification of lookup on a raw entry sequence.
pub open spec fn seq_find_key1<K1, K2, V>(s: Seq<(K1, (K2, V))>, k: K1) -> Option<(K2, V)>
    decreases s.len(),
{
    if s.len() == 0 {
        None
    } else if s[0].0 == k {
        Some(s[0].1)
    } else {
        seq_find_key1(s.drop_first(), k)
    }
}

/// The map built by inserting the entries of `s` from front to back,
/// each through the usual insertion step.
pub open spec fn entries_inserted<K1, K2, V>(s: Seq<(K1, (K2, V))>) -> Map<K1, (K2, V)>
    decreases s.len(),
{
    if s.len() == 0 {
        Map::empty()
    } else {
        map_insert_entry(
            entries_inserted(s.drop_last()),
            s.last().0,
            (s.last().1).0,
            (s.last().1).1,
        )
    }
}

/// The map built by inserting the triples of `s` from front to back,
/// each through the usual insertion step.
pub open spec fn triples_inserted<K1, K2, V>(s: Seq<(K1, K2, V)>) -> Map<K1, (K2, V)>
    decreases s.len(),
{
    if s.len() == 0 {
        Map::empty()
    } else {
        map_insert_entry(triples_inserted(s.drop_last()), s.last().0, s.last().1, s.last().2)
    }
}

/// A well-formed entry sequence yields a well-formed map: the stored
/// secondary keys determine their primary key.
pub proof fn lemma_wf_map<K1, K2, V>(s: Seq<(K1, (K2, V))>)
    requires
        entries_wf(s),
    ensures
        map_wf(entries_map(s)),
{
    let m = entries_map(s);
    assert forall|a: K1, b: K1|
        m.dom().contains(a) && m.dom().contains(b) && (#[trigger] m[a]).0 == (#[trigger] m[b]).0
            implies a == b by {
        let ia = seq_key1_index(s, a);
        let ib = seq_key1_index(s, b);
        assert(seq_has_key1(s, a) && seq_has_key1(s, b));
        assert(0 <= ia < s.len() && s[ia].0 == a);
        assert(0 <= ib < s.len() && s[ib].0 == b);
        assert(m[a] == s[ia].1 && m[b] == s[ib].1);
        if ia < ib {
            assert((s[ia].1).0 != (s[ib].1).0);
        } else if ib < ia {
            assert((s[ib].1).0 != (s[ia].1).0);
        }
    }
}

/// In a well-formed entry sequence, the entry at index `i` is the one
/// and only element that carries its secondary key.
pub proof fn lemma_alt_lookup<K1, K2, V>(s: Seq<(K1, (K2, V))>, i: int)
    requires
        entries_wf(s),
        0 <= i < s.len(),
    ensures
        has_alt(entries_map(s), (s[i].1).0),
        alt_key(entries_map(s), (s[i].1).0) == s[i].0,
        alt_value(entries_map(s), (s[i].1).0) == (s[i].1).1,
{
    let m = entries_map(s);
    let k2 = (s[i].1).0;
    lemma_entries_map_index(s, i);
    assert(m.dom().contains(s[i].0) && (m[s[i].0]).0 == k2);
    assert(has_alt(m, k2));
    let k = alt_key(m, k2);
    assert(m.dom().contains(k) && (m[k]).0 == k2);
    lemma_wf_map(s);
    assert(k == s[i].0);
}

/// If no entry of a well-formed sequence carries secondary key `k2`,
/// then neither does the map it describes.
pub proof fn lemma_no_alt<K1, K2, V>(s: Seq<(K1, (K2, V))>, k2: K2)
    requires
        entries_wf(s),
        forall|j: int| 0 <= j < s.len() ==> ((#[trigger] s[j]).1).0 != k2,
    ensures
        !has_alt(entries_map(s), k2),
{
    let m = entries_map(s);
    assert forall|k: K1| #[trigger] m.dom().contains(k) implies (m[k]).0 != k2 by {
        let ik = seq_key1_index(s, k);
        assert(seq_has_key1(s, k));
        assert(0 <= ik < s.len() && s[ik].0 == k);
        assert(m[k] == s[ik].1);
    }
}

/// Removing the entry at index `i` removes exactly its primary key from
/// the described map and keeps the sequence well formed.
pub proof fn lemma_entries_map_remove<K1, K2, V>(s: Seq<(K1, (K2, V))>, i: int)
    requires
        entries_wf(s),
        0 <= i < s.len(),
    ensures
        entries_wf(s.remove(i)),
        forall|j: int|
            0 <= j < s.remove(i).len() ==> (#[trigger] s.remove(i)[j]) == (if j < i {
                s[j]
            } else {
                s[j + 1]
            }),
        entries_map(s.remove(i)) == entries_map(s).remove(s[i].0),
{
    let t = s.remove(i);
    assert(t.len() == s.len() - 1);
    assert forall|j: int| 0 <= j < t.len() implies (#[trigger] t[j]) == (if j < i {
        s[j]
    } else {
        s[j + 1]
    }) by {}
    assert forall|a: int, b: int| 0 <= a < b < t.len() implies (#[trigger] t[a]).0
        != (#[trigger] t[b]).0 && (t[a].1).0 != (t[b].1).0 by {
        let a0 = if a < i { a } else { a + 1 };
        let b0 = if b < i { b } else { b + 1 };
        assert(t[a] == s[a0] && t[b] == s[b0]);
        assert(0 <= a0 < b0 < s.len());
    }
    assert(entries_wf(t));
    let m = entries_map(s);
    let mt = entries_map(t);
    let removed = s[i].0;
    assert forall|k: K1| #[trigger] mt.dom().contains(k) implies m.dom().contains(k) && k != removed
        && mt[k] == m[k] by {
        let jt = seq_key1_index(t, k);
        assert(seq_has_key1(t, k));
        assert(0 <= jt < t.len() && t[jt].0 == k);
        let j0 = if jt < i { jt } else { jt + 1 };
        assert(t[jt] == s[j0]);
        assert(seq_has_key1(s, k));
        if j0 < i {
            assert(s[j0].0 != s[i].0);
        } else {
            assert(s[i].0 != s[j0].0);
        }
        lemma_entries_map_index(t, jt);
        lemma_entries_map_index(s, j0);
    }
    assert forall|k: K1| m.dom().contains(k) && k != removed implies #[trigger] mt.dom().contains(
        k,
    ) by {
        let j0 = seq_key1_index(s, k);
        assert(seq_has_key1(s, k));
        assert(0 <= j0 < s.len() && s[j0].0 == k);
        assert(j0 != i);
        let jt = if j0 < i { j0 } else { j0 - 1 };
        assert(t[jt] == s[j0]);
        assert(seq_has_key1(t, k));
    }
    assert(mt =~= m.remove(removed));
}

/// Appending an entry whose keys are both fresh extends the described
/// map by exactly that element and keeps the sequence well formed.
pub proof fn lemma_entries_map_push<K1, K2, V>(s: Seq<(K1, (K2, V))>, k1: K1, k2: K2, v: V)
    requires
        entries_wf(s),
        !seq_has_key1(s, k1),
        !seq_has_key2(s, k2),
    ensures
        entries_wf(s.push((k1, (k2, v)))),
        entries_map(s.push((k1, (k2, v)))) == entries_map(s).insert(k1, (k2, v)),
{
    let t = s.push((k1, (k2, v)));
    let n = s.len() as int;
    assert(t.len() == n + 1);
    assert(t[n] == (k1, (k2, v)));
    assert forall|j: int| 0 <= j < n implies (#[trigger] t[j]) == s[j] by {}
    assert forall|a: int, b: int| 0 <= a < b < t.len() implies (#[trigger] t[a]).0
        != (#[trigger] t[b]).0 && (t[a].1).0 != (t[b].1).0 by {
        if b < n {
        } else {
            assert(t[a] == s[a]);
            assert(s[a].0 != k1);
            assert((s[a].1).0 != k2);
        }
    }
    assert(entries_wf(t));
    let m = entries_map(s);
    let mt = entries_map(t);
    lemma_entries_map_index(t, n);
    assert(mt.dom().contains(k1) && mt[k1] == (k2, v));
    assert forall|k: K1| #[trigger] mt.dom().contains(k) && k != k1 implies m.dom().contains(k)
        && mt[k] == m[k] by {
        let jt = seq_key1_index(t, k);
        assert(seq_has_key1(t, k));
        assert(0 <= jt < t.len() && t[jt].0 == k);
        assert(jt != n);
        assert(t[jt] == s[jt]);
        assert(seq_has_key1(s, k));
        lemma_entries_map_index(t, jt);
        lemma_entries_map_index(s, jt);
    }
    assert forall|k: K1| #[trigger] m.dom().contains(k) implies mt.dom().contains(k) by {
        let j = seq_key1_index(s, k);
        assert(seq_has_key1(s, k));
        assert(0 <= j < s.len() && s[j].0 == k);
        assert(t[j] == s[j]);
        assert(seq_has_key1(t, k));
    }
    assert(mt =~= m.insert(k1, (k2, v)));
}

/// Replacing the value of the entry at index `i`, with both keys kept,
/// updates the described map at that entry's primary key and keeps the
/// sequence well formed.
pub proof fn lemma_entries_map_update_value<K1, K2, V>(s: Seq<(K1, (K2, V))>, i: int, v: V)
    requires
        entries_wf(s),
        0 <= i < s.len(),
    ensures
        entries_wf(s.update(i, (s[i].0, ((s[i].1).0, v)))),
        entries_map(s.update(i, (s[i].0, ((s[i].1).0, v)))) == entries_map(s).insert(
            s[i].0,
            ((s[i].1).0, v),
        ),
{
    let e = (s[i].0, ((s[i].1).0, v));
    let t = s.update(i, e);
    assert forall|j: int| 0 <= j < t.len() implies (#[trigger] t[j]).0 == s[j].0 && ((t[j]).1).0
        == ((s[j]).1).0 by {
        if j != i {
            assert(t[j] == s[j]);
        }
    }
    assert forall|a: int, b: int| 0 <= a < b < t.len() implies (#[trigger] t[a]).0
        != (#[trigger] t[b]).0 && (t[a].1).0 != (t[b].1).0 by {
        assert(s[a].0 != s[b].0 && (s[a].1).0 != (s[b].1).0);
    }
    assert(entries_wf(t));
    let m = entries_map(s);
    let mt = entries_map(t);
    lemma_entries_map_index(s, i);
    lemma_entries_map_index(t, i);
    assert(mt.dom().contains(s[i].0) && mt[s[i].0] == e.1);
    assert forall|k: K1| #[trigger] mt.dom().contains(k) && k != s[i].0 implies m.dom().contains(k)
        && mt[k] == m[k] by {
        let jt = seq_key1_index(t, k);
        assert(seq_has_key1(t, k));
        assert(0 <= jt < t.len() && t[jt].0 == k);
        assert(s[jt].0 == k);
        assert(seq_has_key1(s, k));
        assert(jt != i);
        assert(t[jt] == s[jt]);
        lemma_entries_map_index(t, jt);
        lemma_entries_map_index(s, jt);
    }
    assert forall|k: K1| #[trigger] m.dom().contains(k) implies mt.dom().contains(k) by {
        let j = seq_key1_index(s, k);
        assert(seq_has_key1(s, k));
        assert(0 <= j < s.len() && s[j].0 == k);
        assert(t[j].0 == k);
        assert(seq_has_key1(t, k));
    }
    assert(mt =~= m.insert(s[i].0, e.1));
}

/// The effect of an insertion decomposes into evicting the element that
/// holds the secondary key, removing the element under the primary key,
/// and storing the fresh element.
pub proof fn lemma_insert_entry_decomposition<K1, K2, V>(m: Map<K1, (K2, V)>, k1: K1, k2: K2, v: V)
    requires
        map_wf(m),
    ensures
        map_insert_entry(m, k1, k2, v) == (if has_alt(m, k2) {
            m.remove(alt_key(m, k2))
        } else {
            m
        }).remove(k1).insert(k1, (k2, v)),
{
    let m1 = if has_alt(m, k2) {
        m.remove(alt_key(m, k2))
    } else {
        m
    };
    let rhs = m1.remove(k1).insert(k1, (k2, v));
    if has_alt(m, k2) {
        let a = alt_key(m, k2);
        assert(m.dom().contains(a) && (m[a]).0 == k2);
        assert forall|k: K1| m.dom().contains(k) && (#[trigger] m[k]).0 == k2 implies k == a by {}
    } else {
        assert forall|k: K1| #[trigger] m.dom().contains(k) implies (m[k]).0 != k2 by {}
    }
    assert(map_insert_entry(m, k1, k2, v) =~= rhs);
}

/// Dropping the final entry of a well-formed sequence keeps it well
/// formed, and neither key of the dropped entry occurs earlier.
pub proof fn lemma_wf_drop_last<K1, K2, V>(s: Seq<(K1, (K2, V))>)
    requires
        entries_wf(s),
        s.len() > 0,
    ensures
        entries_wf(s.drop_last()),
        !seq_has_key1(s.drop_last(), s.last().0),
        !seq_has_key2(s.drop_last(), (s.last().1).0),
{
    let s0 = s.drop_last();
    let n = s.len() - 1;
    assert forall|j: int| 0 <= j < s0.len() implies (#[trigger] s0[j]) == s[j] by {}
    assert(entries_wf(s0));
    if seq_has_key1(s0, s.last().0) {
        let i = seq_key1_index(s0, s.last().0);
        assert(0 <= i < s0.len() && s0[i].0 == s.last().0);
        assert(s[i].0 != s[n].0);
    }
    if seq_has_key2(s0, (s.last().1).0) {
        let i = seq_key2_index(s0, (s.last().1).0);
        assert(0 <= i < s0.len() && (s0[i].1).0 == (s.last().1).0);
        assert((s[i].1).0 != (s[n].1).0);
    }
}

/// A well-formed entry sequence has as many entries as the map it
/// describes has elements, and that map is finite.
pub proof fn lemma_entries_map_len<K1, K2, V>(s: Seq<(K1, (K2, V))>)
    requires
        entries_wf(s),
    ensures
        entries_map(s).dom().finite(),
        entries_map(s).len() == s.len(),
    decreases s.len(),
{
    if s.len() == 0 {
        assert(entries_map(s) =~= Map::<K1, (K2, V)>::empty());
    } else {
        let s0 = s.drop_last();
        let e = s.last();
        lemma_wf_drop_last(s);
        lemma_entries_map_len(s0);
        lemma_entries_map_push(s0, e.0, (e.1).0, (e.1).1);
        assert(e == (e.0, ((e.1).0, (e.1).1)));
        assert(s0.push(e) =~= s);
        assert(entries_map(s) == entries_map(s0).insert(e.0, e.1));
        assert(!entries_map(s0).dom().contains(e.0)) by {
            if entries_map(s0).dom().contains(e.0) {
                assert(seq_has_key1(s0, e.0));
            }
        }
    }
}

/// Inserting the entries of a well-formed sequence one by one
/// rebuilds exactly the map that the sequence describes.
pub proof fn lemma_entries_inserted_wf<K1, K2, V>(s: Seq<(K1, (K2, V))>)
    requires
        entries_wf(s),
    ensures
        entries_inserted(s) == entries_map(s),
    decreases s.len(),
{
    if s.len() == 0 {
        assert(entries_map(s) =~= Map::<K1, (K2, V)>::empty());
    } else {
        let s0 = s.drop_last();
        let e = s.last();
        lemma_wf_drop_last(s);
        lemma_entries_inserted_wf(s0);
        lemma_entries_map_push(s0, e.0, (e.1).0, (e.1).1);
        assert(e == (e.0, ((e.1).0, (e.1).1)));
        assert(s0.push(e) =~= s);
        let m0 = entries_map(s0);
        lemma_no_alt(s0, (e.1).0);
        assert(map_insert_entry(m0, e.0, (e.1).0, (e.1).1) =~= m0.insert(e.0, e.1));
    }
}

/// When some entry carries key `k` and no earlier one does, the
/// front-to-back search finds exactly that entry.
pub proof fn lemma_seq_find_hit<K1, K2, V>(s: Seq<(K1, (K2, V))>, k: K1, i: int)
    requires
        0 <= i < s.len(),
        s[i].0 == k,
        forall|j: int| 0 <= j < i ==> (#[trigger] s[j]).0 != k,
    ensures
        seq_find_key1(s, k) == Some(s[i].1),
    decreases s.len(),
{
    if i == 0 {
    } else {
        let t = s.drop_first();
        assert forall|j: int| 0 <= j < t.len() implies (#[trigger] t[j]) == s[j + 1] by {}
        lemma_seq_find_hit(t, k, i - 1);
    }
}

/// When no entry carries key `k`, the front-to-back search finds
/// nothing.
pub proof fn lemma_seq_find_miss<K1, K2, V>(s: Seq<(K1, (K2, V))>, k: K1)
    requires
        forall|j: int| 0 <= j < s.len() ==> (#[trigger] s[j]).0 != k,
    ensures
        seq_find_key1(s, k).is_none(),
    decreases s.len(),
{
    if s.len() > 0 {
        let t = s.drop_first();
        assert forall|j: int| 0 <= j < t.len() implies (#[trigger] t[j]) == s[j + 1] by {}
        lemma_seq_find_miss(t, k);
    }
}

/// A successful front-to-back search exhibits an entry of the
/// sequence.
pub proof fn lemma_seq_find_some<K1, K2, V>(s: Seq<(K1, (K2, V))>, k: K1)
    requires
        seq_find_key1(s, k).is_some(),
    ensures
        exists|i: int|
            0 <= i < s.len() && (#[trigger] s[i]).0 == k && s[i].1 == seq_find_key1(s, k).unwrap(),
    decreases s.len(),
{
    if s.len() == 0 {
    } else if s[0].0 == k {
        assert(s[0].0 == k && s[0].1 == seq_find_key1(s, k).unwrap());
    } else {
        let t = s.drop_first();
        lemma_seq_find_some(t, k);
        let i = choose|i: int|
            0 <= i < t.len() && (#[trigger] t[i]).0 == k && t[i].1 == seq_find_key1(t, k).unwrap();
        assert(t[i] == s[i + 1]);
        assert((s[i + 1]).0 == k && s[i + 1].1 == seq_find_key1(s, k).unwrap());
    }
}

} // verus!
