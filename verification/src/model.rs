//! The mathematical model of the entry store: spec-level descriptions of how
//! each engine operation transforms the sequence of key/value records, and
//! the ordering laws that follow from them.

use vstd::prelude::*;

verus! {

/// Whether the store holds a record with this key.
pub open spec fn seq_has_key<V>(s: Seq<(u64, V)>, k: u64) -> bool {
    exists|i: int| 0 <= i < s.len() && (#[trigger] s[i]).0 == k
}

/// The position of the record with this key; meaningful only when the keys
/// are distinct and the key is present.
pub open spec fn seq_pos_of<V>(s: Seq<(u64, V)>, k: u64) -> int {
    choose|i: int| 0 <= i < s.len() && (#[trigger] s[i]).0 == k
}

/// No two records share a key.
pub open spec fn keys_distinct<V>(s: Seq<(u64, V)>) -> bool {
    forall|i: int, j: int|
        0 <= i < j < s.len() ==> (#[trigger] s[i]).0 != (#[trigger] s[j]).0
}

/// The keys of the store, in iteration order.
pub open spec fn keys_of<V>(s: Seq<(u64, V)>) -> Seq<u64> {
    s.map_values(|p: (u64, V)| p.0)
}

/// With distinct keys, the position of a present key is the unique index
/// holding it.
pub proof fn lemma_pos_of<V>(s: Seq<(u64, V)>, k: u64)
    requires
        keys_distinct(s),
        seq_has_key(s, k),
    ensures
        0 <= seq_pos_of(s, k) < s.len(),
        s[seq_pos_of(s, k)].0 == k,
        forall|i: int| 0 <= i < s.len() && (#[trigger] s[i]).0 == k ==> i == seq_pos_of(s, k),
{
    let p = seq_pos_of(s, k);
    assert(0 <= p < s.len() && s[p].0 == k);
    assert forall|i: int| 0 <= i < s.len() && (#[trigger] s[i]).0 == k implies i == p by {
        if i < p {
            assert(s[i].0 != s[p].0);
        } else if p < i {
            assert(s[p].0 != s[i].0);
        }
    }
}

/// Insertion: an existing key's record is updated in place; a new key's
/// record is appended at the end of the store.
pub open spec fn spec_insert<V>(s: Seq<(u64, V)>, k: u64, v: V) -> Seq<(u64, V)> {
    if seq_has_key(s, k) {
        s.update(seq_pos_of(s, k), (k, v))
    } else {
        s.push((k, v))
    }
}

/// Swap-removal at a position: the last record moves into the gap, the store
/// shrinks by one, relative order of the moved record is not preserved.
pub open spec fn swap_removed_at<V>(s: Seq<(u64, V)>, p: int) -> Seq<(u64, V)> {
    s.update(p, s.last()).drop_last()
}

/// Shift-removal at a position: every later record shifts down by one, so
/// relative order of all remaining records is preserved.
pub open spec fn shift_removed_at<V>(s: Seq<(u64, V)>, p: int) -> Seq<(u64, V)> {
    s.remove(p)
}

/// Rebuilding a store by inserting records one at a time, oldest first.
pub open spec fn build_map<V>(kvs: Seq<(u64, V)>) -> Seq<(u64, V)>
    decreases kvs.len(),
{
    if kvs.len() == 0 {
        Seq::empty()
    } else {
        spec_insert(build_map(kvs.drop_last()), kvs.last().0, kvs.last().1)
    }
}

/// Order preservation, and the round trip law: inserting records with
/// distinct keys into an empty container, oldest first, yields exactly that
/// sequence of records, so iteration returns keys in insertion order, and
/// collecting a container's records and rebuilding reproduces the container.
pub proof fn lemma_insertion_order_preserved<V>(kvs: Seq<(u64, V)>)
    requires
        keys_of(kvs).no_duplicates(),
    ensures
        build_map(kvs) == kvs,
    decreases kvs.len(),
{
    if kvs.len() == 0 {
        assert(build_map(kvs) =~= kvs);
    } else {
        let front = kvs.drop_last();
        let k = kvs.last().0;
        assert(keys_of(front) =~= keys_of(kvs).drop_last());
        assert(keys_of(front).no_duplicates());
        lemma_insertion_order_preserved(front);
        assert(!seq_has_key(front, k)) by {
            if seq_has_key(front, k) {
                let i = choose|i: int| 0 <= i < front.len() && (#[trigger] front[i]).0 == k;
                assert(keys_of(kvs)[i] == keys_of(kvs)[kvs.len() - 1]);
            }
        }
        assert(spec_insert(front, k, kvs.last().1) =~= kvs);
    }
}

/// Whether the records stand in ascending key order.
pub open spec fn sorted_keys<V>(s: Seq<(u64, V)>) -> bool {
    forall|p: int, q: int| 0 <= p < q < s.len() ==> (#[trigger] s[p]).0 <= (#[trigger] s[q]).0
}

/// Swapping two records changes no record's membership.
pub proof fn lemma_swap_preserves_contains<A>(s: Seq<A>, a: int, b: int)
    requires
        0 <= a < s.len(),
        0 <= b < s.len(),
    ensures
        forall|x: A|
            #[trigger] s.update(a, s[b]).update(b, s[a]).contains(x) <==> s.contains(x),
{
    let t = s.update(a, s[b]).update(b, s[a]);
    assert forall|x: A| #[trigger] t.contains(x) implies s.contains(x) by {
        let i = choose|i: int| 0 <= i < t.len() && t[i] == x;
        if i == b {
            assert(s[a] == x);
        } else if i == a {
            assert(s[b] == x);
        } else {
            assert(s[i] == x);
        }
    }
    assert forall|x: A| s.contains(x) implies #[trigger] t.contains(x) by {
        let i = choose|i: int| 0 <= i < s.len() && s[i] == x;
        if i == a {
            assert(t[b] == x);
        } else if i == b {
            assert(t[a] == x);
        } else {
            assert(t[i] == x);
        }
    }
}

/// The records that survive a filter, the mask read front to back.
pub open spec fn masked<V>(s: Seq<(u64, V)>, picks: Seq<bool>) -> Seq<(u64, V)>
    decreases s.len(),
{
    if s.len() == 0 {
        Seq::empty()
    } else if picks.len() > 0 && picks.first() {
        seq![s.first()] + masked(s.drop_first(), picks.drop_first())
    } else {
        masked(s.drop_first(), picks.drop_first())
    }
}

/// Extending the mask by one decision appends, or not, the record it
/// judges.
pub proof fn lemma_masked_snoc<V>(s: Seq<(u64, V)>, picks: Seq<bool>, j: int)
    requires
        0 <= j < s.len(),
        picks.len() == j + 1,
    ensures
        masked(s.take(j + 1), picks) == (if picks[j] {
            masked(s.take(j), picks.take(j)).push(s[j])
        } else {
            masked(s.take(j), picks.take(j))
        }),
    decreases j,
{
    reveal_with_fuel(masked, 3);
    if j == 0 {
        assert(s.take(1) =~= seq![s[0]]);
        assert(s.take(0) =~= Seq::<(u64, V)>::empty());
        assert(s.take(1).drop_first() =~= Seq::<(u64, V)>::empty());
        if picks[0] {
            assert(masked(s.take(1), picks) =~= masked(s.take(0), picks.take(0)).push(s[0]));
        }
    } else {
        lemma_masked_snoc(s.drop_first(), picks.drop_first(), j - 1);
        assert(s.take(j + 1).drop_first() =~= s.drop_first().take(j));
        assert(s.take(j).drop_first() =~= s.drop_first().take(j - 1));
        assert(picks.take(j).drop_first() =~= picks.drop_first().take(j - 1));
        assert(s.drop_first()[j - 1] == s[j]);
        if picks.first() {
            if picks[j] {
                assert(seq![s.take(j + 1).first()] + masked(
                    s.drop_first().take(j),
                    picks.drop_first(),
                ) =~= (seq![s.take(j).first()] + masked(
                    s.drop_first().take(j - 1),
                    picks.drop_first().take(j - 1),
                )).push(s[j]));
            }
        }
    }
}

/// The position of a key in a key sequence; meaningful only when the keys
/// are distinct and the key is present.
pub open spec fn pos_of_key(ks: Seq<u64>, k: u64) -> int {
    choose|i: int| 0 <= i < ks.len() && ks[i] == k
}

/// With distinct keys, the position of a present key is the unique index
/// holding it.
pub proof fn lemma_pos_of_key(ks: Seq<u64>, k: u64)
    requires
        ks.no_duplicates(),
        ks.contains(k),
    ensures
        0 <= pos_of_key(ks, k) < ks.len(),
        ks[pos_of_key(ks, k)] == k,
        forall|i: int| 0 <= i < ks.len() && ks[i] == k ==> i == pos_of_key(ks, k),
{
    let p = pos_of_key(ks, k);
    assert(0 <= p < ks.len() && ks[p] == k);
}

/// A key sequence holds a key exactly when the record sequence it projects
/// has a record with that key.
pub proof fn lemma_keys_has<V>(s: Seq<(u64, V)>, k: u64)
    ensures
        keys_of(s).contains(k) <==> seq_has_key(s, k),
{
    if keys_of(s).contains(k) {
        let i = choose|i: int| 0 <= i < keys_of(s).len() && keys_of(s)[i] == k;
        assert((s[i]).0 == k);
        assert(seq_has_key(s, k));
    }
    if seq_has_key(s, k) {
        let i = choose|i: int| 0 <= i < s.len() && (#[trigger] s[i]).0 == k;
        assert(keys_of(s)[i] == k);
    }
}

/// The two position functions agree between a record sequence and its key
/// projection.
pub proof fn lemma_keys_pos<V>(s: Seq<(u64, V)>, k: u64)
    requires
        keys_distinct(s),
        seq_has_key(s, k),
    ensures
        keys_of(s).no_duplicates(),
        keys_of(s).contains(k),
        pos_of_key(keys_of(s), k) == seq_pos_of(s, k),
{
    lemma_keys_has(s, k);
    lemma_pos_of(s, k);
    assert(keys_of(s).no_duplicates()) by {
        assert forall|i: int, j: int|
            0 <= i < keys_of(s).len() && 0 <= j < keys_of(s).len() && i != j implies keys_of(
            s,
        )[i] != keys_of(s)[j] by {
            if i < j {
                assert(s[i].0 != s[j].0);
            } else {
                assert(s[j].0 != s[i].0);
            }
        }
    }
    lemma_pos_of_key(keys_of(s), k);
    assert(keys_of(s)[seq_pos_of(s, k)] == k);
}

/// Folding a key into a key set: the first occurrence keeps its place,
/// duplicates collapse.
pub open spec fn set_folded(ks: Seq<u64>, k: u64) -> Seq<u64> {
    if ks.contains(k) {
        ks
    } else {
        ks.push(k)
    }
}

/// Rebuilding a set by inserting keys one at a time, oldest first.
pub open spec fn build_set(ks: Seq<u64>) -> Seq<u64>
    decreases ks.len(),
{
    if ks.len() == 0 {
        Seq::empty()
    } else {
        let front = build_set(ks.drop_last());
        if front.contains(ks.last()) {
            front
        } else {
            front.push(ks.last())
        }
    }
}

/// The set round trip law: a duplicate-free key sequence rebuilds to itself.
pub proof fn lemma_set_round_trip(ks: Seq<u64>)
    requires
        ks.no_duplicates(),
    ensures
        build_set(ks) == ks,
    decreases ks.len(),
{
    if ks.len() == 0 {
        assert(build_set(ks) =~= ks);
    } else {
        let front = ks.drop_last();
        lemma_set_round_trip(front);
        assert(!front.contains(ks.last())) by {
            if front.contains(ks.last()) {
                let i = choose|i: int| 0 <= i < front.len() && front[i] == ks.last();
                assert(ks[i] == ks[ks.len() - 1]);
            }
        }
        assert(build_set(ks) =~= ks);
    }
}

/// Update in place: re-inserting an existing key rewrites its value but
/// leaves the length, every key, and the key's own position unchanged.
pub proof fn lemma_update_in_place<V>(s: Seq<(u64, V)>, k: u64, v: V)
    requires
        keys_distinct(s),
        seq_has_key(s, k),
    ensures
        spec_insert(s, k, v).len() == s.len(),
        keys_of(spec_insert(s, k, v)) == keys_of(s),
        keys_distinct(spec_insert(s, k, v)),
        seq_has_key(spec_insert(s, k, v), k),
        seq_pos_of(spec_insert(s, k, v), k) == seq_pos_of(s, k),
        spec_insert(s, k, v)[seq_pos_of(s, k)] == (k, v),
{
    lemma_pos_of(s, k);
    let t = spec_insert(s, k, v);
    assert(keys_of(t) =~= keys_of(s));
    assert(t[seq_pos_of(s, k)].0 == k);
    assert(seq_has_key(t, k));
    lemma_pos_of(t, k);
}

} // verus!
