//! The map engine: a dense, order-preserving entry store plus a hashed index
//! mapping each key's hash to the current position of its record.
//!
//! Every mutation is a pair of steps: mutate the store, then repair the index
//! so that every surviving record is found both by key and by position. The
//! well-formedness predicate [`IndexMap::wf`] states that synchronization
//! invariant; every operation preserves it.

use vstd::prelude::*;

use crate::hash_index::{
    index_clear, index_entries, index_get, index_insert, index_new, index_remove,
    index_with_capacity, HashIndex,
};
use crate::model::{
    keys_distinct, lemma_pos_of, seq_has_key, seq_pos_of, shift_removed_at, spec_insert,
    swap_removed_at,
};
use crate::{Bucket, HashValue};

verus! {

/// An associative container that preserves insertion order and supports
/// positional access, with hashed lookup through the hashed index.
pub struct IndexMap<V> {
    entries: Vec<Bucket<V>>,
    index: HashIndex,
}

impl<V> View for IndexMap<V> {
    type V = Seq<(u64, V)>;

    /// The store as a sequence of key/value records, in iteration order.
    closed spec fn view(&self) -> Seq<(u64, V)> {
        self.entries@.map_values(|b: Bucket<V>| (b.key, b.value))
    }
}

impl<V> IndexMap<V> {
    /// The synchronization invariant between the entry store and the hashed
    /// index: each record carries its key's hash (the identity), no two
    /// records share a key, the index resolves every record's hash to the
    /// record's current position, and the index holds no stale slot.
    pub closed spec fn wf(&self) -> bool {
        let s = self.entries@;
        let idx = index_entries(self.index);
        &&& forall|i: int| 0 <= i < s.len() ==> (#[trigger] s[i]).hash.0 == s[i].key
        &&& forall|i: int, j: int|
            0 <= i < j < s.len() ==> (#[trigger] s[i]).key != (#[trigger] s[j]).key
        &&& forall|i: int|
            0 <= i < s.len() ==> idx.dom().contains((#[trigger] s[i]).key) && idx[s[i].key]
                as int == i
        &&& forall|h: u64|
            #[trigger] idx.dom().contains(h) ==> exists|i: int|
                0 <= i < s.len() && (#[trigger] s[i]).key == h
    }

    /// The view projects the store record by record.
    proof fn lemma_view(&self)
        ensures
            self@.len() == self.entries@.len(),
            forall|i: int|
                0 <= i < self.entries@.len() ==> (#[trigger] self@[i]) == (
                    self.entries@[i].key,
                    self.entries@[i].value,
                ),
    {
    }

    /// A well-formed map never holds two records with the same key.
    pub proof fn lemma_wf_distinct(&self)
        requires
            self.wf(),
        ensures
            keys_distinct(self@),
    {
        self.lemma_view();
        assert forall|i: int, j: int| 0 <= i < j < self@.len() implies (#[trigger] self@[i]).0 != (
        #[trigger] self@[j]).0 by {
            assert(self.entries@[i].key != self.entries@[j].key);
        }
    }

    /// What the hashed index knows, phrased over the view: a hash is held
    /// exactly when its key has a record, and it resolves to that record's
    /// position.
    proof fn lemma_lookup(&self, k: u64)
        requires
            self.wf(),
        ensures
            keys_distinct(self@),
            index_entries(self.index).dom().contains(k) <==> seq_has_key(self@, k),
            seq_has_key(self@, k) ==> 0 <= seq_pos_of(self@, k) < self@.len(),
            seq_has_key(self@, k) ==> index_entries(self.index)[k] as int == seq_pos_of(self@, k),
            seq_has_key(self@, k) ==> self@[seq_pos_of(self@, k)].0 == k,
    {
        self.lemma_view();
        self.lemma_wf_distinct();
        let s = self@;
        let idx = index_entries(self.index);
        if idx.dom().contains(k) {
            let i = choose|i: int| 0 <= i < self.entries@.len() && (#[trigger] self.entries@[i]).key
                == k;
            assert(s[i].0 == k);
            assert(seq_has_key(s, k));
        }
        if seq_has_key(s, k) {
            lemma_pos_of(s, k);
            let p = seq_pos_of(s, k);
            assert(self.entries@[p].key == k);
        }
    }

    /// Well-formedness carries over to any map holding the same records
    /// and the same index contents.
    proof fn lemma_wf_same_contents(&self, prior: IndexMap<V>)
        requires
            prior.wf(),
            self.entries@ == prior.entries@,
            index_entries(self.index) == index_entries(prior.index),
        ensures
            self.wf(),
    {
        let s = self.entries@;
        let idx = index_entries(self.index);
        assert forall|h: u64| #[trigger] idx.dom().contains(h) implies exists|i: int|
            0 <= i < s.len() && (#[trigger] s[i]).key == h by {
            let i = choose|i: int|
                0 <= i < prior.entries@.len() && (#[trigger] prior.entries@[i]).key == h;
            assert(s[i].key == h);
        }
    }

    /// Creates an empty map.
    pub fn new() -> (r: IndexMap<V>)
        ensures
            r.wf(),
            r@ == Seq::<(u64, V)>::empty(),
    {
        IndexMap { entries: Vec::new(), index: index_new() }
    }

    /// Creates an empty map with room reserved for the given number of
    /// records.
    pub fn with_capacity(capacity: usize) -> (r: IndexMap<V>)
        ensures
            r.wf(),
            r@ == Seq::<(u64, V)>::empty(),
    {
        IndexMap { entries: Vec::with_capacity(capacity), index: index_with_capacity(capacity) }
    }

    /// The number of records.
    pub fn len(&self) -> (r: usize)
        ensures
            r == self@.len(),
    {
        self.entries.len()
    }

    /// Whether the map holds no record.
    pub fn is_empty(&self) -> (r: bool)
        ensures
            r == (self@.len() == 0),
    {
        self.entries.len() == 0
    }

    /// The position of the record with this key, if there is one.
    pub fn get_index_of(&self, key: u64) -> (r: Option<usize>)
        requires
            self.wf(),
        ensures
            r == (if seq_has_key(self@, key) {
                Some(seq_pos_of(self@, key) as usize)
            } else {
                None::<usize>
            }),
    {
        proof {
            self.lemma_lookup(key);
        }
        index_get(&self.index, key)
    }

    /// Whether the map holds a record with this key.
    pub fn contains_key(&self, key: u64) -> (r: bool)
        requires
            self.wf(),
        ensures
            r == seq_has_key(self@, key),
    {
        self.get_index_of(key).is_some()
    }

    /// The value of the record with this key, if there is one.
    pub fn get(&self, key: u64) -> (r: Option<&V>)
        requires
            self.wf(),
        ensures
            r == (if seq_has_key(self@, key) {
                Some(&self@[seq_pos_of(self@, key)].1)
            } else {
                None::<&V>
            }),
    {
        proof {
            self.lemma_lookup(key);
        }
        match index_get(&self.index, key) {
            Some(i) => {
                proof {
                    self.lemma_view();
                }
                Some(&self.entries[i].value)
            },
            None => None,
        }
    }

    /// The position, key and value of the record with this key, if there is
    /// one.
    pub fn get_full(&self, key: u64) -> (r: Option<(usize, u64, &V)>)
        requires
            self.wf(),
        ensures
            r matches Some(t) ==> seq_has_key(self@, key) && t.0 as int == seq_pos_of(self@, key)
                && t.1 == key && *t.2 == self@[seq_pos_of(self@, key)].1,
            r is None ==> !seq_has_key(self@, key),
    {
        proof {
            self.lemma_lookup(key);
        }
        match index_get(&self.index, key) {
            Some(i) => {
                proof {
                    self.lemma_view();
                }
                Some((i, key, &self.entries[i].value))
            },
            None => None,
        }
    }

    /// The oldest record, the one at the first position.
    pub fn first(&self) -> (r: Option<(u64, &V)>)
        ensures
            self@.len() == 0 ==> r is None,
            self@.len() > 0 ==> (r matches Some(t) && t.0 == self@.first().0 && *t.1
                == self@.first().1),
    {
        self.get_index(0)
    }

    /// The newest record, the one at the last position.
    pub fn last(&self) -> (r: Option<(u64, &V)>)
        ensures
            self@.len() == 0 ==> r is None,
            self@.len() > 0 ==> (r matches Some(t) && t.0 == self@.last().0 && *t.1
                == self@.last().1),
    {
        if self.entries.len() == 0 {
            None
        } else {
            self.get_index(self.entries.len() - 1)
        }
    }

    /// Inserts a record. An existing key's record is updated in place at its
    /// current position; a new key's record is appended at the end. Returns
    /// the record's position and the previous value, if the key was present.
    pub fn insert_full(&mut self, key: u64, value: V) -> (r: (usize, Option<V>))
        requires
            old(self).wf(),
        ensures
            final(self).wf(),
            final(self)@ == spec_insert(old(self)@, key, value),
            seq_has_key(old(self)@, key) ==> r.0 as int == seq_pos_of(old(self)@, key) && r.1
                == Some(old(self)@[seq_pos_of(old(self)@, key)].1),
            !seq_has_key(old(self)@, key) ==> r.0 as int == old(self)@.len() && r.1 == None::<V>,
    {
        proof {
            self.lemma_lookup(key);
            self.lemma_view();
        }
        let hash = HashValue(key);
        match index_get(&self.index, key) {
            Some(i) => {
                let mut b = Bucket { hash, key, value };
                core::mem::swap(&mut self.entries[i], &mut b);
                proof {
                    let so = old(self)@;
                    let s = self@;
                    self.lemma_view();
                    assert(s =~= so.update(i as int, (key, value)));
                    assert forall|h: u64|
                        #[trigger] index_entries(self.index).dom().contains(h) implies exists|j: int|
                        0 <= j < self.entries@.len() && (#[trigger] self.entries@[j]).key == h by {
                        let j = choose|j: int|
                            0 <= j < old(self).entries@.len() && (#[trigger] old(
                                self,
                            ).entries@[j]).key == h;
                        assert(self.entries@[j].key == h);
                    }
                }
                (i, Some(b.value))
            },
            None => {
                let pos = self.entries.len();
                self.entries.push(Bucket { hash, key, value });
                index_insert(&mut self.index, key, pos);
                proof {
                    let so = old(self)@;
                    let s = self@;
                    self.lemma_view();
                    assert(s =~= so.push((key, value)));
                    assert forall|h: u64|
                        #[trigger] index_entries(self.index).dom().contains(h) implies exists|j: int|
                        0 <= j < self.entries@.len() && (#[trigger] self.entries@[j]).key == h by {
                        if h == key {
                            assert(self.entries@[pos as int].key == h);
                        } else {
                            let j = choose|j: int|
                                0 <= j < old(self).entries@.len() && (#[trigger] old(
                                    self,
                                ).entries@[j]).key == h;
                            assert(self.entries@[j].key == h);
                        }
                    }
                }
                (pos, None)
            },
        }
    }

    /// Removes the record with this key in constant time by moving the last
    /// record into the vacated position, breaking insertion order. Returns
    /// the removed record's position, key and value; a missing key leaves
    /// the map unchanged.
    pub fn swap_remove_full(&mut self, key: u64) -> (r: Option<(usize, u64, V)>)
        requires
            old(self).wf(),
        ensures
            final(self).wf(),
            !seq_has_key(old(self)@, key) ==> final(self)@ == old(self)@ && r == None::<
                (usize, u64, V),
            >,
            seq_has_key(old(self)@, key) ==> ({
                let p = seq_pos_of(old(self)@, key);
                &&& final(self)@ == swap_removed_at(old(self)@, p)
                &&& r == Some((p as usize, key, old(self)@[p].1))
            }),
    {
        proof {
            self.lemma_lookup(key);
            self.lemma_view();
        }
        match index_remove(&mut self.index, key) {
            None => {
                proof {
                    assert(index_entries(self.index) =~= index_entries(old(self).index));
                    self.lemma_wf_same_contents(*old(self));
                }
                None
            },
            Some(p) => {
                let b = self.entries.swap_remove(p);
                if p < self.entries.len() {
                    let moved_key = self.entries[p].key;
                    index_insert(&mut self.index, moved_key, p);
                }
                proof {
                    self.swap_remove_wf_proof(*old(self), key, p as int);
                    assert(self.wf());
                }
                Some((p, b.key, b.value))
            },
        }
    }

    /// The index-repair argument for swap-removal: after deleting the
    /// removed key's slot and re-pointing the moved record's slot, the index
    /// again resolves every record to its position.
    proof fn swap_remove_wf_proof(&self, prior: IndexMap<V>, key: u64, p: int)
        requires
            prior.wf(),
            seq_has_key(prior@, key),
            p == seq_pos_of(prior@, key),
            self.entries@ == prior.entries@.update(p, prior.entries@.last()).drop_last(),
            index_entries(self.index) == (if p < prior.entries@.len() - 1 {
                index_entries(prior.index).remove(key).insert(
                    prior.entries@.last().key,
                    p as usize,
                )
            } else {
                index_entries(prior.index).remove(key)
            }),
        ensures
            self.wf(),
            self@ == swap_removed_at(prior@, p),
    {
        prior.lemma_lookup(key);
        prior.lemma_view();
        self.lemma_view();
        let so = prior.entries@;
        let s = self.entries@;
        let n = so.len() as int;
        let idx = index_entries(self.index);
        assert(so[p].key == key);
        assert forall|i: int| 0 <= i < s.len() implies idx.dom().contains(
            (#[trigger] s[i]).key,
        ) && idx[s[i].key] as int == i by {
            if i == p && p < n - 1 {
                assert(s[i].key == so[n - 1].key);
            } else {
                assert(s[i] == so[i]);
                assert(so[i].key != key);
                if p < n - 1 {
                    assert(so[i].key != so[n - 1].key);
                }
            }
        }
        assert forall|h: u64| #[trigger] idx.dom().contains(h) implies exists|i: int|
            0 <= i < s.len() && (#[trigger] s[i]).key == h by {
            if p < n - 1 && h == so[n - 1].key {
                assert(s[p].key == h);
            } else {
                assert(index_entries(prior.index).dom().contains(h));
                let i = choose|i: int| 0 <= i < so.len() && (#[trigger] so[i]).key == h;
                assert(h != key);
                assert(i != p);
                if i == n - 1 {
                    assert(p < n - 1 || i == p);
                    assert(s[p].key == h);
                } else {
                    assert(s[i].key == h);
                }
            }
        }
        assert(self@ =~= swap_removed_at(prior@, p));
    }

    /// Removes the record with this key while preserving the relative order
    /// of all remaining records: every later record shifts down one
    /// position, and the index slot of each shifted record is re-pointed.
    /// Returns the removed record's position, key and value; a missing key
    /// leaves the map unchanged.
    #[verifier::loop_isolation(false)]
    pub fn shift_remove_full(&mut self, key: u64) -> (r: Option<(usize, u64, V)>)
        requires
            old(self).wf(),
        ensures
            final(self).wf(),
            !seq_has_key(old(self)@, key) ==> final(self)@ == old(self)@ && r == None::<
                (usize, u64, V),
            >,
            seq_has_key(old(self)@, key) ==> ({
                let p = seq_pos_of(old(self)@, key);
                &&& final(self)@ == shift_removed_at(old(self)@, p)
                &&& r == Some((p as usize, key, old(self)@[p].1))
            }),
    {
        proof {
            self.lemma_lookup(key);
            self.lemma_view();
        }
        match index_remove(&mut self.index, key) {
            None => {
                proof {
                    assert(index_entries(self.index) =~= index_entries(old(self).index));
                    self.lemma_wf_same_contents(*old(self));
                }
                None
            },
            Some(p) => {
                let b = self.entries.remove(p);
                let ghost e = self.entries@;
                let ghost so = old(self).entries@;
                proof {
                    assert forall|i: int, j: int| 0 <= i < j < e.len() implies (
                    #[trigger] e[i]).key != (#[trigger] e[j]).key by {
                        let i0: int = if i < p { i } else { i + 1 };
                        let j0: int = if j < p { j } else { j + 1 };
                        assert(so[i0].key != so[j0].key);
                    }
                }
                let mut j = p;
                while j < self.entries.len()
                    invariant
                        p <= j <= e.len(),
                        self.entries@ == e,
                        index_entries(self.index).dom() == index_entries(
                            old(self).index,
                        ).remove(key).dom(),
                        forall|i: int|
                            0 <= i < j ==> index_entries(self.index).dom().contains(
                                (#[trigger] e[i]).key,
                            ) && index_entries(self.index)[e[i].key] as int == i,
                        forall|i: int|
                            j <= i < e.len() ==> index_entries(self.index).dom().contains(
                                (#[trigger] e[i]).key,
                            ) && index_entries(self.index)[e[i].key] as int == i + 1,
                    decreases e.len() - j,
                {
                    let moved_key = self.entries[j].key;
                    index_insert(&mut self.index, moved_key, j);
                    proof {
                        assert forall|i: int|
                            j + 1 <= i < e.len() implies index_entries(
                            self.index,
                        ).dom().contains((#[trigger] e[i]).key) && index_entries(
                            self.index,
                        )[e[i].key] as int == i + 1 by {
                            assert(e[i].key != e[j as int].key);
                        }
                    }
                    j += 1;
                }
                proof {
                    let s = self.entries@;
                    let idx = index_entries(self.index);
                    self.lemma_view();
                    assert forall|i: int| 0 <= i < s.len() implies (#[trigger] s[i]).hash.0
                        == s[i].key by {
                        let i0: int = if i < p { i } else { i + 1 };
                        assert(s[i] == so[i0]);
                    }
                    assert forall|h: u64| #[trigger] idx.dom().contains(h) implies exists|i: int|
                        0 <= i < s.len() && (#[trigger] s[i]).key == h by {
                        let i0 = choose|i0: int|
                            0 <= i0 < so.len() && (#[trigger] so[i0]).key == h;
                        assert(h != key);
                        assert(i0 != p);
                        let i: int = if i0 < p { i0 } else { i0 - 1 };
                        assert(s[i].key == h);
                    }
                    assert(self@ =~= shift_removed_at(old(self)@, p as int));
                    assert(self.wf());
                }
                Some((p, b.key, b.value))
            },
        }
    }

    /// Swap-removes by key, returning only the removed value.
    pub fn swap_remove(&mut self, key: u64) -> (r: Option<V>)
        requires
            old(self).wf(),
        ensures
            final(self).wf(),
            !seq_has_key(old(self)@, key) ==> final(self)@ == old(self)@ && r == None::<V>,
            seq_has_key(old(self)@, key) ==> final(self)@ == swap_removed_at(
                old(self)@,
                seq_pos_of(old(self)@, key),
            ) && r == Some(old(self)@[seq_pos_of(old(self)@, key)].1),
    {
        match self.swap_remove_full(key) {
            Some((_, _, v)) => Some(v),
            None => None,
        }
    }

    /// Shift-removes by key, returning only the removed value.
    pub fn shift_remove(&mut self, key: u64) -> (r: Option<V>)
        requires
            old(self).wf(),
        ensures
            final(self).wf(),
            !seq_has_key(old(self)@, key) ==> final(self)@ == old(self)@ && r == None::<V>,
            seq_has_key(old(self)@, key) ==> final(self)@ == shift_removed_at(
                old(self)@,
                seq_pos_of(old(self)@, key),
            ) && r == Some(old(self)@[seq_pos_of(old(self)@, key)].1),
    {
        match self.shift_remove_full(key) {
            Some((_, _, v)) => Some(v),
            None => None,
        }
    }

    /// Swap-removes by key, returning the removed key and value.
    pub fn swap_remove_entry(&mut self, key: u64) -> (r: Option<(u64, V)>)
        requires
            old(self).wf(),
        ensures
            final(self).wf(),
            !seq_has_key(old(self)@, key) ==> final(self)@ == old(self)@ && r == None::<(u64, V)>,
            seq_has_key(old(self)@, key) ==> final(self)@ == swap_removed_at(
                old(self)@,
                seq_pos_of(old(self)@, key),
            ) && r == Some((key, old(self)@[seq_pos_of(old(self)@, key)].1)),
    {
        match self.swap_remove_full(key) {
            Some((_, k, v)) => Some((k, v)),
            None => None,
        }
    }

    /// Shift-removes by key, returning the removed key and value.
    pub fn shift_remove_entry(&mut self, key: u64) -> (r: Option<(u64, V)>)
        requires
            old(self).wf(),
        ensures
            final(self).wf(),
            !seq_has_key(old(self)@, key) ==> final(self)@ == old(self)@ && r == None::<(u64, V)>,
            seq_has_key(old(self)@, key) ==> final(self)@ == shift_removed_at(
                old(self)@,
                seq_pos_of(old(self)@, key),
            ) && r == Some((key, old(self)@[seq_pos_of(old(self)@, key)].1)),
    {
        match self.shift_remove_full(key) {
            Some((_, k, v)) => Some((k, v)),
            None => None,
        }
    }

    /// Well-formedness reads only the records' keys and hashes and the
    /// index, never the values: rewriting values in place cannot break the
    /// synchronization invariant.
    broadcast proof fn lemma_wf_values_irrelevant(prior: IndexMap<V>, cur: IndexMap<V>)
        requires
            #[trigger] prior.wf(),
            cur.index == prior.index,
            cur.entries@.len() == prior.entries@.len(),
            forall|i: int|
                0 <= i < prior.entries@.len() ==> (#[trigger] cur.entries@[i]).key
                    == prior.entries@[i].key && cur.entries@[i].hash == prior.entries@[i].hash,
        ensures
            #[trigger] cur.wf(),
    {
        let s = cur.entries@;
        let idx = index_entries(cur.index);
        assert forall|h: u64| #[trigger] idx.dom().contains(h) implies exists|i: int|
            0 <= i < s.len() && (#[trigger] s[i]).key == h by {
            let i = choose|i: int|
                0 <= i < prior.entries@.len() && (#[trigger] prior.entries@[i]).key == h;
            assert(s[i].key == h);
        }
    }

    /// The key and value at a position, or nothing when the position is out
    /// of range.
    pub fn get_index(&self, p: usize) -> (r: Option<(u64, &V)>)
        ensures
            p < self@.len() ==> (r matches Some(t) && t.0 == self@[p as int].0 && *t.1
                == self@[p as int].1),
            p >= self@.len() ==> r is None,
    {
        proof {
            self.lemma_view();
        }
        if p < self.entries.len() {
            Some((self.entries[p].key, &self.entries[p].value))
        } else {
            None
        }
    }

    /// Mutable access to the value at a position. The key is untouched, so
    /// the hashed index stays synchronized whatever the caller writes.
    pub fn get_index_mut(&mut self, p: usize) -> (r: &mut V)
        requires
            old(self).wf(),
            p < old(self)@.len(),
        ensures
            final(self).wf(),
            *r == old(self)@[p as int].1,
            final(self)@ == old(self)@.update(p as int, (old(self)@[p as int].0, *final(r))),
    {
        broadcast use IndexMap::lemma_wf_values_irrelevant;

        proof {
            self.lemma_view();
        }
        let slot = &mut self.entries[p];
        &mut slot.value
    }

    /// Removes the newest record, the one at the last position.
    pub fn pop(&mut self) -> (r: Option<(u64, V)>)
        requires
            old(self).wf(),
        ensures
            final(self).wf(),
            old(self)@.len() == 0 ==> r == None::<(u64, V)> && final(self)@ == old(self)@,
            old(self)@.len() > 0 ==> r == Some(old(self)@.last()) && final(self)@ == old(
                self,
            )@.drop_last(),
    {
        proof {
            self.lemma_view();
            self.lemma_wf_distinct();
        }
        match self.entries.pop() {
            None => {
                proof {
                    assert(self@ =~= old(self)@);
                }
                None
            },
            Some(b) => {
                index_remove(&mut self.index, b.key);
                proof {
                    let so = old(self).entries@;
                    let s = self.entries@;
                    let n = so.len() as int;
                    self.lemma_view();
                    assert forall|i: int| 0 <= i < s.len() implies index_entries(
                        self.index,
                    ).dom().contains((#[trigger] s[i]).key) && index_entries(
                        self.index,
                    )[s[i].key] as int == i by {
                        assert(s[i] == so[i]);
                        assert(so[i].key != so[n - 1].key);
                    }
                    assert forall|h: u64|
                        #[trigger] index_entries(self.index).dom().contains(h) implies exists|
                    i: int|
                        0 <= i < s.len() && (#[trigger] s[i]).key == h by {
                        let i = choose|i: int| 0 <= i < so.len() && (#[trigger] so[i]).key == h;
                        assert(i != n - 1);
                        assert(s[i].key == h);
                    }
                    assert(self@ =~= old(self)@.drop_last());
                    assert(self.wf());
                }
                Some((b.key, b.value))
            },
        }
    }

    /// Drops every record from the given length on, repairing the index by
    /// deleting each dropped record's slot. A length past the end changes
    /// nothing.
    #[verifier::loop_isolation(false)]
    pub fn truncate(&mut self, len: usize)
        requires
            old(self).wf(),
        ensures
            final(self).wf(),
            len <= old(self)@.len() ==> final(self)@ == old(self)@.take(len as int),
            len > old(self)@.len() ==> final(self)@ == old(self)@,
    {
        proof {
            assert(self@ =~= old(self)@.take(self@.len() as int));
        }
        while self.entries.len() > len
            invariant
                self.wf(),
                old(self)@.len() >= self@.len(),
                self@ == old(self)@.take(self@.len() as int),
                self@.len() >= len || self@.len() == old(self)@.len(),
            decreases self@.len(),
        {
            self.pop();
            proof {
                assert(self@ =~= old(self)@.take(self@.len() as int));
            }
        }
        proof {
            if len > old(self)@.len() {
                assert(old(self)@.take(self@.len() as int) =~= old(self)@);
            }
        }
    }

    /// Removes every record and every index slot.
    pub fn clear(&mut self)
        ensures
            final(self).wf(),
            final(self)@ == Seq::<(u64, V)>::empty(),
    {
        self.entries.clear();
        index_clear(&mut self.index);
        proof {
            assert(self@ =~= Seq::<(u64, V)>::empty());
        }
    }

    /// Swaps the records at two positions and repairs both index slots.
    pub fn swap_indices(&mut self, a: usize, b: usize)
        requires
            old(self).wf(),
            a < old(self)@.len(),
            b < old(self)@.len(),
        ensures
            final(self).wf(),
            final(self)@ == old(self)@.update(a as int, old(self)@[b as int]).update(
                b as int,
                old(self)@[a as int],
            ),
    {
        proof {
            self.lemma_view();
            self.lemma_wf_distinct();
        }
        crate::util::vec_swap_elems(&mut self.entries, a, b);
        let ka = self.entries[a].key;
        index_insert(&mut self.index, ka, a);
        let kb = self.entries[b].key;
        index_insert(&mut self.index, kb, b);
        proof {
            let so = old(self).entries@;
            let s = self.entries@;
            let idx = index_entries(self.index);
            self.lemma_view();
            assert(s[a as int] == so[b as int] || a == b);
            assert forall|i: int| 0 <= i < s.len() implies idx.dom().contains(
                (#[trigger] s[i]).key,
            ) && idx[s[i].key] as int == i by {
                if i == b as int {
                } else if i == a as int {
                    assert(s[i] == so[b as int]);
                    assert(so[b as int].key != so[a as int].key || a == b);
                } else {
                    assert(s[i] == so[i]);
                    assert(so[i].key != so[a as int].key);
                    assert(so[i].key != so[b as int].key);
                }
            }
            assert forall|h: u64| #[trigger] idx.dom().contains(h) implies exists|i: int|
                0 <= i < s.len() && (#[trigger] s[i]).key == h by {
                let i = choose|i: int| 0 <= i < so.len() && (#[trigger] so[i]).key == h;
                if i == a as int {
                    assert(s[b as int].key == h);
                } else if i == b as int {
                    assert(s[a as int].key == h);
                } else {
                    assert(s[i].key == h);
                }
            }
            assert(self@ =~= old(self)@.update(a as int, old(self)@[b as int]).update(
                b as int,
                old(self)@[a as int],
            ));
            assert(self.wf());
        }
    }

    /// Rebuilds every index slot from the store, after a whole-store
    /// reordering. The store's keys must already be distinct and each
    /// record's hash its key's.
    #[verifier::loop_isolation(false)]
    fn rebuild_index(&mut self)
        requires
            forall|i: int|
                0 <= i < old(self).entries@.len() ==> (#[trigger] old(self).entries@[i]).hash.0
                    == old(self).entries@[i].key,
            forall|i: int, j: int|
                0 <= i < j < old(self).entries@.len() ==> (#[trigger] old(
                    self,
                ).entries@[i]).key != (#[trigger] old(self).entries@[j]).key,
        ensures
            final(self).wf(),
            final(self).entries@ == old(self).entries@,
    {
        index_clear(&mut self.index);
        let ghost e = self.entries@;
        let mut i: usize = 0;
        while i < self.entries.len()
            invariant
                i <= e.len(),
                self.entries@ == e,
                forall|j: int|
                    0 <= j < i ==> index_entries(self.index).dom().contains(
                        (#[trigger] e[j]).key,
                    ) && index_entries(self.index)[e[j].key] as int == j,
                forall|h: u64|
                    #[trigger] index_entries(self.index).dom().contains(h) ==> exists|j: int|
                        0 <= j < i && (#[trigger] e[j]).key == h,
            decreases e.len() - i,
        {
            let k = self.entries[i].key;
            index_insert(&mut self.index, k, i);
            proof {
                assert forall|j: int|
                    0 <= j < i + 1 implies index_entries(self.index).dom().contains(
                    (#[trigger] e[j]).key,
                ) && index_entries(self.index)[e[j].key] as int == j by {
                    if j < i {
                        assert(e[j].key != e[i as int].key);
                    }
                }
                assert forall|h: u64|
                    #[trigger] index_entries(self.index).dom().contains(h) implies exists|j: int|
                    0 <= j < i + 1 && (#[trigger] e[j]).key == h by {
                    if h == e[i as int].key {
                        assert(e[i as int].key == h);
                    } else {
                        let j = choose|j: int| 0 <= j < i && (#[trigger] e[j]).key == h;
                        assert(e[j].key == h);
                    }
                }
            }
            i += 1;
        }
    }

    /// Reverses the order of the records, then rebuilds every index slot.
    pub fn reverse(&mut self)
        requires
            old(self).wf(),
        ensures
            final(self).wf(),
            final(self)@ == old(self)@.reverse(),
    {
        proof {
            self.lemma_view();
            self.lemma_wf_distinct();
        }
        let ghost so = self.entries@;
        let mut rev: Vec<Bucket<V>> = Vec::with_capacity(self.entries.len());
        while self.entries.len() > 0
            invariant
                self.entries@ == so.take(self.entries@.len() as int),
                rev@.len() + self.entries@.len() == so.len(),
                forall|i: int|
                    0 <= i < rev@.len() ==> (#[trigger] rev@[i]) == so[so.len() - 1 - i],
            decreases self.entries@.len(),
        {
            match self.entries.pop() {
                Some(b) => {
                    rev.push(b);
                },
                None => {
                    proof {
                        assert(false);
                    }
                },
            }
            proof {
                assert(self.entries@ =~= so.take(self.entries@.len() as int));
            }
        }
        self.entries = rev;
        proof {
            assert forall|i: int, j: int|
                0 <= i < j < self.entries@.len() implies (#[trigger] self.entries@[i]).key != (
            #[trigger] self.entries@[j]).key by {
                let n = so.len() as int;
                assert(self.entries@[i] == so[n - 1 - i]);
                assert(self.entries@[j] == so[n - 1 - j]);
                assert(so[n - 1 - j].key != so[n - 1 - i].key);
            }
        }
        self.rebuild_index();
        proof {
            self.lemma_view();
            assert(self@ =~= old(self)@.reverse());
        }
    }

    /// Swap-removes the record at a position, moving the last record into
    /// the gap. An out-of-range position leaves the map unchanged.
    pub fn swap_remove_index(&mut self, p: usize) -> (r: Option<(u64, V)>)
        requires
            old(self).wf(),
        ensures
            final(self).wf(),
            p >= old(self)@.len() ==> r == None::<(u64, V)> && final(self)@ == old(self)@,
            p < old(self)@.len() ==> r == Some(old(self)@[p as int]) && final(self)@
                == swap_removed_at(old(self)@, p as int),
    {
        proof {
            self.lemma_view();
            self.lemma_wf_distinct();
        }
        if p >= self.entries.len() {
            return None;
        }
        let key = self.entries[p].key;
        proof {
            assert(self@[p as int].0 == key);
            assert(seq_has_key(self@, key));
            lemma_pos_of(self@, key);
        }
        match self.swap_remove_full(key) {
            Some((_, k, v)) => Some((k, v)),
            None => None,
        }
    }

    /// Shift-removes the record at a position, preserving the order of all
    /// remaining records. An out-of-range position leaves the map unchanged.
    pub fn shift_remove_index(&mut self, p: usize) -> (r: Option<(u64, V)>)
        requires
            old(self).wf(),
        ensures
            final(self).wf(),
            p >= old(self)@.len() ==> r == None::<(u64, V)> && final(self)@ == old(self)@,
            p < old(self)@.len() ==> r == Some(old(self)@[p as int]) && final(self)@
                == shift_removed_at(old(self)@, p as int),
    {
        proof {
            self.lemma_view();
            self.lemma_wf_distinct();
        }
        if p >= self.entries.len() {
            return None;
        }
        let key = self.entries[p].key;
        proof {
            assert(self@[p as int].0 == key);
            assert(seq_has_key(self@, key));
            lemma_pos_of(self@, key);
        }
        match self.shift_remove_full(key) {
            Some((_, k, v)) => Some((k, v)),
            None => None,
        }
    }

    /// Partitions the store at a position: the records from that position on
    /// move into a fresh map, and both maps rebuild their own index from
    /// scratch.
    pub fn split_off(&mut self, at: usize) -> (r: IndexMap<V>)
        requires
            old(self).wf(),
            at <= old(self)@.len(),
        ensures
            final(self).wf(),
            r.wf(),
            final(self)@ == old(self)@.take(at as int),
            r@ == old(self)@.skip(at as int),
    {
        proof {
            self.lemma_view();
            self.lemma_wf_distinct();
        }
        let tail = self.entries.split_off(at);
        self.rebuild_index();
        let mut other = IndexMap { entries: tail, index: index_new() };
        proof {
            let so = old(self).entries@;
            assert forall|i: int, j: int|
                0 <= i < j < other.entries@.len() implies (#[trigger] other.entries@[i]).key != (
            #[trigger] other.entries@[j]).key by {
                assert(other.entries@[i] == so[at + i]);
                assert(other.entries@[j] == so[at + j]);
                assert(so[at + i].key != so[at + j].key);
            }
        }
        other.rebuild_index();
        proof {
            self.lemma_view();
            other.lemma_view();
            assert(self@ =~= old(self)@.take(at as int));
            assert(other@ =~= old(self)@.skip(at as int));
        }
        other
    }

    /// The keys, in iteration order, collected into a vector.
    #[verifier::loop_isolation(false)]
    pub fn keys(&self) -> (r: Vec<u64>)
        ensures
            r@ == crate::model::keys_of(self@),
    {
        proof {
            self.lemma_view();
        }
        let mut out: Vec<u64> = Vec::with_capacity(self.entries.len());
        let mut i: usize = 0;
        while i < self.entries.len()
            invariant
                i <= self.entries@.len(),
                out@.len() == i,
                forall|j: int| 0 <= j < i ==> (#[trigger] out@[j]) == self.entries@[j].key,
            decreases self.entries@.len() - i,
        {
            let k = self.entries[i].key;
            out.push(k);
            i += 1;
        }
        proof {
            assert(out@ =~= crate::model::keys_of(self@));
        }
        out
    }

    /// Inserts a record, returning the previous value if the key was present.
    pub fn insert(&mut self, key: u64, value: V) -> (r: Option<V>)
        requires
            old(self).wf(),
        ensures
            final(self).wf(),
            final(self)@ == spec_insert(old(self)@, key, value),
            seq_has_key(old(self)@, key) ==> r == Some(
                old(self)@[seq_pos_of(old(self)@, key)].1,
            ),
            !seq_has_key(old(self)@, key) ==> r == None::<V>,
    {
        self.insert_full(key, value).1
    }
}

impl<V> Default for IndexMap<V> {
    /// An empty map.
    fn default() -> (r: IndexMap<V>)
        ensures
            r.wf(),
            r@ == Seq::<(u64, V)>::empty(),
    {
        IndexMap::new()
    }
}

/// A one-shot handle bound to a single probe for one key: the position of
/// the key's record when it is present, or the key's pending hash when it
/// is not. Consuming the handle inserts, updates or removes without a
/// second probe, and ownership makes it unusable afterwards.
pub enum Entry {
    Occupied { index: usize, key: u64 },
    Vacant { hash: HashValue, key: u64 },
}

impl Entry {
    /// The key this handle was probed for.
    pub open spec fn probe_key(self) -> u64 {
        match self {
            Entry::Occupied { index: _, key } => key,
            Entry::Vacant { hash: _, key } => key,
        }
    }

    /// Whether the handle faithfully describes a probe of the given map:
    /// occupied at the key's current position, or vacant with the key's
    /// hash, for a key the map does not hold.
    pub open spec fn describes<V>(self, m: IndexMap<V>) -> bool {
        match self {
            Entry::Occupied { index, key } => seq_has_key(m@, key) && index as int == seq_pos_of(
                m@,
                key,
            ),
            Entry::Vacant { hash, key } => !seq_has_key(m@, key) && hash.0 == key,
        }
    }
}

impl<V> IndexMap<V> {
    /// Probes once for a key, returning a handle that can inspect, insert,
    /// update or remove without a second hash lookup.
    pub fn entry(&self, key: u64) -> (e: Entry)
        requires
            self.wf(),
        ensures
            e.describes(*self),
            e.probe_key() == key,
    {
        proof {
            self.lemma_lookup(key);
        }
        match index_get(&self.index, key) {
            Some(i) => Entry::Occupied { index: i, key },
            None => Entry::Vacant { hash: HashValue(key), key },
        }
    }

    /// Reads the value an occupied handle is bound to, directly by
    /// position.
    pub fn entry_get<'e>(&'e self, e: &Entry) -> (r: Option<&'e V>)
        requires
            self.wf(),
            e.describes(*self),
        ensures
            *e is Occupied ==> (r matches Some(v) && *v == self@[seq_pos_of(
                self@,
                e.probe_key(),
            )].1),
            *e is Vacant ==> r is None,
    {
        proof {
            self.lemma_view();
            self.lemma_wf_distinct();
        }
        match e {
            Entry::Occupied { index, key } => {
                proof {
                    lemma_pos_of(self@, *key);
                }
                Some(&self.entries[*index].value)
            },
            Entry::Vacant { hash: _, key: _ } => None,
        }
    }

    /// The index-repair argument for an in-place value update: replacing a
    /// record with one carrying the same key and hash leaves the
    /// synchronization invariant intact.
    proof fn value_update_wf_proof(&self, prior: IndexMap<V>, p: int, k: u64, v: V)
        requires
            prior.wf(),
            0 <= p < prior.entries@.len(),
            prior.entries@[p].key == k,
            self.index == prior.index,
            self.entries@ == prior.entries@.update(
                p,
                Bucket { hash: HashValue(k), key: k, value: v },
            ),
        ensures
            self.wf(),
            self@ == prior@.update(p, (k, v)),
    {
        prior.lemma_view();
        self.lemma_view();
        let s2 = self.entries@;
        let idx2 = index_entries(self.index);
        assert forall|i: int| 0 <= i < s2.len() implies (#[trigger] s2[i]).key
            == prior.entries@[i].key && s2[i].hash.0 == s2[i].key by {
            if i != p {
                assert(s2[i] == prior.entries@[i]);
            }
        }
        assert forall|i: int, j: int| 0 <= i < j < s2.len() implies (#[trigger] s2[i]).key != (
        #[trigger] s2[j]).key by {
            assert(prior.entries@[i].key != prior.entries@[j].key);
        }
        assert forall|i: int| 0 <= i < s2.len() implies idx2.dom().contains(
            (#[trigger] s2[i]).key,
        ) && idx2[s2[i].key] as int == i by {
            assert(prior.entries@[i].key == s2[i].key);
        }
        assert forall|h: u64| #[trigger] idx2.dom().contains(h) implies exists|j: int|
            0 <= j < s2.len() && (#[trigger] s2[j]).key == h by {
            let j = choose|j: int|
                0 <= j < prior.entries@.len() && (#[trigger] prior.entries@[j]).key == h;
            assert(s2[j].key == h);
        }
        assert(self@ =~= prior@.update(p, (k, v)));
    }

    /// Consumes a handle: an occupied one replaces its record's value in
    /// place at its bound position, a vacant one appends a fresh record and
    /// claims its index slot; neither probes again. Returns the record's
    /// position and the previous value.
    pub fn entry_insert(&mut self, e: Entry, value: V) -> (r: (usize, Option<V>))
        requires
            old(self).wf(),
            e.describes(*old(self)),
        ensures
            final(self).wf(),
            final(self)@ == spec_insert(old(self)@, e.probe_key(), value),
            e is Occupied ==> r.0 as int == seq_pos_of(old(self)@, e.probe_key()) && r.1 == Some(
                old(self)@[seq_pos_of(old(self)@, e.probe_key())].1,
            ),
            e is Vacant ==> r.0 as int == old(self)@.len() && r.1 == None::<V>,
    {
        proof {
            self.lemma_view();
            self.lemma_wf_distinct();
        }
        match e {
            Entry::Occupied { index, key } => {
                proof {
                    lemma_pos_of(self@, key);
                    self.lemma_lookup(key);
                }
                let mut b = Bucket { hash: HashValue(key), key, value };
                core::mem::swap(&mut self.entries[index], &mut b);
                proof {
                    self.value_update_wf_proof(*old(self), index as int, key, value);
                }
                (index, Some(b.value))
            },
            Entry::Vacant { hash, key } => {
                proof {
                    assert(hash.0 == key);
                    assert(!seq_has_key(old(self)@, key));
                    self.lemma_lookup(key);
                }
                let pos = self.entries.len();
                self.entries.push(Bucket { hash, key, value });
                index_insert(&mut self.index, key, pos);
                proof {
                    let so = old(self)@;
                    let s = self@;
                    self.lemma_view();
                    assert(s =~= so.push((key, value)));
                    assert forall|i: int, j: int|
                        0 <= i < j < self.entries@.len() implies (#[trigger] self.entries@[i]).key
                        != (#[trigger] self.entries@[j]).key by {
                        if j == old(self).entries@.len() {
                            assert(old(self)@[i].0 == self.entries@[i].key);
                        }
                    }
                    assert forall|i: int|
                        0 <= i < self.entries@.len() implies index_entries(
                        self.index,
                    ).dom().contains((#[trigger] self.entries@[i]).key) && index_entries(
                        self.index,
                    )[self.entries@[i].key] as int == i by {
                        if i < old(self).entries@.len() {
                            assert(self.entries@[i] == old(self).entries@[i]);
                            assert(old(self)@[i].0 == self.entries@[i].key);
                            assert(self.entries@[i].key != key);
                        }
                    }
                    assert forall|h: u64|
                        #[trigger] index_entries(self.index).dom().contains(h) implies exists|j: int|
                        0 <= j < self.entries@.len() && (#[trigger] self.entries@[j]).key == h by {
                        if h == key {
                            assert(self.entries@[pos as int].key == h);
                        } else {
                            let j = choose|j: int|
                                0 <= j < old(self).entries@.len() && (#[trigger] old(
                                    self,
                                ).entries@[j]).key == h;
                            assert(self.entries@[j].key == h);
                        }
                    }
                    assert(self.wf());
                }
                (pos, None)
            },
        }
    }

    /// Consumes a handle, swap-removing the record of an occupied one; a
    /// vacant handle removes nothing.
    pub fn entry_swap_remove(&mut self, e: Entry) -> (r: Option<(u64, V)>)
        requires
            old(self).wf(),
            e.describes(*old(self)),
        ensures
            final(self).wf(),
            e is Vacant ==> r == None::<(u64, V)> && final(self)@ == old(self)@,
            e is Occupied ==> r == Some(
                (e.probe_key(), old(self)@[seq_pos_of(old(self)@, e.probe_key())].1),
            ) && final(self)@ == swap_removed_at(
                old(self)@,
                seq_pos_of(old(self)@, e.probe_key()),
            ),
    {
        match e {
            Entry::Occupied { index: _, key } => self.swap_remove_entry(key),
            Entry::Vacant { hash: _, key: _ } => None,
        }
    }

    /// The core consistency law: in a well-formed map, the record standing
    /// at any position is found by its key at exactly that position.
    pub proof fn lemma_positions_consistent(&self)
        requires
            self.wf(),
        ensures
            keys_distinct(self@),
            forall|i: int|
                0 <= i < self@.len() ==> seq_has_key(self@, (#[trigger] self@[i]).0)
                    && seq_pos_of(self@, self@[i].0) == i,
    {
        self.lemma_wf_distinct();
        assert forall|i: int| 0 <= i < self@.len() implies seq_has_key(
            self@,
            (#[trigger] self@[i]).0,
        ) && seq_pos_of(self@, self@[i].0) == i by {
            assert(seq_has_key(self@, self@[i].0));
            lemma_pos_of(self@, self@[i].0);
        }
    }

    /// Sorts the records by key, ascending. Implemented as repeated
    /// position swaps, each of which repairs its two index slots, so the
    /// index never goes stale.
    #[verifier::loop_isolation(false)]
    pub fn sort_keys(&mut self)
        requires
            old(self).wf(),
        ensures
            final(self).wf(),
            crate::model::sorted_keys(final(self)@),
            final(self)@.len() == old(self)@.len(),
            forall|x: (u64, V)| #[trigger] final(self)@.contains(x) <==> old(self)@.contains(x),
    {
        let n = self.entries.len();
        let mut i: usize = 0;
        while i < n
            invariant
                i <= n,
                self.wf(),
                self@.len() == n,
                forall|p: int, q: int| 0 <= p < q < i ==> (#[trigger] self@[p]).0 <= (
                #[trigger] self@[q]).0,
                forall|p: int, q: int|
                    0 <= p < i <= q < n ==> (#[trigger] self@[p]).0 <= (#[trigger] self@[q]).0,
                forall|x: (u64, V)| #[trigger] self@.contains(x) <==> old(self)@.contains(x),
            decreases n - i,
        {
            proof {
                self.lemma_view();
            }
            let ghost before = self@;
            let mut mi: usize = i;
            let mut j: usize = i + 1;
            while j < n
                invariant
                    i <= mi < j <= n,
                    self@ == before,
                    forall|q: int| i <= q < j ==> (#[trigger] self@[q]).0 >= self@[mi as int].0,
                decreases n - j,
            {
                if self.entries[j].key < self.entries[mi].key {
                    mi = j;
                }
                j += 1;
            }
            self.swap_indices(i, mi);
            proof {
                crate::model::lemma_swap_preserves_contains(before, i as int, mi as int);
                assert forall|p: int, q: int|
                    0 <= p < i + 1 <= q < n implies (#[trigger] self@[p]).0 <= (
                #[trigger] self@[q]).0 by {
                    if p < i {
                        if q == mi as int && q != i as int {
                            assert(before[p].0 <= before[i as int].0);
                        } else {
                            assert(self@[q] == before[q] || self@[q] == before[i as int]);
                        }
                    } else {
                        assert(self@[p] == before[mi as int]);
                        if q == mi as int && q != i as int {
                            assert(self@[q] == before[i as int]);
                            assert(before[mi as int].0 <= before[i as int].0);
                        } else {
                            assert(self@[q] == before[q]);
                            assert(before[mi as int].0 <= before[q].0);
                        }
                    }
                }
            }
            i += 1;
        }
    }

    /// Keeps only the records the predicate approves, in their original
    /// order, shift-removing each rejected record and repairing the index
    /// for every surviving shifted record. The mask of decisions, one per
    /// original record, is reported through the postcondition.
    #[verifier::loop_isolation(false)]
    pub fn retain<F: Fn(u64, &V) -> bool>(&mut self, keep: F)
        requires
            old(self).wf(),
            forall|k: u64, v: &V| #[trigger] call_requires(keep, (k, v)),
        ensures
            final(self).wf(),
            exists|picks: Seq<bool>|
                #![auto]
                picks.len() == old(self)@.len() && final(self)@ == crate::model::masked(
                    old(self)@,
                    picks,
                ) && forall|t: int|
                    0 <= t < picks.len() ==> call_ensures(
                        keep,
                        (old(self)@[t].0, &old(self)@[t].1),
                        picks[t],
                    ),
    {
        let ghost orig = self@;
        let ghost mut picks: Seq<bool> = Seq::empty();
        let ghost mut j: int = 0;
        let mut i: usize = 0;
        proof {
            assert(orig.take(0) =~= Seq::<(u64, V)>::empty());
            assert(crate::model::masked(orig.take(0), picks) =~= Seq::<(u64, V)>::empty());
            assert(self@ =~= crate::model::masked(orig.take(0), picks) + orig.skip(0));
        }
        while i < self.entries.len()
            invariant
                self.wf(),
                0 <= j <= orig.len(),
                picks.len() == j,
                i as int == crate::model::masked(orig.take(j), picks).len(),
                self@ == crate::model::masked(orig.take(j), picks) + orig.skip(j),
                forall|t: int|
                    0 <= t < j ==> call_ensures(keep, (orig[t].0, &orig[t].1), picks[t]),
            decreases orig.len() - j,
        {
            proof {
                self.lemma_view();
                assert(self@[i as int] == orig[j]);
            }
            let k = self.entries[i].key;
            let dec = keep(k, &self.entries[i].value);
            proof {
                let picks0 = picks;
                picks = picks.push(dec);
                j = j + 1;
                crate::model::lemma_masked_snoc(orig, picks, j - 1);
                assert(picks.take(j - 1) =~= picks0);
            }
            if dec {
                i += 1;
                proof {
                    assert(orig.skip(j - 1) =~= seq![orig[j - 1]] + orig.skip(j));
                    assert(self@ =~= crate::model::masked(orig.take(j), picks) + orig.skip(j));
                }
            } else {
                self.shift_remove_index(i);
                proof {
                    let kept = crate::model::masked(orig.take(j - 1), picks.take(j - 1));
                    assert(orig.skip(j - 1) =~= seq![orig[j - 1]] + orig.skip(j));
                    assert((kept + orig.skip(j - 1)).remove(i as int) =~= kept + orig.skip(j));
                    assert(self@ =~= crate::model::masked(orig.take(j), picks) + orig.skip(j));
                }
            }
        }
        proof {
            assert(j == orig.len()) by {
                assert(self@.len() == crate::model::masked(orig.take(j), picks).len() + orig.skip(
                    j,
                ).len());
            }
            assert(orig.skip(j) =~= Seq::<(u64, V)>::empty());
            assert(orig.take(j) =~= orig);
            assert(self@ =~= crate::model::masked(orig, picks));
        }
    }

    /// Inserts a fresh record at a position: every record from there on
    /// shifts up by one, and each shifted record's index slot is re-pointed.
    #[verifier::loop_isolation(false)]
    fn insert_at(&mut self, p: usize, key: u64, value: V)
        requires
            old(self).wf(),
            p <= old(self)@.len(),
            !seq_has_key(old(self)@, key),
        ensures
            final(self).wf(),
            final(self)@ == old(self)@.insert(p as int, (key, value)),
    {
        proof {
            self.lemma_view();
            self.lemma_wf_distinct();
            self.lemma_lookup(key);
        }
        let ghost so = old(self).entries@;
        self.entries.insert(p, Bucket { hash: HashValue(key), key, value });
        let ghost e = self.entries@;
        proof {
            assert forall|i: int, j: int| 0 <= i < j < e.len() implies (#[trigger] e[i]).key != (
            #[trigger] e[j]).key by {
                let i0: int = if i < p { i } else { i - 1 };
                let j0: int = if j < p { j } else { j - 1 };
                if i == p {
                    assert(old(self)@[j0].0 == so[j0].key);
                } else if j == p {
                    assert(old(self)@[i0].0 == so[i0].key);
                } else {
                    assert(so[i0].key != so[j0].key);
                }
            }
        }
        index_insert(&mut self.index, key, p);
        let n = self.entries.len();
        proof {
            assert(p < n);
        }
        let mut j: usize = p + 1;
        while j < n
            invariant
                p + 1 <= j <= e.len(),
                self.entries@ == e,
                index_entries(self.index).dom() == index_entries(old(self).index).insert(
                    key,
                    p,
                ).dom(),
                forall|t: int|
                    0 <= t < j ==> index_entries(self.index).dom().contains(
                        (#[trigger] e[t]).key,
                    ) && index_entries(self.index)[e[t].key] as int == t,
                forall|t: int|
                    j <= t < e.len() ==> index_entries(self.index).dom().contains(
                        (#[trigger] e[t]).key,
                    ) && index_entries(self.index)[e[t].key] as int == t - 1,
            decreases e.len() - j,
        {
            let moved_key = self.entries[j].key;
            index_insert(&mut self.index, moved_key, j);
            proof {
                assert forall|t: int|
                    j + 1 <= t < e.len() implies index_entries(self.index).dom().contains(
                    (#[trigger] e[t]).key,
                ) && index_entries(self.index)[e[t].key] as int == t - 1 by {
                    assert(e[t].key != e[j as int].key);
                }
            }
            j += 1;
        }
        proof {
            let s = self.entries@;
            let idx = index_entries(self.index);
            self.lemma_view();
            assert forall|h: u64| #[trigger] idx.dom().contains(h) implies exists|i: int|
                0 <= i < s.len() && (#[trigger] s[i]).key == h by {
                if h == key {
                    assert(s[p as int].key == h);
                } else {
                    let i0 = choose|i0: int| 0 <= i0 < so.len() && (#[trigger] so[i0]).key == h;
                    let i: int = if i0 < p { i0 } else { i0 + 1 };
                    assert(s[i].key == h);
                }
            }
            assert(self@ =~= old(self)@.insert(p as int, (key, value)));
            assert(self.wf());
        }
    }

    /// Inserts a record at a position rather than at the end. A record
    /// whose key is already present is first shift-removed from its old
    /// position, then the record enters at the given position, every later
    /// record shifting up by one; the previous value, if any, is returned.
    pub fn shift_insert(&mut self, index: usize, key: u64, value: V) -> (r: Option<V>)
        requires
            old(self).wf(),
            seq_has_key(old(self)@, key) ==> index < old(self)@.len(),
            !seq_has_key(old(self)@, key) ==> index <= old(self)@.len(),
        ensures
            final(self).wf(),
            seq_has_key(old(self)@, key) ==> r == Some(
                old(self)@[seq_pos_of(old(self)@, key)].1,
            ) && final(self)@ == shift_removed_at(
                old(self)@,
                seq_pos_of(old(self)@, key),
            ).insert(index as int, (key, value)),
            !seq_has_key(old(self)@, key) ==> r == None::<V> && final(self)@ == old(
                self,
            )@.insert(index as int, (key, value)),
    {
        proof {
            self.lemma_wf_distinct();
            if seq_has_key(self@, key) {
                lemma_pos_of(self@, key);
            }
        }
        let removed = self.shift_remove(key);
        proof {
            if seq_has_key(old(self)@, key) {
                let q = seq_pos_of(old(self)@, key);
                assert(!seq_has_key(self@, key)) by {
                    if seq_has_key(self@, key) {
                        let i = choose|i: int| 0 <= i < self@.len() && (#[trigger] self@[i]).0
                            == key;
                        let i0: int = if i < q {
                            i
                        } else {
                            i + 1
                        };
                        assert(old(self)@[i0].0 == key);
                        assert(i0 == q);
                    }
                }
            }
        }
        self.insert_at(index, key, value);
        removed
    }

    /// Consumes a handle, shift-removing the record of an occupied one; a
    /// vacant handle removes nothing.
    pub fn entry_shift_remove(&mut self, e: Entry) -> (r: Option<(u64, V)>)
        requires
            old(self).wf(),
            e.describes(*old(self)),
        ensures
            final(self).wf(),
            e is Vacant ==> r == None::<(u64, V)> && final(self)@ == old(self)@,
            e is Occupied ==> r == Some(
                (e.probe_key(), old(self)@[seq_pos_of(old(self)@, e.probe_key())].1),
            ) && final(self)@ == shift_removed_at(
                old(self)@,
                seq_pos_of(old(self)@, e.probe_key()),
            ),
    {
        match e {
            Entry::Occupied { index: _, key } => self.shift_remove_entry(key),
            Entry::Vacant { hash: _, key: _ } => None,
        }
    }

    /// Builds a map from a sequence of records, oldest first: a repeated
    /// key keeps its first position and takes its last value.
    #[verifier::loop_isolation(false)]
    pub fn from_pairs(kvs: Vec<(u64, V)>) -> (r: IndexMap<V>)
        ensures
            r.wf(),
            r@ == crate::model::build_map(kvs@),
    {
        let ghost orig = kvs@;
        let mut kvs = kvs;
        let mut r = IndexMap::new();
        proof {
            assert(orig.take(0) =~= Seq::<(u64, V)>::empty());
        }
        while kvs.len() > 0
            invariant
                kvs@.len() <= orig.len(),
                r.wf(),
                kvs@ == orig.skip(orig.len() - kvs@.len()),
                r@ == crate::model::build_map(orig.take(orig.len() - kvs@.len())),
            decreases kvs@.len(),
        {
            let ghost n = orig.len() - kvs@.len();
            let (k, v) = kvs.remove(0);
            r.insert(k, v);
            proof {
                assert(orig.take(n + 1).drop_last() =~= orig.take(n));
                assert(orig.take(n + 1).last() == orig[n]);
                assert(orig[n] == (k, v));
                assert(kvs@ =~= orig.skip(orig.len() - kvs@.len()));
            }
        }
        proof {
            assert(orig.take(orig.len() as int) =~= orig);
        }
        r
    }
}

impl<V: Copy> IndexMap<V> {
    /// The records, in iteration order, collected into a vector.
    #[verifier::loop_isolation(false)]
    pub fn to_vec(&self) -> (r: Vec<(u64, V)>)
        ensures
            r@ == self@,
    {
        proof {
            self.lemma_view();
        }
        let mut out: Vec<(u64, V)> = Vec::with_capacity(self.entries.len());
        let mut i: usize = 0;
        while i < self.entries.len()
            invariant
                i <= self.entries@.len(),
                out@.len() == i,
                forall|j: int| 0 <= j < i ==> (#[trigger] out@[j]) == self@[j],
            decreases self.entries@.len() - i,
        {
            let b = &self.entries[i];
            out.push((b.key, b.value));
            i += 1;
        }
        proof {
            assert(out@ =~= self@);
        }
        out
    }
}

} // verus!
