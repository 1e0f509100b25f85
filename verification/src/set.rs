//! The set engine: a thin projection of the map engine with the value type
//! fixed to the unit value. Every set invariant reduces to the map's
//! synchronization invariant with values ignored.

use vstd::prelude::*;

use crate::map::IndexMap;
use crate::model::{
    build_set, keys_of, lemma_keys_has, lemma_keys_pos, lemma_pos_of, pos_of_key, seq_has_key,
    seq_pos_of, set_folded,
};

pub mod iter;

verus! {

/// A hashed set that preserves insertion order, built on the map engine.
pub struct IndexSet {
    map: IndexMap<()>,
}

impl View for IndexSet {
    type V = Seq<u64>;

    /// The elements, in iteration order.
    closed spec fn view(&self) -> Seq<u64> {
        keys_of(self.map@)
    }
}

impl IndexSet {
    /// The underlying map's synchronization invariant.
    pub closed spec fn wf(&self) -> bool {
        self.map.wf()
    }

    /// A well-formed set holds no element twice.
    pub proof fn lemma_wf_distinct(&self)
        requires
            self.wf(),
        ensures
            self@.no_duplicates(),
    {
        self.map.lemma_wf_distinct();
        assert forall|i: int, j: int|
            0 <= i < self@.len() && 0 <= j < self@.len() && i != j implies self@[i] != self@[j] by {
            if i < j {
                assert(self.map@[i].0 != self.map@[j].0);
            } else {
                assert(self.map@[j].0 != self.map@[i].0);
            }
        }
    }

    /// Membership in the view matches key presence in the underlying map.
    proof fn lemma_member(&self, k: u64)
        requires
            self.wf(),
        ensures
            self@.contains(k) <==> seq_has_key(self.map@, k),
            self@.contains(k) ==> pos_of_key(self@, k) == seq_pos_of(self.map@, k),
            self@.contains(k) ==> 0 <= pos_of_key(self@, k) < self@.len() && self@[pos_of_key(
                self@,
                k,
            )] == k,
    {
        self.map.lemma_wf_distinct();
        lemma_keys_has(self.map@, k);
        if seq_has_key(self.map@, k) {
            lemma_keys_pos(self.map@, k);
            lemma_pos_of(self.map@, k);
        }
    }

    /// Creates an empty set.
    pub fn new() -> (r: IndexSet)
        ensures
            r.wf(),
            r@ == Seq::<u64>::empty(),
    {
        let r = IndexSet { map: IndexMap::new() };
        proof {
            assert(r@ =~= Seq::<u64>::empty());
        }
        r
    }

    /// Creates an empty set with room reserved for the given number of
    /// elements.
    pub fn with_capacity(capacity: usize) -> (r: IndexSet)
        ensures
            r.wf(),
            r@ == Seq::<u64>::empty(),
    {
        let r = IndexSet { map: IndexMap::with_capacity(capacity) };
        proof {
            assert(r@ =~= Seq::<u64>::empty());
        }
        r
    }

    /// The number of elements.
    pub fn len(&self) -> (r: usize)
        ensures
            r == self@.len(),
    {
        self.map.len()
    }

    /// Whether the set is empty.
    pub fn is_empty(&self) -> (r: bool)
        ensures
            r == (self@.len() == 0),
    {
        self.map.is_empty()
    }

    /// Whether the set holds this element.
    pub fn contains(&self, key: u64) -> (r: bool)
        requires
            self.wf(),
        ensures
            r == self@.contains(key),
    {
        proof {
            self.lemma_member(key);
        }
        self.map.contains_key(key)
    }

    /// Inserts an element at the end, unless it is already present; returns
    /// whether it was new. A present element keeps its position.
    pub fn insert(&mut self, key: u64) -> (r: bool)
        requires
            old(self).wf(),
        ensures
            final(self).wf(),
            r == !old(self)@.contains(key),
            final(self)@ == set_folded(old(self)@, key),
    {
        proof {
            self.lemma_member(key);
            self.map.lemma_wf_distinct();
            if seq_has_key(self.map@, key) {
                lemma_pos_of(self.map@, key);
            }
        }
        let prev = self.map.insert(key, ());
        proof {
            if old(self)@.contains(key) {
                let p = seq_pos_of(old(self).map@, key);
                assert(old(self).map@[p] == (key, ()));
                assert(self.map@ =~= old(self).map@);
                assert(self@ =~= set_folded(old(self)@, key));
            } else {
                assert(self@ =~= old(self)@.push(key));
            }
        }
        prev.is_none()
    }

    /// The element's position, if it is present.
    pub fn get_index_of(&self, key: u64) -> (r: Option<usize>)
        requires
            self.wf(),
        ensures
            r == (if self@.contains(key) {
                Some(pos_of_key(self@, key) as usize)
            } else {
                None::<usize>
            }),
    {
        proof {
            self.lemma_member(key);
        }
        self.map.get_index_of(key)
    }

    /// The element at a position, or nothing when the position is out of
    /// range.
    pub fn get_index(&self, p: usize) -> (r: Option<u64>)
        ensures
            p < self@.len() ==> r == Some(self@[p as int]),
            p >= self@.len() ==> r == None::<u64>,
    {
        match self.map.get_index(p) {
            Some((k, _)) => Some(k),
            None => None,
        }
    }

    /// Swap-removes an element: the last element moves into the gap.
    /// Returns whether the element was present; an absent element leaves the
    /// set unchanged.
    pub fn swap_remove(&mut self, key: u64) -> (r: bool)
        requires
            old(self).wf(),
        ensures
            final(self).wf(),
            r == old(self)@.contains(key),
            !old(self)@.contains(key) ==> final(self)@ == old(self)@,
            old(self)@.contains(key) ==> final(self)@ == old(self)@.update(
                pos_of_key(old(self)@, key),
                old(self)@.last(),
            ).drop_last(),
    {
        proof {
            self.lemma_member(key);
        }
        let r = self.map.swap_remove(key);
        proof {
            if old(self)@.contains(key) {
                assert(self@ =~= old(self)@.update(
                    pos_of_key(old(self)@, key),
                    old(self)@.last(),
                ).drop_last());
            } else {
                assert(self@ =~= old(self)@);
            }
        }
        r.is_some()
    }

    /// Shift-removes an element: every later element shifts down one
    /// position, preserving order. Returns whether the element was present;
    /// an absent element leaves the set unchanged.
    pub fn shift_remove(&mut self, key: u64) -> (r: bool)
        requires
            old(self).wf(),
        ensures
            final(self).wf(),
            r == old(self)@.contains(key),
            !old(self)@.contains(key) ==> final(self)@ == old(self)@,
            old(self)@.contains(key) ==> final(self)@ == old(self)@.remove(
                pos_of_key(old(self)@, key),
            ),
    {
        proof {
            self.lemma_member(key);
        }
        let r = self.map.shift_remove(key);
        proof {
            if old(self)@.contains(key) {
                assert(self@ =~= old(self)@.remove(pos_of_key(old(self)@, key)));
            } else {
                assert(self@ =~= old(self)@);
            }
        }
        r.is_some()
    }

    /// Swap-removes the element at a position.
    pub fn swap_remove_index(&mut self, p: usize) -> (r: Option<u64>)
        requires
            old(self).wf(),
        ensures
            final(self).wf(),
            p >= old(self)@.len() ==> r == None::<u64> && final(self)@ == old(self)@,
            p < old(self)@.len() ==> r == Some(old(self)@[p as int]) && final(self)@ == old(
                self,
            )@.update(p as int, old(self)@.last()).drop_last(),
    {
        let r = self.map.swap_remove_index(p);
        proof {
            if p < old(self)@.len() {
                assert(self@ =~= old(self)@.update(p as int, old(self)@.last()).drop_last());
            } else {
                assert(self@ =~= old(self)@);
            }
        }
        match r {
            Some((k, _)) => Some(k),
            None => None,
        }
    }

    /// Shift-removes the element at a position.
    pub fn shift_remove_index(&mut self, p: usize) -> (r: Option<u64>)
        requires
            old(self).wf(),
        ensures
            final(self).wf(),
            p >= old(self)@.len() ==> r == None::<u64> && final(self)@ == old(self)@,
            p < old(self)@.len() ==> r == Some(old(self)@[p as int]) && final(self)@ == old(
                self,
            )@.remove(p as int),
    {
        let r = self.map.shift_remove_index(p);
        proof {
            if p < old(self)@.len() {
                assert(self@ =~= old(self)@.remove(p as int));
            } else {
                assert(self@ =~= old(self)@);
            }
        }
        match r {
            Some((k, _)) => Some(k),
            None => None,
        }
    }

    /// Removes the newest element.
    pub fn pop(&mut self) -> (r: Option<u64>)
        requires
            old(self).wf(),
        ensures
            final(self).wf(),
            old(self)@.len() == 0 ==> r == None::<u64> && final(self)@ == old(self)@,
            old(self)@.len() > 0 ==> r == Some(old(self)@.last()) && final(self)@ == old(
                self,
            )@.drop_last(),
    {
        let r = self.map.pop();
        proof {
            if old(self)@.len() > 0 {
                assert(self@ =~= old(self)@.drop_last());
            } else {
                assert(self@ =~= old(self)@);
            }
        }
        match r {
            Some((k, _)) => Some(k),
            None => None,
        }
    }

    /// Removes every element.
    pub fn clear(&mut self)
        ensures
            final(self).wf(),
            final(self)@ == Seq::<u64>::empty(),
    {
        self.map.clear();
        proof {
            assert(self@ =~= Seq::<u64>::empty());
        }
    }

    /// Drops every element from the given length on.
    pub fn truncate(&mut self, len: usize)
        requires
            old(self).wf(),
        ensures
            final(self).wf(),
            len <= old(self)@.len() ==> final(self)@ == old(self)@.take(len as int),
            len > old(self)@.len() ==> final(self)@ == old(self)@,
    {
        self.map.truncate(len);
        proof {
            if len <= old(self)@.len() {
                assert(self@ =~= old(self)@.take(len as int));
            } else {
                assert(self@ =~= old(self)@);
            }
        }
    }

    /// Reverses the order of the elements.
    pub fn reverse(&mut self)
        requires
            old(self).wf(),
        ensures
            final(self).wf(),
            final(self)@ == old(self)@.reverse(),
    {
        self.map.reverse();
        proof {
            assert(self@ =~= old(self)@.reverse());
        }
    }

    /// Swaps the elements at two positions.
    pub fn swap_indices(&mut self, a: usize, b: usize)
        requires
            old(self).wf(),
            a < old(self)@.len(),
            b < old(self)@.len(),
        ensures
            final(self).wf(),
            final(self)@ == old(self)@.update(a as int, old(self)@[b as int]).update(
                b as int,
                old(self)@[a as int],
            ),
    {
        self.map.swap_indices(a, b);
        proof {
            assert(self@ =~= old(self)@.update(a as int, old(self)@[b as int]).update(
                b as int,
                old(self)@[a as int],
            ));
        }
    }

    /// Partitions the set at a position: the elements from that position on
    /// move into a fresh set.
    pub fn split_off(&mut self, at: usize) -> (r: IndexSet)
        requires
            old(self).wf(),
            at <= old(self)@.len(),
        ensures
            final(self).wf(),
            r.wf(),
            final(self)@ == old(self)@.take(at as int),
            r@ == old(self)@.skip(at as int),
    {
        let tail = self.map.split_off(at);
        let r = IndexSet { map: tail };
        proof {
            assert(self@ =~= old(self)@.take(at as int));
            assert(r@ =~= old(self)@.skip(at as int));
        }
        r
    }

    /// The elements, in iteration order, collected into a vector.
    pub fn to_vec(&self) -> (r: Vec<u64>)
        ensures
            r@ == self@,
    {
        self.map.keys()
    }

    /// An iterator over the elements, on a snapshot of the current order.
    pub fn iter(&self) -> (r: iter::Iter)
        ensures
            r.wf(),
            r.remaining() == self@,
    {
        iter::Iter::new(self.to_vec())
    }

    /// The stored element equal to this key, if it is present.
    pub fn get(&self, key: u64) -> (r: Option<u64>)
        requires
            self.wf(),
        ensures
            r == (if self@.contains(key) {
                Some(key)
            } else {
                None::<u64>
            }),
    {
        if self.contains(key) {
            Some(key)
        } else {
            None
        }
    }

    /// Removes the position range from `start` up to `end`, yielding the
    /// removed elements: a splice with nothing spliced in.
    pub fn drain(&mut self, start: usize, end: usize) -> (r: iter::Splice)
        requires
            old(self).wf(),
            start <= end <= old(self)@.len(),
        ensures
            final(self).wf(),
            r.wf(),
            final(self)@ == old(self)@.subrange(0, start as int) + old(self)@.subrange(
                end as int,
                old(self)@.len() as int,
            ),
            r.remaining() == old(self)@.subrange(start as int, end as int),
    {
        let nothing: Vec<u64> = Vec::new();
        let r = iter::Splice::new(self, start, end, &nothing);
        proof {
            let prefix = old(self)@.subrange(0, start as int);
            let suffix = old(self)@.subrange(end as int, old(self)@.len() as int);
            assert(iter::fold_absent(prefix.to_set().union(suffix.to_set()), nothing@)
                =~= Seq::<u64>::empty());
            assert(self@ =~= prefix + suffix);
        }
        r
    }

    /// Sorts the elements ascending, rebuilding every index slot pair by
    /// pair.
    pub fn sort(&mut self)
        requires
            old(self).wf(),
        ensures
            final(self).wf(),
            final(self)@.len() == old(self)@.len(),
            forall|p: int, q: int|
                0 <= p < q < final(self)@.len() ==> (#[trigger] final(self)@[p]) <= (
                #[trigger] final(self)@[q]),
            forall|x: u64| #[trigger] final(self)@.contains(x) <==> old(self)@.contains(x),
    {
        self.map.sort_keys();
        proof {
            assert forall|p: int, q: int|
                0 <= p < q < self@.len() implies (#[trigger] self@[p]) <= (
            #[trigger] self@[q]) by {
                assert(self.map@[p].0 <= self.map@[q].0);
            }
            assert forall|x: u64| #[trigger] self@.contains(x) implies old(self)@.contains(x) by {
                let i = choose|i: int| 0 <= i < self@.len() && self@[i] == x;
                let pr = self.map@[i];
                assert(pr.0 == x);
                assert(self.map@.contains(pr));
                assert(old(self).map@.contains(pr));
                let j = choose|j: int| 0 <= j < old(self).map@.len() && old(self).map@[j] == pr;
                assert(old(self)@[j] == x);
            }
            assert forall|x: u64| old(self)@.contains(x) implies #[trigger] self@.contains(x) by {
                let i = choose|i: int| 0 <= i < old(self)@.len() && old(self)@[i] == x;
                let pr = old(self).map@[i];
                assert(pr.0 == x);
                assert(old(self).map@.contains(pr));
                assert(self.map@.contains(pr));
                let j = choose|j: int| 0 <= j < self.map@.len() && self.map@[j] == pr;
                assert(self@[j] == x);
            }
        }
    }

    /// The lazy sequence of elements of this set that the other does not
    /// hold.
    pub fn difference<'a>(&self, other: &'a IndexSet) -> (r: iter::Difference<'a>)
        requires
            self.wf(),
            other.wf(),
        ensures
            r.wf(),
            r.remaining() == iter::seq_diff(self@, other@),
    {
        iter::Difference::new(self, other)
    }

    /// The lazy sequence of elements of this set that the other also holds.
    pub fn intersection<'a>(&self, other: &'a IndexSet) -> (r: iter::Intersection<'a>)
        requires
            self.wf(),
            other.wf(),
        ensures
            r.wf(),
            r.remaining() == iter::seq_inter(self@, other@),
    {
        iter::Intersection::new(self, other)
    }

    /// The lazy union: all of this set, then the other's surplus, each in
    /// its own order, every element exactly once.
    pub fn union<'a>(&'a self, other: &'a IndexSet) -> (r: iter::Union<'a>)
        requires
            self.wf(),
            other.wf(),
        ensures
            r.wf(),
            r.remaining() == iter::seq_union(self@, other@),
    {
        iter::Union::new(self, other)
    }

    /// The lazy symmetric difference: this set's surplus, then the other's.
    pub fn symmetric_difference<'a>(&'a self, other: &'a IndexSet) -> (r:
        iter::SymmetricDifference<'a>)
        requires
            self.wf(),
            other.wf(),
        ensures
            r.wf(),
            r.remaining() == iter::seq_sym_diff(self@, other@),
    {
        iter::SymmetricDifference::new(self, other)
    }

    /// Replaces the position range from `start` up to `end` with the given
    /// elements, folding duplicates, and returns an iterator over the
    /// removed range.
    pub fn splice(&mut self, start: usize, end: usize, replace_with: &Vec<u64>) -> (r:
        iter::Splice)
        requires
            old(self).wf(),
            start <= end <= old(self)@.len(),
        ensures
            final(self).wf(),
            r.wf(),
            final(self)@ == iter::spliced(old(self)@, start as int, end as int, replace_with@),
            r.remaining() == old(self)@.subrange(start as int, end as int),
    {
        iter::Splice::new(self, start, end, replace_with)
    }

    /// Builds a set from a sequence of keys: first occurrence keeps its
    /// place, duplicates collapse.
    #[verifier::loop_isolation(false)]
    pub fn from_keys(ks: &Vec<u64>) -> (r: IndexSet)
        ensures
            r.wf(),
            r@ == build_set(ks@),
    {
        let mut r = IndexSet::new();
        let mut i: usize = 0;
        while i < ks.len()
            invariant
                i <= ks@.len(),
                r.wf(),
                r@ == build_set(ks@.take(i as int)),
            decreases ks@.len() - i,
        {
            let k = ks[i];
            r.insert(k);
            proof {
                assert(ks@.take(i + 1).drop_last() =~= ks@.take(i as int));
                assert(ks@.take(i + 1).last() == k);
                assert(r@ =~= build_set(ks@.take(i + 1)));
            }
            i += 1;
        }
        proof {
            assert(ks@.take(ks@.len() as int) =~= ks@);
        }
        r
    }
}

impl Default for IndexSet {
    /// An empty set.
    fn default() -> (r: IndexSet)
        ensures
            r.wf(),
            r@ == Seq::<u64>::empty(),
    {
        IndexSet::new()
    }
}

} // verus!
