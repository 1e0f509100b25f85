//! Iteration and set algebra over the set engine: double-ended, fused,
//! pull-based adapters for plain iteration and for lazy difference,
//! intersection, union, symmetric difference and range splicing.

use vstd::prelude::*;

use crate::set::IndexSet;

verus! {

/// The elements of `a` that `b` does not hold, in `a`'s order.
pub open spec fn seq_diff(a: Seq<u64>, b: Seq<u64>) -> Seq<u64>
    decreases a.len(),
{
    if a.len() == 0 {
        Seq::empty()
    } else if b.contains(a.first()) {
        seq_diff(a.drop_first(), b)
    } else {
        seq![a.first()] + seq_diff(a.drop_first(), b)
    }
}

/// The elements of `a` that `b` also holds, in `a`'s order.
pub open spec fn seq_inter(a: Seq<u64>, b: Seq<u64>) -> Seq<u64>
    decreases a.len(),
{
    if a.len() == 0 {
        Seq::empty()
    } else if b.contains(a.first()) {
        seq![a.first()] + seq_inter(a.drop_first(), b)
    } else {
        seq_inter(a.drop_first(), b)
    }
}

/// The union: all of `a`, then the elements of `b` that `a` does not hold,
/// each in its own set's order.
pub open spec fn seq_union(a: Seq<u64>, b: Seq<u64>) -> Seq<u64> {
    a + seq_diff(b, a)
}

/// The symmetric difference: the elements of exactly one of the two sets,
/// `a`'s first.
pub open spec fn seq_sym_diff(a: Seq<u64>, b: Seq<u64>) -> Seq<u64> {
    seq_diff(a, b) + seq_diff(b, a)
}

/// What the difference holds: membership, freedom from duplicates, and the
/// partition of `a`'s length between difference and intersection.
pub proof fn lemma_diff_props(a: Seq<u64>, b: Seq<u64>)
    ensures
        forall|x: u64| #[trigger] seq_diff(a, b).contains(x) <==> a.contains(x) && !b.contains(x),
        a.no_duplicates() ==> seq_diff(a, b).no_duplicates(),
        seq_diff(a, b).len() + seq_inter(a, b).len() == a.len(),
    decreases a.len(),
{
    if a.len() == 0 {
        assert forall|x: u64| #[trigger] seq_diff(a, b).contains(x) implies false by {}
        assert forall|x: u64| a.contains(x) implies false by {}
    } else {
        let f = a.first();
        let rest = a.drop_first();
        lemma_diff_props(rest, b);
        assert forall|x: u64| #[trigger] a.contains(x) implies x == f || rest.contains(x) by {
            let i = choose|i: int| 0 <= i < a.len() && a[i] == x;
            if i > 0 {
                assert(rest[i - 1] == x);
            }
        }
        assert forall|x: u64| x == f || rest.contains(x) implies a.contains(x) by {
            if x == f {
                assert(a[0] == x);
            } else {
                let i = choose|i: int| 0 <= i < rest.len() && rest[i] == x;
                assert(a[i + 1] == x);
            }
        }
        if b.contains(f) {
            assert forall|x: u64| #[trigger] seq_diff(a, b).contains(x) implies a.contains(x)
                && !b.contains(x) by {}
            assert forall|x: u64| a.contains(x) && !b.contains(x) implies seq_diff(a, b).contains(
                x,
            ) by {
                assert(x != f);
            }
        } else {
            let d = seq![f] + seq_diff(rest, b);
            assert(seq_diff(a, b) == d);
            assert forall|x: u64| #[trigger] d.contains(x) implies a.contains(x) && !b.contains(
                x,
            ) by {
                let i = choose|i: int| 0 <= i < d.len() && d[i] == x;
                if i == 0 {
                    assert(x == f);
                } else {
                    assert(seq_diff(rest, b)[i - 1] == x);
                    assert(seq_diff(rest, b).contains(x));
                }
            }
            assert forall|x: u64| a.contains(x) && !b.contains(x) implies #[trigger] d.contains(
                x,
            ) by {
                if x == f {
                    assert(d[0] == x);
                } else {
                    assert(seq_diff(rest, b).contains(x));
                    let i = choose|i: int| 0 <= i < seq_diff(rest, b).len() && seq_diff(rest, b)[i]
                        == x;
                    assert(d[i + 1] == x);
                }
            }
            if a.no_duplicates() {
                assert(rest.no_duplicates()) by {
                    assert forall|i: int, j: int|
                        0 <= i < rest.len() && 0 <= j < rest.len() && i != j implies rest[i]
                        != rest[j] by {
                        assert(a[i + 1] != a[j + 1]);
                    }
                }
                assert(!rest.contains(f)) by {
                    if rest.contains(f) {
                        let i = choose|i: int| 0 <= i < rest.len() && rest[i] == f;
                        assert(a[i + 1] == a[0]);
                    }
                }
                assert(d.no_duplicates()) by {
                    assert forall|i: int, j: int|
                        0 <= i < d.len() && 0 <= j < d.len() && i != j implies d[i] != d[j] by {
                        if i == 0 {
                            assert(seq_diff(rest, b)[j - 1] == d[j]);
                            assert(seq_diff(rest, b).contains(d[j]));
                        } else if j == 0 {
                            assert(seq_diff(rest, b)[i - 1] == d[i]);
                            assert(seq_diff(rest, b).contains(d[i]));
                        } else {
                            assert(seq_diff(rest, b)[i - 1] == d[i]);
                            assert(seq_diff(rest, b)[j - 1] == d[j]);
                        }
                    }
                }
            }
        }
    }
}

/// What the intersection holds: membership and freedom from duplicates.
pub proof fn lemma_inter_props(a: Seq<u64>, b: Seq<u64>)
    ensures
        forall|x: u64| #[trigger] seq_inter(a, b).contains(x) <==> a.contains(x) && b.contains(x),
        a.no_duplicates() ==> seq_inter(a, b).no_duplicates(),
    decreases a.len(),
{
    if a.len() == 0 {
        assert forall|x: u64| #[trigger] seq_inter(a, b).contains(x) implies false by {}
        assert forall|x: u64| a.contains(x) implies false by {}
    } else {
        let f = a.first();
        let rest = a.drop_first();
        lemma_inter_props(rest, b);
        assert forall|x: u64| #[trigger] a.contains(x) implies x == f || rest.contains(x) by {
            let i = choose|i: int| 0 <= i < a.len() && a[i] == x;
            if i > 0 {
                assert(rest[i - 1] == x);
            }
        }
        assert forall|x: u64| x == f || rest.contains(x) implies a.contains(x) by {
            if x == f {
                assert(a[0] == x);
            } else {
                let i = choose|i: int| 0 <= i < rest.len() && rest[i] == x;
                assert(a[i + 1] == x);
            }
        }
        if !b.contains(f) {
            assert forall|x: u64| #[trigger] seq_inter(a, b).contains(x) implies a.contains(x)
                && b.contains(x) by {
                assert(seq_inter(rest, b).contains(x));
            }
            assert forall|x: u64| a.contains(x) && b.contains(x) implies seq_inter(a, b).contains(
                x,
            ) by {
                assert(x != f);
                assert(rest.contains(x));
                assert(seq_inter(rest, b).contains(x));
            }
        } else {
            let d = seq![f] + seq_inter(rest, b);
            assert(seq_inter(a, b) == d);
            assert forall|x: u64| #[trigger] d.contains(x) implies a.contains(x) && b.contains(
                x,
            ) by {
                let i = choose|i: int| 0 <= i < d.len() && d[i] == x;
                if i == 0 {
                    assert(x == f);
                } else {
                    assert(seq_inter(rest, b)[i - 1] == x);
                    assert(seq_inter(rest, b).contains(x));
                }
            }
            assert forall|x: u64| a.contains(x) && b.contains(x) implies #[trigger] d.contains(
                x,
            ) by {
                if x == f {
                    assert(d[0] == x);
                } else {
                    assert(seq_inter(rest, b).contains(x));
                    let i = choose|i: int| 0 <= i < seq_inter(rest, b).len() && seq_inter(
                        rest,
                        b,
                    )[i] == x;
                    assert(d[i + 1] == x);
                }
            }
            if a.no_duplicates() {
                assert(rest.no_duplicates()) by {
                    assert forall|i: int, j: int|
                        0 <= i < rest.len() && 0 <= j < rest.len() && i != j implies rest[i]
                        != rest[j] by {
                        assert(a[i + 1] != a[j + 1]);
                    }
                }
                assert(!rest.contains(f)) by {
                    if rest.contains(f) {
                        let i = choose|i: int| 0 <= i < rest.len() && rest[i] == f;
                        assert(a[i + 1] == a[0]);
                    }
                }
                assert(d.no_duplicates()) by {
                    assert forall|i: int, j: int|
                        0 <= i < d.len() && 0 <= j < d.len() && i != j implies d[i] != d[j] by {
                        if i == 0 {
                            assert(seq_inter(rest, b)[j - 1] == d[j]);
                            assert(seq_inter(rest, b).contains(d[j]));
                        } else if j == 0 {
                            assert(seq_inter(rest, b)[i - 1] == d[i]);
                            assert(seq_inter(rest, b).contains(d[i]));
                        } else {
                            assert(seq_inter(rest, b)[i - 1] == d[i]);
                            assert(seq_inter(rest, b)[j - 1] == d[j]);
                        }
                    }
                }
            }
        }
    }
}

/// Unfolding a difference from the back, for backward iteration.
pub proof fn lemma_diff_last(a: Seq<u64>, b: Seq<u64>)
    requires
        a.len() > 0,
    ensures
        seq_diff(a, b) == (if b.contains(a.last()) {
            seq_diff(a.drop_last(), b)
        } else {
            seq_diff(a.drop_last(), b).push(a.last())
        }),
    decreases a.len(),
{
    reveal_with_fuel(seq_diff, 3);
    let f = a.first();
    let rest = a.drop_first();
    if a.len() == 1 {
        assert(a.drop_last() =~= Seq::empty());
        if !b.contains(f) {
            assert(seq_diff(a, b) =~= seq_diff(a.drop_last(), b).push(a.last()));
        }
    } else {
        lemma_diff_last(rest, b);
        assert(rest.last() == a.last());
        assert(a.drop_last().first() == f);
        assert(a.drop_last().drop_first() =~= rest.drop_last());
        if b.contains(a.last()) {
            if b.contains(f) {
            } else {
                assert(seq_diff(a, b) =~= seq![f] + seq_diff(rest.drop_last(), b));
            }
        } else {
            if b.contains(f) {
            } else {
                assert((seq![f] + seq_diff(rest.drop_last(), b)).push(a.last()) =~= seq![f] + (
                seq_diff(rest.drop_last(), b).push(a.last())));
            }
        }
    }
}

/// Unfolding an intersection from the back, for backward iteration.
pub proof fn lemma_inter_last(a: Seq<u64>, b: Seq<u64>)
    requires
        a.len() > 0,
    ensures
        seq_inter(a, b) == (if b.contains(a.last()) {
            seq_inter(a.drop_last(), b).push(a.last())
        } else {
            seq_inter(a.drop_last(), b)
        }),
    decreases a.len(),
{
    reveal_with_fuel(seq_inter, 3);
    let f = a.first();
    let rest = a.drop_first();
    if a.len() == 1 {
        assert(a.drop_last() =~= Seq::empty());
        if b.contains(f) {
            assert(seq_inter(a, b) =~= seq_inter(a.drop_last(), b).push(a.last()));
        }
    } else {
        lemma_inter_last(rest, b);
        assert(rest.last() == a.last());
        assert(a.drop_last().first() == f);
        assert(a.drop_last().drop_first() =~= rest.drop_last());
        if b.contains(a.last()) {
            if b.contains(f) {
                assert((seq![f] + seq_inter(rest.drop_last(), b)).push(a.last()) =~= seq![f] + (
                seq_inter(rest.drop_last(), b).push(a.last())));
            }
        } else {
            if b.contains(f) {
                assert(seq_inter(a, b) =~= seq![f] + seq_inter(rest.drop_last(), b));
            }
        }
    }
}

/// An iterator over the elements of a set, on a snapshot taken when it was
/// created: double-ended, exact-sized and fused.
#[derive(Clone)]
pub struct Iter {
    keys: Vec<u64>,
    front: usize,
    back: usize,
}

impl Iter {
    /// The cursors stand inside the snapshot, front at or before back.
    pub closed spec fn wf(&self) -> bool {
        self.front <= self.back <= self.keys@.len()
    }

    /// The elements not yet yielded, in order.
    pub closed spec fn remaining(&self) -> Seq<u64> {
        self.keys@.subrange(self.front as int, self.back as int)
    }

    /// Creates an iterator over a snapshot of elements.
    pub fn new(keys: Vec<u64>) -> (r: Iter)
        ensures
            r.wf(),
            r.remaining() == keys@,
    {
        let back = keys.len();
        let r = Iter { keys, front: 0, back };
        proof {
            assert(r.remaining() =~= r.keys@);
        }
        r
    }

    /// The next element from the front; the iterator is fused.
    pub fn next(&mut self) -> (r: Option<u64>)
        requires
            old(self).wf(),
        ensures
            final(self).wf(),
            old(self).remaining().len() == 0 ==> r == None::<u64> && final(self).remaining()
                == old(self).remaining(),
            old(self).remaining().len() > 0 ==> r == Some(old(self).remaining().first()) && final(self).remaining() == old(self).remaining().drop_first(),
    {
        if self.front < self.back {
            let k = self.keys[self.front];
            self.front = self.front + 1;
            proof {
                assert(self.remaining() =~= old(self).remaining().drop_first());
            }
            Some(k)
        } else {
            None
        }
    }

    /// The next element from the back; the iterator is fused.
    pub fn next_back(&mut self) -> (r: Option<u64>)
        requires
            old(self).wf(),
        ensures
            final(self).wf(),
            old(self).remaining().len() == 0 ==> r == None::<u64> && final(self).remaining()
                == old(self).remaining(),
            old(self).remaining().len() > 0 ==> r == Some(old(self).remaining().last()) && final(self).remaining() == old(self).remaining().drop_last(),
    {
        if self.front < self.back {
            let k = self.keys[self.back - 1];
            self.back = self.back - 1;
            proof {
                assert(self.remaining() =~= old(self).remaining().drop_last());
            }
            Some(k)
        } else {
            None
        }
    }

    /// The exact number of elements still to be yielded.
    pub fn len(&self) -> (r: usize)
        requires
            self.wf(),
        ensures
            r == self.remaining().len(),
    {
        self.back - self.front
    }

    /// The elements still to be yielded, as a vector.
    #[verifier::loop_isolation(false)]
    pub fn as_slice(&self) -> (r: Vec<u64>)
        requires
            self.wf(),
        ensures
            r@ == self.remaining(),
    {
        let mut out: Vec<u64> = Vec::new();
        let mut i: usize = self.front;
        while i < self.back
            invariant
                self.front <= i <= self.back,
                out@ == self.keys@.subrange(self.front as int, i as int),
            decreases self.back - i,
        {
            let k = self.keys[i];
            out.push(k);
            proof {
                assert(out@ =~= self.keys@.subrange(self.front as int, i + 1));
            }
            i += 1;
        }
        out
    }
}

impl Default for Iter {
    /// An iterator over nothing.
    fn default() -> (r: Iter)
        ensures
            r.wf(),
            r.remaining() == Seq::<u64>::empty(),
    {
        Iter::new(Vec::new())
    }
}

/// A lazy iterator over the elements of one set that a second set does not
/// hold, double-ended and fused.
#[derive(Clone)]
pub struct Difference<'a> {
    iter: Iter,
    other: &'a IndexSet,
}

impl<'a> Difference<'a> {
    /// The source iterator and the filtering set are both well formed.
    pub closed spec fn wf(&self) -> bool {
        self.iter.wf() && self.other.wf()
    }

    /// The elements still to be yielded, in order.
    pub closed spec fn remaining(&self) -> Seq<u64> {
        seq_diff(self.iter.remaining(), self.other@)
    }

    /// How many elements the source window still holds.
    pub closed spec fn source_len(&self) -> nat {
        self.iter.remaining().len()
    }

    /// Creates the lazy difference of two sets.
    pub fn new(set: &IndexSet, other: &'a IndexSet) -> (r: Difference<'a>)
        requires
            set.wf(),
            other.wf(),
        ensures
            r.wf(),
            r.remaining() == seq_diff(set@, other@),
    {
        Difference { iter: set.iter(), other }
    }

    /// The next element from the front: the first element of the source not
    /// held by the filtering set.
    #[verifier::loop_isolation(false)]
    pub fn next(&mut self) -> (r: Option<u64>)
        requires
            old(self).wf(),
        ensures
            final(self).wf(),
            old(self).remaining().len() == 0 ==> r == None::<u64> && final(self).remaining()
                == old(self).remaining(),
            old(self).remaining().len() > 0 ==> r == Some(old(self).remaining().first()) && final(self).remaining() == old(self).remaining().drop_first(),
    {
        loop
            invariant
                self.iter.wf(),
                self.other == old(self).other,
                seq_diff(self.iter.remaining(), self.other@) == old(self).remaining(),
            decreases self.iter.remaining().len(),
        {
            let ghost win = self.iter.remaining();
            match self.iter.next() {
                None => {
                    return None;
                },
                Some(k) => {
                    if !self.other.contains(k) {
                        proof {
                            assert(win == seq![k] + seq_diff(win.drop_first(), self.other@)
                                || seq_diff(win, self.other@) == seq![k] + seq_diff(
                                win.drop_first(),
                                self.other@,
                            ));
                            assert((seq![k] + seq_diff(win.drop_first(), self.other@)).first()
                                == k);
                            assert((seq![k] + seq_diff(win.drop_first(), self.other@)).drop_first()
                                =~= seq_diff(win.drop_first(), self.other@));
                        }
                        return Some(k);
                    }
                },
            }
        }
    }

    /// The next element from the back: the same filter applied from the
    /// other end.
    #[verifier::loop_isolation(false)]
    pub fn next_back(&mut self) -> (r: Option<u64>)
        requires
            old(self).wf(),
        ensures
            final(self).wf(),
            old(self).remaining().len() == 0 ==> r == None::<u64> && final(self).remaining()
                == old(self).remaining(),
            old(self).remaining().len() > 0 ==> r == Some(old(self).remaining().last()) && final(self).remaining() == old(self).remaining().drop_last(),
    {
        loop
            invariant
                self.iter.wf(),
                self.other == old(self).other,
                seq_diff(self.iter.remaining(), self.other@) == old(self).remaining(),
            decreases self.iter.remaining().len(),
        {
            let ghost win = self.iter.remaining();
            proof {
                if win.len() > 0 {
                    lemma_diff_last(win, self.other@);
                }
            }
            match self.iter.next_back() {
                None => {
                    return None;
                },
                Some(k) => {
                    if !self.other.contains(k) {
                        return Some(k);
                    }
                },
            }
        }
    }

    /// The documented size hint: no lower bound, the source's remaining
    /// count as upper bound.
    pub fn size_hint(&self) -> (r: (usize, Option<usize>))
        requires
            self.wf(),
        ensures
            r.0 == 0,
            r.1 == Some(self.source_len() as usize),
    {
        (0, Some(self.iter.len()))
    }
}

/// A lazy iterator over the elements of one set that a second set also
/// holds, double-ended and fused.
#[derive(Clone)]
pub struct Intersection<'a> {
    iter: Iter,
    other: &'a IndexSet,
}

impl<'a> Intersection<'a> {
    /// The source iterator and the filtering set are both well formed.
    pub closed spec fn wf(&self) -> bool {
        self.iter.wf() && self.other.wf()
    }

    /// The elements still to be yielded, in order.
    pub closed spec fn remaining(&self) -> Seq<u64> {
        seq_inter(self.iter.remaining(), self.other@)
    }

    /// How many elements the source window still holds.
    pub closed spec fn source_len(&self) -> nat {
        self.iter.remaining().len()
    }

    /// Creates the lazy intersection of two sets.
    pub fn new(set: &IndexSet, other: &'a IndexSet) -> (r: Intersection<'a>)
        requires
            set.wf(),
            other.wf(),
        ensures
            r.wf(),
            r.remaining() == seq_inter(set@, other@),
    {
        Intersection { iter: set.iter(), other }
    }

    /// The next element from the front: the first element of the source
    /// that the second set also holds.
    #[verifier::loop_isolation(false)]
    pub fn next(&mut self) -> (r: Option<u64>)
        requires
            old(self).wf(),
        ensures
            final(self).wf(),
            old(self).remaining().len() == 0 ==> r == None::<u64> && final(self).remaining()
                == old(self).remaining(),
            old(self).remaining().len() > 0 ==> r == Some(old(self).remaining().first()) && final(self).remaining() == old(self).remaining().drop_first(),
    {
        loop
            invariant
                self.iter.wf(),
                self.other == old(self).other,
                seq_inter(self.iter.remaining(), self.other@) == old(self).remaining(),
            decreases self.iter.remaining().len(),
        {
            let ghost win = self.iter.remaining();
            match self.iter.next() {
                None => {
                    return None;
                },
                Some(k) => {
                    if self.other.contains(k) {
                        proof {
                            assert((seq![k] + seq_inter(win.drop_first(), self.other@)).first()
                                == k);
                            assert((seq![k] + seq_inter(win.drop_first(), self.other@)).drop_first()
                                =~= seq_inter(win.drop_first(), self.other@));
                        }
                        return Some(k);
                    }
                },
            }
        }
    }

    /// The next element from the back: the same filter applied from the
    /// other end.
    #[verifier::loop_isolation(false)]
    pub fn next_back(&mut self) -> (r: Option<u64>)
        requires
            old(self).wf(),
        ensures
            final(self).wf(),
            old(self).remaining().len() == 0 ==> r == None::<u64> && final(self).remaining()
                == old(self).remaining(),
            old(self).remaining().len() > 0 ==> r == Some(old(self).remaining().last()) && final(self).remaining() == old(self).remaining().drop_last(),
    {
        loop
            invariant
                self.iter.wf(),
                self.other == old(self).other,
                seq_inter(self.iter.remaining(), self.other@) == old(self).remaining(),
            decreases self.iter.remaining().len(),
        {
            let ghost win = self.iter.remaining();
            proof {
                if win.len() > 0 {
                    lemma_inter_last(win, self.other@);
                }
            }
            match self.iter.next_back() {
                None => {
                    return None;
                },
                Some(k) => {
                    if self.other.contains(k) {
                        return Some(k);
                    }
                },
            }
        }
    }

    /// The documented size hint: no lower bound, the source's remaining
    /// count as upper bound.
    pub fn size_hint(&self) -> (r: (usize, Option<usize>))
        requires
            self.wf(),
        ensures
            r.0 == 0,
            r.1 == Some(self.source_len() as usize),
    {
        (0, Some(self.iter.len()))
    }
}

/// A lazy iterator over the union of two sets: all of the first set, then
/// the elements of the second not held by the first, double-ended and fused.
#[derive(Clone)]
pub struct Union<'a> {
    front: Iter,
    back: Difference<'a>,
}

impl<'a> Union<'a> {
    /// Both halves of the chain are well formed.
    pub closed spec fn wf(&self) -> bool {
        self.front.wf() && self.back.wf()
    }

    /// The elements still to be yielded, in order.
    pub closed spec fn remaining(&self) -> Seq<u64> {
        self.front.remaining() + self.back.remaining()
    }

    /// Creates the lazy union of two sets.
    pub fn new(set1: &'a IndexSet, set2: &'a IndexSet) -> (r: Union<'a>)
        requires
            set1.wf(),
            set2.wf(),
        ensures
            r.wf(),
            r.remaining() == seq_union(set1@, set2@),
    {
        Union { front: set1.iter(), back: Difference::new(set2, set1) }
    }

    /// The next element from the front: the first set is exhausted before
    /// any element of the second appears.
    pub fn next(&mut self) -> (r: Option<u64>)
        requires
            old(self).wf(),
        ensures
            final(self).wf(),
            old(self).remaining().len() == 0 ==> r == None::<u64> && final(self).remaining()
                == old(self).remaining(),
            old(self).remaining().len() > 0 ==> r == Some(old(self).remaining().first())
                && final(self).remaining() == old(self).remaining().drop_first(),
    {
        let ghost f0 = self.front.remaining();
        let ghost b0 = self.back.remaining();
        match self.front.next() {
            Some(k) => {
                proof {
                    assert((f0 + b0).first() == k);
                    assert((f0 + b0).drop_first() =~= f0.drop_first() + b0);
                }
                Some(k)
            },
            None => {
                proof {
                    assert(f0 + b0 =~= b0);
                }
                let r = self.back.next();
                proof {
                    assert(self.front.remaining() + self.back.remaining()
                        =~= self.back.remaining());
                }
                r
            },
        }
    }

    /// The lower bound of what remains: the first set's share.
    pub closed spec fn bound_lower(&self) -> nat {
        self.front.remaining().len()
    }

    /// The upper bound of what remains: the first set's share plus the
    /// second set's whole window.
    pub closed spec fn bound_upper(&self) -> nat {
        self.front.remaining().len() + self.back.source_len()
    }

    /// The documented size hint: at least the first set's remaining count,
    /// at most that plus everything the second set might add.
    pub fn size_hint(&self) -> (r: (usize, Option<usize>))
        requires
            self.wf(),
        ensures
            r.0 == self.bound_lower(),
            r.1 matches Some(u) ==> u == self.bound_upper(),
            r.1 is None ==> self.bound_upper() > usize::MAX,
    {
        let lo = self.front.len();
        let (_, upper) = self.back.size_hint();
        match upper {
            Some(u) => {
                if lo <= usize::MAX - u {
                    (lo, Some(lo + u))
                } else {
                    (lo, None)
                }
            },
            None => (lo, None),
        }
    }

    /// The next element from the back: the second set's surplus drains
    /// before the first set is touched.
    pub fn next_back(&mut self) -> (r: Option<u64>)
        requires
            old(self).wf(),
        ensures
            final(self).wf(),
            old(self).remaining().len() == 0 ==> r == None::<u64> && final(self).remaining()
                == old(self).remaining(),
            old(self).remaining().len() > 0 ==> r == Some(old(self).remaining().last())
                && final(self).remaining() == old(self).remaining().drop_last(),
    {
        let ghost f0 = self.front.remaining();
        let ghost b0 = self.back.remaining();
        let back_r = self.back.next_back();
        match back_r {
            Some(k) => {
                proof {
                    assert((f0 + b0).last() == k);
                    assert((f0 + b0).drop_last() =~= f0 + b0.drop_last());
                }
                Some(k)
            },
            None => {
                proof {
                    assert(f0 + b0 =~= f0);
                }
                let r = self.front.next_back();
                proof {
                    assert(self.front.remaining() + self.back.remaining()
                        =~= self.front.remaining());
                }
                r
            },
        }
    }
}

/// A lazy iterator over the symmetric difference of two sets: the elements
/// of the first not in the second, then those of the second not in the
/// first, double-ended and fused.
#[derive(Clone)]
pub struct SymmetricDifference<'a> {
    front: Difference<'a>,
    back: Difference<'a>,
}

impl<'a> SymmetricDifference<'a> {
    /// Both chained differences are well formed.
    pub closed spec fn wf(&self) -> bool {
        self.front.wf() && self.back.wf()
    }

    /// The elements still to be yielded, in order.
    pub closed spec fn remaining(&self) -> Seq<u64> {
        self.front.remaining() + self.back.remaining()
    }

    /// Creates the lazy symmetric difference of two sets.
    pub fn new(set1: &'a IndexSet, set2: &'a IndexSet) -> (r: SymmetricDifference<'a>)
        requires
            set1.wf(),
            set2.wf(),
        ensures
            r.wf(),
            r.remaining() == seq_sym_diff(set1@, set2@),
    {
        SymmetricDifference { front: Difference::new(set1, set2), back: Difference::new(
            set2,
            set1,
        ) }
    }

    /// The next element from the front.
    pub fn next(&mut self) -> (r: Option<u64>)
        requires
            old(self).wf(),
        ensures
            final(self).wf(),
            old(self).remaining().len() == 0 ==> r == None::<u64> && final(self).remaining()
                == old(self).remaining(),
            old(self).remaining().len() > 0 ==> r == Some(old(self).remaining().first())
                && final(self).remaining() == old(self).remaining().drop_first(),
    {
        let ghost f0 = self.front.remaining();
        let ghost b0 = self.back.remaining();
        match self.front.next() {
            Some(k) => {
                proof {
                    assert((f0 + b0).first() == k);
                    assert((f0 + b0).drop_first() =~= f0.drop_first() + b0);
                }
                Some(k)
            },
            None => {
                proof {
                    assert(f0 + b0 =~= b0);
                }
                let r = self.back.next();
                proof {
                    assert(self.front.remaining() + self.back.remaining()
                        =~= self.back.remaining());
                }
                r
            },
        }
    }

    /// The upper bound of what remains: both source windows together.
    pub closed spec fn bound_upper(&self) -> nat {
        self.front.source_len() + self.back.source_len()
    }

    /// The documented size hint: no lower bound, both source windows as
    /// upper bound.
    pub fn size_hint(&self) -> (r: (usize, Option<usize>))
        requires
            self.wf(),
        ensures
            r.0 == 0,
            r.1 matches Some(u) ==> u == self.bound_upper(),
            r.1 is None ==> self.bound_upper() > usize::MAX,
    {
        let (_, ua) = self.front.size_hint();
        let (_, ub) = self.back.size_hint();
        match (ua, ub) {
            (Some(a), Some(b)) => {
                if a <= usize::MAX - b {
                    (0, Some(a + b))
                } else {
                    (0, None)
                }
            },
            _ => (0, None),
        }
    }

    /// The next element from the back.
    pub fn next_back(&mut self) -> (r: Option<u64>)
        requires
            old(self).wf(),
        ensures
            final(self).wf(),
            old(self).remaining().len() == 0 ==> r == None::<u64> && final(self).remaining()
                == old(self).remaining(),
            old(self).remaining().len() > 0 ==> r == Some(old(self).remaining().last())
                && final(self).remaining() == old(self).remaining().drop_last(),
    {
        let ghost f0 = self.front.remaining();
        let ghost b0 = self.back.remaining();
        let back_r = self.back.next_back();
        match back_r {
            Some(k) => {
                proof {
                    assert((f0 + b0).last() == k);
                    assert((f0 + b0).drop_last() =~= f0 + b0.drop_last());
                }
                Some(k)
            },
            None => {
                proof {
                    assert(f0 + b0 =~= f0);
                }
                let r = self.front.next_back();
                proof {
                    assert(self.front.remaining() + self.back.remaining()
                        =~= self.front.remaining());
                }
                r
            },
        }
    }
}

/// With duplicate-free inputs, the two intersections have the same length:
/// each is a duplicate-free listing of the common elements.
pub proof fn lemma_inter_len_comm(a: Seq<u64>, b: Seq<u64>)
    requires
        a.no_duplicates(),
        b.no_duplicates(),
    ensures
        seq_inter(a, b).len() == seq_inter(b, a).len(),
{
    lemma_inter_props(a, b);
    lemma_inter_props(b, a);
    assert(seq_inter(a, b).to_set() =~= seq_inter(b, a).to_set());
    seq_inter(a, b).unique_seq_to_set();
    seq_inter(b, a).unique_seq_to_set();
}

/// The union law: with duplicate-free inputs the union holds each element
/// exactly once, and its length is the two lengths minus the length of the
/// intersection.
pub proof fn lemma_union_law(a: Seq<u64>, b: Seq<u64>)
    requires
        a.no_duplicates(),
        b.no_duplicates(),
    ensures
        seq_union(a, b).no_duplicates(),
        forall|x: u64| #[trigger] seq_union(a, b).contains(x) <==> a.contains(x) || b.contains(x),
        seq_union(a, b).len() + seq_inter(a, b).len() == a.len() + b.len(),
{
    lemma_diff_props(a, b);
    lemma_diff_props(b, a);
    lemma_inter_len_comm(a, b);
    let d = seq_diff(b, a);
    let u = seq_union(a, b);
    assert forall|x: u64| #[trigger] u.contains(x) implies a.contains(x) || b.contains(x) by {
        let i = choose|i: int| 0 <= i < u.len() && u[i] == x;
        if i < a.len() {
            assert(a[i] == x);
        } else {
            assert(d[i - a.len()] == x);
            assert(d.contains(x));
        }
    }
    assert forall|x: u64| a.contains(x) || b.contains(x) implies #[trigger] u.contains(x) by {
        if a.contains(x) {
            let i = choose|i: int| 0 <= i < a.len() && a[i] == x;
            assert(u[i] == x);
        } else {
            assert(d.contains(x));
            let i = choose|i: int| 0 <= i < d.len() && d[i] == x;
            assert(u[a.len() + i] == x);
        }
    }
    assert(u.no_duplicates()) by {
        assert forall|i: int, j: int| 0 <= i < u.len() && 0 <= j < u.len() && i != j implies u[i]
            != u[j] by {
            if i < a.len() && j < a.len() {
            } else if i >= a.len() && j >= a.len() {
                assert(d[i - a.len()] == u[i]);
                assert(d[j - a.len()] == u[j]);
            } else if i < a.len() && j >= a.len() {
                assert(a[i] == u[i]);
                assert(d[j - a.len()] == u[j]);
                assert(a.contains(u[i]));
                assert(d.contains(u[j]));
            } else {
                assert(a[j] == u[j]);
                assert(d[i - a.len()] == u[i]);
                assert(a.contains(u[j]));
                assert(d.contains(u[i]));
            }
        }
    }
}

/// The partition law: difference, intersection and opposite difference
/// together cover the union exactly, with no overlap, and the symmetric
/// difference is the two differences laid end to end.
pub proof fn lemma_set_algebra_partition(a: Seq<u64>, b: Seq<u64>)
    requires
        a.no_duplicates(),
        b.no_duplicates(),
    ensures
        forall|x: u64| #[trigger] seq_diff(a, b).contains(x) <==> a.contains(x) && !b.contains(x),
        forall|x: u64| #[trigger] seq_inter(a, b).contains(x) <==> a.contains(x) && b.contains(x),
        forall|x: u64|
            #[trigger] seq_sym_diff(a, b).contains(x) <==> (a.contains(x) != b.contains(x)),
        seq_sym_diff(a, b) == seq_diff(a, b) + seq_diff(b, a),
        seq_diff(a, b).len() + seq_inter(a, b).len() + seq_diff(b, a).len() == seq_union(
            a,
            b,
        ).len(),
        seq_sym_diff(a, b).len() + seq_inter(a, b).len() == seq_union(a, b).len(),
{
    lemma_diff_props(a, b);
    lemma_diff_props(b, a);
    lemma_inter_props(a, b);
    lemma_inter_len_comm(a, b);
    lemma_union_law(a, b);
    let da = seq_diff(a, b);
    let db = seq_diff(b, a);
    let sd = seq_sym_diff(a, b);
    assert forall|x: u64| #[trigger] sd.contains(x) implies (a.contains(x) != b.contains(x)) by {
        let i = choose|i: int| 0 <= i < sd.len() && sd[i] == x;
        if i < da.len() {
            assert(da[i] == x);
            assert(da.contains(x));
        } else {
            assert(db[i - da.len()] == x);
            assert(db.contains(x));
        }
    }
    assert forall|x: u64| (a.contains(x) != b.contains(x)) implies #[trigger] sd.contains(x) by {
        if a.contains(x) {
            assert(da.contains(x));
            let i = choose|i: int| 0 <= i < da.len() && da[i] == x;
            assert(sd[i] == x);
        } else {
            assert(db.contains(x));
            let i = choose|i: int| 0 <= i < db.len() && db[i] == x;
            assert(sd[da.len() + i] == x);
        }
    }
}

/// Concatenation holds an element exactly when one of the halves does.
pub proof fn lemma_concat_contains(a: Seq<u64>, b: Seq<u64>, x: u64)
    ensures
        (a + b).contains(x) <==> a.contains(x) || b.contains(x),
{
    if (a + b).contains(x) {
        let i = choose|i: int| 0 <= i < (a + b).len() && (a + b)[i] == x;
        if i < a.len() {
            assert(a[i] == x);
        } else {
            assert(b[i - a.len()] == x);
        }
    }
    if a.contains(x) {
        let i = choose|i: int| 0 <= i < a.len() && a[i] == x;
        assert((a + b)[i] == x);
    }
    if b.contains(x) {
        let i = choose|i: int| 0 <= i < b.len() && b[i] == x;
        assert((a + b)[a.len() + i] == x);
    }
}

/// The replacement elements that actually enter the store: those not
/// already kept, first occurrence first, duplicates collapsed.
pub open spec fn fold_absent(kept: Set<u64>, repl: Seq<u64>) -> Seq<u64>
    decreases repl.len(),
{
    if repl.len() == 0 {
        Seq::empty()
    } else if kept.contains(repl.first()) {
        fold_absent(kept, repl.drop_first())
    } else {
        seq![repl.first()] + fold_absent(kept.insert(repl.first()), repl.drop_first())
    }
}

/// What the folded replacement holds: nothing already kept, nothing twice,
/// and only replacement elements.
pub proof fn lemma_fold_absent_props(kept: Set<u64>, repl: Seq<u64>)
    ensures
        forall|x: u64|
            #[trigger] fold_absent(kept, repl).contains(x) ==> !kept.contains(x) && repl.contains(
                x,
            ),
        fold_absent(kept, repl).no_duplicates(),
    decreases repl.len(),
{
    if repl.len() == 0 {
        assert forall|x: u64| #[trigger] fold_absent(kept, repl).contains(x) implies false by {}
    } else {
        let f = repl.first();
        let rest = repl.drop_first();
        assert forall|x: u64| rest.contains(x) implies repl.contains(x) by {
            let i = choose|i: int| 0 <= i < rest.len() && rest[i] == x;
            assert(repl[i + 1] == x);
        }
        if kept.contains(f) {
            lemma_fold_absent_props(kept, rest);
        } else {
            lemma_fold_absent_props(kept.insert(f), rest);
            let tail = fold_absent(kept.insert(f), rest);
            let d = seq![f] + tail;
            assert(fold_absent(kept, repl) == d);
            assert forall|x: u64| #[trigger] d.contains(x) implies !kept.contains(x)
                && repl.contains(x) by {
                let i = choose|i: int| 0 <= i < d.len() && d[i] == x;
                if i == 0 {
                    assert(repl[0] == x);
                } else {
                    assert(tail[i - 1] == x);
                    assert(tail.contains(x));
                }
            }
            assert(d.no_duplicates()) by {
                assert forall|i: int, j: int|
                    0 <= i < d.len() && 0 <= j < d.len() && i != j implies d[i] != d[j] by {
                    if i == 0 {
                        assert(tail[j - 1] == d[j]);
                        assert(tail.contains(d[j]));
                    } else if j == 0 {
                        assert(tail[i - 1] == d[i]);
                        assert(tail.contains(d[i]));
                    } else {
                        assert(tail[i - 1] == d[i]);
                        assert(tail[j - 1] == d[j]);
                    }
                }
            }
        }
    }
}

/// The result of splicing: the records before the range, then the folded
/// replacement, then the records after the range. A replacement element
/// already present outside the range keeps its position.
pub open spec fn spliced(s: Seq<u64>, start: int, end: int, repl: Seq<u64>) -> Seq<u64> {
    let prefix = s.subrange(0, start);
    let suffix = s.subrange(end, s.len() as int);
    prefix + fold_absent(prefix.to_set().union(suffix.to_set()), repl) + suffix
}

/// A splicing iterator: on creation it replaces a position range of the set
/// with the given elements, preserving set semantics, and then yields the
/// removed elements, double-ended and exact-sized.
pub struct Splice {
    removed: Iter,
}

impl Splice {
    /// The cursor over the removed elements is well formed.
    pub closed spec fn wf(&self) -> bool {
        self.removed.wf()
    }

    /// The removed elements not yet yielded, in their original order.
    pub closed spec fn remaining(&self) -> Seq<u64> {
        self.removed.remaining()
    }

    /// Performs the splice on the set and captures the removed range.
    #[verifier::loop_isolation(false)]
    pub fn new(set: &mut IndexSet, start: usize, end: usize, replace_with: &Vec<u64>) -> (r:
        Splice)
        requires
            old(set).wf(),
            start <= end <= old(set)@.len(),
        ensures
            final(set).wf(),
            r.wf(),
            final(set)@ == spliced(old(set)@, start as int, end as int, replace_with@),
            r.remaining() == old(set)@.subrange(start as int, end as int),
    {
        let ghost orig = set@;
        let ghost prefix = orig.subrange(0, start as int);
        let ghost suffix = orig.subrange(end as int, orig.len() as int);
        let ghost kept0 = prefix.to_set().union(suffix.to_set());
        proof {
            set.lemma_wf_distinct();
        }
        let suffix_set = set.split_off(end);
        proof {
            assert(suffix_set@ == suffix);
            assert(set@ =~= orig.subrange(0, end as int));
        }
        let mut removed: Vec<u64> = Vec::new();
        while set.len() > start
            invariant
                set.wf(),
                start <= set@.len() <= end,
                removed@.len() + set@.len() == end,
                set@ == prefix + orig.subrange(start + removed@.len(), end as int),
                removed@ == orig.subrange(start as int, start + removed@.len()),
            decreases set@.len(),
        {
            let ghost t = removed@.len() as int;
            match set.shift_remove_index(start) {
                Some(k) => {
                    removed.push(k);
                },
                None => {
                    proof {
                        assert(false);
                    }
                },
            }
            proof {
                assert(set@ =~= prefix + orig.subrange(start + t + 1, end as int)) by {
                    assert((prefix + orig.subrange(start + t, end as int)).remove(start as int)
                        =~= prefix + orig.subrange(start + t, end as int).drop_first());
                    assert(orig.subrange(start + t, end as int).drop_first() =~= orig.subrange(
                        start + t + 1,
                        end as int,
                    ));
                }
                assert(removed@ =~= orig.subrange(start as int, start + t + 1));
            }
        }
        proof {
            assert(set@ =~= prefix);
            assert(removed@ =~= orig.subrange(start as int, end as int));
            assert(set@.skip(start as int) =~= Seq::<u64>::empty());
            assert(set@.skip(start as int).to_set() =~= Set::<u64>::empty());
            assert(kept0.union(set@.skip(start as int).to_set()) =~= kept0);
            assert(replace_with@.skip(0) =~= replace_with@);
            assert(set@.skip(start as int) + fold_absent(kept0, replace_with@) =~= fold_absent(
                kept0,
                replace_with@,
            ));
        }
        let mut j: usize = 0;
        while j < replace_with.len()
            invariant
                set.wf(),
                j <= replace_with@.len(),
                set@.len() >= start,
                set@.take(start as int) == prefix,
                fold_absent(kept0, replace_with@) == set@.skip(start as int) + fold_absent(
                    kept0.union(set@.skip(start as int).to_set()),
                    replace_with@.skip(j as int),
                ),
            decreases replace_with@.len() - j,
        {
            let k = replace_with[j];
            let ghost mid = set@.skip(start as int);
            let ghost keptc = kept0.union(mid.to_set());
            proof {
                assert(set@ =~= prefix + mid);
                lemma_concat_contains(prefix, mid, k);
                assert(replace_with@.skip(j as int).first() == k);
                assert(replace_with@.skip(j as int).drop_first() =~= replace_with@.skip(j + 1));
            }
            let in_set = set.contains(k);
            let in_suffix = suffix_set.contains(k);
            proof {
                assert(keptc.contains(k) == (in_set || in_suffix));
            }
            if !in_set && !in_suffix {
                set.insert(k);
                proof {
                    assert(set@ == (prefix + mid).push(k));
                    assert(set@.take(start as int) =~= prefix);
                    assert(set@.skip(start as int) =~= mid.push(k));
                    assert(mid.push(k) =~= mid + seq![k]);
                    Seq::<u64>::lemma_to_set_insert_commutes(mid, k);
                    assert(keptc.insert(k) =~= kept0.union(set@.skip(start as int).to_set()));
                    assert(mid + (seq![k] + fold_absent(keptc.insert(k), replace_with@.skip(j + 1)))
                        =~= mid.push(k) + fold_absent(keptc.insert(k), replace_with@.skip(j + 1)));
                }
            }
            j += 1;
        }
        let ghost mid_final = fold_absent(kept0, replace_with@);
        proof {
            assert(fold_absent(
                kept0.union(set@.skip(start as int).to_set()),
                replace_with@.skip(replace_with@.len() as int),
            ) =~= Seq::<u64>::empty());
            assert(mid_final =~= set@.skip(start as int));
            assert(set@ =~= prefix + mid_final);
            lemma_fold_absent_props(kept0, replace_with@);
        }
        let mut t: usize = 0;
        while t < suffix_set.len()
            invariant
                set.wf(),
                t <= suffix.len(),
                set@ == prefix + mid_final + suffix.take(t as int),
            decreases suffix.len() - t,
        {
            let k = match suffix_set.get_index(t) {
                Some(k) => k,
                None => {
                    proof {
                        assert(false);
                    }
                    0
                },
            };
            proof {
                assert(k == suffix[t as int]);
                assert(suffix.to_set().contains(k));
                assert(kept0.contains(k));
                assert(!mid_final.contains(k));
                assert(!prefix.contains(k)) by {
                    if prefix.contains(k) {
                        let i = choose|i: int| 0 <= i < prefix.len() && prefix[i] == k;
                        assert(orig[i] == orig[end + t]);
                    }
                }
                assert(!suffix.take(t as int).contains(k)) by {
                    if suffix.take(t as int).contains(k) {
                        let i = choose|i: int|
                            0 <= i < suffix.take(t as int).len() && suffix.take(t as int)[i] == k;
                        assert(orig[end + i] == orig[end + t]);
                    }
                }
                lemma_concat_contains(prefix, mid_final, k);
                lemma_concat_contains(prefix + mid_final, suffix.take(t as int), k);
            }
            set.insert(k);
            proof {
                assert(set@ =~= prefix + mid_final + suffix.take(t + 1));
            }
            t += 1;
        }
        proof {
            assert(suffix.take(suffix.len() as int) =~= suffix);
            assert(set@ =~= spliced(orig, start as int, end as int, replace_with@));
        }
        Splice { removed: Iter::new(removed) }
    }

    /// The next removed element from the front; the iterator is fused.
    pub fn next(&mut self) -> (r: Option<u64>)
        requires
            old(self).wf(),
        ensures
            final(self).wf(),
            old(self).remaining().len() == 0 ==> r == None::<u64> && final(self).remaining()
                == old(self).remaining(),
            old(self).remaining().len() > 0 ==> r == Some(old(self).remaining().first())
                && final(self).remaining() == old(self).remaining().drop_first(),
    {
        self.removed.next()
    }

    /// The next removed element from the back; the iterator is fused.
    pub fn next_back(&mut self) -> (r: Option<u64>)
        requires
            old(self).wf(),
        ensures
            final(self).wf(),
            old(self).remaining().len() == 0 ==> r == None::<u64> && final(self).remaining()
                == old(self).remaining(),
            old(self).remaining().len() > 0 ==> r == Some(old(self).remaining().last())
                && final(self).remaining() == old(self).remaining().drop_last(),
    {
        self.removed.next_back()
    }

    /// The exact number of removed elements still to be yielded.
    pub fn len(&self) -> (r: usize)
        requires
            self.wf(),
        ensures
            r == self.remaining().len(),
    {
        self.removed.len()
    }
}

} // verus!
