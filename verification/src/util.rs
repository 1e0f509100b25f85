//! Small trusted shims over parts of std that the verifier's library leaves
//! unspecified.

use vstd::prelude::*;

verus! {

/// Relies on slice::swap (through Vec's DerefMut): the two elements exchange
/// places and every other element stays where it was.
#[verifier::external_body]
pub fn vec_swap_elems<T>(v: &mut Vec<T>, a: usize, b: usize)
    requires
        a < old(v)@.len(),
        b < old(v)@.len(),
    ensures
        final(v)@ == old(v)@.update(a as int, old(v)@[b as int]).update(
            b as int,
            old(v)@[a as int],
        ),
{
    v.swap(a, b)
}

} // verus!
