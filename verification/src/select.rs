//! The median-selection step. A linear-time selection algorithm from an
//! outside crate puts the element with the k-th smallest left border at
//! index k; the construction only reads that element's left border off as
//! the divider, so the exact permutation the algorithm leaves behind is
//! given a name rather than spelled out.

use crate::geom::Axis;
use crate::geom::Cont;
use vstd::prelude::*;

verus! {

/// The permutation of `s` that pdqselect's selection leaves behind for
/// index `k` under the left-border-on-`axis` order. The algorithm draws its
/// pivots from a pseudorandom generator seeded with the slice length alone,
/// so the result is a function of the arguments on every machine.
pub uninterp spec fn select_of(s: Seq<Cont>, k: int, axis: Axis) -> Seq<Cont>;

/// Relies on pdqselect::select_by_key: it reorders the slice in place so
/// that the element at `k` is at its position under the key order, every
/// element before it has a key no greater, and every element after it a key
/// no smaller; the slice stays a permutation of itself.
#[verifier::external_body]
pub(crate) fn select_by_left(bots: &mut Vec<Cont>, k: usize, axis: Axis)
    requires
        k < old(bots)@.len(),
    ensures
        final(bots)@ == select_of(old(bots)@, k as int, axis),
        final(bots)@.to_multiset() == old(bots)@.to_multiset(),
        final(bots)@.len() == old(bots)@.len(),
        forall|i: int| #![trigger final(bots)@[i]]
            0 <= i < k ==> final(bots)@[i].left_on(axis) <= final(bots)@[k as int].left_on(axis),
        forall|i: int| #![trigger final(bots)@[i]]
            k < i < final(bots)@.len() ==> final(bots)@[k as int].left_on(axis)
                <= final(bots)@[i].left_on(axis),
{
    pdqselect::select_by_key(bots.as_mut_slice(), k, |c: &Cont| c.rect.get_range(axis).left);
}

} // verus!
