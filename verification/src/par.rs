//! Fork-join parallelism for the builder. A depth policy decides, level by
//! level, whether the two child builds fork onto independent execution
//! contexts or fall back to the sequential path; the join itself is the
//! only outside call.

use vstd::prelude::*;

verus! {

/// The default number of levels above the leaves that run sequentially,
/// to amortize fork overhead where subtrees are small.
pub const SWITCH_SEQUENTIAL_DEFAULT: usize = 2;

/// The depth before which the builder forks: levels within
/// `height_switch_seq` of the leaves run sequentially.
pub fn compute_level_switch_sequential(height_switch_seq: usize, height: usize) -> (r: usize)
    ensures
        r == if height <= height_switch_seq {
            0int
        } else {
            height - height_switch_seq
        },
{
    if height <= height_switch_seq {
        0
    } else {
        height - height_switch_seq
    }
}

/// Relies on rayon::join: it calls both closures, possibly on separate
/// threads, blocks until both are done, and returns the pair of their
/// results.
#[verifier::external_body]
pub(crate) fn join<RA: Send, RB: Send, FA: FnOnce() -> RA + Send, FB: FnOnce() -> RB + Send>(
    oper_a: FA,
    oper_b: FB,
) -> (r: (RA, RB))
    requires
        call_requires(oper_a, ()),
        call_requires(oper_b, ()),
    ensures
        call_ensures(oper_a, (), r.0),
        call_ensures(oper_b, (), r.1),
{
    rayon::join(oper_a, oper_b)
}

} // verus!
