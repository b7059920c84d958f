//! A caller-supplied hook invoked at well-defined events of the recursive
//! construction, historically used to time each level of the tree.

use vstd::prelude::*;

verus! {

/// A trait that gives the user callbacks at events in a recursive algorithm
/// on the tree. `node_start` and `node_end` calls are balanced per logical
/// recursive invocation, but `node_end` may be invoked at a shallower depth
/// than the leaf depth when an algorithm stops recursing early: implementers
/// must not assume it only happens at maximum depth.
pub trait Splitter: Sized {
    /// Called to split this into two to be passed to the children.
    fn div(&mut self) -> Self;

    /// Called to add the results of the recursive calls on the children.
    fn add(&mut self, b: Self);

    /// Called at the start of the recursive call.
    fn node_start(&mut self);

    /// Called at the end of the recursive call.
    fn node_end(&mut self);
}

/// For cases where none of the callbacks matter: every one does nothing.
/// Public in case query algorithms need it.
pub struct SplitterEmpty;

impl Splitter for SplitterEmpty {
    fn div(&mut self) -> Self {
        SplitterEmpty
    }

    fn add(&mut self, _b: Self) {
    }

    fn node_start(&mut self) {
    }

    fn node_end(&mut self) {
    }
}

} // verus!
