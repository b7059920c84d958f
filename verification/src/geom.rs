//! Geometry primitives: the two axes, one-dimensional closed intervals,
//! axis-aligned rectangles, and the element types stored in the tree.

use vstd::prelude::*;

verus! {

/// One of the two axes of the plane. The tree alternates the axis at every
/// level, starting from the axis the caller picks.
#[derive(Clone, Copy, PartialEq, Eq, Structural, Debug)]
pub enum Axis {
    X,
    Y,
}

impl Axis {
    /// The axis the next level of the tree partitions along.
    pub open spec fn next_spec(self) -> Axis {
        match self {
            Axis::X => Axis::Y,
            Axis::Y => Axis::X,
        }
    }

    /// Rotate to the other axis.
    pub fn next(self) -> (r: Axis)
        ensures
            r == self.next_spec(),
    {
        match self {
            Axis::X => Axis::Y,
            Axis::Y => Axis::X,
        }
    }
}

/// A closed one-dimensional interval `[left, right]`.
#[derive(Clone, Copy, PartialEq, Eq, Structural, Debug)]
pub struct Interval {
    pub left: i64,
    pub right: i64,
}

impl Interval {
    /// A well-formed interval is non-empty: its left border does not exceed
    /// its right border.
    pub open spec fn wf(self) -> bool {
        self.left <= self.right
    }

    /// Whether the value `v` lies inside the interval (borders included).
    pub open spec fn contains_spec(self, v: i64) -> bool {
        self.left <= v && v <= self.right
    }

    /// Whether the interval `o` lies entirely inside this interval.
    pub open spec fn contains_interval_spec(self, o: Interval) -> bool {
        self.left <= o.left && o.right <= self.right
    }

    pub fn contains(self, v: i64) -> (r: bool)
        ensures
            r == self.contains_spec(v),
    {
        self.left <= v && v <= self.right
    }

    pub fn contains_interval(self, o: Interval) -> (r: bool)
        ensures
            r == self.contains_interval_spec(o),
    {
        self.left <= o.left && o.right <= self.right
    }
}

/// An axis-aligned rectangle: one interval per axis.
#[derive(Clone, Copy, PartialEq, Eq, Structural, Debug)]
pub struct Rect {
    pub x: Interval,
    pub y: Interval,
}

impl Rect {
    /// The rectangle's extent along the given axis.
    pub open spec fn get_spec(self, axis: Axis) -> Interval {
        match axis {
            Axis::X => self.x,
            Axis::Y => self.y,
        }
    }

    /// A rectangle is well-formed when both of its intervals are.
    pub open spec fn wf(self) -> bool {
        self.x.wf() && self.y.wf()
    }

    /// The rectangle's extent along the given axis.
    pub fn get_range(self, axis: Axis) -> (r: Interval)
        ensures
            r == self.get_spec(axis),
    {
        match axis {
            Axis::X => self.x,
            Axis::Y => self.y,
        }
    }

    pub fn new(x: Interval, y: Interval) -> (r: Rect)
        ensures
            r == (Rect { x, y }),
    {
        Rect { x, y }
    }
}

/// An element of the tree: a bounding rectangle plus an opaque payload.
/// Once a box sits in a tree its rectangle must not change; the payload may
/// be mutated freely.
#[derive(Clone, Copy, PartialEq, Eq, Debug)]
pub struct BBox<T> {
    pub rect: Rect,
    pub inner: T,
}

impl<T> BBox<T> {
    pub fn new(rect: Rect, inner: T) -> (r: BBox<T>)
        ensures
            r.rect == rect,
            r.inner == inner,
    {
        BBox { rect, inner }
    }

    /// The bounding rectangle of this element.
    pub fn get(&self) -> (r: Rect)
        ensures
            r == self.rect,
    {
        self.rect
    }
}

/// The element the construction algorithm itself works on: the bounding
/// rectangle together with the element's position in the caller's input.
/// Carrying the position through the partition steps is what later yields
/// the mover permutation.
#[derive(Clone, Copy, PartialEq, Eq, Structural, Debug)]
pub struct Cont {
    pub rect: Rect,
    pub index: usize,
}

impl Cont {
    /// The left border of this element's extent along `axis`.
    pub open spec fn left_on(self, axis: Axis) -> i64 {
        self.rect.get_spec(axis).left
    }

    /// The right border of this element's extent along `axis`.
    pub open spec fn right_on(self, axis: Axis) -> i64 {
        self.rect.get_spec(axis).right
    }

    /// Whether this element's extent along `axis` touches or crosses the
    /// divider value `div`.
    pub open spec fn touches(self, axis: Axis, div: i64) -> bool {
        self.rect.get_spec(axis).contains_spec(div)
    }

    /// Whether this element lies entirely left of the divider.
    pub open spec fn entirely_left(self, axis: Axis, div: i64) -> bool {
        self.right_on(axis) < div
    }

    /// Whether this element lies entirely right of the divider.
    pub open spec fn entirely_right(self, axis: Axis, div: i64) -> bool {
        self.left_on(axis) > div
    }
}

/// Every element of the sequence has a well-formed rectangle.
pub open spec fn wf_conts(s: Seq<Cont>) -> bool {
    forall|i: int| 0 <= i < s.len() ==> (#[trigger] s[i]).rect.wf()
}

} // verus!
