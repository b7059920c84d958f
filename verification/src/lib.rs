//! A static spatial index over axis-aligned bounding boxes: a balanced,
//! axis-alternating partition tree whose dividers absorb the boxes that
//! straddle them. The tree is rebuilt from scratch for each batch of boxes;
//! a recorded permutation (the mover) lets callers restore the original
//! order afterwards.

pub mod check;
pub mod construct;
pub mod geom;
pub mod height;
pub mod par;
pub mod select;
pub mod sorting;
pub mod splitter;
pub mod tree;

pub use check::assert_invariants;
pub use construct::BinStrat;
pub use geom::Axis;
pub use geom::BBox;
pub use geom::Cont;
pub use geom::Interval;
pub use geom::Rect;
pub use height::DEFAULT_NUMBER_ELEM_PER_NODE;
pub use height::compute_tree_height_heuristic;
pub use height::nodes_left;
pub use par::SWITCH_SEQUENTIAL_DEFAULT;
pub use par::compute_level_switch_sequential;
pub use splitter::Splitter;
pub use splitter::SplitterEmpty;
pub use tree::DinoTree;
pub use tree::DinoTreeBuilder;
pub use tree::Index;
pub use tree::Node;
