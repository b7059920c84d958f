use dinotree::Axis;
use dinotree::BBox;
use dinotree::DinoTree;
use dinotree::DinoTreeBuilder;
use dinotree::Interval;
use dinotree::Node;
use dinotree::Rect;

fn boxed(x0: i64, x1: i64, y0: i64, y1: i64, id: u64) -> BBox<u64> {
    BBox::new(
        Rect::new(Interval { left: x0, right: x1 }, Interval { left: y0, right: y1 }),
        id,
    )
}

/// 1,000 pseudo-uniformly scattered unit squares, deterministic.
fn scattered(n: u64) -> Vec<BBox<u64>> {
    let mut out = Vec::new();
    let mut state: u64 = 0x853c49e6748fea9b;
    for id in 0..n {
        state = state
            .wrapping_mul(6364136223846793005)
            .wrapping_add(1442695040888963407);
        let x = ((state >> 33) % 1000) as i64;
        state = state
            .wrapping_mul(6364136223846793005)
            .wrapping_add(1442695040888963407);
        let y = ((state >> 33) % 1000) as i64;
        out.push(boxed(x, x + 1, y, y + 1, id));
    }
    out
}

fn axis_of_depth(start: Axis, depth: usize) -> Axis {
    let mut a = start;
    for _ in 0..depth {
        a = a.next();
    }
    a
}

fn left_on(b: &BBox<u64>, axis: Axis) -> i64 {
    b.get().get_range(axis).left
}

/// Walk the preorder node array and check, per node, the straddle and
/// ordering conditions by hand (independently of the library's checker).
fn walk(tree: &DinoTree<(), u64>, start: usize, depth: usize) -> usize {
    let node: &Node<(), u64> = tree.get_node(start);
    let axis = axis_of_depth(tree.axis(), depth);
    let axis_next = axis.next();
    // sorted ascending by next-axis left border
    for w in node.range.windows(2) {
        assert!(left_on(&w[0], axis_next) <= left_on(&w[1], axis_next));
    }
    // cont is the exact covering interval
    match node.cont {
        None => assert!(node.range.is_empty()),
        Some(c) => {
            assert!(!node.range.is_empty());
            let min = node.range.iter().map(|b| b.get().get_range(axis).left).min().unwrap();
            let max = node.range.iter().map(|b| b.get().get_range(axis).right).max().unwrap();
            assert_eq!(c.left, min);
            assert_eq!(c.right, max);
        },
    }
    if depth + 1 < tree.get_height() {
        match node.div {
            Some(d) => {
                assert!(!node.range.is_empty());
                for b in node.range.iter() {
                    let r = b.get().get_range(axis);
                    assert!(r.left <= d && d <= r.right, "a box does not straddle its divider");
                }
                assert!(
                    node.range.iter().any(|b| b.get().get_range(axis).left == d),
                    "no box's left border equals the divider"
                );
            },
            None => assert!(node.range.is_empty()),
        }
        let sub = dinotree::nodes_left(depth + 1, tree.get_height());
        let mut count = node.range.len();
        count += walk(tree, start + 1, depth + 1);
        count += walk(tree, start + 1 + sub, depth + 1);
        count
    } else {
        assert!(node.div.is_none(), "a leaf carries a divider");
        node.range.len()
    }
}

#[test]
fn scattered_thousand_builds_and_checks() {
    let bots = scattered(1000);
    let height = dinotree::compute_tree_height_heuristic(1000, 128);
    assert_eq!(height, 5);
    // h <= 2*ceil(log2(1000/128)) + 1 = 7, and >= 1
    assert!(height >= 1 && height <= 7);
    let tree = DinoTreeBuilder::new(Axis::X, bots).build_seq();
    assert_eq!(tree.get_height(), 5);
    assert_eq!(tree.num_nodes(), 31);
    assert!(tree.assert_invariants());
    let total = walk(&tree, 0, 0);
    assert_eq!(total, 1000);
    assert_eq!(tree.num_bots(), 1000);
}

#[test]
fn empty_input_is_a_single_empty_leaf() {
    let bots: Vec<BBox<u64>> = Vec::new();
    let builder = DinoTreeBuilder::new(Axis::X, bots);
    assert_eq!(builder.height, 1);
    let tree = builder.build_seq();
    assert_eq!(tree.get_height(), 1);
    assert_eq!(tree.num_nodes(), 1);
    assert_eq!(tree.num_bots(), 0);
    let root = tree.get_node(0);
    assert!(root.range.is_empty());
    assert!(root.cont.is_none());
    assert!(root.div.is_none());
    assert!(tree.assert_invariants());
    // restore on the empty mover is a no-op
    let restored = tree.into_iter_orig_order();
    assert!(restored.is_empty());
}

#[test]
fn all_identical_boxes_still_build() {
    // zero-size boxes at one point: every box straddles every divider
    let bots: Vec<BBox<u64>> = (0..1000).map(|id| boxed(7, 7, 7, 7, id)).collect();
    let tree = DinoTreeBuilder::new(Axis::X, bots).build_seq();
    assert_eq!(tree.get_height(), 5);
    assert!(tree.assert_invariants());
    // they all land in the root's straddling bucket
    assert_eq!(tree.get_node(0).range.len(), 1000);
    let total = walk(&tree, 0, 0);
    assert_eq!(total, 1000);
}

#[test]
fn restore_round_trip_reproduces_input() {
    let bots = scattered(700);
    let original = bots.clone();
    let tree = DinoTreeBuilder::new(Axis::X, bots).build_seq();
    let restored = tree.into_iter_orig_order();
    assert_eq!(restored, original);
}

#[test]
fn restore_round_trip_parallel() {
    let bots = scattered(300);
    let original = bots.clone();
    let tree = DinoTreeBuilder::new(Axis::Y, bots).build_par();
    let restored = tree.into_iter_orig_order();
    assert_eq!(restored, original);
}

fn trees_equal(a: &DinoTree<(), u64>, b: &DinoTree<(), u64>) {
    assert_eq!(a.get_height(), b.get_height());
    assert_eq!(a.num_nodes(), b.num_nodes());
    assert_eq!(a.num_bots(), b.num_bots());
    assert_eq!(a.mover, b.mover);
    for k in 0..a.num_nodes() {
        let na = a.get_node(k);
        let nb = b.get_node(k);
        assert_eq!(na.range, nb.range);
        assert_eq!(na.cont, nb.cont);
        assert_eq!(na.div, nb.div);
    }
}

#[test]
fn parallel_and_sequential_build_identical_trees() {
    let bots = scattered(900);
    let seq = DinoTreeBuilder::new(Axis::X, bots.clone()).build_seq();
    let par = DinoTreeBuilder::new(Axis::X, bots.clone()).build_par();
    trees_equal(&seq, &par);
    // and whatever the switch depth
    for switch in [0usize, 1, 3, 100] {
        let mut builder = DinoTreeBuilder::new(Axis::X, bots.clone());
        builder.with_height_switch_seq(switch);
        let t = builder.build_par();
        trees_equal(&seq, &t);
    }
}

#[test]
fn both_bin_strategies_agree() {
    let bots = scattered(400);
    let mut b1 = DinoTreeBuilder::new(Axis::X, bots.clone());
    b1.with_bin_strat(dinotree::BinStrat::Checked);
    let mut b2 = DinoTreeBuilder::new(Axis::X, bots.clone());
    b2.with_bin_strat(dinotree::BinStrat::NotChecked);
    trees_equal(&b1.build_seq(), &b2.build_seq());
}

#[test]
fn divider_is_the_median_left_border() {
    // x left borders 10, 50, 20, 40, 30: the element at index 5/2 = 2 of
    // the order statistics is 30, so the root divider must be 30
    let bots = vec![
        boxed(10, 11, 0, 1, 0),
        boxed(50, 51, 2, 3, 1),
        boxed(20, 21, 4, 5, 2),
        boxed(40, 41, 6, 7, 3),
        boxed(30, 31, 8, 9, 4),
    ];
    let mut builder = DinoTreeBuilder::new(Axis::X, bots);
    builder.with_height(3);
    let tree = builder.build_seq();
    assert_eq!(tree.get_node(0).div, Some(30));
    assert!(tree.assert_invariants());
}

#[test]
fn leaf_cont_and_ordering() {
    // a single-leaf tree: cont covers the x extents exactly, and the
    // range is sorted by the y left border
    let bots = vec![
        boxed(1, 4, 30, 31, 0),
        boxed(0, 2, 10, 11, 1),
        boxed(3, 9, 20, 21, 2),
    ];
    let tree = DinoTreeBuilder::new(Axis::X, bots).build_seq();
    assert_eq!(tree.get_height(), 1);
    let root = tree.get_node(0);
    assert_eq!(root.cont, Some(Interval { left: 0, right: 9 }));
    assert!(root.div.is_none());
    let ys: Vec<i64> = root.range.iter().map(|b| b.get().y.left).collect();
    assert_eq!(ys, vec![10, 20, 30]);
    assert!(tree.assert_invariants());
}

#[test]
fn total_count_is_preserved() {
    for n in [0u64, 1, 2, 129, 513] {
        let bots = scattered(n);
        let tree = DinoTreeBuilder::new(Axis::X, bots).build_seq();
        let total: usize = (0..tree.num_nodes()).map(|k| tree.get_node(k).range.len()).sum();
        assert_eq!(total as u64, n);
        let flat = tree.every_bot();
        assert_eq!(flat.len() as u64, n);
    }
}

#[test]
fn with_extra_swaps_the_per_node_payload() {
    let bots = scattered(200);
    let tree = DinoTree::new_seq(Axis::X, 1u32, bots);
    assert_eq!(tree.get_node(0).misc, 1u32);
    let divs: Vec<Option<i64>> = (0..tree.num_nodes()).map(|k| tree.get_node(k).div).collect();
    let tree2 = tree.with_extra(9i16);
    for k in 0..tree2.num_nodes() {
        assert_eq!(tree2.get_node(k).misc, 9i16);
        assert_eq!(tree2.get_node(k).div, divs[k]);
    }
}

#[test]
fn payload_mutation_keeps_geometry() {
    let bots = scattered(50);
    let mut tree = DinoTree::new_seq(Axis::X, (), bots);
    let before = tree.get_node(0).range[0].get();
    tree.set_inner(0, 0, 777);
    assert_eq!(tree.get_node(0).range[0].inner, 777);
    assert_eq!(tree.get_node(0).range[0].get(), before);
    assert!(tree.assert_invariants());
}

#[test]
fn apply_into_pulls_payloads_through_the_mover() {
    let bots = scattered(120);
    let mut tree = DinoTreeBuilder::new(Axis::X, bots.clone()).build_seq();
    // refresh the payloads from a slice whose ids were all shifted
    let shifted: Vec<BBox<u64>> =
        bots.iter().map(|b| BBox::new(b.get(), b.inner + 1000)).collect();
    tree.apply_into(&shifted);
    // geometry is untouched and the round trip now yields the shifted ids
    assert!(tree.assert_invariants());
    let restored = tree.into_iter_orig_order();
    assert_eq!(restored, shifted);
}

#[test]
fn checker_rejects_a_broken_tree() {
    let bots = scattered(600);
    let mut tree = DinoTreeBuilder::new(Axis::X, bots).build_seq();
    assert!(tree.assert_invariants());
    // break the divider of the root: no left border equals it any more
    tree.nodes[0].div = tree.nodes[0].div.map(|d| d - 1_000_000);
    assert!(!tree.assert_invariants());
}

#[test]
fn overridden_height_leaves_empty_subtrees() {
    // three boxes in a tree of height 5: most subtrees stay empty, and a
    // non-leaf with an empty input gets no divider
    let bots = vec![
        boxed(0, 1, 0, 1, 0),
        boxed(10, 11, 10, 11, 1),
        boxed(20, 21, 20, 21, 2),
    ];
    let original = bots.clone();
    let mut builder = DinoTreeBuilder::new(Axis::X, bots);
    builder.with_height(5);
    let tree = builder.build_seq();
    assert_eq!(tree.num_nodes(), 31);
    assert!(tree.assert_invariants());
    assert_eq!(walk(&tree, 0, 0), 3);
    assert!((0..31).any(|k| tree.get_node(k).div.is_none() && k < 15));
    assert_eq!(tree.into_iter_orig_order(), original);
}

#[test]
fn checker_rejects_wrong_shape() {
    let bots = scattered(10);
    let mut tree = DinoTreeBuilder::new(Axis::X, bots).build_seq();
    tree.height = 4;
    assert!(!tree.assert_invariants());
}
