//! The invariant checker: walks a finished tree top-down, axis
//! alternating, and reports whether the structural and ordering invariants
//! hold. A debugging and test tool, not used on the hot path.

use crate::construct::CNode;
use crate::construct::cont_of;
use crate::construct::flat;
use crate::construct::node_inv;
use crate::construct::tree_inv;
use crate::geom::Axis;
use crate::geom::BBox;
use crate::geom::Cont;
use crate::geom::Interval;
use crate::geom::Rect;
use crate::height::lemma_pow2_monotonic;
use crate::height::lemma_pow2_pos;
use crate::height::nodes_left;
use crate::height::pow2;
use crate::tree::DinoTree;
use crate::tree::Node;
use crate::tree::nodes_match;
use crate::tree::tree_from;
use vstd::prelude::*;

verus! {

/// What the checker sees of one node: the rectangles of its range, its
/// covering interval, and its divider.
pub struct RNode {
    pub rects: Seq<Rect>,
    pub cont: Option<Interval>,
    pub div: Option<i64>,
}

pub open spec fn rnode_of_node<N, T>(n: Node<N, T>) -> RNode {
    RNode { rects: n.range@.map_values(|b: BBox<T>| b.rect), cont: n.cont, div: n.div }
}

pub open spec fn rmodels<N, T>(ns: Seq<Node<N, T>>) -> Seq<RNode> {
    ns.map_values(|n: Node<N, T>| rnode_of_node(n))
}

pub open spec fn rnode_of_cnode(c: CNode) -> RNode {
    RNode { rects: c.range.map_values(|cc: Cont| cc.rect), cont: c.cont, div: c.div }
}

pub open spec fn rmodels_c(cs: Seq<CNode>) -> Seq<RNode> {
    cs.map_values(|c: CNode| rnode_of_cnode(c))
}

/// The rectangles are ordered ascending by left border on `axis`.
pub open spec fn rsorted(axis: Axis, rects: Seq<Rect>) -> bool {
    forall|i: int, j: int| #![trigger rects[i], rects[j]]
        0 <= i < j < rects.len() ==> rects[i].get_spec(axis).left <= rects[j].get_spec(axis).left
}

/// The minimal interval covering the rectangles' extents on `axis`.
pub open spec fn rcont_of(rects: Seq<Rect>, axis: Axis) -> Option<Interval>
    decreases rects.len(),
{
    if rects.len() == 0 {
        None
    } else {
        let r = rects.last().get_spec(axis);
        match rcont_of(rects.drop_last(), axis) {
            None => Some(r),
            Some(c) => Some(
                Interval {
                    left: if r.left < c.left {
                        r.left
                    } else {
                        c.left
                    },
                    right: if r.right > c.right {
                        r.right
                    } else {
                        c.right
                    },
                },
            ),
        }
    }
}

/// One node's invariant, as the checker states it: the range is sorted
/// ascending by left border on the next axis; the stored covering interval
/// is exactly the computed one; a leaf has no divider; a non-leaf with a
/// divider has a non-empty range, every rectangle straddles the divider,
/// and at least one rectangle's left border equals it; a non-leaf without
/// a divider has an empty range.
pub open spec fn rnode_inv(n: RNode, axis: Axis, leaf: bool) -> bool {
    &&& rsorted(axis.next_spec(), n.rects)
    &&& n.cont == rcont_of(n.rects, axis)
    &&& (leaf ==> n.div is None)
    &&& (!leaf ==> match n.div {
        Some(d) => {
            &&& n.rects.len() > 0
            &&& (forall|i: int|
                0 <= i < n.rects.len() ==> (#[trigger] n.rects[i]).get_spec(axis).contains_spec(d))
            &&& (exists|i: int|
                0 <= i < n.rects.len() && (#[trigger] n.rects[i]).get_spec(axis).left == d)
        },
        None => n.rects.len() == 0,
    })
}

/// The whole structural invariant over a subtree's preorder sequence: the
/// complete-tree shape, each node's invariant with the axis alternating
/// by level, and under a non-leaf without a divider an entirely empty
/// subtree.
pub open spec fn r_inv(nodes: Seq<RNode>, axis: Axis, height: int, depth: int) -> bool
    decreases height - depth,
{
    &&& nodes.len() == pow2(height - depth) - 1
    &&& 1 <= nodes.len()
    &&& if depth + 1 < height {
        let sub = pow2(height - depth - 1) - 1;
        &&& rnode_inv(nodes[0], axis, false)
        &&& r_inv(nodes.subrange(1, 1 + sub), axis.next_spec(), height, depth + 1)
        &&& r_inv(
            nodes.subrange(1 + sub, nodes.len() as int),
            axis.next_spec(),
            height,
            depth + 1,
        )
        &&& (nodes[0].div is None ==> forall|k: int|
            0 <= k < nodes.len() ==> (#[trigger] nodes[k]).rects.len() == 0)
    } else {
        rnode_inv(nodes[0], axis, true)
    }
}

/// The covering interval depends on the rectangles alone.
proof fn lemma_cont_of_rects(s: Seq<Cont>, axis: Axis)
    ensures
        rcont_of(s.map_values(|c: Cont| c.rect), axis) == cont_of(s, axis),
    decreases s.len(),
{
    let m = s.map_values(|c: Cont| c.rect);
    if s.len() == 0 {
        assert(m.len() == 0);
    } else {
        lemma_cont_of_rects(s.drop_last(), axis);
        assert(m.drop_last() =~= s.drop_last().map_values(|c: Cont| c.rect));
        assert(m.last() == s.last().rect);
    }
}

/// A core node that satisfies its invariant projects to a checker node
/// that satisfies the checker's.
proof fn lemma_rnode_bridge(c: CNode, axis: Axis, leaf: bool)
    requires
        node_inv(c, axis, leaf),
    ensures
        rnode_inv(rnode_of_cnode(c), axis, leaf),
{
    let n = rnode_of_cnode(c);
    lemma_cont_of_rects(c.range, axis);
    assert forall|i: int, j: int| #![trigger n.rects[i], n.rects[j]]
        0 <= i < j < n.rects.len() implies n.rects[i].get_spec(axis.next_spec()).left
        <= n.rects[j].get_spec(axis.next_spec()).left by {
        assert(crate::sorting::le_on(axis.next_spec(), c.range[i], c.range[j]));
    }
    if !leaf {
        match c.div {
            Some(d) => {
                assert forall|i: int| 0 <= i < n.rects.len() implies (
                #[trigger] n.rects[i]).get_spec(axis).contains_spec(d) by {
                    assert(c.range[i].touches(axis, d));
                }
                let w = choose|w: int|
                    0 <= w < c.range.len() && (#[trigger] c.range[w]).left_on(axis) == d;
                assert(n.rects[w].get_spec(axis).left == d);
            },
            None => {},
        }
    }
}

/// A subtree with no elements has only empty ranges.
proof fn lemma_flat_empty(cs: Seq<CNode>)
    requires
        flat(cs).len() == 0,
    ensures
        forall|k: int| 0 <= k < cs.len() ==> (#[trigger] cs[k]).range.len() == 0,
    decreases cs.len(),
{
    if cs.len() > 0 {
        lemma_flat_empty(cs.drop_last());
        assert forall|k: int| 0 <= k < cs.len() implies (#[trigger] cs[k]).range.len() == 0 by {
            if k < cs.len() - 1 {
                assert(cs.drop_last()[k].range.len() == 0);
            }
        }
    }
}

/// The builders' structural invariant carries over to the checker's.
pub proof fn lemma_tree_inv_to_r_inv(cs: Seq<CNode>, axis: Axis, height: int, depth: int)
    requires
        tree_inv(cs, axis, height, depth),
    ensures
        r_inv(rmodels_c(cs), axis, height, depth),
    decreases height - depth,
{
    let rs = rmodels_c(cs);
    if depth + 1 < height {
        let sub = pow2(height - depth - 1) - 1;
        lemma_rnode_bridge(cs[0], axis, false);
        lemma_tree_inv_to_r_inv(cs.subrange(1, 1 + sub), axis.next_spec(), height, depth + 1);
        lemma_tree_inv_to_r_inv(
            cs.subrange(1 + sub, cs.len() as int),
            axis.next_spec(),
            height,
            depth + 1,
        );
        assert(rmodels_c(cs.subrange(1, 1 + sub)) =~= rs.subrange(1, 1 + sub));
        assert(rmodels_c(cs.subrange(1 + sub, cs.len() as int)) =~= rs.subrange(
            1 + sub,
            rs.len() as int,
        ));
        if cs[0].div is None {
            lemma_flat_empty(cs);
            assert forall|k: int| 0 <= k < rs.len() implies (#[trigger] rs[k]).rects.len() == 0 by {
                assert(cs[k].range.len() == 0);
            }
        }
        assert(r_inv(rs, axis, height, depth));
    } else {
        lemma_rnode_bridge(cs[0], axis, true);
    }
}

/// Matching node sequences project to the same checker nodes.
pub proof fn lemma_match_rmodels<N, T>(
    ns: Seq<Node<N, T>>,
    cs: Seq<CNode>,
    input: Seq<BBox<T>>,
    misc: N,
)
    requires
        nodes_match(ns, cs, input, misc),
    ensures
        rmodels(ns) == rmodels_c(cs),
{
    assert forall|k: int| 0 <= k < cs.len() implies rmodels(ns)[k] == rmodels_c(cs)[k] by {
        assert(crate::tree::node_match(ns[k], cs[k], input, misc));
        assert(rnode_of_node(ns[k]).rects =~= rnode_of_cnode(cs[k]).rects);
    }
    assert(rmodels(ns) =~= rmodels_c(cs));
}

/// Every tree the builders hand out passes the checker: each node's range
/// is sorted ascending by left border on the next axis; every rectangle
/// of a divider node straddles the divider and at least one left border
/// equals it exactly; the stored covering intervals are exact; and a
/// non-leaf without a divider has an entirely empty subtree.
pub proof fn lemma_built_tree_invariants<N, T>(
    t: DinoTree<N, T>,
    input: Seq<BBox<T>>,
    axis: Axis,
    height: int,
    misc: N,
)
    requires
        tree_from(t, input, axis, height, misc),
    ensures
        r_inv(rmodels(t.nodes@), axis, height, 0),
        t.nodes@.len() == pow2(height) - 1,
{
    let core = crate::construct::build_spec(crate::tree::conts_of(input), axis, height, 0);
    lemma_tree_inv_to_r_inv(core, axis, height, 0);
    lemma_match_rmodels(t.nodes@, core, input, misc);
}

/// Some level assignment makes this node satisfy the per-node invariant.
pub open spec fn some_level_inv(n: RNode) -> bool {
    exists|a: Axis, leaf: bool| rnode_inv(n, a, leaf)
}

/// Every single node of an invariant-holding tree satisfies the per-node
/// conditions for its level's axis: its range is sorted ascending by the
/// left border on the next axis, and where a divider is present every
/// rectangle straddles it and at least one left border equals it exactly.
pub proof fn lemma_every_node_invariant(nodes: Seq<RNode>, axis: Axis, height: int, depth: int)
    requires
        r_inv(nodes, axis, height, depth),
    ensures
        forall|k: int| 0 <= k < nodes.len() ==> some_level_inv(#[trigger] nodes[k]),
    decreases height - depth,
{
    if depth + 1 < height {
        let sub = pow2(height - depth - 1) - 1;
        let l = nodes.subrange(1, 1 + sub);
        let r = nodes.subrange(1 + sub, nodes.len() as int);
        lemma_every_node_invariant(l, axis.next_spec(), height, depth + 1);
        lemma_every_node_invariant(r, axis.next_spec(), height, depth + 1);
        assert forall|k: int| 0 <= k < nodes.len() implies some_level_inv(#[trigger] nodes[k]) by {
            if k == 0 {
                assert(rnode_inv(nodes[0], axis, false));
            } else if k < 1 + sub {
                assert(some_level_inv(l[k - 1]));
                assert(nodes[k] == l[k - 1]);
            } else {
                assert(some_level_inv(r[k - 1 - sub]));
                assert(nodes[k] == r[k - 1 - sub]);
            }
        }
    } else {
        reveal_with_fuel(pow2, 3);
        assert(nodes.len() == 1);
        assert forall|k: int| 0 <= k < nodes.len() implies some_level_inv(#[trigger] nodes[k]) by {
            assert(k == 0);
            assert(rnode_inv(nodes[0], axis, true));
        }
    }
}

/// Is the range of this node sorted ascending by left border on `axis`?
fn is_sorted_on<N, T>(axis: Axis, node: &Node<N, T>) -> (r: bool)
    ensures
        r == rsorted(axis, rnode_of_node(*node).rects),
{
    let ghost rects = rnode_of_node(*node).rects;
    if node.range.len() == 0 {
        return true;
    }
    let mut i: usize = 1;
    while i < node.range.len()
        invariant
            1 <= i <= node.range@.len(),
            rects == rnode_of_node(*node).rects,
            rects.len() == node.range@.len(),
            forall|a: int| 0 <= a < rects.len() ==> #[trigger] rects[a] == node.range@[a].rect,
            rsorted(axis, rects.take(i as int)),
        decreases node.range@.len() - i,
    {
        if node.range[i - 1].rect.get_range(axis).left > node.range[i].rect.get_range(axis).left {
            proof {
                assert(rects[i as int - 1].get_spec(axis).left > rects[i as int].get_spec(
                    axis,
                ).left);
            }
            return false;
        }
        proof {
            assert forall|a: int, b: int| #![trigger rects.take(i as int + 1)[a], rects.take(i as int + 1)[b]]
                0 <= a < b < i + 1 implies rects[a].get_spec(axis).left <= rects[b].get_spec(
                axis,
            ).left by {
                if b < i {
                    assert(rects.take(i as int)[a] == rects[a]);
                    assert(rects.take(i as int)[b] == rects[b]);
                } else {
                    if a < i - 1 {
                        assert(rects.take(i as int)[a] == rects[a]);
                        assert(rects.take(i as int)[i - 1] == rects[i - 1]);
                    }
                }
            }
        }
        i = i + 1;
    }
    proof {
        assert(rects.take(rects.len() as int) =~= rects);
    }
    true
}

/// Compute the covering interval of this node's rectangles on `axis`.
fn compute_cont<N, T>(axis: Axis, node: &Node<N, T>) -> (r: Option<Interval>)
    ensures
        r == rcont_of(rnode_of_node(*node).rects, axis),
{
    let ghost rects = rnode_of_node(*node).rects;
    if node.range.len() == 0 {
        return None;
    }
    let mut acc: Interval = node.range[0].rect.get_range(axis);
    let mut i: usize = 1;
    proof {
        assert(rects.take(1).drop_last() =~= Seq::<Rect>::empty());
        assert(rects.take(1).last() == rects[0]);
        assert(rcont_of(Seq::<Rect>::empty(), axis) is None);
        assert(rcont_of(rects.take(1), axis) == Some(rects[0].get_spec(axis)));
    }
    while i < node.range.len()
        invariant
            1 <= i <= node.range@.len(),
            rects == rnode_of_node(*node).rects,
            rects.len() == node.range@.len(),
            forall|a: int| 0 <= a < rects.len() ==> #[trigger] rects[a] == node.range@[a].rect,
            Some(acc) == rcont_of(rects.take(i as int), axis),
        decreases node.range@.len() - i,
    {
        let r = node.range[i].rect.get_range(axis);
        proof {
            assert(rects.take(i as int + 1).drop_last() =~= rects.take(i as int));
            assert(rects.take(i as int + 1).last() == rects[i as int]);
        }
        if r.left < acc.left {
            acc.left = r.left;
        }
        if r.right > acc.right {
            acc.right = r.right;
        }
        i = i + 1;
    }
    proof {
        assert(rects.take(rects.len() as int) =~= rects);
    }
    Some(acc)
}

/// Does the stored covering interval equal the computed one?
fn cont_matches(a: Option<Interval>, b: Option<Interval>) -> (r: bool)
    ensures
        r == (a == b),
{
    match (a, b) {
        (None, None) => true,
        (Some(x), Some(y)) => x.left == y.left && x.right == y.right,
        _ => false,
    }
}

/// Does every rectangle of this node straddle the divider?
fn all_touch<N, T>(axis: Axis, node: &Node<N, T>, d: i64) -> (r: bool)
    ensures
        r == forall|i: int|
            0 <= i < rnode_of_node(*node).rects.len() ==> (
            #[trigger] rnode_of_node(*node).rects[i]).get_spec(axis).contains_spec(d),
{
    let ghost rects = rnode_of_node(*node).rects;
    let mut i: usize = 0;
    while i < node.range.len()
        invariant
            i <= node.range@.len(),
            rects == rnode_of_node(*node).rects,
            rects.len() == node.range@.len(),
            forall|a: int| 0 <= a < rects.len() ==> #[trigger] rects[a] == node.range@[a].rect,
            forall|a: int| 0 <= a < i ==> (#[trigger] rects[a]).get_spec(axis).contains_spec(d),
        decreases node.range@.len() - i,
    {
        let rng = node.range[i].rect.get_range(axis);
        if !(rng.left <= d && d <= rng.right) {
            proof {
                assert(!rects[i as int].get_spec(axis).contains_spec(d));
            }
            return false;
        }
        i = i + 1;
    }
    true
}

/// Does some rectangle's left border equal the divider exactly?
fn some_left_eq<N, T>(axis: Axis, node: &Node<N, T>, d: i64) -> (r: bool)
    ensures
        r == exists|i: int|
            0 <= i < rnode_of_node(*node).rects.len() && (
            #[trigger] rnode_of_node(*node).rects[i]).get_spec(axis).left == d,
{
    let ghost rects = rnode_of_node(*node).rects;
    let mut i: usize = 0;
    while i < node.range.len()
        invariant
            i <= node.range@.len(),
            rects == rnode_of_node(*node).rects,
            rects.len() == node.range@.len(),
            forall|a: int| 0 <= a < rects.len() ==> #[trigger] rects[a] == node.range@[a].rect,
            forall|a: int| 0 <= a < i ==> (#[trigger] rects[a]).get_spec(axis).left != d,
        decreases node.range@.len() - i,
    {
        if node.range[i].rect.get_range(axis).left == d {
            proof {
                assert(rects[i as int].get_spec(axis).left == d);
            }
            return true;
        }
        i = i + 1;
    }
    false
}

/// Are all node ranges in `[start, start + count)` empty?
fn check_all_empty<N, T>(nodes: &Vec<Node<N, T>>, start: usize, count: usize) -> (r: bool)
    requires
        start + count <= nodes@.len(),
    ensures
        r == forall|k: int|
            start <= k < start + count ==> (#[trigger] nodes@[k]).range@.len() == 0,
{
    let n = nodes.len();
    let end: usize = start + count;
    let mut k: usize = start;
    while k < end
        invariant
            start <= k <= end,
            end == start + count,
            start + count <= nodes@.len(),
            forall|kk: int| start <= kk < k ==> (#[trigger] nodes@[kk]).range@.len() == 0,
        decreases end - k,
    {
        if nodes[k].range.len() > 0 {
            return false;
        }
        k = k + 1;
    }
    true
}

/// Check one subtree rooted at preorder position `start`.
fn check_rec<N, T>(
    nodes: &Vec<Node<N, T>>,
    start: usize,
    axis: Axis,
    height: usize,
    depth: usize,
) -> (r: bool)
    requires
        depth < height,
        start as int + pow2(height as int - depth as int) - 1 <= nodes@.len(),
    ensures
        r == r_inv(
            rmodels(nodes@).subrange(
                start as int,
                start as int + pow2(height as int - depth as int) - 1,
            ),
            axis,
            height as int,
            depth as int,
        ),
    decreases height - depth,
{
    let ghost sub_nodes = rmodels(nodes@).subrange(
        start as int,
        start as int + pow2(height as int - depth as int) - 1,
    );
    proof {
        lemma_pow2_pos(height as int - depth as int - 1);
        assert(pow2(height as int - depth as int) == 2 * pow2(height as int - depth as int - 1));
        assert(sub_nodes.len() >= 1);
        assert(sub_nodes[0] == rnode_of_node(nodes@[start as int]));
    }
    let n = nodes.len();
    proof {
        assert(nodes@.len() == n as int);
        lemma_pow2_monotonic(height as int - depth as int - 1, height as int - depth as int);
    }
    let node = &nodes[start];
    let axis_next = axis.next();
    let sorted_ok = is_sorted_on(axis_next, node);
    let cont_computed = compute_cont(axis, node);
    let cont_ok = cont_matches(node.cont, cont_computed);
    if depth + 1 < height {
        let sub = nodes_left(depth + 1, height);
        let div_ok = match node.div {
            Some(d) => {
                node.range.len() > 0 && all_touch(axis, node, d) && some_left_eq(axis, node, d)
            },
            None => node.range.len() == 0,
        };
        let left_ok = check_rec(nodes, start + 1, axis_next, height, depth + 1);
        let right_ok = check_rec(nodes, start + 1 + sub, axis_next, height, depth + 1);
        let empty_ok = match node.div {
            Some(_) => true,
            None => check_all_empty(nodes, start, 2 * sub + 1),
        };
        let r = sorted_ok && cont_ok && div_ok && left_ok && right_ok && empty_ok;
        proof {
            let hd = height as int - depth as int;
            let s = start as int;
            assert(rmodels(nodes@).subrange(s + 1, s + 1 + (pow2(hd - 1) - 1)) =~= sub_nodes
                .subrange(1, 1 + (pow2(hd - 1) - 1)));
            assert(rmodels(nodes@).subrange(
                s + 1 + (pow2(hd - 1) - 1),
                s + 1 + (pow2(hd - 1) - 1) + (pow2(hd - 1) - 1),
            ) =~= sub_nodes.subrange(1 + (pow2(hd - 1) - 1), sub_nodes.len() as int));
            assert(rnode_inv(sub_nodes[0], axis, false) == (sorted_ok && cont_ok && div_ok));
            if r {
                if sub_nodes[0].div is None {
                    assert forall|k: int| 0 <= k < sub_nodes.len() implies (
                    #[trigger] sub_nodes[k]).rects.len() == 0 by {
                        assert(nodes@[s + k].range@.len() == 0);
                        assert(sub_nodes[k] == rnode_of_node(nodes@[s + k]));
                    }
                }
                assert(r_inv(sub_nodes, axis, height as int, depth as int));
            } else {
                if sorted_ok && cont_ok && div_ok && left_ok && right_ok {
                    assert(!empty_ok);
                    if r_inv(sub_nodes, axis, height as int, depth as int) {
                        let w = choose|w: int|
                            start <= w < start + (2 * sub + 1) && (
                            #[trigger] nodes@[w]).range@.len() != 0;
                        assert(sub_nodes[w - s].rects.len() != 0);
                        assert(false);
                    }
                }
            }
        }
        r
    } else {
        let div_ok = match node.div {
            Some(_) => false,
            None => true,
        };
        let r = sorted_ok && cont_ok && div_ok;
        proof {
            assert(sub_nodes.len() == 1);
            assert(rnode_inv(sub_nodes[0], axis, true) == r);
        }
        r
    }
}

/// Returns false if the tree's invariants are not met: the complete-tree
/// shape, the per-node ordering and divider conditions, the exactness of
/// the stored covering intervals, and the emptiness of subtrees under a
/// missing divider.
pub fn assert_invariants<N, T>(tree: &DinoTree<N, T>) -> (r: bool)
    ensures
        r == (tree.height >= 1 && tree.nodes@.len() == pow2(tree.height as int) - 1 && r_inv(
            rmodels(tree.nodes@),
            tree.axis,
            tree.height as int,
            0,
        )),
{
    if tree.height < 1 {
        return false;
    }
    // establish that the node count is exactly 2^height - 1, stopping
    // before any arithmetic can overflow
    let len = tree.nodes.len();
    let mut acc: u128 = 1;
    let mut lv: usize = 0;
    while lv < tree.height
        invariant
            lv <= tree.height,
            acc == pow2(lv as int),
            acc <= len as u128 + 1,
            len == tree.nodes@.len(),
        decreases tree.height - lv,
    {
        proof {
            lemma_pow2_pos(lv as int);
        }
        acc = acc * 2;
        lv = lv + 1;
        if acc > len as u128 + 1 {
            proof {
                lemma_pow2_monotonic(lv as int, tree.height as int);
            }
            return false;
        }
    }
    if (len as u128) + 1 != acc {
        return false;
    }
    proof {
        assert(tree.nodes@.len() == pow2(tree.height as int) - 1);
    }
    let r = check_rec(&tree.nodes, 0, tree.axis, tree.height, 0);
    proof {
        assert(rmodels(tree.nodes@).subrange(0, pow2(tree.height as int) - 1) =~= rmodels(
            tree.nodes@,
        ));
    }
    r
}

} // verus!
