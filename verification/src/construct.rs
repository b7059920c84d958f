//! Construction of the tree: the median partitioner with its three-way
//! binning, and the recursive builders (sequential and parallel). Both
//! builders pin their output to one spec-level node sequence, `build_spec`,
//! so the parallel and the sequential path provably produce the same tree.

use crate::geom::Axis;
use crate::geom::Cont;
use crate::geom::Interval;
use crate::geom::wf_conts;
use crate::height::pow2;
use crate::select::select_by_left;
use crate::splitter::Splitter;
use crate::select::select_of;
use crate::sorting::sort_spec;
use crate::sorting::sorted_on;
use crate::sorting::sweeper_update;
use crate::sorting::lemma_sort_spec;
use vstd::prelude::*;
use vstd::seq_lib::lemma_multiset_commutative;
use vstd::seq_lib::group_to_multiset_ensures;

verus! {

/// Passed to the binning algorithm to say whether it should check for
/// index out of bounds while it scans. Both strategies put every element in
/// the same bucket; the flag was purely a speed choice.
#[derive(Copy, Clone, Debug)]
pub enum BinStrat {
    Checked,
    NotChecked,
}

/// One node of the core tree: the contiguous run of elements that this
/// level keeps (the ones that straddle the divider, for a non-leaf), the
/// minimal interval covering their extents on this node's axis, and the
/// divider position. `cont` is `None` exactly when the range is empty;
/// `div` is `None` on leaves and on non-leaf nodes whose whole subtree is
/// empty.
pub struct ContNode {
    pub range: Vec<Cont>,
    pub cont: Option<Interval>,
    pub div: Option<i64>,
}

/// The mathematical shape of one node.
pub struct CNode {
    pub range: Seq<Cont>,
    pub cont: Option<Interval>,
    pub div: Option<i64>,
}

pub open spec fn cnode_model(n: ContNode) -> CNode {
    CNode { range: n.range@, cont: n.cont, div: n.div }
}

pub open spec fn models(v: Seq<ContNode>) -> Seq<CNode> {
    v.map_values(|n: ContNode| cnode_model(n))
}

/// All elements of all node ranges, in preorder.
pub open spec fn flat(nodes: Seq<CNode>) -> Seq<Cont>
    decreases nodes.len(),
{
    if nodes.len() == 0 {
        Seq::empty()
    } else {
        flat(nodes.drop_last()) + nodes.last().range
    }
}

pub proof fn lemma_flat_add(a: Seq<CNode>, b: Seq<CNode>)
    ensures
        flat(a + b) == flat(a) + flat(b),
    decreases b.len(),
{
    if b.len() == 0 {
        assert(a + b =~= a);
        assert(flat(a) + b.map_values(|n: CNode| n.range).flatten() =~= flat(a) + Seq::empty());
        assert(flat(a) + flat(b) =~= flat(a));
    } else {
        lemma_flat_add(a, b.drop_last());
        assert((a + b).drop_last() =~= a + b.drop_last());
        assert((a + b).last() == b.last());
        assert(flat(a) + flat(b.drop_last()) + b.last().range =~= flat(a) + (flat(b.drop_last())
            + b.last().range));
    }
}

/// The minimal interval covering the extents on `axis` of all elements of
/// `s`: the least left border and the greatest right border. `None` for an
/// empty sequence.
pub open spec fn cont_of(s: Seq<Cont>, axis: Axis) -> Option<Interval>
    decreases s.len(),
{
    if s.len() == 0 {
        None
    } else {
        let r = s.last().rect.get_spec(axis);
        match cont_of(s.drop_last(), axis) {
            None => Some(r),
            Some(c) => Some(
                Interval {
                    left: if r.left < c.left {
                        r.left
                    } else {
                        c.left
                    },
                    right: if r.right > c.right {
                        r.right
                    } else {
                        c.right
                    },
                },
            ),
        }
    }
}

/// Compute the covering interval of the elements' extents on `axis`.
pub fn create_cont(axis: Axis, middle: &Vec<Cont>) -> (r: Option<Interval>)
    ensures
        r == cont_of(middle@, axis),
{
    if middle.len() == 0 {
        return None;
    }
    let first = middle[0];
    let mut acc: Interval = first.rect.get_range(axis);
    let mut i: usize = 1;
    proof {
        assert(middle@.take(1).drop_last() =~= Seq::<Cont>::empty());
        assert(middle@.take(1).last() == middle@[0]);
        assert(cont_of(Seq::<Cont>::empty(), axis) is None);
        assert(cont_of(middle@.take(1), axis) == Some(middle@[0].rect.get_spec(axis)));
    }
    while i < middle.len()
        invariant
            1 <= i <= middle@.len(),
            Some(acc) == cont_of(middle@.take(i as int), axis),
        decreases middle@.len() - i,
    {
        let r = middle[i].rect.get_range(axis);
        proof {
            assert(middle@.take(i as int + 1).drop_last() =~= middle@.take(i as int));
            assert(middle@.take(i as int + 1).last() == middle@[i as int]);
        }
        if r.left < acc.left {
            acc.left = r.left;
        }
        if r.right > acc.right {
            acc.right = r.right;
        }
        i = i + 1;
    }
    proof {
        assert(middle@.take(middle@.len() as int) =~= middle@);
    }
    Some(acc)
}

/// The elements of `s` that straddle the divider, in order.
pub open spec fn keep_mid(s: Seq<Cont>, axis: Axis, div: i64) -> Seq<Cont>
    decreases s.len(),
{
    if s.len() == 0 {
        Seq::empty()
    } else {
        let p = keep_mid(s.drop_last(), axis, div);
        if s.last().touches(axis, div) {
            p.push(s.last())
        } else {
            p
        }
    }
}

/// The elements of `s` entirely left of the divider, in order.
pub open spec fn keep_left(s: Seq<Cont>, axis: Axis, div: i64) -> Seq<Cont>
    decreases s.len(),
{
    if s.len() == 0 {
        Seq::empty()
    } else {
        let p = keep_left(s.drop_last(), axis, div);
        if s.last().entirely_left(axis, div) {
            p.push(s.last())
        } else {
            p
        }
    }
}

/// The elements of `s` entirely right of the divider, in order.
pub open spec fn keep_right(s: Seq<Cont>, axis: Axis, div: i64) -> Seq<Cont>
    decreases s.len(),
{
    if s.len() == 0 {
        Seq::empty()
    } else {
        let p = keep_right(s.drop_last(), axis, div);
        if s.last().entirely_right(axis, div) {
            p.push(s.last())
        } else {
            p
        }
    }
}

/// Every element of a bucket satisfies the bucket's test and comes from
/// `s`; every element of `s` passing the test is in the bucket.
pub proof fn lemma_keep_mid(s: Seq<Cont>, axis: Axis, div: i64)
    ensures
        forall|i: int|
            0 <= i < keep_mid(s, axis, div).len() ==> (#[trigger] keep_mid(s, axis, div)[i]).touches(
                axis,
                div,
            ) && s.contains(keep_mid(s, axis, div)[i]),
        forall|j: int|
            0 <= j < s.len() && (#[trigger] s[j]).touches(axis, div) ==> keep_mid(
                s,
                axis,
                div,
            ).contains(s[j]),
    decreases s.len(),
{
    if s.len() > 0 {
        lemma_keep_mid(s.drop_last(), axis, div);
        let p = keep_mid(s.drop_last(), axis, div);
        let k = keep_mid(s, axis, div);
        assert forall|i: int| 0 <= i < k.len() implies (#[trigger] k[i]).touches(axis, div)
            && s.contains(k[i]) by {
            if i < p.len() {
                assert(p[i].touches(axis, div) && s.drop_last().contains(p[i]));
                let j = choose|j: int| 0 <= j < s.drop_last().len() && s.drop_last()[j] == p[i];
                assert(s[j] == p[i]);
            } else {
                assert(k[i] == s.last());
                assert(s[s.len() - 1] == s.last());
            }
        }
        assert forall|j: int| 0 <= j < s.len() && (#[trigger] s[j]).touches(axis, div) implies k.contains(
            s[j],
        ) by {
            if j < s.len() - 1 {
                assert(s.drop_last()[j] == s[j]);
                assert(p.contains(s[j]));
                let i = choose|i: int| 0 <= i < p.len() && p[i] == s[j];
                assert(k[i] == s[j]);
            } else {
                assert(k[k.len() - 1] == s.last());
            }
        }
    }
}

pub proof fn lemma_keep_left(s: Seq<Cont>, axis: Axis, div: i64)
    ensures
        forall|i: int|
            0 <= i < keep_left(s, axis, div).len() ==> (#[trigger] keep_left(
                s,
                axis,
                div,
            )[i]).entirely_left(axis, div) && s.contains(keep_left(s, axis, div)[i]),
    decreases s.len(),
{
    if s.len() > 0 {
        lemma_keep_left(s.drop_last(), axis, div);
        let p = keep_left(s.drop_last(), axis, div);
        let k = keep_left(s, axis, div);
        assert forall|i: int| 0 <= i < k.len() implies (#[trigger] k[i]).entirely_left(axis, div)
            && s.contains(k[i]) by {
            if i < p.len() {
                assert(p[i].entirely_left(axis, div) && s.drop_last().contains(p[i]));
                let j = choose|j: int| 0 <= j < s.drop_last().len() && s.drop_last()[j] == p[i];
                assert(s[j] == p[i]);
            } else {
                assert(k[i] == s.last());
                assert(s[s.len() - 1] == s.last());
            }
        }
    }
}

pub proof fn lemma_keep_right(s: Seq<Cont>, axis: Axis, div: i64)
    ensures
        forall|i: int|
            0 <= i < keep_right(s, axis, div).len() ==> (#[trigger] keep_right(
                s,
                axis,
                div,
            )[i]).entirely_right(axis, div) && s.contains(keep_right(s, axis, div)[i]),
    decreases s.len(),
{
    if s.len() > 0 {
        lemma_keep_right(s.drop_last(), axis, div);
        let p = keep_right(s.drop_last(), axis, div);
        let k = keep_right(s, axis, div);
        assert forall|i: int| 0 <= i < k.len() implies (#[trigger] k[i]).entirely_right(axis, div)
            && s.contains(k[i]) by {
            if i < p.len() {
                assert(p[i].entirely_right(axis, div) && s.drop_last().contains(p[i]));
                let j = choose|j: int| 0 <= j < s.drop_last().len() && s.drop_last()[j] == p[i];
                assert(s[j] == p[i]);
            } else {
                assert(k[i] == s.last());
                assert(s[s.len() - 1] == s.last());
            }
        }
    }
}

/// On well-formed rectangles the three tests are exclusive and exhaustive,
/// so the three buckets together hold exactly the elements of `s`.
pub proof fn lemma_keep_partition(s: Seq<Cont>, axis: Axis, div: i64)
    requires
        wf_conts(s),
    ensures
        keep_mid(s, axis, div).to_multiset().add(keep_left(s, axis, div).to_multiset()).add(
            keep_right(s, axis, div).to_multiset(),
        ) == s.to_multiset(),
    decreases s.len(),
{
    broadcast use group_to_multiset_ensures;
    broadcast use vstd::multiset::group_multiset_axioms;

    let m = keep_mid(s, axis, div);
    let l = keep_left(s, axis, div);
    let r = keep_right(s, axis, div);
    if s.len() == 0 {
        assert(s =~= Seq::<Cont>::empty());
        assert(m.to_multiset().add(l.to_multiset()).add(r.to_multiset()) =~= s.to_multiset());
    } else {
        let dl = s.drop_last();
        let x = s.last();
        assert(wf_conts(dl)) by {
            assert(forall|i: int| 0 <= i < dl.len() ==> dl[i] == s[i]);
        }
        lemma_keep_partition(dl, axis, div);
        assert(s =~= dl.push(x));
        assert(s.to_multiset() =~= dl.to_multiset().insert(x));
        assert(x.rect.wf()) by {
            assert(s[s.len() - 1].rect.wf());
        }
        let pm = keep_mid(dl, axis, div);
        let pl = keep_left(dl, axis, div);
        let pr = keep_right(dl, axis, div);
        if x.touches(axis, div) {
            assert(m =~= pm.push(x) && l =~= pl && r =~= pr);
            assert(m.to_multiset() =~= pm.to_multiset().insert(x));
            assert(m.to_multiset().add(l.to_multiset()).add(r.to_multiset()) =~= s.to_multiset());
        } else if x.entirely_left(axis, div) {
            assert(m =~= pm && l =~= pl.push(x) && r =~= pr);
            assert(l.to_multiset() =~= pl.to_multiset().insert(x));
            assert(m.to_multiset().add(l.to_multiset()).add(r.to_multiset()) =~= s.to_multiset());
        } else {
            assert(x.entirely_right(axis, div));
            assert(m =~= pm && l =~= pl && r =~= pr.push(x));
            assert(r.to_multiset() =~= pr.to_multiset().insert(x));
            assert(m.to_multiset().add(l.to_multiset()).add(r.to_multiset()) =~= s.to_multiset());
        }
    }
}

/// Scan the elements once and place each in exactly one bucket: the ones
/// that straddle the divider, the ones entirely left of it, and the ones
/// entirely right of it, each bucket in input order.
fn bin_middle_left_right(axis: Axis, div: i64, bots: &Vec<Cont>) -> (r: (
    Vec<Cont>,
    Vec<Cont>,
    Vec<Cont>,
))
    requires
        wf_conts(bots@),
    ensures
        r.0@ == keep_mid(bots@, axis, div),
        r.1@ == keep_left(bots@, axis, div),
        r.2@ == keep_right(bots@, axis, div),
{
    let mut mid: Vec<Cont> = Vec::new();
    let mut left: Vec<Cont> = Vec::new();
    let mut right: Vec<Cont> = Vec::new();
    let mut i: usize = 0;
    while i < bots.len()
        invariant
            i <= bots@.len(),
            wf_conts(bots@),
            mid@ == keep_mid(bots@.take(i as int), axis, div),
            left@ == keep_left(bots@.take(i as int), axis, div),
            right@ == keep_right(bots@.take(i as int), axis, div),
        decreases bots@.len() - i,
    {
        let c = bots[i];
        let rng = c.rect.get_range(axis);
        proof {
            assert(bots@.take(i as int + 1).drop_last() =~= bots@.take(i as int));
            assert(bots@.take(i as int + 1).last() == bots@[i as int]);
            assert(bots@[i as int].rect.wf());
        }
        if rng.left <= div && div <= rng.right {
            mid.push(c);
        } else if rng.right < div {
            left.push(c);
        } else {
            right.push(c);
        }
        i = i + 1;
    }
    proof {
        assert(bots@.take(bots@.len() as int) =~= bots@);
    }
    (mid, left, right)
}

/// The node and the two child inputs a non-leaf level produces from its
/// input: the straddling bucket, sorted on the next axis, becomes the
/// node's range; the other two buckets go to the children. An empty input
/// yields an empty node and empty children.
pub open spec fn non_leaf_parts(s: Seq<Cont>, axis: Axis) -> (CNode, Seq<Cont>, Seq<Cont>) {
    if s.len() == 0 {
        (CNode { range: Seq::empty(), cont: None, div: None }, Seq::empty(), Seq::empty())
    } else {
        let m = s.len() as int / 2;
        let sel = select_of(s, m, axis);
        let d = sel[m].left_on(axis);
        let mid = sort_spec(axis.next_spec(), keep_mid(sel, axis, d));
        (
            CNode { range: mid, cont: cont_of(mid, axis), div: Some(d) },
            keep_left(sel, axis, d),
            keep_right(sel, axis, d),
        )
    }
}

/// One node's own invariant: its range is sorted on the next axis, its
/// `cont` is exactly the covering interval, and for a non-leaf either the
/// divider is present, every element straddles it and at least one
/// element's left border equals it, or the divider is absent and the range
/// is empty. A leaf never carries a divider.
pub open spec fn node_inv(n: CNode, axis: Axis, leaf: bool) -> bool {
    &&& sorted_on(axis.next_spec(), n.range)
    &&& n.cont == cont_of(n.range, axis)
    &&& (leaf ==> n.div is None)
    &&& (!leaf ==> match n.div {
        Some(d) => {
            &&& n.range.len() > 0
            &&& (forall|i: int| 0 <= i < n.range.len() ==> (#[trigger] n.range[i]).touches(axis, d))
            &&& (exists|i: int| 0 <= i < n.range.len() && (#[trigger] n.range[i]).left_on(axis) == d)
        },
        None => n.range.len() == 0,
    })
}

/// Split a non-leaf level's input three ways around the median's left
/// border. Returns the node and the two child inputs.
fn construct_non_leaf(_binstrat: BinStrat, axis: Axis, bots: Vec<Cont>) -> (r: (
    ContNode,
    Vec<Cont>,
    Vec<Cont>,
))
    requires
        wf_conts(bots@),
    ensures
        (cnode_model(r.0), r.1@, r.2@) == non_leaf_parts(bots@, axis),
        cnode_model(r.0).range.to_multiset().add(r.1@.to_multiset()).add(r.2@.to_multiset())
            == bots@.to_multiset(),
        wf_conts(cnode_model(r.0).range),
        wf_conts(r.1@),
        wf_conts(r.2@),
        node_inv(cnode_model(r.0), axis, false),
{
    broadcast use group_to_multiset_ensures;

    let ghost s0 = bots@;
    if bots.len() == 0 {
        let node = ContNode { range: bots, cont: None, div: None };
        let left: Vec<Cont> = Vec::new();
        let right: Vec<Cont> = Vec::new();
        proof {
            assert(s0 =~= Seq::<Cont>::empty());
            assert((cnode_model(node), left@, right@) == non_leaf_parts(s0, axis));
            assert(cnode_model(node).range.to_multiset().add(left@.to_multiset()).add(
                right@.to_multiset(),
            ) =~= s0.to_multiset());
        }
        (node, left, right)
    } else {
        let mut bots = bots;
        let m = bots.len() / 2;
        select_by_left(&mut bots, m, axis);
        let ghost sel = bots@;
        let med = bots[m];
        let div = med.rect.get_range(axis).left;
        proof {
            assert(wf_conts(sel)) by {
                assert forall|i: int| 0 <= i < sel.len() implies (#[trigger] sel[i]).rect.wf() by {
                    assert(sel.contains(sel[i]));
                    assert(sel.to_multiset().count(sel[i]) > 0);
                    assert(s0.to_multiset().count(sel[i]) > 0);
                    assert(s0.contains(sel[i]));
                    let j = choose|j: int| 0 <= j < s0.len() && s0[j] == sel[i];
                    assert(s0[j].rect.wf());
                }
            }
        }
        let (mid0, left, right) = bin_middle_left_right(axis, div, &bots);
        let mut mid = mid0;
        sweeper_update(axis.next(), &mut mid);
        let cont = create_cont(axis, &mid);
        let node = ContNode { range: mid, cont, div: Some(div) };
        proof {
            let d = sel[m as int].left_on(axis);
            assert(div == d);
            let km = keep_mid(sel, axis, d);
            let smid = sort_spec(axis.next_spec(), km);
            lemma_sort_spec(axis.next_spec(), km);
            lemma_keep_mid(sel, axis, d);
            lemma_keep_left(sel, axis, d);
            lemma_keep_right(sel, axis, d);
            lemma_keep_partition(sel, axis, d);
            // the model equals the spec parts
            assert(cnode_model(node).range == smid);
            assert((cnode_model(node), left@, right@) == non_leaf_parts(s0, axis));
            // multiset partition, carried through the sort
            assert(cnode_model(node).range.to_multiset().add(left@.to_multiset()).add(
                right@.to_multiset(),
            ) == s0.to_multiset());
            // well-formedness of each part
            assert forall|i: int| 0 <= i < smid.len() implies (#[trigger] smid[i]).rect.wf() by {
                assert(smid.contains(smid[i]));
                assert(smid.to_multiset().count(smid[i]) > 0);
                assert(km.to_multiset().count(smid[i]) > 0);
                assert(km.contains(smid[i]));
                let j = choose|j: int| 0 <= j < km.len() && km[j] == smid[i];
                assert(sel.contains(km[j]));
                let j2 = choose|j2: int| 0 <= j2 < sel.len() && sel[j2] == km[j];
                assert(sel[j2].rect.wf());
            }
            assert forall|i: int| 0 <= i < left@.len() implies (#[trigger] left@[i]).rect.wf() by {
                assert(sel.contains(left@[i]));
                let j = choose|j: int| 0 <= j < sel.len() && sel[j] == left@[i];
                assert(sel[j].rect.wf());
            }
            assert forall|i: int| 0 <= i < right@.len() implies (#[trigger] right@[i]).rect.wf() by {
                assert(sel.contains(right@[i]));
                let j = choose|j: int| 0 <= j < sel.len() && sel[j] == right@[i];
                assert(sel[j].rect.wf());
            }
            // the node invariant: the median element straddles its own left
            // border, so the middle bucket cannot be empty
            assert(sel[m as int].rect.wf());
            assert(sel[m as int].touches(axis, d));
            assert(km.contains(sel[m as int]));
            assert(smid.to_multiset().count(sel[m as int]) > 0);
            assert(smid.contains(sel[m as int]));
            assert(smid.len() > 0);
            let w = choose|w: int| 0 <= w < smid.len() && smid[w] == sel[m as int];
            assert(smid[w].left_on(axis) == d);
            assert forall|i: int| 0 <= i < smid.len() implies (#[trigger] smid[i]).touches(
                axis,
                d,
            ) by {
                assert(smid.contains(smid[i]));
                assert(km.to_multiset().count(smid[i]) > 0);
                assert(km.contains(smid[i]));
                let j = choose|j: int| 0 <= j < km.len() && km[j] == smid[i];
                assert(km[j].touches(axis, d));
            }
            assert(node_inv(cnode_model(node), axis, false));
        }
        (node, left, right)
    }
}

/// The node a leaf level produces: the whole input, sorted on the next
/// axis, with its covering interval and no divider.
pub open spec fn leaf_node(s: Seq<Cont>, axis: Axis) -> CNode {
    let r = sort_spec(axis.next_spec(), s);
    CNode { range: r, cont: cont_of(r, axis), div: None }
}

/// The preorder node sequence that building from input `s` at `depth` in a
/// tree of the given height yields. Both the sequential and the parallel
/// builder produce exactly this sequence.
pub open spec fn build_spec(s: Seq<Cont>, axis: Axis, height: int, depth: int) -> Seq<CNode>
    decreases height - depth,
{
    if depth + 1 < height {
        let parts = non_leaf_parts(s, axis);
        seq![parts.0] + build_spec(parts.1, axis.next_spec(), height, depth + 1) + build_spec(
            parts.2,
            axis.next_spec(),
            height,
            depth + 1,
        )
    } else {
        seq![leaf_node(s, axis)]
    }
}

/// The structural invariant of a subtree's preorder node sequence: the
/// complete-tree shape, each node's own invariant with the axis
/// alternating by level, and under a non-leaf without a divider an
/// entirely empty subtree.
pub open spec fn tree_inv(nodes: Seq<CNode>, axis: Axis, height: int, depth: int) -> bool
    decreases height - depth,
{
    &&& nodes.len() == pow2(height - depth) - 1
    &&& 1 <= nodes.len()
    &&& if depth + 1 < height {
        let sub = pow2(height - depth - 1) - 1;
        &&& node_inv(nodes[0], axis, false)
        &&& tree_inv(nodes.subrange(1, 1 + sub), axis.next_spec(), height, depth + 1)
        &&& tree_inv(
            nodes.subrange(1 + sub, nodes.len() as int),
            axis.next_spec(),
            height,
            depth + 1,
        )
        &&& (nodes[0].div is None ==> flat(nodes).len() == 0)
    } else {
        node_inv(nodes[0], axis, true)
    }
}

/// What every builder guarantees of its output: it is exactly
/// `build_spec`, it holds the same elements as the input, and the
/// structural invariant holds.
pub open spec fn recurse_post(s: Seq<Cont>, axis: Axis, height: int, depth: int, out: Seq<CNode>) -> bool {
    &&& out == build_spec(s, axis, height, depth)
    &&& flat(out).to_multiset() == s.to_multiset()
    &&& tree_inv(out, axis, height, depth)
}

/// The common stitching argument of the two builders: a non-leaf node and
/// the two finished child sequences concatenate to a subtree that again
/// satisfies `recurse_post`.
proof fn lemma_stitch(
    s0: Seq<Cont>,
    axis: Axis,
    height: int,
    depth: int,
    node: CNode,
    lseq: Seq<Cont>,
    rseq: Seq<Cont>,
    lm: Seq<CNode>,
    rm: Seq<CNode>,
    out: Seq<CNode>,
)
    requires
        depth + 1 < height,
        (node, lseq, rseq) == non_leaf_parts(s0, axis),
        node.range.to_multiset().add(lseq.to_multiset()).add(rseq.to_multiset())
            == s0.to_multiset(),
        node_inv(node, axis, false),
        recurse_post(lseq, axis.next_spec(), height, depth + 1, lm),
        recurse_post(rseq, axis.next_spec(), height, depth + 1, rm),
        out == seq![node] + lm + rm,
    ensures
        recurse_post(s0, axis, height, depth, out),
{
    broadcast use group_to_multiset_ensures;

    let bl = build_spec(lseq, axis.next_spec(), height, depth + 1);
    let br = build_spec(rseq, axis.next_spec(), height, depth + 1);
    assert(out == build_spec(s0, axis, height, depth));
    // the elements of the subtree are exactly the input elements
    lemma_flat_add(seq![node] + lm, rm);
    lemma_flat_add(seq![node], lm);
    assert(seq![node].drop_last() =~= Seq::<CNode>::empty());
    assert(flat(Seq::<CNode>::empty()) == Seq::<Cont>::empty());
    assert(flat(seq![node]) == flat(seq![node].drop_last()) + seq![node].last().range);
    assert(flat(seq![node]) =~= node.range);
    lemma_multiset_commutative(flat(seq![node] + lm), flat(rm));
    lemma_multiset_commutative(flat(seq![node]), flat(lm));
    assert(flat(out).to_multiset() == s0.to_multiset());
    // the structural invariant
    let sub = pow2(height - depth - 1) - 1;
    assert(lm.len() == sub && rm.len() == sub);
    assert(out.len() == pow2(height - depth) - 1);
    assert(out.subrange(1, 1 + sub) =~= lm);
    assert(out.subrange(1 + sub, out.len() as int) =~= rm);
    assert(out[0] == node);
    if node.div is None {
        assert(s0.len() == 0);
        assert(flat(out).len() == flat(out).to_multiset().len());
        assert(s0.to_multiset().len() == s0.len());
    }
    assert(tree_inv(out, axis, height, depth));
}

/// Sort the remaining elements on the next axis and close them into a
/// leaf node.
fn create_leaf(axis: Axis, bots: Vec<Cont>) -> (node: ContNode)
    ensures
        cnode_model(node) == leaf_node(bots@, axis),
{
    let mut bots = bots;
    sweeper_update(axis.next(), &mut bots);
    let cont = create_cont(axis, &bots);
    ContNode { range: bots, cont, div: None }
}

/// A single leaf node satisfies the builders' postcondition at the last
/// level.
proof fn lemma_leaf_post(s0: Seq<Cont>, axis: Axis, height: int, depth: int, out: Seq<CNode>)
    requires
        depth < height,
        !(depth + 1 < height),
        out == seq![leaf_node(s0, axis)],
    ensures
        recurse_post(s0, axis, height, depth, out),
{
    broadcast use group_to_multiset_ensures;

    lemma_sort_spec(axis.next_spec(), s0);
    assert(out.drop_last() =~= Seq::<CNode>::empty());
    assert(flat(Seq::<CNode>::empty()) == Seq::<Cont>::empty());
    assert(flat(out) == flat(out.drop_last()) + out.last().range);
    assert(flat(out) =~= leaf_node(s0, axis).range);
    reveal_with_fuel(pow2, 3);
    assert(pow2(height - depth) - 1 == 1);
    assert(tree_inv(out, axis, height, depth));
}

/// One recursive build step, sequential: partition, keep the straddling
/// bucket as this node, and recurse into the two outer buckets with the
/// axis flipped. Nodes come out in preorder.
pub(crate) fn recurse_preorder_seq<S: Splitter>(
    axis: Axis,
    bots: Vec<Cont>,
    splitter: S,
    height: usize,
    depth: usize,
    binstrat: BinStrat,
) -> (r: (Vec<ContNode>, S))
    requires
        wf_conts(bots@),
        depth < height,
    ensures
        recurse_post(bots@, axis, height as int, depth as int, models(r.0@)),
    decreases height - depth,
{
    let mut splitter = splitter;
    splitter.node_start();
    if depth + 1 < height {
        let ghost s0 = bots@;
        let (node, left, right) = construct_non_leaf(binstrat, axis, bots);
        let ghost lseq = left@;
        let ghost rseq = right@;
        let splitter2 = splitter.div();
        let (mut nl, splitter_l) = recurse_preorder_seq(
            axis.next(),
            left,
            splitter,
            height,
            depth + 1,
            binstrat,
        );
        let (mut nr, splitter_r) = recurse_preorder_seq(
            axis.next(),
            right,
            splitter2,
            height,
            depth + 1,
            binstrat,
        );
        let mut splitter = splitter_l;
        splitter.add(splitter_r);
        let ghost nlv = nl@;
        let ghost nrv = nr@;
        let mut out: Vec<ContNode> = Vec::new();
        out.push(node);
        out.append(&mut nl);
        out.append(&mut nr);
        proof {
            assert(out@ =~= seq![node] + nlv + nrv);
            assert(models(out@) =~= seq![cnode_model(node)] + models(nlv) + models(nrv));
            lemma_stitch(
                s0,
                axis,
                height as int,
                depth as int,
                cnode_model(node),
                lseq,
                rseq,
                models(nlv),
                models(nrv),
                models(out@),
            );
        }
        (out, splitter)
    } else {
        let ghost s0 = bots@;
        let node = create_leaf(axis, bots);
        let mut out: Vec<ContNode> = Vec::new();
        out.push(node);
        splitter.node_end();
        proof {
            assert(models(out@) =~= seq![leaf_node(s0, axis)]);
            lemma_leaf_post(s0, axis, height as int, depth as int, models(out@));
        }
        (out, splitter)
    }
}

/// One recursive build step, parallel: identical logic to the sequential
/// step, but while the depth is below the switch depth the two child
/// builds fork onto independent execution contexts and are joined before
/// returning. The output node sequence is the same either way.
pub(crate) fn recurse_preorder<S: Splitter + Send>(
    axis: Axis,
    bots: Vec<Cont>,
    splitter: S,
    height: usize,
    depth: usize,
    switch_depth: usize,
    binstrat: BinStrat,
) -> (r: (Vec<ContNode>, S))
    requires
        wf_conts(bots@),
        depth < height,
    ensures
        recurse_post(bots@, axis, height as int, depth as int, models(r.0@)),
    decreases height - depth,
{
    let mut splitter = splitter;
    splitter.node_start();
    if depth + 1 < height {
        let ghost s0 = bots@;
        let (node, left, right) = construct_non_leaf(binstrat, axis, bots);
        let ghost lseq = left@;
        let ghost rseq = right@;
        let splitter2 = splitter.div();
        let axis_next = axis.next();
        let (nl_pair, nr_pair) = if depth < switch_depth {
            let spl = splitter;
            crate::par::join(
                (move || -> (out: (Vec<ContNode>, S))
                    ensures
                        recurse_post(
                            lseq,
                            axis_next,
                            height as int,
                            depth as int + 1,
                            models(out.0@),
                        ),
                    {
                        recurse_preorder(
                            axis_next,
                            left,
                            spl,
                            height,
                            depth + 1,
                            switch_depth,
                            binstrat,
                        )
                    }),
                (move || -> (out: (Vec<ContNode>, S))
                    ensures
                        recurse_post(
                            rseq,
                            axis_next,
                            height as int,
                            depth as int + 1,
                            models(out.0@),
                        ),
                    {
                        recurse_preorder(
                            axis_next,
                            right,
                            splitter2,
                            height,
                            depth + 1,
                            switch_depth,
                            binstrat,
                        )
                    }),
            )
        } else {
            let a = recurse_preorder_seq(axis_next, left, splitter, height, depth + 1, binstrat);
            let b = recurse_preorder_seq(axis_next, right, splitter2, height, depth + 1, binstrat);
            (a, b)
        };
        let (mut nl, mut splitter) = nl_pair;
        let (mut nr, splitter_r) = nr_pair;
        splitter.add(splitter_r);
        let ghost nlv = nl@;
        let ghost nrv = nr@;
        let mut out: Vec<ContNode> = Vec::new();
        out.push(node);
        out.append(&mut nl);
        out.append(&mut nr);
        proof {
            assert(out@ =~= seq![node] + nlv + nrv);
            assert(models(out@) =~= seq![cnode_model(node)] + models(nlv) + models(nrv));
            lemma_stitch(
                s0,
                axis,
                height as int,
                depth as int,
                cnode_model(node),
                lseq,
                rseq,
                models(nlv),
                models(nrv),
                models(out@),
            );
        }
        (out, splitter)
    } else {
        let ghost s0 = bots@;
        let node = create_leaf(axis, bots);
        let mut out: Vec<ContNode> = Vec::new();
        out.push(node);
        splitter.node_end();
        proof {
            assert(models(out@) =~= seq![leaf_node(s0, axis)]);
            lemma_leaf_post(s0, axis, height as int, depth as int, models(out@));
        }
        (out, splitter)
    }
}

/// Build the whole preorder node sequence sequentially.
pub(crate) fn create_tree_seq<S: Splitter>(
    div_axis: Axis,
    rest: Vec<Cont>,
    splitter: S,
    height: usize,
    binstrat: BinStrat,
) -> (r: (Vec<ContNode>, S))
    requires
        wf_conts(rest@),
        height >= 1,
    ensures
        recurse_post(rest@, div_axis, height as int, 0, models(r.0@)),
{
    recurse_preorder_seq(div_axis, rest, splitter, height, 0, binstrat)
}

/// Build the whole preorder node sequence with fork-join parallelism above
/// `switch_depth`. The result is the same node sequence the sequential
/// builder produces, whatever the switch depth.
pub(crate) fn create_tree_par<S: Splitter + Send>(
    div_axis: Axis,
    switch_depth: usize,
    rest: Vec<Cont>,
    splitter: S,
    height: usize,
    binstrat: BinStrat,
) -> (r: (Vec<ContNode>, S))
    requires
        wf_conts(rest@),
        height >= 1,
    ensures
        recurse_post(rest@, div_axis, height as int, 0, models(r.0@)),
{
    recurse_preorder(div_axis, rest, splitter, height, 0, switch_depth, binstrat)
}

} // verus!
