//! The tree itself: a flat arena of uniform nodes in depth-first preorder,
//! the element copies they own, the mover permutation that leads back to
//! the caller's order, and the builder that produces all of it.

use crate::construct::BinStrat;
use crate::construct::CNode;
use crate::construct::ContNode;
use crate::construct::build_spec;
use crate::construct::create_tree_par;
use crate::construct::create_tree_seq;
use crate::construct::flat;
use crate::construct::models;
use crate::construct::recurse_post;
use crate::geom::Axis;
use crate::geom::BBox;
use crate::geom::Cont;
use crate::geom::Interval;
use crate::geom::wf_conts;
use crate::height::DEFAULT_NUMBER_ELEM_PER_NODE;
use crate::height::compute_tree_height_heuristic;
use crate::par::SWITCH_SEQUENTIAL_DEFAULT;
use crate::par::compute_level_switch_sequential;
use crate::splitter::Splitter;
use crate::splitter::SplitterEmpty;
use vstd::prelude::*;
use vstd::seq_lib::group_to_multiset_ensures;

verus! {

/// Every element of the input has a well-formed rectangle.
pub open spec fn wf_boxes<T>(s: Seq<BBox<T>>) -> bool {
    forall|i: int| 0 <= i < s.len() ==> (#[trigger] s[i]).rect.wf()
}

/// The construction elements for an input: each box's rectangle together
/// with its position.
pub open spec fn conts_of<T>(s: Seq<BBox<T>>) -> Seq<Cont> {
    Seq::new(s.len(), |i: int| Cont { rect: s[i].rect, index: i as usize })
}

/// A node of the tree: the contiguous run of boxes that belong to this
/// level, sorted along the next level's axis; the minimal interval
/// covering their extents on this node's axis (`None` iff the run is
/// empty); the divider position (`None` on leaves and on non-leaf nodes
/// with an empty subtree); and a caller-defined per-node payload.
pub struct Node<N, T> {
    pub misc: N,
    pub range: Vec<BBox<T>>,
    pub cont: Option<Interval>,
    pub div: Option<i64>,
}

/// The tree: nodes in depth-first preorder, the starting axis, the height,
/// and the mover. `mover[i]` is the original input position of the element
/// now stored at in-tree position `i` (preorder, left before right). The
/// shape of a finished tree must not be changed; the payloads may.
pub struct DinoTree<N, T> {
    pub axis: Axis,
    pub height: usize,
    pub nodes: Vec<Node<N, T>>,
    pub mover: Vec<usize>,
    pub num_bots: usize,
}

/// One tree node holds exactly the elements of one core node: same cont
/// and divider, and element `j` is the input box at the core element's
/// recorded position, whose rectangle is the core element's rectangle.
pub open spec fn node_match<N, T>(n: Node<N, T>, c: CNode, input: Seq<BBox<T>>, misc: N) -> bool {
    &&& n.misc == misc
    &&& n.cont == c.cont
    &&& n.div == c.div
    &&& n.range@.len() == c.range.len()
    &&& forall|j: int|
        0 <= j < c.range.len() ==> (#[trigger] c.range[j]).index < input.len() && n.range@[j]
            == input[c.range[j].index as int] && n.range@[j].rect == c.range[j].rect
}

pub open spec fn nodes_match<N, T>(
    ns: Seq<Node<N, T>>,
    cs: Seq<CNode>,
    input: Seq<BBox<T>>,
    misc: N,
) -> bool {
    &&& ns.len() == cs.len()
    &&& forall|k: int| 0 <= k < cs.len() ==> node_match(#[trigger] ns[k], cs[k], input, misc)
}

/// What building from `input` guarantees: the fields are as configured,
/// the nodes hold exactly the elements of the spec-level node sequence,
/// and the mover reads the recorded positions off in preorder.
pub open spec fn tree_from<N, T>(
    t: DinoTree<N, T>,
    input: Seq<BBox<T>>,
    axis: Axis,
    height: int,
    misc: N,
) -> bool {
    let core = build_spec(conts_of(input), axis, height, 0);
    &&& t.axis == axis
    &&& t.height == height
    &&& t.num_bots == input.len()
    &&& nodes_match(t.nodes@, core, input, misc)
    &&& t.mover@ == flat(core).map_values(|c: Cont| c.index)
    &&& recurse_post(conts_of(input), axis, height, 0, core)
}

/// All boxes of all node ranges, in preorder.
pub open spec fn gflat<N, T>(nodes: Seq<Node<N, T>>) -> Seq<BBox<T>>
    decreases nodes.len(),
{
    if nodes.len() == 0 {
        Seq::empty()
    } else {
        gflat(nodes.drop_last()) + nodes.last().range@
    }
}

/// A tree fit for use: the mover is a permutation of the in-tree
/// positions, one entry per stored box.
pub open spec fn tree_wf<N, T>(t: DinoTree<N, T>) -> bool {
    &&& t.mover@.len() == t.num_bots
    &&& gflat(t.nodes@).len() == t.num_bots
    &&& forall|i: int| 0 <= i < t.mover@.len() ==> (#[trigger] t.mover@[i]) < t.num_bots
    &&& forall|i1: int, i2: int| #![trigger t.mover@[i1], t.mover@[i2]]
        0 <= i1 < i2 < t.mover@.len() ==> t.mover@[i1] != t.mover@[i2]
    &&& forall|j: usize| 0 <= j < t.num_bots ==> #[trigger] t.mover@.contains(j)
}

/// Every element stored anywhere in the core nodes is one of the
/// construction elements: its recorded position is in range and its
/// rectangle is the input box's rectangle at that position.
proof fn lemma_flat_elem_contains(nodes: Seq<CNode>, k: int, j: int)
    requires
        0 <= k < nodes.len(),
        0 <= j < nodes[k].range.len(),
    ensures
        flat(nodes).contains(nodes[k].range[j]),
    decreases nodes.len(),
{
    let dl = nodes.drop_last();
    if k == nodes.len() - 1 {
        assert(flat(nodes)[flat(dl).len() + j] == nodes[k].range[j]);
    } else {
        lemma_flat_elem_contains(dl, k, j);
        let i = choose|i: int| 0 <= i < flat(dl).len() && flat(dl)[i] == dl[k].range[j];
        assert(flat(nodes)[i] == nodes[k].range[j]);
    }
}

proof fn lemma_core_faithful<T>(input: Seq<BBox<T>>, core: Seq<CNode>)
    requires
        input.len() <= usize::MAX,
        flat(core).to_multiset() == conts_of(input).to_multiset(),
    ensures
        forall|k: int, j: int|
            0 <= k < core.len() && 0 <= j < core[k].range.len() ==> (
            #[trigger] core[k].range[j]).index < input.len() && core[k].range[j].rect
                == input[core[k].range[j].index as int].rect,
{
    broadcast use group_to_multiset_ensures;

    assert forall|k: int, j: int|
        0 <= k < core.len() && 0 <= j < core[k].range.len() implies (
    #[trigger] core[k].range[j]).index < input.len() && core[k].range[j].rect
        == input[core[k].range[j].index as int].rect by {
        lemma_flat_elem_contains(core, k, j);
        let c = core[k].range[j];
        assert(flat(core).to_multiset().count(c) > 0);
        assert(conts_of(input).to_multiset().count(c) > 0);
        assert(conts_of(input).contains(c));
        let i = choose|i: int| 0 <= i < conts_of(input).len() && conts_of(input)[i] == c;
        assert(conts_of(input)[i] == Cont { rect: input[i].rect, index: i as usize });
        assert(c.index == i as usize && c.rect == input[i].rect);
    }
}

/// The positions recorded in the core nodes, read off in preorder, form a
/// permutation: no position twice, every position present.
proof fn lemma_mover_permutation<T>(input: Seq<BBox<T>>, core: Seq<CNode>)
    requires
        input.len() <= usize::MAX,
        flat(core).to_multiset() == conts_of(input).to_multiset(),
    ensures
        flat(core).len() == input.len(),
        forall|i: int| 0 <= i < flat(core).len() ==> (#[trigger] flat(core)[i]).index < input.len(),
        forall|i1: int, i2: int| #![trigger flat(core)[i1], flat(core)[i2]]
            0 <= i1 < i2 < flat(core).len() ==> flat(core)[i1].index != flat(core)[i2].index,
        forall|j: int| 0 <= j < input.len() ==> #[trigger] flat(core).contains(conts_of(input)[j]),
{
    broadcast use group_to_multiset_ensures;

    let f = flat(core);
    let cs = conts_of(input);
    assert(f.len() == f.to_multiset().len());
    assert(cs.len() == cs.to_multiset().len());
    // each element of the flattened core is a construction element
    assert forall|i: int| 0 <= i < f.len() implies (#[trigger] f[i]).index < input.len()
        && f[i].rect == input[f[i].index as int].rect by {
        assert(f.contains(f[i]));
        assert(cs.to_multiset().count(f[i]) > 0);
        assert(cs.contains(f[i]));
        let w = choose|w: int| 0 <= w < cs.len() && cs[w] == f[i];
        assert(cs[w] == Cont { rect: input[w].rect, index: w as usize });
    }
    // the construction elements are pairwise distinct, so the flattened
    // core has no element twice, and an element is determined by its
    // recorded position
    assert(cs.no_duplicates()) by {
        assert forall|a: int, b: int| 0 <= a < b < cs.len() implies cs[a] != cs[b] by {
            assert(cs[a].index == a as usize && cs[b].index == b as usize);
        }
    }
    cs.lemma_multiset_has_no_duplicates();
    f.lemma_multiset_has_no_duplicates_conv();
    assert forall|i1: int, i2: int| #![trigger f[i1], f[i2]] 0 <= i1 < i2 < f.len() implies f[i1].index
        != f[i2].index by {
        if f[i1].index == f[i2].index {
            assert(f[i1].rect == input[f[i1].index as int].rect);
            assert(f[i2].rect == input[f[i2].index as int].rect);
            assert(f[i1] == f[i2]);
        }
    }
    // every position is present
    assert forall|j: int| 0 <= j < input.len() implies #[trigger] f.contains(cs[j]) by {
        assert(cs.contains(cs[j]));
        assert(f.to_multiset().count(cs[j]) > 0);
    }
}

/// Indexing into the preorder flattening: element `j` of node `k` sits at
/// position `gflat(nodes.take(k)).len() + j`.
proof fn lemma_gflat_index<N, T>(nodes: Seq<Node<N, T>>, k: int, j: int)
    requires
        0 <= k < nodes.len(),
        0 <= j < nodes[k].range@.len(),
    ensures
        0 <= gflat(nodes.take(k)).len() + j < gflat(nodes).len(),
        gflat(nodes)[gflat(nodes.take(k)).len() + j] == nodes[k].range@[j],
    decreases nodes.len(),
{
    let dl = nodes.drop_last();
    if k == nodes.len() - 1 {
        assert(nodes.take(k) =~= dl);
        assert(gflat(nodes)[gflat(dl).len() + j] == nodes[k].range@[j]);
    } else {
        lemma_gflat_index(dl, k, j);
        assert(dl.take(k) =~= nodes.take(k));
        assert(gflat(nodes)[gflat(nodes.take(k)).len() + j] == gflat(dl)[gflat(
            nodes.take(k),
        ).len() + j]);
    }
}

/// One step of the preorder flattening.
proof fn lemma_gflat_step<N, T>(nodes: Seq<Node<N, T>>, k: int)
    requires
        0 <= k < nodes.len(),
    ensures
        gflat(nodes.take(k + 1)) == gflat(nodes.take(k)) + nodes[k].range@,
{
    assert(nodes.take(k + 1).drop_last() =~= nodes.take(k));
    assert(nodes.take(k + 1).last() == nodes[k]);
}

proof fn lemma_flat_step(nodes: Seq<CNode>, k: int)
    requires
        0 <= k < nodes.len(),
    ensures
        flat(nodes.take(k + 1)) == flat(nodes.take(k)) + nodes[k].range,
{
    assert(nodes.take(k + 1).drop_last() =~= nodes.take(k));
    assert(nodes.take(k + 1).last() == nodes[k]);
}

/// Matching node sequences flatten to matching box sequences.
proof fn lemma_match_flat<N, T>(
    ns: Seq<Node<N, T>>,
    cs: Seq<CNode>,
    input: Seq<BBox<T>>,
    misc: N,
)
    requires
        nodes_match(ns, cs, input, misc),
    ensures
        gflat(ns).len() == flat(cs).len(),
        forall|i: int|
            0 <= i < flat(cs).len() ==> (#[trigger] flat(cs)[i]).index < input.len() && gflat(
                ns,
            )[i] == input[flat(cs)[i].index as int],
    decreases cs.len(),
{
    if cs.len() > 0 {
        let nd = ns.drop_last();
        let cd = cs.drop_last();
        assert(nodes_match(nd, cd, input, misc)) by {
            assert(forall|k: int| 0 <= k < cd.len() ==> nd[k] == ns[k] && cd[k] == cs[k]);
        }
        lemma_match_flat(nd, cd, input, misc);
        assert(node_match(ns[cs.len() - 1], cs[cs.len() - 1], input, misc));
        assert forall|i: int| 0 <= i < flat(cs).len() implies (#[trigger] flat(cs)[i]).index
            < input.len() && gflat(ns)[i] == input[flat(cs)[i].index as int] by {
            if i < flat(cd).len() {
                assert(flat(cs)[i] == flat(cd)[i]);
                assert(gflat(ns)[i] == gflat(nd)[i]);
            } else {
                let j = i - flat(cd).len();
                assert(flat(cs)[i] == cs.last().range[j]);
                assert(gflat(ns)[i] == ns.last().range@[j]);
            }
        }
    }
}

/// Turn the caller's boxes into construction elements.
fn prepare_conts<T: Copy>(bots: &Vec<BBox<T>>) -> (r: Vec<Cont>)
    ensures
        r@ == conts_of(bots@),
{
    let mut conts: Vec<Cont> = Vec::new();
    let mut i: usize = 0;
    while i < bots.len()
        invariant
            i <= bots@.len(),
            conts@.len() == i,
            forall|j: int| 0 <= j < i ==> conts@[j] == conts_of(bots@)[j],
        decreases bots@.len() - i,
    {
        let b = bots[i];
        conts.push(Cont { rect: b.rect, index: i });
        i = i + 1;
    }
    proof {
        assert(conts@ =~= conts_of(bots@));
    }
    conts
}

/// Copy the caller's boxes into the finished node shapes, and read the
/// mover off in preorder.
fn assemble<N: Copy, T: Copy>(
    misc: N,
    bots: &Vec<BBox<T>>,
    cnodes: Vec<ContNode>,
    axis: Axis,
    height: usize,
) -> (t: DinoTree<N, T>)
    requires
        recurse_post(conts_of(bots@), axis, height as int, 0, models(cnodes@)),
    ensures
        tree_from(t, bots@, axis, height as int, misc),
        tree_wf(t),
{
    let ghost core = models(cnodes@);
    let ghost input = bots@;
    let nb = bots.len();
    proof {
        broadcast use group_to_multiset_ensures;

        assert(input.len() == nb as int);
        assert(conts_of(input).len() == input.len());
        assert(flat(core).len() == flat(core).to_multiset().len());
        assert(conts_of(input).len() == conts_of(input).to_multiset().len());
        lemma_core_faithful(input, core);
        lemma_mover_permutation(input, core);
    }
    let mut nodes: Vec<Node<N, T>> = Vec::new();
    let mut mover: Vec<usize> = Vec::new();
    let mut k: usize = 0;
    while k < cnodes.len()
        invariant
            k <= cnodes@.len(),
            core == models(cnodes@),
            input == bots@,
            input.len() <= usize::MAX,
            forall|kk: int, j: int|
                0 <= kk < core.len() && 0 <= j < core[kk].range.len() ==> (
                #[trigger] core[kk].range[j]).index < input.len() && core[kk].range[j].rect
                    == input[core[kk].range[j].index as int].rect,
            nodes@.len() == k,
            forall|kk: int| 0 <= kk < k ==> node_match(#[trigger] nodes@[kk], core[kk], input, misc),
            mover@ == flat(core.take(k as int)).map_values(|c: Cont| c.index),
        decreases cnodes@.len() - k,
    {
        let cn = &cnodes[k];
        let ghost c = core[k as int];
        let mut range: Vec<BBox<T>> = Vec::new();
        let mut j: usize = 0;
        proof {
            assert(c.range == cn.range@);
        }
        while j < cn.range.len()
            invariant
                j <= cn.range@.len(),
                c.range == cn.range@,
                input == bots@,
                forall|jj: int|
                    0 <= jj < c.range.len() ==> (#[trigger] c.range[jj]).index < input.len()
                        && c.range[jj].rect == input[c.range[jj].index as int].rect,
                range@.len() == j,
                forall|jj: int|
                    0 <= jj < j ==> #[trigger] range@[jj] == input[c.range[jj].index as int],
                mover@.len() == flat(core.take(k as int)).len() + j,
                forall|jj: int|
                    0 <= jj < flat(core.take(k as int)).len() + j ==> #[trigger] mover@[jj] == (
                    flat(core.take(k as int)) + c.range)[jj].index,
            decreases cn.range@.len() - j,
        {
            let cel = cn.range[j];
            range.push(bots[cel.index]);
            mover.push(cel.index);
            j = j + 1;
        }
        let node = Node { misc, range, cont: cn.cont, div: cn.div };
        nodes.push(node);
        proof {
            lemma_flat_step(core, k as int);
            assert(node_match(nodes@[k as int], c, input, misc));
            assert(mover@ =~= flat(core.take(k as int + 1)).map_values(|cc: Cont| cc.index));
        }
        k = k + 1;
    }
    let t = DinoTree { axis, height, nodes, mover, num_bots: nb };
    proof {
        broadcast use group_to_multiset_ensures;

        assert(core.take(core.len() as int) =~= core);
        assert(nodes_match(t.nodes@, core, input, misc));
        assert(tree_from(t, input, axis, height as int, misc));
        // the tree is well-formed: the mover is a permutation
        lemma_match_flat(t.nodes@, core, input, misc);
        assert(flat(core).len() == input.len());
        assert forall|j: usize| 0 <= j < t.num_bots implies #[trigger] t.mover@.contains(j) by {
            assert(flat(core).contains(conts_of(input)[j as int]));
            let i = choose|i: int|
                0 <= i < flat(core).len() && flat(core)[i] == conts_of(input)[j as int];
            assert(conts_of(input)[j as int].index == j);
            assert(t.mover@[i] == j);
        }
        assert(tree_wf(t));
    }
    t
}

/// Builder pattern for the tree. The caller picks the starting axis and
/// hands over the boxes; the height, the binning strategy and the
/// parallel switch depth have tuned defaults and can be overridden before
/// building.
pub struct DinoTreeBuilder<T> {
    pub axis: Axis,
    pub bots: Vec<BBox<T>>,
    pub rebal_strat: BinStrat,
    pub height: usize,
    pub height_switch_seq: usize,
}

impl<T: Copy> DinoTreeBuilder<T> {
    /// Create a new builder with the boxes to index. The height is picked
    /// by the heuristic from the number of boxes.
    pub fn new(axis: Axis, bots: Vec<BBox<T>>) -> (r: DinoTreeBuilder<T>)
        ensures
            r.axis == axis,
            r.bots == bots,
            r.height == crate::height::height_spec(
                bots@.len() as int,
                DEFAULT_NUMBER_ELEM_PER_NODE as int,
            ),
            r.height >= 1,
    {
        let height = compute_tree_height_heuristic(bots.len(), DEFAULT_NUMBER_ELEM_PER_NODE);
        DinoTreeBuilder {
            axis,
            bots,
            rebal_strat: BinStrat::NotChecked,
            height,
            height_switch_seq: SWITCH_SEQUENTIAL_DEFAULT,
        }
    }

    /// Choose a custom binning strategy.
    pub fn with_bin_strat(&mut self, strat: BinStrat)
        ensures
            *final(self) == (DinoTreeBuilder { rebal_strat: strat, ..*old(self) }),
    {
        self.rebal_strat = strat;
    }

    /// Choose a custom height for the tree.
    pub fn with_height(&mut self, height: usize)
        ensures
            *final(self) == (DinoTreeBuilder { height, ..*old(self) }),
    {
        self.height = height;
    }

    /// Choose the height at which to switch from parallel to sequential,
    /// counted from the leaves. Ignored when building sequentially.
    pub fn with_height_switch_seq(&mut self, height: usize)
        ensures
            *final(self) == (DinoTreeBuilder { height_switch_seq: height, ..*old(self) }),
    {
        self.height_switch_seq = height;
    }

    /// Build sequentially.
    pub fn build_seq(self) -> (t: DinoTree<(), T>)
        requires
            wf_boxes(self.bots@),
            self.height >= 1,
        ensures
            tree_from(t, self.bots@, self.axis, self.height as int, ()),
            tree_wf(t),
    {
        self.build_with_splitter_seq(SplitterEmpty).0
    }

    /// Build with fork-join parallelism.
    pub fn build_par(self) -> (t: DinoTree<(), T>)
        requires
            wf_boxes(self.bots@),
            self.height >= 1,
        ensures
            tree_from(t, self.bots@, self.axis, self.height as int, ()),
            tree_wf(t),
    {
        let ghost input = self.bots@;
        let switch_depth = compute_level_switch_sequential(self.height_switch_seq, self.height);
        let conts = prepare_conts(&self.bots);
        proof {
            lemma_wf_conts_of(input);
        }
        let (cnodes, _splitter) = create_tree_par(
            self.axis,
            switch_depth,
            conts,
            SplitterEmpty,
            self.height,
            self.rebal_strat,
        );
        assemble((), &self.bots, cnodes, self.axis, self.height)
    }

    /// Build sequentially with a splitter, which is handed back afterwards.
    pub fn build_with_splitter_seq<S: Splitter>(self, splitter: S) -> (r: (DinoTree<(), T>, S))
        requires
            wf_boxes(self.bots@),
            self.height >= 1,
        ensures
            tree_from(r.0, self.bots@, self.axis, self.height as int, ()),
            tree_wf(r.0),
    {
        let ghost input = self.bots@;
        let conts = prepare_conts(&self.bots);
        proof {
            lemma_wf_conts_of(input);
        }
        let (cnodes, splitter) = create_tree_seq(
            self.axis,
            conts,
            splitter,
            self.height,
            self.rebal_strat,
        );
        let t = assemble((), &self.bots, cnodes, self.axis, self.height);
        (t, splitter)
    }
}

proof fn lemma_wf_conts_of<T>(input: Seq<BBox<T>>)
    requires
        wf_boxes(input),
    ensures
        wf_conts(conts_of(input)),
{
    assert forall|i: int| 0 <= i < conts_of(input).len() implies (
    #[trigger] conts_of(input)[i]).rect.wf() by {
        assert(input[i].rect.wf());
    }
}

impl<N: Copy, T: Copy> DinoTree<N, T> {
    /// Build in parallel, with the given per-node payload.
    pub fn new(axis: Axis, n: N, bots: Vec<BBox<T>>) -> (t: DinoTree<N, T>)
        requires
            wf_boxes(bots@),
        ensures
            tree_from(
                t,
                bots@,
                axis,
                crate::height::height_spec(bots@.len() as int, DEFAULT_NUMBER_ELEM_PER_NODE as int),
                n,
            ),
            tree_wf(t),
    {
        let height = compute_tree_height_heuristic(bots.len(), DEFAULT_NUMBER_ELEM_PER_NODE);
        let switch_depth = compute_level_switch_sequential(SWITCH_SEQUENTIAL_DEFAULT, height);
        let ghost input = bots@;
        let conts = prepare_conts(&bots);
        proof {
            lemma_wf_conts_of(input);
        }
        let (cnodes, _splitter) = create_tree_par(
            axis,
            switch_depth,
            conts,
            SplitterEmpty,
            height,
            BinStrat::NotChecked,
        );
        assemble(n, &bots, cnodes, axis, height)
    }

    /// Build sequentially, with the given per-node payload.
    pub fn new_seq(axis: Axis, n: N, bots: Vec<BBox<T>>) -> (t: DinoTree<N, T>)
        requires
            wf_boxes(bots@),
        ensures
            tree_from(
                t,
                bots@,
                axis,
                crate::height::height_spec(bots@.len() as int, DEFAULT_NUMBER_ELEM_PER_NODE as int),
                n,
            ),
            tree_wf(t),
    {
        let height = compute_tree_height_heuristic(bots.len(), DEFAULT_NUMBER_ELEM_PER_NODE);
        let ghost input = bots@;
        let conts = prepare_conts(&bots);
        proof {
            lemma_wf_conts_of(input);
        }
        let (cnodes, _splitter) = create_tree_seq(
            axis,
            conts,
            SplitterEmpty,
            height,
            BinStrat::NotChecked,
        );
        assemble(n, &bots, cnodes, axis, height)
    }

    /// The axis of the starting divider.
    pub fn axis(&self) -> (r: Axis)
        ensures
            r == self.axis,
    {
        self.axis
    }

    /// The height of the tree.
    pub fn get_height(&self) -> (r: usize)
        ensures
            r == self.height,
    {
        self.height
    }

    /// The number of nodes in the tree.
    pub fn num_nodes(&self) -> (r: usize)
        ensures
            r == self.nodes@.len(),
    {
        self.nodes.len()
    }

    /// The number of boxes in the tree.
    pub fn num_bots(&self) -> (r: usize)
        ensures
            r == self.num_bots,
    {
        self.num_bots
    }

    /// One node of the tree, by preorder position.
    pub fn get_node(&self, i: usize) -> (r: &Node<N, T>)
        requires
            i < self.nodes@.len(),
        ensures
            *r == self.nodes@[i as int],
    {
        &self.nodes[i]
    }

    /// All boxes of the tree in preorder.
    pub fn every_bot(&self) -> (r: Vec<BBox<T>>)
        ensures
            r@ == gflat(self.nodes@),
    {
        let mut out: Vec<BBox<T>> = Vec::new();
        let mut k: usize = 0;
        while k < self.nodes.len()
            invariant
                k <= self.nodes@.len(),
                out@ == gflat(self.nodes@.take(k as int)),
            decreases self.nodes@.len() - k,
        {
            let node = &self.nodes[k];
            let mut j: usize = 0;
            while j < node.range.len()
                invariant
                    j <= node.range@.len(),
                    node == &self.nodes@[k as int],
                    k < self.nodes@.len(),
                    out@ == gflat(self.nodes@.take(k as int)) + node.range@.take(j as int),
                decreases node.range@.len() - j,
            {
                out.push(node.range[j]);
                proof {
                    assert(node.range@.take(j as int + 1) =~= node.range@.take(j as int).push(
                        node.range@[j as int],
                    ));
                    assert(out@ =~= gflat(self.nodes@.take(k as int)) + node.range@.take(
                        j as int + 1,
                    ));
                }
                j = j + 1;
            }
            proof {
                lemma_gflat_step(self.nodes@, k as int);
                assert(node.range@.take(node.range@.len() as int) =~= node.range@);
            }
            k = k + 1;
        }
        proof {
            assert(self.nodes@.take(self.nodes@.len() as int) =~= self.nodes@);
        }
        out
    }

    /// Write every box back to its original input position: the box at
    /// in-tree position `i` goes to `bots[mover[i]]`.
    pub fn apply(&self, bots: &mut Vec<BBox<T>>)
        requires
            tree_wf(*self),
            old(bots)@.len() == self.num_bots,
        ensures
            final(bots)@.len() == self.num_bots,
            forall|i: int|
                0 <= i < self.mover@.len() ==> final(bots)@[self.mover@[i] as int] == gflat(
                    self.nodes@,
                )[i],
    {
        let ghost nsq = self.nodes@;
        let mut k: usize = 0;
        let mut p: usize = 0;
        while k < self.nodes.len()
            invariant
                k <= nsq.len(),
                nsq == self.nodes@,
                tree_wf(*self),
                bots@.len() == self.num_bots,
                p == gflat(nsq.take(k as int)).len(),
                p <= self.num_bots,
                forall|i: int| 0 <= i < p ==> bots@[self.mover@[i] as int] == gflat(nsq)[i],
            decreases nsq.len() - k,
        {
            let node = &self.nodes[k];
            let mut j: usize = 0;
            while j < node.range.len()
                invariant
                    j <= node.range@.len(),
                    node == &nsq[k as int],
                    k < nsq.len(),
                    nsq == self.nodes@,
                    tree_wf(*self),
                    bots@.len() == self.num_bots,
                    p == gflat(nsq.take(k as int)).len() + j,
                    p <= self.num_bots,
                    forall|i: int| 0 <= i < p ==> bots@[self.mover@[i] as int] == gflat(nsq)[i],
                decreases node.range@.len() - j,
            {
                proof {
                    lemma_gflat_index(nsq, k as int, j as int);
                    assert(gflat(nsq).len() == self.num_bots);
                }
                let dest = self.mover[p];
                bots.set(dest, node.range[j]);
                proof {
                    assert forall|i: int| 0 <= i < p + 1 implies bots@[self.mover@[i] as int]
                        == gflat(nsq)[i] by {
                        if i < p {
                            assert(self.mover@[i] != self.mover@[p as int]);
                        }
                    }
                }
                p = p + 1;
                j = j + 1;
            }
            proof {
                lemma_gflat_step(nsq, k as int);
            }
            k = k + 1;
        }
        proof {
            assert(nsq.take(nsq.len() as int) =~= nsq);
            assert(gflat(nsq).len() == self.num_bots);
        }
    }

    /// Copy payloads into the tree from a slice in original order: the box
    /// at in-tree position `i` takes the payload of `bots[mover[i]]`. The
    /// tree's rectangles and shape stay as they are.
    pub fn apply_into(&mut self, bots: &Vec<BBox<T>>)
        requires
            tree_wf(*old(self)),
            bots@.len() == old(self).num_bots,
        ensures
            final(self).axis == old(self).axis,
            final(self).height == old(self).height,
            final(self).mover == old(self).mover,
            final(self).num_bots == old(self).num_bots,
            final(self).nodes@.len() == old(self).nodes@.len(),
            forall|k: int|
                0 <= k < old(self).nodes@.len()
                    ==> (#[trigger] final(self).nodes@[k]).misc == old(self).nodes@[k].misc
                    && final(self).nodes@[k].cont == old(self).nodes@[k].cont
                    && final(self).nodes@[k].div == old(self).nodes@[k].div
                    && final(self).nodes@[k].range@.len() == old(self).nodes@[k].range@.len(),
            gflat(final(self).nodes@).len() == old(self).num_bots,
            forall|i: int|
                0 <= i < old(self).mover@.len() ==> (#[trigger] gflat(final(self).nodes@)[i]).rect
                    == gflat(old(self).nodes@)[i].rect && gflat(final(self).nodes@)[i].inner
                    == bots@[old(self).mover@[i] as int].inner,
    {
        let ghost oldnodes = self.nodes@;
        let ghost mv = self.mover@;
        let mut out: Vec<Node<N, T>> = Vec::new();
        let mut k: usize = 0;
        let mut p: usize = 0;
        while k < self.nodes.len()
            invariant
                k <= oldnodes.len(),
                oldnodes == self.nodes@,
                mv == self.mover@,
                tree_wf(*self),
                bots@.len() == self.num_bots,
                out@.len() == k,
                p == gflat(oldnodes.take(k as int)).len(),
                p == gflat(out@).len(),
                p <= self.num_bots,
                forall|kk: int|
                    0 <= kk < k ==> (#[trigger] out@[kk]).misc == oldnodes[kk].misc && out@[kk].cont
                        == oldnodes[kk].cont && out@[kk].div == oldnodes[kk].div
                        && out@[kk].range@.len() == oldnodes[kk].range@.len(),
                forall|i: int|
                    0 <= i < p ==> (#[trigger] gflat(out@)[i]).rect == gflat(oldnodes)[i].rect
                        && gflat(out@)[i].inner == bots@[mv[i] as int].inner,
            decreases oldnodes.len() - k,
        {
            let node = &self.nodes[k];
            let mut range: Vec<BBox<T>> = Vec::new();
            let mut j: usize = 0;
            let ghost outprev = out@;
            while j < node.range.len()
                invariant
                    j <= node.range@.len(),
                    node == &oldnodes[k as int],
                    k < oldnodes.len(),
                    oldnodes == self.nodes@,
                    mv == self.mover@,
                    tree_wf(*self),
                    bots@.len() == self.num_bots,
                    out@ == outprev,
                    out@.len() == k,
                    p == gflat(oldnodes.take(k as int)).len() + j,
                    p == gflat(out@).len() + j,
                    p <= self.num_bots,
                    range@.len() == j,
                    forall|jj: int|
                        0 <= jj < j ==> (#[trigger] range@[jj]).rect == node.range@[jj].rect
                            && range@[jj].inner == bots@[mv[gflat(out@).len() + jj] as int].inner,
                decreases node.range@.len() - j,
            {
                proof {
                    lemma_gflat_index(oldnodes, k as int, j as int);
                    assert(gflat(oldnodes).len() == self.num_bots);
                }
                let dest = self.mover[p];
                let src = bots[dest];
                range.push(BBox { rect: node.range[j].rect, inner: src.inner });
                p = p + 1;
                j = j + 1;
            }
            out.push(Node { misc: node.misc, range, cont: node.cont, div: node.div });
            proof {
                lemma_gflat_step(oldnodes, k as int);
                lemma_gflat_step(out@, k as int);
                assert(out@.take(k as int) =~= outprev);
                assert(out@.take(k as int + 1) =~= out@);
                assert(gflat(out@) == gflat(outprev) + out@[k as int].range@);
                assert forall|i: int| 0 <= i < p implies (#[trigger] gflat(out@)[i]).rect == gflat(
                    oldnodes,
                )[i].rect && gflat(out@)[i].inner == bots@[mv[i] as int].inner by {
                    if i < gflat(outprev).len() {
                        assert(gflat(out@)[i] == gflat(outprev)[i]);
                    } else {
                        let jj = i - gflat(outprev).len();
                        assert(gflat(out@)[i] == out@[k as int].range@[jj]);
                        lemma_gflat_index(oldnodes, k as int, jj);
                    }
                }
            }
            k = k + 1;
        }
        proof {
            assert(oldnodes.take(oldnodes.len() as int) =~= oldnodes);
            assert(gflat(oldnodes).len() == self.num_bots);
        }
        self.nodes = out;
    }

    /// The boxes in their original input order.
    pub fn into_iter_orig_order(&self) -> (r: Vec<BBox<T>>)
        requires
            tree_wf(*self),
        ensures
            r@.len() == self.num_bots,
            forall|i: int|
                0 <= i < self.mover@.len() ==> r@[self.mover@[i] as int] == gflat(self.nodes@)[i],
    {
        let mut out = self.every_bot();
        proof {
            assert(tree_wf(*self));
        }
        self.apply(&mut out);
        out
    }

    /// Exchange the per-node payload: the same tree with `misc` replaced
    /// by `n2` in every node.
    pub fn with_extra<N2: Copy>(self, n2: N2) -> (r: DinoTree<N2, T>)
        ensures
            r.axis == self.axis,
            r.height == self.height,
            r.num_bots == self.num_bots,
            r.mover == self.mover,
            r.nodes@.len() == self.nodes@.len(),
            forall|k: int|
                0 <= k < self.nodes@.len() ==> (#[trigger] r.nodes@[k]).misc == n2
                    && r.nodes@[k].range == self.nodes@[k].range && r.nodes@[k].cont
                    == self.nodes@[k].cont && r.nodes@[k].div == self.nodes@[k].div,
    {
        let DinoTree { axis, height, nodes, mover, num_bots } = self;
        let ghost oldnodes = nodes@;
        let mut nodes = nodes;
        let mut out: Vec<Node<N2, T>> = Vec::new();
        while nodes.len() > 0
            invariant
                out@.len() + nodes@.len() == oldnodes.len(),
                nodes@ == oldnodes.skip(out@.len() as int),
                forall|kk: int|
                    0 <= kk < out@.len() ==> (#[trigger] out@[kk]).misc == n2 && out@[kk].range
                        == oldnodes[kk].range && out@[kk].cont == oldnodes[kk].cont
                        && out@[kk].div == oldnodes[kk].div,
            decreases nodes@.len(),
        {
            let ghost k = out@.len() as int;
            let node = nodes.remove(0);
            proof {
                assert(node == oldnodes.skip(k)[0]);
                assert(oldnodes.skip(k)[0] == oldnodes[k]);
                assert(nodes@ =~= oldnodes.skip(k + 1));
            }
            out.push(Node { misc: n2, range: node.range, cont: node.cont, div: node.div });
        }
        DinoTree { axis, height, nodes: out, mover, num_bots }
    }
}

impl<N, T> DinoTree<N, T> {
    /// Replace the payload of one stored box. The box's rectangle — and
    /// with it every structural invariant of the tree — is untouched:
    /// mutable access to the tree reaches the payloads only.
    pub fn set_inner(&mut self, k: usize, j: usize, value: T)
        requires
            k < old(self).nodes@.len(),
            j < old(self).nodes@[k as int].range@.len(),
        ensures
            final(self).axis == old(self).axis,
            final(self).height == old(self).height,
            final(self).num_bots == old(self).num_bots,
            final(self).mover == old(self).mover,
            final(self).nodes@.len() == old(self).nodes@.len(),
            forall|kk: int|
                0 <= kk < old(self).nodes@.len() && kk != k
                    ==> final(self).nodes@[kk] == old(self).nodes@[kk],
            final(self).nodes@[k as int].misc == old(self).nodes@[k as int].misc,
            final(self).nodes@[k as int].cont == old(self).nodes@[k as int].cont,
            final(self).nodes@[k as int].div == old(self).nodes@[k as int].div,
            final(self).nodes@[k as int].range@.len() == old(self).nodes@[k as int].range@.len(),
            forall|jj: int|
                0 <= jj < old(self).nodes@[k as int].range@.len() && jj != j
                    ==> final(self).nodes@[k as int].range@[jj]
                    == old(self).nodes@[k as int].range@[jj],
            final(self).nodes@[k as int].range@[j as int].rect
                == old(self).nodes@[k as int].range@[j as int].rect,
            final(self).nodes@[k as int].range@[j as int].inner == value,
    {
        let node = vstd::std_specs::vec::vec_index_mut(&mut self.nodes, k);
        let slot = vstd::std_specs::vec::vec_index_mut(&mut node.range, j);
        slot.inner = value;
    }

    /// Returns false if the tree's invariants are not met.
    #[must_use]
    pub fn assert_invariants(&self) -> (r: bool)
        ensures
            r == (self.height >= 1 && self.nodes@.len() == crate::height::pow2(self.height as int)
                - 1 && crate::check::r_inv(
                crate::check::rmodels(self.nodes@),
                self.axis,
                self.height as int,
                0,
            )),
    {
        crate::check::assert_invariants(self)
    }
}

/// Writing every stored box back to its recorded original position
/// reproduces the input: whoever builds a tree from `input` and then
/// writes box `i` of the preorder flattening to position `mover[i]` of a
/// slice of the input's length holds the input again, element for
/// element.
pub proof fn lemma_restore_round_trip<N, T>(
    t: DinoTree<N, T>,
    input: Seq<BBox<T>>,
    axis: Axis,
    height: int,
    misc: N,
    restored: Seq<BBox<T>>,
)
    requires
        tree_from(t, input, axis, height, misc),
        tree_wf(t),
        restored.len() == t.num_bots,
        forall|i: int|
            0 <= i < t.mover@.len() ==> restored[t.mover@[i] as int] == gflat(t.nodes@)[i],
    ensures
        restored == input,
{
    let core = build_spec(conts_of(input), axis, height, 0);
    lemma_match_flat(t.nodes@, core, input, misc);
    assert forall|j: int| 0 <= j < restored.len() implies restored[j] == input[j] by {
        assert(t.mover@.contains(j as usize));
        let i = choose|i: int| 0 <= i < t.mover@.len() && t.mover@[i] == j as usize;
        assert(restored[t.mover@[i] as int] == gflat(t.nodes@)[i]);
        assert(t.mover@[i] == flat(core)[i].index);
        assert(gflat(t.nodes@)[i] == input[flat(core)[i].index as int]);
    }
    assert(restored =~= input);
}

/// No box is lost and none duplicated: the total count of boxes across
/// all node ranges equals the input count exactly.
pub proof fn lemma_no_box_lost<N, T>(
    t: DinoTree<N, T>,
    input: Seq<BBox<T>>,
    axis: Axis,
    height: int,
    misc: N,
)
    requires
        tree_from(t, input, axis, height, misc),
    ensures
        gflat(t.nodes@).len() == input.len(),
{
    broadcast use group_to_multiset_ensures;

    let core = build_spec(conts_of(input), axis, height, 0);
    lemma_match_flat(t.nodes@, core, input, misc);
    assert(flat(core).len() == flat(core).to_multiset().len());
    assert(conts_of(input).len() == conts_of(input).to_multiset().len());
}

/// Building the same input twice with the same configuration — in
/// particular once with the parallel and once with the sequential path,
/// whatever the switch depth — yields identical trees: same node
/// sequence, same ranges, same dividers, same covering intervals, same
/// mover.
pub proof fn lemma_build_deterministic<N, T>(
    t1: DinoTree<N, T>,
    t2: DinoTree<N, T>,
    input: Seq<BBox<T>>,
    axis: Axis,
    height: int,
    misc: N,
)
    requires
        tree_from(t1, input, axis, height, misc),
        tree_from(t2, input, axis, height, misc),
    ensures
        t1.axis == t2.axis,
        t1.height == t2.height,
        t1.num_bots == t2.num_bots,
        t1.mover@ == t2.mover@,
        t1.nodes@.len() == t2.nodes@.len(),
        forall|k: int|
            0 <= k < t1.nodes@.len() ==> (#[trigger] t1.nodes@[k]).range@ == t2.nodes@[k].range@
                && t1.nodes@[k].cont == t2.nodes@[k].cont && t1.nodes@[k].div == t2.nodes@[k].div
                && t1.nodes@[k].misc == t2.nodes@[k].misc,
{
    let core = build_spec(conts_of(input), axis, height, 0);
    assert forall|k: int|
        0 <= k < t1.nodes@.len() implies (#[trigger] t1.nodes@[k]).range@ == t2.nodes@[k].range@
        && t1.nodes@[k].cont == t2.nodes@[k].cont && t1.nodes@[k].div == t2.nodes@[k].div
        && t1.nodes@[k].misc == t2.nodes@[k].misc by {
        assert(node_match(t1.nodes@[k], core[k], input, misc));
        assert(node_match(t2.nodes@[k], core[k], input, misc));
        assert forall|j: int| 0 <= j < core[k].range.len() implies t1.nodes@[k].range@[j]
            == t2.nodes@[k].range@[j] by {
            let c = core[k].range[j];
            assert(t1.nodes@[k].range@[j] == input[c.index as int]);
            assert(t2.nodes@[k].range@[j] == input[c.index as int]);
        }
        assert(t1.nodes@[k].range@ =~= t2.nodes@[k].range@);
    }
}

/// The original position newtype carried by the no-copy mover.
pub struct Index(pub u32);

impl Index {
    pub fn get(&self) -> (r: usize)
        ensures
            r == self.0 as usize,
    {
        self.0 as usize
    }

    pub fn set(&mut self, index: usize)
        requires
            index <= u32::MAX,
        ensures
            final(self).0 == index as u32,
    {
        self.0 = index as u32;
    }
}

} // verus!
