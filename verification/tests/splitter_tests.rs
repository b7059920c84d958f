use dinotree::Axis;
use dinotree::BBox;
use dinotree::DinoTreeBuilder;
use dinotree::Interval;
use dinotree::Rect;
use dinotree::Splitter;
use dinotree::SplitterEmpty;

/// Counts the construction events, folding children back into the parent.
struct CountSplitter {
    starts: u64,
    ends: u64,
    divs: u64,
}

impl Splitter for CountSplitter {
    fn div(&mut self) -> Self {
        self.divs += 1;
        CountSplitter { starts: 0, ends: 0, divs: 0 }
    }

    fn add(&mut self, b: Self) {
        self.starts += b.starts;
        self.ends += b.ends;
        self.divs += b.divs;
    }

    fn node_start(&mut self) {
        self.starts += 1;
    }

    fn node_end(&mut self) {
        self.ends += 1;
    }
}

fn some_bots(n: u64) -> Vec<BBox<u64>> {
    (0..n)
        .map(|i| {
            let c = (i as i64 * 37) % 500;
            BBox::new(
                Rect::new(Interval { left: c, right: c + 3 }, Interval { left: -c, right: -c + 3 }),
                i,
            )
        })
        .collect()
}

#[test]
fn splitter_calls_are_balanced_per_node() {
    let bots = some_bots(600);
    let mut builder = DinoTreeBuilder::new(Axis::X, bots);
    builder.with_height(5);
    let splitter = CountSplitter { starts: 0, ends: 0, divs: 0 };
    let (tree, splitter) = builder.build_with_splitter_seq(splitter);
    // one start per node, one end per leaf, one div per internal node
    assert_eq!(splitter.starts, 31);
    assert_eq!(splitter.ends, 16);
    assert_eq!(splitter.divs, 15);
    assert!(tree.assert_invariants());
}

#[test]
fn empty_splitter_builds_the_same_tree() {
    let bots = some_bots(200);
    let t1 = DinoTreeBuilder::new(Axis::X, bots.clone()).build_seq();
    let (t2, _s) = DinoTreeBuilder::new(Axis::X, bots).build_with_splitter_seq(SplitterEmpty);
    assert_eq!(t1.mover, t2.mover);
    for k in 0..t1.num_nodes() {
        assert_eq!(t1.get_node(k).range, t2.get_node(k).range);
        assert_eq!(t1.get_node(k).div, t2.get_node(k).div);
    }
}
