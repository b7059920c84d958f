//! The height heuristic: picks the tree height from the number of elements,
//! aiming at a given number of elements per leaf node.

use vstd::math::max;
use vstd::prelude::*;

verus! {

/// `2^n` (and 1 for non-positive `n`).
pub open spec fn pow2(n: int) -> int
    decreases n,
{
    if n <= 0 {
        1
    } else {
        2 * pow2(n - 1)
    }
}

pub proof fn lemma_pow2_pos(n: int)
    ensures
        pow2(n) >= 1,
    decreases n,
{
    if n > 0 {
        lemma_pow2_pos(n - 1);
    }
}

pub proof fn lemma_pow2_monotonic(a: int, b: int)
    requires
        a <= b,
    ensures
        pow2(a) <= pow2(b),
    decreases b - a,
{
    if a < b {
        lemma_pow2_monotonic(a, b - 1);
        lemma_pow2_pos(b - 1);
    }
}

proof fn lemma_pow2_64()
    ensures
        pow2(64) == 0x10000000000000000,
{
    reveal_with_fuel(pow2, 65);
}

/// How many times the capacity `cap` must be quadrupled before it reaches
/// `n`: the smallest `m` with `4^m * cap >= n`.
pub open spec fn quadruplings(n: int, cap: int) -> int
    decreases max(n - cap, 0),
{
    if cap >= n || cap < 1 {
        0
    } else {
        1 + quadruplings(n, cap * 4)
    }
}

pub proof fn lemma_quadruplings_nonneg(n: int, cap: int)
    ensures
        quadruplings(n, cap) >= 0,
    decreases max(n - cap, 0),
{
    if !(cap >= n || cap < 1) {
        lemma_quadruplings_nonneg(n, cap * 4);
    }
}

/// The height the heuristic picks: 1 when everything fits in one leaf, and
/// otherwise the smallest odd `h = 2*m + 1` such that the leaves of a tree
/// of height `h` hold about `num_per_node` elements each, that is the
/// smallest `m` with `4^m * num_per_node >= num_bots`.
pub open spec fn height_spec(num_bots: int, num_per_node: int) -> int {
    if num_bots <= num_per_node {
        1
    } else {
        2 * quadruplings(num_bots, num_per_node) + 1
    }
}

/// The number of elements a node is aimed to hold when the caller does not
/// pick one.
pub const DEFAULT_NUMBER_ELEM_PER_NODE: usize = 128;

/// Outputs the height given a desired number of elements per node.
pub fn compute_tree_height_heuristic(num_bots: usize, num_per_node: usize) -> (r: usize)
    requires
        num_per_node >= 1,
    ensures
        r == height_spec(num_bots as int, num_per_node as int),
        r >= 1,
        r % 2 == 1,
{
    if num_bots <= num_per_node {
        1
    } else {
        let n: u128 = num_bots as u128;
        let mut cap: u128 = num_per_node as u128;
        let mut m: usize = 0;
        while cap < n
            invariant
                1 <= cap,
                n == num_bots as u128,
                n <= 0xffffffffffffffff,
                num_bots as int > num_per_node as int >= 1,
                m == 0 ==> cap == num_per_node as u128,
                quadruplings(n as int, num_per_node as int) == m + quadruplings(
                    n as int,
                    cap as int,
                ),
                pow2(2 * m as int) <= cap as int,
                m <= 32,
            decreases max(n as int - cap as int, 0),
        {
            proof {
                lemma_quadruplings_nonneg(n as int, cap as int * 4);
                lemma_pow2_64();
                if 2 * m as int >= 64 {
                    lemma_pow2_monotonic(64, 2 * m as int);
                }
                reveal_with_fuel(pow2, 3);
                assert(pow2(2 * m as int + 2) == 4 * pow2(2 * m as int));
            }
            cap = cap * 4;
            m = m + 1;
        }
        proof {
            lemma_pow2_monotonic(1, 2 * m as int);
        }
        2 * m + 1
    }
}

/// The height heuristic is monotone: more elements never pick a smaller
/// height, and any count that fits in one leaf yields height 1.
pub proof fn lemma_height_heuristic(n1: int, n2: int, k: int)
    requires
        1 <= k,
        n1 <= n2,
    ensures
        height_spec(n1, k) <= height_spec(n2, k),
        n1 <= k ==> height_spec(n1, k) == 1,
{
    if n1 <= k {
        if n2 > k {
            lemma_quadruplings_nonneg(n2, k);
        }
    } else {
        lemma_quadruplings_monotonic(n1, n2, k);
    }
}

proof fn lemma_quadruplings_monotonic(n1: int, n2: int, cap: int)
    requires
        1 <= cap,
        n1 <= n2,
    ensures
        quadruplings(n1, cap) <= quadruplings(n2, cap),
    decreases max(n2 - cap, 0),
{
    if cap >= n1 {
        lemma_quadruplings_nonneg(n2, cap);
    } else {
        lemma_quadruplings_monotonic(n1, n2, cap * 4);
    }
}

/// The number of nodes of a complete subtree whose root sits at `depth` in
/// a tree of the given height: `2^(height - depth) - 1`.
pub fn nodes_left(depth: usize, height: usize) -> (r: usize)
    requires
        depth < height,
        pow2(height - depth) - 1 <= usize::MAX,
    ensures
        r == pow2(height - depth) - 1,
{
    let levels: usize = height - depth;
    let mut acc: usize = 1;
    let mut i: usize = 1;
    while i < levels
        invariant
            1 <= i <= levels,
            levels == height - depth,
            acc == pow2(i as int - 1),
            pow2(levels as int) - 1 <= usize::MAX,
        decreases levels - i,
    {
        proof {
            lemma_pow2_monotonic(i as int, levels as int - 1);
            assert(2 * pow2(levels as int - 1) == pow2(levels as int));
        }
        acc = acc * 2;
        i = i + 1;
    }
    proof {
        lemma_pow2_pos(levels as int - 1);
        assert(2 * pow2(levels as int - 1) == pow2(levels as int));
    }
    (acc - 1) + acc
}

} // verus!
