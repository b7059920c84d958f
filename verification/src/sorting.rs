//! Ordering of elements along one axis. Each node's range is kept sorted
//! ascending by the left border on the next level's axis, so that sweep
//! algorithms can consume it. The sort is stable, which pins the result
//! down to one sequence.

use crate::geom::Axis;
use crate::geom::Cont;
use vstd::prelude::*;

verus! {

/// `a` sorts before or together with `b` when ordered by the left border
/// of the extent on `axis`.
pub open spec fn le_on(axis: Axis, a: Cont, b: Cont) -> bool {
    a.left_on(axis) <= b.left_on(axis)
}

/// The sequence is ordered ascending by the left border on `axis`.
pub open spec fn sorted_on(axis: Axis, s: Seq<Cont>) -> bool {
    forall|i: int, j: int| 0 <= i < j < s.len() ==> #[trigger] le_on(axis, s[i], s[j])
}

/// Insert `x` into the sorted sequence `s` behind every element whose key
/// does not exceed `x`'s: the stable position.
pub open spec fn insert_sorted(axis: Axis, s: Seq<Cont>, x: Cont) -> Seq<Cont>
    decreases s.len(),
{
    if s.len() == 0 {
        seq![x]
    } else if le_on(axis, s.last(), x) {
        s.push(x)
    } else {
        insert_sorted(axis, s.drop_last(), x).push(s.last())
    }
}

/// The stable sort of `s` ascending by the left border on `axis`, built by
/// inserting the elements in their input order.
pub open spec fn sort_spec(axis: Axis, s: Seq<Cont>) -> Seq<Cont>
    decreases s.len(),
{
    if s.len() == 0 {
        Seq::empty()
    } else {
        insert_sorted(axis, sort_spec(axis, s.drop_last()), s.last())
    }
}

pub proof fn lemma_insert_sorted(axis: Axis, s: Seq<Cont>, x: Cont)
    ensures
        insert_sorted(axis, s, x).len() == s.len() + 1,
        insert_sorted(axis, s, x).to_multiset() == s.to_multiset().insert(x),
        sorted_on(axis, s) ==> sorted_on(axis, insert_sorted(axis, s, x)),
    decreases s.len(),
{
    broadcast use vstd::seq_lib::group_to_multiset_ensures;

    let r = insert_sorted(axis, s, x);
    if s.len() == 0 {
        assert(s =~= Seq::<Cont>::empty());
        assert(r =~= Seq::<Cont>::empty().push(x));
        assert(r.to_multiset() =~= s.to_multiset().insert(x));
        assert forall|i: int, j: int| 0 <= i < j < r.len() implies #[trigger] le_on(
            axis,
            r[i],
            r[j],
        ) by {}
    } else if le_on(axis, s.last(), x) {
        assert(r.to_multiset() =~= s.to_multiset().insert(x));
        if sorted_on(axis, s) {
            assert forall|i: int, j: int| 0 <= i < j < r.len() implies #[trigger] le_on(
                axis,
                r[i],
                r[j],
            ) by {
                if j < s.len() {
                    assert(le_on(axis, s[i], s[j]));
                } else {
                    if i < s.len() - 1 {
                        assert(le_on(axis, s[i], s[s.len() - 1]));
                    }
                }
            }
        }
    } else {
        let dl = s.drop_last();
        let ih = insert_sorted(axis, dl, x);
        lemma_insert_sorted(axis, dl, x);
        assert(s =~= dl.push(s.last()));
        assert(s.to_multiset() =~= dl.to_multiset().insert(s.last()));
        assert(r.to_multiset() =~= ih.to_multiset().insert(s.last()));
        assert(r.to_multiset() =~= s.to_multiset().insert(x));
        if sorted_on(axis, s) {
            assert(sorted_on(axis, dl)) by {
                assert forall|i: int, j: int| 0 <= i < j < dl.len() implies #[trigger] le_on(
                    axis,
                    dl[i],
                    dl[j],
                ) by {
                    assert(le_on(axis, s[i], s[j]));
                }
            }
            assert forall|i: int| 0 <= i < ih.len() implies le_on(axis, ih[i], s.last()) by {
                assert(ih.contains(ih[i]));
                assert(ih.to_multiset().count(ih[i]) > 0);
                if ih[i] != x {
                    assert(dl.to_multiset().count(ih[i]) > 0);
                    assert(dl.contains(ih[i]));
                    let j = choose|j: int| 0 <= j < dl.len() && dl[j] == ih[i];
                    assert(le_on(axis, s[j], s[s.len() - 1]));
                }
            }
            assert forall|i: int, j: int| 0 <= i < j < r.len() implies #[trigger] le_on(
                axis,
                r[i],
                r[j],
            ) by {
                if j < ih.len() {
                    assert(le_on(axis, ih[i], ih[j]));
                } else {
                    assert(le_on(axis, ih[i], s.last()));
                }
            }
        }
    }
}

pub proof fn lemma_sort_spec(axis: Axis, s: Seq<Cont>)
    ensures
        sort_spec(axis, s).len() == s.len(),
        sort_spec(axis, s).to_multiset() == s.to_multiset(),
        sorted_on(axis, sort_spec(axis, s)),
    decreases s.len(),
{
    broadcast use vstd::seq_lib::group_to_multiset_ensures;

    if s.len() == 0 {
        assert(s =~= Seq::<Cont>::empty());
        assert(sort_spec(axis, s).to_multiset() =~= s.to_multiset());
    } else {
        let dl = s.drop_last();
        lemma_sort_spec(axis, dl);
        lemma_insert_sorted(axis, sort_spec(axis, dl), s.last());
        assert(s =~= dl.push(s.last()));
        assert(s.to_multiset() =~= dl.to_multiset().insert(s.last()));
    }
}

/// Where the stable insertion position `j` has been found by scanning, the
/// inserted sequence is the sequence split at `j` with `x` in between.
proof fn lemma_insert_sorted_position(axis: Axis, s: Seq<Cont>, x: Cont, j: int)
    requires
        0 <= j <= s.len(),
        forall|m: int| j <= m < s.len() ==> !le_on(axis, #[trigger] s[m], x),
        j > 0 ==> le_on(axis, s[j - 1], x),
    ensures
        insert_sorted(axis, s, x) == s.subrange(0, j) + seq![x] + s.subrange(j, s.len() as int),
    decreases s.len(),
{
    if s.len() == 0 {
        assert(insert_sorted(axis, s, x) =~= s.subrange(0, j) + seq![x] + s.subrange(
            j,
            s.len() as int,
        ));
    } else if le_on(axis, s.last(), x) {
        assert(j == s.len());
        assert(insert_sorted(axis, s, x) =~= s.subrange(0, j) + seq![x] + s.subrange(
            j,
            s.len() as int,
        ));
    } else {
        let dl = s.drop_last();
        lemma_insert_sorted_position(axis, dl, x, j);
        assert(insert_sorted(axis, s, x) =~= s.subrange(0, j) + seq![x] + s.subrange(
            j,
            s.len() as int,
        ));
    }
}

/// Sort the elements ascending by the left border of their extents on
/// `axis`, stably.
pub fn sweeper_update(axis: Axis, bots: &mut Vec<Cont>)
    ensures
        final(bots)@ == sort_spec(axis, old(bots)@),
{
    let ghost s = bots@;
    let mut out: Vec<Cont> = Vec::new();
    let mut i: usize = 0;
    while i < bots.len()
        invariant
            i <= bots.len(),
            bots@ == s,
            out@ == sort_spec(axis, s.take(i as int)),
        decreases bots.len() - i,
    {
        let x = bots[i];
        let key = x.rect.get_range(axis).left;
        let mut j: usize = out.len();
        loop
            invariant
                j <= out.len(),
                out@ == sort_spec(axis, s.take(i as int)),
                key == x.left_on(axis),
                forall|m: int| j <= m < out@.len() ==> !le_on(axis, #[trigger] out@[m], x),
            ensures
                j <= out.len(),
                out@ == sort_spec(axis, s.take(i as int)),
                forall|m: int| j <= m < out@.len() ==> !le_on(axis, #[trigger] out@[m], x),
                j > 0 ==> le_on(axis, out@[j - 1], x),
            decreases j,
        {
            if j == 0 {
                break ;
            }
            let prev_left = out[j - 1].rect.get_range(axis).left;
            if prev_left <= key {
                break ;
            }
            proof {
                assert(!le_on(axis, out@[j as int - 1], x));
            }
            j = j - 1;
        }
        let ghost prev = out@;
        out.insert(j, x);
        proof {
            lemma_insert_sorted_position(axis, prev, x, j as int);
            assert(out@ =~= prev.subrange(0, j as int) + seq![x] + prev.subrange(
                j as int,
                prev.len() as int,
            ));
            assert(s.take(i as int + 1).drop_last() =~= s.take(i as int));
            assert(s.take(i as int + 1).last() == s[i as int]);
            assert(out@ == sort_spec(axis, s.take(i as int + 1)));
        }
        i = i + 1;
    }
    proof {
        assert(s.take(s.len() as int) =~= s);
    }
    *bots = out;
}

} // verus!
