//! Pairing up the elements of two rectangles of a multi-rectangle session along one axis, as a
//! world that wraps around at its border needs: an element near one edge is paired with the
//! elements near the opposite edge that it lines up with.
use vstd::prelude::*;
use vstd::seq_lib::to_multiset_contains;
use crate::geom::{Axis, Range, Rect, ranges_meet, with_range, make_rect_from_range};
use crate::bbox::{BBox, all_valid, sorted_on, valid_rect};
use crate::pairs::{pair_found, same_pair};
use crate::oned::Sweeper;
use crate::ext::sort_range;
use crate::rect::{MultiRectMut, RectIntersectErr, exactly};
use crate::tree::DinoTree;

verus! {

/// Starts a session of rectangle queries on `tree` in which no two rectangles may intersect.
pub fn multi_rect_mut<'a, T>(tree: &'a DinoTree<T>) -> (m: MultiRectMut<'a, T>)
    ensures
        m.queried() == Seq::<Rect>::empty(),
        m.target() == *tree,
{
    MultiRectMut::new(tree)
}

/// `rect` intersects none of `rects`.
pub open spec fn clear_of(rect: Rect, rects: Seq<Rect>) -> bool {
    forall|k: int| 0 <= k < rects.len() ==> !rect.meets(#[trigger] rects[k])
}

/// Element `i` lies inside `rect1`, element `j` inside `rect2`, and their ranges on `axis` share a
/// point.
pub open spec fn parallel_pair<T>(bots: Seq<BBox<T>>, rect1: Rect, rect2: Rect, axis: Axis, i: int, j: int) -> bool {
    &&& 0 <= i < bots.len()
    &&& 0 <= j < bots.len()
    &&& rect1.holds(bots[i].rect)
    &&& rect2.holds(bots[j].rect)
    &&& ranges_meet(bots[i].rect.range_of(axis), bots[j].rect.range_of(axis))
}

/// `out` lists each pair of `parallel_pair` once, as `(element in rect1, element in rect2)`, and
/// nothing else.
pub open spec fn parallel_pairs<T>(out: Seq<(usize, usize)>, bots: Seq<BBox<T>>, rect1: Rect, rect2: Rect, axis: Axis) -> bool {
    &&& forall|a: int| 0 <= a < out.len() ==> parallel_pair(bots, rect1, rect2, axis, (#[trigger] out[a]).0 as int, out[a].1 as int)
    &&& forall|a: int, b: int| 0 <= a < b < out.len() ==> #[trigger] out[a] != #[trigger] out[b]
    &&& forall|i: int, j: int| #[trigger] parallel_pair(bots, rect1, rect2, axis, i, j)
        ==> exists|a: int| 0 <= a < out.len() && (#[trigger] out[a]) == (i as usize, j as usize)
}

/// The rectangle with the range of `r` on `axis` and the range `[0, 1]` on the other axis.
pub open spec fn flat_rect(r: Rect, axis: Axis) -> Rect {
    with_range(Rect { x: Range { start: 0, end: 1 }, y: Range { start: 0, end: 1 } }, axis, r.range_of(axis))
}

/// The stand-in for element `i`: its flattened rectangle, and its index.
pub open spec fn flat_entry<T>(bots: Seq<BBox<T>>, i: usize, axis: Axis) -> BBox<usize> {
    BBox { rect: flat_rect(bots[i as int].rect, axis), inner: i }
}

/// `e` stands for an element of `bots` inside `rect`.
pub open spec fn stands_for<T>(e: BBox<usize>, bots: Seq<BBox<T>>, rect: Rect, axis: Axis) -> bool {
    &&& e.inner < bots.len()
    &&& e == flat_entry(bots, e.inner, axis)
    &&& rect.holds(bots[e.inner as int].rect)
}

/// Two flattened rectangles intersect exactly when the ranges they keep meet.
proof fn lemma_flat_meets(r1: Rect, r2: Rect, axis: Axis)
    ensures
        flat_rect(r1, axis).meets(flat_rect(r2, axis)) == ranges_meet(r1.range_of(axis), r2.range_of(axis)),
        flat_rect(r1, axis).range_of(axis) == r1.range_of(axis),
{
}

/// The stand-ins of the segment `[lo, hi)` of `f`, a rearrangement of the same segment of `g`,
/// stand for elements inside `rect`, cover every such element, and name each element once.
proof fn lemma_segment<T>(g: Seq<BBox<usize>>, f: Seq<BBox<usize>>, lo: int, hi: int, bots: Seq<BBox<T>>, rect: Rect, axis: Axis)
    requires
        0 <= lo <= hi <= g.len(),
        g.len() == f.len(),
        g.subrange(lo, hi).to_multiset() == f.subrange(lo, hi).to_multiset(),
        forall|p: int| lo <= p < hi ==> stands_for(#[trigger] g[p], bots, rect, axis),
        forall|p: int, q: int| lo <= p < q < hi ==> (#[trigger] g[p]).inner != (#[trigger] g[q]).inner,
        forall|i: int| 0 <= i < bots.len() && rect.holds(#[trigger] bots[i].rect)
            ==> exists|p: int| lo <= p < hi && (#[trigger] g[p]).inner == i,
    ensures
        forall|p: int| lo <= p < hi ==> stands_for(#[trigger] f[p], bots, rect, axis),
        forall|p: int, q: int| lo <= p < hi && lo <= q < hi && p != q ==> (#[trigger] f[p]).inner != (#[trigger] f[q]).inner,
        forall|i: int| 0 <= i < bots.len() && rect.holds(#[trigger] bots[i].rect)
            ==> exists|p: int| lo <= p < hi && (#[trigger] f[p]).inner == i,
{
    let gs = g.subrange(lo, hi);
    let fs = f.subrange(lo, hi);
    assert forall|p: int| lo <= p < hi implies stands_for(#[trigger] f[p], bots, rect, axis) by {
        assert(fs[p - lo] == f[p]);
        assert(fs.contains(f[p]));
        to_multiset_contains(fs, f[p]);
        to_multiset_contains(gs, f[p]);
        let q = choose|q: int| 0 <= q < gs.len() && gs[q] == f[p];
        assert(gs[q] == g[lo + q]);
    }
    assert forall|i: int| 0 <= i < bots.len() && rect.holds(#[trigger] bots[i].rect)
        implies exists|p: int| lo <= p < hi && (#[trigger] f[p]).inner == i by {
        let p = choose|p: int| lo <= p < hi && (#[trigger] g[p]).inner == i;
        assert(gs[p - lo] == g[p]);
        assert(gs.contains(g[p]));
        to_multiset_contains(gs, g[p]);
        to_multiset_contains(fs, g[p]);
        let q = choose|q: int| 0 <= q < fs.len() && fs[q] == g[p];
        assert(f[lo + q] == fs[q]);
    }
    assert(gs.no_duplicates()) by {
        assert forall|a: int, b: int| 0 <= a < gs.len() && 0 <= b < gs.len() && a != b implies gs[a] != gs[b] by {
            assert(gs[a] == g[lo + a] && gs[b] == g[lo + b]);
            if a < b {
                assert(g[lo + a].inner != g[lo + b].inner);
            } else {
                assert(g[lo + b].inner != g[lo + a].inner);
            }
        }
    }
    gs.lemma_multiset_has_no_duplicates();
    fs.lemma_multiset_has_no_duplicates_conv();
    assert forall|p: int, q: int| lo <= p < hi && lo <= q < hi && p != q implies (#[trigger] f[p]).inner != (#[trigger] f[q]).inner by {
        assert(fs[p - lo] == f[p] && fs[q - lo] == f[q]);
        assert(fs[p - lo] != fs[q - lo]);
    }
}

/// Appends the stand-ins of the elements `idx`, in order.
fn push_flat<T>(bots: &[BBox<T>], idx: &Vec<usize>, axis: Axis, flat: &mut Vec<BBox<usize>>)
    requires
        forall|a: int| 0 <= a < idx@.len() ==> #[trigger] idx@[a] < bots@.len(),
    ensures
        final(flat)@.len() == old(flat)@.len() + idx@.len(),
        forall|p: int| 0 <= p < old(flat)@.len() ==> #[trigger] final(flat)@[p] == old(flat)@[p],
        forall|a: int| 0 <= a < idx@.len() ==> #[trigger] final(flat)@[old(flat)@.len() + a] == flat_entry(bots@, idx@[a], axis),
{
    let ghost f0 = flat@;
    let unit = Rect::new(0, 1, 0, 1);
    let mut a: usize = 0;
    while a < idx.len()
        invariant
            0 <= a <= idx@.len(),
            unit == (Rect { x: Range { start: 0, end: 1 }, y: Range { start: 0, end: 1 } }),
            forall|c: int| 0 <= c < idx@.len() ==> #[trigger] idx@[c] < bots@.len(),
            flat@.len() == f0.len() + a,
            forall|p: int| 0 <= p < f0.len() ==> #[trigger] flat@[p] == f0[p],
            forall|c: int| 0 <= c < a ==> #[trigger] flat@[f0.len() + c] == flat_entry(bots@, idx@[c], axis),
        decreases idx@.len() - a,
    {
        let i = idx[a];
        let range = bots[i].rect.get_range(axis);
        let r = make_rect_from_range(axis, &range, &unit);
        flat.push(BBox { rect: r, inner: i });
        a = a + 1;
    }
}

/// States the facts of `lemma_segment`'s premises for a segment built from a query's answer.
proof fn lemma_built_segment<T>(g: Seq<BBox<usize>>, lo: int, idx: Seq<usize>, bots: Seq<BBox<T>>, rect: Rect, axis: Axis)
    requires
        0 <= lo,
        lo + idx.len() <= g.len(),
        bots.len() <= usize::MAX,
        exactly(idx, bots, |b: BBox<T>| rect.holds(b.rect)),
        forall|a: int| 0 <= a < idx.len() ==> #[trigger] g[lo + a] == flat_entry(bots, idx[a], axis),
    ensures
        forall|p: int| lo <= p < lo + idx.len() ==> stands_for(#[trigger] g[p], bots, rect, axis),
        forall|p: int, q: int| lo <= p < q < lo + idx.len() ==> (#[trigger] g[p]).inner != (#[trigger] g[q]).inner,
        forall|i: int| 0 <= i < bots.len() && rect.holds(#[trigger] bots[i].rect)
            ==> exists|p: int| lo <= p < lo + idx.len() && (#[trigger] g[p]).inner == i,
{
    assert forall|p: int| lo <= p < lo + idx.len() implies stands_for(#[trigger] g[p], bots, rect, axis) by {
        assert(g[lo + (p - lo)] == flat_entry(bots, idx[p - lo], axis));
    }
    assert forall|p: int, q: int| lo <= p < q < lo + idx.len() implies (#[trigger] g[p]).inner != (#[trigger] g[q]).inner by {
        assert(g[lo + (p - lo)] == flat_entry(bots, idx[p - lo], axis));
        assert(g[lo + (q - lo)] == flat_entry(bots, idx[q - lo], axis));
    }
    assert forall|i: int| 0 <= i < bots.len() && rect.holds(#[trigger] bots[i].rect)
        implies exists|p: int| lo <= p < lo + idx.len() && (#[trigger] g[p]).inner == i by {
        let pred = |b: BBox<T>| rect.holds(b.rect);
        assert(pred(bots[i]));
        assert(idx.contains(i as usize));
        let a = choose|a: int| 0 <= a < idx.len() && idx[a] == i as usize;
        assert(g[lo + a] == flat_entry(bots, idx[a], axis));
        assert(g[lo + a].inner == i);
    }
}

/// Queries `rect1` and then `rect2` in the session and pairs up the elements inside `rect1` with
/// those inside `rect2` whose ranges on `axis` share a point, whatever their ranges on the other axis.
/// The two sets are sorted along `axis` and swept. Fails, as the session's queries do, when
/// `rect1` intersects a rectangle queried before, or `rect2` intersects one of those or `rect1`.
/// An element with an area is never paired with itself.
pub fn collide_two_rect_parallel<'a, T>(
    multi: &mut MultiRectMut<'a, T>,
    axis: Axis,
    rect1: &Rect,
    rect2: &Rect,
) -> (r: Result<Vec<(usize, usize)>, RectIntersectErr>)
    requires
        all_valid(old(multi).target().elems()),
    ensures
        final(multi).target() == old(multi).target(),
        r is Ok <==> clear_of(*rect1, old(multi).queried()) && clear_of(*rect2, old(multi).queried().push(*rect1)),
        !clear_of(*rect1, old(multi).queried()) ==> final(multi).queried() == old(multi).queried(),
        clear_of(*rect1, old(multi).queried()) && !clear_of(*rect2, old(multi).queried().push(*rect1))
            ==> final(multi).queried() == old(multi).queried().push(*rect1),
        r is Ok ==> final(multi).queried() == old(multi).queried().push(*rect1).push(*rect2),
        r matches Ok(v) ==> parallel_pairs(v@, old(multi).target().elems(), *rect1, *rect2, axis),
        r matches Ok(v) ==> forall|a: int| 0 <= a < v@.len() ==> (#[trigger] v@[a]).0 != v@[a].1,
{
    let ghost q0 = multi.queried();
    let ghost bots = multi.target().elems();
    let idx1 = match multi.for_all_in_rect_mut(*rect1) {
        Ok(v) => v,
        Err(e) => {
            return Err(e);
        },
    };
    assert(clear_of(*rect1, q0));
    let ghost q1 = multi.queried();
    let idx2 = match multi.for_all_in_rect_mut(*rect2) {
        Ok(v) => v,
        Err(e) => {
            return Err(e);
        },
    };
    assert(clear_of(*rect2, q1));
    let tree = multi.get_tree();
    let elems = tree.get_bots();
    let total = elems.len();
    assert(elems@ == bots && bots.len() == total);
    let mut flat: Vec<BBox<usize>> = Vec::new();
    push_flat(elems, &idx1, axis, &mut flat);
    let n1 = flat.len();
    push_flat(elems, &idx2, axis, &mut flat);
    let n = flat.len();
    let ghost g = flat@;
    proof {
        lemma_built_segment(g, 0, idx1@, bots, *rect1, axis);
        lemma_built_segment(g, n1 as int, idx2@, bots, *rect2, axis);
    }
    sort_range(&mut flat, 0, n1, axis);
    let ghost f1 = flat@;
    sort_range(&mut flat, n1, n, axis);
    let ghost f2 = flat@;
    proof {
        assert(f2.subrange(0, n1 as int) =~= f1.subrange(0, n1 as int));
        assert(f1.subrange(n1 as int, n as int) =~= g.subrange(n1 as int, n as int));
        lemma_segment(g, f2, 0, n1 as int, bots, *rect1, axis);
        lemma_segment(g, f2, n1 as int, n as int, bots, *rect2, axis);
        assert(sorted_on(f2, 0, n1 as int, axis)) by {
            assert forall|p: int| 0 <= p < n1 implies #[trigger] f2[p] == f1[p] by {}
        }
    }
    let mut sw = Sweeper::new();
    let mut found: Vec<(usize, usize)> = Vec::new();
    sw.find_parallel_2d(axis, &flat, 0, n1, n1, n, &mut found);
    let mut out: Vec<(usize, usize)> = Vec::new();
    let mut t: usize = 0;
    while t < found.len()
        invariant
            0 <= t <= found@.len(),
            flat@ == f2,
            n1 <= n == f2.len(),
            forall|k: int| 0 <= k < found@.len() ==> 0 <= (#[trigger] found@[k]).0 < n1 && n1 <= found@[k].1 < n,
            out@.len() == t,
            forall|a: int| 0 <= a < t ==> #[trigger] out@[a] == (f2[found@[a].0 as int].inner, f2[found@[a].1 as int].inner),
        decreases found@.len() - t,
    {
        let (x, y) = found[t];
        out.push((flat[x].inner, flat[y].inner));
        t = t + 1;
    }
    proof {
        assert forall|a: int| 0 <= a < out@.len() implies parallel_pair(bots, *rect1, *rect2, axis, (#[trigger] out@[a]).0 as int, out@[a].1 as int)
            && out@[a].0 != out@[a].1 by {
            let x = found@[a].0 as int;
            let y = found@[a].1 as int;
            assert(stands_for(f2[x], bots, *rect1, axis));
            assert(stands_for(f2[y], bots, *rect2, axis));
            lemma_flat_meets(bots[f2[x].inner as int].rect, bots[f2[y].inner as int].rect, axis);
            if f2[x].inner == f2[y].inner {
                assert(valid_rect(bots[f2[x].inner as int].rect));
                assert(q1[q0.len() as int] == *rect1);
                assert(rect2.meets(*rect1));
            }
        }
        assert forall|a: int, b: int| 0 <= a < b < out@.len() implies #[trigger] out@[a] != #[trigger] out@[b] by {
            if out@[a] == out@[b] {
                let (xa, ya) = (found@[a].0 as int, found@[a].1 as int);
                let (xb, yb) = (found@[b].0 as int, found@[b].1 as int);
                if xa != xb {
                    assert(f2[xa].inner != f2[xb].inner);
                }
                if ya != yb {
                    assert(f2[ya].inner != f2[yb].inner);
                }
                assert(same_pair(found@[a], found@[b]));
            }
        }
        assert forall|i: int, j: int| #[trigger] parallel_pair(bots, *rect1, *rect2, axis, i, j)
            implies exists|a: int| 0 <= a < out@.len() && (#[trigger] out@[a]) == (i as usize, j as usize) by {
            let x = choose|p: int| 0 <= p < n1 && (#[trigger] f2[p]).inner == i;
            let y = choose|p: int| n1 <= p < n && (#[trigger] f2[p]).inner == j;
            assert(stands_for(f2[x], bots, *rect1, axis));
            assert(stands_for(f2[y], bots, *rect2, axis));
            lemma_flat_meets(bots[i].rect, bots[j].rect, axis);
            assert(f2[x].rect.meets(f2[y].rect));
            assert(pair_found(found@, x, y));
            let k = choose|k: int| 0 <= k < found@.len() && ((#[trigger] found@[k]).0 == x && found@[k].1 == y
                || found@[k].0 == y && found@[k].1 == x);
            assert(out@[k] == (f2[found@[k].0 as int].inner, f2[found@[k].1 as int].inner));
        }
    }
    Ok(out)
}

} // verus!
