//! Rectangle queries: the elements inside a rectangle, the elements intersecting it, and the
//! elements not inside it.
use vstd::prelude::*;
use vstd::arithmetic::power2::{lemma_pow2_unfold, lemma_pow2_pos};
use crate::geom::{Axis, Rect};
use crate::bbox::{BBox, lo_of, hi_of, valid_rect, all_valid};
use crate::pairs::extends;
use crate::oned::{section_bounds, lemma_meets_by_axis};
use crate::tree::{Node, DinoTree, wf_sub, subtree_end, lemma_wf_basic};
use crate::colfind::half_span;

verus! {

/// What a rectangle query looks for.
#[derive(Clone, Copy, Debug, PartialEq, Eq, Structural)]
pub enum RectQuery {
    /// Elements whose rectangle lies inside the query rectangle.
    Inside,
    /// Elements whose rectangle intersects the query rectangle: they share a
    /// point, touching included.
    Intersect,
}

/// The element matches the query.
pub open spec fn query_matches<T>(q: RectQuery, rect: Rect, b: BBox<T>) -> bool {
    match q {
        RectQuery::Inside => rect.holds(b.rect),
        RectQuery::Intersect => rect.meets(b.rect),
    }
}

/// A well formed element that matches a query shares a point with the query rectangle.
proof fn lemma_match_meets<T>(q: RectQuery, rect: Rect, b: BBox<T>)
    requires
        valid_rect(b.rect),
        query_matches(q, rect, b),
    ensures
        b.rect.meets(rect),
{
}

/// `out` lists, in increasing order, exactly the indices of the elements of `bots` that satisfy
/// `pred`.
pub open spec fn exactly<T>(out: Seq<usize>, bots: Seq<BBox<T>>, pred: spec_fn(BBox<T>) -> bool) -> bool {
    &&& forall|a: int, b: int| 0 <= a < b < out.len() ==> out[a] < out[b]
    &&& forall|a: int| 0 <= a < out.len() ==> (#[trigger] out[a]) < bots.len() && pred(bots[out[a] as int])
    &&& forall|k: int| 0 <= k < bots.len() && pred(#[trigger] bots[k]) ==> out.contains(k as usize)
}

/// The part of `out` from `from` on is increasing, lies in `[lo, hi)`, and holds the elements of
/// `[lo, hi)` that satisfy `pred`, and only them.
pub open spec fn found_in<T>(out: Seq<usize>, from: int, bots: Seq<BBox<T>>, lo: int, hi: int, pred: spec_fn(BBox<T>) -> bool) -> bool {
    &&& 0 <= from <= out.len()
    &&& forall|a: int, b: int| from <= a < b < out.len() ==> out[a] < out[b]
    &&& forall|a: int| from <= a < out.len() ==> lo <= (#[trigger] out[a]) < hi && pred(bots[out[a] as int])
    &&& forall|k: int| lo <= k < hi && pred(#[trigger] bots[k]) ==> exists|a: int| from <= a < out.len() && out[a] == k
}

/// Appends the indices `k` in `[lo, hi)` whose element satisfies the query.
fn push_matching<T>(q: RectQuery, rect: &Rect, bots: &Vec<BBox<T>>, lo: usize, hi: usize, out: &mut Vec<usize>)
    requires
        lo <= hi <= bots@.len(),
        forall|a: int| 0 <= a < old(out)@.len() ==> #[trigger] old(out)@[a] < lo,
    ensures
        extends(old(out)@, final(out)@),
        forall|a: int| 0 <= a < final(out)@.len() ==> #[trigger] final(out)@[a] < hi,
        found_in(final(out)@, old(out)@.len() as int, bots@, lo as int, hi as int, |b: BBox<T>| query_matches(q, *rect, b)),
{
    let ghost out0 = out@;
    let ghost pred = |b: BBox<T>| query_matches(q, *rect, b);
    let mut k = lo;
    while k < hi
        invariant
            lo <= k <= hi <= bots@.len(),
            forall|a: int| 0 <= a < out0.len() ==> #[trigger] out0[a] < lo,
            pred == (|b: BBox<T>| query_matches(q, *rect, b)),
            extends(out0, out@),
            forall|a: int| 0 <= a < out@.len() ==> #[trigger] out@[a] < k,
            found_in(out@, out0.len() as int, bots@, lo as int, k as int, pred),
        decreases hi - k,
    {
        let hit = match q {
            RectQuery::Inside => rect.contains_rect(&bots[k].rect),
            RectQuery::Intersect => rect.intersects_rect(&bots[k].rect),
        };
        let ghost prev = out@;
        if hit {
            out.push(k);
        }
        proof {
            assert forall|j: int| lo <= j < k + 1 && pred(#[trigger] bots@[j]) implies exists|a: int| out0.len() <= a < out@.len() && out@[a] == j by {
                if j < k {
                    let a = choose|a: int| out0.len() <= a < prev.len() && prev[a] == j;
                    assert(out@[a] == j);
                } else {
                    assert(out@[out@.len() - 1] == j);
                }
            }
        }
        k = k + 1;
    }
}

/// Appends the indices `k` in `[lo, hi)` whose element lies outside `rect`.
fn push_not_inside<T>(rect: &Rect, bots: &Vec<BBox<T>>, lo: usize, hi: usize, out: &mut Vec<usize>)
    requires
        lo <= hi <= bots@.len(),
        forall|a: int| 0 <= a < old(out)@.len() ==> #[trigger] old(out)@[a] < lo,
    ensures
        extends(old(out)@, final(out)@),
        forall|a: int| 0 <= a < final(out)@.len() ==> #[trigger] final(out)@[a] < hi,
        found_in(final(out)@, old(out)@.len() as int, bots@, lo as int, hi as int, |b: BBox<T>| !rect.holds(b.rect)),
{
    let ghost out0 = out@;
    let ghost pred = |b: BBox<T>| !rect.holds(b.rect);
    let mut k = lo;
    while k < hi
        invariant
            lo <= k <= hi <= bots@.len(),
            forall|a: int| 0 <= a < out0.len() ==> #[trigger] out0[a] < lo,
            pred == (|b: BBox<T>| !rect.holds(b.rect)),
            extends(out0, out@),
            forall|a: int| 0 <= a < out@.len() ==> #[trigger] out@[a] < k,
            found_in(out@, out0.len() as int, bots@, lo as int, k as int, pred),
        decreases hi - k,
    {
        let ghost prev = out@;
        if !rect.contains_rect(&bots[k].rect) {
            out.push(k);
        }
        proof {
            assert forall|j: int| lo <= j < k + 1 && pred(#[trigger] bots@[j]) implies exists|a: int| out0.len() <= a < out@.len() && out@[a] == j by {
                if j < k {
                    let a = choose|a: int| out0.len() <= a < prev.len() && prev[a] == j;
                    assert(out@[a] == j);
                } else {
                    assert(out@[out@.len() - 1] == j);
                }
            }
        }
        k = k + 1;
    }
}

/// Joins three consecutive parts found over `[lo, x)`, `[x, y)` and `[y, hi)`.
proof fn lemma_found_join<T>(
    o1: Seq<usize>,
    o2: Seq<usize>,
    o3: Seq<usize>,
    f0: int,
    bots: Seq<BBox<T>>,
    lo: int,
    x: int,
    y: int,
    hi: int,
    pred: spec_fn(BBox<T>) -> bool,
)
    requires
        lo <= x <= y <= hi,
        extends(o1, o2),
        extends(o2, o3),
        found_in(o1, f0, bots, lo, x, pred),
        found_in(o2, o1.len() as int, bots, x, y, pred),
        found_in(o3, o2.len() as int, bots, y, hi, pred),
    ensures
        found_in(o3, f0, bots, lo, hi, pred),
{
    assert forall|a: int, b: int| f0 <= a < b < o3.len() implies o3[a] < o3[b] by {
        if b < o1.len() {
            assert(o3[a] == o1[a] && o3[b] == o1[b]);
        } else if b < o2.len() {
            assert(o3[b] == o2[b]);
            if a < o1.len() {
                assert(o3[a] == o1[a]);
            } else {
                assert(o3[a] == o2[a]);
            }
        } else {
            if a < o1.len() {
                assert(o3[a] == o1[a]);
            } else if a < o2.len() {
                assert(o3[a] == o2[a]);
            }
        }
    }
    assert forall|a: int| f0 <= a < o3.len() implies lo <= (#[trigger] o3[a]) < hi && pred(bots[o3[a] as int]) by {
        if a < o1.len() {
            assert(o3[a] == o1[a]);
        } else if a < o2.len() {
            assert(o3[a] == o2[a]);
        }
    }
    assert forall|k: int| lo <= k < hi && pred(#[trigger] bots[k]) implies exists|a: int| f0 <= a < o3.len() && o3[a] == k by {
        if k < x {
            let a = choose|a: int| f0 <= a < o1.len() && o1[a] == k;
            assert(o3[a] == k);
        } else if k < y {
            let a = choose|a: int| o1.len() <= a < o2.len() && o2[a] == k;
            assert(o3[a] == k);
        } else {
            let a = choose|a: int| o2.len() <= a < o3.len() && o3[a] == k;
        }
    }
}

/// An empty part is found trivially, and a part with no matching element is found by appending
/// nothing.
proof fn lemma_found_none<T>(o: Seq<usize>, bots: Seq<BBox<T>>, lo: int, hi: int, pred: spec_fn(BBox<T>) -> bool)
    requires
        lo <= hi,
        forall|k: int| lo <= k < hi ==> !pred(#[trigger] bots[k]),
    ensures
        found_in(o, o.len() as int, bots, lo, hi, pred),
{
}

/// The query over the subtree of node `i`, which has `r` levels, first axis `axis`, and holds the
/// elements `[lo, hi)`.
fn rect_recurse<T>(
    q: RectQuery,
    nodes: &[Node],
    bots: &Vec<BBox<T>>,
    i: usize,
    r: usize,
    axis: Axis,
    lo: usize,
    hi: usize,
    rect: &Rect,
    out: &mut Vec<usize>,
)
    requires
        wf_sub(nodes@, bots@, i as int, r as nat, axis, lo as int, hi as int, true),
        r < usize::BITS,
        forall|k: int| lo <= k < hi ==> #[trigger] valid_rect(bots@[k].rect),
        forall|a: int| 0 <= a < old(out)@.len() ==> #[trigger] old(out)@[a] < lo,
    ensures
        extends(old(out)@, final(out)@),
        forall|a: int| 0 <= a < final(out)@.len() ==> #[trigger] final(out)@[a] < hi,
        found_in(final(out)@, old(out)@.len() as int, bots@, lo as int, hi as int, |b: BBox<T>| query_matches(q, *rect, b)),
    decreases r,
{
    let ghost out0 = out@;
    let ghost pred = |b: BBox<T>| query_matches(q, *rect, b);
    proof {
        lemma_wf_basic(nodes@, bots@, i as int, r as nat, axis, lo as int, hi as int, true);
        lemma_pow2_unfold(r as nat);
        lemma_pow2_pos((r - 1) as nat);
    }
    let n = nodes[i];
    if r > 1 && n.div.is_none() {
        proof {
            lemma_found_none(out@, bots@, lo as int, hi as int, pred);
        }
        return;
    }
    let other = axis.next();
    let (s, e) = section_bounds(other, bots, n.start, n.end, &rect.get_range(other));
    proof {
        assert forall|k: int| n.start <= k < s && pred(#[trigger] bots@[k]) implies false by {
            lemma_match_meets(q, *rect, bots@[k]);
            lemma_meets_by_axis(bots@[k].rect, *rect, other);
        }
        assert forall|k: int| e <= k < n.end && pred(#[trigger] bots@[k]) implies false by {
            lemma_match_meets(q, *rect, bots@[k]);
            lemma_meets_by_axis(bots@[k].rect, *rect, other);
        }
        lemma_found_none(out0, bots@, lo as int, s as int, pred);
    }
    push_matching(q, rect, bots, s, e, out);
    let ghost out1 = out@;
    proof {
        lemma_found_none(out1, bots@, e as int, n.end as int, pred);
        lemma_found_join(out0, out1, out1, out0.len() as int, bots@, lo as int, s as int, e as int, n.end as int, pred);
    }
    if r == 1 {
        return;
    }
    let d = match n.div {
        Some(d) => d,
        None => { return; },
    };
    let rc = i + half_span(r);
    let ghost m = subtree_end(nodes@, i + 1, (r - 1) as nat);
    let mid = nodes[rc].start;
    let rr = rect.get_range(axis);
    if !(d < rr.start) {
        rect_recurse(q, nodes, bots, i + 1, r - 1, axis.next(), n.end, mid, rect, out);
    } else {
        proof {
            assert forall|k: int| n.end <= k < mid && pred(#[trigger] bots@[k]) implies false by {
                lemma_match_meets(q, *rect, bots@[k]);
                lemma_meets_by_axis(bots@[k].rect, *rect, axis);
                assert(hi_of(bots@[k], axis) < d);
            }
            lemma_found_none(out1, bots@, n.end as int, mid as int, pred);
        }
    }
    let ghost out2 = out@;
    if !(d > rr.end) {
        rect_recurse(q, nodes, bots, rc, r - 1, axis.next(), mid, hi, rect, out);
    } else {
        proof {
            assert forall|k: int| mid <= k < hi && pred(#[trigger] bots@[k]) implies false by {
                lemma_match_meets(q, *rect, bots@[k]);
                lemma_meets_by_axis(bots@[k].rect, *rect, axis);
                assert(lo_of(bots@[k], axis) > d);
            }
            lemma_found_none(out2, bots@, mid as int, hi as int, pred);
        }
    }
    proof {
        lemma_found_join(out1, out2, out@, out0.len() as int, bots@, lo as int, n.end as int, mid as int, hi as int, pred);
    }
}

/// The elements of the subtree of node `i`, which has `r` levels and holds the elements
/// `[lo, hi)`, whose rectangle does not lie inside `rect`.
fn not_in_rect_recurse<T>(
    nodes: &[Node],
    bots: &Vec<BBox<T>>,
    i: usize,
    r: usize,
    axis: Axis,
    lo: usize,
    hi: usize,
    rect: &Rect,
    out: &mut Vec<usize>,
)
    requires
        wf_sub(nodes@, bots@, i as int, r as nat, axis, lo as int, hi as int, true),
        r < usize::BITS,
        forall|a: int| 0 <= a < old(out)@.len() ==> #[trigger] old(out)@[a] < lo,
    ensures
        extends(old(out)@, final(out)@),
        forall|a: int| 0 <= a < final(out)@.len() ==> #[trigger] final(out)@[a] < hi,
        found_in(final(out)@, old(out)@.len() as int, bots@, lo as int, hi as int, |b: BBox<T>| !rect.holds(b.rect)),
    decreases r,
{
    let ghost out0 = out@;
    let ghost pred = |b: BBox<T>| !rect.holds(b.rect);
    proof {
        lemma_wf_basic(nodes@, bots@, i as int, r as nat, axis, lo as int, hi as int, true);
        lemma_pow2_unfold(r as nat);
        lemma_pow2_pos((r - 1) as nat);
    }
    let n = nodes[i];
    push_not_inside(rect, bots, n.start, n.end, out);
    let ghost out1 = out@;
    if r == 1 || n.div.is_none() {
        return;
    }
    let rc = i + half_span(r);
    let mid = nodes[rc].start;
    not_in_rect_recurse(nodes, bots, i + 1, r - 1, axis.next(), n.end, mid, rect, out);
    let ghost out2 = out@;
    not_in_rect_recurse(nodes, bots, rc, r - 1, axis.next(), mid, hi, rect, out);
    proof {
        lemma_found_join(out1, out2, out@, out0.len() as int, bots@, lo as int, n.end as int, mid as int, hi as int, pred);
    }
}

/// A part found over all the elements lists exactly the matching elements.
proof fn lemma_found_exactly<T>(out: Seq<usize>, bots: Seq<BBox<T>>, pred: spec_fn(BBox<T>) -> bool)
    requires
        found_in(out, 0, bots, 0, bots.len() as int, pred),
    ensures
        exactly(out, bots, pred),
{
    assert forall|k: int| 0 <= k < bots.len() && pred(#[trigger] bots[k]) implies out.contains(k as usize) by {
        let a = choose|a: int| 0 <= a < out.len() && out[a] == k;
        assert(out[a] == k as usize);
    }
}

/// The indices of the elements of `bots` whose rectangle lies inside `rect`, checking each one.
pub fn naive_for_all_in_rect_mut<T>(bots: &Vec<BBox<T>>, rect: &Rect) -> (out: Vec<usize>)
    ensures
        exactly(out@, bots@, |b: BBox<T>| rect.holds(b.rect)),
{
    let mut out: Vec<usize> = Vec::new();
    push_matching(RectQuery::Inside, rect, bots, 0, bots.len(), &mut out);
    proof {
        lemma_found_exactly(out@, bots@, |b: BBox<T>| query_matches(RectQuery::Inside, *rect, b));
    }
    out
}

/// The indices of the elements of `bots` whose rectangle intersects `rect`,
/// checking each one.
pub fn naive_for_all_intersect_rect_mut<T>(bots: &Vec<BBox<T>>, rect: &Rect) -> (out: Vec<usize>)
    ensures
        exactly(out@, bots@, |b: BBox<T>| rect.meets(b.rect)),
{
    let mut out: Vec<usize> = Vec::new();
    push_matching(RectQuery::Intersect, rect, bots, 0, bots.len(), &mut out);
    proof {
        lemma_found_exactly(out@, bots@, |b: BBox<T>| query_matches(RectQuery::Intersect, *rect, b));
    }
    out
}

/// The indices of the elements of `bots` whose rectangle does not lie inside `rect`, checking each
/// one.
pub fn naive_for_all_not_in_rect_mut<T>(bots: &Vec<BBox<T>>, rect: &Rect) -> (out: Vec<usize>)
    ensures
        exactly(out@, bots@, |b: BBox<T>| !rect.holds(b.rect)),
{
    let mut out: Vec<usize> = Vec::new();
    push_not_inside(rect, bots, 0, bots.len(), &mut out);
    proof {
        lemma_found_exactly(out@, bots@, |b: BBox<T>| !rect.holds(b.rect));
    }
    out
}

/// The indices of the tree's elements whose rectangle lies inside `rect`.
pub fn for_all_in_rect<T>(tree: &DinoTree<T>, rect: &Rect) -> (out: Vec<usize>)
    requires
        all_valid(tree.elems()),
    ensures
        exactly(out@, tree.elems(), |b: BBox<T>| rect.holds(b.rect)),
{
    let (nodes, bots, axis, height) = tree.parts();
    let mut out: Vec<usize> = Vec::new();
    rect_recurse(RectQuery::Inside, nodes, bots, 0, height, axis, 0, bots.len(), rect, &mut out);
    proof {
        lemma_found_exactly(out@, bots@, |b: BBox<T>| query_matches(RectQuery::Inside, *rect, b));
    }
    out
}

/// The indices of the tree's elements whose rectangle intersects `rect`: they share a
/// point, touching included.
pub fn for_all_intersect_rect<T>(tree: &DinoTree<T>, rect: &Rect) -> (out: Vec<usize>)
    requires
        all_valid(tree.elems()),
    ensures
        exactly(out@, tree.elems(), |b: BBox<T>| rect.meets(b.rect)),
{
    let (nodes, bots, axis, height) = tree.parts();
    let mut out: Vec<usize> = Vec::new();
    rect_recurse(RectQuery::Intersect, nodes, bots, 0, height, axis, 0, bots.len(), rect, &mut out);
    proof {
        lemma_found_exactly(out@, bots@, |b: BBox<T>| query_matches(RectQuery::Intersect, *rect, b));
    }
    out
}

/// The indices of the tree's elements whose rectangle does not lie inside `rect`.
pub fn for_all_not_in_rect_mut<T>(tree: &DinoTree<T>, rect: &Rect) -> (out: Vec<usize>)
    ensures
        exactly(out@, tree.elems(), |b: BBox<T>| !rect.holds(b.rect)),
{
    let (nodes, bots, axis, height) = tree.parts();
    let mut out: Vec<usize> = Vec::new();
    not_in_rect_recurse(nodes, bots, 0, height, axis, 0, bots.len(), rect, &mut out);
    proof {
        lemma_found_exactly(out@, bots@, |b: BBox<T>| !rect.holds(b.rect));
    }
    out
}

/// The indices of the tree's elements whose rectangle lies inside `rect`, for mutating their data
/// with `DinoTree::set_inner`.
pub fn for_all_in_rect_mut<T>(tree: &DinoTree<T>, rect: &Rect) -> (out: Vec<usize>)
    requires
        all_valid(tree.elems()),
    ensures
        exactly(out@, tree.elems(), |b: BBox<T>| rect.holds(b.rect)),
{
    for_all_in_rect(tree, rect)
}

/// The indices of the tree's elements whose rectangle intersects `rect`, for mutating their
/// data with `DinoTree::set_inner`.
pub fn for_all_intersect_rect_mut<T>(tree: &DinoTree<T>, rect: &Rect) -> (out: Vec<usize>)
    requires
        all_valid(tree.elems()),
    ensures
        exactly(out@, tree.elems(), |b: BBox<T>| rect.meets(b.rect)),
{
    for_all_intersect_rect(tree, rect)
}

/// The error of a multi-rectangle session: the rectangle asked for intersects one asked before.
#[derive(Clone, Copy, Debug, PartialEq, Eq, Structural)]
pub struct RectIntersectErr;

/// A session of rectangle queries on a tree in which no two rectangles intersect, so that the
/// element sets they return are disjoint.
pub struct MultiRectMut<'a, T> {
    tree: &'a DinoTree<T>,
    rects: Vec<Rect>,
}

impl<'a, T> MultiRectMut<'a, T> {
    /// The rectangles queried so far.
    pub closed spec fn queried(&self) -> Seq<Rect> {
        self.rects@
    }

    /// The tree queried.
    pub closed spec fn target(&self) -> DinoTree<T> {
        *self.tree
    }

    /// The tree queried.
    pub fn get_tree(&self) -> (t: &'a DinoTree<T>)
        ensures
            *t == self.target(),
    {
        self.tree
    }

    /// Starts a session with no rectangle queried.
    pub fn new(tree: &'a DinoTree<T>) -> (m: MultiRectMut<'a, T>)
        ensures
            m.queried() == Seq::<Rect>::empty(),
            m.target() == *tree,
    {
        MultiRectMut { tree, rects: Vec::new() }
    }

    /// The elements inside `rect`, unless `rect` intersects a rectangle queried before in this
    /// session; then the session is left as it was.
    pub fn for_all_in_rect_mut(&mut self, rect: Rect) -> (r: Result<Vec<usize>, RectIntersectErr>)
        requires
            all_valid(old(self).target().elems()),
        ensures
            final(self).target() == old(self).target(),
            r is Err <==> exists|k: int| 0 <= k < old(self).queried().len() && rect.meets(#[trigger] old(self).queried()[k]),
            r is Err ==> final(self).queried() == old(self).queried(),
            r matches Ok(v) ==> final(self).queried() == old(self).queried().push(rect)
                && exactly(v@, old(self).target().elems(), |b: BBox<T>| rect.holds(b.rect)),
    {
        let mut k: usize = 0;
        while k < self.rects.len()
            invariant
                0 <= k <= self.rects@.len(),
                self.rects@ == old(self).queried(),
                forall|j: int| 0 <= j < k ==> !rect.meets(#[trigger] self.rects@[j]),
            decreases self.rects@.len() - k,
        {
            if rect.intersects_rect(&self.rects[k]) {
                proof {
                    assert(rect.meets(self.rects@[k as int]));
                }
                return Err(RectIntersectErr);
            }
            k = k + 1;
        }
        let ghost before = self.rects@;
        assert(!exists|j: int| 0 <= j < before.len() && rect.meets(#[trigger] before[j]));
        self.rects.push(rect);
        Ok(for_all_in_rect(self.tree, &rect))
    }
}

impl<T> DinoTree<T> {
    /// The indices of the elements whose rectangle lies inside `rect`.
    pub fn for_all_in_rect(&self, rect: &Rect) -> (out: Vec<usize>)
        requires
            all_valid(self.elems()),
        ensures
            exactly(out@, self.elems(), |b: BBox<T>| rect.holds(b.rect)),
    {
        for_all_in_rect(self, rect)
    }

    /// The indices of the elements whose rectangle intersects `rect`.
    pub fn for_all_intersect_rect(&self, rect: &Rect) -> (out: Vec<usize>)
        requires
            all_valid(self.elems()),
        ensures
            exactly(out@, self.elems(), |b: BBox<T>| rect.meets(b.rect)),
    {
        for_all_intersect_rect(self, rect)
    }

    /// The indices of the elements whose rectangle does not lie inside `rect`.
    pub fn for_all_not_in_rect_mut(&self, rect: &Rect) -> (out: Vec<usize>)
        ensures
            exactly(out@, self.elems(), |b: BBox<T>| !rect.holds(b.rect)),
    {
        for_all_not_in_rect_mut(self, rect)
    }

    /// The indices of the elements whose rectangle lies inside `rect`, for mutating their data
    /// with `set_inner`.
    pub fn for_all_in_rect_mut(&self, rect: &Rect) -> (out: Vec<usize>)
        requires
            all_valid(self.elems()),
        ensures
            exactly(out@, self.elems(), |b: BBox<T>| rect.holds(b.rect)),
    {
        for_all_in_rect_mut(self, rect)
    }

    /// The indices of the elements whose rectangle intersects `rect`, for mutating their data with
    /// `set_inner`.
    pub fn for_all_intersect_rect_mut(&self, rect: &Rect) -> (out: Vec<usize>)
        requires
            all_valid(self.elems()),
        ensures
            exactly(out@, self.elems(), |b: BBox<T>| rect.meets(b.rect)),
    {
        for_all_intersect_rect_mut(self, rect)
    }

    /// A session of queries with rectangles that may not intersect each other.
    pub fn multi_rect(&self) -> (m: MultiRectMut<'_, T>)
        ensures
            m.queried() == Seq::<Rect>::empty(),
            m.target() == *self,
    {
        MultiRectMut::new(self)
    }
}

} // verus!
