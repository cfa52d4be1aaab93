//! The dividers of the tree, for drawing them.
use vstd::prelude::*;
use vstd::arithmetic::power2::{lemma_pow2_unfold, lemma_pow2_pos};
use crate::geom::{Axis, Range, Rect, with_range};
use crate::tree::{Node, DinoTree, wf_sub, right_child, subtree_end, lemma_wf_basic};
use crate::bbox::{BBox, lo_of, hi_of};
use crate::colfind::half_span;

verus! {

/// A divider to draw: the node's axis and divider, the extent of the node's elements on that axis,
/// the extent of the node's region on the other axis, and the node's depth.
#[derive(Clone, Copy, Debug, PartialEq, Eq, Structural)]
pub struct DividerLine {
    pub axis: Axis,
    pub div: i64,
    pub cont: Range,
    pub length: Range,
    pub depth: usize,
}

/// Something that draws the dividers of a tree.
pub trait DividerDrawer {
    /// The dividers drawn so far, in the order they were drawn.
    spec fn drawn(&self) -> Vec<DividerLine>;

    /// Draws the divider `div` on `axis`, where the node's elements span `cont` and its region
    /// spans `length` on the other axis.
    fn draw_divider(&mut self, axis: Axis, div: i64, cont: [i64; 2], length: [i64; 2], depth: usize)
        ensures
            final(self).drawn()@ == old(self).drawn()@.push(DividerLine {
                axis,
                div,
                cont: Range { start: cont[0], end: cont[1] },
                length: Range { start: length[0], end: length[1] },
                depth,
            }),
    ;
}

/// The dividers of the subtree of node `i` with `r` levels and first axis `axis`, whose region is
/// `rect`, in preorder. A leaf has none; a node without divider or without elements ends the walk.
pub open spec fn dividers_of(nodes: Seq<Node>, i: int, r: nat, axis: Axis, rect: Rect, depth: int) -> Seq<DividerLine>
    decreases r,
{
    if r <= 1 {
        Seq::empty()
    } else {
        match (nodes[i].div, nodes[i].cont) {
            (Some(d), Some(c)) => {
                let ar = rect.range_of(axis);
                let left = with_range(rect, axis, Range { start: ar.start, end: d });
                let right = with_range(rect, axis, Range { start: d, end: ar.end });
                seq![DividerLine { axis, div: d, cont: c, length: rect.range_of(axis.other()), depth: depth as usize }]
                    + dividers_of(nodes, i + 1, (r - 1) as nat, axis.other(), left, depth + 1)
                    + dividers_of(nodes, right_child(i, r), (r - 1) as nat, axis.other(), right, depth + 1)
            },
            _ => Seq::empty(),
        }
    }
}

/// The rectangle `rect` holds every element of `[lo, hi)`.
pub open spec fn holds_all<T>(rect: Rect, bots: Seq<BBox<T>>, lo: int, hi: int) -> bool {
    forall|e: int| lo <= e < hi ==> #[trigger] rect.holds(bots[e].rect)
}

/// The line's length spans every element of `[lo, hi)` on the axis across the divider.
pub open spec fn spans<T>(l: DividerLine, bots: Seq<BBox<T>>, lo: int, hi: int) -> bool {
    forall|e: int|
        lo <= e < hi ==> l.length.start <= lo_of(#[trigger] bots[e], l.axis.other()) && hi_of(bots[e], l.axis.other())
            <= l.length.end
}

/// The line is the divider of node `j`, the root of a well formed subtree with `r > 1` levels
/// holding `[lo, hi)`, whose axis is the line's.
pub open spec fn drawn_for<T>(l: DividerLine, nodes: Seq<Node>, bots: Seq<BBox<T>>, j: int, r: nat, lo: int, hi: int) -> bool {
    &&& r > 1
    &&& wf_sub(nodes, bots, j, r, l.axis, lo, hi, true)
    &&& nodes[j].div == Some(l.div)
    &&& nodes[j].cont == Some(l.cont)
}

/// Line `p` comes before line `k`, one level up, on the other axis, and its divider is one end of
/// line `k`'s length: the region of a child ends, or starts, at its parent's divider.
pub open spec fn parent_line(out: Seq<DividerLine>, k: int, p: int) -> bool {
    &&& 0 <= p < k < out.len()
    &&& out[p].depth + 1 == out[k].depth
    &&& out[p].axis == out[k].axis.other()
    &&& (out[k].length.start == out[p].div || out[k].length.end == out[p].div)
}

/// Line `k` of `out` has a parent line.
pub open spec fn has_parent(out: Seq<DividerLine>, k: int) -> bool {
    exists|p: int| #[trigger] parent_line(out, k, p)
}

/// The line is the divider of a node of the tree, and, where `rect` holds the elements
/// `[lo, hi)`, its length spans, across the divider, every element under that node.
pub open spec fn drawn_over<T>(l: DividerLine, nodes: Seq<Node>, bots: Seq<BBox<T>>, rect: Rect, lo: int, hi: int) -> bool {
    exists|j: int, rj: nat, lj: int, hj: int| #[trigger]
        drawn_for(l, nodes, bots, j, rj, lj, hj) && (holds_all(rect, bots, lo, hi) ==> spans(l, bots, lj, hj))
}

/// What a region holds on its halves: where `rect` holds the elements of a node dividing on `d`
/// along `axis`, the half before the divider holds the left subtree's, the half after it the
/// right subtree's.
pub proof fn lemma_halves_hold<T>(rect: Rect, bots: Seq<BBox<T>>, axis: Axis, d: i64, lo: int, e: int, m: int, hi: int)
    requires
        lo <= e <= m <= hi,
        holds_all(rect, bots, lo, hi),
        forall|k: int| e <= k < m ==> hi_of(#[trigger] bots[k], axis) < d,
        forall|k: int| m <= k < hi ==> lo_of(#[trigger] bots[k], axis) > d,
    ensures
        holds_all(with_range(rect, axis, Range { start: rect.range_of(axis).start, end: d }), bots, e, m),
        holds_all(with_range(rect, axis, Range { start: d, end: rect.range_of(axis).end }), bots, m, hi),
{
    assert forall|k: int| e <= k < m implies #[trigger] with_range(rect, axis, Range { start: rect.range_of(axis).start, end: d }).holds(bots[k].rect) by {
        assert(rect.holds(bots[k].rect));
        assert(hi_of(bots[k], axis) < d);
    }
    assert forall|k: int| m <= k < hi implies #[trigger] with_range(rect, axis, Range { start: d, end: rect.range_of(axis).end }).holds(bots[k].rect) by {
        assert(rect.holds(bots[k].rect));
        assert(lo_of(bots[k], axis) > d);
    }
}

/// One step of `dividers_of` at a node with a divider and elements: the node's own line, then the
/// lines of the left child over the half of the region before the divider, then those of the right
/// child over the half after it.
proof fn lemma_dividers_step(nodes: Seq<Node>, i: int, r: nat, axis: Axis, rect: Rect, depth: int)
    requires
        r > 1,
        nodes[i].div is Some,
        nodes[i].cont is Some,
    ensures
        ({
            let out = dividers_of(nodes, i, r, axis, rect, depth);
            let d = nodes[i].div.unwrap();
            &&& out.len() > 0
            &&& out[0].axis == axis
            &&& out[0].div == d
            &&& out[0].cont == nodes[i].cont.unwrap()
            &&& out[0].depth == depth as usize
            &&& out == seq![out[0]] + dividers_of(
                nodes,
                i + 1,
                (r - 1) as nat,
                axis.other(),
                with_range(rect, axis, Range { start: rect.range_of(axis).start, end: d }),
                depth + 1,
            ) + dividers_of(
                nodes,
                right_child(i, r),
                (r - 1) as nat,
                axis.other(),
                with_range(rect, axis, Range { start: d, end: rect.range_of(axis).end }),
                depth + 1,
            )
        }),
{
}

/// Where a node has no line, its subtree has none.
proof fn lemma_dividers_none(nodes: Seq<Node>, i: int, r: nat, axis: Axis, rect: Rect, depth: int)
    requires
        !(r > 1 && nodes[i].div is Some && nodes[i].cont is Some),
    ensures
        dividers_of(nodes, i, r, axis, rect, depth).len() == 0,
{
}

/// The first drawn divider of the subtree of node `i`, over the region `rect`, is node `i`'s: on
/// the node's axis, at depth `depth`, and its length is `rect`'s range across the divider. The
/// lines below it are deeper.
pub proof fn lemma_divider_first(nodes: Seq<Node>, i: int, r: nat, axis: Axis, rect: Rect, depth: int)
    requires
        0 <= depth,
        depth + r <= usize::MAX,
    ensures
        ({
            let out = dividers_of(nodes, i, r, axis, rect, depth);
            &&& out.len() > 0 ==> out[0].axis == axis && out[0].depth == depth && out[0].length == rect.range_of(
                axis.other(),
            ) && nodes[i].div == Some(out[0].div) && nodes[i].cont == Some(out[0].cont)
            &&& forall|k: int| 0 <= k < out.len() ==> depth <= #[trigger] out[k].depth
            &&& forall|k: int| 0 < k < out.len() ==> depth < #[trigger] out[k].depth
        }),
    decreases r,
{
    let out = dividers_of(nodes, i, r, axis, rect, depth);
    if r > 1 && nodes[i].div is Some && nodes[i].cont is Some {
        let d = nodes[i].div.unwrap();
        let ar = rect.range_of(axis);
        let left = with_range(rect, axis, Range { start: ar.start, end: d });
        let right = with_range(rect, axis, Range { start: d, end: ar.end });
        let rc = right_child(i, r);
        lemma_dividers_step(nodes, i, r, axis, rect, depth);
        let lsub = dividers_of(nodes, i + 1, (r - 1) as nat, axis.other(), left, depth + 1);
        let rsub = dividers_of(nodes, rc, (r - 1) as nat, axis.other(), right, depth + 1);
        lemma_divider_first(nodes, i + 1, (r - 1) as nat, axis.other(), left, depth + 1);
        lemma_divider_first(nodes, rc, (r - 1) as nat, axis.other(), right, depth + 1);
        let nl = lsub.len() as int;
        assert forall|k: int| 0 < k < out.len() implies depth < #[trigger] out[k].depth by {
            if k <= nl {
                assert(out[k] == lsub[k - 1]);
            } else {
                assert(out[k] == rsub[k - 1 - nl]);
            }
        }
    } else {
        lemma_dividers_none(nodes, i, r, axis, rect, depth);
    }
}

/// Every drawn divider but the first has an earlier parent line one level up, on the other axis,
/// whose divider ends or starts its length: the region of a child is cut by its parent's divider.
pub proof fn lemma_divider_parents(nodes: Seq<Node>, i: int, r: nat, axis: Axis, rect: Rect, depth: int)
    requires
        0 <= depth,
        depth + r <= usize::MAX,
    ensures
        ({
            let out = dividers_of(nodes, i, r, axis, rect, depth);
            forall|k: int| 0 < k < out.len() ==> #[trigger] has_parent(out, k)
        }),
    decreases r,
{
    let out = dividers_of(nodes, i, r, axis, rect, depth);
    if r > 1 && nodes[i].div is Some && nodes[i].cont is Some {
        let d = nodes[i].div.unwrap();
        let ar = rect.range_of(axis);
        let left = with_range(rect, axis, Range { start: ar.start, end: d });
        let right = with_range(rect, axis, Range { start: d, end: ar.end });
        let rc = right_child(i, r);
        lemma_dividers_step(nodes, i, r, axis, rect, depth);
        let lsub = dividers_of(nodes, i + 1, (r - 1) as nat, axis.other(), left, depth + 1);
        let rsub = dividers_of(nodes, rc, (r - 1) as nat, axis.other(), right, depth + 1);
        lemma_divider_first(nodes, i, r, axis, rect, depth);
        lemma_divider_first(nodes, i + 1, (r - 1) as nat, axis.other(), left, depth + 1);
        lemma_divider_first(nodes, rc, (r - 1) as nat, axis.other(), right, depth + 1);
        lemma_divider_parents(nodes, i + 1, (r - 1) as nat, axis.other(), left, depth + 1);
        lemma_divider_parents(nodes, rc, (r - 1) as nat, axis.other(), right, depth + 1);
        assert(axis.other().other() == axis);
        assert(left.range_of(axis) == Range { start: ar.start, end: d });
        assert(right.range_of(axis) == Range { start: d, end: ar.end });
        let nl = lsub.len() as int;
        assert forall|k: int| 0 < k < out.len() implies #[trigger] has_parent(out, k) by {
            if k <= nl {
                assert(out[k] == lsub[k - 1]);
                if k == 1 {
                    assert(parent_line(out, k, 0));
                } else {
                    assert(has_parent(lsub, k - 1));
                    let p = choose|p: int| #[trigger] parent_line(lsub, k - 1, p);
                    assert(out[p + 1] == lsub[p]);
                    assert(parent_line(out, k, p + 1));
                }
            } else {
                assert(out[k] == rsub[k - 1 - nl]);
                if k == nl + 1 {
                    assert(parent_line(out, k, 0));
                } else {
                    assert(has_parent(rsub, k - 1 - nl));
                    let p = choose|p: int| #[trigger] parent_line(rsub, k - 1 - nl, p);
                    assert(out[p + 1 + nl] == rsub[p]);
                    assert(parent_line(out, k, p + 1 + nl));
                }
            }
        }
    } else {
        lemma_dividers_none(nodes, i, r, axis, rect, depth);
    }
}

/// Every drawn divider of the subtree of node `i` is the divider of a node of the subtree, and,
/// where `rect` holds the subtree's elements, its length spans, across the divider, every element
/// under that node.
pub proof fn lemma_divider_spans<T>(
    nodes: Seq<Node>,
    bots: Seq<BBox<T>>,
    i: int,
    r: nat,
    axis: Axis,
    lo: int,
    hi: int,
    rect: Rect,
    depth: int,
)
    requires
        wf_sub(nodes, bots, i, r, axis, lo, hi, true),
        0 <= depth,
        depth + r <= usize::MAX,
    ensures
        ({
            let out = dividers_of(nodes, i, r, axis, rect, depth);
            forall|k: int| 0 <= k < out.len() ==> #[trigger] drawn_over(out[k], nodes, bots, rect, lo, hi)
        }),
    decreases r,
{
    lemma_wf_basic(nodes, bots, i, r, axis, lo, hi, true);
    let out = dividers_of(nodes, i, r, axis, rect, depth);
    if r > 1 && nodes[i].div is Some && nodes[i].cont is Some {
        let d = nodes[i].div.unwrap();
        let ar = rect.range_of(axis);
        let left = with_range(rect, axis, Range { start: ar.start, end: d });
        let right = with_range(rect, axis, Range { start: d, end: ar.end });
        let rc = right_child(i, r);
        let mid = subtree_end(nodes, i + 1, (r - 1) as nat);
        let e = nodes[i].end as int;
        lemma_dividers_step(nodes, i, r, axis, rect, depth);
        lemma_divider_first(nodes, i, r, axis, rect, depth);
        let lsub = dividers_of(nodes, i + 1, (r - 1) as nat, axis.other(), left, depth + 1);
        let rsub = dividers_of(nodes, rc, (r - 1) as nat, axis.other(), right, depth + 1);
        lemma_divider_spans(nodes, bots, i + 1, (r - 1) as nat, axis.other(), e, mid, left, depth + 1);
        lemma_divider_spans(nodes, bots, rc, (r - 1) as nat, axis.other(), mid, hi, right, depth + 1);
        if holds_all(rect, bots, lo, hi) {
            lemma_halves_hold(rect, bots, axis, d, lo, e, mid, hi);
        }
        let nl = lsub.len() as int;
        assert forall|k: int| 0 <= k < out.len() implies #[trigger] drawn_over(out[k], nodes, bots, rect, lo, hi) by {
            if k == 0 {
                assert(drawn_for(out[k], nodes, bots, i, r, lo, hi));
                if holds_all(rect, bots, lo, hi) {
                    assert forall|x: int| lo <= x < hi implies out[k].length.start <= lo_of(#[trigger] bots[x], out[k].axis.other())
                        && hi_of(bots[x], out[k].axis.other()) <= out[k].length.end by {
                        assert(rect.holds(bots[x].rect));
                    }
                }
            } else if k <= nl {
                assert(out[k] == lsub[k - 1]);
                assert(drawn_over(lsub[k - 1], nodes, bots, left, e, mid));
                let (j, rj, lj, hj) = choose|j: int, rj: nat, lj: int, hj: int| #[trigger]
                    drawn_for(lsub[k - 1], nodes, bots, j, rj, lj, hj) && (holds_all(left, bots, e, mid) ==> spans(lsub[k - 1], bots, lj, hj));
                assert(drawn_for(out[k], nodes, bots, j, rj, lj, hj));
            } else {
                assert(out[k] == rsub[k - 1 - nl]);
                assert(drawn_over(rsub[k - 1 - nl], nodes, bots, right, mid, hi));
                let (j, rj, lj, hj) = choose|j: int, rj: nat, lj: int, hj: int| #[trigger]
                    drawn_for(rsub[k - 1 - nl], nodes, bots, j, rj, lj, hj) && (holds_all(right, bots, mid, hi) ==> spans(rsub[k - 1 - nl], bots, lj, hj));
                assert(drawn_for(out[k], nodes, bots, j, rj, lj, hj));
            }
        }
    } else {
        lemma_dividers_none(nodes, i, r, axis, rect, depth);
    }
}

fn collect<T>(nodes: &[Node], bots: &Vec<crate::bbox::BBox<T>>, i: usize, r: usize, axis: Axis, lo: usize, hi: usize, rect: Rect, depth: usize, out: &mut Vec<DividerLine>)
    requires
        wf_sub(nodes@, bots@, i as int, r as nat, axis, lo as int, hi as int, true),
        1 <= r < usize::BITS,
        depth + r < usize::BITS,
    ensures
        final(out)@ == old(out)@ + dividers_of(nodes@, i as int, r as nat, axis, rect, depth as int),
    decreases r,
{
    proof {
        lemma_wf_basic(nodes@, bots@, i as int, r as nat, axis, lo as int, hi as int, true);
        lemma_pow2_unfold(r as nat);
        lemma_pow2_pos((r - 1) as nat);
    }
    if r == 1 {
        assert(out@ =~= out@ + Seq::<DividerLine>::empty());
        return;
    }
    let n = nodes[i];
    match (n.div, n.cont) {
        (Some(d), Some(c)) => {
            let line = DividerLine { axis, div: d, cont: c, length: rect.get_range(axis.next()), depth };
            let ghost out0 = out@;
            out.push(line);
            let (a, b) = rect.subdivide(axis, d);
            let rc = i + half_span(r);
            let mid = nodes[rc].start;
            collect(nodes, bots, i + 1, r - 1, axis.next(), n.end, mid, a, depth + 1, out);
            collect(nodes, bots, rc, r - 1, axis.next(), mid, hi, b, depth + 1, out);
            proof {
                let ar = rect.range_of(axis);
                assert(a == with_range(rect, axis, Range { start: ar.start, end: d }));
                assert(b == with_range(rect, axis, Range { start: d, end: ar.end }));
                assert(out@ =~= out0 + dividers_of(nodes@, i as int, r as nat, axis, rect, depth as int));
            }
        },
        _ => {
            assert(out@ =~= out@ + Seq::<DividerLine>::empty());
        },
    }
}

/// The dividers of the tree over the region `rect`, in preorder. The root's line spans `rect`
/// across its divider; every other line has a parent line one level up whose divider ends or
/// starts its length; every line is a node's divider, and where `rect` holds the elements, its
/// length spans, across the divider, every element under that node.
pub fn dividers<T>(tree: &DinoTree<T>, rect: &Rect) -> (out: Vec<DividerLine>)
    ensures
        out@ == dividers_of(tree.nodes(), 0, tree.levels(), tree.first_axis(), *rect, 0),
        out@.len() > 0 ==> out@[0].axis == tree.first_axis() && out@[0].depth == 0 && out@[0].length == rect.range_of(
            tree.first_axis().other(),
        ),
        forall|k: int| 0 < k < out@.len() ==> #[trigger] has_parent(out@, k),
        forall|k: int| 0 <= k < out@.len() ==> #[trigger] drawn_over(out@[k], tree.nodes(), tree.elems(), *rect, 0, tree.elems().len() as int),
{
    let (nodes, bots, axis, height) = tree.parts();
    proof {
        lemma_divider_first(nodes@, 0, height as nat, axis, *rect, 0);
        lemma_divider_parents(nodes@, 0, height as nat, axis, *rect, 0);
        lemma_divider_spans(nodes@, bots@, 0, height as nat, axis, 0, bots@.len() as int, *rect, 0);
    }
    let mut out: Vec<DividerLine> = Vec::new();
    collect(nodes, bots, 0, height, axis, 0, bots.len(), *rect, 0, &mut out);
    assert(out@ =~= Seq::<DividerLine>::empty() + dividers_of(nodes@, 0, height as nat, axis, *rect, 0));
    out
}

/// Hands every divider of the tree over the region `rect` to the drawer, in preorder, one call
/// each; leaves have no divider. Returns the dividers drawn.
pub fn draw<T, D: DividerDrawer>(tree: &DinoTree<T>, dr: &mut D, rect: &Rect) -> (out: Vec<DividerLine>)
    ensures
        out@ == dividers_of(tree.nodes(), 0, tree.levels(), tree.first_axis(), *rect, 0),
        final(dr).drawn()@ == old(dr).drawn()@ + out@,
        out@.len() > 0 ==> out@[0].axis == tree.first_axis() && out@[0].depth == 0 && out@[0].length == rect.range_of(
            tree.first_axis().other(),
        ),
        forall|k: int| 0 < k < out@.len() ==> #[trigger] has_parent(out@, k),
        forall|k: int| 0 <= k < out@.len() ==> #[trigger] drawn_over(out@[k], tree.nodes(), tree.elems(), *rect, 0, tree.elems().len() as int),
{
    let lines = dividers(tree, rect);
    let mut k: usize = 0;
    while k < lines.len()
        invariant
            0 <= k <= lines@.len(),
            dr.drawn()@ == old(dr).drawn()@ + lines@.take(k as int),
        decreases lines@.len() - k,
    {
        let l = lines[k];
        let cont = [l.cont.start, l.cont.end];
        let length = [l.length.start, l.length.end];
        dr.draw_divider(l.axis, l.div, cont, length, l.depth);
        proof {
            assert(lines@.take(k + 1) =~= lines@.take(k as int).push(l));
        }
        k = k + 1;
    }
    proof {
        assert(lines@.take(lines@.len() as int) =~= lines@);
    }
    lines
}

impl<T> DinoTree<T> {
    /// Hands each divider of the tree to `drawer`, in depth first order, and returns them.
    pub fn draw_divider<D: DividerDrawer>(&self, drawer: &mut D, rect: &Rect) -> (out: Vec<DividerLine>)
        ensures
            out@ == dividers_of(self.nodes(), 0, self.levels(), self.first_axis(), *rect, 0),
            final(drawer).drawn()@ == old(drawer).drawn()@ + out@,
            out@.len() > 0 ==> out@[0].axis == self.first_axis() && out@[0].depth == 0 && out@[0].length == rect.range_of(
                self.first_axis().other(),
            ),
            forall|k: int| 0 < k < out@.len() ==> #[trigger] has_parent(out@, k),
            forall|k: int| 0 <= k < out@.len() ==> #[trigger] drawn_over(out@[k], self.nodes(), self.elems(), *rect, 0, self.elems().len() as int),
    {
        draw(self, drawer, rect)
    }
}

} // verus!
