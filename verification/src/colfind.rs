//! Broad-phase collision detection: every pair of elements whose rectangles intersect, that is
//! share a point; rectangles that touch at an edge or a corner intersect.
use vstd::prelude::*;
use vstd::arithmetic::power2::{pow2, lemma_pow2_unfold, lemma_pow2_pos};
use crate::geom::{Axis, Range, ranges_meet};
use crate::bbox::{BBox, lo_of, hi_of, valid_rect, all_valid, sorted_on};
use crate::pairs::{pair_found, extends, sound_from, lemma_found_extends, lemma_found_last, lemma_extends_trans, lemma_sound_extends, same_pair, no_dup_from, entry_in, lemma_no_dup_push, lemma_no_dup_classes, later_first, lemma_later_first_join};
use crate::oned::{Sweeper, section_bounds, lemma_meets_by_axis};
use crate::tree::{Node, DinoTree, NotSorted, wf_sub, subtree_end, lemma_wf_basic, right_child};
use crate::ext::sort_range;
use crate::perm::perm_on;
use crate::analyze::{Splitter, SplitterEmpty};

verus! {


/// Every pair of elements whose rectangles intersect is found in `out`.
pub open spec fn all_pairs_found<T>(out: Seq<(usize, usize)>, bots: Seq<BBox<T>>) -> bool {
    forall|i: int, j: int|
        0 <= i < j < bots.len() && #[trigger] bots[i].rect.meets(#[trigger] bots[j].rect)
            ==> pair_found(out, i, j)
}

/// The pairs of elements whose rectangles intersect: every reported pair does, and every such
/// pair is reported.
pub open spec fn colliding_pairs<T>(out: Seq<(usize, usize)>, bots: Seq<BBox<T>>) -> bool {
    sound_from(out, bots, 0) && all_pairs_found(out, bots)
}

/// If a range meets `a`, and `a` lies inside `c`, it meets `c`.
proof fn lemma_meet_inside(a: Range, b: Range, c: Range)
    requires
        ranges_meet(a, b),
        c.start <= a.start,
        a.end <= c.end,
    ensures
        ranges_meet(c, b),
        ranges_meet(b, c),
{
}

/// The pair `a` comes before the pair `b` in lexicographic order.
pub open spec fn pair_lt(a: (usize, usize), b: (usize, usize)) -> bool {
    a.0 < b.0 || (a.0 == b.0 && a.1 < b.1)
}

/// The pairs of `out` are in strictly increasing lexicographic order, so none occurs twice.
pub open spec fn increasing_pairs(out: Seq<(usize, usize)>) -> bool {
    forall|a: int, b: int| 0 <= a < b < out.len() ==> pair_lt(#[trigger] out[a], #[trigger] out[b])
}

/// Every pair `(i, j)` with `i < j` of the elements, in lexicographic order.
pub fn for_every_pair<T>(bots: &[BBox<T>]) -> (out: Vec<(usize, usize)>)
    ensures
        forall|k: int| 0 <= k < out@.len() ==> (#[trigger] out@[k]).0 < out@[k].1 < bots@.len(),
        forall|i: int, j: int| 0 <= i < j < bots@.len() ==> pair_found(out@, i, j),
        increasing_pairs(out@),
{
    let n = bots.len();
    let mut out: Vec<(usize, usize)> = Vec::new();
    let mut i: usize = 0;
    while i < n
        invariant
            0 <= i <= n == bots@.len(),
            forall|k: int| 0 <= k < out@.len() ==> (#[trigger] out@[k]).0 < out@[k].1 < n,
            forall|k: int| 0 <= k < out@.len() ==> (#[trigger] out@[k]).0 < i,
            forall|a: int, b: int| 0 <= a < i && a < b < n ==> pair_found(out@, a, b),
            increasing_pairs(out@),
        decreases n - i,
    {
        let ghost outi = out@;
        let mut j = i + 1;
        while j < n
            invariant
                0 <= i < j <= n == bots@.len(),
                extends(outi, out@),
                forall|k: int| 0 <= k < out@.len() ==> (#[trigger] out@[k]).0 < out@[k].1 < n,
                forall|k: int| 0 <= k < outi.len() ==> (#[trigger] outi[k]).0 < i,
                forall|k: int| outi.len() <= k < out@.len() ==> (#[trigger] out@[k]).0 == i && out@[k].1 < j,
                forall|a: int, b: int| 0 <= a < i && a < b < n ==> pair_found(out@, a, b),
                forall|b: int| i < b < j ==> pair_found(out@, i as int, b),
                increasing_pairs(out@),
            decreases n - j,
        {
            let ghost prev = out@;
            out.push((i, j));
            proof {
                lemma_found_last(out@, i as int, j as int);
                assert forall|a: int, b: int| 0 <= a < i && a < b < n implies pair_found(out@, a, b) by {
                    lemma_found_extends(prev, out@, a, b);
                }
                assert forall|b: int| i < b < j + 1 implies pair_found(out@, i as int, b) by {
                    if b < j {
                        lemma_found_extends(prev, out@, i as int, b);
                    }
                }
                lemma_extends_trans(outi, prev, out@);
                assert forall|a: int, b: int| 0 <= a < b < out@.len() implies pair_lt(#[trigger] out@[a], #[trigger] out@[b]) by {
                    if b == out@.len() - 1 {
                        if a >= outi.len() {
                            assert(out@[a] == prev[a]);
                        } else {
                            assert(out@[a] == outi[a]);
                        }
                    } else {
                        assert(out@[a] == prev[a] && out@[b] == prev[b]);
                    }
                }
            }
            j = j + 1;
        }
        i = i + 1;
    }
    out
}

/// The naive algorithm: checks every pair of elements.
pub fn query_naive_mut<T>(bots: &[BBox<T>]) -> (out: Vec<(usize, usize)>)
    ensures
        colliding_pairs(out@, bots@),
        forall|k: int| 0 <= k < out@.len() ==> (#[trigger] out@[k]).0 < out@[k].1,
        increasing_pairs(out@),
        no_dup_from(out@, 0),
{
    let all = for_every_pair(bots);
    let mut out: Vec<(usize, usize)> = Vec::new();
    let mut k: usize = 0;
    while k < all.len()
        invariant
            0 <= k <= all@.len(),
            forall|x: int| 0 <= x < all@.len() ==> (#[trigger] all@[x]).0 < all@[x].1 < bots@.len(),
            forall|i: int, j: int| 0 <= i < j < bots@.len() ==> pair_found(all@, i, j),
            increasing_pairs(all@),
            increasing_pairs(out@),
            forall|x: int| 0 <= x < out@.len() ==> exists|y: int| 0 <= y < k && #[trigger] out@[x] == all@[y],
            sound_from(out@, bots@, 0),
            forall|x: int| 0 <= x < out@.len() ==> (#[trigger] out@[x]).0 < out@[x].1,
            forall|x: int|
                0 <= x < k && bots@[all@[x].0 as int].rect.meets(bots@[all@[x].1 as int].rect)
                    ==> pair_found(out@, #[trigger] all@[x].0 as int, all@[x].1 as int),
        decreases all@.len() - k,
    {
        let (a, b) = all[k];
        let ghost prev = out@;
        if bots[a].rect.intersects_rect(&bots[b].rect) {
            out.push((a, b));
            proof {
                lemma_found_last(out@, a as int, b as int);
                assert forall|x: int, z: int| 0 <= x < z < out@.len() implies pair_lt(#[trigger] out@[x], #[trigger] out@[z]) by {
                    if z == out@.len() - 1 {
                        assert(out@[x] == prev[x]);
                        let y = choose|y: int| 0 <= y < k && #[trigger] prev[x] == all@[y];
                        assert(pair_lt(all@[y], all@[k as int]));
                    } else {
                        assert(out@[x] == prev[x] && out@[z] == prev[z]);
                    }
                }
                assert forall|x: int| 0 <= x < out@.len() implies exists|y: int| 0 <= y < k + 1 && #[trigger] out@[x] == all@[y] by {
                    if x == out@.len() - 1 {
                        assert(out@[x] == all@[k as int]);
                    } else {
                        assert(out@[x] == prev[x]);
                        let y = choose|y: int| 0 <= y < k && #[trigger] prev[x] == all@[y];
                        assert(out@[x] == all@[y]);
                    }
                }
            }
        }
        proof {
            assert forall|x: int|
                0 <= x < k + 1 && bots@[all@[x].0 as int].rect.meets(bots@[all@[x].1 as int].rect)
                    implies pair_found(out@, #[trigger] all@[x].0 as int, all@[x].1 as int) by {
                if x < k {
                    lemma_found_extends(prev, out@, all@[x].0 as int, all@[x].1 as int);
                }
            }
        }
        k = k + 1;
    }
    proof {
        assert forall|i: int, j: int|
            0 <= i < j < bots@.len() && #[trigger] bots@[i].rect.meets(#[trigger] bots@[j].rect)
                implies pair_found(out@, i, j) by {
            assert(pair_found(all@, i, j));
            let x = choose|x: int|
                0 <= x < all@.len() && ((#[trigger] all@[x]).0 == i && all@[x].1 == j || all@[x].0
                    == j && all@[x].1 == i);
            assert(all@[x].0 == i && all@[x].1 == j);
        }
        assert forall|a: int, b: int| 0 <= a < b < out@.len() implies !same_pair(#[trigger] out@[a], #[trigger] out@[b]) by {
            assert(pair_lt(out@[a], out@[b]));
        }
    }
    out
}

/// Sweep and prune over all the elements: sorts them along `axis`, then sweeps. The pairs name
/// the elements in their sorted order.
pub fn query_sweep_mut<T>(axis: Axis, bots: &mut Vec<BBox<T>>) -> (out: Vec<(usize, usize)>)
    requires
        all_valid(old(bots)@),
    ensures
        perm_on(old(bots)@, final(bots)@, 0, old(bots)@.len() as int),
        sorted_on(final(bots)@, 0, final(bots)@.len() as int, axis),
        colliding_pairs(out@, final(bots)@),
        no_dup_from(out@, 0),
{
    let n = bots.len();
    sort_range(bots, 0, n, axis);
    proof {
        let b0 = old(bots)@;
        let b1 = bots@;
        let pv = |b: BBox<T>| valid_rect(b.rect);
        assert forall|k: int| 0 <= k < n implies #[trigger] pv(b0[k]) by {
            assert(valid_rect(b0[k].rect));
        }
        crate::perm::lemma_perm_forall(b0, b1, 0, n as int, pv);
        assert forall|k: int| 0 <= k < b1.len() implies #[trigger] valid_rect(b1[k].rect) by {
            assert(pv(b1[k]));
        }
    }
    let mut out: Vec<(usize, usize)> = Vec::new();
    let mut sweeper = Sweeper::new();
    sweeper.find_2d(axis, bots, 0, n, &mut out);
    out
}

/// Every pair of elements whose rectangles intersect, found by sorting the elements along
/// `axis` and sweeping, with no tree; indices refer to the sorted elements.
pub fn find_collisions_sweep_mut<T>(bots: &mut Vec<BBox<T>>, axis: Axis) -> (out: Vec<(usize, usize)>)
    requires
        all_valid(old(bots)@),
    ensures
        perm_on(old(bots)@, final(bots)@, 0, old(bots)@.len() as int),
        sorted_on(final(bots)@, 0, final(bots)@.len() as int, axis),
        colliding_pairs(out@, final(bots)@),
        no_dup_from(out@, 0),
{
    query_sweep_mut(axis, bots)
}

/// The pairs of the elements `[lo, hi)` whose rectangles intersect, each checked directly.
fn handle_node_naive<T>(bots: &Vec<BBox<T>>, lo: usize, hi: usize, out: &mut Vec<(usize, usize)>)
    requires
        lo <= hi <= bots@.len(),
    ensures
        extends(old(out)@, final(out)@),
        sound_from(final(out)@, bots@, old(out)@.len() as int),
        forall|i: int, j: int|
            lo <= i < j < hi && bots@[i].rect.meets(bots@[j].rect) ==> pair_found(final(out)@, i, j),
        forall|k: int| old(out)@.len() <= k < final(out)@.len() ==> lo <= (#[trigger] final(out)@[k]).0 < final(out)@[k].1 < hi,
        no_dup_from(final(out)@, old(out)@.len() as int),
{
    let ghost out0 = out@;
    let mut i = lo;
    while i < hi
        invariant
            lo <= i <= hi <= bots@.len(),
            extends(out0, out@),
            sound_from(out@, bots@, out0.len() as int),
            forall|a: int, b: int|
                lo <= a < i && a < b < hi && bots@[a].rect.meets(bots@[b].rect) ==> pair_found(out@, a, b),
            forall|k: int| out0.len() <= k < out@.len() ==> lo <= (#[trigger] out@[k]).0 < out@[k].1 < hi && out@[k].0 < i,
            no_dup_from(out@, out0.len() as int),
        decreases hi - i,
    {
        let ghost outi = out@;
        let mut j = i + 1;
        while j < hi
            invariant
                lo <= i < j <= hi <= bots@.len(),
                extends(outi, out@),
                sound_from(out@, bots@, outi.len() as int),
                forall|b: int| i < b < j && bots@[i as int].rect.meets(bots@[b].rect) ==> pair_found(out@, i as int, b),
                out0.len() <= outi.len(),
                forall|k: int| out0.len() <= k < outi.len() ==> lo <= (#[trigger] outi[k]).0 < outi[k].1 < hi && outi[k].0 < i,
                forall|k: int| outi.len() <= k < out@.len() ==> (#[trigger] out@[k]).0 == i && i < out@[k].1 < j,
                no_dup_from(out@, out0.len() as int),
            decreases hi - j,
        {
            let ghost prev = out@;
            if bots[i].rect.intersects_rect(&bots[j].rect) {
                proof {
                    assert forall|k: int| out0.len() <= k < prev.len() implies !same_pair(#[trigger] prev[k], (i, j)) by {
                        if k < outi.len() {
                            assert(prev[k] == outi[k]);
                        }
                    }
                    lemma_no_dup_push(prev, (i, j), out0.len() as int);
                }
                out.push((i, j));
                proof {
                    lemma_found_last(out@, i as int, j as int);
                }
            }
            proof {
                assert forall|b: int| i < b < j + 1 && bots@[i as int].rect.meets(bots@[b].rect) implies pair_found(out@, i as int, b) by {
                    if b < j {
                        lemma_found_extends(prev, out@, i as int, b);
                    }
                }
            }
            j = j + 1;
        }
        proof {
            lemma_extends_trans(out0, outi, out@);
            lemma_sound_extends(outi, out@, bots@, out0.len() as int);
            assert forall|k: int| out0.len() <= k < out@.len() implies lo <= (#[trigger] out@[k]).0 < out@[k].1 < hi && out@[k].0 < i + 1 by {
                if k < outi.len() {
                    assert(out@[k] == outi[k]);
                }
            }
            assert forall|a: int, b: int|
                lo <= a < i + 1 && a < b < hi && bots@[a].rect.meets(bots@[b].rect) implies pair_found(out@, a, b) by {
                if a < i {
                    lemma_found_extends(outi, out@, a, b);
                }
            }
        }
        i = i + 1;
    }
}

/// An anchor node: its elements `[start, end)`, its axis, and the bounds `cont` of its elements
/// on that axis.
pub struct Anchor {
    pub start: usize,
    pub end: usize,
    pub axis: Axis,
    pub cont: Range,
}

/// The anchor's elements are bounded by `cont`, and sorted along the other axis when `sorted`.
pub open spec fn anchor_ok<T>(a: Anchor, bots: Seq<BBox<T>>, sorted: bool) -> bool {
    &&& a.start <= a.end <= bots.len()
    &&& sorted ==> sorted_on(bots, a.start as int, a.end as int, a.axis.other())
    &&& forall|k: int|
        a.start <= k < a.end ==> a.cont.start <= lo_of(#[trigger] bots[k], a.axis) && hi_of(bots[k], a.axis)
            <= a.cont.end
}

/// Pairs between the anchor's elements and the elements `[cs, ce)` of a node below it, of axis
/// `caxis` and bounds `ccont` on that axis.
fn handle_children<T>(
    sw: &mut Sweeper,
    bots: &Vec<BBox<T>>,
    anchor: &Anchor,
    cs: usize,
    ce: usize,
    caxis: Axis,
    ccont: Range,
    sorted: bool,
    out: &mut Vec<(usize, usize)>,
)
    requires
        anchor_ok(*anchor, bots@, sorted),
        anchor.end <= cs <= ce <= bots@.len(),
        sorted ==> sorted_on(bots@, cs as int, ce as int, caxis.other()),
        forall|k: int| cs <= k < ce ==> ccont.start <= lo_of(#[trigger] bots@[k], caxis) && hi_of(bots@[k], caxis) <= ccont.end,
    ensures
        extends(old(out)@, final(out)@),
        sound_from(final(out)@, bots@, old(out)@.len() as int),
        forall|p: int, q: int|
            anchor.start <= p < anchor.end && cs <= q < ce && bots@[p].rect.meets(bots@[q].rect)
                ==> pair_found(final(out)@, p, q),
        forall|k: int| old(out)@.len() <= k < final(out)@.len() ==> entry_in(#[trigger] final(out)@[k], anchor.start as int, anchor.end as int, cs as int, ce as int),
        no_dup_from(final(out)@, old(out)@.len() as int),
        later_first(final(out)@, old(out)@.len() as int),
{
    if !sorted {
        let res = if !caxis.is_equal_to(anchor.axis) {
            true
        } else {
            ccont.intersects(&anchor.cont)
        };
        if res {
            sw.find_perp_2d(bots, cs, ce, anchor.start, anchor.end, out);
        }
        proof {
            assert forall|p: int, q: int|
                anchor.start <= p < anchor.end && cs <= q < ce && bots@[p].rect.meets(bots@[q].rect)
                    implies pair_found(out@, p, q) by {
                lemma_meets_by_axis(bots@[p].rect, bots@[q].rect, caxis);
                if !res {
                    lemma_meet_inside(bots@[p].rect.range_of(caxis), bots@[q].rect.range_of(caxis), anchor.cont);
                    lemma_meet_inside(bots@[q].rect.range_of(caxis), anchor.cont, ccont);
                }
                assert(bots@[q].rect.meets(bots@[p].rect));
                assert(pair_found(out@, q, p));
            }
        }
        return;
    }
    if !caxis.is_equal_to(anchor.axis) {
        let (s1, e1) = section_bounds(anchor.axis, bots, cs, ce, &anchor.cont);
        let (s2, e2) = section_bounds(caxis, bots, anchor.start, anchor.end, &ccont);
        sw.find_perp_2d(bots, s1, e1, s2, e2, out);
        proof {
            assert(caxis.other() == anchor.axis);
            assert(anchor.axis.other() == caxis);
            assert forall|p: int, q: int|
                anchor.start <= p < anchor.end && cs <= q < ce && bots@[p].rect.meets(bots@[q].rect)
                    implies pair_found(out@, p, q) by {
                lemma_meets_by_axis(bots@[p].rect, bots@[q].rect, anchor.axis);
                lemma_meet_inside(bots@[p].rect.range_of(anchor.axis), bots@[q].rect.range_of(anchor.axis), anchor.cont);
                lemma_meet_inside(bots@[q].rect.range_of(caxis), bots@[p].rect.range_of(caxis), ccont);
                assert(ranges_meet(bots@[q].rect.range_of(anchor.axis), anchor.cont));
                assert(ranges_meet(bots@[p].rect.range_of(caxis), ccont));
                assert(bots@[q].rect.meets(bots@[p].rect));
                assert(pair_found(out@, q, p));
            }
        }
    } else if ccont.intersects(&anchor.cont) {
        sw.find_parallel_2d(caxis.next(), bots, cs, ce, anchor.start, anchor.end, out);
        proof {
            assert forall|p: int, q: int|
                anchor.start <= p < anchor.end && cs <= q < ce && bots@[p].rect.meets(bots@[q].rect)
                    implies pair_found(out@, p, q) by {
                assert(bots@[q].rect.meets(bots@[p].rect));
                assert(pair_found(out@, q, p));
            }
        }
    } else {
        proof {
            assert forall|p: int, q: int|
                anchor.start <= p < anchor.end && cs <= q < ce && bots@[p].rect.meets(bots@[q].rect)
                    implies pair_found(out@, p, q) by {
                lemma_meets_by_axis(bots@[p].rect, bots@[q].rect, caxis);
                lemma_meet_inside(bots@[p].rect.range_of(caxis), bots@[q].rect.range_of(caxis), anchor.cont);
                lemma_meet_inside(bots@[q].rect.range_of(caxis), anchor.cont, ccont);
            }
        }
    }
}

/// `2^(r - 1)`, the distance from a node with `r` levels to its right child.
pub(crate) fn half_span(r: usize) -> (h: usize)
    requires
        1 <= r < usize::BITS,
    ensures
        h == pow2((r - 1) as nat),
{
    proof {
        vstd::bits::lemma_usize_pow2_no_overflow((r - 1) as nat);
        vstd::bits::lemma_usize_shl_is_mul(1, (r - 1) as usize);
    }
    1usize << (r - 1)
}

/// A pair whose ranges on `axis` do not meet does not share a point, so it does not intersect.
proof fn lemma_apart<T>(a: BBox<T>, b: BBox<T>, axis: Axis)
    requires
        !ranges_meet(a.rect.range_of(axis), b.rect.range_of(axis)),
    ensures
        !a.rect.meets(b.rect),
        !b.rect.meets(a.rect),
{
    lemma_meets_by_axis(a.rect, b.rect, axis);
    lemma_meets_by_axis(b.rect, a.rect, axis);
}

/// Pairs between the anchor's elements and the elements of the subtree of node `j`, which has `r`
/// levels, first axis `axis`, and holds the elements `[lo, hi)`. Subtrees on the anchor's axis
/// that lie beyond the anchor's bounds are skipped.
fn go_down<T>(
    sw: &mut Sweeper,
    nodes: &[Node],
    bots: &Vec<BBox<T>>,
    anchor: &Anchor,
    j: usize,
    r: usize,
    axis: Axis,
    lo: usize,
    hi: usize,
    sorted: bool,
    out: &mut Vec<(usize, usize)>,
)
    requires
        wf_sub(nodes@, bots@, j as int, r as nat, axis, lo as int, hi as int, sorted),
        r < usize::BITS,
        anchor_ok(*anchor, bots@, sorted),
        anchor.end <= lo,
    ensures
        extends(old(out)@, final(out)@),
        sound_from(final(out)@, bots@, old(out)@.len() as int),
        forall|p: int, q: int|
            anchor.start <= p < anchor.end && lo <= q < hi && bots@[p].rect.meets(bots@[q].rect)
                ==> pair_found(final(out)@, p, q),
        forall|k: int| old(out)@.len() <= k < final(out)@.len() ==> entry_in(#[trigger] final(out)@[k], anchor.start as int, anchor.end as int, lo as int, hi as int),
        no_dup_from(final(out)@, old(out)@.len() as int),
        later_first(final(out)@, old(out)@.len() as int),
    decreases r,
{
    let ghost out0 = out@;
    proof {
        lemma_wf_basic(nodes@, bots@, j as int, r as nat, axis, lo as int, hi as int, sorted);
        lemma_pow2_unfold(r as nat);
        lemma_pow2_pos((r - 1) as nat);
    }
    let n = nodes[j];
    if r > 1 && n.div.is_none() {
        return;
    }
    match n.cont {
        Some(c) => {
            handle_children(sw, bots, anchor, n.start, n.end, axis, c, sorted, out);
        },
        None => {},
    }
    let ghost out1 = out@;
    if r == 1 {
        return;
    }
    let d = match n.div {
        Some(d) => d,
        None => { return; },
    };
    let rc = j + half_span(r);
    let ghost m = subtree_end(nodes@, j + 1, (r - 1) as nat);
    let mid = nodes[rc].start;
    assert(mid == m);
    let same = axis.is_equal_to(anchor.axis);
    let go_left = !same || !(d < anchor.cont.start);
    let go_right = !same || !(d > anchor.cont.end);
    if go_left {
        go_down(sw, nodes, bots, anchor, j + 1, r - 1, axis.next(), n.end, mid, sorted, out);
    }
    let ghost out2 = out@;
    if go_right {
        go_down(sw, nodes, bots, anchor, rc, r - 1, axis.next(), mid, hi, sorted, out);
    }
    proof {
        let out3 = out@;
        lemma_extends_trans(out0, out1, out2);
        lemma_extends_trans(out0, out2, out3);
        lemma_extends_trans(out1, out2, out3);
        let (a0, a1) = (anchor.start as int, anchor.end as int);
        let c1 = |x: (usize, usize)| entry_in(x, a0, a1, lo as int, n.end as int);
        let c2 = |x: (usize, usize)| entry_in(x, a0, a1, n.end as int, mid as int);
        let c12 = |x: (usize, usize)| entry_in(x, a0, a1, lo as int, mid as int);
        let c3 = |x: (usize, usize)| entry_in(x, a0, a1, mid as int, hi as int);
        assert forall|k: int| out0.len() <= k < out1.len() implies c1(#[trigger] out2[k]) by {
            assert(out2[k] == out1[k]);
        }
        lemma_no_dup_classes(out1, out2, out0.len() as int, c1, c2);
        assert forall|k: int| out0.len() <= k < out2.len() implies c12(#[trigger] out3[k]) by {
            assert(out3[k] == out2[k]);
            if k < out1.len() {
                assert(out2[k] == out1[k]);
            }
        }
        lemma_no_dup_classes(out2, out3, out0.len() as int, c12, c3);
        assert forall|k: int| out0.len() <= k < out3.len() implies entry_in(#[trigger] out3[k], a0, a1, lo as int, hi as int) by {
            if k < out2.len() {
                assert(out3[k] == out2[k]);
                if k < out1.len() {
                    assert(out2[k] == out1[k]);
                }
            }
        }
        lemma_sound_extends(out0, out2, bots@, out0.len() as int);
        lemma_sound_extends(out0, out3, bots@, out0.len() as int);
        lemma_later_first_join(out1, out2, out0.len() as int);
        lemma_later_first_join(out2, out3, out0.len() as int);
        assert forall|p: int, q: int|
            anchor.start <= p < anchor.end && lo <= q < hi && bots@[p].rect.meets(bots@[q].rect)
                implies pair_found(out3, p, q) by {
            if q < n.end {
                lemma_found_extends(out1, out3, p, q);
            } else if q < mid {
                if go_left {
                    lemma_found_extends(out2, out3, p, q);
                } else {
                    assert(hi_of(bots@[q], axis) < d);
                    assert(anchor.cont.start <= lo_of(bots@[p], anchor.axis));
                    lemma_apart(bots@[p], bots@[q], axis);
                }
            } else {
                if go_right {
                } else {
                    assert(lo_of(bots@[q], axis) > d);
                    assert(hi_of(bots@[p], anchor.axis) <= anchor.cont.end);
                    lemma_apart(bots@[p], bots@[q], axis);
                }
            }
        }
    }
}

/// The splitter after the calls of a query's walk over the subtree of node `i`, which has `r`
/// levels: the node is entered; below a leaf, or a node whose subtree holds no element, the walk
/// ends; else the splitter is split, the first child's subtree is walked with it and the second's
/// with the part split off, which is then merged back.
pub open spec fn query_walk<K: Splitter>(s: K, nodes: Seq<Node>, i: int, r: nat) -> K
    decreases r,
{
    let s1 = s.started();
    if r <= 1 || nodes[i].div is None {
        s1.ended()
    } else {
        let (a, b) = s1.divided();
        query_walk(a, nodes, i + 1, (r - 1) as nat).added(query_walk(b, nodes, right_child(i, r), (r - 1) as nat))
    }
}

/// All the pairs of the elements of the subtree of node `i`, which has `r` levels, first axis
/// `axis`, and holds the elements `[lo, hi)`.
fn recurse<T, K: Splitter>(
    sw: &mut Sweeper,
    splitter: &mut K,
    nodes: &[Node],
    bots: &Vec<BBox<T>>,
    i: usize,
    r: usize,
    axis: Axis,
    lo: usize,
    hi: usize,
    sorted: bool,
    out: &mut Vec<(usize, usize)>,
)
    requires
        wf_sub(nodes@, bots@, i as int, r as nat, axis, lo as int, hi as int, sorted),
        r < usize::BITS,
        all_valid(bots@),
    ensures
        extends(old(out)@, final(out)@),
        sound_from(final(out)@, bots@, old(out)@.len() as int),
        forall|p: int, q: int|
            lo <= p < q < hi && bots@[p].rect.meets(bots@[q].rect) ==> pair_found(final(out)@, p, q),
        forall|k: int| old(out)@.len() <= k < final(out)@.len() ==> entry_in(#[trigger] final(out)@[k], lo as int, hi as int, lo as int, hi as int),
        no_dup_from(final(out)@, old(out)@.len() as int),
        sorted ==> later_first(final(out)@, old(out)@.len() as int),
        *final(splitter) == query_walk(*old(splitter), nodes@, i as int, r as nat),
    decreases r,
{
    let ghost out0 = out@;
    proof {
        lemma_wf_basic(nodes@, bots@, i as int, r as nat, axis, lo as int, hi as int, sorted);
        lemma_pow2_unfold(r as nat);
        lemma_pow2_pos((r - 1) as nat);
    }
    splitter.node_start();
    let n = nodes[i];
    if sorted {
        sw.find_2d(axis.next(), bots, n.start, n.end, out);
    } else {
        handle_node_naive(bots, n.start, n.end, out);
    }
    let ghost out1 = out@;
    if r == 1 {
        splitter.node_end();
        return;
    }
    let d = match n.div {
        Some(d) => d,
        None => {
            splitter.node_end();
            return;
        },
    };
    let rc = i + half_span(r);
    let ghost m = subtree_end(nodes@, i + 1, (r - 1) as nat);
    let mid = nodes[rc].start;
    assert(mid == m);
    match n.cont {
        Some(c) => {
            let anchor = Anchor { start: n.start, end: n.end, axis, cont: c };
            go_down(sw, nodes, bots, &anchor, i + 1, r - 1, axis.next(), n.end, mid, sorted, out);
            let ghost outa = out@;
            go_down(sw, nodes, bots, &anchor, rc, r - 1, axis.next(), mid, hi, sorted, out);
            proof {
                lemma_extends_trans(out1, outa, out@);
                lemma_sound_extends(outa, out@, bots@, out1.len() as int);
                let (a0, a1) = (n.start as int, n.end as int);
                let ca = |x: (usize, usize)| entry_in(x, a0, a1, a1, mid as int);
                let cb = |x: (usize, usize)| entry_in(x, a0, a1, mid as int, hi as int);
                lemma_no_dup_classes(outa, out@, out1.len() as int, ca, cb);
                lemma_later_first_join(outa, out@, out1.len() as int);
                assert forall|k: int| out1.len() <= k < out@.len() implies entry_in(#[trigger] out@[k], a0, a1, a1, hi as int) by {
                    if k < outa.len() {
                        assert(out@[k] == outa[k]);
                    }
                }
                assert forall|p: int, q: int|
                    n.start <= p < n.end && n.end <= q < hi && bots@[p].rect.meets(bots@[q].rect)
                        implies pair_found(out@, p, q) by {
                    if q < mid {
                        lemma_found_extends(outa, out@, p, q);
                    }
                }
            }
        },
        None => {},
    }
    let ghost out2 = out@;
    assert(no_dup_from(out2, out1.len() as int));
    assert(forall|k: int| out1.len() <= k < out2.len() ==> entry_in(#[trigger] out2[k], n.start as int, n.end as int, n.end as int, hi as int));
    assert(extends(out1, out2));
    assert(sound_from(out2, bots@, out1.len() as int));
    assert(forall|p: int, q: int|
        n.start <= p < n.end && n.end <= q < hi && bots@[p].rect.meets(bots@[q].rect)
            ==> pair_found(out2, p, q));
    let mut splitter2 = splitter.div();
    recurse(sw, splitter, nodes, bots, i + 1, r - 1, axis.next(), n.end, mid, sorted, out);
    let ghost out3 = out@;
    recurse(sw, &mut splitter2, nodes, bots, rc, r - 1, axis.next(), mid, hi, sorted, out);
    splitter.add(splitter2);
    proof {
        let out4 = out@;
        lemma_extends_trans(out0, out1, out2);
        lemma_extends_trans(out0, out2, out3);
        lemma_extends_trans(out0, out3, out4);
        lemma_extends_trans(out1, out2, out3);
        lemma_extends_trans(out1, out3, out4);
        lemma_extends_trans(out2, out3, out4);
        lemma_sound_extends(out0, out2, bots@, out0.len() as int);
        lemma_sound_extends(out0, out3, bots@, out0.len() as int);
        lemma_sound_extends(out0, out4, bots@, out0.len() as int);
        if sorted {
            assert(later_first(out2, out1.len() as int));
            lemma_later_first_join(out1, out2, out0.len() as int);
            lemma_later_first_join(out2, out3, out0.len() as int);
            lemma_later_first_join(out3, out4, out0.len() as int);
        }
        let (l0, e0, m0, h0) = (lo as int, n.end as int, mid as int, hi as int);
        let c_own = |x: (usize, usize)| entry_in(x, l0, e0, l0, e0);
        let c_down = |x: (usize, usize)| entry_in(x, l0, e0, e0, h0);
        let c_01 = |x: (usize, usize)| entry_in(x, l0, e0, l0, h0);
        let c_left = |x: (usize, usize)| entry_in(x, e0, m0, e0, m0);
        let c_02 = |x: (usize, usize)| entry_in(x, l0, e0, l0, h0) || entry_in(x, e0, m0, e0, m0);
        let c_right = |x: (usize, usize)| entry_in(x, m0, h0, m0, h0);
        assert(forall|k: int| out0.len() <= k < out1.len() ==> c_own(#[trigger] out1[k]));
        assert forall|k: int| out0.len() <= k < out1.len() implies c_own(#[trigger] out2[k]) by {
            assert(out2[k] == out1[k]);
        }
        lemma_no_dup_classes(out1, out2, out0.len() as int, c_own, c_down);
        assert forall|k: int| out0.len() <= k < out2.len() implies c_01(#[trigger] out3[k]) by {
            assert(out3[k] == out2[k]);
            if k < out1.len() {
                assert(out2[k] == out1[k]);
            }
        }
        lemma_no_dup_classes(out2, out3, out0.len() as int, c_01, c_left);
        assert forall|k: int| out0.len() <= k < out3.len() implies c_02(#[trigger] out4[k]) by {
            assert(out4[k] == out3[k]);
            if k < out2.len() {
                assert(out3[k] == out2[k]);
                if k < out1.len() {
                    assert(out2[k] == out1[k]);
                }
            }
        }
        lemma_no_dup_classes(out3, out4, out0.len() as int, c_02, c_right);
        assert forall|k: int| out0.len() <= k < out4.len() implies entry_in(#[trigger] out4[k], l0, h0, l0, h0) by {
            if k < out3.len() {
                assert(out4[k] == out3[k]);
                if k < out2.len() {
                    assert(out3[k] == out2[k]);
                    if k < out1.len() {
                        assert(out2[k] == out1[k]);
                    }
                }
            }
        }
        assert forall|p: int, q: int|
            lo <= p < q < hi && bots@[p].rect.meets(bots@[q].rect) implies pair_found(out4, p, q) by {
            if q < n.end {
                lemma_found_extends(out1, out4, p, q);
            } else if p < n.end {
                lemma_found_extends(out2, out4, p, q);
            } else if q < mid {
                lemma_found_extends(out3, out4, p, q);
            } else if p < mid {
                assert(hi_of(bots@[p], axis) < d);
                assert(lo_of(bots@[q], axis) > d);
                lemma_apart(bots@[p], bots@[q], axis);
            }
        }
    }
}

impl<T> DinoTree<T> {
    /// Every pair of elements whose rectangles intersect, each pair naming the elements by
    /// their index in `get_bots()`, the later of the two first.
    pub fn find_intersections_mut(&self) -> (out: Vec<(usize, usize)>)
        requires
            all_valid(self.elems()),
        ensures
            colliding_pairs(out@, self.elems()),
            no_dup_from(out@, 0),
            later_first(out@, 0),
    {
        let (nodes, bots, axis, height) = self.parts();
        let mut out: Vec<(usize, usize)> = Vec::new();
        let mut sw = Sweeper::new();
        let mut splitter = SplitterEmpty;
        recurse(&mut sw, &mut splitter, nodes, bots, 0, height, axis, 0, bots.len(), true, &mut out);
        out
    }

    /// The same pairs as `find_intersections_mut`, for a caller that takes both elements of a
    /// pair mutably at once.
    pub fn find_intersections_pmut(&self) -> (out: Vec<(usize, usize)>)
        requires
            all_valid(self.elems()),
        ensures
            colliding_pairs(out@, self.elems()),
            no_dup_from(out@, 0),
            later_first(out@, 0),
    {
        self.find_intersections_mut()
    }
}

impl<T> NotSorted<T> {
    /// Every pair of elements whose rectangles intersect, each pair naming the elements by
    /// their index in `get_bots()`.
    pub fn find_intersections_mut(&self) -> (out: Vec<(usize, usize)>)
        requires
            all_valid(self.elems()),
        ensures
            colliding_pairs(out@, self.elems()),
            no_dup_from(out@, 0),
    {
        let (nodes, bots, axis, height) = self.parts();
        let mut out: Vec<(usize, usize)> = Vec::new();
        let mut sw = Sweeper::new();
        let mut splitter = SplitterEmpty;
        recurse(&mut sw, &mut splitter, nodes, bots, 0, height, axis, 0, bots.len(), false, &mut out);
        out
    }
}

/// Every pair of elements of the tree whose rectangles intersect, sequentially, the later of the
/// two first.
pub fn query_seq_mut<T>(tree: &DinoTree<T>) -> (out: Vec<(usize, usize)>)
    requires
        all_valid(tree.elems()),
    ensures
        colliding_pairs(out@, tree.elems()),
        no_dup_from(out@, 0),
        later_first(out@, 0),
{
    let mut splitter = SplitterEmpty;
    query_seq_adv_mut(tree, &mut splitter)
}

/// Every pair of elements of the tree whose rectangles intersect, sequentially, reporting to
/// `splitter` when a node is entered, when the walk stops below a node, and when the walk splits
/// in two for the children and merges back.
pub fn query_seq_adv_mut<T, K: Splitter>(tree: &DinoTree<T>, splitter: &mut K) -> (out: Vec<(usize, usize)>)
    requires
        all_valid(tree.elems()),
    ensures
        *final(splitter) == query_walk(*old(splitter), tree.nodes(), 0, tree.levels()),
        colliding_pairs(out@, tree.elems()),
        no_dup_from(out@, 0),
        later_first(out@, 0),
{
    let (nodes, bots, axis, height) = tree.parts();
    let mut out: Vec<(usize, usize)> = Vec::new();
    let mut sw = Sweeper::new();
    recurse(&mut sw, splitter, nodes, bots, 0, height, axis, 0, bots.len(), true, &mut out);
    out
}

/// Every pair of elements of a tree whose nodes are not sorted whose rectangles intersect.
pub fn query_nosort_seq_mut<T>(tree: &NotSorted<T>) -> (out: Vec<(usize, usize)>)
    requires
        all_valid(tree.elems()),
    ensures
        colliding_pairs(out@, tree.elems()),
        no_dup_from(out@, 0),
{
    let mut splitter = SplitterEmpty;
    query_nosort_seq_adv_mut(tree, &mut splitter)
}

/// Every pair of elements of a tree whose nodes are not sorted whose rectangles intersect,
/// reporting the walk to `splitter` as `query_seq_adv_mut` does.
pub fn query_nosort_seq_adv_mut<T, K: Splitter>(tree: &NotSorted<T>, splitter: &mut K) -> (out: Vec<(usize, usize)>)
    requires
        all_valid(tree.elems()),
    ensures
        *final(splitter) == query_walk(*old(splitter), tree.nodes(), 0, tree.levels()),
        colliding_pairs(out@, tree.elems()),
        no_dup_from(out@, 0),
{
    let (nodes, bots, axis, height) = tree.parts();
    let mut out: Vec<(usize, usize)> = Vec::new();
    let mut sw = Sweeper::new();
    recurse(&mut sw, splitter, nodes, bots, 0, height, axis, 0, bots.len(), false, &mut out);
    out
}

/// Sorts the elements by the start of their range on `axis`, as a sweep needs them.
pub fn sweeper_update<T>(axis: Axis, bots: &mut Vec<BBox<T>>)
    ensures
        perm_on(old(bots)@, final(bots)@, 0, old(bots)@.len() as int),
        sorted_on(final(bots)@, 0, final(bots)@.len() as int, axis),
{
    let n = bots.len();
    sort_range(bots, 0, n, axis);
}

/// A function to call on colliding pairs, for a walk that stays on one thread.
pub struct QueryFnMut<F>(F);

impl<F> QueryFnMut<F> {
    /// The function.
    pub closed spec fn func(&self) -> F {
        self.0
    }

    /// Wraps `func`.
    pub fn new(func: F) -> (r: QueryFnMut<F>)
        ensures
            r.func() == func,
    {
        QueryFnMut(func)
    }
}

/// A function to call on colliding pairs, which a parallel walk may share between threads.
pub struct QueryFn<F>(F);

impl<F> QueryFn<F> {
    /// The function.
    pub closed spec fn func(&self) -> F {
        self.0
    }

    /// Wraps `func`.
    pub fn new(func: F) -> (r: QueryFn<F>)
        ensures
            r.func() == func,
    {
        QueryFn(func)
    }
}

} // verus!
