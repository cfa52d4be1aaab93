//! One dimensional building blocks: sweep and prune over lists sorted along an axis, and the
//! pruning of a sorted list to the part that can meet a range.
use vstd::prelude::*;
use crate::geom::{Axis, Range, Rect, ranges_meet};
use crate::bbox::{BBox, lo_of, hi_of, valid_rect, sorted_on};
use crate::pairs::{pair_found, extends, sound_from, lemma_found_extends, lemma_found_last, lemma_extends_trans, lemma_sound_extends, same_pair, no_dup_from, lemma_no_dup_push};
use crate::pmut::PMut;
use crate::perm::{perm_on, lemma_swap_perm, lemma_perm_trans, lemma_perm_refl};
use crate::ext::swap_elems;
use core::cmp::Ordering;

verus! {


/// Two rectangles share a point exactly when their ranges meet on an axis and on the other one.
pub proof fn lemma_meets_by_axis(a: Rect, b: Rect, axis: Axis)
    ensures
        a.meets(b) == (ranges_meet(a.range_of(axis), b.range_of(axis)) && ranges_meet(
            a.range_of(axis.other()),
            b.range_of(axis.other()),
        )),
{
}

/// Sweep and prune: finds the pairs of elements whose rectangles intersect.
pub struct Sweeper {
    helper: Vec<usize>,
}

impl Sweeper {
    /// The scratch space the sweeper keeps between sweeps.
    pub closed spec fn scratch(&self) -> Seq<usize> {
        self.helper@
    }

    /// Creates a sweeper, with no scratch space in use.
    pub fn new() -> (s: Sweeper)
        ensures
            s.scratch() == Seq::<usize>::empty(),
    {
        Sweeper { helper: Vec::new() }
    }

    /// Reports every pair of elements with index in `[lo, hi)` whose rectangles intersect.
    /// The elements must be sorted along `axis` by their start. Each pair `(i, j)` pushed has `j < i`.
    pub fn find_2d<T>(
        &mut self,
        axis: Axis,
        bots: &Vec<BBox<T>>,
        lo: usize,
        hi: usize,
        out: &mut Vec<(usize, usize)>,
    )
        requires
            lo <= hi <= bots@.len(),
            sorted_on(bots@, lo as int, hi as int, axis),
            forall|k: int| lo <= k < hi ==> #[trigger] valid_rect(bots@[k].rect),
        ensures
            extends(old(out)@, final(out)@),
            sound_from(final(out)@, bots@, old(out)@.len() as int),
            forall|k: int|
                old(out)@.len() <= k < final(out)@.len() ==> lo <= (#[trigger] final(out)@[k]).1
                    < final(out)@[k].0 < hi,
            forall|i: int, j: int|
                lo <= i < j < hi && bots@[i].rect.meets(bots@[j].rect) ==> pair_found(
                    final(out)@,
                    i,
                    j,
                ),
            no_dup_from(final(out)@, old(out)@.len() as int),
    {
        let ghost out0 = out@;
        let mut active: Vec<usize> = Vec::new();
        let mut i = lo;
        while i < hi
            invariant
                lo <= i <= hi <= bots@.len(),
                sorted_on(bots@, lo as int, hi as int, axis),
                forall|k: int| lo <= k < hi ==> #[trigger] valid_rect(bots@[k].rect),
                forall|a: int| 0 <= a < active@.len() ==> lo <= #[trigger] active@[a] < i,
                forall|a: int, b: int| 0 <= a < b < active@.len() ==> active@[a] < active@[b],
                no_dup_from(out@, out0.len() as int),
                forall|j: int, k: int|
                    lo <= j < i <= k < hi && hi_of(bots@[j], axis) >= #[trigger] lo_of(
                        bots@[k],
                        axis,
                    ) ==> #[trigger] active@.contains(j as usize),
                extends(out0, out@),
                sound_from(out@, bots@, out0.len() as int),
                forall|k: int|
                    out0.len() <= k < out@.len() ==> lo <= (#[trigger] out@[k]).1 < out@[k].0 < i,
                forall|j: int, k: int|
                    lo <= j < k < i && bots@[j].rect.meets(bots@[k].rect) ==> pair_found(
                        out@,
                        j,
                        k,
                    ),
            decreases hi - i,
        {
            let crr = bots[i].rect.get_range(axis);
            let mut kept: Vec<usize> = Vec::new();
            let mut a: usize = 0;
            while a < active.len()
                invariant
                    0 <= a <= active@.len(),
                    lo <= i < hi <= bots@.len(),
                    crr == bots@[i as int].rect.range_of(axis),
                    forall|b: int| 0 <= b < active@.len() ==> lo <= #[trigger] active@[b] < i,
                    forall|b: int, c: int| 0 <= b < c < active@.len() ==> active@[b] < active@[c],
                    forall|b: int, c: int| 0 <= b < c < kept@.len() ==> kept@[b] < kept@[c],
                    kept@.len() > 0 ==> exists|b: int| 0 <= b < a && active@[b] == kept@[kept@.len() - 1],
                    forall|b: int|
                        0 <= b < kept@.len() ==> lo <= #[trigger] kept@[b] < i && hi_of(
                            bots@[kept@[b] as int],
                            axis,
                        ) >= crr.start,
                    forall|b: int|
                        0 <= b < a && hi_of(bots@[active@[b] as int], axis) >= crr.start
                            ==> kept@.contains(#[trigger] active@[b]),
                decreases active@.len() - a,
            {
                let j = active[a];
                let ghost kept0 = kept@;
                if bots[j].rect.get_range(axis).end >= crr.start {
                    proof {
                        if kept0.len() > 0 {
                            let b = choose|b: int| 0 <= b < a && active@[b] == kept0[kept0.len() - 1];
                            assert(active@[b] < active@[a as int]);
                        }
                    }
                    kept.push(j);
                    assert(kept@[kept@.len() - 1] == j);
                }
                proof {
                    if kept@.len() > 0 {
                        if kept@.len() > kept0.len() {
                            assert(active@[a as int] == kept@[kept@.len() - 1]);
                        } else {
                            let b = choose|b: int| 0 <= b < a && active@[b] == kept0[kept0.len() - 1];
                            assert(active@[b] == kept@[kept@.len() - 1]);
                        }
                    }
                    assert forall|b: int|
                        0 <= b < a + 1 && hi_of(bots@[active@[b] as int], axis) >= crr.start
                            implies kept@.contains(#[trigger] active@[b]) by {
                        if b < a {
                            assert(kept0.contains(active@[b]));
                            let w = choose|w: int| 0 <= w < kept0.len() && kept0[w] == active@[b];
                            assert(kept@[w] == active@[b]);
                        } else {
                            assert(kept@[kept@.len() - 1] == active@[b]);
                        }
                    }
                }
                a = a + 1;
            }
            proof {
                assert forall|j: int|
                    lo <= j < i && hi_of(bots@[j], axis) >= lo_of(
                        bots@[i as int],
                        axis,
                    ) implies #[trigger] kept@.contains(j as usize) by {
                    assert(active@.contains(j as usize));
                    let b = choose|b: int| 0 <= b < active@.len() && active@[b] == j as usize;
                    assert(active@[b] == j as usize);
                }
            }
            active = kept;
            let ghost out1 = out@;
            let mut a: usize = 0;
            while a < active.len()
                invariant
                    0 <= a <= active@.len(),
                    lo <= i < hi <= bots@.len(),
                        sorted_on(bots@, lo as int, hi as int, axis),
                    valid_rect(bots@[i as int].rect),
                    forall|b: int|
                        0 <= b < active@.len() ==> lo <= #[trigger] active@[b] < i && hi_of(
                            bots@[active@[b] as int],
                            axis,
                        ) >= lo_of(bots@[i as int], axis),
                    forall|b: int, c: int| 0 <= b < c < active@.len() ==> active@[b] < active@[c],
                    out0.len() <= out1.len(),
                    forall|k: int| out0.len() <= k < out1.len() ==> (#[trigger] out1[k]).0 < i && out1[k].1 < i,
                    no_dup_from(out@, out0.len() as int),
                    forall|k: int| out1.len() <= k < out@.len() ==> exists|b: int| 0 <= b < a && (#[trigger] out@[k]).1 == active@[b],
                    extends(out1, out@),
                    sound_from(out@, bots@, out1.len() as int),
                    forall|k: int|
                        out1.len() <= k < out@.len() ==> lo <= (#[trigger] out@[k]).1 < out@[k].0
                            == i,
                    forall|b: int|
                        0 <= b < a && bots@[active@[b] as int].rect.meets(bots@[i as int].rect)
                            ==> pair_found(out@, #[trigger] active@[b] as int, i as int),
                decreases active@.len() - a,
            {
                let j = active[a];
                let ghost prev = out@;
                if bots[i].rect.intersects_rect(&bots[j].rect) {
                    proof {
                        lemma_meets_by_axis(bots@[i as int].rect, bots@[j as int].rect, axis);
                        assert(lo_of(bots@[j as int], axis) <= lo_of(bots@[i as int], axis));
                    }
                    out.push((i, j));
                    proof {
                        lemma_found_last(out@, i as int, j as int);
                    }
                }
                proof {
                    assert forall|b: int|
                        0 <= b < a + 1 && bots@[active@[b] as int].rect.meets(
                            bots@[i as int].rect,
                        ) implies pair_found(out@, #[trigger] active@[b] as int, i as int) by {
                        if b < a {
                            lemma_found_extends(prev, out@, active@[b] as int, i as int);
                        } else {
                            lemma_meets_by_axis(bots@[i as int].rect, bots@[j as int].rect, axis);
                        }
                    }
                }
                a = a + 1;
            }
            let ghost act = active@;
            active.push(i);
            proof {
                assert forall|a: int, b: int| 0 <= a < b < active@.len() implies active@[a] < active@[b] by {
                    if b < act.len() {
                        assert(active@[a] == act[a] && active@[b] == act[b]);
                    } else {
                        assert(active@[a] == act[a]);
                    }
                }
                lemma_extends_trans(out0, out1, out@);
                lemma_sound_extends(out1, out@, bots@, out0.len() as int);
                assert forall|j: int, k: int|
                    lo <= j < k < i + 1 && bots@[j].rect.meets(bots@[k].rect) implies pair_found(
                        out@,
                        j,
                        k,
                    ) by {
                    if k < i {
                        lemma_found_extends(out1, out@, j, k);
                    } else {
                        lemma_meets_by_axis(bots@[j].rect, bots@[k].rect, axis);
                        assert(act.contains(j as usize));
                        let b = choose|b: int| 0 <= b < act.len() && act[b] == j as usize;
                        assert(pair_found(out@, act[b] as int, i as int));
                    }
                }
                assert forall|j: int, k: int|
                    lo <= j < i + 1 <= k < hi && hi_of(bots@[j], axis) >= #[trigger] lo_of(
                        bots@[k],
                        axis,
                    ) implies #[trigger] active@.contains(j as usize) by {
                    if j == i {
                        assert(active@[active@.len() - 1] == i);
                    } else {
                        assert(lo_of(bots@[i as int], axis) <= lo_of(bots@[k], axis));
                        assert(act.contains(j as usize));
                        let b = choose|b: int| 0 <= b < act.len() && act[b] == j as usize;
                        assert(active@[b] == j as usize);
                    }
                }
            }
            i = i + 1;
        }
    }

    /// Reports every pair `(x, y)` with `x` in `[xlo, xhi)` and `y` in `[ylo, yhi)` whose rectangles
    /// overlap. Both lists must be sorted along `axis` by their start.
    pub fn find_parallel_2d<T>(
        &mut self,
        axis: Axis,
        bots: &Vec<BBox<T>>,
        xlo: usize,
        xhi: usize,
        ylo: usize,
        yhi: usize,
        out: &mut Vec<(usize, usize)>,
    )
        requires
            xlo <= xhi <= bots@.len(),
            ylo <= yhi <= bots@.len(),
            xhi <= ylo || yhi <= xlo,
            sorted_on(bots@, xlo as int, xhi as int, axis),
            sorted_on(bots@, ylo as int, yhi as int, axis),
        ensures
            extends(old(out)@, final(out)@),
            sound_from(final(out)@, bots@, old(out)@.len() as int),
            forall|k: int|
                old(out)@.len() <= k < final(out)@.len() ==> xlo <= (#[trigger] final(out)@[k]).0
                    < xhi && ylo <= final(out)@[k].1 < yhi,
            forall|x: int, y: int|
                xlo <= x < xhi && ylo <= y < yhi && bots@[x].rect.meets(bots@[y].rect)
                    ==> pair_found(final(out)@, x, y),
            no_dup_from(final(out)@, old(out)@.len() as int),
    {
        let ghost out0 = out@;
        let mut active: Vec<usize> = Vec::new();
        let mut xi = xlo;
        let mut yi = ylo;
        while yi < yhi
            invariant
                xlo <= xi <= xhi <= bots@.len(),
                ylo <= yi <= yhi <= bots@.len(),
                xhi <= ylo || yhi <= xlo,
                sorted_on(bots@, xlo as int, xhi as int, axis),
                sorted_on(bots@, ylo as int, yhi as int, axis),
                forall|a: int| 0 <= a < active@.len() ==> xlo <= #[trigger] active@[a] < xi,
                forall|a: int, b: int| 0 <= a < b < active@.len() ==> active@[a] < active@[b],
                forall|x: int, k: int|
                    xlo <= x < xi && yi <= k < yhi && hi_of(bots@[x], axis) >= #[trigger] lo_of(
                        bots@[k],
                        axis,
                    ) ==> #[trigger] active@.contains(x as usize),
                yi > ylo ==> forall|x: int|
                    xi <= x < xhi ==> lo_of(#[trigger] bots@[x], axis) > hi_of(
                        bots@[yi - 1],
                        axis,
                    ),
                extends(out0, out@),
                sound_from(out@, bots@, out0.len() as int),
                no_dup_from(out@, out0.len() as int),
                forall|k: int|
                    out0.len() <= k < out@.len() ==> xlo <= (#[trigger] out@[k]).0 < xhi && ylo
                        <= out@[k].1 < yi,
                forall|x: int, y: int|
                    xlo <= x < xhi && ylo <= y < yi && bots@[x].rect.meets(bots@[y].rect)
                        ==> pair_found(out@, x, y),
            decreases yhi - yi,
        {
            let yr = bots[yi].rect.get_range(axis);
            let ghost act0 = active@;
            let ghost xi0 = xi;
            // add every x that starts before y ends
            while xi < xhi && bots[xi].rect.get_range(axis).start <= yr.end
                invariant
                    xi0 <= xi <= xhi <= bots@.len(),
                    xlo <= xi0,
                    ylo <= yi < yhi <= bots@.len(),
                    yr == bots@[yi as int].rect.range_of(axis),
                    sorted_on(bots@, xlo as int, xhi as int, axis),
                    active@.len() == act0.len() + (xi - xi0),
                    forall|a: int| 0 <= a < act0.len() ==> active@[a] == act0[a],
                    forall|a: int| act0.len() <= a < active@.len() ==> active@[a] == xi0 + (a - act0.len()),
                    forall|x: int| xi0 <= x < xi ==> lo_of(#[trigger] bots@[x], axis) <= yr.end,
                decreases xhi - xi,
            {
                active.push(xi);
                xi = xi + 1;
            }
            proof {
                // every x from xi on starts after y ends
                assert forall|x: int| xi <= x < xhi implies lo_of(#[trigger] bots@[x], axis) > yr.end by {
                    assert(lo_of(bots@[xi as int], axis) <= lo_of(bots@[x], axis));
                }
                assert forall|a: int| 0 <= a < active@.len() implies xlo <= #[trigger] active@[a] < xi by {
                    if a < act0.len() {
                        assert(active@[a] == act0[a]);
                    }
                }
                assert forall|a: int, b: int| 0 <= a < b < active@.len() implies active@[a] < active@[b] by {
                    if b < act0.len() {
                        assert(active@[a] == act0[a] && active@[b] == act0[b]);
                    } else if a < act0.len() {
                        assert(active@[a] == act0[a]);
                    }
                }
                assert forall|x: int, k: int|
                    xlo <= x < xi && yi <= k < yhi && hi_of(bots@[x], axis) >= #[trigger] lo_of(
                        bots@[k],
                        axis,
                    ) implies #[trigger] active@.contains(x as usize) by {
                    if x < xi0 {
                        assert(act0.contains(x as usize));
                        let b = choose|b: int| 0 <= b < act0.len() && act0[b] == x as usize;
                        assert(active@[b] == x as usize);
                    } else {
                        assert(active@[act0.len() + (x - xi0)] == x as usize);
                    }
                }
            }
            // prune the x that end before y starts
            let ghost act1 = active@;
            let mut kept: Vec<usize> = Vec::new();
            let mut a: usize = 0;
            while a < active.len()
                invariant
                    0 <= a <= active@.len(),
                    active@ == act1,
                    xlo <= xi <= xhi <= bots@.len(),
                    ylo <= yi < yhi <= bots@.len(),
                    yr == bots@[yi as int].rect.range_of(axis),
                    forall|b: int| 0 <= b < active@.len() ==> xlo <= #[trigger] active@[b] < xi,
                    forall|b: int, c: int| 0 <= b < c < active@.len() ==> active@[b] < active@[c],
                    forall|b: int|
                        0 <= b < kept@.len() ==> xlo <= #[trigger] kept@[b] < xi && hi_of(
                            bots@[kept@[b] as int],
                            axis,
                        ) >= yr.start,
                    forall|b: int, c: int| 0 <= b < c < kept@.len() ==> kept@[b] < kept@[c],
                    kept@.len() > 0 ==> exists|b: int| 0 <= b < a && active@[b] == kept@[kept@.len() - 1],
                    forall|b: int|
                        0 <= b < a && hi_of(bots@[active@[b] as int], axis) >= yr.start
                            ==> kept@.contains(#[trigger] active@[b]),
                decreases active@.len() - a,
            {
                let j = active[a];
                let ghost kept0 = kept@;
                if bots[j].rect.get_range(axis).end >= yr.start {
                    proof {
                        if kept0.len() > 0 {
                            let b = choose|b: int| 0 <= b < a && active@[b] == kept0[kept0.len() - 1];
                            assert(active@[b] < active@[a as int]);
                        }
                    }
                    kept.push(j);
                    assert(kept@[kept@.len() - 1] == j);
                }
                proof {
                    assert forall|b: int|
                        0 <= b < a + 1 && hi_of(bots@[active@[b] as int], axis) >= yr.start
                            implies kept@.contains(#[trigger] active@[b]) by {
                        if b < a {
                            assert(kept0.contains(active@[b]));
                            let w = choose|w: int| 0 <= w < kept0.len() && kept0[w] == active@[b];
                            assert(kept@[w] == active@[b]);
                        } else {
                            assert(kept@[kept@.len() - 1] == active@[b]);
                        }
                    }
                    if kept@.len() > 0 {
                        if kept@.len() > kept0.len() {
                            assert(active@[a as int] == kept@[kept@.len() - 1]);
                        } else {
                            let b = choose|b: int| 0 <= b < a && active@[b] == kept0[kept0.len() - 1];
                            assert(active@[b] == kept@[kept@.len() - 1]);
                        }
                    }
                }
                a = a + 1;
            }
            proof {
                assert forall|x: int, k: int|
                    xlo <= x < xi && yi + 1 <= k < yhi && hi_of(bots@[x], axis) >= #[trigger] lo_of(
                        bots@[k],
                        axis,
                    ) implies #[trigger] kept@.contains(x as usize) by {
                    assert(lo_of(bots@[yi as int], axis) <= lo_of(bots@[k], axis));
                    assert(lo_of(bots@[yi as int], axis) == yr.start);
                    assert(act1.contains(x as usize));
                    let b = choose|b: int| 0 <= b < act1.len() && act1[b] == x as usize;
                    assert(act1[b] == x as usize);
                }
                assert forall|x: int|
                    xlo <= x < xi && hi_of(bots@[x], axis) >= yr.start implies #[trigger] kept@.contains(x as usize) by {
                    assert(lo_of(bots@[yi as int], axis) == yr.start);
                    assert(act1.contains(x as usize));
                    let b = choose|b: int| 0 <= b < act1.len() && act1[b] == x as usize;
                    assert(act1[b] == x as usize);
                }
            }
            active = kept;
            // report the active x that meet y
            let ghost out1 = out@;
            let mut a: usize = 0;
            while a < active.len()
                invariant
                    0 <= a <= active@.len(),
                    xlo <= xi <= xhi <= bots@.len(),
                    ylo <= yi < yhi <= bots@.len(),
                    xhi <= ylo || yhi <= xlo,
                        yr == bots@[yi as int].rect.range_of(axis),
                    sorted_on(bots@, xlo as int, xhi as int, axis),
                    forall|b: int|
                        0 <= b < active@.len() ==> xlo <= #[trigger] active@[b] < xi && hi_of(
                            bots@[active@[b] as int],
                            axis,
                        ) >= yr.start,
                    forall|b: int, c: int| 0 <= b < c < active@.len() ==> active@[b] < active@[c],
                    extends(out1, out@),
                    sound_from(out@, bots@, out1.len() as int),
                    forall|k: int|
                        out1.len() <= k < out@.len() ==> xlo <= (#[trigger] out@[k]).0 < xhi
                            && out@[k].1 == yi,
                    forall|b: int|
                        0 <= b < a && bots@[active@[b] as int].rect.meets(bots@[yi as int].rect)
                            ==> pair_found(out@, #[trigger] active@[b] as int, yi as int),
                    out0.len() <= out1.len(),
                    forall|k: int| out0.len() <= k < out1.len() ==> xlo <= (#[trigger] out1[k]).0 < xhi && ylo <= out1[k].1 < yi,
                    no_dup_from(out@, out0.len() as int),
                    forall|k: int| out1.len() <= k < out@.len() ==> exists|b: int| 0 <= b < a && (#[trigger] out@[k]).0 == active@[b],
                ensures
                    no_dup_from(out@, out0.len() as int),
                    extends(out1, out@),
                    sound_from(out@, bots@, out1.len() as int),
                    forall|k: int|
                        out1.len() <= k < out@.len() ==> xlo <= (#[trigger] out@[k]).0 < xhi
                            && out@[k].1 == yi,
                    forall|b: int|
                        0 <= b < active@.len() && bots@[active@[b] as int].rect.meets(bots@[yi as int].rect)
                            ==> pair_found(out@, #[trigger] active@[b] as int, yi as int),
                decreases active@.len() - a,
            {
                let x = active[a];
                let xr = bots[x].rect.get_range(axis);
                if xr.start > yr.end {
                    proof {
                        assert forall|b: int|
                            0 <= b < active@.len() && bots@[active@[b] as int].rect.meets(
                                bots@[yi as int].rect,
                            ) implies pair_found(out@, #[trigger] active@[b] as int, yi as int) by {
                            if b >= a {
                                if b > a {
                                    assert(active@[a as int] < active@[b]);
                                    assert(lo_of(bots@[active@[a as int] as int], axis) <= lo_of(
                                        bots@[active@[b] as int],
                                        axis,
                                    ));
                                }
                                lemma_meets_by_axis(
                                    bots@[active@[b] as int].rect,
                                    bots@[yi as int].rect,
                                    axis,
                                );
                            }
                        }
                    }
                    break;
                }
                let ghost prev = out@;
                if bots[x].rect.intersects_rect(&bots[yi].rect) {
                    proof {
                        lemma_meets_by_axis(bots@[x as int].rect, bots@[yi as int].rect, axis);
                    }
                    proof {
                        assert forall|k: int| out0.len() <= k < prev.len() implies !same_pair(#[trigger] prev[k], (x, yi)) by {
                            if k < out1.len() {
                                assert(prev[k] == out1[k]);
                            } else {
                                let b = choose|b: int| 0 <= b < a && (#[trigger] prev[k]).0 == active@[b];
                                assert(active@[b] < active@[a as int]);
                            }
                        }
                        lemma_no_dup_push(prev, (x, yi), out0.len() as int);
                    }
                    out.push((x, yi));
                    proof {
                        lemma_found_last(out@, x as int, yi as int);
                    }
                }
                proof {
                    assert forall|k: int| out1.len() <= k < out@.len() implies exists|b: int| 0 <= b < a + 1 && (#[trigger] out@[k]).0 == active@[b] by {
                        if k < prev.len() {
                            assert(out@[k] == prev[k]);
                            let b = choose|b: int| 0 <= b < a && (#[trigger] prev[k]).0 == active@[b];
                            assert(out@[k].0 == active@[b]);
                        } else {
                            assert(out@[k].0 == active@[a as int]);
                        }
                    }
                    assert forall|b: int|
                        0 <= b < a + 1 && bots@[active@[b] as int].rect.meets(
                            bots@[yi as int].rect,
                        ) implies pair_found(out@, #[trigger] active@[b] as int, yi as int) by {
                        if b < a {
                            lemma_found_extends(prev, out@, active@[b] as int, yi as int);
                        } else {
                            lemma_meets_by_axis(bots@[x as int].rect, bots@[yi as int].rect, axis);
                        }
                    }
                }
                a = a + 1;
            }
            proof {
                lemma_extends_trans(out0, out1, out@);
                lemma_sound_extends(out1, out@, bots@, out0.len() as int);
                assert forall|x: int, y: int|
                    xlo <= x < xhi && ylo <= y < yi + 1 && bots@[x].rect.meets(bots@[y].rect)
                        implies pair_found(out@, x, y) by {
                    if y < yi {
                        lemma_found_extends(out1, out@, x, y);
                    } else {
                        lemma_meets_by_axis(bots@[x].rect, bots@[y].rect, axis);
                        assert(x < xi);
                        assert(active@.contains(x as usize));
                        let b = choose|b: int| 0 <= b < active@.len() && active@[b] == x as usize;
                        assert(pair_found(out@, active@[b] as int, yi as int));
                    }
                }
            }
            yi = yi + 1;
        }
    }

    /// Reports every pair `(a, b)` with `a` in `[lo1, hi1)` and `b` in `[lo2, hi2)` whose
    /// rectangles intersect, by checking every such pair.
    pub fn find_perp_2d<T>(
        &mut self,
        bots: &Vec<BBox<T>>,
        lo1: usize,
        hi1: usize,
        lo2: usize,
        hi2: usize,
        out: &mut Vec<(usize, usize)>,
    )
        requires
            lo1 <= hi1 <= bots@.len(),
            lo2 <= hi2 <= bots@.len(),
            hi1 <= lo2 || hi2 <= lo1,
        ensures
            extends(old(out)@, final(out)@),
            sound_from(final(out)@, bots@, old(out)@.len() as int),
            forall|k: int|
                old(out)@.len() <= k < final(out)@.len() ==> lo1 <= (#[trigger] final(out)@[k]).0
                    < hi1 && lo2 <= final(out)@[k].1 < hi2,
            forall|x: int, y: int|
                lo1 <= x < hi1 && lo2 <= y < hi2 && bots@[x].rect.meets(bots@[y].rect)
                    ==> pair_found(final(out)@, x, y),
            no_dup_from(final(out)@, old(out)@.len() as int),
    {
        let ghost out0 = out@;
        let mut a = lo1;
        while a < hi1
            invariant
                lo1 <= a <= hi1 <= bots@.len(),
                lo2 <= hi2 <= bots@.len(),
                hi1 <= lo2 || hi2 <= lo1,
                extends(out0, out@),
                sound_from(out@, bots@, out0.len() as int),
                no_dup_from(out@, out0.len() as int),
                forall|k: int|
                    out0.len() <= k < out@.len() ==> lo1 <= (#[trigger] out@[k]).0 < a && lo2
                        <= out@[k].1 < hi2,
                forall|x: int, y: int|
                    lo1 <= x < a && lo2 <= y < hi2 && bots@[x].rect.meets(bots@[y].rect)
                        ==> pair_found(out@, x, y),
            decreases hi1 - a,
        {
            let ghost outa = out@;
            let mut b = lo2;
            while b < hi2
                invariant
                    lo1 <= a < hi1 <= bots@.len(),
                    lo2 <= b <= hi2 <= bots@.len(),
                    hi1 <= lo2 || hi2 <= lo1,
                    extends(outa, out@),
                    sound_from(out@, bots@, outa.len() as int),
                    out0.len() <= outa.len(),
                    forall|k: int| out0.len() <= k < outa.len() ==> lo1 <= (#[trigger] outa[k]).0 < a && lo2 <= outa[k].1 < hi2,
                    no_dup_from(out@, out0.len() as int),
                    forall|k: int|
                        outa.len() <= k < out@.len() ==> (#[trigger] out@[k]).0 == a && lo2
                            <= out@[k].1 < b,
                    forall|y: int|
                        lo2 <= y < b && bots@[a as int].rect.meets(bots@[y].rect) ==> pair_found(
                            out@,
                            a as int,
                            y,
                        ),
                decreases hi2 - b,
            {
                let ghost prev = out@;
                if bots[a].rect.intersects_rect(&bots[b].rect) {
                    proof {
                        assert forall|k: int| out0.len() <= k < prev.len() implies !same_pair(#[trigger] prev[k], (a, b)) by {
                            if k < outa.len() {
                                assert(prev[k] == outa[k]);
                            }
                        }
                        lemma_no_dup_push(prev, (a, b), out0.len() as int);
                    }
                    out.push((a, b));
                    proof {
                        lemma_found_last(out@, a as int, b as int);
                    }
                }
                proof {
                    assert forall|y: int|
                        lo2 <= y < b + 1 && bots@[a as int].rect.meets(bots@[y].rect)
                            implies pair_found(out@, a as int, y) by {
                        if y < b {
                            lemma_found_extends(prev, out@, a as int, y);
                        }
                    }
                }
                b = b + 1;
            }
            proof {
                lemma_extends_trans(out0, outa, out@);
                lemma_sound_extends(outa, out@, bots@, out0.len() as int);
                assert forall|x: int, y: int|
                    lo1 <= x < a + 1 && lo2 <= y < hi2 && bots@[x].rect.meets(bots@[y].rect)
                        implies pair_found(out@, x, y) by {
                    if x < a {
                        lemma_found_extends(outa, out@, x, y);
                    }
                }
            }
            a = a + 1;
        }
    }
}

/// `[a, b)` is the section of the list `s` for `range` on `axis`: `a` is the first element
/// that does not end before the range (the first element when all do), and `b` the first element
/// from `a` on that starts after the range (the end when none does). When `s` is sorted by start,
/// every element outside the section lies entirely before or after the range; the section may
/// hold elements that do not meet it.
pub open spec fn section_ok<T>(s: Seq<BBox<T>>, axis: Axis, range: Range, a: int, b: int) -> bool {
    &&& 0 <= a <= b <= s.len()
    &&& s.len() > 0 ==> a < s.len()
    &&& forall|k: int| 0 <= k < a ==> hi_of(#[trigger] s[k], axis) < range.start
    &&& a < s.len() ==> (hi_of(s[a], axis) >= range.start || (a == 0 && forall|k: int|
        0 <= k < s.len() ==> hi_of(#[trigger] s[k], axis) < range.start))
    &&& forall|k: int| a <= k < b ==> lo_of(#[trigger] s[k], axis) <= range.end
    &&& b < s.len() ==> lo_of(s[b], axis) > range.end
}

/// The section of the slice for `range` on `axis`.
fn section_of_slice<T>(axis: Axis, sl: &[BBox<T>], range: &Range) -> (r: (usize, usize))
    ensures
        section_ok(sl@, axis, *range, r.0 as int, r.1 as int),
        sorted_on(sl@, 0, sl@.len() as int, axis) ==> forall|k: int|
            0 <= k < sl@.len() && ranges_meet(#[trigger] sl@[k].rect.range_of(axis), *range) ==> r.0
                <= k < r.1,
{
    let n = sl.len();
    let mut start: usize = 0;
    let mut e: usize = 0;
    while e < n
        invariant_except_break
            start == 0,
            forall|k: int| 0 <= k < e ==> hi_of(#[trigger] sl@[k], axis) < range.start,
        invariant
            0 <= e <= n == sl@.len(),
            start <= e,
            forall|k: int| 0 <= k < start ==> hi_of(#[trigger] sl@[k], axis) < range.start,
        ensures
            n > 0 ==> start < n,
            forall|k: int| 0 <= k < start ==> hi_of(#[trigger] sl@[k], axis) < range.start,
            start < n ==> (hi_of(sl@[start as int], axis) >= range.start || (start == 0 && forall|k: int|
                0 <= k < n ==> hi_of(#[trigger] sl@[k], axis) < range.start)),
        decreases n - e,
    {
        if sl[e].rect.get_range(axis).end >= range.start {
            start = e;
            break;
        }
        e = e + 1;
    }
    let mut end = n;
    let mut f = start;
    while f < n
        invariant_except_break
            end == n,
        invariant
            0 <= start <= f <= n == sl@.len(),
            forall|k: int| start <= k < f ==> lo_of(#[trigger] sl@[k], axis) <= range.end,
        ensures
            start <= end <= n,
            forall|k: int| start <= k < end ==> lo_of(#[trigger] sl@[k], axis) <= range.end,
            end < n ==> lo_of(sl@[end as int], axis) > range.end,
            sorted_on(sl@, 0, sl@.len() as int, axis) ==> forall|k: int| end <= k < n ==> lo_of(
                #[trigger] sl@[k],
                axis,
            ) > range.end,
        decreases n - f,
    {
        if sl[f].rect.get_range(axis).start > range.end {
            end = f;
            proof {
                if sorted_on(sl@, 0, sl@.len() as int, axis) {
                    assert forall|k: int| end <= k < n implies lo_of(#[trigger] sl@[k], axis) > range.end by {
                        assert(lo_of(sl@[f as int], axis) <= lo_of(sl@[k], axis));
                    }
                }
            }
            break;
        }
        f = f + 1;
    }
    (start, end)
}

/// The bounds `(s, e)` of the part of the elements `[lo, hi)` that can meet `range` on `axis`:
/// every element outside `[s, e)` lies entirely before or after the range. The elements must be
/// sorted along `axis` by their start. The part may hold elements that do not meet the range.
pub fn section_bounds<T>(axis: Axis, bots: &Vec<BBox<T>>, lo: usize, hi: usize, range: &Range) -> (r: (usize, usize))
    requires
        lo <= hi <= bots@.len(),
        sorted_on(bots@, lo as int, hi as int, axis),
    ensures
        lo <= r.0 <= r.1 <= hi,
        forall|k: int|
            lo <= k < hi && ranges_meet(#[trigger] bots@[k].rect.range_of(axis), *range) ==> r.0
                <= k < r.1,
{
    let sl = slice_range(bots.as_slice(), lo, hi);
    assert(sorted_on(sl@, 0, sl@.len() as int, axis)) by {
        assert forall|i: int, j: int| 0 <= i <= j < sl@.len() implies #[trigger] lo_of(sl@[i], axis) <= #[trigger] lo_of(sl@[j], axis) by {
            assert(sl@[i] == bots@[lo + i] && sl@[j] == bots@[lo + j]);
        }
    }
    let (s, e) = section_of_slice(axis, sl, range);
    proof {
        assert forall|k: int|
            lo <= k < hi && ranges_meet(#[trigger] bots@[k].rect.range_of(axis), *range) implies lo + s
                <= k < lo + e by {
            assert(sl@[k - lo] == bots@[k]);
        }
    }
    (lo + s, lo + e)
}

/// The section of `arr` for `range` on `axis` (see `section_ok`). When `arr` is sorted along
/// `axis` by start, every element left out lies entirely before or after the range.
pub fn get_section<'a, T>(axis: Axis, arr: &'a [BBox<T>], range: &Range) -> (r: &'a [BBox<T>])
    ensures
        exists|s: int, e: int|
            section_ok(arr@, axis, *range, s, e) && r@ == arr@.subrange(s, e) && (sorted_on(
                arr@,
                0,
                arr@.len() as int,
                axis,
            ) ==> forall|k: int|
                0 <= k < arr@.len() && ranges_meet(#[trigger] arr@[k].rect.range_of(axis), *range)
                    ==> s <= k < e),
{
    let (start, end) = section_of_slice(axis, arr, range);
    let r = slice_range(arr, start, end);
    assert(r@ == arr@.subrange(start as int, end as int));
    r
}

/// The protected section of `arr` for `range` on `axis` (see `section_ok`). When `arr` is sorted
/// along `axis` by start, every element left out lies entirely before or after the range.
pub fn get_section_mut<'a, T>(axis: Axis, arr: PMut<'a, [BBox<T>]>, range: &Range) -> (r: PMut<'a, [BBox<T>]>)
    ensures
        exists|s: int, e: int|
            section_ok(arr.elems(), axis, *range, s, e) && r.elems() == arr.elems().subrange(s, e) && (
            sorted_on(arr.elems(), 0, arr.elems().len() as int, axis) ==> forall|k: int|
                0 <= k < arr.elems().len() && ranges_meet(#[trigger] arr.elems()[k].rect.range_of(axis), *range)
                    ==> s <= k < e),
{
    let (start, end) = section_of_slice(axis, arr.as_ref(), range);
    let r = arr.truncate(start, end);
    assert(r.elems() == arr.elems().subrange(start as int, end as int));
    r
}

/// The elements of indices `start..end` of a slice.
fn slice_range<'a, T>(arr: &'a [T], start: usize, end: usize) -> (r: &'a [T])
    requires
        start <= end <= arr@.len(),
    ensures
        r@ == arr@.subrange(start as int, end as int),
{
    let (a, _b) = arr.split_at(end);
    let (_c, d) = a.split_at(start);
    d
}

/// Compares two elements by the start of their ranges on `axis`.
pub fn compare_bots<T>(axis: Axis, a: &BBox<T>, b: &BBox<T>) -> (o: Ordering)
    ensures
        (o == Ordering::Less) == (lo_of(*a, axis) < lo_of(*b, axis)),
        (o == Ordering::Equal) == (lo_of(*a, axis) == lo_of(*b, axis)),
        (o == Ordering::Greater) == (lo_of(*a, axis) > lo_of(*b, axis)),
{
    let p1 = a.rect.get_range(axis).start;
    let p2 = b.rect.get_range(axis).start;
    if p1 < p2 {
        Ordering::Less
    } else if p1 > p2 {
        Ordering::Greater
    } else {
        Ordering::Equal
    }
}

/// Partitions the elements `[lo, hi)` around the divider `med` on `axis` into three bins laid out
/// one after the other: the elements whose range holds the divider, then those that end before it,
/// then those that start after it. Returns the ends `(m, l)` of the first two bins.
pub fn bin_middle_left_right<T>(axis: Axis, med: i64, bots: &mut Vec<BBox<T>>, lo: usize, hi: usize) -> (r: (usize, usize))
    requires
        lo <= hi <= old(bots)@.len(),
    ensures
        lo <= r.0 <= r.1 <= hi,
        perm_on(old(bots)@, final(bots)@, lo as int, hi as int),
        forall|k: int| lo <= k < r.0 ==> lo_of(#[trigger] final(bots)@[k], axis) <= med && med <= hi_of(final(bots)@[k], axis),
        forall|k: int| r.0 <= k < r.1 ==> lo_of(#[trigger] final(bots)@[k], axis) <= med && hi_of(final(bots)@[k], axis) < med,
        forall|k: int| r.1 <= k < hi ==> lo_of(#[trigger] final(bots)@[k], axis) > med,
{
    let ghost orig = bots@;
    let mut a = lo;
    let mut b = lo;
    let mut c = hi;
    proof {
        lemma_perm_refl(orig, lo as int, hi as int);
    }
    while b < c
        invariant
            lo <= a <= b <= c <= hi <= bots@.len(),
            perm_on(orig, bots@, lo as int, hi as int),
            forall|k: int| lo <= k < a ==> lo_of(#[trigger] bots@[k], axis) <= med && med <= hi_of(bots@[k], axis),
            forall|k: int| a <= k < b ==> lo_of(#[trigger] bots@[k], axis) <= med && hi_of(bots@[k], axis) < med,
            forall|k: int| c <= k < hi ==> lo_of(#[trigger] bots@[k], axis) > med,
        decreases c - b,
    {
        let ghost before = bots@;
        let rr = bots[b].rect.get_range(axis);
        if med < rr.start {
            c = c - 1;
            swap_elems(bots, b, c);
            proof {
                lemma_swap_perm(before, b as int, c as int, lo as int, hi as int);
                lemma_perm_trans(orig, before, bots@, lo as int, hi as int);
                assert(bots@[c as int] == before[b as int]);
                assert forall|k: int| c <= k < hi implies lo_of(#[trigger] bots@[k], axis) > med by {
                    if k > c {
                        assert(bots@[k] == before[k]);
                    }
                }
                assert forall|k: int| lo <= k < a implies lo_of(#[trigger] bots@[k], axis) <= med && med <= hi_of(bots@[k], axis) by {
                    assert(bots@[k] == before[k]);
                }
                assert forall|k: int| a <= k < b implies lo_of(#[trigger] bots@[k], axis) <= med && hi_of(bots@[k], axis) < med by {
                    assert(bots@[k] == before[k]);
                }
            }
        } else if med > rr.end {
            b = b + 1;
        } else {
            swap_elems(bots, a, b);
            proof {
                lemma_swap_perm(before, a as int, b as int, lo as int, hi as int);
                lemma_perm_trans(orig, before, bots@, lo as int, hi as int);
                assert(bots@[a as int] == before[b as int]);
                assert forall|k: int| lo <= k < a + 1 implies lo_of(#[trigger] bots@[k], axis) <= med && med <= hi_of(bots@[k], axis) by {
                    if k < a {
                        assert(bots@[k] == before[k]);
                    }
                }
                assert forall|k: int| a + 1 <= k < b + 1 implies lo_of(#[trigger] bots@[k], axis) <= med && hi_of(bots@[k], axis) < med by {
                    if k < b {
                        assert(bots@[k] == before[k]);
                    } else {
                        assert(bots@[k] == before[a as int]);
                    }
                }
                assert forall|k: int| c <= k < hi implies lo_of(#[trigger] bots@[k], axis) > med by {
                    assert(bots@[k] == before[k]);
                }
            }
            a = a + 1;
            b = b + 1;
        }
    }
    (a, b)
}

/// The smallest start and the largest end on `axis` of the elements `[lo, hi)`, `None` when
/// there is no element.
pub fn create_cont<T>(axis: Axis, bots: &Vec<BBox<T>>, lo: usize, hi: usize) -> (r: Option<Range>)
    requires
        lo <= hi <= bots@.len(),
    ensures
        r is None <==> lo == hi,
        r matches Some(c) ==> (forall|k: int| lo <= k < hi ==> c.start <= lo_of(#[trigger] bots@[k], axis) && hi_of(bots@[k], axis) <= c.end)
            && (exists|k: int| lo <= k < hi && lo_of(#[trigger] bots@[k], axis) == c.start)
            && (exists|k: int| lo <= k < hi && hi_of(#[trigger] bots@[k], axis) == c.end),
{
    if lo == hi {
        return None;
    }
    let first = bots[lo].rect.get_range(axis);
    let mut min = first.start;
    let mut max = first.end;
    let ghost mut wmin: int = lo as int;
    let ghost mut wmax: int = lo as int;
    let mut i = lo + 1;
    while i < hi
        invariant
            lo < i <= hi <= bots@.len(),
            lo <= wmin < i,
            lo <= wmax < i,
            lo_of(bots@[wmin], axis) == min,
            hi_of(bots@[wmax], axis) == max,
            forall|k: int| lo <= k < i ==> min <= lo_of(#[trigger] bots@[k], axis) && hi_of(bots@[k], axis) <= max,
        decreases hi - i,
    {
        let rr = bots[i].rect.get_range(axis);
        if rr.start < min {
            min = rr.start;
            proof { wmin = i as int; }
        }
        if rr.end > max {
            max = rr.end;
            proof { wmax = i as int; }
        }
        i = i + 1;
    }
    Some(Range { start: min, end: max })
}

} // verus!
