//! Pairs each point with a nearest other point. An element found as the nearest of an element
//! queried before it is not queried itself, which saves up to half of the nearest-neighbour
//! queries; the pair found for the earlier element stands for both.
use vstd::prelude::*;
use crate::geom::{Vec2, vec2, Rect};
use crate::bbox::BBox;
use crate::tree::DinoTree;
use crate::knearest::{Knearest, UnitMut, bot_dists, knear_ok, has_index, index_range, k_nearest_mut};

verus! {

/// Objects that are points.
pub trait IsPoint {
    /// The point.
    spec fn point(&self) -> Vec2<i64>;

    /// The coordinates of the point.
    fn get_center(&self) -> (c: [i64; 2])
        ensures
            c[0] == self.point().x,
            c[1] == self.point().y,
    ;
}

/// Element `j` is an element other than `i` nearest to the point of `i` by the metric `knear`, at
/// distance `d`.
pub open spec fn nearest_other<T: IsPoint, K: Knearest<Inner = T>>(knear: &K, bots: Seq<BBox<T>>, i: int, j: int, d: int) -> bool {
    &&& 0 <= i < bots.len()
    &&& 0 <= j < bots.len()
    &&& j != i
    &&& d == knear.bot_dist(bots[i].inner.point(), &bots[j])
    &&& forall|k: int| 0 <= k < bots.len() && k != i ==> d <= #[trigger] knear.bot_dist(bots[i].inner.point(), &bots[k])
}

/// Element `i` was queried: a triple of `out` starts with it.
pub open spec fn queried(out: Seq<(usize, usize, i64)>, i: int) -> bool {
    exists|a: int| 0 <= a < out.len() && (#[trigger] out[a]).0 == i
}

/// Element `i` was found as the nearest of an element queried before it.
pub open spec fn named_before(out: Seq<(usize, usize, i64)>, i: int) -> bool {
    exists|a: int| 0 <= a < out.len() && (#[trigger] out[a]).1 == i && out[a].0 < i
}

/// `v` holds `x`.
fn holds_index(v: &Vec<usize>, x: usize) -> (b: bool)
    ensures
        b == v@.contains(x),
{
    let mut k: usize = 0;
    while k < v.len()
        invariant
            0 <= k <= v@.len(),
            forall|a: int| 0 <= a < k ==> v@[a] != x,
        decreases v@.len() - k,
    {
        if v[k] == x {
            assert(v@[k as int] == x);
            return true;
        }
        k = k + 1;
    }
    false
}

/// The first entry of a nearest-two answer for the point of element `i` that is not `i` itself,
/// if any: it is an element other than `i` nearest to that point.
fn first_other<T: IsPoint, K: Knearest<Inner = T>>(r: &Vec<UnitMut>, knear: &K, Ghost(bots): Ghost<Seq<BBox<T>>>, i: usize) -> (a: usize)
    requires
        i < bots.len(),
        crate::knearest::nearest(r@, bot_dists(knear, bots, bots[i as int].inner.point()), 2),
    ensures
        a <= r@.len(),
        a < r@.len() ==> r@[a as int].index != i && nearest_other(knear, bots, i as int, r@[a as int].index as int, r@[a as int].mag as int),
        a == r@.len() ==> bots.len() < 2,
{
    let ghost p = bots[i as int].inner.point();
    let ghost ds = bot_dists(knear, bots, p);
    let mut a: usize = 0;
    while a < r.len() && r[a].index == i
        invariant
            0 <= a <= r@.len(),
            forall|b: int| 0 <= b < a ==> (#[trigger] r@[b]).index == i,
        decreases r@.len() - a,
    {
        a = a + 1;
    }
    proof {
        // entries are distinct, so at most one of them is `i`
        if a >= 2 {
            assert(r@[0].index == i && r@[1].index == i);
        }
        if a < r@.len() {
            let j = r@[a as int].index as int;
            assert forall|k: int| 0 <= k < bots.len() && k != i implies r@[a as int].mag <= #[trigger] knear.bot_dist(p, &bots[k]) by {
                assert(ds[k] == knear.bot_dist(p, &bots[k]));
                assert(index_range(0, bots.len() as int).contains(k));
                if has_index(r@, k) {
                    let b = choose|b: int| 0 <= b < r@.len() && (#[trigger] r@[b]).index == k;
                    if b < a {
                        assert(r@[b].index == i);
                    }
                    assert(r@[a as int].mag <= r@[b].mag);
                } else {
                    assert(r@[a as int].mag <= r@.last().mag);
                }
            }
        } else {
            if bots.len() >= 2 {
                let k: int = if i == 0 { 1 } else { 0 };
                assert(index_range(0, bots.len() as int).contains(k));
                if has_index(r@, k) {
                    let b = choose|b: int| 0 <= b < r@.len() && (#[trigger] r@[b]).index == k;
                    assert(r@[b].index == i);
                } else {
                    crate::knearest::lemma_mags(r@);
                    assert(r@.len() >= 2);
                    assert(r@[0].index == i && r@[1].index == i);
                }
            }
        }
    }
    a
}

/// For each element in turn, unless it was already found as the nearest of an element before it:
/// the element, an element other than it nearest to its point by the metric `knear`, and their
/// distance. `border` holds every element. An
/// element found as a nearest is not queried itself.
pub fn for_every_nearest_mut<T: IsPoint, K: Knearest<Inner = T>>(tree: &DinoTree<T>, knear: &K, border: Rect) -> (out: Vec<(usize, usize, i64)>)
    requires
        forall|i: int| 0 <= i < tree.elems().len() ==> knear_ok(knear, (#[trigger] tree.elems()[i]).inner.point(), border, tree.elems()),
    ensures
        forall|a: int| 0 <= a < out@.len() ==> nearest_other(knear, tree.elems(), (#[trigger] out@[a]).0 as int, out@[a].1 as int, out@[a].2 as int),
        forall|a: int, b: int| 0 <= a < b < out@.len() ==> (#[trigger] out@[a]).0 < (#[trigger] out@[b]).0,
        forall|i: int| 0 <= i < tree.elems().len() ==> (#[trigger] queried(out@, i) <==> (tree.elems().len() >= 2 && !named_before(out@, i))),
{
    let bots = tree.get_bots();
    let n = bots.len();
    let mut out: Vec<(usize, usize, i64)> = Vec::new();
    let mut hit: Vec<usize> = Vec::new();
    let mut i: usize = 0;
    while i < n
        invariant
            0 <= i <= n,
            n == bots@.len(),
            bots@ == tree.elems(),
            forall|k: int| 0 <= k < n ==> knear_ok(knear, (#[trigger] bots@[k]).inner.point(), border, bots@),
            hit@.len() == out@.len(),
            forall|a: int| 0 <= a < out@.len() ==> #[trigger] hit@[a] == out@[a].1,
            forall|a: int| 0 <= a < out@.len() ==> (#[trigger] out@[a]).0 < i,
            forall|a: int, b: int| 0 <= a < b < out@.len() ==> (#[trigger] out@[a]).0 < (#[trigger] out@[b]).0,
            forall|a: int| 0 <= a < out@.len() ==> nearest_other(knear, bots@, (#[trigger] out@[a]).0 as int, out@[a].1 as int, out@[a].2 as int),
            forall|k: int| 0 <= k < i ==> (#[trigger] queried(out@, k) <==> (n >= 2 && !named_before(out@, k))),
        decreases n - i,
    {
        let ghost out0 = out@;
        let seen = holds_index(&hit, i);
        proof {
            if seen {
                let a = choose|a: int| 0 <= a < hit@.len() && hit@[a] == i;
                assert(out0[a].1 == i && out0[a].0 < i);
                assert(named_before(out0, i as int));
            } else {
                assert forall|a: int| 0 <= a < out0.len() implies !((#[trigger] out0[a]).1 == i && out0[a].0 < i) by {
                    assert(hit@[a] == out0[a].1);
                }
            }
        }
        if !seen {
            let c = bots[i].inner.get_center();
            let p = vec2(c[0], c[1]);
            assert(knear_ok(knear, bots@[i as int].inner.point(), border, bots@));
            let r = k_nearest_mut(tree, p, 2, knear, border);
            let a = first_other(&r, knear, Ghost(bots@), i);
            if a < r.len() {
                let j = r[a].index;
                let d = r[a].mag;
                out.push((i, j, d));
                hit.push(j);
                proof {
                    assert(out@[out0.len() as int] == (i, j, d));
                    assert(queried(out@, i as int));
                }
            } else {
                proof {
                    assert forall|a: int| 0 <= a < out@.len() implies (#[trigger] out@[a]).0 != i by {}
                }
            }
        } else {
            proof {
                assert forall|a: int| 0 <= a < out@.len() implies (#[trigger] out@[a]).0 != i by {}
            }
        }
        proof {
            let o = out@;
            assert forall|k: int| 0 <= k < i + 1 implies (#[trigger] queried(o, k) <==> (n >= 2 && !named_before(o, k))) by {
                if k < i {
                    if queried(o, k) {
                        let a = choose|a: int| 0 <= a < o.len() && (#[trigger] o[a]).0 == k;
                        assert(a < out0.len());
                        assert(o[a] == out0[a]);
                        assert(queried(out0, k));
                    }
                    if named_before(o, k) {
                        let a = choose|a: int| 0 <= a < o.len() && (#[trigger] o[a]).1 == k && o[a].0 < k;
                        assert(a < out0.len());
                        assert(o[a] == out0[a]);
                        assert(named_before(out0, k));
                    }
                    if queried(out0, k) {
                        let a = choose|a: int| 0 <= a < out0.len() && (#[trigger] out0[a]).0 == k;
                        assert(o[a] == out0[a]);
                    }
                    if named_before(out0, k) {
                        let a = choose|a: int| 0 <= a < out0.len() && (#[trigger] out0[a]).1 == k && out0[a].0 < k;
                        assert(o[a] == out0[a]);
                    }
                } else {
                    if named_before(o, k) {
                        let a = choose|a: int| 0 <= a < o.len() && (#[trigger] o[a]).1 == k && o[a].0 < k;
                        assert(a < out0.len());
                        assert(o[a] == out0[a]);
                    }
                    if seen {
                        let a = choose|a: int| 0 <= a < out0.len() && (#[trigger] out0[a]).1 == k && out0[a].0 < k;
                        assert(o[a] == out0[a]);
                    }
                }
            }
        }
        i = i + 1;
    }
    out
}

} // verus!
