//! The k nearest elements to a point, by a distance that the caller supplies. The answer counts
//! distances, not elements: it holds every element at one of the k smallest distinct distances,
//! so ties are all kept. The closest come first.
use vstd::prelude::*;
use vstd::arithmetic::power2::{lemma_pow2_unfold, lemma_pow2_pos};
use crate::geom::{Axis, Vec2, Rect, Range, make_rect_from_range};
use crate::bbox::{BBox, lo_of, hi_of};
use crate::tree::{Node, DinoTree, wf_sub, lemma_wf_basic};
use crate::colfind::half_span;

verus! {

/// The distances a query goes by, which the user provides: from a point to a rectangle, and from
/// a point to an element. The distance to a rectangle is the cheap one that prunes the search.
pub trait Knearest {
    /// The data of the elements.
    type Inner;

    /// The distance from `p` to the rectangle `r`.
    spec fn rect_dist(&self, p: Vec2<i64>, r: Rect) -> i64;

    /// The distance from `p` to the element `b`.
    spec fn bot_dist(&self, p: Vec2<i64>, b: &BBox<Self::Inner>) -> i64;

    /// Computes the distance from `p` to the rectangle `r`.
    fn distance_to_rect(&self, p: Vec2<i64>, r: &Rect) -> (d: i64)
        ensures
            d == self.rect_dist(p, *r),
    ;

    /// Computes the distance from `p` to the element `b`.
    fn distance_to_bot(&self, p: Vec2<i64>, b: &BBox<Self::Inner>) -> (d: i64)
        ensures
            d == self.bot_dist(p, b),
    ;
}

/// An element found near the point: its index and its distance to the point.
#[derive(Clone, Copy, Debug, PartialEq, Eq, Structural)]
pub struct UnitMut {
    pub index: usize,
    pub mag: i64,
}

/// An element found near the point, by reference, with its index and distance.
pub struct Unit<'a, T> {
    pub bot: &'a BBox<T>,
    pub index: usize,
    pub mag: i64,
}

/// The distances from `p` to each of the elements, by the metric `knear`.
pub open spec fn bot_dists<K: Knearest>(knear: &K, bots: Seq<BBox<K::Inner>>, p: Vec2<i64>) -> Seq<i64> {
    Seq::new(bots.len(), |k: int| knear.bot_dist(p, &bots[k]))
}

/// The metric can prune a search from `p` over the elements inside `border`: every element lies
/// inside `border`, and no element is nearer to `p` than a rectangle that holds it.
pub open spec fn knear_ok<K: Knearest>(knear: &K, p: Vec2<i64>, border: Rect, bots: Seq<BBox<K::Inner>>) -> bool {
    &&& forall|k: int| 0 <= k < bots.len() ==> border.holds(#[trigger] bots[k].rect)
    &&& forall|r: Rect, k: int|
        0 <= k < bots.len() && #[trigger] r.holds(bots[k].rect) ==> knear.rect_dist(p, r) <= #[trigger] knear.bot_dist(
            p,
            &bots[k],
        )
}

/// Element `k` is listed in `r`.
pub open spec fn has_index(r: Seq<UnitMut>, k: int) -> bool {
    exists|a: int| 0 <= a < r.len() && (#[trigger] r[a]).index == k
}

/// The distinct distances of the entries of `r`.
pub open spec fn mags(r: Seq<UnitMut>) -> Set<i64> {
    r.map_values(|u: UnitMut| u.mag).to_set()
}

/// `r` is the answer of a query for the `num` nearest distances among the elements whose
/// distances are `ds` and whose index is in `seen`: it lists distinct elements of `seen` with
/// their distances, nearest first, spanning at most `num` distinct distances; an element of
/// `seen` left out is farther than every entry, and is left out only when `r` spans `num`
/// distinct distances.
pub open spec fn nearest_among(r: Seq<UnitMut>, ds: Seq<i64>, num: nat, seen: Set<int>) -> bool {
    &&& forall|a: int| 0 <= a < r.len() ==> {
        &&& seen.contains((#[trigger] r[a]).index as int)
        &&& r[a].index < ds.len()
        &&& r[a].mag == ds[r[a].index as int]
    }
    &&& forall|a: int, b: int| 0 <= a < b < r.len() ==> (#[trigger] r[a]).index != (#[trigger] r[b]).index
    &&& forall|a: int, b: int| 0 <= a <= b < r.len() ==> (#[trigger] r[a]).mag <= (#[trigger] r[b]).mag
    &&& mags(r).len() <= num
    &&& forall|k: int| #[trigger] seen.contains(k) && !has_index(r, k) ==> mags(r).len() == num && (r.len() > 0
        ==> ds[k] > r.last().mag)
}

/// Distance `m` is that of an entry of `r` exactly when it is in `mags(r)`; the set is finite, has
/// no more members than `r` has entries, and has one at least when `r` has an entry.
pub proof fn lemma_mags(r: Seq<UnitMut>)
    ensures
        mags(r).finite(),
        mags(r).len() <= r.len(),
        forall|m: i64| mags(r).contains(m) <==> exists|a: int| 0 <= a < r.len() && (#[trigger] r[a]).mag == m,
        forall|a: int| 0 <= a < r.len() ==> mags(r).contains(#[trigger] r[a].mag),
        r.len() > 0 ==> mags(r).len() >= 1,
{
    let f = |u: UnitMut| u.mag;
    let ms = r.map_values(f);
    vstd::seq_lib::seq_to_set_is_finite(ms);
    ms.lemma_cardinality_of_set();
    assert forall|m: i64| mags(r).contains(m) <==> exists|a: int| 0 <= a < r.len() && (#[trigger] r[a]).mag == m by {
        if mags(r).contains(m) {
            assert(ms.contains(m));
            let a = choose|a: int| 0 <= a < ms.len() && ms[a] == m;
            assert(r[a].mag == m);
        }
        if exists|a: int| 0 <= a < r.len() && (#[trigger] r[a]).mag == m {
            let a = choose|a: int| 0 <= a < r.len() && (#[trigger] r[a]).mag == m;
            assert(ms[a] == m);
        }
    }
    assert forall|a: int| 0 <= a < r.len() implies mags(r).contains(#[trigger] r[a].mag) by {
        assert(ms[a] == r[a].mag);
    }
    if r.len() > 0 {
        assert(mags(r).contains(r[0].mag));
        vstd::set::axiom_set_contains_len(mags(r), r[0].mag);
    }
}

/// Inserting an entry adds its distance.
pub proof fn lemma_mags_insert(r: Seq<UnitMut>, q: int, u: UnitMut)
    requires
        0 <= q <= r.len(),
    ensures
        mags(r.insert(q, u)) == mags(r).insert(u.mag),
        mags(r.push(u)) == mags(r).insert(u.mag),
{
    let r1 = r.insert(q, u);
    lemma_mags(r);
    lemma_mags(r1);
    lemma_mags(r.push(u));
    assert forall|m: i64| #[trigger] mags(r1).contains(m) <==> mags(r).insert(u.mag).contains(m) by {
        if mags(r1).contains(m) {
            let a = choose|a: int| 0 <= a < r1.len() && (#[trigger] r1[a]).mag == m;
            if a < q {
                assert(r1[a] == r[a]);
            } else if a > q {
                assert(r1[a] == r[a - 1]);
            }
        }
        if mags(r).contains(m) {
            let a = choose|a: int| 0 <= a < r.len() && (#[trigger] r[a]).mag == m;
            if a < q {
                assert(r1[a] == r[a]);
            } else {
                assert(r1[a + 1] == r[a]);
            }
        }
        if m == u.mag {
            assert(r1[q] == u);
        }
    }
    assert(mags(r1) =~= mags(r).insert(u.mag));
    assert(r.insert(r.len() as int, u) =~= r.push(u));
    assert forall|m: i64| #[trigger] mags(r.push(u)).contains(m) <==> mags(r).insert(u.mag).contains(m) by {
        let r2 = r.push(u);
        if mags(r2).contains(m) {
            let a = choose|a: int| 0 <= a < r2.len() && (#[trigger] r2[a]).mag == m;
            if a < r.len() {
                assert(r2[a] == r[a]);
            }
        }
        if mags(r).contains(m) {
            let a = choose|a: int| 0 <= a < r.len() && (#[trigger] r[a]).mag == m;
            assert(r2[a] == r[a]);
        }
        if m == u.mag {
            assert(r2[r.len() as int] == u);
        }
    }
    assert(mags(r.push(u)) =~= mags(r).insert(u.mag));
}

/// The indices `[lo, hi)`.
pub open spec fn index_range(lo: int, hi: int) -> Set<int> {
    Set::new(|k: int| lo <= k < hi)
}

/// `r` is the answer of a query for the elements at the `num` nearest distances, the distance of
/// element `k` being `ds[k]`.
pub open spec fn nearest(r: Seq<UnitMut>, ds: Seq<i64>, num: nat) -> bool {
    nearest_among(r, ds, num, index_range(0, ds.len() as int))
}

/// The first position whose distance exceeds `d`, in a list sorted by distance.
fn upper_pos(v: &Vec<UnitMut>, d: i64) -> (q: usize)
    requires
        forall|a: int, b: int| 0 <= a <= b < v@.len() ==> (#[trigger] v@[a]).mag <= (#[trigger] v@[b]).mag,
    ensures
        q <= v@.len(),
        forall|a: int| 0 <= a < q ==> (#[trigger] v@[a]).mag <= d,
        forall|a: int| q <= a < v@.len() ==> (#[trigger] v@[a]).mag > d,
{
    let mut q: usize = 0;
    while q < v.len() && v[q].mag <= d
        invariant
            q <= v@.len(),
            forall|a: int, b: int| 0 <= a <= b < v@.len() ==> (#[trigger] v@[a]).mag <= (#[trigger] v@[b]).mag,
            forall|a: int| 0 <= a < q ==> (#[trigger] v@[a]).mag <= d,
        decreases v@.len() - q,
    {
        q = q + 1;
    }
    proof {
        assert forall|a: int| q <= a < v@.len() implies (#[trigger] v@[a]).mag > d by {
            assert(v@[q as int].mag <= v@[a].mag);
        }
    }
    q
}

/// The three shape properties of a candidate list: entries are seen elements with their
/// distances, no element twice, nearest first.
pub open spec fn well_listed(r: Seq<UnitMut>, ds: Seq<i64>, seen: Set<int>) -> bool {
    &&& forall|a: int| 0 <= a < r.len() ==> {
        &&& seen.contains((#[trigger] r[a]).index as int)
        &&& r[a].index < ds.len()
        &&& r[a].mag == ds[r[a].index as int]
    }
    &&& forall|a: int, b: int| 0 <= a < b < r.len() ==> (#[trigger] r[a]).index != (#[trigger] r[b]).index
    &&& forall|a: int, b: int| 0 <= a <= b < r.len() ==> (#[trigger] r[a]).mag <= (#[trigger] r[b]).mag
}

/// Inserting a new element at its place by distance keeps the list well listed, and keeps every
/// element listed.
proof fn lemma_insert_listed(r0: Seq<UnitMut>, q: int, u: UnitMut, ds: Seq<i64>, seen: Set<int>)
    requires
        well_listed(r0, ds, seen),
        0 <= q <= r0.len(),
        forall|a: int| 0 <= a < q ==> (#[trigger] r0[a]).mag <= u.mag,
        forall|a: int| q <= a < r0.len() ==> (#[trigger] r0[a]).mag > u.mag,
        !seen.contains(u.index as int),
        u.index < ds.len(),
        u.mag == ds[u.index as int],
    ensures
        well_listed(r0.insert(q, u), ds, seen.insert(u.index as int)),
        has_index(r0.insert(q, u), u.index as int),
        forall|j: int| has_index(r0, j) ==> #[trigger] has_index(r0.insert(q, u), j),
{
    let r1 = r0.insert(q, u);
    let s1 = seen.insert(u.index as int);
    assert forall|a: int| 0 <= a < r1.len() implies {
        &&& s1.contains((#[trigger] r1[a]).index as int)
        &&& r1[a].index < ds.len()
        &&& r1[a].mag == ds[r1[a].index as int]
    } by {
        if a < q {
            assert(r1[a] == r0[a]);
        } else if a > q {
            assert(r1[a] == r0[a - 1]);
        }
    }
    assert forall|a: int, b: int| 0 <= a < b < r1.len() implies (#[trigger] r1[a]).index != (#[trigger] r1[b]).index by {
        if a == q {
            assert(r1[b] == r0[b - 1]);
            assert(seen.contains(r0[b - 1].index as int));
        } else if b == q {
            assert(r1[a] == r0[a]);
            assert(seen.contains(r0[a].index as int));
        } else {
            let a0 = if a < q { a } else { a - 1 };
            let b0 = if b < q { b } else { b - 1 };
            assert(r1[a] == r0[a0]);
            assert(r1[b] == r0[b0]);
        }
    }
    assert forall|a: int, b: int| 0 <= a <= b < r1.len() implies (#[trigger] r1[a]).mag <= (#[trigger] r1[b]).mag by {
        let a0 = if a < q { a } else { a - 1 };
        let b0 = if b < q { b } else { b - 1 };
        if a != q {
            assert(r1[a] == r0[a0]);
        }
        if b != q {
            assert(r1[b] == r0[b0]);
        }
    }
    assert(r1[q] == u);
    assert forall|j: int| has_index(r0, j) implies #[trigger] has_index(r1, j) by {
        let a = choose|a: int| 0 <= a < r0.len() && (#[trigger] r0[a]).index == j;
        let a1 = if a < q { a } else { a + 1 };
        assert(r1[a1] == r0[a]);
    }
}

/// The number of distinct distances of a list sorted by distance.
fn count_mags(v: &Vec<UnitMut>) -> (c: usize)
    requires
        forall|a: int, b: int| 0 <= a <= b < v@.len() ==> (#[trigger] v@[a]).mag <= (#[trigger] v@[b]).mag,
    ensures
        c == mags(v@).len(),
{
    let mut c: usize = 0;
    let mut a: usize = 0;
    proof {
        assert(v@.take(0) =~= Seq::<UnitMut>::empty());
        lemma_mags(v@.take(0));
    }
    while a < v.len()
        invariant
            0 <= a <= v@.len(),
            c <= a,
            c == mags(v@.take(a as int)).len(),
            forall|x: int, y: int| 0 <= x <= y < v@.len() ==> (#[trigger] v@[x]).mag <= (#[trigger] v@[y]).mag,
        decreases v@.len() - a,
    {
        let ghost pre = v@.take(a as int);
        let fresh = a == 0 || v[a - 1].mag != v[a].mag;
        proof {
            assert(v@.take(a + 1) =~= pre.push(v@[a as int]));
            lemma_mags_insert(pre, pre.len() as int, v@[a as int]);
            lemma_mags(pre);
            vstd::set::axiom_set_insert_len(mags(pre), v@[a as int].mag);
            if mags(pre).contains(v@[a as int].mag) {
                let b = choose|b: int| 0 <= b < pre.len() && (#[trigger] pre[b]).mag == v@[a as int].mag;
                assert(pre[b] == v@[b]);
                assert(v@[b].mag <= v@[a - 1].mag);
            } else if a > 0 {
                assert(pre[a - 1] == v@[a - 1]);
                assert(mags(pre).contains(pre[a - 1].mag));
            }
        }
        if fresh {
            c = c + 1;
        }
        a = a + 1;
    }
    proof {
        assert(v@.take(v@.len() as int) =~= v@);
    }
    c
}

/// A list spanning fewer than `num` distances takes the new element at its place.
proof fn lemma_insert_with_room(r0: Seq<UnitMut>, q: int, u: UnitMut, ds: Seq<i64>, num: nat, seen: Set<int>)
    requires
        nearest_among(r0, ds, num, seen),
        mags(r0).len() < num,
        0 <= q <= r0.len(),
        forall|a: int| 0 <= a < q ==> (#[trigger] r0[a]).mag <= u.mag,
        forall|a: int| q <= a < r0.len() ==> (#[trigger] r0[a]).mag > u.mag,
        !seen.contains(u.index as int),
        u.index < ds.len(),
        u.mag == ds[u.index as int],
    ensures
        nearest_among(r0.insert(q, u), ds, num, seen.insert(u.index as int)),
{
    lemma_insert_listed(r0, q, u, ds, seen);
    let r1 = r0.insert(q, u);
    let s1 = seen.insert(u.index as int);
    lemma_mags_insert(r0, q, u);
    lemma_mags(r0);
    vstd::set::axiom_set_insert_len(mags(r0), u.mag);
    assert forall|j: int| #[trigger] s1.contains(j) && !has_index(r1, j) implies mags(r1).len() == num && (r1.len() > 0
        ==> ds[j] > r1.last().mag) by {
        if j != u.index {
            assert(seen.contains(j));
            if has_index(r0, j) {
                assert(has_index(r1, j));
            }
        }
    }
}

/// An element at a distance the list already spans takes its place in it.
proof fn lemma_insert_existing(r0: Seq<UnitMut>, q: int, u: UnitMut, ds: Seq<i64>, num: nat, seen: Set<int>)
    requires
        nearest_among(r0, ds, num, seen),
        mags(r0).contains(u.mag),
        0 <= q <= r0.len(),
        forall|a: int| 0 <= a < q ==> (#[trigger] r0[a]).mag <= u.mag,
        forall|a: int| q <= a < r0.len() ==> (#[trigger] r0[a]).mag > u.mag,
        !seen.contains(u.index as int),
        u.index < ds.len(),
        u.mag == ds[u.index as int],
    ensures
        nearest_among(r0.insert(q, u), ds, num, seen.insert(u.index as int)),
{
    lemma_insert_listed(r0, q, u, ds, seen);
    let r1 = r0.insert(q, u);
    let s1 = seen.insert(u.index as int);
    lemma_mags_insert(r0, q, u);
    lemma_mags(r0);
    assert(mags(r1) =~= mags(r0));
    let w = choose|a: int| 0 <= a < r0.len() && (#[trigger] r0[a]).mag == u.mag;
    assert(r0.len() > 0);
    assert(r0.last() == r0[r0.len() - 1]);
    assert(r1.last().mag <= r0.last().mag) by {
        if q < r0.len() {
            assert(r1[r1.len() - 1] == r0[r0.len() - 1]);
        } else {
            assert(r1[r1.len() - 1] == u);
            assert(r0[w].mag <= r0[r0.len() - 1].mag);
        }
    }
    assert forall|j: int| #[trigger] s1.contains(j) && !has_index(r1, j) implies mags(r1).len() == num && (r1.len() > 0
        ==> ds[j] > r1.last().mag) by {
        if j != u.index {
            assert(seen.contains(j));
            if has_index(r0, j) {
                assert(has_index(r1, j));
            }
        }
    }
}

/// An element farther than every entry of a list spanning `num` distances is left out.
proof fn lemma_skip_far(r0: Seq<UnitMut>, k: int, ds: Seq<i64>, num: nat, seen: Set<int>)
    requires
        nearest_among(r0, ds, num, seen),
        mags(r0).len() == num,
        r0.len() > 0 ==> ds[k] > r0.last().mag,
        !seen.contains(k),
    ensures
        nearest_among(r0, ds, num, seen.insert(k)),
{
    let s1 = seen.insert(k);
    assert forall|a: int| 0 <= a < r0.len() implies s1.contains((#[trigger] r0[a]).index as int) by {
    }
}

/// After the list took a closer element at a new distance and dropped the entries at its old
/// farthest distance `t`, it spans `num` distances again.
proof fn lemma_trimmed(
    r0: Seq<UnitMut>,
    r1: Seq<UnitMut>,
    r2: Seq<UnitMut>,
    q: int,
    u: UnitMut,
    ds: Seq<i64>,
    num: nat,
    seen: Set<int>,
)
    requires
        nearest_among(r0, ds, num, seen),
        mags(r0).len() == num,
        r0.len() > 0,
        !mags(r0).contains(u.mag),
        r1 == r0.insert(q, u),
        0 <= q < r0.len(),
        well_listed(r1, ds, seen.insert(u.index as int)),
        has_index(r1, u.index as int),
        forall|j: int| has_index(r0, j) ==> #[trigger] has_index(r1, j),
        q < r2.len() <= r1.len(),
        r2 == r1.subrange(0, r2.len() as int),
        forall|a: int| r2.len() <= a < r1.len() ==> (#[trigger] r1[a]).mag == r0.last().mag,
        r2.last().mag != r0.last().mag,
    ensures
        nearest_among(r2, ds, num, seen.insert(u.index as int)),
{
    let t = r0.last().mag;
    let s1 = seen.insert(u.index as int);
    let l2 = r2.len() as int;
    assert(r0.last() == r0[r0.len() - 1]);
    assert(r1[r1.len() - 1] == r0[r0.len() - 1]);
    assert(r2[l2 - 1] == r1[l2 - 1]);
    assert(r2.last().mag < t) by {
        assert(r1[l2 - 1].mag <= r1[r1.len() - 1].mag);
    }
    assert forall|a: int| 0 <= a < r2.len() implies {
        &&& s1.contains((#[trigger] r2[a]).index as int)
        &&& r2[a].index < ds.len()
        &&& r2[a].mag == ds[r2[a].index as int]
    } by {
        assert(r2[a] == r1[a]);
    }
    assert forall|a: int, b: int| 0 <= a < b < r2.len() implies (#[trigger] r2[a]).index != (#[trigger] r2[b]).index by {
        assert(r2[a] == r1[a]);
        assert(r2[b] == r1[b]);
    }
    assert forall|a: int, b: int| 0 <= a <= b < r2.len() implies (#[trigger] r2[a]).mag <= (#[trigger] r2[b]).mag by {
        assert(r2[a] == r1[a]);
        assert(r2[b] == r1[b]);
    }
    // the distances: those of `r0` and `u`'s, without `t`
    lemma_mags_insert(r0, q, u);
    lemma_mags(r0);
    lemma_mags(r1);
    lemma_mags(r2);
    vstd::set::axiom_set_insert_len(mags(r0), u.mag);
    assert forall|m: i64| #[trigger] mags(r1).contains(m) <==> mags(r2).insert(t).contains(m) by {
        if mags(r1).contains(m) {
            let a = choose|a: int| 0 <= a < r1.len() && (#[trigger] r1[a]).mag == m;
            if a < l2 {
                assert(r2[a] == r1[a]);
            }
        }
        if mags(r2).contains(m) {
            let a = choose|a: int| 0 <= a < r2.len() && (#[trigger] r2[a]).mag == m;
            assert(r2[a] == r1[a]);
        }
    }
    assert(mags(r1) =~= mags(r2).insert(t));
    assert(!mags(r2).contains(t)) by {
        if mags(r2).contains(t) {
            let a = choose|a: int| 0 <= a < r2.len() && (#[trigger] r2[a]).mag == t;
            assert(r2[a].mag <= r2[l2 - 1].mag);
        }
    }
    vstd::set::axiom_set_insert_len(mags(r2), t);
    assert(mags(r2).len() == num);
    assert forall|j: int| #[trigger] s1.contains(j) && !has_index(r2, j) implies mags(r2).len() == num && (r2.len() > 0
        ==> ds[j] > r2.last().mag) by {
        if has_index(r1, j) {
            let a = choose|a: int| 0 <= a < r1.len() && (#[trigger] r1[a]).index == j;
            if a < l2 {
                assert(r2[a] == r1[a]);
            }
            assert(r1[a].mag == ds[j]);
        } else {
            assert(j != u.index);
            assert(seen.contains(j));
            if has_index(r0, j) {
                assert(has_index(r1, j));
            }
        }
    }
}

/// A closer element at a new distance enters a list spanning `num` distances, and the entries at
/// its farthest distance are dropped.
fn insert_closer(cand: &mut Vec<UnitMut>, num: usize, u: UnitMut, Ghost(ds): Ghost<Seq<i64>>, Ghost(seen): Ghost<Set<int>>)
    requires
        nearest_among(old(cand)@, ds, num as nat, seen),
        mags(old(cand)@).len() == num,
        old(cand)@.len() > 0,
        u.mag < old(cand)@.last().mag,
        !mags(old(cand)@).contains(u.mag),
        !seen.contains(u.index as int),
        u.index < ds.len(),
        u.mag == ds[u.index as int],
    ensures
        nearest_among(final(cand)@, ds, num as nat, seen.insert(u.index as int)),
{
    let ghost r0 = cand@;
    let len0 = cand.len();
    let t = cand[len0 - 1].mag;
    let q = upper_pos(cand, u.mag);
    proof {
        assert(r0.last() == r0[r0.len() - 1]);
        assert(q < r0.len()) by {
            if q >= r0.len() {
                assert(r0[r0.len() - 1].mag <= u.mag);
            }
        }
        lemma_insert_listed(r0, q as int, u, ds, seen);
    }
    cand.insert(q, u);
    let ghost r1 = cand@;
    proof {
        assert(r1[q as int] == u);
        assert(r1[r1.len() - 1] == r0[r0.len() - 1]);
    }
    while cand[cand.len() - 1].mag == t
        invariant
            q < cand@.len() <= r1.len(),
            cand@ == r1.subrange(0, cand@.len() as int),
            r1[q as int] == u,
            u.mag != t,
            forall|a: int| cand@.len() <= a < r1.len() ==> (#[trigger] r1[a]).mag == t,
        decreases cand@.len(),
    {
        let ghost before = cand@;
        assert(before[before.len() - 1] == r1[before.len() - 1]);
        assert(before[q as int] == u);
        cand.pop();
    }
    proof {
        let r2 = cand@;
        assert(r2[r2.len() - 1] == r1[r2.len() - 1]);
        lemma_trimmed(r0, r1, r2, q as int, u, ds, num as nat, seen);
    }
}

/// Takes element `k`, at distance `d`, into account.
fn consider(cand: &mut Vec<UnitMut>, num: usize, k: usize, d: i64, Ghost(ds): Ghost<Seq<i64>>, Ghost(seen): Ghost<Set<int>>)
    requires
        nearest_among(old(cand)@, ds, num as nat, seen),
        k < ds.len(),
        d == ds[k as int],
        !seen.contains(k as int),
    ensures
        nearest_among(final(cand)@, ds, num as nat, seen.insert(k as int)),
{
    let ghost r0 = cand@;
    let u = UnitMut { index: k, mag: d };
    let q = upper_pos(cand, d);
    proof {
        lemma_mags(r0);
    }
    if q > 0 && cand[q - 1].mag == d {
        proof {
            assert(mags(r0).contains(r0[q - 1].mag));
            lemma_insert_existing(r0, q as int, u, ds, num as nat, seen);
        }
        cand.insert(q, u);
        return;
    }
    proof {
        if mags(r0).contains(d) {
            let a = choose|a: int| 0 <= a < r0.len() && (#[trigger] r0[a]).mag == d;
            if a < q {
                assert(r0[a].mag <= r0[q - 1].mag);
            }
        }
    }
    let c = count_mags(cand);
    if c < num {
        proof {
            lemma_insert_with_room(r0, q as int, u, ds, num as nat, seen);
        }
        cand.insert(q, u);
        return;
    }
    let len = cand.len();
    if len == 0 {
        proof {
            lemma_skip_far(r0, k as int, ds, num as nat, seen);
        }
        return;
    }
    let t = cand[len - 1].mag;
    proof {
        assert(r0.last() == r0[len - 1]);
        assert(mags(r0).contains(r0[len - 1].mag));
    }
    if d > t {
        proof {
            lemma_skip_far(r0, k as int, ds, num as nat, seen);
        }
    } else {
        insert_closer(cand, num, u, Ghost(ds), Ghost(seen));
    }
}

/// The elements of `bots` at the `num` nearest distances to `p` by the metric `knear`, nearest
/// first, checking every element.
pub fn naive_mut<K: Knearest>(bots: &[BBox<K::Inner>], p: Vec2<i64>, num: usize, knear: &K) -> (r: Vec<UnitMut>)
    ensures
        nearest(r@, bot_dists(knear, bots@, p), num as nat),
{
    let ghost ds = bot_dists(knear, bots@, p);
    let mut cand: Vec<UnitMut> = Vec::new();
    let mut k: usize = 0;
    proof {
        assert(index_range(0, 0) =~= Set::<int>::empty());
        lemma_mags(cand@);
    }
    while k < bots.len()
        invariant
            k <= bots@.len(),
            ds == bot_dists(knear, bots@, p),
            nearest_among(cand@, ds, num as nat, index_range(0, k as int)),
        decreases bots@.len() - k,
    {
        let d = knear.distance_to_bot(p, &bots[k]);
        consider(&mut cand, num, k, d, Ghost(ds), Ghost(index_range(0, k as int)));
        proof {
            assert(index_range(0, k as int).insert(k as int) =~= index_range(0, k + 1));
        }
        k = k + 1;
    }
    cand
}

/// The elements of `bots` at the `num` nearest distances to `p` by the metric `knear`, nearest
/// first, checking every element, by reference.
pub fn naive<'a, K: Knearest>(bots: &'a [BBox<K::Inner>], p: Vec2<i64>, num: usize, knear: &K) -> (r: Vec<Unit<'a, K::Inner>>)
    ensures
        exists|m: Seq<UnitMut>| #[trigger] nearest(m, bot_dists(knear, bots@, p), num as nat) && m.len() == r@.len()
            && forall|a: int| 0 <= a < m.len() ==> {
            &&& (#[trigger] r@[a]).index == m[a].index
            &&& r@[a].mag == m[a].mag
            &&& *r@[a].bot == bots@[m[a].index as int]
        },
{
    let m = naive_mut(bots, p, num, knear);
    with_refs(bots, &m)
}

/// Pairs each found element with a reference to it.
fn with_refs<'a, T>(bots: &'a [BBox<T>], m: &Vec<UnitMut>) -> (r: Vec<Unit<'a, T>>)
    requires
        forall|a: int| 0 <= a < m@.len() ==> (#[trigger] m@[a]).index < bots@.len(),
    ensures
        m@.len() == r@.len(),
        forall|a: int| 0 <= a < m@.len() ==> {
            &&& (#[trigger] r@[a]).index == m@[a].index
            &&& r@[a].mag == m@[a].mag
            &&& *r@[a].bot == bots@[m@[a].index as int]
        },
{
    let mut r: Vec<Unit<'a, T>> = Vec::new();
    let mut a: usize = 0;
    while a < m.len()
        invariant
            a <= m@.len(),
            r@.len() == a,
            forall|x: int| 0 <= x < m@.len() ==> (#[trigger] m@[x]).index < bots@.len(),
            forall|x: int| 0 <= x < a ==> {
                &&& (#[trigger] r@[x]).index == m@[x].index
                &&& r@[x].mag == m@[x].mag
                &&& *r@[x].bot == bots@[m@[x].index as int]
            },
        decreases m@.len() - a,
    {
        let u = m[a];
        r.push(Unit { bot: &bots[u.index], index: u.index, mag: u.mag });
        a = a + 1;
    }
    r
}

/// Whether a part of the tree whose elements are all at least `lb` away can be left unvisited:
/// the list spans the `num` distances asked for and its last entry is closer than `lb`.
fn can_skip(cand: &Vec<UnitMut>, num: usize, lb: i64) -> (b: bool)
    requires
        forall|a: int, b: int| 0 <= a <= b < cand@.len() ==> (#[trigger] cand@[a]).mag <= (#[trigger] cand@[b]).mag,
    ensures
        b == (mags(cand@).len() >= num && (cand@.len() > 0 ==> lb > cand@.last().mag)),
{
    let c = count_mags(cand);
    if c < num {
        return false;
    }
    let len = cand.len();
    if len == 0 {
        return true;
    }
    lb > cand[len - 1].mag
}

/// Elements all farther than every entry of a list spanning `num` distances can be counted as
/// seen.
proof fn lemma_absorb(r: Seq<UnitMut>, ds: Seq<i64>, num: nat, seen: Set<int>, extra: Set<int>)
    requires
        nearest_among(r, ds, num, seen),
        mags(r).len() >= num,
        r.len() > 0 ==> forall|k: int| #[trigger] extra.contains(k) ==> ds[k] > r.last().mag,
    ensures
        nearest_among(r, ds, num, seen.union(extra)),
{
    let s1 = seen.union(extra);
    assert forall|a: int| 0 <= a < r.len() implies s1.contains((#[trigger] r[a]).index as int) by {
    }
    assert forall|k: int| #[trigger] s1.contains(k) && !has_index(r, k) implies mags(r).len() == num && (r.len() > 0
        ==> ds[k] > r.last().mag) by {
        if !seen.contains(k) {
            assert(extra.contains(k));
        }
    }
}

/// Takes every element of `[lo, hi)` into account.
fn consider_range<K: Knearest>(
    bots: &Vec<BBox<K::Inner>>,
    lo: usize,
    hi: usize,
    p: Vec2<i64>,
    knear: &K,
    num: usize,
    cand: &mut Vec<UnitMut>,
    Ghost(seen): Ghost<Set<int>>,
)
    requires
        lo <= hi <= bots@.len(),
        nearest_among(old(cand)@, bot_dists(knear, bots@, p), num as nat, seen),
        forall|k: int| lo <= k < hi ==> !#[trigger] seen.contains(k),
    ensures
        nearest_among(final(cand)@, bot_dists(knear, bots@, p), num as nat, seen.union(index_range(lo as int, hi as int))),
{
    let ghost ds = bot_dists(knear, bots@, p);
    let mut k = lo;
    proof {
        assert(seen.union(index_range(lo as int, lo as int)) =~= seen);
    }
    while k < hi
        invariant
            lo <= k <= hi <= bots@.len(),
            ds == bot_dists(knear, bots@, p),
            forall|j: int| lo <= j < hi ==> !#[trigger] seen.contains(j),
            nearest_among(cand@, ds, num as nat, seen.union(index_range(lo as int, k as int))),
        decreases hi - k,
    {
        let d = knear.distance_to_bot(p, &bots[k]);
        consider(cand, num, k, d, Ghost(ds), Ghost(seen.union(index_range(lo as int, k as int))));
        proof {
            assert(seen.union(index_range(lo as int, k as int)).insert(k as int) =~= seen.union(index_range(lo as int, k + 1)));
        }
        k = k + 1;
    }
}

/// Visits the elements `[lo, hi)`, which all lie inside `region`, or leaves them out when they
/// cannot enter the list: when the region is farther than the farthest entry of a full list. The
/// elements accounted for in the returned set are those of `seen` and some of `[lo, hi)`; all of
/// them when `ok` says the metric's law holds over the part.
fn visit_part<K: Knearest>(
    nodes: &[Node],
    bots: &Vec<BBox<K::Inner>>,
    sub: Option<(usize, usize, Axis)>,
    lo: usize,
    hi: usize,
    region: Rect,
    p: Vec2<i64>,
    knear: &K,
    num: usize,
    cand: &mut Vec<UnitMut>,
    Ghost(seen): Ghost<Set<int>>,
    Ghost(ok): Ghost<bool>,
) -> (s2: Ghost<Set<int>>)
    requires
        lo <= hi <= bots@.len(),
        ok ==> knear_ok(knear, p, region, bots@.subrange(lo as int, hi as int)),
        nearest_among(old(cand)@, bot_dists(knear, bots@, p), num as nat, seen),
        forall|k: int| lo <= k < hi ==> !#[trigger] seen.contains(k),
        sub matches Some(s) ==> s.1 < usize::BITS && wf_sub(nodes@, bots@, s.0 as int, s.1 as nat, s.2, lo as int, hi as int, true),
    ensures
        nearest_among(final(cand)@, bot_dists(knear, bots@, p), num as nat, s2@),
        seen.subset_of(s2@),
        s2@.subset_of(seen.union(index_range(lo as int, hi as int))),
        ok ==> s2@ == seen.union(index_range(lo as int, hi as int)),
    decreases
        match sub { Some(s) => s.1 as int, None => 0 },
        1int,
{
    let ghost ds = bot_dists(knear, bots@, p);
    let lb = knear.distance_to_rect(p, &region);
    if can_skip(cand, num, lb) {
        proof {
            if ok {
                let part = bots@.subrange(lo as int, hi as int);
                assert forall|k: int| #[trigger] index_range(lo as int, hi as int).contains(k) implies ds[k] >= lb by {
                    assert(part[k - lo] == bots@[k]);
                    assert(region.holds(part[k - lo].rect));
                    assert(knear.rect_dist(p, region) <= knear.bot_dist(p, &part[k - lo]));
                }
                lemma_absorb(cand@, ds, num as nat, seen, index_range(lo as int, hi as int));
            }
        }
        return Ghost(if ok { seen.union(index_range(lo as int, hi as int)) } else { seen });
    }
    match sub {
        Some((i, r, axis)) => {
            knn_recurse(nodes, bots, i, r, axis, lo, hi, region, p, knear, num, cand, Ghost(seen), Ghost(ok))
        },
        None => {
            consider_range(bots, lo, hi, p, knear, num, cand, Ghost(seen));
            Ghost(seen.union(index_range(lo as int, hi as int)))
        },
    }
}

/// The metric's law over the elements `[lo, hi)` of `bots` and a region holding them.
proof fn lemma_part_ok<K: Knearest>(knear: &K, p: Vec2<i64>, region: Rect, bots: Seq<BBox<K::Inner>>, lo: int, hi: int, base_lo: int, base_hi: int, base: Rect)
    requires
        0 <= base_lo <= lo <= hi <= base_hi <= bots.len(),
        knear_ok(knear, p, base, bots.subrange(base_lo, base_hi)),
        forall|k: int| lo <= k < hi ==> region.holds(#[trigger] bots[k].rect),
    ensures
        knear_ok(knear, p, region, bots.subrange(lo, hi)),
{
    let whole = bots.subrange(base_lo, base_hi);
    let part = bots.subrange(lo, hi);
    assert forall|k: int| 0 <= k < part.len() implies region.holds(#[trigger] part[k].rect) by {
        assert(part[k] == bots[lo + k]);
    }
    assert forall|r: Rect, k: int|
        0 <= k < part.len() && #[trigger] r.holds(part[k].rect) implies knear.rect_dist(p, r) <= #[trigger] knear.bot_dist(
            p,
            &part[k],
        ) by {
        assert(part[k] == bots[lo + k]);
        assert(whole[lo + k - base_lo] == bots[lo + k]);
        assert(r.holds(whole[lo + k - base_lo].rect));
    }
}

/// The query over the subtree of node `i`, which has `r` levels, first axis `axis`, holds the
/// elements `[lo, hi)` and covers `region`. The part on the point's side is visited first.
fn knn_recurse<K: Knearest>(
    nodes: &[Node],
    bots: &Vec<BBox<K::Inner>>,
    i: usize,
    r: usize,
    axis: Axis,
    lo: usize,
    hi: usize,
    region: Rect,
    p: Vec2<i64>,
    knear: &K,
    num: usize,
    cand: &mut Vec<UnitMut>,
    Ghost(seen): Ghost<Set<int>>,
    Ghost(ok): Ghost<bool>,
) -> (s2: Ghost<Set<int>>)
    requires
        wf_sub(nodes@, bots@, i as int, r as nat, axis, lo as int, hi as int, true),
        r < usize::BITS,
        ok ==> knear_ok(knear, p, region, bots@.subrange(lo as int, hi as int)),
        nearest_among(old(cand)@, bot_dists(knear, bots@, p), num as nat, seen),
        forall|k: int| lo <= k < hi ==> !#[trigger] seen.contains(k),
    ensures
        nearest_among(final(cand)@, bot_dists(knear, bots@, p), num as nat, s2@),
        seen.subset_of(s2@),
        s2@.subset_of(seen.union(index_range(lo as int, hi as int))),
        ok || r == 1 ==> s2@ == seen.union(index_range(lo as int, hi as int)),
    decreases r, 0int,
{
    proof {
        lemma_wf_basic(nodes@, bots@, i as int, r as nat, axis, lo as int, hi as int, true);
        lemma_pow2_unfold(r as nat);
        lemma_pow2_pos((r - 1) as nat);
    }
    let n = nodes[i];
    if r == 1 {
        consider_range(bots, lo, hi, p, knear, num, cand, Ghost(seen));
        return Ghost(seen.union(index_range(lo as int, hi as int)));
    }
    let d = match n.div {
        Some(d) => d,
        None => {
            proof {
                assert(seen.union(index_range(lo as int, hi as int)) =~= seen);
            }
            return Ghost(seen);
        },
    };
    let rc = i + half_span(r);
    let mid = nodes[rc].start;
    let (rleft, rright) = region.subdivide(axis, d);
    let range = match n.cont {
        Some(c) => c,
        None => Range { start: d, end: d },
    };
    let rmiddle = make_rect_from_range(axis, &range, &region);
    proof {
        let whole = bots@.subrange(lo as int, hi as int);
        if ok {
        assert forall|k: int| lo <= k < hi implies region.holds(#[trigger] bots@[k].rect) by {
            assert(whole[k - lo] == bots@[k]);
        }
        assert forall|k: int| n.end <= k < mid implies rleft.holds(#[trigger] bots@[k].rect) by {
            assert(region.holds(bots@[k].rect));
            assert(hi_of(bots@[k], axis) < d);
        }
        assert forall|k: int| mid <= k < hi implies rright.holds(#[trigger] bots@[k].rect) by {
            assert(region.holds(bots@[k].rect));
            assert(lo_of(bots@[k], axis) > d);
        }
        assert forall|k: int| lo <= k < n.end implies rmiddle.holds(#[trigger] bots@[k].rect) by {
            assert(region.holds(bots@[k].rect));
        }
        if ok {
            lemma_part_ok(knear, p, rleft, bots@, n.end as int, mid as int, lo as int, hi as int, region);
            lemma_part_ok(knear, p, rright, bots@, mid as int, hi as int, lo as int, hi as int, region);
            lemma_part_ok(knear, p, rmiddle, bots@, lo as int, n.end as int, lo as int, hi as int, region);
        }
        }
    }
    let pa = if axis.is_xaxis() { p.x } else { p.y };
    let ghost s_mid = index_range(lo as int, n.end as int);
    let ghost s_left = index_range(n.end as int, mid as int);
    let ghost s_right = index_range(mid as int, hi as int);
    let left = Some((i + 1, r - 1, axis.next()));
    let right = Some((rc, r - 1, axis.next()));
    if pa < range.start {
        let g1 = visit_part(nodes, bots, left, n.end, mid, rleft, p, knear, num, cand, Ghost(seen), Ghost(ok));
        proof {
            assert forall|k: int| lo <= k < n.end implies !#[trigger] g1@.contains(k) by {
                assert(!seen.contains(k));
                assert(!g1@.contains(k) || seen.contains(k) || s_left.contains(k));
            }
        }
        let g2 = visit_part(nodes, bots, None, lo, n.end, rmiddle, p, knear, num, cand, Ghost(g1@), Ghost(ok));
        proof {
            assert forall|k: int| mid <= k < hi implies !#[trigger] g2@.contains(k) by {
                assert(!seen.contains(k));
                assert(!g2@.contains(k) || seen.contains(k) || s_left.union(s_mid).contains(k));
            }
        }
        let g3 = visit_part(nodes, bots, right, mid, hi, rright, p, knear, num, cand, Ghost(g2@), Ghost(ok));
        proof {
            assert(seen.union(s_left).union(s_mid).union(s_right) =~= seen.union(index_range(lo as int, hi as int)));
            assert(g3@.subset_of(seen.union(s_left).union(s_mid).union(s_right)));
            if ok {
                assert(g3@ =~= seen.union(s_left).union(s_mid).union(s_right));
            }
        }
        g3
    } else if pa > range.end {
        let g1 = visit_part(nodes, bots, right, mid, hi, rright, p, knear, num, cand, Ghost(seen), Ghost(ok));
        proof {
            assert forall|k: int| lo <= k < n.end implies !#[trigger] g1@.contains(k) by {
                assert(!seen.contains(k));
                assert(!g1@.contains(k) || seen.contains(k) || s_right.contains(k));
            }
        }
        let g2 = visit_part(nodes, bots, None, lo, n.end, rmiddle, p, knear, num, cand, Ghost(g1@), Ghost(ok));
        proof {
            assert forall|k: int| n.end <= k < mid implies !#[trigger] g2@.contains(k) by {
                assert(!seen.contains(k));
                assert(!g2@.contains(k) || seen.contains(k) || s_right.union(s_mid).contains(k));
            }
        }
        let g3 = visit_part(nodes, bots, left, n.end, mid, rleft, p, knear, num, cand, Ghost(g2@), Ghost(ok));
        proof {
            assert(seen.union(s_right).union(s_mid).union(s_left) =~= seen.union(index_range(lo as int, hi as int)));
            assert(g3@.subset_of(seen.union(s_right).union(s_mid).union(s_left)));
            if ok {
                assert(g3@ =~= seen.union(s_right).union(s_mid).union(s_left));
            }
        }
        g3
    } else {
        let g1 = visit_part(nodes, bots, None, lo, n.end, rmiddle, p, knear, num, cand, Ghost(seen), Ghost(ok));
        proof {
            assert forall|k: int| mid <= k < hi implies !#[trigger] g1@.contains(k) by {
                assert(!seen.contains(k));
                assert(!g1@.contains(k) || seen.contains(k) || s_mid.contains(k));
            }
        }
        let g2 = visit_part(nodes, bots, right, mid, hi, rright, p, knear, num, cand, Ghost(g1@), Ghost(ok));
        proof {
            assert forall|k: int| n.end <= k < mid implies !#[trigger] g2@.contains(k) by {
                assert(!seen.contains(k));
                assert(!g2@.contains(k) || seen.contains(k) || s_mid.union(s_right).contains(k));
            }
        }
        let g3 = visit_part(nodes, bots, left, n.end, mid, rleft, p, knear, num, cand, Ghost(g2@), Ghost(ok));
        proof {
            assert(seen.union(s_mid).union(s_right).union(s_left) =~= seen.union(index_range(lo as int, hi as int)));
            assert(g3@.subset_of(seen.union(s_mid).union(s_right).union(s_left)));
            if ok {
                assert(g3@ =~= seen.union(s_mid).union(s_right).union(s_left));
            }
        }
        g3
    }
}

/// `r` lists distinct elements with their distances, the distance of element `k` being `ds[k]`,
/// nearest first, spanning at most `num` distinct distances.
pub open spec fn found_among(r: Seq<UnitMut>, ds: Seq<i64>, num: nat) -> bool {
    &&& forall|a: int| 0 <= a < r.len() ==> (#[trigger] r[a]).index < ds.len() && r[a].mag == ds[r[a].index as int]
    &&& forall|a: int, b: int| 0 <= a < b < r.len() ==> (#[trigger] r[a]).index != (#[trigger] r[b]).index
    &&& forall|a: int, b: int| 0 <= a <= b < r.len() ==> (#[trigger] r[a]).mag <= (#[trigger] r[b]).mag
    &&& mags(r).len() <= num
}

/// The elements of the tree at the `num` nearest distances to `p` by the metric `knear`, nearest
/// first; indices refer to `get_bots()`. Parts of the tree whose region is farther than the
/// farthest of `num` distances already found are not visited. The answer is exact when the metric
/// keeps its law over the elements, all inside `border` (`knear_ok`), and whenever the tree has a
/// single level, as every element is then measured; otherwise it still lists elements with their
/// distances, nearest first, over at most `num` distances.
pub fn k_nearest_mut<K: Knearest>(tree: &DinoTree<K::Inner>, p: Vec2<i64>, num: usize, knear: &K, border: Rect) -> (r: Vec<UnitMut>)
    ensures
        found_among(r@, bot_dists(knear, tree.elems(), p), num as nat),
        knear_ok(knear, p, border, tree.elems()) || tree.levels() == 1 ==> nearest(r@, bot_dists(knear, tree.elems(), p), num as nat),
{
    let (nodes, bots, axis, height) = tree.parts();
    let mut cand: Vec<UnitMut> = Vec::new();
    let ghost ok = knear_ok(knear, p, border, bots@);
    proof {
        assert(Set::<int>::empty().union(index_range(0, bots@.len() as int)) =~= index_range(0, bots@.len() as int));
        assert(bots@.subrange(0, bots@.len() as int) =~= bots@);
        lemma_mags(cand@);
    }
    let _ = knn_recurse(nodes, bots, 0, height, axis, 0, bots.len(), border, p, knear, num, &mut cand, Ghost(Set::<int>::empty()), Ghost(ok));
    cand
}

/// The elements of the tree at the `num` nearest distances to `p` by the metric `knear`, nearest
/// first, by reference; exact as `k_nearest_mut` says.
pub fn k_nearest<'a, K: Knearest>(tree: &'a DinoTree<K::Inner>, p: Vec2<i64>, num: usize, knear: &K, border: Rect) -> (r: Vec<Unit<'a, K::Inner>>)
    ensures
        exists|m: Seq<UnitMut>| #[trigger] found_among(m, bot_dists(knear, tree.elems(), p), num as nat) && (knear_ok(
            knear,
            p,
            border,
            tree.elems(),
        ) || tree.levels() == 1 ==> nearest(m, bot_dists(knear, tree.elems(), p), num as nat)) && m.len() == r@.len()
            && forall|a: int| 0 <= a < m.len() ==> {
            &&& (#[trigger] r@[a]).index == m[a].index
            &&& r@[a].mag == m[a].mag
            &&& *r@[a].bot == tree.elems()[m[a].index as int]
        },
{
    let m = k_nearest_mut(tree, p, num, knear, border);
    with_refs(tree.get_bots(), &m)
}

impl<T> DinoTree<T> {
    /// The elements of the tree at the `num` nearest distances to `p` by the metric `knear`,
    /// nearest first; exact as `k_nearest_mut` says.
    pub fn k_nearest_mut<K: Knearest<Inner = T>>(&self, p: Vec2<i64>, num: usize, knear: &K, border: Rect) -> (r: Vec<UnitMut>)
        ensures
            found_among(r@, bot_dists(knear, self.elems(), p), num as nat),
            knear_ok(knear, p, border, self.elems()) || self.levels() == 1 ==> nearest(r@, bot_dists(knear, self.elems(), p), num as nat),
    {
        k_nearest_mut(self, p, num, knear, border)
    }
}

} // verus!
