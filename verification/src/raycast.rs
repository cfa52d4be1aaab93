//! Ray casting: the elements that a ray hits first. The caller gives where the ray hits a
//! rectangle and where it hits an element; the answer is the least distance at which an element
//! is hit, together with every element hit at it, so ties are all returned.
use vstd::prelude::*;
use vstd::arithmetic::power2::{lemma_pow2_unfold, lemma_pow2_pos};
use vstd::std_specs::convert::{FromSpec, TryFromSpec};
use crate::geom::{Axis, Vec2, Range, Rect, make_rect_from_range};
use crate::bbox::{BBox, lo_of, hi_of};
use crate::tree::{Node, DinoTree, wf_sub, lemma_wf_basic};
use crate::colfind::half_span;
use crate::knearest::index_range;

verus! {

/// A ray: its origin and its direction.
#[derive(Clone, Copy, Debug)]
pub struct Ray<N> {
    pub point: Vec2<N>,
    pub dir: Vec2<N>,
}

impl<N> Ray<N> {
    /// Converts the coordinates with `From`.
    pub fn inner_into<B: From<N>>(self) -> (r: Ray<B>)
        ensures
            B::obeys_from_spec() ==> r.point.x == B::from_spec(self.point.x) && r.point.y == B::from_spec(
                self.point.y,
            ) && r.dir.x == B::from_spec(self.dir.x) && r.dir.y == B::from_spec(self.dir.y),
    {
        let point = self.point.inner_into();
        let dir = self.dir.inner_into();
        Ray { point, dir }
    }

    /// Converts the coordinates with `TryFrom`; the first failure is returned, the point's before
    /// the direction's.
    pub fn inner_try_into<B: TryFrom<N>>(self) -> (r: Result<Ray<B>, B::Error>)
        ensures
            B::obeys_try_from_spec() ==> match (
                B::try_from_spec(self.point.x),
                B::try_from_spec(self.point.y),
                B::try_from_spec(self.dir.x),
                B::try_from_spec(self.dir.y),
            ) {
                (Ok(px), Ok(py), Ok(dx), Ok(dy)) => r == Ok::<Ray<B>, B::Error>(
                    Ray { point: Vec2 { x: px, y: py }, dir: Vec2 { x: dx, y: dy } },
                ),
                (Err(e), _, _, _) => r == Err::<Ray<B>, B::Error>(e),
                (Ok(_), Err(e), _, _) => r == Err::<Ray<B>, B::Error>(e),
                (Ok(_), Ok(_), Err(e), _) => r == Err::<Ray<B>, B::Error>(e),
                (Ok(_), Ok(_), Ok(_), Err(e)) => r == Err::<Ray<B>, B::Error>(e),
            },
    {
        let point = self.point.inner_try_into();
        let dir = self.dir.inner_try_into();
        match (point, dir) {
            (Ok(point), Ok(dir)) => Ok(Ray { point, dir }),
            (Err(e), Ok(_)) => Err(e),
            (Ok(_), Err(e)) => Err(e),
            (Err(e), Err(_)) => Err(e),
        }
    }
}

/// Whether a ray hits a rectangle, and at which distance along the ray.
#[derive(Clone, Copy, Debug, PartialEq, Eq)]
pub enum RayIntersectResult<N> {
    Hit(N),
    NoHit,
}

impl<N> RayIntersectResult<N> {
    /// Converts the distance with `From`.
    pub fn inner_into<K: From<N>>(self) -> (r: RayIntersectResult<K>)
        ensures
            self is NoHit ==> r is NoHit,
            self matches RayIntersectResult::Hit(k) ==> r is Hit && (K::obeys_from_spec() ==> r->0 == K::from_spec(k)),
    {
        match self {
            RayIntersectResult::Hit(k) => RayIntersectResult::Hit(K::from(k)),
            RayIntersectResult::NoHit => RayIntersectResult::NoHit,
        }
    }

    /// Converts the distance with `TryFrom`.
    pub fn inner_try_into<K: TryFrom<N>>(self) -> (r: Result<RayIntersectResult<K>, K::Error>)
        ensures
            self is NoHit ==> r == Ok::<RayIntersectResult<K>, K::Error>(RayIntersectResult::NoHit),
            self matches RayIntersectResult::Hit(k) ==> (K::obeys_try_from_spec() ==> match K::try_from_spec(k) {
                Ok(v) => r == Ok::<RayIntersectResult<K>, K::Error>(RayIntersectResult::Hit(v)),
                Err(e) => r == Err::<RayIntersectResult<K>, K::Error>(e),
            }),
    {
        match self {
            RayIntersectResult::Hit(k) => {
                match K::try_from(k) {
                    Ok(k) => Ok(RayIntersectResult::Hit(k)),
                    Err(e) => Err(e),
                }
            },
            RayIntersectResult::NoHit => Ok(RayIntersectResult::NoHit),
        }
    }
}

/// The answer of a ray cast: the elements hit first, by index, and the distance at which they are
/// hit; or no hit at all.
pub enum RayCastResult {
    Hit(Vec<usize>, i64),
    NoHit,
}

impl RayCastResult {
    /// The answer as a value: `None` for no hit.
    pub open spec fn as_option(&self) -> Option<(Seq<usize>, i64)> {
        match self {
            RayCastResult::Hit(v, d) => Some((v@, *d)),
            RayCastResult::NoHit => None,
        }
    }

    /// The elements hit and the distance, for an answer that is a hit.
    pub fn unwrap(self) -> (r: (Vec<usize>, i64))
        requires
            self is Hit,
        ensures
            self.as_option() == Some((r.0@, r.1)),
    {
        match self {
            RayCastResult::Hit(a, b) => (a, b),
            RayCastResult::NoHit => vstd::pervasive::unreached(),
        }
    }
}

/// The casts a ray query goes by, which the user provides: against a rectangle, the cheap test
/// that prunes the search, and against an element, which may look at the shape inside its
/// rectangle.
pub trait RayTrait {
    /// The data of the elements.
    type Inner;

    /// Where the ray hits the rectangle `r`.
    spec fn rect_cast(&self, ray: Ray<i64>, r: Rect) -> RayIntersectResult<i64>;

    /// Where the ray hits the element `b`.
    spec fn bot_cast(&self, ray: Ray<i64>, b: &BBox<Self::Inner>) -> RayIntersectResult<i64>;

    /// Casts the ray against the rectangle `r`.
    fn compute_distance_to_rect(&self, ray: &Ray<i64>, r: &Rect) -> (res: RayIntersectResult<i64>)
        ensures
            res == self.rect_cast(*ray, *r),
    ;

    /// Casts the ray against the element `b`.
    fn compute_distance_to_bot(&self, ray: &Ray<i64>, b: &BBox<Self::Inner>) -> (res: RayIntersectResult<i64>)
        ensures
            res == self.bot_cast(*ray, b),
    ;
}

/// Where the ray hits each of the elements, by `rt`.
pub open spec fn bot_hits<R: RayTrait>(rt: &R, ray: Ray<i64>, bots: Seq<BBox<R::Inner>>) -> Seq<RayIntersectResult<i64>> {
    Seq::new(bots.len(), |k: int| rt.bot_cast(ray, &bots[k]))
}

/// The casts can prune a search over the elements inside `border`: every element lies inside
/// `border`, and a ray that hits an element hits every rectangle that holds it, no farther.
pub open spec fn ray_ok<R: RayTrait>(rt: &R, ray: Ray<i64>, border: Rect, bots: Seq<BBox<R::Inner>>) -> bool {
    &&& forall|k: int| 0 <= k < bots.len() ==> border.holds(#[trigger] bots[k].rect)
    &&& forall|r: Rect, k: int|
        0 <= k < bots.len() && #[trigger] r.holds(bots[k].rect) && (#[trigger] rt.bot_cast(ray, &bots[k])) is Hit
            ==> rt.rect_cast(ray, r) is Hit && rt.rect_cast(ray, r)->0 <= rt.bot_cast(ray, &bots[k])->0
}

/// `out` is the answer of the ray cast over the elements whose index is in `seen`, element `k`
/// being hit as `hits[k]` says: no hit when none of them is hit; else the least distance at
/// which one is hit, with every element hit at that distance, each once.
pub open spec fn ray_among(out: Option<(Seq<usize>, i64)>, hits: Seq<RayIntersectResult<i64>>, seen: Set<int>) -> bool {
    match out {
        None => forall|k: int| #[trigger] seen.contains(k) ==> hits[k] is NoHit,
        Some((list, d)) => {
            &&& list.len() > 0
            &&& forall|a: int| 0 <= a < list.len() ==> {
                &&& (#[trigger] list[a]) < hits.len()
                &&& seen.contains(list[a] as int)
                &&& hits[list[a] as int] == RayIntersectResult::Hit(d)
            }
            &&& forall|a: int, b: int| 0 <= a < b < list.len() ==> #[trigger] list[a] != #[trigger] list[b]
            &&& forall|k: int|
                #[trigger] seen.contains(k) && hits[k] is Hit ==> hits[k]->0 >= d && (hits[k]->0 == d
                    ==> list.contains(k as usize))
        },
    }
}

/// `out` is the answer of the ray cast over all the elements, element `k` being hit as `hits[k]`
/// says.
pub open spec fn ray_answer(out: Option<(Seq<usize>, i64)>, hits: Seq<RayIntersectResult<i64>>) -> bool {
    ray_among(out, hits, index_range(0, hits.len() as int))
}

/// The view of the best answer found so far.
pub open spec fn best_view(best: Option<(Vec<usize>, i64)>) -> Option<(Seq<usize>, i64)> {
    match best {
        Some((v, d)) => Some((v@, d)),
        None => None,
    }
}

/// The distance of an answer that is a hit.
pub open spec fn out_dist(out: Option<(Seq<usize>, i64)>) -> i64 {
    match out {
        Some(p) => p.1,
        None => 0,
    }
}

/// The elements of an answer that is a hit.
pub open spec fn out_list(out: Option<(Seq<usize>, i64)>) -> Seq<usize> {
    match out {
        Some(p) => p.0,
        None => Seq::empty(),
    }
}

/// The elements of the best answer so far are listed in increasing order, all below `k`.
pub open spec fn listed_below(best: Option<(Seq<usize>, i64)>, k: int) -> bool {
    best matches Some((l, _)) ==> (forall|a: int, b: int| 0 <= a < b < l.len() ==> #[trigger] l[a] < #[trigger] l[b])
        && forall|a: int| 0 <= a < l.len() ==> #[trigger] l[a] < k
}

/// Takes element `k`, which the ray hits as `y` says, into account.
fn consider(
    best: &mut Option<(Vec<usize>, i64)>,
    k: usize,
    y: RayIntersectResult<i64>,
    Ghost(hits): Ghost<Seq<RayIntersectResult<i64>>>,
    Ghost(seen): Ghost<Set<int>>,
)
    requires
        ray_among(best_view(*old(best)), hits, seen),
        k < hits.len(),
        hits[k as int] == y,
        !seen.contains(k as int),
    ensures
        ray_among(best_view(*final(best)), hits, seen.insert(k as int)),
        listed_below(best_view(*old(best)), k as int) ==> listed_below(best_view(*final(best)), k + 1),
{
    let ghost s1 = seen.insert(k as int);
    let v = match y {
        RayIntersectResult::Hit(v) => v,
        RayIntersectResult::NoHit => {
            proof {
                assert forall|j: int| #[trigger] s1.contains(j) && hits[j] is Hit implies best_view(*best) is Some
                    && hits[j]->0 >= out_dist(best_view(*best)) && (hits[j]->0 == out_dist(best_view(*best))
                    ==> out_list(best_view(*best)).contains(j as usize)) by {
                    assert(j != k);
                }
                assert forall|j: int| #[trigger] s1.contains(j) && best_view(*best) is None implies hits[j] is NoHit by {
                }
            }
            return;
        },
    };
    let ghost b0 = best_view(*best);
    match best {
        None => {
            let mut list: Vec<usize> = Vec::new();
            list.push(k);
            *best = Some((list, v));
            proof {
                let l = seq![k];
                assert(best_view(*best) == Some((l, v)));
                assert forall|j: int| #[trigger] s1.contains(j) && hits[j] is Hit implies hits[j]->0 >= v && (hits[j]->0
                    == v ==> l.contains(j as usize)) by {
                    if j == k {
                        assert(l[0] == k);
                    } else {
                        assert(seen.contains(j));
                    }
                }
            }
        },
        Some((list, d)) => {
            let ghost l0 = list@;
            if v < *d {
                list.clear();
                list.push(k);
                *d = v;
                proof {
                    let l = list@;
                    assert(l =~= seq![k]);
                    assert forall|j: int| #[trigger] s1.contains(j) && hits[j] is Hit implies hits[j]->0 >= v && (
                    hits[j]->0 == v ==> l.contains(j as usize)) by {
                        if j == k {
                            assert(l[0] == k);
                        } else {
                            assert(seen.contains(j));
                        }
                    }
                }
            } else if v == *d {
                list.push(k);
                proof {
                    let l = list@;
                    assert forall|a: int| 0 <= a < l.len() implies {
                        &&& (#[trigger] l[a]) < hits.len()
                        &&& s1.contains(l[a] as int)
                        &&& hits[l[a] as int] == RayIntersectResult::Hit(v)
                    } by {
                        if a < l0.len() {
                            assert(l[a] == l0[a]);
                        }
                    }
                    assert forall|a: int, b: int| 0 <= a < b < l.len() implies #[trigger] l[a] != #[trigger] l[b] by {
                        assert(l[a] == l0[a]);
                        if b < l0.len() {
                            assert(l[b] == l0[b]);
                        } else {
                            assert(seen.contains(l0[a] as int));
                        }
                    }
                    assert forall|j: int| #[trigger] s1.contains(j) && hits[j] is Hit implies hits[j]->0 >= v && (
                    hits[j]->0 == v ==> l.contains(j as usize)) by {
                        if j == k {
                            assert(l[l.len() - 1] == k);
                        } else {
                            assert(seen.contains(j));
                            if hits[j]->0 == v {
                                let a = choose|a: int| 0 <= a < l0.len() && l0[a] == j as usize;
                                assert(l[a] == l0[a]);
                            }
                        }
                    }
                }
            } else {
                proof {
                    assert forall|j: int| #[trigger] s1.contains(j) && hits[j] is Hit implies hits[j]->0 >= out_dist(b0)
                        && (hits[j]->0 == out_dist(b0) ==> out_list(b0).contains(j as usize)) by {
                        if j != k {
                            assert(seen.contains(j));
                        }
                    }
                }
            }
        },
    }
}

/// Takes every element of `[lo, hi)` into account.
fn consider_range<R: RayTrait>(
    bots: &Vec<BBox<R::Inner>>,
    lo: usize,
    hi: usize,
    ray: Ray<i64>,
    rt: &R,
    best: &mut Option<(Vec<usize>, i64)>,
    Ghost(seen): Ghost<Set<int>>,
)
    requires
        lo <= hi <= bots@.len(),
        ray_among(best_view(*old(best)), bot_hits(rt, ray, bots@), seen),
        forall|k: int| lo <= k < hi ==> !#[trigger] seen.contains(k),
    ensures
        ray_among(best_view(*final(best)), bot_hits(rt, ray, bots@), seen.union(index_range(lo as int, hi as int))),
        listed_below(best_view(*old(best)), lo as int) ==> listed_below(best_view(*final(best)), hi as int),
{
    let ghost hits = bot_hits(rt, ray, bots@);
    let ghost below0 = listed_below(best_view(*best), lo as int);
    let mut k = lo;
    proof {
        assert(seen.union(index_range(lo as int, lo as int)) =~= seen);
    }
    while k < hi
        invariant
            lo <= k <= hi <= bots@.len(),
            hits == bot_hits(rt, ray, bots@),
            forall|j: int| lo <= j < hi ==> !#[trigger] seen.contains(j),
            ray_among(best_view(*best), hits, seen.union(index_range(lo as int, k as int))),
            below0 ==> listed_below(best_view(*best), k as int),
            below0 == listed_below(best_view(*old(best)), lo as int),
        decreases hi - k,
    {
        let y = rt.compute_distance_to_bot(&ray, &bots[k]);
        consider(best, k, y, Ghost(hits), Ghost(seen.union(index_range(lo as int, k as int))));
        proof {
            assert(seen.union(index_range(lo as int, k as int)).insert(k as int) =~= seen.union(index_range(lo as int, k + 1)));
        }
        k = k + 1;
    }
}

/// The elements hit first by the ray, checking every element; those hit at the least distance are
/// listed in the order of `bots`.
pub fn raycast_naive_mut<R: RayTrait>(bots: &Vec<BBox<R::Inner>>, ray: Ray<i64>, rt: &R) -> (r: RayCastResult)
    ensures
        ray_answer(r.as_option(), bot_hits(rt, ray, bots@)),
        r matches RayCastResult::Hit(v, _) ==> forall|a: int, b: int| 0 <= a < b < v@.len() ==> #[trigger] v@[a] < #[trigger] v@[b],
{
    let mut best: Option<(Vec<usize>, i64)> = None;
    proof {
        assert(Set::<int>::empty().union(index_range(0, bots@.len() as int)) =~= index_range(0, bots@.len() as int));
    }
    consider_range(bots, 0, bots.len(), ray, rt, &mut best, Ghost(Set::<int>::empty()));
    match best {
        Some((a, b)) => RayCastResult::Hit(a, b),
        None => RayCastResult::NoHit,
    }
}

/// Elements that the ray can hit no nearer than the best answer so far can be counted as seen.
proof fn lemma_absorb(out: Option<(Seq<usize>, i64)>, hits: Seq<RayIntersectResult<i64>>, seen: Set<int>, extra: Set<int>)
    requires
        ray_among(out, hits, seen),
        forall|k: int| #[trigger] extra.contains(k) && hits[k] is Hit ==> out is Some && hits[k]->0 > out_dist(out),
    ensures
        ray_among(out, hits, seen.union(extra)),
{
    let s1 = seen.union(extra);
    match out {
        None => {
            assert forall|k: int| #[trigger] s1.contains(k) implies hits[k] is NoHit by {
                if !seen.contains(k) {
                    assert(extra.contains(k));
                }
            }
        },
        Some((list, d)) => {
            assert forall|a: int| 0 <= a < list.len() implies s1.contains((#[trigger] list[a]) as int) by {
            }
            assert forall|k: int| #[trigger] s1.contains(k) && hits[k] is Hit implies hits[k]->0 >= d && (hits[k]->0 == d
                ==> list.contains(k as usize)) by {
                if !seen.contains(k) {
                    assert(extra.contains(k));
                }
            }
        },
    }
}

/// The casts' law over the elements `[lo, hi)` of `bots` and a region holding them.
proof fn lemma_part_ok<R: RayTrait>(rt: &R, ray: Ray<i64>, region: Rect, bots: Seq<BBox<R::Inner>>, lo: int, hi: int, base_lo: int, base_hi: int, base: Rect)
    requires
        0 <= base_lo <= lo <= hi <= base_hi <= bots.len(),
        ray_ok(rt, ray, base, bots.subrange(base_lo, base_hi)),
        forall|k: int| lo <= k < hi ==> region.holds(#[trigger] bots[k].rect),
    ensures
        ray_ok(rt, ray, region, bots.subrange(lo, hi)),
{
    let whole = bots.subrange(base_lo, base_hi);
    let part = bots.subrange(lo, hi);
    assert forall|k: int| 0 <= k < part.len() implies region.holds(#[trigger] part[k].rect) by {
        assert(part[k] == bots[lo + k]);
    }
    assert forall|r: Rect, k: int|
        0 <= k < part.len() && #[trigger] r.holds(part[k].rect) && (#[trigger] rt.bot_cast(ray, &part[k])) is Hit implies rt.rect_cast(
            ray,
            r,
        ) is Hit && rt.rect_cast(ray, r)->0 <= rt.bot_cast(ray, &part[k])->0 by {
        assert(part[k] == bots[lo + k]);
        assert(whole[lo + k - base_lo] == bots[lo + k]);
        assert(r.holds(whole[lo + k - base_lo].rect));
        assert(rt.bot_cast(ray, &whole[lo + k - base_lo]) is Hit);
    }
}

/// Visits the elements `[lo, hi)`, which all lie inside `region`, unless the ray hits the region
/// no nearer than the best answer so far.
fn visit_part<R: RayTrait>(
    nodes: &[Node],
    bots: &Vec<BBox<R::Inner>>,
    sub: Option<(usize, usize, Axis)>,
    lo: usize,
    hi: usize,
    region: Rect,
    ray: Ray<i64>,
    rt: &R,
    best: &mut Option<(Vec<usize>, i64)>,
    Ghost(seen): Ghost<Set<int>>,
    Ghost(ok): Ghost<bool>,
) -> (s2: Ghost<Set<int>>)
    requires
        lo <= hi <= bots@.len(),
        ok ==> ray_ok(rt, ray, region, bots@.subrange(lo as int, hi as int)),
        ray_among(best_view(*old(best)), bot_hits(rt, ray, bots@), seen),
        forall|k: int| lo <= k < hi ==> !#[trigger] seen.contains(k),
        sub matches Some(s) ==> s.1 < usize::BITS && wf_sub(nodes@, bots@, s.0 as int, s.1 as nat, s.2, lo as int, hi as int, true),
    ensures
        ray_among(best_view(*final(best)), bot_hits(rt, ray, bots@), s2@),
        seen.subset_of(s2@),
        s2@.subset_of(seen.union(index_range(lo as int, hi as int))),
        ok ==> s2@ == seen.union(index_range(lo as int, hi as int)),
    decreases
        match sub { Some(s) => s.1 as int, None => 0 },
        1int,
{
    let ghost hits = bot_hits(rt, ray, bots@);
    let x = rt.compute_distance_to_rect(&ray, &region);
    let go = match x {
        RayIntersectResult::NoHit => false,
        RayIntersectResult::Hit(v) => match best {
            Some((_, d)) => v <= *d,
            None => true,
        },
    };
    if !go {
        proof {
            if ok {
                let part = bots@.subrange(lo as int, hi as int);
                assert forall|k: int| #[trigger] index_range(lo as int, hi as int).contains(k) && hits[k] is Hit implies best_view(
                    *best,
                ) is Some && hits[k]->0 > out_dist(best_view(*best)) by {
                    assert(part[k - lo] == bots@[k]);
                    assert(region.holds(part[k - lo].rect));
                    assert(rt.bot_cast(ray, &part[k - lo]) is Hit);
                }
                lemma_absorb(best_view(*best), hits, seen, index_range(lo as int, hi as int));
            }
        }
        return Ghost(if ok { seen.union(index_range(lo as int, hi as int)) } else { seen });
    }
    match sub {
        Some((i, r, axis)) => {
            ray_recurse(nodes, bots, i, r, axis, lo, hi, region, ray, rt, best, Ghost(seen), Ghost(ok))
        },
        None => {
            consider_range(bots, lo, hi, ray, rt, best, Ghost(seen));
            Ghost(seen.union(index_range(lo as int, hi as int)))
        },
    }
}

/// The ray cast over the subtree of node `i`, which has `r` levels, first axis `axis`, holds the
/// elements `[lo, hi)` and covers `region`.
fn ray_recurse<R: RayTrait>(
    nodes: &[Node],
    bots: &Vec<BBox<R::Inner>>,
    i: usize,
    r: usize,
    axis: Axis,
    lo: usize,
    hi: usize,
    region: Rect,
    ray: Ray<i64>,
    rt: &R,
    best: &mut Option<(Vec<usize>, i64)>,
    Ghost(seen): Ghost<Set<int>>,
    Ghost(ok): Ghost<bool>,
) -> (s2: Ghost<Set<int>>)
    requires
        wf_sub(nodes@, bots@, i as int, r as nat, axis, lo as int, hi as int, true),
        r < usize::BITS,
        ok ==> ray_ok(rt, ray, region, bots@.subrange(lo as int, hi as int)),
        ray_among(best_view(*old(best)), bot_hits(rt, ray, bots@), seen),
        forall|k: int| lo <= k < hi ==> !#[trigger] seen.contains(k),
    ensures
        ray_among(best_view(*final(best)), bot_hits(rt, ray, bots@), s2@),
        seen.subset_of(s2@),
        s2@.subset_of(seen.union(index_range(lo as int, hi as int))),
        ok || r == 1 ==> s2@ == seen.union(index_range(lo as int, hi as int)),
    decreases r, 0int,
{
    proof {
        lemma_wf_basic(nodes@, bots@, i as int, r as nat, axis, lo as int, hi as int, true);
        lemma_pow2_unfold(r as nat);
        lemma_pow2_pos((r - 1) as nat);
    }
    let n = nodes[i];
    if r == 1 {
        consider_range(bots, lo, hi, ray, rt, best, Ghost(seen));
        return Ghost(seen.union(index_range(lo as int, hi as int)));
    }
    let d = match n.div {
        Some(d) => d,
        None => {
            proof {
                assert(seen.union(index_range(lo as int, hi as int)) =~= seen);
            }
            return Ghost(seen);
        },
    };
    let rc = i + half_span(r);
    let mid = nodes[rc].start;
    let (rleft, rright) = region.subdivide(axis, d);
    let range = match n.cont {
        Some(c) => c,
        None => Range { start: d, end: d },
    };
    let rmiddle = make_rect_from_range(axis, &range, &region);
    proof {
        let whole = bots@.subrange(lo as int, hi as int);
        if ok {
        assert forall|k: int| lo <= k < hi implies region.holds(#[trigger] bots@[k].rect) by {
            assert(whole[k - lo] == bots@[k]);
        }
        assert forall|k: int| n.end <= k < mid implies rleft.holds(#[trigger] bots@[k].rect) by {
            assert(region.holds(bots@[k].rect));
            assert(hi_of(bots@[k], axis) < d);
        }
        assert forall|k: int| mid <= k < hi implies rright.holds(#[trigger] bots@[k].rect) by {
            assert(region.holds(bots@[k].rect));
            assert(lo_of(bots@[k], axis) > d);
        }
        assert forall|k: int| lo <= k < n.end implies rmiddle.holds(#[trigger] bots@[k].rect) by {
            assert(region.holds(bots@[k].rect));
        }
        lemma_part_ok(rt, ray, rleft, bots@, n.end as int, mid as int, lo as int, hi as int, region);
        lemma_part_ok(rt, ray, rright, bots@, mid as int, hi as int, lo as int, hi as int, region);
        lemma_part_ok(rt, ray, rmiddle, bots@, lo as int, n.end as int, lo as int, hi as int, region);
        }
    }
    let pa = if axis.is_xaxis() { ray.point.x } else { ray.point.y };
    let ghost s_mid = index_range(lo as int, n.end as int);
    let ghost s_left = index_range(n.end as int, mid as int);
    let ghost s_right = index_range(mid as int, hi as int);
    let left = Some((i + 1, r - 1, axis.next()));
    let right = Some((rc, r - 1, axis.next()));
    if pa < range.start {
        let g1 = visit_part(nodes, bots, left, n.end, mid, rleft, ray, rt, best, Ghost(seen), Ghost(ok));
        proof {
            assert forall|k: int| lo <= k < n.end implies !#[trigger] g1@.contains(k) by {
                assert(!seen.contains(k));
                assert(!g1@.contains(k) || seen.contains(k) || s_left.contains(k));
            }
        }
        let g2 = visit_part(nodes, bots, None, lo, n.end, rmiddle, ray, rt, best, Ghost(g1@), Ghost(ok));
        proof {
            assert forall|k: int| mid <= k < hi implies !#[trigger] g2@.contains(k) by {
                assert(!seen.contains(k));
                assert(!g2@.contains(k) || seen.contains(k) || s_left.union(s_mid).contains(k));
            }
        }
        let g3 = visit_part(nodes, bots, right, mid, hi, rright, ray, rt, best, Ghost(g2@), Ghost(ok));
        proof {
            assert(seen.union(s_left).union(s_mid).union(s_right) =~= seen.union(index_range(lo as int, hi as int)));
            assert(g3@.subset_of(seen.union(s_left).union(s_mid).union(s_right)));
            if ok {
                assert(g3@ =~= seen.union(s_left).union(s_mid).union(s_right));
            }
        }
        g3
    } else if pa > range.end {
        let g1 = visit_part(nodes, bots, right, mid, hi, rright, ray, rt, best, Ghost(seen), Ghost(ok));
        proof {
            assert forall|k: int| lo <= k < n.end implies !#[trigger] g1@.contains(k) by {
                assert(!seen.contains(k));
                assert(!g1@.contains(k) || seen.contains(k) || s_right.contains(k));
            }
        }
        let g2 = visit_part(nodes, bots, None, lo, n.end, rmiddle, ray, rt, best, Ghost(g1@), Ghost(ok));
        proof {
            assert forall|k: int| n.end <= k < mid implies !#[trigger] g2@.contains(k) by {
                assert(!seen.contains(k));
                assert(!g2@.contains(k) || seen.contains(k) || s_right.union(s_mid).contains(k));
            }
        }
        let g3 = visit_part(nodes, bots, left, n.end, mid, rleft, ray, rt, best, Ghost(g2@), Ghost(ok));
        proof {
            assert(seen.union(s_right).union(s_mid).union(s_left) =~= seen.union(index_range(lo as int, hi as int)));
            assert(g3@.subset_of(seen.union(s_right).union(s_mid).union(s_left)));
            if ok {
                assert(g3@ =~= seen.union(s_right).union(s_mid).union(s_left));
            }
        }
        g3
    } else {
        let g1 = visit_part(nodes, bots, None, lo, n.end, rmiddle, ray, rt, best, Ghost(seen), Ghost(ok));
        proof {
            assert forall|k: int| n.end <= k < mid implies !#[trigger] g1@.contains(k) by {
                assert(!seen.contains(k));
                assert(!g1@.contains(k) || seen.contains(k) || s_mid.contains(k));
            }
        }
        let g2 = visit_part(nodes, bots, left, n.end, mid, rleft, ray, rt, best, Ghost(g1@), Ghost(ok));
        proof {
            assert forall|k: int| mid <= k < hi implies !#[trigger] g2@.contains(k) by {
                assert(!seen.contains(k));
                assert(!g2@.contains(k) || seen.contains(k) || s_mid.union(s_left).contains(k));
            }
        }
        let g3 = visit_part(nodes, bots, right, mid, hi, rright, ray, rt, best, Ghost(g2@), Ghost(ok));
        proof {
            assert(seen.union(s_mid).union(s_left).union(s_right) =~= seen.union(index_range(lo as int, hi as int)));
            assert(g3@.subset_of(seen.union(s_mid).union(s_left).union(s_right)));
            if ok {
                assert(g3@ =~= seen.union(s_mid).union(s_left).union(s_right));
            }
        }
        g3
    }
}

/// `out` is no hit, or a non-empty list of distinct elements that the ray hits at distance `d`,
/// element `k` being hit as `hits[k]` says.
pub open spec fn ray_found(out: Option<(Seq<usize>, i64)>, hits: Seq<RayIntersectResult<i64>>) -> bool {
    out matches Some((list, d)) ==> {
        &&& list.len() > 0
        &&& forall|a: int| 0 <= a < list.len() ==> (#[trigger] list[a]) < hits.len() && hits[list[a] as int]
            == RayIntersectResult::Hit(d)
        &&& forall|a: int, b: int| 0 <= a < b < list.len() ==> #[trigger] list[a] != #[trigger] list[b]
    }
}

/// The elements of the tree hit first by the ray, with indices into `get_bots()`; the parts of
/// the tree whose region the ray does not hit, or hits no nearer than the best answer so far, are
/// not visited. The answer is exact when the casts keep their law over the elements, all inside
/// `rect` (`ray_ok`), and whenever the tree has a single level, as every element is then cast;
/// otherwise it is still no hit, or elements hit at one distance.
pub fn raycast_mut<R: RayTrait>(tree: &DinoTree<R::Inner>, rect: Rect, ray: Ray<i64>, rt: &R) -> (r: RayCastResult)
    ensures
        ray_found(r.as_option(), bot_hits(rt, ray, tree.elems())),
        ray_ok(rt, ray, rect, tree.elems()) || tree.levels() == 1 ==> ray_answer(r.as_option(), bot_hits(rt, ray, tree.elems())),
{
    let (nodes, bots, axis, height) = tree.parts();
    let mut best: Option<(Vec<usize>, i64)> = None;
    let ghost ok = ray_ok(rt, ray, rect, bots@);
    proof {
        assert(Set::<int>::empty().union(index_range(0, bots@.len() as int)) =~= index_range(0, bots@.len() as int));
        assert(bots@.subrange(0, bots@.len() as int) =~= bots@);
    }
    let _ = ray_recurse(nodes, bots, 0, height, axis, 0, bots.len(), rect, ray, rt, &mut best, Ghost(Set::<int>::empty()), Ghost(ok));
    match best {
        Some((a, b)) => RayCastResult::Hit(a, b),
        None => RayCastResult::NoHit,
    }
}

impl<T> DinoTree<T> {
    /// The elements first hit by the ray, with the distance at which it hits them; exact as
    /// `raycast_mut` says.
    pub fn raycast_mut<R: RayTrait<Inner = T>>(&self, rect: Rect, ray: Ray<i64>, rt: &R) -> (r: RayCastResult)
        ensures
            ray_found(r.as_option(), bot_hits(rt, ray, self.elems())),
            ray_ok(rt, ray, rect, self.elems()) || self.levels() == 1 ==> ray_answer(r.as_option(), bot_hits(rt, ray, self.elems())),
    {
        raycast_mut(self, rect, ray, rt)
    }
}

} // verus!
