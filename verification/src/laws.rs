//! Properties that relate the operations of the library to each other: the tree answers every
//! query as checking each element would, and the answers of different queries fit together.
use vstd::prelude::*;
use crate::geom::Rect;
use crate::bbox::{BBox, valid_rect};
use crate::pairs::{pair_found, same_pair, no_dup_from};
use crate::colfind::colliding_pairs;
use crate::rect::exactly;
use crate::knearest::{UnitMut, nearest, has_index, index_range, mags, lemma_mags};
use crate::raycast::{RayIntersectResult, ray_answer, out_dist, out_list};

verus! {

/// Any two lists of colliding pairs of the same elements name the same pairs: the pairs the tree
/// finds are exactly those that checking every pair of its elements finds.
pub proof fn lemma_colliding_pairs_agree<T>(bots: Seq<BBox<T>>, a: Seq<(usize, usize)>, b: Seq<(usize, usize)>)
    requires
        colliding_pairs(a, bots),
        colliding_pairs(b, bots),
    ensures
        forall|i: int, j: int| pair_found(a, i, j) <==> pair_found(b, i, j),
{
    assert forall|i: int, j: int| pair_found(a, i, j) implies pair_found(b, i, j) by {
        lemma_found_in_other(bots, a, b, i, j);
    }
    assert forall|i: int, j: int| pair_found(b, i, j) implies pair_found(a, i, j) by {
        lemma_found_in_other(bots, b, a, i, j);
    }
}

proof fn lemma_found_in_other<T>(bots: Seq<BBox<T>>, a: Seq<(usize, usize)>, b: Seq<(usize, usize)>, i: int, j: int)
    requires
        colliding_pairs(a, bots),
        colliding_pairs(b, bots),
        pair_found(a, i, j),
    ensures
        pair_found(b, i, j),
{
    let k = choose|k: int|
        0 <= k < a.len() && ((#[trigger] a[k]).0 == i && a[k].1 == j || a[k].0 == j && a[k].1 == i);
    let p = a[k];
    assert(p.0 < bots.len() && p.1 < bots.len() && p.0 != p.1);
    assert(bots[p.0 as int].rect.meets(bots[p.1 as int].rect));
    if p.0 < p.1 {
        assert(pair_found(b, p.0 as int, p.1 as int));
    } else {
        assert(bots[p.1 as int].rect.meets(bots[p.0 as int].rect));
        assert(pair_found(b, p.1 as int, p.0 as int));
    }
    let m = choose|m: int|
        0 <= m < b.len() && ((#[trigger] b[m]).0 == p.0 && b[m].1 == p.1 || b[m].0 == p.1 && b[m].1
            == p.0);
    assert(b[m].0 == i && b[m].1 == j || b[m].0 == j && b[m].1 == i);
}

/// Two strictly increasing lists with the same members are equal.
proof fn lemma_increasing_unique(a: Seq<usize>, b: Seq<usize>)
    requires
        forall|x: int, y: int| 0 <= x < y < a.len() ==> a[x] < a[y],
        forall|x: int, y: int| 0 <= x < y < b.len() ==> b[x] < b[y],
        forall|v: usize| a.contains(v) <==> b.contains(v),
    ensures
        a == b,
    decreases a.len(),
{
    if a.len() == 0 {
        if b.len() > 0 {
            assert(b.contains(b[0]));
        }
        assert(a =~= b);
    } else {
        assert(a.contains(a[0]));
        assert(b.len() > 0);
        assert(b.contains(b[0]));
        let xa = choose|x: int| 0 <= x < b.len() && b[x] == a[0];
        let xb = choose|x: int| 0 <= x < a.len() && a[x] == b[0];
        assert(a[0] == b[0]) by {
            if xa > 0 {
                assert(b[0] < b[xa]);
            }
            if xb > 0 {
                assert(a[0] < a[xb]);
            }
        }
        let a1 = a.subrange(1, a.len() as int);
        let b1 = b.subrange(1, b.len() as int);
        assert forall|v: usize| a1.contains(v) implies b1.contains(v) by {
            let x = choose|x: int| 0 <= x < a1.len() && a1[x] == v;
            assert(a[x + 1] == v);
            assert(a.contains(v));
            let y = choose|y: int| 0 <= y < b.len() && b[y] == v;
            assert(a[0] < a[x + 1]);
            if y == 0 {
                assert(false);
            }
            assert(b1[y - 1] == v);
        }
        assert forall|v: usize| b1.contains(v) implies a1.contains(v) by {
            let x = choose|x: int| 0 <= x < b1.len() && b1[x] == v;
            assert(b[x + 1] == v);
            assert(b.contains(v));
            let y = choose|y: int| 0 <= y < a.len() && a[y] == v;
            assert(b[0] < b[x + 1]);
            if y == 0 {
                assert(false);
            }
            assert(a1[y - 1] == v);
        }
        lemma_increasing_unique(a1, b1);
        assert(a =~= seq![a[0]] + a1);
        assert(b =~= seq![b[0]] + b1);
    }
}

/// A query's answer is determined by the elements and the condition: the tree's rectangle queries
/// return the very list that checking each element returns.
pub proof fn lemma_exactly_unique<T>(bots: Seq<BBox<T>>, pred: spec_fn(BBox<T>) -> bool, a: Seq<usize>, b: Seq<usize>)
    requires
        exactly(a, bots, pred),
        exactly(b, bots, pred),
    ensures
        a == b,
{
    assert forall|v: usize| a.contains(v) implies b.contains(v) by {
        let x = choose|x: int| 0 <= x < a.len() && a[x] == v;
        assert(pred(bots[a[x] as int]));
        assert(pred(bots[v as int]));
    }
    assert forall|v: usize| b.contains(v) implies a.contains(v) by {
        let x = choose|x: int| 0 <= x < b.len() && b[x] == v;
        assert(pred(bots[b[x] as int]));
        assert(pred(bots[v as int]));
    }
    lemma_increasing_unique(a, b);
}

/// Every element is either inside the rectangle or not inside it: the answers of
/// `for_all_in_rect` and `for_all_not_in_rect_mut` split the elements in two.
pub proof fn lemma_in_and_not_in_split<T>(bots: Seq<BBox<T>>, rect: Rect, inside: Seq<usize>, outside: Seq<usize>)
    requires
        exactly(inside, bots, |b: BBox<T>| rect.holds(b.rect)),
        exactly(outside, bots, |b: BBox<T>| !rect.holds(b.rect)),
    ensures
        forall|v: usize| v < bots.len() ==> (#[trigger] inside.contains(v) != outside.contains(v)),
        forall|v: usize| inside.contains(v) || outside.contains(v) ==> v < bots.len(),
{
    assert forall|v: usize| v < bots.len() implies (#[trigger] inside.contains(v) != outside.contains(v)) by {
        let k = v as int;
        if inside.contains(k as usize) {
            let x = choose|x: int| 0 <= x < inside.len() && inside[x] == k as usize;
            assert(rect.holds(bots[inside[x] as int].rect));
            if outside.contains(k as usize) {
                let y = choose|y: int| 0 <= y < outside.len() && outside[y] == k as usize;
                assert(!rect.holds(bots[outside[y] as int].rect));
            }
        } else {
            let p = |b: BBox<T>| rect.holds(b.rect);
            let q = |b: BBox<T>| !rect.holds(b.rect);
            if p(bots[k]) {
                assert(inside.contains(k as usize));
            } else {
                assert(q(bots[k]));
            }
        }
    }
    assert forall|v: usize| inside.contains(v) || outside.contains(v) implies v < bots.len() by {
        if inside.contains(v) {
            let x = choose|x: int| 0 <= x < inside.len() && inside[x] == v;
            assert(inside[x] < bots.len());
        } else {
            let x = choose|x: int| 0 <= x < outside.len() && outside[x] == v;
            assert(outside[x] < bots.len());
        }
    }
}

/// A well formed element that lies inside the rectangle also intersects it: the answer of
/// `for_all_intersect_rect` holds that of `for_all_in_rect`.
pub proof fn lemma_inside_meets<T>(bots: Seq<BBox<T>>, rect: Rect, inside: Seq<usize>, touching: Seq<usize>)
    requires
        forall|k: int| 0 <= k < bots.len() ==> #[trigger] valid_rect(bots[k].rect),
        exactly(inside, bots, |b: BBox<T>| rect.holds(b.rect)),
        exactly(touching, bots, |b: BBox<T>| rect.meets(b.rect)),
    ensures
        forall|v: usize| inside.contains(v) ==> touching.contains(v),
{
    assert forall|v: usize| inside.contains(v) implies touching.contains(v) by {
        let x = choose|x: int| 0 <= x < inside.len() && inside[x] == v;
        let b = bots[v as int];
        assert(rect.holds(b.rect));
        assert(valid_rect(b.rect));
        let q = |b: BBox<T>| rect.meets(b.rect);
        assert(q(b));
    }
}

/// Two rectangles that do not intersect hold no common well formed element: the element lists
/// that one multi-rectangle session hands out are disjoint.
pub proof fn lemma_apart_rects_disjoint<T>(bots: Seq<BBox<T>>, r1: Rect, r2: Rect, a: Seq<usize>, b: Seq<usize>)
    requires
        forall|k: int| 0 <= k < bots.len() ==> #[trigger] valid_rect(bots[k].rect),
        !r1.meets(r2),
        exactly(a, bots, |e: BBox<T>| r1.holds(e.rect)),
        exactly(b, bots, |e: BBox<T>| r2.holds(e.rect)),
    ensures
        forall|v: usize| a.contains(v) ==> !b.contains(v),
{
    assert forall|v: usize| a.contains(v) implies !b.contains(v) by {
        let x = choose|x: int| 0 <= x < a.len() && a[x] == v;
        let e = bots[v as int];
        assert(r1.holds(e.rect));
        assert(valid_rect(e.rect));
        if b.contains(v) {
            let y = choose|y: int| 0 <= y < b.len() && b[y] == v;
            assert(r2.holds(e.rect));
            assert(r1.meets(r2));
        }
    }
}

/// Distinct integers that all lie in `[0, m)` are at most `m`.
proof fn lemma_pigeonhole(s: Seq<int>, m: int)
    requires
        0 <= m,
        forall|a: int| 0 <= a < s.len() ==> 0 <= #[trigger] s[a] < m,
        forall|a: int, b: int| 0 <= a < b < s.len() ==> #[trigger] s[a] != #[trigger] s[b],
    ensures
        s.len() <= m,
{
    assert(s.no_duplicates());
    s.unique_seq_to_set();
    vstd::set_lib::lemma_int_range(0, m);
    assert(s.to_set().subset_of(vstd::set_lib::set_int_range(0, m)));
    vstd::set_lib::lemma_len_subset(s.to_set(), vstd::set_lib::set_int_range(0, m));
}

/// The position of element `k` in `r`.
spec fn pos_of(r: Seq<UnitMut>, k: int) -> int {
    choose|a: int| 0 <= a < r.len() && (#[trigger] r[a]).index == k
}

/// An element that one answer lists, the other lists too.
proof fn lemma_listed_in_both(r1: Seq<UnitMut>, r2: Seq<UnitMut>, ds: Seq<i64>, num: nat, k: int)
    requires
        nearest(r1, ds, num),
        nearest(r2, ds, num),
        has_index(r1, k),
    ensures
        has_index(r2, k),
{
    if !has_index(r2, k) {
        let pk = pos_of(r1, k);
        let dk = r1[pk].mag;
        lemma_mags(r1);
        lemma_mags(r2);
        assert(index_range(0, ds.len() as int).contains(k));
        assert(mags(r2).len() == num);
        assert(mags(r1).contains(dk));
        // `r2` is not empty, and `k` is farther than all of it
        assert(r2.len() > 0);
        assert(r2.last() == r2[r2.len() - 1]);
        assert(r1.last() == r1[r1.len() - 1]);
        assert(dk == ds[k]);
        assert(dk > r2.last().mag);
        // every distance of `r2` is one of `r1`, and `dk` is one more
        assert forall|m: i64| #[trigger] mags(r2).insert(dk).contains(m) implies mags(r1).contains(m) by {
            if m != dk {
                let a = choose|a: int| 0 <= a < r2.len() && (#[trigger] r2[a]).mag == m;
                let j = r2[a].index as int;
                assert(index_range(0, ds.len() as int).contains(j));
                assert(r2[a].mag <= r2[r2.len() - 1].mag);
                if !has_index(r1, j) {
                    assert(r1[pk].mag <= r1[r1.len() - 1].mag);
                    assert(false);
                }
                let q = pos_of(r1, j);
                assert(r1[q].mag == ds[j]);
            }
        }
        assert(!mags(r2).contains(dk)) by {
            if mags(r2).contains(dk) {
                let a = choose|a: int| 0 <= a < r2.len() && (#[trigger] r2[a]).mag == dk;
                assert(r2[a].mag <= r2[r2.len() - 1].mag);
            }
        }
        vstd::set::axiom_set_insert_len(mags(r2), dk);
        vstd::set_lib::lemma_len_subset(mags(r2).insert(dk), mags(r1));
    }
}

/// An answer with fewer entries than another cannot list the same elements.
proof fn lemma_len_le(r1: Seq<UnitMut>, r2: Seq<UnitMut>)
    requires
        forall|a: int, b: int| 0 <= a < b < r1.len() ==> (#[trigger] r1[a]).index != (#[trigger] r1[b]).index,
        forall|k: int| has_index(r1, k) ==> #[trigger] has_index(r2, k),
    ensures
        r1.len() <= r2.len(),
{
    let s = Seq::new(r1.len(), |a: int| pos_of(r2, r1[a].index as int));
    assert forall|a: int| 0 <= a < s.len() implies 0 <= #[trigger] s[a] < r2.len() && r2[s[a]].index == r1[a].index by {
        assert(has_index(r1, r1[a].index as int));
        assert(has_index(r2, r1[a].index as int));
    }
    assert forall|a: int, b: int| 0 <= a < b < s.len() implies #[trigger] s[a] != #[trigger] s[b] by {
        assert(r2[s[a]].index == r1[a].index);
        assert(r2[s[b]].index == r1[b].index);
    }
    lemma_pigeonhole(s, r2.len() as int);
}

/// The entry at a position of one answer is as far as the entry at that position of the other.
proof fn lemma_mag_le(r1: Seq<UnitMut>, r2: Seq<UnitMut>, ds: Seq<i64>, num: nat, q: int)
    requires
        nearest(r1, ds, num),
        nearest(r2, ds, num),
        forall|k: int| has_index(r1, k) ==> #[trigger] has_index(r2, k),
        0 <= q < r1.len(),
        q < r2.len(),
    ensures
        r2[q].mag <= r1[q].mag,
{
    if r1[q].mag < r2[q].mag {
        // the entries of `r1` up to `q` all sit before `q` in `r2`
        let s = Seq::new((q + 1) as nat, |a: int| pos_of(r2, r1[a].index as int));
        assert forall|a: int| 0 <= a < s.len() implies 0 <= #[trigger] s[a] < q && r2[s[a]].index == r1[a].index by {
            assert(has_index(r1, r1[a].index as int));
            assert(has_index(r2, r1[a].index as int));
            let b = s[a];
            assert(r2[b].mag == ds[r1[a].index as int]);
            assert(r1[a].mag <= r1[q].mag);
            if b >= q {
                assert(r2[q].mag <= r2[b].mag);
            }
        }
        assert forall|a: int, b: int| 0 <= a < b < s.len() implies #[trigger] s[a] != #[trigger] s[b] by {
            assert(r2[s[a]].index == r1[a].index);
            assert(r2[s[b]].index == r1[b].index);
        }
        lemma_pigeonhole(s, q);
    }
}

/// The answer for the k nearest distances is determined by the elements' distances and k: the
/// tree's answer and the answer found by checking every element list the same elements, with the
/// same distance at every position. Only the order among equally distant elements may differ.
pub proof fn lemma_nearest_agree(r1: Seq<UnitMut>, r2: Seq<UnitMut>, ds: Seq<i64>, num: nat)
    requires
        nearest(r1, ds, num),
        nearest(r2, ds, num),
    ensures
        forall|k: int| has_index(r1, k) <==> #[trigger] has_index(r2, k),
        r1.len() == r2.len(),
        forall|a: int| 0 <= a < r1.len() ==> #[trigger] r1[a].mag == r2[a].mag,
{
    assert forall|k: int| has_index(r1, k) implies #[trigger] has_index(r2, k) by {
        lemma_listed_in_both(r1, r2, ds, num, k);
    }
    assert forall|k: int| has_index(r2, k) implies #[trigger] has_index(r1, k) by {
        lemma_listed_in_both(r2, r1, ds, num, k);
    }
    lemma_len_le(r1, r2);
    lemma_len_le(r2, r1);
    assert forall|a: int| 0 <= a < r1.len() implies #[trigger] r1[a].mag == r2[a].mag by {
        lemma_mag_le(r1, r2, ds, num, a);
        lemma_mag_le(r2, r1, ds, num, a);
    }
}

/// The ray cast's answer is determined by where the ray hits each element: the tree's answer and
/// the answer found by checking every element agree on whether anything is hit, on the distance,
/// and on the elements hit at it.
pub proof fn lemma_ray_agree(o1: Option<(Seq<usize>, i64)>, o2: Option<(Seq<usize>, i64)>, hits: Seq<RayIntersectResult<i64>>)
    requires
        ray_answer(o1, hits),
        ray_answer(o2, hits),
    ensures
        o1 is None <==> o2 is None,
        o1 is Some ==> out_dist(o1) == out_dist(o2),
        o1 is Some ==> forall|k: usize| out_list(o1).contains(k) <==> out_list(o2).contains(k),
{
    lemma_ray_one_way(o1, o2, hits);
    lemma_ray_one_way(o2, o1, hits);
}

proof fn lemma_ray_one_way(o1: Option<(Seq<usize>, i64)>, o2: Option<(Seq<usize>, i64)>, hits: Seq<RayIntersectResult<i64>>)
    requires
        ray_answer(o1, hits),
        ray_answer(o2, hits),
    ensures
        o1 is Some ==> o2 is Some && out_dist(o2) <= out_dist(o1),
        o1 is Some && o2 is Some && out_dist(o1) == out_dist(o2) ==> forall|k: usize| out_list(o1).contains(k) ==> out_list(o2).contains(k),
{
    let all = crate::knearest::index_range(0, hits.len() as int);
    if let Some((l1, d1)) = o1 {
        let k = l1[0];
        assert(all.contains(k as int));
        assert(hits[k as int] == RayIntersectResult::Hit(d1));
        if let Some((l2, d2)) = o2 {
            if d1 == d2 {
                assert forall|j: usize| l1.contains(j) implies l2.contains(j) by {
                    let a = choose|a: int| 0 <= a < l1.len() && l1[a] == j;
                    assert(all.contains(j as int));
                    assert(hits[j as int] == RayIntersectResult::Hit(d1));
                }
            }
        }
    }
}

/// The position in `b` of an entry naming the pair `x`.
spec fn pos_of_pair(b: Seq<(usize, usize)>, x: (usize, usize)) -> int {
    choose|m: int| 0 <= m < b.len() && ((#[trigger] b[m]).0 == x.0 && b[m].1 == x.1 || b[m].0 == x.1 && b[m].1 == x.0)
}

proof fn lemma_len_le_pairs<T>(bots: Seq<BBox<T>>, a: Seq<(usize, usize)>, b: Seq<(usize, usize)>)
    requires
        colliding_pairs(a, bots),
        colliding_pairs(b, bots),
        no_dup_from(a, 0),
    ensures
        a.len() <= b.len(),
{
    lemma_colliding_pairs_agree(bots, a, b);
    let s = Seq::new(a.len(), |k: int| pos_of_pair(b, a[k]));
    assert forall|k: int| 0 <= k < s.len() implies 0 <= #[trigger] s[k] < b.len() && same_pair(b[s[k]], a[k]) by {
        assert(pair_found(a, a[k].0 as int, a[k].1 as int));
        assert(pair_found(b, a[k].0 as int, a[k].1 as int));
    }
    assert forall|x: int, y: int| 0 <= x < y < s.len() implies #[trigger] s[x] != #[trigger] s[y] by {
        assert(same_pair(b[s[x]], a[x]));
        assert(same_pair(b[s[y]], a[y]));
        assert(!same_pair(a[x], a[y]));
    }
    lemma_pigeonhole(s, b.len() as int);
}

/// Two lists of the colliding pairs of the same elements, each naming every pair once, have the
/// same length: the tree reports exactly the pairs that checking every pair reports, as many
/// times, namely once each.
pub proof fn lemma_colliding_pairs_same_size<T>(bots: Seq<BBox<T>>, a: Seq<(usize, usize)>, b: Seq<(usize, usize)>)
    requires
        colliding_pairs(a, bots),
        colliding_pairs(b, bots),
        no_dup_from(a, 0),
        no_dup_from(b, 0),
    ensures
        a.len() == b.len(),
        forall|i: int, j: int| pair_found(a, i, j) <==> pair_found(b, i, j),
{
    lemma_colliding_pairs_agree(bots, a, b);
    lemma_len_le_pairs(bots, a, b);
    lemma_len_le_pairs(bots, b, a);
}

} // verus!
