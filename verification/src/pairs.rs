//! Lists of reported pairs of element indices, and what they say about a list of elements.
use vstd::prelude::*;
use crate::bbox::BBox;

verus! {

/// The unordered pair `{i, j}` occurs in `out`.
pub open spec fn pair_found(out: Seq<(usize, usize)>, i: int, j: int) -> bool {
    exists|k: int|
        0 <= k < out.len() && ((#[trigger] out[k]).0 == i && out[k].1 == j || out[k].0 == j
            && out[k].1 == i)
}

/// `a` is a prefix of `b`.
pub open spec fn extends<A>(a: Seq<A>, b: Seq<A>) -> bool {
    a.len() <= b.len() && forall|k: int| 0 <= k < a.len() ==> #[trigger] b[k] == a[k]
}

/// Every pair of `out` from position `from` on names two distinct elements of `bots` whose
/// rectangles intersect.
pub open spec fn sound_from<T>(out: Seq<(usize, usize)>, bots: Seq<BBox<T>>, from: int) -> bool {
    forall|k: int|
        from <= k < out.len() ==> {
            let p = #[trigger] out[k];
            &&& p.0 < bots.len()
            &&& p.1 < bots.len()
            &&& p.0 != p.1
            &&& bots[p.0 as int].rect.meets(bots[p.1 as int].rect)
        }
}

/// A pair found in a prefix is found in the whole list.
pub proof fn lemma_found_extends(a: Seq<(usize, usize)>, b: Seq<(usize, usize)>, i: int, j: int)
    requires
        extends(a, b),
        pair_found(a, i, j),
    ensures
        pair_found(b, i, j),
{
    let k = choose|k: int|
        0 <= k < a.len() && ((#[trigger] a[k]).0 == i && a[k].1 == j || a[k].0 == j && a[k].1
            == i);
    assert(b[k] == a[k]);
}

/// The last pair of a list is found in it.
pub proof fn lemma_found_last(b: Seq<(usize, usize)>, i: int, j: int)
    requires
        b.len() > 0,
        b.last().0 == i && b.last().1 == j,
    ensures
        pair_found(b, i, j),
        pair_found(b, j, i),
{
    assert(b[b.len() - 1] == b.last());
}

/// Being a prefix is transitive.
pub proof fn lemma_extends_trans<A>(a: Seq<A>, b: Seq<A>, c: Seq<A>)
    requires
        extends(a, b),
        extends(b, c),
    ensures
        extends(a, c),
{
    assert forall|k: int| 0 <= k < a.len() implies #[trigger] c[k] == a[k] by {
        assert(c[k] == b[k]);
    }
}

/// Soundness of the pairs from position `from` on carries over to a longer list whose new pairs are
/// sound too.
pub proof fn lemma_sound_extends<T>(
    a: Seq<(usize, usize)>,
    b: Seq<(usize, usize)>,
    bots: Seq<BBox<T>>,
    from: int,
)
    requires
        extends(a, b),
        sound_from(a, bots, from),
        sound_from(b, bots, a.len() as int),
        0 <= from <= a.len(),
    ensures
        sound_from(b, bots, from),
{
    assert forall|k: int| from <= k < b.len() implies {
        let p = #[trigger] b[k];
        &&& p.0 < bots.len()
        &&& p.1 < bots.len()
        &&& p.0 != p.1
        &&& bots[p.0 as int].rect.meets(bots[p.1 as int].rect)
    } by {
        if k < a.len() {
            assert(b[k] == a[k]);
        }
    }
}

/// The two entries name the same unordered pair.
pub open spec fn same_pair(x: (usize, usize), y: (usize, usize)) -> bool {
    (x.0 == y.0 && x.1 == y.1) || (x.0 == y.1 && x.1 == y.0)
}

/// From position `from` on, no unordered pair occurs twice in `out`.
pub open spec fn no_dup_from(out: Seq<(usize, usize)>, from: int) -> bool {
    forall|a: int, b: int| from <= a < b < out.len() ==> !same_pair(#[trigger] out[a], #[trigger] out[b])
}

/// Appending a pair that does not occur from `from` on keeps the pairs from `from` on distinct.
pub proof fn lemma_no_dup_push(out: Seq<(usize, usize)>, x: (usize, usize), from: int)
    requires
        0 <= from,
        no_dup_from(out, from),
        forall|a: int| from <= a < out.len() ==> !same_pair(#[trigger] out[a], x),
    ensures
        no_dup_from(out.push(x), from),
{
    let o = out.push(x);
    assert forall|a: int, b: int| from <= a < b < o.len() implies !same_pair(#[trigger] o[a], #[trigger] o[b]) by {
        assert(o[a] == out[a]);
        if b < out.len() {
            assert(o[b] == out[b]);
        }
    }
}

/// Two stretches of distinct pairs, one after the other, with no pair in common, make one.
pub proof fn lemma_no_dup_join(a: Seq<(usize, usize)>, b: Seq<(usize, usize)>, from: int)
    requires
        extends(a, b),
        0 <= from <= a.len(),
        no_dup_from(a, from),
        no_dup_from(b, a.len() as int),
        forall|x: int, y: int| from <= x < a.len() <= y < b.len() ==> !same_pair(#[trigger] b[x], #[trigger] b[y]),
    ensures
        no_dup_from(b, from),
{
    assert forall|x: int, y: int| from <= x < y < b.len() implies !same_pair(#[trigger] b[x], #[trigger] b[y]) by {
        if y < a.len() {
            assert(b[x] == a[x] && b[y] == a[y]);
        }
    }
}

/// From entry `from` on, every pair names the element later in the order first.
pub open spec fn later_first(out: Seq<(usize, usize)>, from: int) -> bool {
    forall|k: int| from <= k < out.len() ==> (#[trigger] out[k]).1 < out[k].0
}

/// Two stretches, one after the other, that each name the later element first, make one.
pub proof fn lemma_later_first_join(a: Seq<(usize, usize)>, b: Seq<(usize, usize)>, from: int)
    requires
        0 <= from,
        later_first(a, from),
        extends(a, b),
        later_first(b, a.len() as int),
    ensures
        later_first(b, from),
{
    assert forall|k: int| from <= k < b.len() implies (#[trigger] b[k]).1 < b[k].0 by {
        if k < a.len() {
            assert(b[k] == a[k]);
        }
    }
}

/// One side of the pair is in `[alo, ahi)` and the other in `[blo, bhi)`.
pub open spec fn entry_in(x: (usize, usize), alo: int, ahi: int, blo: int, bhi: int) -> bool {
    (alo <= x.0 < ahi && blo <= x.1 < bhi) || (alo <= x.1 < ahi && blo <= x.0 < bhi)
}

/// Two stretches of distinct pairs, one after the other, whose pairs fall in classes that share
/// no pair, make one stretch of distinct pairs.
pub proof fn lemma_no_dup_classes(
    a: Seq<(usize, usize)>,
    b: Seq<(usize, usize)>,
    from: int,
    c1: spec_fn((usize, usize)) -> bool,
    c2: spec_fn((usize, usize)) -> bool,
)
    requires
        extends(a, b),
        0 <= from <= a.len(),
        no_dup_from(a, from),
        no_dup_from(b, a.len() as int),
        forall|k: int| from <= k < a.len() ==> c1(#[trigger] b[k]),
        forall|k: int| a.len() <= k < b.len() ==> c2(#[trigger] b[k]),
        forall|x: (usize, usize), y: (usize, usize)| c1(x) && c2(y) ==> !same_pair(x, y),
    ensures
        no_dup_from(b, from),
{
    assert forall|x: int, y: int| from <= x < a.len() <= y < b.len() implies !same_pair(#[trigger] b[x], #[trigger] b[y]) by {
        assert(c1(b[x]));
        assert(c2(b[y]));
    }
    lemma_no_dup_join(a, b, from);
}

} // verus!
