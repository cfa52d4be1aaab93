//! Rearrangements of a part of a sequence.
use vstd::prelude::*;
use vstd::seq_lib::{lemma_multiset_commutative, to_multiset_contains, to_multiset_update};

verus! {

/// `b` is `a` with the elements of indices `[lo, hi)` rearranged, and every other element in place.
pub open spec fn perm_on<A>(a: Seq<A>, b: Seq<A>, lo: int, hi: int) -> bool {
    &&& 0 <= lo <= hi <= a.len()
    &&& a.len() == b.len()
    &&& forall|k: int| 0 <= k < a.len() && !(lo <= k < hi) ==> #[trigger] b[k] == a[k]
    &&& a.subrange(lo, hi).to_multiset() == b.subrange(lo, hi).to_multiset()
}

/// `perm_on` over bounds given as indices.
pub open spec fn perm_between<A>(a: Seq<A>, b: Seq<A>, lo: usize, hi: usize) -> bool {
    perm_on(a, b, lo as int, hi as int)
}

/// A sequence is a rearrangement of itself.
pub proof fn lemma_perm_refl<A>(a: Seq<A>, lo: int, hi: int)
    requires
        0 <= lo <= hi <= a.len(),
    ensures
        perm_on(a, a, lo, hi),
{
}

/// Rearranging twice is rearranging.
pub proof fn lemma_perm_trans<A>(a: Seq<A>, b: Seq<A>, c: Seq<A>, lo: int, hi: int)
    requires
        perm_on(a, b, lo, hi),
        perm_on(b, c, lo, hi),
    ensures
        perm_on(a, c, lo, hi),
{
}

proof fn lemma_split3<A>(a: Seq<A>, lo: int, x: int, y: int, hi: int)
    requires
        0 <= lo <= x <= y <= hi <= a.len(),
    ensures
        a.subrange(lo, hi).to_multiset() == a.subrange(lo, x).to_multiset().add(
            a.subrange(x, y).to_multiset(),
        ).add(a.subrange(y, hi).to_multiset()),
{
    let p = a.subrange(lo, x);
    let q = a.subrange(x, y);
    let r = a.subrange(y, hi);
    assert(a.subrange(lo, hi) =~= (p + q) + r);
    lemma_multiset_commutative(p + q, r);
    lemma_multiset_commutative(p, q);
}

/// Rearranging a part of a range rearranges the range.
pub proof fn lemma_perm_widen<A>(a: Seq<A>, b: Seq<A>, lo: int, x: int, y: int, hi: int)
    requires
        perm_on(a, b, x, y),
        0 <= lo <= x <= y <= hi <= a.len(),
    ensures
        perm_on(a, b, lo, hi),
{
    lemma_split3(a, lo, x, y, hi);
    lemma_split3(b, lo, x, y, hi);
    assert(a.subrange(lo, x) =~= b.subrange(lo, x));
    assert(a.subrange(y, hi) =~= b.subrange(y, hi));
}

/// A property of every element of a range survives a rearrangement of the range.
pub proof fn lemma_perm_forall<A>(a: Seq<A>, b: Seq<A>, lo: int, hi: int, p: spec_fn(A) -> bool)
    requires
        perm_on(a, b, lo, hi),
        forall|k: int| lo <= k < hi ==> #[trigger] p(a[k]),
    ensures
        forall|k: int| lo <= k < hi ==> #[trigger] p(b[k]),
{
    assert forall|k: int| lo <= k < hi implies #[trigger] p(b[k]) by {
        let sb = b.subrange(lo, hi);
        let sa = a.subrange(lo, hi);
        assert(sb[k - lo] == b[k]);
        assert(sb.contains(b[k]));
        to_multiset_contains(sb, b[k]);
        to_multiset_contains(sa, b[k]);
        let j = choose|j: int| 0 <= j < sa.len() && sa[j] == b[k];
        assert(sa[j] == a[lo + j]);
    }
}

/// An element of a range with some property is still in the range after a rearrangement.
pub proof fn lemma_perm_exists<A>(a: Seq<A>, b: Seq<A>, lo: int, hi: int, p: spec_fn(A) -> bool)
    requires
        perm_on(a, b, lo, hi),
        exists|k: int| lo <= k < hi && #[trigger] p(a[k]),
    ensures
        exists|k: int| lo <= k < hi && #[trigger] p(b[k]),
{
    if forall|k: int| lo <= k < hi ==> !#[trigger] p(b[k]) {
        let q = |x: A| !p(x);
        assert forall|k: int| lo <= k < hi implies #[trigger] q(b[k]) by {}
        lemma_perm_forall(b, a, lo, hi, q);
        let w = choose|k: int| lo <= k < hi && #[trigger] p(a[k]);
        assert(q(a[w]));
    }
}

/// Swapping two elements of a range rearranges the range.
pub proof fn lemma_swap_perm<A>(a: Seq<A>, i: int, j: int, lo: int, hi: int)
    requires
        lo <= i < hi,
        lo <= j < hi,
        0 <= lo <= hi <= a.len(),
    ensures
        perm_on(a, a.update(i, a[j]).update(j, a[i]), lo, hi),
{
    let b = a.update(i, a[j]).update(j, a[i]);
    let sa = a.subrange(lo, hi);
    let s1 = sa.update(i - lo, a[j]);
    let s2 = s1.update(j - lo, a[i]);
    assert(b.subrange(lo, hi) =~= s2);
    to_multiset_update(sa, i - lo, a[j]);
    to_multiset_update(s1, j - lo, a[i]);
    broadcast use vstd::multiset::group_multiset_axioms;
    if i == j {
        assert(s2 =~= sa);
    } else {
        assert(s1[j - lo] == a[j]);
        assert(sa[i - lo] == a[i]);
        assert(sa.contains(a[i]));
        to_multiset_contains(sa, a[i]);
        let m = sa.to_multiset();
        let m1 = m.insert(a[j]).remove(a[i]);
        assert(m1.count(a[j]) > 0);
        assert(s2.to_multiset() == m1.insert(a[i]).remove(a[j]));
        assert forall|v: A| #[trigger] s2.to_multiset().count(v) == m.count(v) by {
        }
        assert(s2.to_multiset() =~= sa.to_multiset());
    }
}

} // verus!
