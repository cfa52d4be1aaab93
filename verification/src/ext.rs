//! Calls into std and the outside crates, with the contracts that their documentation gives.
use vstd::prelude::*;
use crate::geom::Axis;
use crate::bbox::{BBox, lo_of, sorted_between};
use crate::perm::perm_between;
use crate::oned::compare_bots;
use crate::tree::Node;
use vstd::arithmetic::power2::pow2;
use compt::dfs_order::{CompleteTreeContainer, PreOrder};

verus! {

/// Exchanges two elements of a vector with std's `<[T]>::swap`; it panics on an index out of
/// bounds, which the precondition excludes.
#[verifier::external_body]
pub(crate) fn swap_elems<T>(v: &mut Vec<T>, i: usize, j: usize)
    requires
        i < old(v)@.len(),
        j < old(v)@.len(),
    ensures
        final(v)@ == old(v)@.update(i as int, old(v)@[j as int]).update(j as int, old(v)@[i as int]),
{
    v.swap(i, j);
}

/// Sorts the elements `[lo, hi)` by the start of their range on `axis` with std's
/// `<[T]>::sort_unstable_by`, whose documentation promises a sorted slice holding the same
/// elements. The comparison is `compare_bots`, a total order.
#[verifier::external_body]
pub(crate) fn sort_range<T>(bots: &mut Vec<BBox<T>>, lo: usize, hi: usize, axis: Axis)
    requires
        lo <= hi <= old(bots)@.len(),
    ensures
        perm_between(old(bots)@, final(bots)@, lo, hi),
        sorted_between(final(bots)@, lo, hi, axis),
{
    bots[lo..hi].sort_unstable_by(|a, b| compare_bots(axis, a, b));
}

/// Puts the element of rank `k` among the elements `[lo, hi)`, ordered by the start of their
/// range on `axis`, at index `lo + k`, with `pdqselect::select_by`: its documentation promises that
/// the elements before it are not greater and the elements after it not smaller, and the call only
/// reorders the slice.
#[verifier::external_body]
pub(crate) fn select_range<T>(bots: &mut Vec<BBox<T>>, lo: usize, hi: usize, k: usize, axis: Axis)
    requires
        lo <= hi <= old(bots)@.len(),
        k < hi - lo,
    ensures
        perm_between(old(bots)@, final(bots)@, lo, hi),
        forall|i: int| lo <= i < lo + k ==> lo_of(#[trigger] final(bots)@[i], axis) <= lo_of(final(bots)@[lo + k], axis),
        forall|i: int| lo + k < i < hi ==> lo_of(#[trigger] final(bots)@[i], axis) >= lo_of(final(bots)@[lo + k], axis),
{
    pdqselect::select_by(&mut bots[lo..hi], k, |a, b| compare_bots(axis, a, b));
}

/// compt's complete binary tree container, laid out in a given depth first order.
#[verifier::external_type_specification]
#[verifier::external_body]
#[verifier::reject_recursive_types(T)]
#[verifier::reject_recursive_types(D)]
pub struct ExCompleteTreeContainer<T, D>(CompleteTreeContainer<T, D>);

/// compt's marker of the preorder layout.
#[verifier::external_type_specification]
#[verifier::external_body]
pub struct ExPreOrder(PreOrder);

/// The nodes held by a tree container, in the order they were given.
pub uninterp spec fn container_nodes(t: CompleteTreeContainer<Node, PreOrder>) -> Seq<Node>;

/// `n` is one less than a power of two, and not zero: the number of nodes of a complete binary tree.
pub open spec fn complete_size(n: nat) -> bool {
    n != 0 && exists|h: nat| pow2(h) == n + 1
}

/// Wraps a preorder list of nodes in a tree container with
/// `compt::dfs_order::CompleteTreeContainer::from_preorder`, which keeps the nodes as they are and
/// fails exactly when their number is not that of a complete binary tree (`(n + 1)` a power of
/// two, `n != 0`).
#[verifier::external_body]
pub(crate) fn container_from_preorder(nodes: Vec<Node>) -> (r: Option<CompleteTreeContainer<Node, PreOrder>>)
    requires
        nodes@.len() < usize::MAX,
    ensures
        r is Some <==> complete_size(nodes@.len()),
        r matches Some(t) ==> container_nodes(t) == nodes@,
{
    CompleteTreeContainer::from_preorder(nodes).ok()
}

/// The nodes of the container, with `as_tree().get_nodes()`, which returns them as they were given.
#[verifier::external_body]
pub(crate) fn container_get_nodes(t: &CompleteTreeContainer<Node, PreOrder>) -> (r: &[Node])
    ensures
        r@ == container_nodes(*t),
{
    t.as_tree().get_nodes()
}

/// The height of the container, with `as_tree().get_height()`: the number of trailing zeros of the
/// node count plus one, that is its base two logarithm when the count is that of a complete tree.
#[verifier::external_body]
pub(crate) fn container_get_height(t: &CompleteTreeContainer<Node, PreOrder>) -> (r: usize)
    requires
        complete_size(container_nodes(*t).len()),
    ensures
        pow2(r as nat) == container_nodes(*t).len() + 1,
{
    t.as_tree().get_height()
}

} // verus!
