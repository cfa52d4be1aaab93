//! The pairs between the elements of a tree and a group of elements kept outside it. Pairs within
//! either group are not looked for.
use vstd::prelude::*;
use crate::bbox::{BBox, all_valid};
use crate::tree::DinoTree;
use crate::rect::for_all_intersect_rect;

verus! {

/// Tree element `i` and outside element `j` exist and their rectangles intersect: they share a
/// point.
pub open spec fn crossing<T, X>(tree: Seq<BBox<T>>, others: Seq<BBox<X>>, i: int, j: int) -> bool {
    &&& 0 <= i < tree.len()
    &&& 0 <= j < others.len()
    &&& others[j].rect.meets(tree[i].rect)
}

/// Pair `x` comes before pair `y`: by the outside element, then by the tree element.
pub open spec fn crossing_lt(x: (usize, usize), y: (usize, usize)) -> bool {
    x.1 < y.1 || (x.1 == y.1 && x.0 < y.0)
}

/// `out` lists each crossing pair `(tree element, outside element)` once, and nothing else,
/// ordered by the outside element and then by the tree element.
pub open spec fn crossing_pairs<T, X>(out: Seq<(usize, usize)>, tree: Seq<BBox<T>>, others: Seq<BBox<X>>) -> bool {
    &&& forall|a: int| 0 <= a < out.len() ==> crossing(tree, others, (#[trigger] out[a]).0 as int, out[a].1 as int)
    &&& forall|a: int, b: int| 0 <= a < b < out.len() ==> crossing_lt(#[trigger] out[a], #[trigger] out[b])
    &&& forall|i: int, j: int| #[trigger] crossing(tree, others, i, j)
        ==> exists|a: int| 0 <= a < out.len() && (#[trigger] out[a]) == (i as usize, j as usize)
}

/// Every pair of a tree element and an element of `others` whose rectangles intersect, as
/// `(tree index, index in others)`. Each outside element is looked up in the tree with a rectangle
/// query.
pub fn intersect_with_mut<T, X>(tree: &DinoTree<T>, others: &[BBox<X>]) -> (out: Vec<(usize, usize)>)
    requires
        all_valid(tree.elems()),
    ensures
        crossing_pairs(out@, tree.elems(), others@),
{
    let ghost bots = tree.elems();
    let mut out: Vec<(usize, usize)> = Vec::new();
    let mut j: usize = 0;
    while j < others.len()
        invariant
            j <= others@.len(),
            bots == tree.elems(),
            all_valid(bots),
            forall|a: int| 0 <= a < out@.len() ==> crossing(bots, others@, (#[trigger] out@[a]).0 as int, out@[a].1 as int)
                && out@[a].1 < j,
            forall|a: int, b: int| 0 <= a < b < out@.len() ==> crossing_lt(#[trigger] out@[a], #[trigger] out@[b]),
            forall|i: int, jj: int| #[trigger] crossing(bots, others@, i, jj) && jj < j
                ==> exists|a: int| 0 <= a < out@.len() && (#[trigger] out@[a]) == (i as usize, jj as usize),
        decreases others@.len() - j,
    {
        let r = others[j].rect;
        let hits = for_all_intersect_rect(tree, &r);
        let ghost out0 = out@;
        let mut k: usize = 0;
        while k < hits.len()
            invariant
                0 <= k <= hits@.len(),
                j < others@.len(),
                r == others@[j as int].rect,
                out@.len() == out0.len() + k,
                forall|a: int| 0 <= a < out0.len() ==> #[trigger] out@[a] == out0[a],
                forall|a: int| 0 <= a < k ==> #[trigger] out@[out0.len() + a] == (hits@[a], j),
            decreases hits@.len() - k,
        {
            out.push((hits[k], j));
            k = k + 1;
        }
        proof {
            let n0 = out0.len() as int;
            assert forall|a: int| 0 <= a < out@.len() implies crossing(bots, others@, (#[trigger] out@[a]).0 as int, out@[a].1 as int)
                && out@[a].1 < j + 1 by {
                if a < n0 {
                    assert(out@[a] == out0[a]);
                } else {
                    assert(out@[n0 + (a - n0)] == (hits@[a - n0], j));
                }
            }
            assert forall|a: int, b: int| 0 <= a < b < out@.len() implies crossing_lt(#[trigger] out@[a], #[trigger] out@[b]) by {
                if b < n0 {
                    assert(out@[a] == out0[a] && out@[b] == out0[b]);
                } else if a < n0 {
                    assert(out@[a] == out0[a]);
                    assert(out@[n0 + (b - n0)] == (hits@[b - n0], j));
                } else {
                    assert(out@[n0 + (a - n0)] == (hits@[a - n0], j));
                    assert(out@[n0 + (b - n0)] == (hits@[b - n0], j));
                }
            }
            assert forall|i: int, jj: int| #[trigger] crossing(bots, others@, i, jj) && jj < j + 1
                implies exists|a: int| 0 <= a < out@.len() && (#[trigger] out@[a]) == (i as usize, jj as usize) by {
                if jj < j {
                    let a = choose|a: int| 0 <= a < out0.len() && (#[trigger] out0[a]) == (i as usize, jj as usize);
                    assert(out@[a] == out0[a]);
                } else {
                    assert(r.meets(bots[i].rect));
                    assert(hits@.contains(i as usize));
                    let c = choose|c: int| 0 <= c < hits@.len() && hits@[c] == i as usize;
                    assert(out@[n0 + c] == (hits@[c], j));
                }
            }
        }
        j = j + 1;
    }
    out
}

impl<T> DinoTree<T> {
    /// Every pair of an element of this tree and an element of `other` whose rectangles intersect,
    /// as `(tree index, index in other)`.
    pub fn intersect_with_mut<X>(&self, other: &[BBox<X>]) -> (out: Vec<(usize, usize)>)
        requires
            all_valid(self.elems()),
        ensures
            crossing_pairs(out@, self.elems(), other@),
    {
        intersect_with_mut(self, other)
    }
}

} // verus!
