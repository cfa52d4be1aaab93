//! Locating an element in the tree: the depth of its node and the path down to it.
use vstd::prelude::*;
use vstd::arithmetic::power2::{lemma_pow2_unfold, lemma_pow2_pos};
use crate::bbox::BBox;
use crate::tree::{Node, DinoTree, wf_sub, right_child, lemma_wf_basic};
use crate::colfind::half_span;

verus! {

/// The branch taken at a node.
#[derive(Clone, Copy, Debug, PartialEq, Eq, Structural)]
pub enum Dir {
    Left,
    Right,
}

/// The index of the node reached from the root of a tree of `levels` levels by following `path`.
pub open spec fn node_at(levels: nat, path: Seq<Dir>) -> int
    decreases path.len(),
{
    if path.len() == 0 {
        0
    } else {
        let up = path.drop_last();
        let at = node_at(levels, up);
        match path.last() {
            Dir::Left => at + 1,
            Dir::Right => right_child(at, (levels - up.len()) as nat),
        }
    }
}

/// The node holding element `k`, found by walking down from the root, with the path taken.
fn path_to<T>(nodes: &[Node], bots: &Vec<BBox<T>>, height: usize, axis: crate::geom::Axis, k: usize) -> (r: (usize, Vec<Dir>))
    requires
        wf_sub(nodes@, bots@, 0, height as nat, axis, 0, bots@.len() as int, true),
        1 <= height < usize::BITS,
        k < bots@.len(),
    ensures
        r.0 == r.1@.len(),
        r.0 < height,
        0 <= node_at(height as nat, r.1@) < nodes@.len(),
        nodes@[node_at(height as nat, r.1@)].start <= k < nodes@[node_at(height as nat, r.1@)].end,
{
    let mut path: Vec<Dir> = Vec::new();
    let mut i: usize = 0;
    let mut r: usize = height;
    let mut ax = axis;
    let mut lo: usize = 0;
    let mut hi: usize = bots.len();
    loop
        invariant
            wf_sub(nodes@, bots@, i as int, r as nat, ax, lo as int, hi as int, true),
            1 <= r <= height < usize::BITS,
            r + path@.len() == height,
            i == node_at(height as nat, path@),
            lo <= k < hi,
        decreases r,
    {
        proof {
            lemma_wf_basic(nodes@, bots@, i as int, r as nat, ax, lo as int, hi as int, true);
            lemma_pow2_unfold(r as nat);
            lemma_pow2_pos((r - 1) as nat);
        }
        let n = nodes[i];
        if k < n.end {
            return (path.len(), path);
        }
        let rc = i + half_span(r);
        let mid = nodes[rc].start;
        let ghost up = path@;
        if k < mid {
            path.push(Dir::Left);
            proof {
                assert(path@.drop_last() =~= up);
            }
            i = i + 1;
            lo = n.end;
            hi = mid;
        } else {
            path.push(Dir::Right);
            proof {
                assert(path@.drop_last() =~= up);
            }
            i = rc;
            lo = mid;
        }
        r = r - 1;
        ax = ax.next();
    }
}

/// The first element, in the order of `get_bots()`, on which `func` returns true: the depth of
/// its node and the path from the root down to that node. The nodes are visited in preorder,
/// which is the order in which the tree keeps the elements.
pub fn find_element<T, F: Fn(&BBox<T>) -> bool>(tree: &DinoTree<T>, func: F) -> (r: Option<(usize, Vec<Dir>)>)
    requires
        forall|b: &BBox<T>| func.requires((b,)),
    ensures
        r is None ==> forall|j: int| 0 <= j < tree.elems().len() ==> func.ensures((&tree.elems()[j],), false),
        r matches Some(p) ==> {
            let at = node_at(tree.levels(), p.1@);
            &&& p.0 == p.1@.len()
            &&& p.0 < tree.levels()
            &&& 0 <= at < tree.nodes().len()
            &&& exists|k: int|
                tree.nodes()[at].start <= k < tree.nodes()[at].end
                && k < tree.elems().len()
                && func.ensures((&tree.elems()[k],), true)
                && forall|j: int| 0 <= j < k ==> func.ensures((&tree.elems()[j],), false)
        },
{
    let (nodes, bots, axis, height) = tree.parts();
    let mut k: usize = 0;
    while k < bots.len()
        invariant
            0 <= k <= bots@.len(),
            bots@ == tree.elems(),
            nodes@ == tree.nodes(),
            height == tree.levels(),
            1 <= height < usize::BITS,
            wf_sub(nodes@, bots@, 0, height as nat, axis, 0, bots@.len() as int, true),
            forall|b: &BBox<T>| func.requires((b,)),
            forall|j: int| 0 <= j < k ==> func.ensures((&bots@[j],), false),
        decreases bots@.len() - k,
    {
        let hit = func(&bots[k]);
        if hit {
            let (depth, path) = path_to(nodes, bots, height, axis, k);
            proof {
                let at = node_at(tree.levels(), path@);
                assert(nodes@[at].start <= k < nodes@[at].end && k < tree.elems().len()
                    && func.ensures((&tree.elems()[k as int],), true)
                    && forall|j: int| 0 <= j < k ==> func.ensures((&tree.elems()[j],), false));
            }
            return Some((depth, path));
        }
        k = k + 1;
    }
    None
}

} // verus!
