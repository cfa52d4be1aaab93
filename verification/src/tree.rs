//! The tree: its nodes, its shape invariant, and its construction.
use vstd::prelude::*;
use vstd::arithmetic::power2::{pow2, lemma_pow2_unfold, lemma_pow2_pos, lemma2_to64};
use crate::geom::{Axis, Range};
use crate::bbox::{BBox, lo_of, hi_of, sorted_on};
use crate::perm::{perm_on, lemma_perm_trans, lemma_perm_widen, lemma_perm_forall, lemma_perm_exists, lemma_perm_refl};
use crate::oned::{bin_middle_left_right, create_cont};
use crate::ext::{sort_range, select_range, container_from_preorder, container_get_nodes, container_get_height, container_nodes, complete_size};
use crate::analyze::{BinStrat, Splitter, SplitterEmpty, full_walk, compute_tree_height_heuristic, lemma_default_height_fits, DEFAULT_NUMBER_ELEM_PER_NODE};
use crate::geom::default_axis;
use compt::dfs_order::{CompleteTreeContainer, PreOrder};

verus! {

/// A node of the tree. Its elements are those of indices `[start, end)` of the tree's element
/// list.
#[derive(Clone, Copy, Debug, PartialEq, Eq, Structural)]
pub struct Node {
    pub start: usize,
    pub end: usize,
    /// The smallest start and the largest end of the node's elements on the node's axis, `None`
    /// when the node has no element.
    pub cont: Option<Range>,
    /// For a node that is not a leaf, the divider on the node's axis; `None` when the whole subtree
    /// holds no element. Leaves have none.
    pub div: Option<i64>,
}

/// The divider of a node of a plain kd tree.
#[derive(Clone, Copy, Debug, PartialEq, Eq, Structural)]
pub struct DivNode {
    divider: i64,
}

impl DivNode {
    /// A node dividing at `divider`.
    pub fn new(divider: i64) -> (n: DivNode)
        ensures
            n.spec_divider() == divider,
    {
        DivNode { divider }
    }

    /// The divider.
    pub closed spec fn spec_divider(&self) -> i64 {
        self.divider
    }

    /// The divider.
    pub fn divider(&self) -> (d: &i64)
        ensures
            *d == self.spec_divider(),
    {
        &self.divider
    }
}

/// Index of the right child of node `i`, whose subtree has `r` levels, in a preorder layout.
pub open spec fn right_child(i: int, r: nat) -> int {
    i + pow2((r - 1) as nat)
}

/// The end of the element range of the subtree of node `i` with `r` levels.
pub open spec fn subtree_end(nodes: Seq<Node>, i: int, r: nat) -> int
    decreases r,
{
    if r <= 1 {
        nodes[i].end as int
    } else {
        subtree_end(nodes, right_child(i, r), (r - 1) as nat)
    }
}

/// `cont` is the hull of the elements of the node on `axis`: it bounds them, one of them starts at
/// its start and one ends at its end. It is `None` exactly when the node is empty.
pub open spec fn cont_ok<T>(n: Node, bots: Seq<BBox<T>>, axis: Axis) -> bool {
    match n.cont {
        None => n.start == n.end,
        Some(c) => {
            &&& n.start < n.end
            &&& forall|k: int|
                n.start <= k < n.end ==> c.start <= lo_of(#[trigger] bots[k], axis) && hi_of(bots[k], axis)
                    <= c.end
            &&& exists|k: int| n.start <= k < n.end && lo_of(#[trigger] bots[k], axis) == c.start
            &&& exists|k: int| n.start <= k < n.end && hi_of(#[trigger] bots[k], axis) == c.end
        },
    }
}

/// A node's own elements: in range, sorted along the other axis when `sorted`, bounded by `cont`.
pub open spec fn node_ok<T>(n: Node, bots: Seq<BBox<T>>, axis: Axis, sorted: bool) -> bool {
    &&& n.start <= n.end <= bots.len()
    &&& sorted ==> sorted_on(bots, n.start as int, n.end as int, axis.other())
    &&& cont_ok(n, bots, axis)
}

/// The divider `d` on `axis` separates the elements: those of the node `[s, e)` hold it, the left
/// subtree `[e, m)` ends before it, the right subtree `[m, hi)` starts after it. It is the start
/// of one of the elements `[s, hi)`; by the separation, that element is one of the node's unless
/// it ends before it starts.
pub open spec fn div_ok<T>(bots: Seq<BBox<T>>, s: int, e: int, m: int, hi: int, axis: Axis, d: i64) -> bool {
    &&& forall|k: int| s <= k < e ==> lo_of(#[trigger] bots[k], axis) <= d && d <= hi_of(bots[k], axis)
    &&& forall|k: int| e <= k < m ==> hi_of(#[trigger] bots[k], axis) < d
    &&& forall|k: int| m <= k < hi ==> lo_of(#[trigger] bots[k], axis) > d
    &&& exists|k: int| s <= k < hi && lo_of(#[trigger] bots[k], axis) == d
}

/// Where the elements do not end before they start, the divider is the start of one of the
/// node's own elements.
pub proof fn lemma_div_in_node<T>(bots: Seq<BBox<T>>, s: int, e: int, m: int, hi: int, axis: Axis, d: i64)
    requires
        div_ok(bots, s, e, m, hi, axis, d),
        s <= e <= m <= hi,
        forall|k: int| s <= k < hi ==> lo_of(#[trigger] bots[k], axis) <= hi_of(bots[k], axis),
    ensures
        exists|k: int| s <= k < e && lo_of(#[trigger] bots[k], axis) == d,
{
    let w = choose|k: int| s <= k < hi && lo_of(#[trigger] bots[k], axis) == d;
    assert(lo_of(bots[w], axis) <= hi_of(bots[w], axis));
}

/// The subtree of node `i`, with `r` levels and first divider axis `axis`, is well formed and holds
/// the elements `[lo, hi)`.
pub open spec fn wf_sub<T>(nodes: Seq<Node>, bots: Seq<BBox<T>>, i: int, r: nat, axis: Axis, lo: int, hi: int, sorted: bool) -> bool
    decreases r,
{
    &&& r >= 1
    &&& 0 <= i
    &&& i + pow2(r) - 1 <= nodes.len()
    &&& nodes[i].start == lo
    &&& lo <= hi <= bots.len()
    &&& node_ok(nodes[i], bots, axis, sorted)
    &&& if r == 1 {
        nodes[i].end == hi && nodes[i].div is None
    } else {
        let m = subtree_end(nodes, i + 1, (r - 1) as nat);
        &&& (nodes[i].div is None ==> lo == hi)
        &&& (nodes[i].div matches Some(d) ==> div_ok(bots, lo, nodes[i].end as int, m, hi, axis, d))
        &&& wf_sub(nodes, bots, i + 1, (r - 1) as nat, axis.other(), nodes[i].end as int, m, sorted)
        &&& wf_sub(nodes, bots, right_child(i, r), (r - 1) as nat, axis.other(), m, hi, sorted)
    }
}

/// The element range of a well formed subtree ends at `subtree_end`.
pub proof fn lemma_wf_end<T>(nodes: Seq<Node>, bots: Seq<BBox<T>>, i: int, r: nat, axis: Axis, lo: int, hi: int, sorted: bool)
    requires
        wf_sub(nodes, bots, i, r, axis, lo, hi, sorted),
    ensures
        subtree_end(nodes, i, r) == hi,
    decreases r,
{
    if r > 1 {
        let m = subtree_end(nodes, i + 1, (r - 1) as nat);
        lemma_wf_end(nodes, bots, right_child(i, r), (r - 1) as nat, axis.other(), m, hi, sorted);
    }
}

/// Bounds that every well formed subtree meets.
pub proof fn lemma_wf_basic<T>(nodes: Seq<Node>, bots: Seq<BBox<T>>, i: int, r: nat, axis: Axis, lo: int, hi: int, sorted: bool)
    requires
        wf_sub(nodes, bots, i, r, axis, lo, hi, sorted),
    ensures
        lo == nodes[i].start,
        lo <= nodes[i].end <= hi <= bots.len(),
        r > 1 ==> nodes[i].end <= subtree_end(nodes, i + 1, (r - 1) as nat) <= hi,
        r > 1 ==> right_child(i, r) < nodes.len() && nodes[right_child(i, r)].start == subtree_end(
            nodes,
            i + 1,
            (r - 1) as nat,
        ),
        r > 1 ==> i + 1 < nodes.len() && nodes[i + 1].start == nodes[i].end,
{
    reveal_with_fuel(wf_sub, 2);
    lemma_pow2_unfold(r);
    lemma_pow2_pos((r - 1) as nat);
    if r > 1 {
        lemma_pow2_unfold((r - 1) as nat);
        lemma_pow2_pos((r - 2) as nat);
    }
}

/// `a` and `b` agree on the indices `[lo, hi)`.
pub open spec fn agree_on<A>(a: Seq<A>, b: Seq<A>, lo: int, hi: int) -> bool {
    &&& 0 <= lo <= hi
    &&& hi <= a.len()
    &&& hi <= b.len()
    &&& forall|k: int| lo <= k < hi ==> #[trigger] a[k] == b[k]
}

/// `subtree_end` only reads the nodes of the subtree.
pub proof fn lemma_end_frame(n1: Seq<Node>, n2: Seq<Node>, i: int, r: nat)
    requires
        r >= 1,
        agree_on(n1, n2, i, i + pow2(r) - 1),
    ensures
        subtree_end(n1, i, r) == subtree_end(n2, i, r),
    decreases r,
{
    lemma_pow2_unfold(r);
    lemma_pow2_pos((r - 1) as nat);
    if r > 1 {
        lemma_end_frame(n1, n2, right_child(i, r), (r - 1) as nat);
    }
}

/// Well formedness of a subtree only reads the nodes of the subtree and the elements it holds.
pub proof fn lemma_wf_frame<T>(
    n1: Seq<Node>,
    n2: Seq<Node>,
    b1: Seq<BBox<T>>,
    b2: Seq<BBox<T>>,
    i: int,
    r: nat,
    axis: Axis,
    lo: int,
    hi: int,
    sorted: bool,
)
    requires
        wf_sub(n1, b1, i, r, axis, lo, hi, sorted),
        agree_on(n1, n2, i, i + pow2(r) - 1),
        agree_on(b1, b2, lo, hi),
    ensures
        wf_sub(n2, b2, i, r, axis, lo, hi, sorted),
    decreases r,
{
    lemma_pow2_unfold(r);
    lemma_pow2_pos((r - 1) as nat);
    let n = n1[i];
    assert(n2[i] == n);
    lemma_wf_basic(n1, b1, i, r, axis, lo, hi, sorted);
    if sorted {
        assert(sorted_on(b2, n.start as int, n.end as int, axis.other())) by {
            assert forall|x: int, y: int| n.start <= x <= y < n.end implies #[trigger] lo_of(b2[x], axis.other()) <= #[trigger] lo_of(b2[y], axis.other()) by {
                assert(b1[x] == b2[x] && b1[y] == b2[y]);
            }
        }
    }
    if let Some(c) = n.cont {
        assert forall|k: int| n.start <= k < n.end implies c.start <= lo_of(#[trigger] b2[k], axis) && hi_of(b2[k], axis) <= c.end by {
            assert(b1[k] == b2[k]);
        }
        let w1 = choose|k: int| n.start <= k < n.end && lo_of(#[trigger] b1[k], axis) == c.start;
        let w2 = choose|k: int| n.start <= k < n.end && hi_of(#[trigger] b1[k], axis) == c.end;
        assert(b1[w1] == b2[w1] && b1[w2] == b2[w2]);
    }
    if r > 1 {
        lemma_pow2_unfold(r);
        lemma_pow2_pos((r - 1) as nat);
        let m = subtree_end(n1, i + 1, (r - 1) as nat);
        lemma_end_frame(n1, n2, i + 1, (r - 1) as nat);
        lemma_wf_end(n1, b1, i + 1, (r - 1) as nat, axis.other(), n.end as int, m, sorted);
        lemma_wf_end(n1, b1, right_child(i, r), (r - 1) as nat, axis.other(), m, hi, sorted);
        lemma_wf_frame(n1, n2, b1, b2, i + 1, (r - 1) as nat, axis.other(), n.end as int, m, sorted);
        lemma_wf_frame(n1, n2, b1, b2, right_child(i, r), (r - 1) as nat, axis.other(), m, hi, sorted);
        if let Some(d) = n.div {
            assert forall|k: int| lo <= k < n.end implies lo_of(#[trigger] b2[k], axis) <= d && d <= hi_of(b2[k], axis) by {
                assert(b1[k] == b2[k]);
            }
            assert forall|k: int| n.end <= k < m implies hi_of(#[trigger] b2[k], axis) < d by {
                assert(b1[k] == b2[k]);
            }
            assert forall|k: int| m <= k < hi implies lo_of(#[trigger] b2[k], axis) > d by {
                assert(b1[k] == b2[k]);
            }
            let w = choose|k: int| lo <= k < hi && lo_of(#[trigger] b1[k], axis) == d;
            assert(b1[w] == b2[w]);
        }
    }
}

/// Well formedness of a subtree only reads the rectangles of the elements: it holds of any
/// elements with the same rectangles.
pub proof fn lemma_wf_rects<T, U>(
    nodes: Seq<Node>,
    b1: Seq<BBox<T>>,
    b2: Seq<BBox<U>>,
    i: int,
    r: nat,
    axis: Axis,
    lo: int,
    hi: int,
    sorted: bool,
)
    requires
        wf_sub(nodes, b1, i, r, axis, lo, hi, sorted),
        b1.len() == b2.len(),
        forall|k: int| 0 <= k < b1.len() ==> #[trigger] b1[k].rect == b2[k].rect,
    ensures
        wf_sub(nodes, b2, i, r, axis, lo, hi, sorted),
    decreases r,
{
    lemma_pow2_unfold(r);
    lemma_pow2_pos((r - 1) as nat);
    let n = nodes[i];
    lemma_wf_basic(nodes, b1, i, r, axis, lo, hi, sorted);
    if sorted {
        assert(sorted_on(b2, n.start as int, n.end as int, axis.other())) by {
            assert forall|x: int, y: int| n.start <= x <= y < n.end implies #[trigger] lo_of(b2[x], axis.other()) <= #[trigger] lo_of(b2[y], axis.other()) by {
                assert(b1[x].rect == b2[x].rect && b1[y].rect == b2[y].rect);
                assert(lo_of(b1[x], axis.other()) <= lo_of(b1[y], axis.other()));
            }
        }
    }
    if let Some(c) = n.cont {
        assert forall|k: int| n.start <= k < n.end implies c.start <= lo_of(#[trigger] b2[k], axis) && hi_of(b2[k], axis) <= c.end by {
            assert(b1[k].rect == b2[k].rect);
            assert(c.start <= lo_of(b1[k], axis) && hi_of(b1[k], axis) <= c.end);
        }
        let w1 = choose|k: int| n.start <= k < n.end && lo_of(#[trigger] b1[k], axis) == c.start;
        let w2 = choose|k: int| n.start <= k < n.end && hi_of(#[trigger] b1[k], axis) == c.end;
        assert(b1[w1].rect == b2[w1].rect && b1[w2].rect == b2[w2].rect);
        assert(lo_of(b2[w1], axis) == c.start && hi_of(b2[w2], axis) == c.end);
    }
    if r > 1 {
        let m = subtree_end(nodes, i + 1, (r - 1) as nat);
        lemma_wf_rects(nodes, b1, b2, i + 1, (r - 1) as nat, axis.other(), n.end as int, m, sorted);
        lemma_wf_rects(nodes, b1, b2, right_child(i, r), (r - 1) as nat, axis.other(), m, hi, sorted);
        if let Some(d) = n.div {
            assert forall|k: int| lo <= k < n.end implies lo_of(#[trigger] b2[k], axis) <= d && d <= hi_of(b2[k], axis) by {
                assert(b1[k].rect == b2[k].rect);
                assert(lo_of(b1[k], axis) <= d && d <= hi_of(b1[k], axis));
            }
            assert forall|k: int| n.end <= k < m implies hi_of(#[trigger] b2[k], axis) < d by {
                assert(b1[k].rect == b2[k].rect);
                assert(hi_of(b1[k], axis) < d);
            }
            assert forall|k: int| m <= k < hi implies lo_of(#[trigger] b2[k], axis) > d by {
                assert(b1[k].rect == b2[k].rect);
                assert(lo_of(b1[k], axis) > d);
            }
            let w = choose|k: int| lo <= k < hi && lo_of(#[trigger] b1[k], axis) == d;
            assert(b1[w].rect == b2[w].rect);
            assert(lo_of(b2[w], axis) == d);
        }
    }
}

/// The start of an element of a range is still the start of some element of the range after a
/// rearrangement of it.
proof fn lemma_start_kept<T>(a: Seq<BBox<T>>, b: Seq<BBox<T>>, lo: int, hi: int, i: int, axis: Axis)
    requires
        perm_on(a, b, lo, hi),
        lo <= i < hi,
    ensures
        exists|j: int| lo <= j < hi && lo_of(#[trigger] b[j], axis) == lo_of(a[i], axis),
{
    let d = lo_of(a[i], axis);
    let pd = |x: BBox<T>| lo_of(x, axis) == d;
    assert(pd(a[i]));
    lemma_perm_exists(a, b, lo, hi, pd);
    let w = choose|j: int| lo <= j < hi && #[trigger] pd(b[j]);
    assert(lo_of(b[w], axis) == d);
}

/// In `s`, the element at `k` starts at `d` on `axis`, those before it start no later and those
/// after it no earlier: `d` is the `k`-th smallest start of `s`.
pub open spec fn starts_split_at<T>(s: Seq<BBox<T>>, k: int, axis: Axis, d: i64) -> bool {
    &&& 0 <= k < s.len()
    &&& lo_of(s[k], axis) == d
    &&& forall|i: int| 0 <= i < k ==> lo_of(#[trigger] s[i], axis) <= d
    &&& forall|i: int| k < i < s.len() ==> lo_of(#[trigger] s[i], axis) >= d
}

/// `d` is the median start on `axis` of the elements `[lo, hi)`: the `(hi - lo) / 2`-th smallest,
/// counting from 0, in some order of those elements.
pub open spec fn median_start<T>(bots: Seq<BBox<T>>, lo: int, hi: int, axis: Axis, d: i64) -> bool {
    exists|s: Seq<BBox<T>>| #[trigger] s.to_multiset() == bots.subrange(lo, hi).to_multiset() && s.len() == hi - lo
        && starts_split_at(s, (hi - lo) / 2, axis, d)
}

/// Every node of the subtree of node `i`, with `r` levels, first axis `axis`, over the elements
/// `[lo, hi)`, that has a divider divides at the median start of its subtree's elements.
pub open spec fn medians_ok<T>(nodes: Seq<Node>, bots: Seq<BBox<T>>, i: int, r: nat, axis: Axis, lo: int, hi: int) -> bool
    decreases r,
{
    r > 1 ==> {
        let mid = subtree_end(nodes, i + 1, (r - 1) as nat);
        &&& (nodes[i].div matches Some(d) ==> median_start(bots, lo, hi, axis, d))
        &&& medians_ok(nodes, bots, i + 1, (r - 1) as nat, axis.other(), nodes[i].end as int, mid)
        &&& medians_ok(nodes, bots, right_child(i, r), (r - 1) as nat, axis.other(), mid, hi)
    }
}

/// `medians_ok` only reads the nodes of the subtree and the elements it holds.
proof fn lemma_medians_frame<T>(
    n1: Seq<Node>,
    n2: Seq<Node>,
    b1: Seq<BBox<T>>,
    b2: Seq<BBox<T>>,
    i: int,
    r: nat,
    axis: Axis,
    lo: int,
    hi: int,
    sorted: bool,
)
    requires
        medians_ok(n1, b1, i, r, axis, lo, hi),
        wf_sub(n1, b1, i, r, axis, lo, hi, sorted),
        agree_on(n1, n2, i, i + pow2(r) - 1),
        agree_on(b1, b2, lo, hi),
    ensures
        medians_ok(n2, b2, i, r, axis, lo, hi),
    decreases r,
{
    lemma_pow2_unfold(r);
    lemma_pow2_pos((r - 1) as nat);
    lemma_wf_basic(n1, b1, i, r, axis, lo, hi, sorted);
    if r > 1 {
        let n = n1[i];
        assert(n2[i] == n);
        let m = subtree_end(n1, i + 1, (r - 1) as nat);
        lemma_end_frame(n1, n2, i + 1, (r - 1) as nat);
        lemma_pow2_unfold((r - 1) as nat);
        assert(b1.subrange(lo, hi) =~= b2.subrange(lo, hi));
        lemma_medians_frame(n1, n2, b1, b2, i + 1, (r - 1) as nat, axis.other(), n.end as int, m, sorted);
        lemma_medians_frame(n1, n2, b1, b2, right_child(i, r), (r - 1) as nat, axis.other(), m, hi, sorted);
    }
}

/// Builds the subtree of a node with `r` levels over the elements `[lo, hi)`, pushing its nodes
/// in preorder. The node divides on `axis` at the start of the median element; the elements that
/// hold the divider stay in the node, the others go to the children. With `sorted`, the elements
/// of each node are sorted along the other axis. `splitter` is told when a node is entered, when a
/// leaf is done, and when the walk splits for the children and merges back.
#[verifier::rlimit(40)]
fn build_rec<T, K: Splitter>(
    bots: &mut Vec<BBox<T>>,
    nodes: &mut Vec<Node>,
    axis: Axis,
    lo: usize,
    hi: usize,
    r: usize,
    sorted: bool,
    splitter: &mut K,
)
    requires
        lo <= hi <= old(bots)@.len(),
        1 <= r,
        old(nodes)@.len() + pow2(r as nat) <= usize::MAX,
    ensures
        perm_on(old(bots)@, final(bots)@, lo as int, hi as int),
        final(nodes)@.len() == old(nodes)@.len() + pow2(r as nat) - 1,
        agree_on(old(nodes)@, final(nodes)@, 0, old(nodes)@.len() as int),
        wf_sub(final(nodes)@, final(bots)@, old(nodes)@.len() as int, r as nat, axis, lo as int, hi as int, sorted),
        *final(splitter) == full_walk(*old(splitter), r as nat),
        medians_ok(final(nodes)@, final(bots)@, old(nodes)@.len() as int, r as nat, axis, lo as int, hi as int),
    decreases r,
{
    let ghost b0 = bots@;
    let ghost n0 = nodes@;
    let ghost base = n0.len() as int;
    proof {
        lemma_pow2_unfold(r as nat);
        lemma_pow2_pos((r - 1) as nat);
        lemma2_to64();
    }
    splitter.node_start();
    if r == 1 {
        if sorted {
            sort_range(bots, lo, hi, axis.next());
        } else {
            proof {
                lemma_perm_refl(b0, lo as int, hi as int);
            }
        }
        let cont = create_cont(axis, bots, lo, hi);
        nodes.push(Node { start: lo, end: hi, cont, div: None });
        proof {
            assert(nodes@[base] == Node { start: lo, end: hi, cont, div: None });
            assert(agree_on(n0, nodes@, 0, base));
        }
        splitter.node_end();
        return;
    }
    let ghost rl = (r - 1) as nat;
    if lo == hi {
        nodes.push(Node { start: lo, end: lo, cont: None, div: None });
        let ghost n1 = nodes@;
        let mut splitter2 = splitter.div();
        build_rec(bots, nodes, axis.next(), lo, lo, r - 1, sorted, splitter);
        let ghost n2 = nodes@;
        let ghost b2 = bots@;
        build_rec(bots, nodes, axis.next(), lo, lo, r - 1, sorted, &mut splitter2);
        splitter.add(splitter2);
        proof {
            let n3 = nodes@;
            let b3 = bots@;
            assert(n3[base] == n1[base]);
            assert(agree_on(n2, n3, base + 1, base + 1 + pow2(rl) - 1));
            lemma_wf_frame(n2, n3, b2, b3, base + 1, rl, axis.other(), lo as int, lo as int, sorted);
            lemma_wf_end(n3, b3, base + 1, rl, axis.other(), lo as int, lo as int, sorted);
            assert(agree_on(n0, n3, 0, base)) by {
                assert forall|k: int| 0 <= k < base implies #[trigger] n0[k] == n3[k] by {
                    assert(n1[k] == n0[k]);
                    assert(n2[k] == n1[k]);
                }
            }
            lemma_perm_trans(b0, b2, b3, lo as int, hi as int);
            assert(node_ok(n3[base], b3, axis, sorted));
            lemma_wf_end(n2, b2, base + 1, rl, axis.other(), lo as int, lo as int, sorted);
            lemma_medians_frame(n2, n3, b2, b3, base + 1, rl, axis.other(), lo as int, lo as int, sorted);
        }
        return;
    }
    let k = (hi - lo) / 2;
    select_range(bots, lo, hi, k, axis);
    let med = bots[lo + k].rect.get_range(axis).start;
    let ghost b_sel = bots@;
    let (mid_end, left_end) = bin_middle_left_right(axis, med, bots, lo, hi);
    let ghost b_bin = bots@;
    if sorted {
        sort_range(bots, lo, mid_end, axis.next());
    } else {
        proof {
            lemma_perm_refl(b_bin, lo as int, mid_end as int);
        }
    }
    let ghost b_sort = bots@;
    let cont = create_cont(axis, bots, lo, mid_end);
    let node = Node { start: lo, end: mid_end, cont, div: Some(med) };
    nodes.push(node);
    let ghost n1 = nodes@;
    let mut splitter2 = splitter.div();
    build_rec(bots, nodes, axis.next(), mid_end, left_end, r - 1, sorted, splitter);
    let ghost n2 = nodes@;
    let ghost b_left = bots@;
    build_rec(bots, nodes, axis.next(), left_end, hi, r - 1, sorted, &mut splitter2);
    splitter.add(splitter2);
    proof {
        let n3 = nodes@;
        let b3 = bots@;
        // the whole range was only rearranged
        lemma_perm_trans(b0, b_sel, b_bin, lo as int, hi as int);
        lemma_perm_widen(b_bin, b_sort, lo as int, lo as int, mid_end as int, hi as int);
        lemma_perm_trans(b0, b_bin, b_sort, lo as int, hi as int);
        lemma_perm_widen(b_sort, b_left, lo as int, mid_end as int, left_end as int, hi as int);
        lemma_perm_trans(b0, b_sort, b_left, lo as int, hi as int);
        lemma_perm_widen(b_left, b3, lo as int, left_end as int, hi as int, hi as int);
        lemma_perm_trans(b0, b_left, b3, lo as int, hi as int);
        // the nodes before this subtree are untouched
        assert(agree_on(n0, n3, 0, base)) by {
            assert forall|k: int| 0 <= k < base implies #[trigger] n0[k] == n3[k] by {
                assert(n1[k] == n0[k]);
                assert(n2[k] == n1[k]);
            }
        }
        assert(n2[base] == n1[base]);
        assert(n3[base] == n2[base]);
        assert(n3[base] == node);
        // the left subtree keeps its shape
        assert(agree_on(n2, n3, base + 1, base + 1 + pow2(rl) - 1));
        assert(agree_on(b_left, b3, mid_end as int, left_end as int));
        lemma_wf_frame(n2, n3, b_left, b3, base + 1, rl, axis.other(), mid_end as int, left_end as int, sorted);
        lemma_wf_end(n3, b3, base + 1, rl, axis.other(), mid_end as int, left_end as int, sorted);
        // the node's own elements are untouched by the children
        assert(agree_on(b_sort, b3, lo as int, mid_end as int));
        assert(node_ok(node, b3, axis, sorted)) by {
            if sorted {
                assert forall|x: int, y: int| lo <= x <= y < mid_end implies #[trigger] lo_of(b3[x], axis.other()) <= #[trigger] lo_of(b3[y], axis.other()) by {
                    assert(b3[x] == b_sort[x] && b3[y] == b_sort[y]);
                }
            }
            if let Some(c) = cont {
                assert forall|k: int| lo <= k < mid_end implies c.start <= lo_of(#[trigger] b3[k], axis) && hi_of(b3[k], axis) <= c.end by {
                    assert(b3[k] == b_sort[k]);
                }
                let w1 = choose|k: int| lo <= k < mid_end && lo_of(#[trigger] b_sort[k], axis) == c.start;
                let w2 = choose|k: int| lo <= k < mid_end && hi_of(#[trigger] b_sort[k], axis) == c.end;
                assert(b3[w1] == b_sort[w1] && b3[w2] == b_sort[w2]);
            }
        }
        // the divider separates the three parts
        let pm = |b: BBox<T>| lo_of(b, axis) <= med && med <= hi_of(b, axis);
        let pl = |b: BBox<T>| hi_of(b, axis) < med;
        let pr = |b: BBox<T>| lo_of(b, axis) > med;
        assert forall|k: int| lo <= k < mid_end implies #[trigger] pm(b_bin[k]) by {}
        lemma_perm_forall(b_bin, b_sort, lo as int, mid_end as int, pm);
        assert forall|k: int| lo <= k < mid_end implies lo_of(#[trigger] b3[k], axis) <= med && med <= hi_of(b3[k], axis) by {
            assert(pm(b_sort[k]));
            assert(b3[k] == b_sort[k]);
        }
        assert forall|k: int| mid_end <= k < left_end implies #[trigger] pl(b_sort[k]) by {
            assert(b_sort[k] == b_bin[k]);
        }
        lemma_perm_forall(b_sort, b_left, mid_end as int, left_end as int, pl);
        assert forall|k: int| mid_end <= k < left_end implies hi_of(#[trigger] b3[k], axis) < med by {
            assert(pl(b_left[k]));
            assert(b3[k] == b_left[k]);
        }
        assert forall|k: int| left_end <= k < hi implies #[trigger] pr(b_left[k]) by {
            assert(b_left[k] == b_sort[k]);
            assert(b_sort[k] == b_bin[k]);
        }
        lemma_perm_forall(b_left, b3, left_end as int, hi as int, pr);
        assert forall|k: int| left_end <= k < hi implies lo_of(#[trigger] b3[k], axis) > med by {
            assert(pr(b3[k]));
        }
        // the divider is the start of the median element, which stays in the subtree
        assert(perm_on(b_sel, b3, lo as int, hi as int)) by {
            lemma_perm_trans(b_sel, b_bin, b_sort, lo as int, hi as int);
            lemma_perm_trans(b_sel, b_sort, b_left, lo as int, hi as int);
            lemma_perm_trans(b_sel, b_left, b3, lo as int, hi as int);
        }
        lemma_start_kept(b_sel, b3, lo as int, hi as int, lo + k, axis);
        // the divider is the median start, as the selection left it
        assert(median_start(b3, lo as int, hi as int, axis, med)) by {
            let s = b_sel.subrange(lo as int, hi as int);
            assert(starts_split_at(s, (hi - lo) / 2, axis, med)) by {
                assert forall|x: int| 0 <= x < (hi - lo) / 2 implies lo_of(#[trigger] s[x], axis) <= med by {
                    assert(s[x] == b_sel[lo + x]);
                }
                assert forall|x: int| (hi - lo) / 2 < x < s.len() implies lo_of(#[trigger] s[x], axis) >= med by {
                    assert(s[x] == b_sel[lo + x]);
                }
            }
            assert(s.to_multiset() == b3.subrange(lo as int, hi as int).to_multiset());
        }
        lemma_medians_frame(n2, n3, b_left, b3, base + 1, rl, axis.other(), mid_end as int, left_end as int, sorted);
        assert(div_ok(b3, lo as int, mid_end as int, left_end as int, hi as int, axis, med));
    }
}

/// Builds the nodes of a tree of `height` levels over all the elements, then wraps them in a tree
/// container.
fn build_all<T, K: Splitter>(bots: &mut Vec<BBox<T>>, axis: Axis, height: usize, sorted: bool, splitter: &mut K) -> (t: CompleteTreeContainer<Node, PreOrder>)
    requires
        1 <= height < usize::BITS,
    ensures
        perm_on(old(bots)@, final(bots)@, 0, old(bots)@.len() as int),
        pow2(height as nat) == container_nodes(t).len() + 1,
        wf_sub(container_nodes(t), final(bots)@, 0, height as nat, axis, 0, final(bots)@.len() as int, sorted),
        *final(splitter) == full_walk(*old(splitter), height as nat),
        medians_ok(container_nodes(t), final(bots)@, 0, height as nat, axis, 0, final(bots)@.len() as int),
{
    let mut nodes: Vec<Node> = Vec::new();
    let n = bots.len();
    proof {
        vstd::bits::lemma_usize_pow2_no_overflow(height as nat);
    }
    build_rec(bots, &mut nodes, axis, 0, n, height, sorted, splitter);
    proof {
        assert(complete_size(nodes@.len())) by {
            lemma_pow2_unfold(height as nat);
            lemma_pow2_pos((height - 1) as nat);
            assert(pow2(height as nat) == nodes@.len() + 1);
        }
    }
    match container_from_preorder(nodes) {
        Some(t) => t,
        None => vstd::pervasive::unreached(),
    }
}

/// The tree: a kd tree whose nodes keep the elements that cross their divider, sorted along the
/// other axis. It owns its elements, rearranged in the order of its nodes.
pub struct DinoTree<T> {
    axis: Axis,
    inner: CompleteTreeContainer<Node, PreOrder>,
    bots: Vec<BBox<T>>,
    height: usize,
}

impl<T> DinoTree<T> {
    /// The nodes in preorder.
    pub closed spec fn nodes(&self) -> Seq<Node> {
        container_nodes(self.inner)
    }

    /// The elements, in the order of the nodes.
    pub closed spec fn elems(&self) -> Seq<BBox<T>> {
        self.bots@
    }

    /// The axis of the root's divider.
    pub closed spec fn first_axis(&self) -> Axis {
        self.axis
    }

    /// The number of levels.
    pub closed spec fn levels(&self) -> nat {
        self.height as nat
    }

    /// The tree is well formed.
    #[verifier::type_invariant]
    closed spec fn inv(&self) -> bool {
        &&& 1 <= self.height < usize::BITS
        &&& pow2(self.height as nat) == container_nodes(self.inner).len() + 1
        &&& wf_sub(container_nodes(self.inner), self.bots@, 0, self.height as nat, self.axis, 0, self.bots@.len() as int, true)
    }

    /// The parts of the tree that queries read, with the tree's invariant.
    pub(crate) fn parts(&self) -> (r: (&[Node], &Vec<BBox<T>>, Axis, usize))
        ensures
            r.0@ == self.nodes(),
            r.1@ == self.elems(),
            r.2 == self.first_axis(),
            r.3 == self.levels(),
            1 <= self.levels() < usize::BITS,
            pow2(self.levels()) == self.nodes().len() + 1,
            wf_sub(self.nodes(), self.elems(), 0, self.levels(), self.first_axis(), 0, self.elems().len() as int, true),
    {
        proof {
            use_type_invariant(self);
        }
        (container_get_nodes(&self.inner), &self.bots, self.axis, self.height)
    }

    /// Takes the tree apart: its elements, and the rest to rebuild it with `with_elems`.
    pub(crate) fn into_parts(self) -> (r: (Vec<BBox<T>>, TreeShape))
        ensures
            r.0@ == self.elems(),
            r.1.nodes() == self.nodes(),
            r.1.axis == self.first_axis(),
            r.1.height == self.levels(),
            1 <= self.levels() < usize::BITS,
            pow2(self.levels()) == self.nodes().len() + 1,
            wf_sub(self.nodes(), self.elems(), 0, self.levels(), self.first_axis(), 0, self.elems().len() as int, true),
    {
        proof {
            use_type_invariant(&self);
        }
        let DinoTree { axis, inner, bots, height } = self;
        (bots, TreeShape { axis, inner, height })
    }

    /// Puts a tree back together from elements with the same rectangles as those it was taken
    /// apart from.
    pub(crate) fn with_elems(shape: TreeShape, bots: Vec<BBox<T>>) -> (t: DinoTree<T>)
        requires
            1 <= shape.height < usize::BITS,
            pow2(shape.height as nat) == shape.nodes().len() + 1,
            wf_sub(shape.nodes(), bots@, 0, shape.height as nat, shape.axis, 0, bots@.len() as int, true),
        ensures
            t.elems() == bots@,
            t.nodes() == shape.nodes(),
            t.first_axis() == shape.axis,
            t.levels() == shape.height,
    {
        DinoTree { axis: shape.axis, inner: shape.inner, bots, height: shape.height }
    }

    /// Builds a tree of the elements with the default axis and height.
    pub fn new(bots: Vec<BBox<T>>) -> (t: DinoTree<T>)
        ensures
            perm_on(bots@, t.elems(), 0, bots@.len() as int),
            t.first_axis() == Axis::Y,
            default_levels(bots@.len(), t.levels()),
            medians_ok(t.nodes(), t.elems(), 0, t.levels(), t.first_axis(), 0, t.elems().len() as int),
    {
        let b = DinoTreeBuilder::new(bots);
        b.build_seq()
    }

    /// Builds a tree of the elements with the given axis and the default height.
    pub fn with_axis(axis: Axis, bots: Vec<BBox<T>>) -> (t: DinoTree<T>)
        ensures
            perm_on(bots@, t.elems(), 0, bots@.len() as int),
            t.first_axis() == axis,
            default_levels(bots@.len(), t.levels()),
            medians_ok(t.nodes(), t.elems(), 0, t.levels(), t.first_axis(), 0, t.elems().len() as int),
    {
        let b = DinoTreeBuilder::with_axis(axis, bots);
        b.build_seq()
    }

    /// The elements in the order in which the tree keeps them.
    pub fn get_bots(&self) -> (r: &[BBox<T>])
        ensures
            r@ == self.elems(),
    {
        self.bots.as_slice()
    }

    /// Replaces the data of element `k` by `v`, and returns the data it held. The rectangles, and
    /// so the tree's shape, stay as they are.
    pub fn set_inner(&mut self, k: usize, v: T) -> (old_inner: T)
        requires
            k < old(self).elems().len(),
        ensures
            old_inner == old(self).elems()[k as int].inner,
            final(self).elems() == old(self).elems().update(k as int, BBox { rect: old(self).elems()[k as int].rect, inner: v }),
            final(self).nodes() == old(self).nodes(),
            final(self).first_axis() == old(self).first_axis(),
            final(self).levels() == old(self).levels(),
    {
        let mut t = DinoTree::new(Vec::new());
        core::mem::swap(self, &mut t);
        let ghost b0 = t.elems();
        let ghost n0 = t.nodes();
        let (mut bots, shape) = t.into_parts();
        let mut v = v;
        {
            let e = &mut bots[k];
            core::mem::swap(&mut e.inner, &mut v);
        }
        proof {
            assert forall|j: int| 0 <= j < b0.len() implies #[trigger] b0[j].rect == bots@[j].rect by {}
            lemma_wf_rects(n0, b0, bots@, 0, shape.height as nat, shape.axis, 0, bots@.len() as int, true);
        }
        let t2 = DinoTree::with_elems(shape, bots);
        *self = t2;
        v
    }

    /// The axis of the root's divider.
    pub fn axis(&self) -> (a: Axis)
        ensures
            a == self.first_axis(),
    {
        self.axis
    }

    /// The number of levels of the tree.
    pub fn get_height(&self) -> (h: usize)
        ensures
            h == self.levels(),
    {
        proof {
            use_type_invariant(self);
            assert(complete_size(container_nodes(self.inner).len())) by {
                lemma_pow2_unfold(self.height as nat);
                lemma_pow2_pos((self.height - 1) as nat);
            }
        }
        let h = container_get_height(&self.inner);
        proof {
            if h < self.height {
                vstd::arithmetic::power2::lemma_pow2_strictly_increases(h as nat, self.height as nat);
            } else if h > self.height {
                vstd::arithmetic::power2::lemma_pow2_strictly_increases(self.height as nat, h as nat);
            }
        }
        h
    }

    /// Whether the tree's invariants hold, which they always do: every node's elements cross its
    /// divider and are sorted along the other axis, the elements of its left subtree end before
    /// the divider, those of its right subtree start after it, the divider is the start of an
    /// element of the subtree, and each node's container range is the hull of its elements.
    pub fn tree_invariants(&self) -> (b: bool)
        ensures
            b,
            wf_sub(self.nodes(), self.elems(), 0, self.levels(), self.first_axis(), 0, self.elems().len() as int, true),
            pow2(self.levels()) == self.nodes().len() + 1,
    {
        proof {
            use_type_invariant(self);
        }
        true
    }

    /// The number of nodes of the tree.
    pub fn num_nodes(&self) -> (n: usize)
        ensures
            n == self.nodes().len(),
            n == pow2(self.levels()) - 1,
    {
        proof {
            use_type_invariant(self);
        }
        container_get_nodes(&self.inner).len()
    }

    /// The nodes of the tree in preorder.
    pub fn get_nodes(&self) -> (r: &[Node])
        ensures
            r@ == self.nodes(),
    {
        container_get_nodes(&self.inner)
    }
}

/// The nodes of a tree without its elements.
pub(crate) struct TreeShape {
    pub(crate) axis: Axis,
    pub(crate) inner: CompleteTreeContainer<Node, PreOrder>,
    pub(crate) height: usize,
}

impl TreeShape {
    /// The nodes in preorder.
    pub(crate) open spec fn nodes(&self) -> Seq<Node> {
        container_nodes(self.inner)
    }
}

/// A tree whose node elements are not sorted, like a plain kd tree. It is faster to build, and
/// the queries that need sorted nodes are not offered on it.
pub struct NotSorted<T> {
    axis: Axis,
    inner: CompleteTreeContainer<Node, PreOrder>,
    bots: Vec<BBox<T>>,
    height: usize,
}

impl<T> NotSorted<T> {
    /// The nodes in preorder.
    pub closed spec fn nodes(&self) -> Seq<Node> {
        container_nodes(self.inner)
    }

    /// The elements, in the order of the nodes.
    pub closed spec fn elems(&self) -> Seq<BBox<T>> {
        self.bots@
    }

    /// The axis of the root's divider.
    pub closed spec fn first_axis(&self) -> Axis {
        self.axis
    }

    /// The number of levels.
    pub closed spec fn levels(&self) -> nat {
        self.height as nat
    }

    /// The tree is well formed.
    #[verifier::type_invariant]
    closed spec fn inv(&self) -> bool {
        &&& 1 <= self.height < usize::BITS
        &&& pow2(self.height as nat) == container_nodes(self.inner).len() + 1
        &&& wf_sub(container_nodes(self.inner), self.bots@, 0, self.height as nat, self.axis, 0, self.bots@.len() as int, false)
    }

    /// The parts of the tree that queries read, with the tree's invariant.
    pub(crate) fn parts(&self) -> (r: (&[Node], &Vec<BBox<T>>, Axis, usize))
        ensures
            r.0@ == self.nodes(),
            r.1@ == self.elems(),
            r.2 == self.first_axis(),
            r.3 == self.levels(),
            1 <= self.levels() < usize::BITS,
            pow2(self.levels()) == self.nodes().len() + 1,
            wf_sub(self.nodes(), self.elems(), 0, self.levels(), self.first_axis(), 0, self.elems().len() as int, false),
    {
        proof {
            use_type_invariant(self);
        }
        (container_get_nodes(&self.inner), &self.bots, self.axis, self.height)
    }

    /// Builds a tree of the elements with the default axis and height.
    pub fn new(bots: Vec<BBox<T>>) -> (t: NotSorted<T>)
        ensures
            perm_on(bots@, t.elems(), 0, bots@.len() as int),
            t.first_axis() == Axis::Y,
            default_levels(bots@.len(), t.levels()),
    {
        let b = DinoTreeBuilder::new(bots);
        b.build_not_sorted_seq()
    }

    /// Builds a tree of the elements with the given axis and the default height.
    pub fn with_axis(axis: Axis, bots: Vec<BBox<T>>) -> (t: NotSorted<T>)
        ensures
            perm_on(bots@, t.elems(), 0, bots@.len() as int),
            t.first_axis() == axis,
            default_levels(bots@.len(), t.levels()),
    {
        let b = DinoTreeBuilder::with_axis(axis, bots);
        b.build_not_sorted_seq()
    }

    /// The axis of the root's divider.
    pub fn axis(&self) -> (a: Axis)
        ensures
            a == self.first_axis(),
    {
        self.axis
    }

    /// The number of levels of the tree.
    pub fn get_height(&self) -> (h: usize)
        ensures
            h == self.levels(),
    {
        self.height
    }

    /// The elements in the order in which the tree keeps them.
    pub fn get_bots(&self) -> (r: &[BBox<T>])
        ensures
            r@ == self.elems(),
    {
        self.bots.as_slice()
    }

    /// Whether the tree's invariants hold, which they always do: those of a sorted tree, except
    /// that the elements of a node are not sorted.
    pub fn tree_invariants(&self) -> (b: bool)
        ensures
            b,
            wf_sub(self.nodes(), self.elems(), 0, self.levels(), self.first_axis(), 0, self.elems().len() as int, false),
            pow2(self.levels()) == self.nodes().len() + 1,
    {
        proof {
            use_type_invariant(self);
        }
        true
    }

    /// The nodes of the tree in preorder.
    pub fn get_nodes(&self) -> (r: &[Node])
        ensures
            r@ == self.nodes(),
    {
        container_get_nodes(&self.inner)
    }
}

/// The default number of levels of a tree of `n` elements: one when they fit in a node, else the
/// least odd number `h` of levels with `n <= 128 * 2^(h - 1)`.
pub open spec fn default_levels(n: nat, h: nat) -> bool {
    &&& n <= DEFAULT_NUMBER_ELEM_PER_NODE ==> h == 1
    &&& n > DEFAULT_NUMBER_ELEM_PER_NODE ==> h % 2 == 1 && h >= 3 && n <= DEFAULT_NUMBER_ELEM_PER_NODE
        * pow2((h - 1) as nat) && DEFAULT_NUMBER_ELEM_PER_NODE * pow2((h - 3) as nat) < n
}

/// Builder of a tree: its first axis, its height and its binning strategy.
pub struct DinoTreeBuilder<T> {
    axis: Axis,
    bots: Vec<BBox<T>>,
    rebal_strat: BinStrat,
    height: usize,
    height_switch_seq: usize,
}

/// The height below which a parallel algorithm runs sequentially, unless chosen otherwise.
pub const SWITCH_SEQUENTIAL_DEFAULT: usize = 6;

impl<T> DinoTreeBuilder<T> {
    /// The elements to build on.
    pub closed spec fn spec_bots(&self) -> Seq<BBox<T>> {
        self.bots@
    }

    /// The first axis.
    pub closed spec fn spec_axis(&self) -> Axis {
        self.axis
    }

    /// The height the tree will have.
    pub closed spec fn spec_height(&self) -> usize {
        self.height
    }

    /// The binning strategy.
    pub closed spec fn spec_bin_strat(&self) -> BinStrat {
        self.rebal_strat
    }

    /// The height below which a parallel build would run sequentially.
    pub closed spec fn spec_height_switch_seq(&self) -> usize {
        self.height_switch_seq
    }

    /// A builder with the default axis.
    pub fn new(bots: Vec<BBox<T>>) -> (b: DinoTreeBuilder<T>)
        ensures
            b.spec_axis() == Axis::Y,
            b.spec_bots() == bots@,
            b.spec_bin_strat() == BinStrat::NotChecked,
            b.spec_height_switch_seq() == SWITCH_SEQUENTIAL_DEFAULT,
            default_levels(bots@.len(), b.spec_height() as nat),
            1 <= b.spec_height() < usize::BITS,
    {
        Self::with_axis(default_axis(), bots)
    }

    /// A builder with the given axis.
    pub fn with_axis(axis: Axis, bots: Vec<BBox<T>>) -> (b: DinoTreeBuilder<T>)
        ensures
            b.spec_axis() == axis,
            b.spec_bots() == bots@,
            b.spec_bin_strat() == BinStrat::NotChecked,
            b.spec_height_switch_seq() == SWITCH_SEQUENTIAL_DEFAULT,
            default_levels(bots@.len(), b.spec_height() as nat),
            1 <= b.spec_height() < usize::BITS,
    {
        let height = compute_tree_height_heuristic(bots.len(), DEFAULT_NUMBER_ELEM_PER_NODE);
        proof {
            lemma_default_height_fits(bots@.len() as usize, height);
        }
        DinoTreeBuilder {
            axis,
            bots,
            rebal_strat: BinStrat::NotChecked,
            height,
            height_switch_seq: SWITCH_SEQUENTIAL_DEFAULT,
        }
    }

    /// Chooses the binning strategy.
    pub fn with_bin_strat(&mut self, strat: BinStrat)
        ensures
            final(self).spec_bin_strat() == strat,
            final(self).spec_bots() == old(self).spec_bots(),
            final(self).spec_axis() == old(self).spec_axis(),
            final(self).spec_height() == old(self).spec_height(),
            final(self).spec_height_switch_seq() == old(self).spec_height_switch_seq(),
    {
        self.rebal_strat = strat;
    }

    /// Chooses the height of the tree.
    pub fn with_height(&mut self, height: usize)
        ensures
            final(self).spec_height() == height,
            final(self).spec_bots() == old(self).spec_bots(),
            final(self).spec_axis() == old(self).spec_axis(),
            final(self).spec_bin_strat() == old(self).spec_bin_strat(),
            final(self).spec_height_switch_seq() == old(self).spec_height_switch_seq(),
    {
        self.height = height;
    }

    /// Chooses the height below which a parallel algorithm runs sequentially.
    pub fn with_height_switch_seq(&mut self, height: usize)
        ensures
            final(self).spec_height_switch_seq() == height,
            final(self).spec_bots() == old(self).spec_bots(),
            final(self).spec_axis() == old(self).spec_axis(),
            final(self).spec_bin_strat() == old(self).spec_bin_strat(),
            final(self).spec_height() == old(self).spec_height(),
    {
        self.height_switch_seq = height;
    }

    /// Builds the tree, sorting the elements of every node along the axis perpendicular to the
    /// node's divider.
    pub fn build_seq(self) -> (t: DinoTree<T>)
        requires
            1 <= self.spec_height() < usize::BITS,
        ensures
            perm_on(self.spec_bots(), t.elems(), 0, self.spec_bots().len() as int),
            t.first_axis() == self.spec_axis(),
            t.levels() == self.spec_height(),
            medians_ok(t.nodes(), t.elems(), 0, t.levels(), t.first_axis(), 0, t.elems().len() as int),
    {
        let mut splitter = SplitterEmpty;
        self.build_with_splitter_seq(&mut splitter)
    }

    /// Builds the tree as `build_seq` does, telling `splitter` when a node is entered, when a leaf
    /// is done, and when the walk splits for the children and merges back: every node is entered,
    /// in preorder.
    pub fn build_with_splitter_seq<K: Splitter>(self, splitter: &mut K) -> (t: DinoTree<T>)
        requires
            1 <= self.spec_height() < usize::BITS,
        ensures
            *final(splitter) == full_walk(*old(splitter), self.spec_height() as nat),
            medians_ok(t.nodes(), t.elems(), 0, t.levels(), t.first_axis(), 0, t.elems().len() as int),
            perm_on(self.spec_bots(), t.elems(), 0, self.spec_bots().len() as int),
            t.first_axis() == self.spec_axis(),
            t.levels() == self.spec_height(),
    {
        let mut bots = self.bots;
        let inner = build_all(&mut bots, self.axis, self.height, true, splitter);
        DinoTree { axis: self.axis, inner, bots, height: self.height }
    }

    /// Builds the tree without sorting the elements of the nodes.
    pub fn build_not_sorted_seq(self) -> (t: NotSorted<T>)
        requires
            1 <= self.spec_height() < usize::BITS,
        ensures
            perm_on(self.spec_bots(), t.elems(), 0, self.spec_bots().len() as int),
            t.first_axis() == self.spec_axis(),
            t.levels() == self.spec_height(),
            medians_ok(t.nodes(), t.elems(), 0, t.levels(), t.first_axis(), 0, t.elems().len() as int),
    {
        let mut bots = self.bots;
        let mut splitter = SplitterEmpty;
        let inner = build_all(&mut bots, self.axis, self.height, false, &mut splitter);
        NotSorted { axis: self.axis, inner, bots, height: self.height }
    }
}

} // verus!
