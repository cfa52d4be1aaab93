//! Parameters of a tree: its height, the number of its nodes, the binning strategy, and the
//! callbacks a recursive algorithm can report to.
use vstd::prelude::*;
use vstd::arithmetic::power2::{pow2, lemma_pow2_unfold, lemma2_to64, lemma_pow2_adds, lemma_pow2_strictly_increases};

verus! {

/// The number of elements that a node should hold on average, from which the default height of a
/// tree is computed.
pub const DEFAULT_NUMBER_ELEM_PER_NODE: usize = 128;

/// The number of nodes of the levels from `depth` down to the last one of a complete binary tree of
/// `height` levels: `2^(height - depth) - 1`.
pub fn nodes_left(depth: usize, height: usize) -> (r: usize)
    requires
        depth <= height,
        height - depth < usize::BITS,
    ensures
        r == pow2((height - depth) as nat) - 1,
{
    let levels = height - depth;
    proof {
        lemma_pow_fits(levels as nat);
    }
    (1usize << levels) - 1
}

/// `1 << e` is `2^e` for every shift below the width of `usize`.
proof fn lemma_pow_fits(e: nat)
    requires
        e < usize::BITS,
    ensures
        (1usize << e) == pow2(e),
        0 < pow2(e) < usize::MAX,
{
    vstd::bits::lemma_usize_pow2_no_overflow(e);
    vstd::bits::lemma_usize_shl_is_mul(1, e as usize);
}

/// `h` is the height for `n` elements with `k` per node: 1 when they fit in one node, else the
/// least odd `h` with `n <= k * 2^(h - 1)`.
pub open spec fn height_for(n: nat, k: nat, h: nat) -> bool {
    &&& n <= k ==> h == 1
    &&& n > k ==> h % 2 == 1 && h >= 3 && n <= k * pow2((h - 1) as nat) && k * pow2((h - 3) as nat) < n
}

/// The height grows with the number of elements: more elements never get a lower tree.
pub proof fn lemma_height_grows(n1: nat, n2: nat, k: nat, h1: nat, h2: nat)
    requires
        n1 <= n2,
        height_for(n1, k, h1),
        height_for(n2, k, h2),
    ensures
        h1 <= h2,
{
    if n1 > k && h1 > h2 {
        assert(h1 >= h2 + 2);
        if h1 - 3 > h2 - 1 {
            lemma_pow2_strictly_increases((h2 - 1) as nat, (h1 - 3) as nat);
        }
        let a = pow2((h2 - 1) as nat);
        let b = pow2((h1 - 3) as nat);
        assert(a <= b);
        assert(k * a <= k * b) by (nonlinear_arith)
            requires
                a <= b,
        ;
    }
}

/// The height of a tree for `num_bots` elements such that each node holds about `num_per_node`
/// of them: 1 when they fit in one node, else the least odd height `h` with
/// `num_bots <= num_per_node * 2^(h - 1)`. An odd height keeps the leaves on the same axis as
/// the root.
pub fn compute_tree_height_heuristic(num_bots: usize, num_per_node: usize) -> (h: usize)
    requires
        num_bots <= num_per_node || num_per_node > 0,
    ensures
        height_for(num_bots as nat, num_per_node as nat, h as nat),
{
    if num_bots <= num_per_node {
        return 1;
    }
    let mut cap = num_per_node;
    let mut h: usize = 1;
    proof {
        lemma2_to64();
        assert(num_per_node * pow2(0) == num_per_node) by (nonlinear_arith)
            requires
                pow2(0) == 1,
        ;
    }
    while cap < num_bots
        invariant_except_break
            cap == num_per_node * pow2((h - 1) as nat),
            h % 2 == 1,
            1 <= h,
            h == 1 ==> cap < num_bots,
            h >= 3 ==> num_per_node * pow2((h - 3) as nat) < num_bots,
        invariant
            num_per_node > 0,
            num_bots > num_per_node,
            cap >= num_per_node,
        ensures
            h % 2 == 1,
            h >= 3,
            num_bots <= num_per_node * pow2((h - 1) as nat),
            num_per_node * pow2((h - 3) as nat) < num_bots,
        decreases usize::MAX - cap,
    {
        proof {
            let x = pow2((h - 1) as nat);
            assert(x <= cap) by (nonlinear_arith)
                requires
                    cap == num_per_node * x,
                    num_per_node > 0,
            ;
            lemma2_to64();
            assert(usize::MAX < pow2(64));
            if h - 1 >= 64 {
                if h - 1 > 64 {
                    lemma_pow2_strictly_increases(64, (h - 1) as nat);
                }
                assert(false);
            }
            lemma_pow2_unfold((h + 1) as nat);
            lemma_pow2_unfold(h as nat);
            assert(pow2((h + 1) as nat) == 4 * x);
            assert(num_per_node * (4 * x) == 4 * (num_per_node * x)) by (nonlinear_arith);
        }
        if cap > usize::MAX / 4 {
            h = h + 2;
            proof {
                assert(num_per_node * pow2((h - 1) as nat) > usize::MAX);
            }
            break;
        }
        cap = cap * 4;
        h = h + 2;
    }
    h
}

/// The default height of a tree of `num_bots` elements is small enough for its nodes to be counted
/// in a `usize`, with a margin.
pub proof fn lemma_default_height_fits(num_bots: usize, h: usize)
    requires
        num_bots <= DEFAULT_NUMBER_ELEM_PER_NODE ==> h == 1,
        num_bots > DEFAULT_NUMBER_ELEM_PER_NODE ==> h % 2 == 1 && h >= 3
            && DEFAULT_NUMBER_ELEM_PER_NODE * pow2((h - 3) as nat) < num_bots,
    ensures
        1 <= h,
        h + 4 < usize::BITS,
{
    lemma2_to64();
    assert(usize::BITS == 32 || usize::BITS == 64);
    if num_bots > DEFAULT_NUMBER_ELEM_PER_NODE {
        lemma_pow2_adds(7, (h - 3) as nat);
        assert(pow2(7) * pow2((h - 3) as nat) == pow2((h + 4) as nat));
        if h + 4 >= usize::BITS {
            if h + 4 > usize::BITS {
                lemma_pow2_strictly_increases(usize::BITS as nat, (h + 4) as nat);
            }
            assert(pow2((h + 4) as nat) >= pow2(usize::BITS as nat));
            assert(false);
        }
    }
}

/// Whether the binning of a node checks its indices. Both strategies bin the same way.
#[derive(Clone, Copy, Debug, PartialEq, Eq, Structural)]
pub enum BinStrat {
    Checked,
    NotChecked,
}

/// Callbacks at the events of a recursive algorithm on the tree: splitting into two halves for the
/// children, merging them back, and entering and leaving a node. The spec functions say what each
/// callback makes of the splitter.
pub trait Splitter: Sized {
    /// The splitter after splitting off a part, and the part split off.
    spec fn divided(&self) -> (Self, Self);

    /// The splitter after merging back `b`.
    spec fn added(&self, b: Self) -> Self;

    /// The splitter after a node is entered.
    spec fn started(&self) -> Self;

    /// The splitter after no further level is visited below a node.
    spec fn ended(&self) -> Self;

    /// Splits off the part handed to the second child.
    fn div(&mut self) -> (r: Self)
        ensures
            (*final(self), r) == old(self).divided(),
    ;

    /// Merges back the part handed to the second child.
    fn add(&mut self, b: Self)
        ensures
            *final(self) == old(self).added(b),
    ;

    /// Called when a node is entered.
    fn node_start(&mut self)
        ensures
            *final(self) == old(self).started(),
    ;

    /// Called when no further level is visited below a node.
    fn node_end(&mut self)
        ensures
            *final(self) == old(self).ended(),
    ;
}

/// The splitter after the calls of a walk over every node of a subtree of `r` levels: the node is
/// entered; below a leaf the walk ends; else the splitter is split, the first child's subtree is
/// walked with it and the second's with the part split off, which is then merged back.
pub open spec fn full_walk<K: Splitter>(s: K, r: nat) -> K
    decreases r,
{
    let s1 = s.started();
    if r <= 1 {
        s1.ended()
    } else {
        let (a, b) = s1.divided();
        full_walk(a, (r - 1) as nat).added(full_walk(b, (r - 1) as nat))
    }
}

/// A splitter that does nothing.
pub struct SplitterEmpty;

impl Splitter for SplitterEmpty {
    open spec fn divided(&self) -> (Self, Self) {
        (SplitterEmpty, SplitterEmpty)
    }

    open spec fn added(&self, b: Self) -> Self {
        SplitterEmpty
    }

    open spec fn started(&self) -> Self {
        SplitterEmpty
    }

    open spec fn ended(&self) -> Self {
        SplitterEmpty
    }

    fn div(&mut self) -> (r: Self) {
        SplitterEmpty
    }

    fn add(&mut self, _b: Self) {
    }

    fn node_start(&mut self) {
    }

    fn node_end(&mut self) {
    }
}

} // verus!
