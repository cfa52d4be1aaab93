//! N-body interactions over the tree, in the manner of Barnes-Hut: every pair of elements
//! interacts exactly once, either directly, or through the mass of a node that stands for all the
//! elements under it, when the user finds it far enough. The user gives the physics.
use vstd::prelude::*;
use vstd::arithmetic::power2::{pow2, lemma_pow2_unfold, lemma_pow2_pos};
use crate::geom::{Axis, Rect, Range, with_range};
use crate::bbox::{BBox, BBoxRefMut, same_rects};
use crate::pairs::pair_found;
use crate::colfind::{for_every_pair, half_span, increasing_pairs};
use crate::tree::{Node, DinoTree, wf_sub, right_child, subtree_end, lemma_wf_basic, lemma_wf_rects, lemma_wf_end};
use crate::graphics::{holds_all, lemma_halves_hold};

verus! {

/// The naive n-body step: every pair `(i, j)` of elements with `i < j` interacts, once, in
/// lexicographic order.
pub fn naive_mut<T>(bots: &[BBox<T>]) -> (out: Vec<(usize, usize)>)
    ensures
        forall|k: int| 0 <= k < out@.len() ==> (#[trigger] out@[k]).0 < out@[k].1 < bots@.len(),
        forall|i: int, j: int| 0 <= i < j < bots@.len() ==> pair_found(out@, i, j),
        increasing_pairs(out@),
{
    for_every_pair(bots)
}

/// One interaction of an n-body step. A node's mass stands for the elements `[lo, hi)` of its
/// subtree.
#[derive(Clone, Copy, Debug, PartialEq, Eq, Structural)]
pub enum Interaction {
    /// Two elements interact directly.
    BotBot(usize, usize),
    /// The mass of a node interacts with an element outside its subtree.
    NodeBot { node: usize, lo: usize, hi: usize, bot: usize },
    /// The masses of two nodes with disjoint subtrees interact.
    NodeNode { a: usize, alo: usize, ahi: usize, b: usize, blo: usize, bhi: usize },
}

/// One element is in `[alo, ahi)` and the other in `[blo, bhi)`.
pub open spec fn cross(alo: int, ahi: int, blo: int, bhi: int, i: int, j: int) -> bool {
    (alo <= i < ahi && blo <= j < bhi) || (alo <= j < ahi && blo <= i < bhi)
}

/// The interaction accounts for the pair of elements `{i, j}`.
pub open spec fn accounts(x: Interaction, i: int, j: int) -> bool {
    match x {
        Interaction::BotBot(a, b) => (i == a && j == b) || (i == b && j == a),
        Interaction::NodeBot { node, lo, hi, bot } => cross(lo as int, hi as int, bot as int, bot + 1, i, j),
        Interaction::NodeNode { a, alo, ahi, b, blo, bhi } => cross(alo as int, ahi as int, blo as int, bhi as int, i, j),
    }
}

/// 1 when `b` holds, else 0.
pub open spec fn ind(b: bool) -> nat {
    if b {
        1
    } else {
        0
    }
}

/// How many interactions of `s` account for the pair `{i, j}`.
pub open spec fn count(s: Seq<Interaction>, i: int, j: int) -> nat
    decreases s.len(),
{
    if s.len() == 0 {
        0
    } else {
        count(s.drop_last(), i, j) + ind(accounts(s.last(), i, j))
    }
}

/// The interaction names elements below `nb` and nodes below `nn`, and never an element with
/// itself.
pub open spec fn valid(x: Interaction, nn: nat, nb: nat) -> bool {
    match x {
        Interaction::BotBot(a, b) => a < nb && b < nb && a != b,
        Interaction::NodeBot { node, lo, hi, bot } => node < nn && lo <= hi <= nb && bot < nb && !(lo <= bot < hi),
        Interaction::NodeNode { a, alo, ahi, b, blo, bhi } => a < nn && b < nn && alo <= ahi <= nb && blo <= bhi
            <= nb && (ahi <= blo || bhi <= alo),
    }
}

/// Every interaction of `s` is valid.
pub open spec fn all_valid_in(s: Seq<Interaction>, nn: nat, nb: nat) -> bool {
    forall|k: int| 0 <= k < s.len() ==> valid(#[trigger] s[k], nn, nb)
}

proof fn lemma_count_push(s: Seq<Interaction>, x: Interaction)
    ensures
        forall|i: int, j: int| #[trigger] count(s.push(x), i, j) == count(s, i, j) + ind(accounts(x, i, j)),
{
    assert(s.push(x).drop_last() =~= s);
}

/// Appends `x`, keeping the list valid.
fn push_one(out: &mut Vec<Interaction>, x: Interaction, Ghost(nn): Ghost<nat>, Ghost(nb): Ghost<nat>)
    requires
        all_valid_in(old(out)@, nn, nb),
        valid(x, nn, nb),
    ensures
        final(out)@ == old(out)@.push(x),
        all_valid_in(final(out)@, nn, nb),
        forall|i: int, j: int| #[trigger] count(final(out)@, i, j) == count(old(out)@, i, j) + ind(accounts(x, i, j)),
{
    proof {
        lemma_count_push(out@, x);
    }
    out.push(x);
}

/// Element `b` against each element of `[as_, ae)`, in order.
pub open spec fn cross_row(as_: int, ae: int, b: int) -> Seq<Interaction> {
    Seq::new(
        (if as_ < ae { ae - as_ } else { 0 }) as nat,
        |k: int| Interaction::BotBot((as_ + k) as usize, b as usize),
    )
}

/// Each element of `[bs, be)` in order, against each element of `[as_, ae)`: the direct
/// interactions of two runs of elements.
pub open spec fn cross_seq(as_: int, ae: int, bs: int, be: int) -> Seq<Interaction>
    decreases be - bs,
{
    if be <= bs {
        Seq::empty()
    } else {
        cross_seq(as_, ae, bs, be - 1) + cross_row(as_, ae, be - 1)
    }
}

/// The mass of node `node`, standing for `[lo, hi)`, against each element of `[bs, be)`, in
/// order.
pub open spec fn node_bots_seq(node: int, lo: int, hi: int, bs: int, be: int) -> Seq<Interaction> {
    Seq::new(
        (if bs < be { be - bs } else { 0 }) as nat,
        |k: int| Interaction::NodeBot { node: node as usize, lo: lo as usize, hi: hi as usize, bot: (bs + k) as usize },
    )
}

/// Element `a` against each later element of `[a, hi)`, in order.
pub open spec fn own_row(a: int, hi: int) -> Seq<Interaction> {
    Seq::new(
        (if a + 1 < hi { hi - a - 1 } else { 0 }) as nat,
        |k: int| Interaction::BotBot(a as usize, (a + 1 + k) as usize),
    )
}

/// The rows of `own_row` for the elements `[lo, a)` of `[lo, hi)`, in order.
pub open spec fn own_rows(lo: int, a: int, hi: int) -> Seq<Interaction>
    decreases a - lo,
{
    if a <= lo {
        Seq::empty()
    } else {
        own_rows(lo, a - 1, hi) + own_row(a - 1, hi)
    }
}

/// Every pair of distinct elements of `[lo, hi)`, directly: the first element of the pair in
/// order, then the second.
pub open spec fn own_seq(lo: int, hi: int) -> Seq<Interaction> {
    own_rows(lo, hi, hi)
}

/// Every element of `[bs, be)` interacts with every element of `[as_, ae)`.
fn push_cross(out: &mut Vec<Interaction>, as_: usize, ae: usize, bs: usize, be: usize, Ghost(nn): Ghost<nat>, Ghost(nb): Ghost<nat>)
    requires
        all_valid_in(old(out)@, nn, nb),
        as_ <= ae <= nb,
        bs <= be <= nb,
        ae <= bs || be <= as_,
    ensures
        final(out)@ == old(out)@ + cross_seq(as_ as int, ae as int, bs as int, be as int),
        all_valid_in(final(out)@, nn, nb),
        forall|i: int, j: int| #[trigger] count(final(out)@, i, j) == count(old(out)@, i, j) + ind(
            cross(as_ as int, ae as int, bs as int, be as int, i, j),
        ),
{
    let ghost out0 = out@;
    let mut b = bs;
    while b < be
        invariant
            bs <= b <= be <= nb,
            as_ <= ae <= nb,
            ae <= bs || be <= as_,
            all_valid_in(out@, nn, nb),
            out@ == out0 + cross_seq(as_ as int, ae as int, bs as int, b as int),
            forall|i: int, j: int| #[trigger] count(out@, i, j) == count(out0, i, j) + ind(
                cross(as_ as int, ae as int, bs as int, b as int, i, j),
            ),
        decreases be - b,
    {
        let ghost outb = out@;
        let mut a = as_;
        while a < ae
            invariant
                bs <= b < be <= nb,
                as_ <= a <= ae <= nb,
                ae <= bs || be <= as_,
                all_valid_in(out@, nn, nb),
                out@ == outb + cross_row(as_ as int, a as int, b as int),
                forall|i: int, j: int| #[trigger] count(out@, i, j) == count(outb, i, j) + ind(
                    cross(as_ as int, a as int, b as int, b + 1, i, j),
                ),
            decreases ae - a,
        {
            push_one(out, Interaction::BotBot(a, b), Ghost(nn), Ghost(nb));
            proof {
                assert(cross_row(as_ as int, a + 1, b as int) =~= cross_row(as_ as int, a as int, b as int).push(
                    Interaction::BotBot(a, b),
                ));
                assert(out@ =~= outb + cross_row(as_ as int, a + 1, b as int));
            }
            a = a + 1;
        }
        proof {
            assert(out@ =~= out0 + cross_seq(as_ as int, ae as int, bs as int, b + 1));
        }
        b = b + 1;
    }
}

/// The mass of node `node`, standing for `[lo, hi)`, interacts with every element of `[bs, be)`.
fn push_node_bots(out: &mut Vec<Interaction>, node: usize, lo: usize, hi: usize, bs: usize, be: usize, Ghost(nn): Ghost<nat>, Ghost(nb): Ghost<nat>)
    requires
        all_valid_in(old(out)@, nn, nb),
        node < nn,
        lo <= hi <= nb,
        bs <= be <= nb,
        hi <= bs || be <= lo,
    ensures
        final(out)@ == old(out)@ + node_bots_seq(node as int, lo as int, hi as int, bs as int, be as int),
        all_valid_in(final(out)@, nn, nb),
        forall|i: int, j: int| #[trigger] count(final(out)@, i, j) == count(old(out)@, i, j) + ind(
            cross(lo as int, hi as int, bs as int, be as int, i, j),
        ),
{
    let ghost out0 = out@;
    let mut b = bs;
    while b < be
        invariant
            bs <= b <= be <= nb,
            node < nn,
            lo <= hi <= nb,
            hi <= bs || be <= lo,
            all_valid_in(out@, nn, nb),
            out@ == out0 + node_bots_seq(node as int, lo as int, hi as int, bs as int, b as int),
            forall|i: int, j: int| #[trigger] count(out@, i, j) == count(out0, i, j) + ind(
                cross(lo as int, hi as int, bs as int, b as int, i, j),
            ),
        decreases be - b,
    {
        push_one(out, Interaction::NodeBot { node, lo, hi, bot: b }, Ghost(nn), Ghost(nb));
        proof {
            assert(out@ =~= out0 + node_bots_seq(node as int, lo as int, hi as int, bs as int, b + 1));
        }
        b = b + 1;
    }
}

/// Every pair of distinct elements of `[lo, hi)` interacts directly.
fn own_pairs(out: &mut Vec<Interaction>, lo: usize, hi: usize, Ghost(nn): Ghost<nat>, Ghost(nb): Ghost<nat>)
    requires
        all_valid_in(old(out)@, nn, nb),
        lo <= hi <= nb,
    ensures
        final(out)@ == old(out)@ + own_seq(lo as int, hi as int),
        all_valid_in(final(out)@, nn, nb),
        forall|i: int, j: int| #[trigger] count(final(out)@, i, j) == count(old(out)@, i, j) + ind(
            lo <= i < hi && lo <= j < hi && i != j,
        ),
{
    let ghost out0 = out@;
    let mut a = lo;
    while a < hi
        invariant
            lo <= a <= hi <= nb,
            all_valid_in(out@, nn, nb),
            out@ == out0 + own_rows(lo as int, a as int, hi as int),
            forall|i: int, j: int| #[trigger] count(out@, i, j) == count(out0, i, j) + ind(
                lo <= i < hi && lo <= j < hi && i != j && (i < a || j < a),
            ),
        decreases hi - a,
    {
        let ghost outa = out@;
        let mut b = a + 1;
        while b < hi
            invariant
                lo <= a < b <= hi <= nb,
                all_valid_in(out@, nn, nb),
                out@ == outa + own_row(a as int, b as int),
                forall|i: int, j: int| #[trigger] count(out@, i, j) == count(outa, i, j) + ind(
                    cross(a as int, a + 1, a + 1, b as int, i, j),
                ),
            decreases hi - b,
        {
            push_one(out, Interaction::BotBot(a, b), Ghost(nn), Ghost(nb));
            proof {
                assert(own_row(a as int, b + 1) =~= own_row(a as int, b as int).push(Interaction::BotBot(a, b)));
                assert(out@ =~= outa + own_row(a as int, b + 1));
            }
            b = b + 1;
        }
        proof {
            assert(out@ =~= out0 + own_rows(lo as int, a + 1, hi as int));
        }
        a = a + 1;
    }
}

/// The physics of an n-body step, which the user gives: the mass of a node, how masses and
/// elements act on each other, and when a node is far enough to stand for its elements. The spec
/// functions name what each action leaves behind, as a function of what it is handed.
pub trait NodeMassTrait {
    /// The mass of a node.
    type No: Copy;
    /// The data of an element.
    type Inner;

    /// The masses that two masses leave each other with.
    spec fn node_node(&self, a: Self::No, b: Self::No) -> (Self::No, Self::No);

    /// The data that two elements, with their rectangles, leave each other with.
    spec fn bot_bot(&self, ra: Rect, a: Self::Inner, rb: Rect, b: Self::Inner) -> (Self::Inner, Self::Inner);

    /// The mass and the element data that a mass and an element leave each other with.
    spec fn node_bot(&self, a: Self::No, rb: Rect, b: Self::Inner) -> (Self::No, Self::Inner);

    /// The data of an element after a mass hands on to it what it gathered.
    spec fn applied(&self, a: Self::No, rb: Rect, b: Self::Inner) -> Self::Inner;

    /// The mass of the elements `bots` in the region `rect`.
    spec fn mass_of(&self, bots: &[BBox<Self::Inner>], rect: Rect) -> Self::No;

    /// Whether the two positions are far enough apart, as `is_far_enough` decides.
    spec fn far_enough(&self, b: [i64; 2]) -> bool;

    /// Whether the two positions are far enough apart, as `is_far_enough_half` decides.
    spec fn far_enough_half(&self, b: [i64; 2]) -> bool;

    /// The region that a mass records.
    spec fn region_of(no: Self::No) -> Rect;

    /// The region of the node whose mass this is.
    fn get_rect(no: &Self::No) -> (r: &Rect)
        ensures
            *r == Self::region_of(*no),
    ;

    /// Two masses act on each other.
    fn handle_node_with_node(&self, a: &mut Self::No, b: &mut Self::No)
        ensures
            (*final(a), *final(b)) == self.node_node(*old(a), *old(b)),
    ;

    /// Two elements act on each other.
    fn handle_bot_with_bot(&self, a: BBoxRefMut<'_, Self::Inner>, b: BBoxRefMut<'_, Self::Inner>)
        ensures
            (*final(a.inner), *final(b.inner)) == self.bot_bot(*a.rect, *old(a.inner), *b.rect, *old(b.inner)),
    ;

    /// A mass and an element act on each other.
    fn handle_node_with_bot(&self, a: &mut Self::No, b: BBoxRefMut<'_, Self::Inner>)
        ensures
            (*final(a), *final(b.inner)) == self.node_bot(*old(a), *b.rect, *old(b.inner)),
    ;

    /// Whether two positions on an axis, a divider and the near side of a node's region, are far
    /// enough apart for the node's mass to stand for its elements.
    fn is_far_enough(&self, b: [i64; 2]) -> (r: bool)
        ensures
            r == self.far_enough(b),
    ;

    /// As `is_far_enough`, for two nodes on either side of the same divider.
    fn is_far_enough_half(&self, b: [i64; 2]) -> (r: bool)
        ensures
            r == self.far_enough_half(b),
    ;

    /// Hands what a mass gathered on to one element under its node.
    fn apply_to_bots(&self, a: &Self::No, b: BBoxRefMut<'_, Self::Inner>)
        ensures
            *final(b.inner) == self.applied(*a, *b.rect, *old(b.inner)),
    ;

    /// The mass of the given elements, in the region `rect`.
    fn new(&self, bots: &[BBox<Self::Inner>], rect: Rect) -> (r: Self::No)
        ensures
            r == self.mass_of(bots, rect),
    ;
}

/// The part of the tree the planning walks read: the nodes, the number of elements, the masses.
pub struct PlanInput<'a, N: NodeMassTrait> {
    pub nodes: &'a [Node],
    pub masses: &'a Vec<N::No>,
    pub ctx: &'a N,
}

/// The end of the range of `rect` on `axis` when `far_side`, else its start.
pub open spec fn side(rect: Rect, axis: Axis, far_side: bool) -> i64 {
    if far_side {
        rect.range_of(axis).end
    } else {
        rect.range_of(axis).start
    }
}

/// The interactions of the anchor `[as_, ae)`, a node's own elements on divider `adiv` along
/// `aaxis`, with the subtree of node `m`, which has `r` levels and walk axis `axis` and holds
/// `[lo, hi)`. On the divider's axis, a subtree whose region's side `left_side` faces the anchor
/// (its far end for a left subtree, its start for a right one) and which `far_enough` finds far
/// from the divider acts through its mass; otherwise the node's own elements interact directly
/// and its children follow, left then right. A subtree whose root has no divider holds nothing
/// below its root and adds nothing.
#[verifier::opaque]
pub open spec fn plan_anchor<N: NodeMassTrait>(
    ctx: N,
    ms: Seq<N::No>,
    nodes: Seq<Node>,
    as_: int,
    ae: int,
    aaxis: Axis,
    adiv: i64,
    left_side: bool,
    m: int,
    r: nat,
    axis: Axis,
    lo: int,
    hi: int,
) -> Seq<Interaction>
    decreases r,
{
    if axis == aaxis && ctx.far_enough([adiv, side(N::region_of(ms[m]), axis, left_side)]) {
        node_bots_seq(m, lo, hi, as_, ae)
    } else if r > 1 && nodes[m].div is None {
        Seq::empty()
    } else if r <= 1 {
        cross_seq(as_, ae, lo, nodes[m].end as int)
    } else {
        let rc = right_child(m, r);
        let mid = nodes[rc].start as int;
        cross_seq(as_, ae, lo, nodes[m].end as int)
            + plan_anchor(ctx, ms, nodes, as_, ae, aaxis, adiv, left_side, m + 1, (r - 1) as nat, axis.other(), nodes[m].end as int, mid)
            + plan_anchor(ctx, ms, nodes, as_, ae, aaxis, adiv, left_side, rc, (r - 1) as nat, axis.other(), mid, hi)
    }
}

/// The interactions of the mass of node `an`, standing for `[alo, ahi)` left of the divider
/// `adiv` along `aaxis`, with the subtree of node `m` (`r` levels, walk axis `axis`, holding
/// `[lo, hi)`) right of it. On the divider's axis, a subtree whose region starts where
/// `far_enough_half` finds far from the divider interacts mass to mass; otherwise the mass meets
/// the node's own elements and the children follow.
#[verifier::opaque]
pub open spec fn plan_node<N: NodeMassTrait>(
    ctx: N,
    ms: Seq<N::No>,
    nodes: Seq<Node>,
    an: int,
    alo: int,
    ahi: int,
    aaxis: Axis,
    adiv: i64,
    m: int,
    r: nat,
    axis: Axis,
    lo: int,
    hi: int,
) -> Seq<Interaction>
    decreases r,
{
    if axis == aaxis && ctx.far_enough_half([adiv, side(N::region_of(ms[m]), axis, false)]) {
        seq![Interaction::NodeNode { a: an as usize, alo: alo as usize, ahi: ahi as usize, b: m as usize, blo: lo as usize, bhi: hi as usize }]
    } else if r > 1 && nodes[m].div is None {
        Seq::empty()
    } else if r <= 1 {
        node_bots_seq(an, alo, ahi, lo, nodes[m].end as int)
    } else {
        let rc = right_child(m, r);
        let mid = nodes[rc].start as int;
        node_bots_seq(an, alo, ahi, lo, nodes[m].end as int)
            + plan_node(ctx, ms, nodes, an, alo, ahi, aaxis, adiv, m + 1, (r - 1) as nat, axis.other(), nodes[m].end as int, mid)
            + plan_node(ctx, ms, nodes, an, alo, ahi, aaxis, adiv, rc, (r - 1) as nat, axis.other(), mid, hi)
    }
}

/// The interactions of element `b`, left of the divider `adiv` along `aaxis`, with the subtree of
/// node `m` (`r` levels, walk axis `axis`, holding `[lo, hi)`) right of it. On the divider's axis,
/// a subtree whose region starts where `far_enough_half` finds far from the divider acts through
/// its mass; otherwise the element meets the node's own elements and the children follow.
#[verifier::opaque]
pub open spec fn plan_bot<N: NodeMassTrait>(
    ctx: N,
    ms: Seq<N::No>,
    nodes: Seq<Node>,
    b: int,
    aaxis: Axis,
    adiv: i64,
    m: int,
    r: nat,
    axis: Axis,
    lo: int,
    hi: int,
) -> Seq<Interaction>
    decreases r,
{
    if axis == aaxis && ctx.far_enough_half([adiv, side(N::region_of(ms[m]), axis, false)]) {
        seq![Interaction::NodeBot { node: m as usize, lo: lo as usize, hi: hi as usize, bot: b as usize }]
    } else if r > 1 && nodes[m].div is None {
        Seq::empty()
    } else if r <= 1 {
        cross_seq(b, b + 1, lo, nodes[m].end as int)
    } else {
        let rc = right_child(m, r);
        let mid = nodes[rc].start as int;
        cross_seq(b, b + 1, lo, nodes[m].end as int)
            + plan_bot(ctx, ms, nodes, b, aaxis, adiv, m + 1, (r - 1) as nat, axis.other(), nodes[m].end as int, mid)
            + plan_bot(ctx, ms, nodes, b, aaxis, adiv, rc, (r - 1) as nat, axis.other(), mid, hi)
    }
}

/// `plan_bot` for each element of `[bs, be)` in order, against the same subtree.
pub open spec fn plan_bots<N: NodeMassTrait>(
    ctx: N,
    ms: Seq<N::No>,
    nodes: Seq<Node>,
    bs: int,
    be: int,
    aaxis: Axis,
    adiv: i64,
    m: int,
    r: nat,
    axis: Axis,
    lo: int,
    hi: int,
) -> Seq<Interaction>
    decreases be - bs,
{
    if be <= bs {
        Seq::empty()
    } else {
        plan_bots(ctx, ms, nodes, bs, be - 1, aaxis, adiv, m, r, axis, lo, hi)
            + plan_bot(ctx, ms, nodes, be - 1, aaxis, adiv, m, r, axis, lo, hi)
    }
}

/// The interactions of the left child's subtree, node `m` (`r` levels, walk axis `axis`, holding
/// `[lo, hi)`), with the right child's, node `rn` (`rr` levels, holding `[rlo, rhi)`), of a node
/// dividing on `adiv` along `aaxis`. On the divider's axis, a left subtree whose region ends where
/// `far_enough_half` finds far from the divider acts through its mass, with `plan_node`;
/// otherwise each of the node's own elements meets the right subtree, with `plan_bot`, and the
/// children follow.
#[verifier::opaque]
pub open spec fn plan_left_right<N: NodeMassTrait>(
    ctx: N,
    ms: Seq<N::No>,
    nodes: Seq<Node>,
    aaxis: Axis,
    adiv: i64,
    m: int,
    r: nat,
    axis: Axis,
    lo: int,
    hi: int,
    rn: int,
    rr: nat,
    rlo: int,
    rhi: int,
) -> Seq<Interaction>
    decreases r,
{
    if axis == aaxis && ctx.far_enough_half([side(N::region_of(ms[m]), axis, true), adiv]) {
        plan_node(ctx, ms, nodes, m, lo, hi, aaxis, adiv, rn, rr, axis, rlo, rhi)
    } else if r > 1 && nodes[m].div is None {
        Seq::empty()
    } else if r <= 1 {
        plan_bots(ctx, ms, nodes, lo, nodes[m].end as int, aaxis, adiv, rn, rr, axis, rlo, rhi)
    } else {
        let rc = right_child(m, r);
        let mid = nodes[rc].start as int;
        plan_bots(ctx, ms, nodes, lo, nodes[m].end as int, aaxis, adiv, rn, rr, axis, rlo, rhi)
            + plan_left_right(ctx, ms, nodes, aaxis, adiv, m + 1, (r - 1) as nat, axis.other(), nodes[m].end as int, mid, rn, rr, rlo, rhi)
            + plan_left_right(ctx, ms, nodes, aaxis, adiv, rc, (r - 1) as nat, axis.other(), mid, hi, rn, rr, rlo, rhi)
    }
}

/// The interactions of an n-body step on the subtree of node `i` (`r` levels, axis `axis`,
/// holding `[lo, hi)`), given the masses `ms`. A leaf's elements interact pairwise. A node
/// without divider holds nothing and adds nothing. Otherwise: the node's own elements pairwise,
/// then against the left subtree and the right subtree (`plan_anchor`), the left subtree against
/// the right one (`plan_left_right`), then each subtree on its own.
#[verifier::opaque]
pub open spec fn plan_tree<N: NodeMassTrait>(
    ctx: N,
    ms: Seq<N::No>,
    nodes: Seq<Node>,
    i: int,
    r: nat,
    axis: Axis,
    lo: int,
    hi: int,
) -> Seq<Interaction>
    decreases r,
{
    if r <= 1 {
        own_seq(lo, hi)
    } else if nodes[i].div is None {
        Seq::empty()
    } else {
        let d = nodes[i].div.unwrap();
        let e = nodes[i].end as int;
        let rc = right_child(i, r);
        let mid = nodes[rc].start as int;
        let sub = (r - 1) as nat;
        own_seq(lo, e)
            + plan_anchor(ctx, ms, nodes, lo, e, axis, d, true, i + 1, sub, axis.other(), e, mid)
            + plan_anchor(ctx, ms, nodes, lo, e, axis, d, false, rc, sub, axis.other(), mid, hi)
            + plan_left_right(ctx, ms, nodes, axis, d, i + 1, sub, axis.other(), e, mid, rc, sub, mid, hi)
            + plan_tree(ctx, ms, nodes, i + 1, sub, axis.other(), e, mid)
            + plan_tree(ctx, ms, nodes, rc, sub, axis.other(), mid, hi)
    }
}

/// The end of the range of `rect` on `axis` when `far_side`, else its start.
fn side_of(rect: &Rect, axis: Axis, far_side: bool) -> (v: i64)
    ensures
        v == side(*rect, axis, far_side),
{
    let r = rect.get_range(axis);
    if far_side {
        r.end
    } else {
        r.start
    }
}

/// Appending three runs one after the other appends their concatenation.
proof fn lemma_append3(o: Seq<Interaction>, a: Seq<Interaction>, b: Seq<Interaction>, c: Seq<Interaction>)
    ensures
        o + a + b + c == o + (a + b + c),
{
    assert(o + a + b + c =~= o + (a + b + c));
}

/// One step of `plan_anchor` where the subtree is neither far enough nor empty.
proof fn lemma_anchor_step<N: NodeMassTrait>(
    ctx: N,
    ms: Seq<N::No>,
    nodes: Seq<Node>,
    as_: int,
    ae: int,
    aaxis: Axis,
    adiv: i64,
    left_side: bool,
    m: int,
    r: nat,
    axis: Axis,
    lo: int,
    hi: int,
)
    requires
        !(axis == aaxis && ctx.far_enough([adiv, side(N::region_of(ms[m]), axis, left_side)])),
    ensures
        r > 1 && nodes[m].div is None ==> plan_anchor(ctx, ms, nodes, as_, ae, aaxis, adiv, left_side, m, r, axis, lo, hi)
            == Seq::<Interaction>::empty(),
        r <= 1 ==> plan_anchor(ctx, ms, nodes, as_, ae, aaxis, adiv, left_side, m, r, axis, lo, hi) == cross_seq(
            as_,
            ae,
            lo,
            nodes[m].end as int,
        ),
        r > 1 && nodes[m].div is Some ==> plan_anchor(ctx, ms, nodes, as_, ae, aaxis, adiv, left_side, m, r, axis, lo, hi)
            == cross_seq(as_, ae, lo, nodes[m].end as int) + plan_anchor(
            ctx,
            ms,
            nodes,
            as_,
            ae,
            aaxis,
            adiv,
            left_side,
            m + 1,
            (r - 1) as nat,
            axis.other(),
            nodes[m].end as int,
            nodes[right_child(m, r)].start as int,
        ) + plan_anchor(
            ctx,
            ms,
            nodes,
            as_,
            ae,
            aaxis,
            adiv,
            left_side,
            right_child(m, r),
            (r - 1) as nat,
            axis.other(),
            nodes[right_child(m, r)].start as int,
            hi,
        ),
{
    reveal(plan_anchor);
}

/// Appending six runs one after the other appends their concatenation.
proof fn lemma_append6(
    o: Seq<Interaction>,
    a: Seq<Interaction>,
    b: Seq<Interaction>,
    c: Seq<Interaction>,
    d: Seq<Interaction>,
    e: Seq<Interaction>,
    f: Seq<Interaction>,
)
    ensures
        o + a + b + c + d + e + f == o + (a + b + c + d + e + f),
{
    assert(o + a + b + c + d + e + f =~= o + (a + b + c + d + e + f));
}

/// One step of `plan_node` where the subtree is not far enough.
proof fn lemma_node_step<N: NodeMassTrait>(
    ctx: N,
    ms: Seq<N::No>,
    nodes: Seq<Node>,
    an: int,
    alo: int,
    ahi: int,
    aaxis: Axis,
    adiv: i64,
    m: int,
    r: nat,
    axis: Axis,
    lo: int,
    hi: int,
)
    requires
        !(axis == aaxis && ctx.far_enough_half([adiv, side(N::region_of(ms[m]), axis, false)])),
    ensures
        r > 1 && nodes[m].div is None ==> plan_node(ctx, ms, nodes, an, alo, ahi, aaxis, adiv, m, r, axis, lo, hi)
            == Seq::<Interaction>::empty(),
        r <= 1 ==> plan_node(ctx, ms, nodes, an, alo, ahi, aaxis, adiv, m, r, axis, lo, hi) == node_bots_seq(
            an,
            alo,
            ahi,
            lo,
            nodes[m].end as int,
        ),
        r > 1 && nodes[m].div is Some ==> plan_node(ctx, ms, nodes, an, alo, ahi, aaxis, adiv, m, r, axis, lo, hi)
            == node_bots_seq(an, alo, ahi, lo, nodes[m].end as int) + plan_node(
            ctx,
            ms,
            nodes,
            an,
            alo,
            ahi,
            aaxis,
            adiv,
            m + 1,
            (r - 1) as nat,
            axis.other(),
            nodes[m].end as int,
            nodes[right_child(m, r)].start as int,
        ) + plan_node(
            ctx,
            ms,
            nodes,
            an,
            alo,
            ahi,
            aaxis,
            adiv,
            right_child(m, r),
            (r - 1) as nat,
            axis.other(),
            nodes[right_child(m, r)].start as int,
            hi,
        ),
{
    reveal(plan_node);
}

/// One step of `plan_bot` where the subtree is not far enough.
proof fn lemma_bot_step<N: NodeMassTrait>(
    ctx: N,
    ms: Seq<N::No>,
    nodes: Seq<Node>,
    b: int,
    aaxis: Axis,
    adiv: i64,
    m: int,
    r: nat,
    axis: Axis,
    lo: int,
    hi: int,
)
    requires
        !(axis == aaxis && ctx.far_enough_half([adiv, side(N::region_of(ms[m]), axis, false)])),
    ensures
        r > 1 && nodes[m].div is None ==> plan_bot(ctx, ms, nodes, b, aaxis, adiv, m, r, axis, lo, hi)
            == Seq::<Interaction>::empty(),
        r <= 1 ==> plan_bot(ctx, ms, nodes, b, aaxis, adiv, m, r, axis, lo, hi) == cross_seq(
            b,
            b + 1,
            lo,
            nodes[m].end as int,
        ),
        r > 1 && nodes[m].div is Some ==> plan_bot(ctx, ms, nodes, b, aaxis, adiv, m, r, axis, lo, hi) == cross_seq(
            b,
            b + 1,
            lo,
            nodes[m].end as int,
        ) + plan_bot(
            ctx,
            ms,
            nodes,
            b,
            aaxis,
            adiv,
            m + 1,
            (r - 1) as nat,
            axis.other(),
            nodes[m].end as int,
            nodes[right_child(m, r)].start as int,
        ) + plan_bot(
            ctx,
            ms,
            nodes,
            b,
            aaxis,
            adiv,
            right_child(m, r),
            (r - 1) as nat,
            axis.other(),
            nodes[right_child(m, r)].start as int,
            hi,
        ),
{
    reveal(plan_bot);
}

/// One step of `plan_left_right` where the left subtree is not far enough.
proof fn lemma_left_right_step<N: NodeMassTrait>(
    ctx: N,
    ms: Seq<N::No>,
    nodes: Seq<Node>,
    aaxis: Axis,
    adiv: i64,
    m: int,
    r: nat,
    axis: Axis,
    lo: int,
    hi: int,
    rn: int,
    rr: nat,
    rlo: int,
    rhi: int,
)
    requires
        !(axis == aaxis && ctx.far_enough_half([side(N::region_of(ms[m]), axis, true), adiv])),
    ensures
        r > 1 && nodes[m].div is None ==> plan_left_right(ctx, ms, nodes, aaxis, adiv, m, r, axis, lo, hi, rn, rr, rlo, rhi)
            == Seq::<Interaction>::empty(),
        r <= 1 ==> plan_left_right(ctx, ms, nodes, aaxis, adiv, m, r, axis, lo, hi, rn, rr, rlo, rhi) == plan_bots(
            ctx,
            ms,
            nodes,
            lo,
            nodes[m].end as int,
            aaxis,
            adiv,
            rn,
            rr,
            axis,
            rlo,
            rhi,
        ),
        r > 1 && nodes[m].div is Some ==> plan_left_right(ctx, ms, nodes, aaxis, adiv, m, r, axis, lo, hi, rn, rr, rlo, rhi)
            == plan_bots(ctx, ms, nodes, lo, nodes[m].end as int, aaxis, adiv, rn, rr, axis, rlo, rhi) + plan_left_right(
            ctx,
            ms,
            nodes,
            aaxis,
            adiv,
            m + 1,
            (r - 1) as nat,
            axis.other(),
            nodes[m].end as int,
            nodes[right_child(m, r)].start as int,
            rn,
            rr,
            rlo,
            rhi,
        ) + plan_left_right(
            ctx,
            ms,
            nodes,
            aaxis,
            adiv,
            right_child(m, r),
            (r - 1) as nat,
            axis.other(),
            nodes[right_child(m, r)].start as int,
            hi,
            rn,
            rr,
            rlo,
            rhi,
        ),
{
    reveal(plan_left_right);
}

/// One step of `plan_tree`.
proof fn lemma_tree_step<N: NodeMassTrait>(
    ctx: N,
    ms: Seq<N::No>,
    nodes: Seq<Node>,
    i: int,
    r: nat,
    axis: Axis,
    lo: int,
    hi: int,
)
    ensures
        r <= 1 ==> plan_tree(ctx, ms, nodes, i, r, axis, lo, hi) == own_seq(lo, hi),
        r > 1 && nodes[i].div is None ==> plan_tree(ctx, ms, nodes, i, r, axis, lo, hi) == Seq::<Interaction>::empty(),
        r > 1 && nodes[i].div is Some ==> {
            let d = nodes[i].div.unwrap();
            let e = nodes[i].end as int;
            let rc = right_child(i, r);
            let mid = nodes[rc].start as int;
            let sub = (r - 1) as nat;
            plan_tree(ctx, ms, nodes, i, r, axis, lo, hi) == own_seq(lo, e) + (plan_anchor(
                ctx,
                ms,
                nodes,
                lo,
                e,
                axis,
                d,
                true,
                i + 1,
                sub,
                axis.other(),
                e,
                mid,
            ) + plan_anchor(ctx, ms, nodes, lo, e, axis, d, false, rc, sub, axis.other(), mid, hi) + plan_left_right(
                ctx,
                ms,
                nodes,
                axis,
                d,
                i + 1,
                sub,
                axis.other(),
                e,
                mid,
                rc,
                sub,
                mid,
                hi,
            ) + plan_tree(ctx, ms, nodes, i + 1, sub, axis.other(), e, mid) + plan_tree(
                ctx,
                ms,
                nodes,
                rc,
                sub,
                axis.other(),
                mid,
                hi,
            ))
        },
{
    reveal(plan_tree);
    if r > 1 && nodes[i].div is Some {
        let d = nodes[i].div.unwrap();
        let e = nodes[i].end as int;
        let rc = right_child(i, r);
        let mid = nodes[rc].start as int;
        let sub = (r - 1) as nat;
        let a0 = own_seq(lo, e);
        let a1 = plan_anchor(ctx, ms, nodes, lo, e, axis, d, true, i + 1, sub, axis.other(), e, mid);
        let a2 = plan_anchor(ctx, ms, nodes, lo, e, axis, d, false, rc, sub, axis.other(), mid, hi);
        let a3 = plan_left_right(ctx, ms, nodes, axis, d, i + 1, sub, axis.other(), e, mid, rc, sub, mid, hi);
        let a4 = plan_tree(ctx, ms, nodes, i + 1, sub, axis.other(), e, mid);
        let a5 = plan_tree(ctx, ms, nodes, rc, sub, axis.other(), mid, hi);
        assert(a0 + a1 + a2 + a3 + a4 + a5 =~= a0 + (a1 + a2 + a3 + a4 + a5));
    }
}

/// The elements of the anchor `[as_, ae)`, a node's own elements on divider `adiv` along
/// `aaxis`, against the subtree of node `m`, with `r` levels and walk axis `axis`, holding
/// `[lo, hi)`. A subtree far enough from the anchor acts through its mass.
fn anchor_sub<T, N: NodeMassTrait<Inner = T>>(
    inp: &PlanInput<N>,
    bots: &Vec<BBox<T>>,
    as_: usize,
    ae: usize,
    aaxis: Axis,
    adiv: i64,
    left_side: bool,
    m: usize,
    r: usize,
    axis: Axis,
    sax: Axis,
    lo: usize,
    hi: usize,
    out: &mut Vec<Interaction>,
)
    requires
        wf_sub(inp.nodes@, bots@, m as int, r as nat, sax, lo as int, hi as int, true),
        r < usize::BITS,
        inp.masses@.len() == inp.nodes@.len(),
        as_ <= ae <= lo,
        all_valid_in(old(out)@, inp.nodes@.len(), bots@.len()),
    ensures
        final(out)@ == old(out)@ + plan_anchor(
            *inp.ctx,
            inp.masses@,
            inp.nodes@,
            as_ as int,
            ae as int,
            aaxis,
            adiv,
            left_side,
            m as int,
            r as nat,
            axis,
            lo as int,
            hi as int,
        ),
        all_valid_in(final(out)@, inp.nodes@.len(), bots@.len()),
        forall|i: int, j: int| #[trigger] count(final(out)@, i, j) == count(old(out)@, i, j) + ind(
            cross(as_ as int, ae as int, lo as int, hi as int, i, j),
        ),
    decreases r,
{
    let ghost nn = inp.nodes@.len();
    let ghost nb = bots@.len();
    let ghost want = plan_anchor(*inp.ctx, inp.masses@, inp.nodes@, as_ as int, ae as int, aaxis, adiv, left_side, m as int, r as nat, axis, lo as int, hi as int);
    proof {
        lemma_wf_basic(inp.nodes@, bots@, m as int, r as nat, sax, lo as int, hi as int, true);
        lemma_pow2_unfold(r as nat);
        lemma_pow2_pos((r - 1) as nat);
    }
    if axis.is_equal_to(aaxis) {
        let near = side_of(N::get_rect(&inp.masses[m]), axis, left_side);
        if inp.ctx.is_far_enough([adiv, near]) {
            push_node_bots(out, m, lo, hi, as_, ae, Ghost(nn), Ghost(nb));
            proof {
                assert(want == node_bots_seq(m as int, lo as int, hi as int, as_ as int, ae as int)) by {
                    reveal(plan_anchor);
                }
            }
            return;
        }
    }
    proof {
        lemma_anchor_step(*inp.ctx, inp.masses@, inp.nodes@, as_ as int, ae as int, aaxis, adiv, left_side, m as int, r as nat, axis, lo as int, hi as int);
    }
    let n = inp.nodes[m];
    if r > 1 && n.div.is_none() {
        proof {
            assert(out@ =~= old(out)@ + want);
        }
        return;
    }
    push_cross(out, as_, ae, lo, n.end, Ghost(nn), Ghost(nb));
    if r == 1 {
        return;
    }
    let rc = m + half_span(r);
    let mid = inp.nodes[rc].start;
    anchor_sub(inp, bots, as_, ae, aaxis, adiv, left_side, m + 1, r - 1, axis.next(), sax.next(), n.end, mid, out);
    anchor_sub(inp, bots, as_, ae, aaxis, adiv, left_side, rc, r - 1, axis.next(), sax.next(), mid, hi, out);
    proof {
        lemma_append3(
            old(out)@,
            cross_seq(as_ as int, ae as int, lo as int, n.end as int),
            plan_anchor(*inp.ctx, inp.masses@, inp.nodes@, as_ as int, ae as int, aaxis, adiv, left_side, m + 1, (r - 1) as nat, axis.other(), n.end as int, mid as int),
            plan_anchor(*inp.ctx, inp.masses@, inp.nodes@, as_ as int, ae as int, aaxis, adiv, left_side, rc as int, (r - 1) as nat, axis.other(), mid as int, hi as int),
        );
    }
}

/// The mass of node `an`, standing for `[alo, ahi)`, against the subtree of node `m`, with `r`
/// levels and walk axis `axis`, holding `[lo, hi)`.
fn node_sub<T, N: NodeMassTrait<Inner = T>>(
    inp: &PlanInput<N>,
    bots: &Vec<BBox<T>>,
    an: usize,
    alo: usize,
    ahi: usize,
    aaxis: Axis,
    adiv: i64,
    m: usize,
    r: usize,
    axis: Axis,
    sax: Axis,
    lo: usize,
    hi: usize,
    out: &mut Vec<Interaction>,
)
    requires
        wf_sub(inp.nodes@, bots@, m as int, r as nat, sax, lo as int, hi as int, true),
        r < usize::BITS,
        inp.masses@.len() == inp.nodes@.len(),
        an < inp.nodes@.len(),
        alo <= ahi <= lo,
        all_valid_in(old(out)@, inp.nodes@.len(), bots@.len()),
    ensures
        final(out)@ == old(out)@ + plan_node(
            *inp.ctx,
            inp.masses@,
            inp.nodes@,
            an as int,
            alo as int,
            ahi as int,
            aaxis,
            adiv,
            m as int,
            r as nat,
            axis,
            lo as int,
            hi as int,
        ),
        all_valid_in(final(out)@, inp.nodes@.len(), bots@.len()),
        forall|i: int, j: int| #[trigger] count(final(out)@, i, j) == count(old(out)@, i, j) + ind(
            cross(alo as int, ahi as int, lo as int, hi as int, i, j),
        ),
    decreases r,
{
    let ghost nn = inp.nodes@.len();
    let ghost nb = bots@.len();
    let ghost want = plan_node(*inp.ctx, inp.masses@, inp.nodes@, an as int, alo as int, ahi as int, aaxis, adiv, m as int, r as nat, axis, lo as int, hi as int);
    proof {
        lemma_wf_basic(inp.nodes@, bots@, m as int, r as nat, sax, lo as int, hi as int, true);
        lemma_pow2_unfold(r as nat);
        lemma_pow2_pos((r - 1) as nat);
    }
    if axis.is_equal_to(aaxis) {
        let near = side_of(N::get_rect(&inp.masses[m]), axis, false);
        if inp.ctx.is_far_enough_half([adiv, near]) {
            let x = Interaction::NodeNode { a: an, alo, ahi, b: m, blo: lo, bhi: hi };
            push_one(out, x, Ghost(nn), Ghost(nb));
            proof {
                assert(want == seq![x]) by {
                    reveal(plan_node);
                }
                assert(out@ =~= old(out)@ + want);
            }
            return;
        }
    }
    proof {
        lemma_node_step(*inp.ctx, inp.masses@, inp.nodes@, an as int, alo as int, ahi as int, aaxis, adiv, m as int, r as nat, axis, lo as int, hi as int);
    }
    let n = inp.nodes[m];
    if r > 1 && n.div.is_none() {
        proof {
            assert(out@ =~= old(out)@ + want);
        }
        return;
    }
    push_node_bots(out, an, alo, ahi, lo, n.end, Ghost(nn), Ghost(nb));
    if r == 1 {
        return;
    }
    let rc = m + half_span(r);
    let mid = inp.nodes[rc].start;
    node_sub(inp, bots, an, alo, ahi, aaxis, adiv, m + 1, r - 1, axis.next(), sax.next(), n.end, mid, out);
    node_sub(inp, bots, an, alo, ahi, aaxis, adiv, rc, r - 1, axis.next(), sax.next(), mid, hi, out);
    proof {
        lemma_append3(
            old(out)@,
            node_bots_seq(an as int, alo as int, ahi as int, lo as int, n.end as int),
            plan_node(*inp.ctx, inp.masses@, inp.nodes@, an as int, alo as int, ahi as int, aaxis, adiv, m + 1, (r - 1) as nat, axis.other(), n.end as int, mid as int),
            plan_node(*inp.ctx, inp.masses@, inp.nodes@, an as int, alo as int, ahi as int, aaxis, adiv, rc as int, (r - 1) as nat, axis.other(), mid as int, hi as int),
        );
    }
}

/// Element `b` against the subtree of node `m`, with `r` levels and walk axis `axis`, holding
/// `[lo, hi)`.
fn bot_sub<T, N: NodeMassTrait<Inner = T>>(
    inp: &PlanInput<N>,
    bots: &Vec<BBox<T>>,
    b: usize,
    aaxis: Axis,
    adiv: i64,
    m: usize,
    r: usize,
    axis: Axis,
    sax: Axis,
    lo: usize,
    hi: usize,
    out: &mut Vec<Interaction>,
)
    requires
        wf_sub(inp.nodes@, bots@, m as int, r as nat, sax, lo as int, hi as int, true),
        r < usize::BITS,
        inp.masses@.len() == inp.nodes@.len(),
        b < lo,
        all_valid_in(old(out)@, inp.nodes@.len(), bots@.len()),
    ensures
        final(out)@ == old(out)@ + plan_bot(
            *inp.ctx,
            inp.masses@,
            inp.nodes@,
            b as int,
            aaxis,
            adiv,
            m as int,
            r as nat,
            axis,
            lo as int,
            hi as int,
        ),
        all_valid_in(final(out)@, inp.nodes@.len(), bots@.len()),
        forall|i: int, j: int| #[trigger] count(final(out)@, i, j) == count(old(out)@, i, j) + ind(
            cross(b as int, b + 1, lo as int, hi as int, i, j),
        ),
    decreases r,
{
    let ghost nn = inp.nodes@.len();
    let ghost nb = bots@.len();
    let ghost want = plan_bot(*inp.ctx, inp.masses@, inp.nodes@, b as int, aaxis, adiv, m as int, r as nat, axis, lo as int, hi as int);
    proof {
        lemma_wf_basic(inp.nodes@, bots@, m as int, r as nat, sax, lo as int, hi as int, true);
        lemma_pow2_unfold(r as nat);
        lemma_pow2_pos((r - 1) as nat);
    }
    if axis.is_equal_to(aaxis) {
        let near = side_of(N::get_rect(&inp.masses[m]), axis, false);
        if inp.ctx.is_far_enough_half([adiv, near]) {
            let x = Interaction::NodeBot { node: m, lo, hi, bot: b };
            push_one(out, x, Ghost(nn), Ghost(nb));
            proof {
                assert(want == seq![x]) by {
                    reveal(plan_bot);
                }
                assert(out@ =~= old(out)@ + want);
            }
            return;
        }
    }
    proof {
        lemma_bot_step(*inp.ctx, inp.masses@, inp.nodes@, b as int, aaxis, adiv, m as int, r as nat, axis, lo as int, hi as int);
    }
    let n = inp.nodes[m];
    if r > 1 && n.div.is_none() {
        proof {
            assert(out@ =~= old(out)@ + want);
        }
        return;
    }
    push_cross(out, b, b + 1, lo, n.end, Ghost(nn), Ghost(nb));
    if r == 1 {
        return;
    }
    let rc = m + half_span(r);
    let mid = inp.nodes[rc].start;
    bot_sub(inp, bots, b, aaxis, adiv, m + 1, r - 1, axis.next(), sax.next(), n.end, mid, out);
    bot_sub(inp, bots, b, aaxis, adiv, rc, r - 1, axis.next(), sax.next(), mid, hi, out);
    proof {
        lemma_append3(
            old(out)@,
            cross_seq(b as int, b + 1, lo as int, n.end as int),
            plan_bot(*inp.ctx, inp.masses@, inp.nodes@, b as int, aaxis, adiv, m + 1, (r - 1) as nat, axis.other(), n.end as int, mid as int),
            plan_bot(*inp.ctx, inp.masses@, inp.nodes@, b as int, aaxis, adiv, rc as int, (r - 1) as nat, axis.other(), mid as int, hi as int),
        );
    }
}

/// The subtree of node `m`, with `r` levels and walk axis `axis`, holding `[lo, hi)`, against the
/// subtree of node `rn`, with `rr` levels and shape axis `rsax`, holding `[rlo, rhi)`: the two
/// children of a node that divides on `adiv` along `aaxis`.
fn left_right<T, N: NodeMassTrait<Inner = T>>(
    inp: &PlanInput<N>,
    bots: &Vec<BBox<T>>,
    aaxis: Axis,
    adiv: i64,
    m: usize,
    r: usize,
    axis: Axis,
    sax: Axis,
    lo: usize,
    hi: usize,
    rn: usize,
    rr: usize,
    rsax: Axis,
    rlo: usize,
    rhi: usize,
    out: &mut Vec<Interaction>,
)
    requires
        wf_sub(inp.nodes@, bots@, m as int, r as nat, sax, lo as int, hi as int, true),
        wf_sub(inp.nodes@, bots@, rn as int, rr as nat, rsax, rlo as int, rhi as int, true),
        r < usize::BITS,
        rr < usize::BITS,
        inp.masses@.len() == inp.nodes@.len(),
        hi <= rlo,
        all_valid_in(old(out)@, inp.nodes@.len(), bots@.len()),
    ensures
        final(out)@ == old(out)@ + plan_left_right(
            *inp.ctx,
            inp.masses@,
            inp.nodes@,
            aaxis,
            adiv,
            m as int,
            r as nat,
            axis,
            lo as int,
            hi as int,
            rn as int,
            rr as nat,
            rlo as int,
            rhi as int,
        ),
        all_valid_in(final(out)@, inp.nodes@.len(), bots@.len()),
        forall|i: int, j: int| #[trigger] count(final(out)@, i, j) == count(old(out)@, i, j) + ind(
            cross(lo as int, hi as int, rlo as int, rhi as int, i, j),
        ),
    decreases r,
{
    let ghost nn = inp.nodes@.len();
    let ghost nb = bots@.len();
    let ghost want = plan_left_right(*inp.ctx, inp.masses@, inp.nodes@, aaxis, adiv, m as int, r as nat, axis, lo as int, hi as int, rn as int, rr as nat, rlo as int, rhi as int);
    proof {
        lemma_wf_basic(inp.nodes@, bots@, m as int, r as nat, sax, lo as int, hi as int, true);
        lemma_wf_basic(inp.nodes@, bots@, rn as int, rr as nat, rsax, rlo as int, rhi as int, true);
        lemma_pow2_unfold(r as nat);
        lemma_pow2_pos((r - 1) as nat);
    }
    if axis.is_equal_to(aaxis) {
        let near = side_of(N::get_rect(&inp.masses[m]), axis, true);
        if inp.ctx.is_far_enough_half([near, adiv]) {
            node_sub(inp, bots, m, lo, hi, aaxis, adiv, rn, rr, axis, rsax, rlo, rhi, out);
            proof {
                assert(want == plan_node(*inp.ctx, inp.masses@, inp.nodes@, m as int, lo as int, hi as int, aaxis, adiv, rn as int, rr as nat, axis, rlo as int, rhi as int)) by {
                    reveal(plan_left_right);
                }
            }
            return;
        }
    }
    proof {
        lemma_left_right_step(*inp.ctx, inp.masses@, inp.nodes@, aaxis, adiv, m as int, r as nat, axis, lo as int, hi as int, rn as int, rr as nat, rlo as int, rhi as int);
    }
    let n = inp.nodes[m];
    if r > 1 && n.div.is_none() {
        proof {
            assert(out@ =~= old(out)@ + want);
        }
        return;
    }
    let ghost out0 = out@;
    let mut b = lo;
    while b < n.end
        invariant
            lo <= b <= n.end <= hi <= rlo,
            wf_sub(inp.nodes@, bots@, rn as int, rr as nat, rsax, rlo as int, rhi as int, true),
            rr < usize::BITS,
            inp.masses@.len() == inp.nodes@.len(),
            nn == inp.nodes@.len(),
            nb == bots@.len(),
            all_valid_in(out@, nn, nb),
            out@ == out0 + plan_bots(*inp.ctx, inp.masses@, inp.nodes@, lo as int, b as int, aaxis, adiv, rn as int, rr as nat, axis, rlo as int, rhi as int),
            forall|i: int, j: int| #[trigger] count(out@, i, j) == count(out0, i, j) + ind(
                cross(lo as int, b as int, rlo as int, rhi as int, i, j),
            ),
        decreases n.end - b,
    {
        bot_sub(inp, bots, b, aaxis, adiv, rn, rr, axis, rsax, rlo, rhi, out);
        proof {
            let pb = plan_bots(*inp.ctx, inp.masses@, inp.nodes@, lo as int, b as int, aaxis, adiv, rn as int, rr as nat, axis, rlo as int, rhi as int);
            let one = plan_bot(*inp.ctx, inp.masses@, inp.nodes@, b as int, aaxis, adiv, rn as int, rr as nat, axis, rlo as int, rhi as int);
            assert(plan_bots(*inp.ctx, inp.masses@, inp.nodes@, lo as int, b + 1, aaxis, adiv, rn as int, rr as nat, axis, rlo as int, rhi as int) == pb + one);
            assert(out0 + pb + one =~= out0 + (pb + one));
        }
        b = b + 1;
    }
    if r == 1 {
        return;
    }
    let rc = m + half_span(r);
    let mid = inp.nodes[rc].start;
    left_right(inp, bots, aaxis, adiv, m + 1, r - 1, axis.next(), sax.next(), n.end, mid, rn, rr, rsax, rlo, rhi, out);
    left_right(inp, bots, aaxis, adiv, rc, r - 1, axis.next(), sax.next(), mid, hi, rn, rr, rsax, rlo, rhi, out);
    proof {
        lemma_append3(
            old(out)@,
            plan_bots(*inp.ctx, inp.masses@, inp.nodes@, lo as int, n.end as int, aaxis, adiv, rn as int, rr as nat, axis, rlo as int, rhi as int),
            plan_left_right(*inp.ctx, inp.masses@, inp.nodes@, aaxis, adiv, m + 1, (r - 1) as nat, axis.other(), n.end as int, mid as int, rn as int, rr as nat, rlo as int, rhi as int),
            plan_left_right(*inp.ctx, inp.masses@, inp.nodes@, aaxis, adiv, rc as int, (r - 1) as nat, axis.other(), mid as int, hi as int, rn as int, rr as nat, rlo as int, rhi as int),
        );
    }
}

/// The plan for the subtree of node `i`, with `r` levels and axis `axis`, holding `[lo, hi)`:
/// every pair of its elements is accounted for once.
fn plan_rec<T, N: NodeMassTrait<Inner = T>>(
    inp: &PlanInput<N>,
    bots: &Vec<BBox<T>>,
    i: usize,
    r: usize,
    axis: Axis,
    lo: usize,
    hi: usize,
    out: &mut Vec<Interaction>,
)
    requires
        wf_sub(inp.nodes@, bots@, i as int, r as nat, axis, lo as int, hi as int, true),
        r < usize::BITS,
        inp.masses@.len() == inp.nodes@.len(),
        all_valid_in(old(out)@, inp.nodes@.len(), bots@.len()),
    ensures
        final(out)@ == old(out)@ + plan_tree(*inp.ctx, inp.masses@, inp.nodes@, i as int, r as nat, axis, lo as int, hi as int),
        all_valid_in(final(out)@, inp.nodes@.len(), bots@.len()),
        forall|p: int, q: int| #[trigger] count(final(out)@, p, q) == count(old(out)@, p, q) + ind(
            lo <= p < hi && lo <= q < hi && p != q,
        ),
    decreases r,
{
    let ghost nn = inp.nodes@.len();
    let ghost nb = bots@.len();
    proof {
        lemma_wf_basic(inp.nodes@, bots@, i as int, r as nat, axis, lo as int, hi as int, true);
        lemma_pow2_unfold(r as nat);
        lemma_pow2_pos((r - 1) as nat);
        lemma_tree_step(*inp.ctx, inp.masses@, inp.nodes@, i as int, r as nat, axis, lo as int, hi as int);
    }
    let n = inp.nodes[i];
    if r == 1 {
        own_pairs(out, lo, hi, Ghost(nn), Ghost(nb));
        return;
    }
    let d = match n.div {
        Some(d) => d,
        None => {
            proof {
                assert(out@ =~= old(out)@ + Seq::<Interaction>::empty());
            }
            return;
        },
    };
    let rc = i + half_span(r);
    let mid = inp.nodes[rc].start;
    own_pairs(out, lo, n.end, Ghost(nn), Ghost(nb));
    anchor_sub(inp, bots, lo, n.end, axis, d, true, i + 1, r - 1, axis.next(), axis.next(), n.end, mid, out);
    anchor_sub(inp, bots, lo, n.end, axis, d, false, rc, r - 1, axis.next(), axis.next(), mid, hi, out);
    left_right(inp, bots, axis, d, i + 1, r - 1, axis.next(), axis.next(), n.end, mid, rc, r - 1, axis.next(), mid, hi, out);
    plan_rec(inp, bots, i + 1, r - 1, axis.next(), n.end, mid, out);
    plan_rec(inp, bots, rc, r - 1, axis.next(), mid, hi, out);
    proof {
        let e = n.end as int;
        let sub = (r - 1) as nat;
        let ax = axis.other();
        lemma_append6(
            old(out)@,
            own_seq(lo as int, e),
            plan_anchor(*inp.ctx, inp.masses@, inp.nodes@, lo as int, e, axis, d, true, i + 1, sub, ax, e, mid as int),
            plan_anchor(*inp.ctx, inp.masses@, inp.nodes@, lo as int, e, axis, d, false, rc as int, sub, ax, mid as int, hi as int),
            plan_left_right(*inp.ctx, inp.masses@, inp.nodes@, axis, d, i + 1, sub, ax, e, mid as int, rc as int, sub, mid as int, hi as int),
            plan_tree(*inp.ctx, inp.masses@, inp.nodes@, i + 1, sub, ax, e, mid as int),
            plan_tree(*inp.ctx, inp.masses@, inp.nodes@, rc as int, sub, ax, mid as int, hi as int),
        );
    }
}

/// The elements of indices `lo..hi`.
fn elems_of<T>(bots: &Vec<BBox<T>>, lo: usize, hi: usize) -> (r: &[BBox<T>])
    requires
        lo <= hi <= bots@.len(),
    ensures
        r@ == bots@.subrange(lo as int, hi as int),
{
    let s = bots.as_slice();
    let (a, _b) = s.split_at(hi);
    let (_c, d) = a.split_at(lo);
    d
}

/// The regions of the two children of a node with divider `div` on `axis` whose region is `rect`:
/// the two halves of `rect` on either side of the divider, or `rect` itself for both when the node
/// has no divider.
pub open spec fn child_regions(rect: Rect, axis: Axis, div: Option<i64>) -> (Rect, Rect) {
    match div {
        Some(d) => (
            with_range(rect, axis, Range { start: rect.range_of(axis).start, end: d }),
            with_range(rect, axis, Range { start: d, end: rect.range_of(axis).end }),
        ),
        None => (rect, rect),
    }
}

/// `ms` holds the masses of the nodes of the subtree of node `i`, which has `r` levels, first axis
/// `axis`, holds the elements `[lo, hi)` of `bots` and covers the region `rect`: the mass of each
/// node, at the node's index, is `mass_of` the elements of its subtree in its region.
pub open spec fn masses_ok<N: NodeMassTrait>(
    ctx: N,
    ms: Seq<N::No>,
    nodes: Seq<Node>,
    bots: Seq<BBox<N::Inner>>,
    i: int,
    r: nat,
    axis: Axis,
    lo: int,
    hi: int,
    rect: Rect,
) -> bool
    decreases r,
{
    &&& 0 <= i < ms.len()
    &&& forall|s: &[BBox<N::Inner>]| s@ == bots.subrange(lo, hi) ==> #[trigger] ctx.mass_of(s, rect) == ms[i]
    &&& r > 1 ==> {
        let (ra, rb) = child_regions(rect, axis, nodes[i].div);
        let mid = subtree_end(nodes, i + 1, (r - 1) as nat);
        &&& masses_ok(ctx, ms, nodes, bots, i + 1, (r - 1) as nat, axis.other(), nodes[i].end as int, mid, ra)
        &&& masses_ok(ctx, ms, nodes, bots, right_child(i, r), (r - 1) as nat, axis.other(), mid, hi, rb)
    }
}

/// `masses_ok` only reads the masses of the subtree.
proof fn lemma_masses_frame<N: NodeMassTrait>(
    ctx: N,
    m1: Seq<N::No>,
    m2: Seq<N::No>,
    nodes: Seq<Node>,
    bots: Seq<BBox<N::Inner>>,
    i: int,
    r: nat,
    axis: Axis,
    lo: int,
    hi: int,
    rect: Rect,
)
    requires
        r >= 1,
        masses_ok(ctx, m1, nodes, bots, i, r, axis, lo, hi, rect),
        i + pow2(r) - 1 <= m2.len(),
        forall|k: int| i <= k < i + pow2(r) - 1 ==> #[trigger] m2[k] == m1[k],
    ensures
        masses_ok(ctx, m2, nodes, bots, i, r, axis, lo, hi, rect),
    decreases r,
{
    lemma_pow2_unfold(r);
    lemma_pow2_pos((r - 1) as nat);
    assert(m2[i] == m1[i]);
    if r > 1 {
        let (ra, rb) = child_regions(rect, axis, nodes[i].div);
        let mid = subtree_end(nodes, i + 1, (r - 1) as nat);
        lemma_masses_frame(ctx, m1, m2, nodes, bots, i + 1, (r - 1) as nat, axis.other(), nodes[i].end as int, mid, ra);
        lemma_masses_frame(ctx, m1, m2, nodes, bots, right_child(i, r), (r - 1) as nat, axis.other(), mid, hi, rb);
    }
}

/// Node `j`, with `rj` levels and axis `aj`, is in the subtree of node `i`, which has `r` levels
/// and axis `axis`: the root, or in the subtree of one of its children.
pub open spec fn in_subtree(i: int, r: nat, axis: Axis, j: int, rj: nat, aj: Axis) -> bool
    decreases r,
{
    ||| (j == i && rj == r && aj == axis)
    ||| (r > 1 && (in_subtree(i + 1, (r - 1) as nat, axis.other(), j, rj, aj) || in_subtree(
        right_child(i, r),
        (r - 1) as nat,
        axis.other(),
        j,
        rj,
        aj,
    )))
}

/// The mass `ms[j]` is `mass_of` the elements `[lo, hi)` of `bots`, in the region `q`.
pub open spec fn mass_in<N: NodeMassTrait>(ctx: N, ms: Seq<N::No>, bots: Seq<BBox<N::Inner>>, j: int, lo: int, hi: int, q: Rect) -> bool {
    forall|s: &[BBox<N::Inner>]| s@ == bots.subrange(lo, hi) ==> #[trigger] ctx.mass_of(s, q) == ms[j]
}

/// The regions that the masses of the subtree of node `i` (`r` levels, axis `axis`, holding
/// `[lo, hi)`, region `rect`) were built with. The root's mass is built in `rect`. The mass of
/// every node of the subtree is built in a region that holds the elements under the node, where
/// `rect` holds those of the subtree. A node dividing on `d` along its axis has its left child's
/// mass built in a region ending at `d` on that axis, its right child's in one starting at `d`.
pub open spec fn regions_ok<N: NodeMassTrait>(
    ctx: N,
    ms: Seq<N::No>,
    nodes: Seq<Node>,
    bots: Seq<BBox<N::Inner>>,
    i: int,
    r: nat,
    axis: Axis,
    lo: int,
    hi: int,
    rect: Rect,
) -> bool {
    &&& mass_in(ctx, ms, bots, i, lo, hi, rect)
    &&& forall|j: int, rj: nat, aj: Axis| #[trigger] in_subtree(i, r, axis, j, rj, aj) ==> {
        &&& exists|q: Rect| #[trigger] mass_in(ctx, ms, bots, j, nodes[j].start as int, subtree_end(nodes, j, rj), q) && (
            holds_all(rect, bots, lo, hi) ==> holds_all(q, bots, nodes[j].start as int, subtree_end(nodes, j, rj)))
        &&& (rj > 1 && nodes[j].div is Some) ==> {
            let d = nodes[j].div.unwrap();
            let mid = subtree_end(nodes, j + 1, (rj - 1) as nat);
            &&& exists|qa: Rect| #[trigger] mass_in(ctx, ms, bots, j + 1, nodes[j].end as int, mid, qa) && qa.range_of(aj).end == d
            &&& exists|qb: Rect| #[trigger] mass_in(ctx, ms, bots, right_child(j, rj), mid, subtree_end(nodes, j, rj), qb)
                && qb.range_of(aj).start == d
        }
    }
}

/// The masses that `build_masses` makes meet `regions_ok`: each is built over the region of its
/// node, the halves of its parent's region on either side of the divider.
pub proof fn lemma_mass_regions<N: NodeMassTrait>(
    ctx: N,
    ms: Seq<N::No>,
    nodes: Seq<Node>,
    bots: Seq<BBox<N::Inner>>,
    i: int,
    r: nat,
    axis: Axis,
    lo: int,
    hi: int,
    rect: Rect,
)
    requires
        wf_sub(nodes, bots, i, r, axis, lo, hi, true),
        masses_ok(ctx, ms, nodes, bots, i, r, axis, lo, hi, rect),
    ensures
        regions_ok(ctx, ms, nodes, bots, i, r, axis, lo, hi, rect),
    decreases r,
{
    lemma_wf_basic(nodes, bots, i, r, axis, lo, hi, true);
    lemma_wf_end(nodes, bots, i, r, axis, lo, hi, true);
    assert(mass_in(ctx, ms, bots, i, lo, hi, rect));
    if r > 1 {
        let e = nodes[i].end as int;
        let mid = subtree_end(nodes, i + 1, (r - 1) as nat);
        let rc = right_child(i, r);
        let (ra, rb) = child_regions(rect, axis, nodes[i].div);
        lemma_mass_regions(ctx, ms, nodes, bots, i + 1, (r - 1) as nat, axis.other(), e, mid, ra);
        lemma_mass_regions(ctx, ms, nodes, bots, rc, (r - 1) as nat, axis.other(), mid, hi, rb);
        lemma_wf_end(nodes, bots, rc, (r - 1) as nat, axis.other(), mid, hi, true);
        if holds_all(rect, bots, lo, hi) {
            match nodes[i].div {
                Some(d) => {
                    lemma_halves_hold(rect, bots, axis, d, lo, e, mid, hi);
                },
                None => {
                    assert(lo == hi);
                },
            }
        }
        assert forall|j: int, rj: nat, aj: Axis| #[trigger] in_subtree(i, r, axis, j, rj, aj) implies {
            &&& exists|q: Rect| #[trigger] mass_in(ctx, ms, bots, j, nodes[j].start as int, subtree_end(nodes, j, rj), q) && (
                holds_all(rect, bots, lo, hi) ==> holds_all(q, bots, nodes[j].start as int, subtree_end(nodes, j, rj)))
            &&& (rj > 1 && nodes[j].div is Some) ==> {
                let d = nodes[j].div.unwrap();
                let mj = subtree_end(nodes, j + 1, (rj - 1) as nat);
                &&& exists|qa: Rect| #[trigger] mass_in(ctx, ms, bots, j + 1, nodes[j].end as int, mj, qa) && qa.range_of(aj).end == d
                &&& exists|qb: Rect| #[trigger] mass_in(ctx, ms, bots, right_child(j, rj), mj, subtree_end(nodes, j, rj), qb)
                    && qb.range_of(aj).start == d
            }
        } by {
            if j == i && rj == r && aj == axis {
                assert(mass_in(ctx, ms, bots, j, nodes[j].start as int, subtree_end(nodes, j, rj), rect));
                if nodes[i].div is Some {
                    assert(mass_in(ctx, ms, bots, i + 1, e, mid, ra));
                    assert(mass_in(ctx, ms, bots, rc, mid, hi, rb));
                }
            } else if in_subtree(i + 1, (r - 1) as nat, axis.other(), j, rj, aj) {
            } else {
                assert(in_subtree(rc, (r - 1) as nat, axis.other(), j, rj, aj));
            }
        }
    } else {
        assert forall|j: int, rj: nat, aj: Axis| #[trigger] in_subtree(i, r, axis, j, rj, aj) implies
            exists|q: Rect| #[trigger] mass_in(ctx, ms, bots, j, nodes[j].start as int, subtree_end(nodes, j, rj), q) && (
                holds_all(rect, bots, lo, hi) ==> holds_all(q, bots, nodes[j].start as int, subtree_end(nodes, j, rj))) by {
            assert(mass_in(ctx, ms, bots, j, nodes[j].start as int, subtree_end(nodes, j, rj), rect));
        }
    }
}

/// The masses of the nodes of the subtree of node `i`, in preorder: each stands for the elements
/// of its subtree, in its region, `rect` for the subtree's root.
fn build_masses<T, N: NodeMassTrait<Inner = T>>(
    ctx: &N,
    nodes: &[Node],
    bots: &Vec<BBox<T>>,
    i: usize,
    r: usize,
    axis: Axis,
    lo: usize,
    hi: usize,
    rect: Rect,
    masses: &mut Vec<N::No>,
)
    requires
        wf_sub(nodes@, bots@, i as int, r as nat, axis, lo as int, hi as int, true),
        r < usize::BITS,
        old(masses)@.len() + pow2(r as nat) <= usize::MAX,
        old(masses)@.len() == i,
    ensures
        final(masses)@.len() == old(masses)@.len() + pow2(r as nat) - 1,
        forall|k: int| 0 <= k < old(masses)@.len() ==> #[trigger] final(masses)@[k] == old(masses)@[k],
        masses_ok(*ctx, final(masses)@, nodes@, bots@, i as int, r as nat, axis, lo as int, hi as int, rect),
    decreases r,
{
    let ghost m0 = masses@;
    proof {
        lemma_wf_basic(nodes@, bots@, i as int, r as nat, axis, lo as int, hi as int, true);
        lemma_pow2_unfold(r as nat);
        lemma_pow2_pos((r - 1) as nat);
    }
    let sl = elems_of(bots, lo, hi);
    let no = ctx.new(sl, rect);
    masses.push(no);
    proof {
        broadcast use vstd::slice::group_slice_axioms;
        assert forall|s: &[BBox<T>]| s@ == bots@.subrange(lo as int, hi as int) implies #[trigger] ctx.mass_of(s, rect)
            == masses@[i as int] by {
            assert(s =~= sl);
        }
    }
    if r == 1 {
        proof {
            vstd::arithmetic::power2::lemma2_to64();
        }
        return;
    }
    let n = nodes[i];
    let rc = i + half_span(r);
    let mid = nodes[rc].start;
    let (a, b) = match n.div {
        Some(d) => rect.subdivide(axis, d),
        None => (rect, rect),
    };
    let ghost m1 = masses@;
    build_masses(ctx, nodes, bots, i + 1, r - 1, axis.next(), n.end, mid, a, masses);
    let ghost m2 = masses@;
    build_masses(ctx, nodes, bots, rc, r - 1, axis.next(), mid, hi, b, masses);
    proof {
        let m3 = masses@;
        lemma_masses_frame(*ctx, m2, m3, nodes@, bots@, i + 1, (r - 1) as nat, axis.other(), n.end as int, mid as int, a);
        assert(child_regions(rect, axis, n.div) == (a, b));
        assert(m3[i as int] == m1[i as int]);
        assert(m2[i as int] == m1[i as int]);
    }
}

/// Two distinct elements of a vector, mutably.
fn two_mut<T>(v: &mut Vec<T>, a: usize, b: usize) -> (r: (&mut T, &mut T))
    requires
        a < b < old(v)@.len(),
    ensures
        *r.0 == old(v)@[a as int],
        *r.1 == old(v)@[b as int],
        final(v)@ == old(v)@.update(a as int, *final(r.0)).update(b as int, *final(r.1)),
{
    let s = v.as_mut_slice();
    let (l, rr) = s.split_at_mut(b);
    let x = &mut l[a];
    let y = &mut rr[0];
    (x, y)
}

/// The element `b` with its data replaced by `v`.
pub open spec fn with_inner<T>(b: BBox<T>, v: T) -> BBox<T> {
    BBox { rect: b.rect, inner: v }
}

/// The masses and elements after the interaction `x` acts on them.
pub open spec fn step<T, N: NodeMassTrait<Inner = T>>(ctx: N, x: Interaction, ms: Seq<N::No>, bs: Seq<BBox<T>>) -> (Seq<N::No>, Seq<BBox<T>>) {
    match x {
        Interaction::BotBot(a, b) => {
            let (na, nb) = ctx.bot_bot(bs[a as int].rect, bs[a as int].inner, bs[b as int].rect, bs[b as int].inner);
            (ms, bs.update(a as int, with_inner(bs[a as int], na)).update(b as int, with_inner(bs[b as int], nb)))
        },
        Interaction::NodeBot { node, lo, hi, bot } => {
            let (nm, nb) = ctx.node_bot(ms[node as int], bs[bot as int].rect, bs[bot as int].inner);
            (ms.update(node as int, nm), bs.update(bot as int, with_inner(bs[bot as int], nb)))
        },
        Interaction::NodeNode { a, alo, ahi, b, blo, bhi } => {
            let (na, nb) = ctx.node_node(ms[a as int], ms[b as int]);
            (ms.update(a as int, na).update(b as int, nb), bs)
        },
    }
}

/// The masses and elements after the interactions of `plan` act on them, in order.
pub open spec fn run_plan<T, N: NodeMassTrait<Inner = T>>(ctx: N, plan: Seq<Interaction>, ms: Seq<N::No>, bs: Seq<BBox<T>>) -> (Seq<N::No>, Seq<BBox<T>>)
    decreases plan.len(),
{
    if plan.len() == 0 {
        (ms, bs)
    } else {
        let prev = run_plan(ctx, plan.drop_last(), ms, bs);
        step(ctx, plan.last(), prev.0, prev.1)
    }
}

/// Carries out the interactions of `plan`, in order.
fn execute<T, N: NodeMassTrait<Inner = T>>(ctx: &N, plan: &Vec<Interaction>, masses: &mut Vec<N::No>, bots: &mut Vec<BBox<T>>)
    requires
        all_valid_in(plan@, old(masses)@.len(), old(bots)@.len()),
    ensures
        (final(masses)@, final(bots)@) == run_plan(*ctx, plan@, old(masses)@, old(bots)@),
        same_rects(old(bots)@, final(bots)@),
        final(masses)@.len() == old(masses)@.len(),
{
    let ghost b0 = bots@;
    let mut k: usize = 0;
    while k < plan.len()
        invariant
            k <= plan@.len(),
            all_valid_in(plan@, masses@.len(), bots@.len()),
            same_rects(b0, bots@),
            masses@.len() == old(masses)@.len(),
            (masses@, bots@) == run_plan(*ctx, plan@.take(k as int), old(masses)@, b0),
        decreases plan@.len() - k,
    {
        let x = plan[k];
        let ghost m_pre = masses@;
        let ghost b_pre = bots@;
        proof {
            assert(valid(plan@[k as int], masses@.len(), bots@.len()));
            assert(plan@.take(k + 1).drop_last() =~= plan@.take(k as int));
            assert(plan@.take(k + 1).last() == x);
        }
        match x {
            Interaction::BotBot(a, b) => {
                let ghost before = bots@;
                if a < b {
                    let (p, q) = two_mut(bots, a, b);
                    ctx.handle_bot_with_bot(BBoxRefMut::new(p), BBoxRefMut::new(q));
                } else {
                    let (q, p) = two_mut(bots, b, a);
                    ctx.handle_bot_with_bot(BBoxRefMut::new(p), BBoxRefMut::new(q));
                }
                proof {
                    assert forall|j: int| 0 <= j < b0.len() implies #[trigger] b0[j].rect == bots@[j].rect by {
                        assert(before[j].rect == bots@[j].rect);
                    }
                }
            },
            Interaction::NodeBot { node, lo, hi, bot } => {
                let ghost before = bots@;
                let mut no = masses[node];
                let e = &mut bots[bot];
                ctx.handle_node_with_bot(&mut no, BBoxRefMut::new(e));
                masses.set(node, no);
                proof {
                    assert forall|j: int| 0 <= j < b0.len() implies #[trigger] b0[j].rect == bots@[j].rect by {
                        assert(before[j].rect == bots@[j].rect);
                    }
                }
            },
            Interaction::NodeNode { a, alo, ahi, b, blo, bhi } => {
                let mut p = masses[a];
                let mut q = masses[b];
                ctx.handle_node_with_node(&mut p, &mut q);
                masses.set(a, p);
                masses.set(b, q);
            },
        }
        proof {
            assert((masses@, bots@) == step(*ctx, x, m_pre, b_pre));
        }
        k = k + 1;
    }
    proof {
        assert(plan@.take(plan@.len() as int) =~= plan@);
    }
}

/// The elements after the mass `m` is handed on to each of the elements `[lo, hi)`, in order.
pub open spec fn apply_range<T, N: NodeMassTrait<Inner = T>>(ctx: N, m: N::No, bs: Seq<BBox<T>>, lo: int, hi: int) -> Seq<BBox<T>>
    decreases hi - lo,
{
    if hi <= lo {
        bs
    } else {
        let prev = apply_range(ctx, m, bs, lo, hi - 1);
        prev.update(hi - 1, with_inner(prev[hi - 1], ctx.applied(m, prev[hi - 1].rect, prev[hi - 1].inner)))
    }
}

/// The elements after the mass of every node of the subtree of node `i`, with `r` levels and the
/// elements `[lo, hi)`, is handed on to the elements under the node: the node's own mass first,
/// then the left subtree, then the right one.
pub open spec fn apply_sub<T, N: NodeMassTrait<Inner = T>>(
    ctx: N,
    nodes: Seq<Node>,
    ms: Seq<N::No>,
    i: int,
    r: nat,
    lo: int,
    hi: int,
    bs: Seq<BBox<T>>,
) -> Seq<BBox<T>>
    decreases r,
{
    let b1 = apply_range(ctx, ms[i], bs, lo, hi);
    if r <= 1 {
        b1
    } else {
        let rc = right_child(i, r);
        let mid = nodes[rc].start as int;
        let b2 = apply_sub(ctx, nodes, ms, i + 1, (r - 1) as nat, nodes[i].end as int, mid, b1);
        apply_sub(ctx, nodes, ms, rc, (r - 1) as nat, mid, hi, b2)
    }
}

/// Hands every mass of the subtree of node `i` on to the elements under its node.
fn apply_masses<T, N: NodeMassTrait<Inner = T>>(
    ctx: &N,
    nodes: &[Node],
    masses: &Vec<N::No>,
    bots: &mut Vec<BBox<T>>,
    i: usize,
    r: usize,
    axis: Axis,
    lo: usize,
    hi: usize,
    Ghost(b0): Ghost<Seq<BBox<T>>>,
)
    requires
        wf_sub(nodes@, b0, i as int, r as nat, axis, lo as int, hi as int, true),
        r < usize::BITS,
        masses@.len() == nodes@.len(),
        same_rects(b0, old(bots)@),
    ensures
        same_rects(b0, final(bots)@),
        final(bots)@ == apply_sub(*ctx, nodes@, masses@, i as int, r as nat, lo as int, hi as int, old(bots)@),
    decreases r,
{
    proof {
        lemma_wf_basic(nodes@, b0, i as int, r as nat, axis, lo as int, hi as int, true);
        lemma_pow2_unfold(r as nat);
        lemma_pow2_pos((r - 1) as nat);
    }
    let ghost start = bots@;
    let mut k = lo;
    while k < hi
        invariant
            lo <= k <= hi <= b0.len(),
            i < masses@.len(),
            same_rects(b0, bots@),
            bots@ == apply_range(*ctx, masses@[i as int], start, lo as int, k as int),
        decreases hi - k,
    {
        let ghost before = bots@;
        let e = &mut bots[k];
        ctx.apply_to_bots(&masses[i], BBoxRefMut::new(e));
        proof {
            assert forall|j: int| 0 <= j < b0.len() implies #[trigger] b0[j].rect == bots@[j].rect by {
                assert(before[j].rect == bots@[j].rect);
            }
            assert(bots@ =~= before.update(k as int, with_inner(before[k as int], ctx.applied(masses@[i as int], before[k as int].rect, before[k as int].inner))));
        }
        k = k + 1;
    }
    if r == 1 {
        return;
    }
    let n = nodes[i];
    let rc = i + half_span(r);
    let mid = nodes[rc].start;
    apply_masses(ctx, nodes, masses, bots, i + 1, r - 1, axis.next(), n.end, mid, Ghost(b0));
    apply_masses(ctx, nodes, masses, bots, rc, r - 1, axis.next(), mid, hi, Ghost(b0));
}

/// The interactions of an n-body step on the tree, given the masses of its nodes: `plan_tree`
/// from the root, so that a node's mass stands for its elements exactly where `far_enough` or
/// `far_enough_half` says so; every pair of distinct elements is accounted for exactly once.
pub fn nbody_plan<T, N: NodeMassTrait<Inner = T>>(tree: &DinoTree<T>, ctx: &N, masses: &Vec<N::No>) -> (plan: Vec<Interaction>)
    requires
        masses@.len() == tree.nodes().len(),
    ensures
        plan@ == plan_tree(*ctx, masses@, tree.nodes(), 0, tree.levels(), tree.first_axis(), 0, tree.elems().len() as int),
        all_valid_in(plan@, tree.nodes().len(), tree.elems().len()),
        forall|p: int, q: int| #[trigger] count(plan@, p, q) == ind(
            0 <= p < tree.elems().len() && 0 <= q < tree.elems().len() && p != q,
        ),
{
    let (nodes, bots, axis, height) = tree.parts();
    let inp = PlanInput { nodes, masses, ctx };
    let mut plan: Vec<Interaction> = Vec::new();
    plan_rec(&inp, bots, 0, height, axis, 0, bots.len(), &mut plan);
    proof {
        assert(plan@ =~= Seq::<Interaction>::empty() + plan_tree(*ctx, masses@, nodes@, 0, height as nat, axis, 0, bots@.len() as int));
    }
    plan
}

/// One n-body step on the tree, in the region `rect`: builds the mass of every node, `mass_of` the
/// elements of its subtree in its region (`masses_ok`): `rect` for the root, and for the children
/// of a node the halves of its region before and after its divider (`regions_ok`), carries out the interactions of
/// `plan_tree` on those masses, as `nbody_plan` lists them, then hands every mass on to the
/// elements under its node. The elements keep their rectangles and their order; the interactions
/// carried out are returned.
pub fn nbody<T, N: NodeMassTrait<Inner = T>>(tree: &mut DinoTree<T>, ctx: &N, rect: Rect) -> (plan: Vec<Interaction>)
    ensures
        final(tree).nodes() == old(tree).nodes(),
        final(tree).first_axis() == old(tree).first_axis(),
        final(tree).levels() == old(tree).levels(),
        same_rects(old(tree).elems(), final(tree).elems()),
        all_valid_in(plan@, old(tree).nodes().len(), old(tree).elems().len()),
        forall|p: int, q: int| #[trigger] count(plan@, p, q) == ind(
            0 <= p < old(tree).elems().len() && 0 <= q < old(tree).elems().len() && p != q,
        ),
        exists|ms: Seq<N::No>| #![auto] ms.len() == old(tree).nodes().len() && masses_ok(
            *ctx,
            ms,
            old(tree).nodes(),
            old(tree).elems(),
            0,
            old(tree).levels(),
            old(tree).first_axis(),
            0,
            old(tree).elems().len() as int,
            rect,
        ) && regions_ok(
            *ctx,
            ms,
            old(tree).nodes(),
            old(tree).elems(),
            0,
            old(tree).levels(),
            old(tree).first_axis(),
            0,
            old(tree).elems().len() as int,
            rect,
        ) && plan@ == plan_tree(
            *ctx,
            ms,
            old(tree).nodes(),
            0,
            old(tree).levels(),
            old(tree).first_axis(),
            0,
            old(tree).elems().len() as int,
        ) && final(tree).elems() == apply_sub(
            *ctx,
            old(tree).nodes(),
            run_plan(*ctx, plan@, ms, old(tree).elems()).0,
            0,
            old(tree).levels(),
            0,
            old(tree).elems().len() as int,
            run_plan(*ctx, plan@, ms, old(tree).elems()).1,
        ),
{
    let mut t = DinoTree::new(Vec::new());
    core::mem::swap(tree, &mut t);
    let mut masses: Vec<N::No> = Vec::new();
    {
        let (nodes, bots, axis, height) = t.parts();
        proof {
            vstd::bits::lemma_usize_pow2_no_overflow(height as nat);
        }
        build_masses(ctx, nodes, bots, 0, height, axis, 0, bots.len(), rect, &mut masses);
    }
    let plan = nbody_plan(&t, ctx, &masses);
    let ghost old_nodes = t.nodes();
    let ghost b0 = t.elems();
    let (mut bots, shape) = t.into_parts();
    let ghost m0 = masses@;
    execute(ctx, &plan, &mut masses, &mut bots);
    let nodes = crate::ext::container_get_nodes(&shape.inner);
    let n = bots.len();
    apply_masses(ctx, nodes, &masses, &mut bots, 0, shape.height, shape.axis, 0, n, Ghost(b0));
    proof {
        lemma_wf_rects(old_nodes, b0, bots@, 0, shape.height as nat, shape.axis, 0, bots@.len() as int, true);
    }
    let t2 = DinoTree::with_elems(shape, bots);
    *tree = t2;
    proof {
        assert(m0.len() == old_nodes.len());
        assert(masses_ok(*ctx, m0, old_nodes, b0, 0, old(tree).levels(), old(tree).first_axis(), 0, b0.len() as int, rect));
        lemma_mass_regions(*ctx, m0, old_nodes, b0, 0, old(tree).levels(), old(tree).first_axis(), 0, b0.len() as int, rect);
    }
    plan
}

impl<T> DinoTree<T> {
    /// Runs the n-body interactions of `ctx` on the tree; see `nbody`.
    pub fn nbody_mut<N: NodeMassTrait<Inner = T>>(&mut self, ctx: &N, rect: Rect) -> (plan: Vec<Interaction>)
        ensures
            final(self).nodes() == old(self).nodes(),
            final(self).first_axis() == old(self).first_axis(),
            final(self).levels() == old(self).levels(),
            same_rects(old(self).elems(), final(self).elems()),
            all_valid_in(plan@, old(self).nodes().len(), old(self).elems().len()),
            forall|p: int, q: int| #[trigger] count(plan@, p, q) == ind(
                0 <= p < old(self).elems().len() && 0 <= q < old(self).elems().len() && p != q,
            ),
            exists|ms: Seq<N::No>| #![auto] ms.len() == old(self).nodes().len() && masses_ok(
            *ctx,
            ms,
            old(self).nodes(),
            old(self).elems(),
            0,
            old(self).levels(),
            old(self).first_axis(),
            0,
            old(self).elems().len() as int,
            rect,
        ) && regions_ok(
            *ctx,
            ms,
            old(self).nodes(),
            old(self).elems(),
            0,
            old(self).levels(),
            old(self).first_axis(),
            0,
            old(self).elems().len() as int,
            rect,
        ) && plan@ == plan_tree(
            *ctx,
            ms,
            old(self).nodes(),
            0,
            old(self).levels(),
            old(self).first_axis(),
            0,
            old(self).elems().len() as int,
        ) && final(self).elems() == apply_sub(
                *ctx,
                old(self).nodes(),
                run_plan(*ctx, plan@, ms, old(self).elems()).0,
                0,
                old(self).levels(),
                0,
                old(self).elems().len() as int,
                run_plan(*ctx, plan@, ms, old(self).elems()).1,
            ),
    {
        nbody(self, ctx, rect)
    }
}

} // verus!
