//! Small helpers for comparing the answers of two algorithms: elements with identifiers, pairs of
//! identifiers put in a canonical order, and the order in which such pairs are sorted.
use vstd::prelude::*;
use crate::geom::{Range, Rect};
use core::cmp::Ordering;

verus! {

/// Elements that carry an identifier, so that the results of two algorithms can be compared.
pub trait HasId {
    fn get_id(&self) -> usize;
}

/// A pair of identifiers with the smaller one first.
#[derive(Clone, Copy, Debug, PartialEq, Eq, Structural)]
pub struct IDPair {
    pub a: usize,
    pub b: usize,
}

impl IDPair {
    /// The pair `{a, b}`, smaller identifier first.
    pub fn new(a: usize, b: usize) -> (p: IDPair)
        ensures
            p.a <= p.b,
            (p.a == a && p.b == b) || (p.a == b && p.b == a),
    {
        let (a, b) = if a <= b {
            (a, b)
        } else {
            (b, a)
        };
        IDPair { a, b }
    }
}

/// An element used to exercise the algorithms: an identifier and the identifiers of the elements
/// it was found to collide with.
#[derive(Clone, Debug)]
pub struct Bot {
    pub id: usize,
    pub col: Vec<usize>,
}

/// The half width of the square that `create_rect_from_point` puts around a point.
pub const POINT_RADIUS: i64 = 10;

/// The square of half width 10 around the point `a`.
pub fn create_rect_from_point(a: (i64, i64)) -> (r: Rect)
    requires
        i64::MIN + POINT_RADIUS <= a.0 <= i64::MAX - POINT_RADIUS,
        i64::MIN + POINT_RADIUS <= a.1 <= i64::MAX - POINT_RADIUS,
    ensures
        r.x.start == a.0 - POINT_RADIUS,
        r.x.end == a.0 + POINT_RADIUS,
        r.y.start == a.1 - POINT_RADIUS,
        r.y.end == a.1 + POINT_RADIUS,
{
    let (x, y) = a;
    Rect {
        x: Range { start: x - POINT_RADIUS, end: x + POINT_RADIUS },
        y: Range { start: y - POINT_RADIUS, end: y + POINT_RADIUS },
    }
}

/// The identifiers of the two elements, smaller first.
pub fn create_unordered(a: &Bot, b: &Bot) -> (r: (usize, usize))
    ensures
        a.id < b.id ==> r == (a.id, b.id),
        a.id >= b.id ==> r == (b.id, a.id),
{
    if a.id < b.id {
        (a.id, b.id)
    } else {
        (b.id, a.id)
    }
}

/// Compares two pairs of identifiers lexicographically.
pub fn compair_bot_pair(a: &(usize, usize), b: &(usize, usize)) -> (o: Ordering)
    ensures
        (o == Ordering::Less) == (a.0 < b.0 || (a.0 == b.0 && a.1 < b.1)),
        (o == Ordering::Equal) == (a.0 == b.0 && a.1 == b.1),
        (o == Ordering::Greater) == (a.0 > b.0 || (a.0 == b.0 && a.1 > b.1)),
{
    if a.0 < b.0 {
        Ordering::Less
    } else if a.0 > b.0 {
        Ordering::Greater
    } else {
        if a.1 < b.1 {
            Ordering::Less
        } else if a.1 > b.1 {
            Ordering::Greater
        } else {
            Ordering::Equal
        }
    }
}

/// Per-level timing of a recursive algorithm on the tree.
pub trait TreeTimerTrait: Sized {
    /// What a finished timer yields.
    type Bag;

    /// Merges the results of two subtrees.
    fn combine(a: Self::Bag, b: Self::Bag) -> Self::Bag;

    /// A timer for a tree of the given height.
    fn new(height: usize) -> Self;

    /// Finishes at a leaf.
    fn leaf_finish(self) -> Self::Bag;

    /// Starts timing the current level.
    fn start(&mut self);

    /// Stops timing the current level and gives one timer to each child.
    fn next(self) -> (Self, Self);
}

/// A timer that records nothing.
pub struct TreeTimerEmpty;

/// What a `TreeTimerEmpty` yields.
pub struct BagEmpty;

impl TreeTimerTrait for TreeTimerEmpty {
    type Bag = BagEmpty;

    fn combine(_a: BagEmpty, _b: BagEmpty) -> BagEmpty {
        BagEmpty
    }

    fn new(_height: usize) -> TreeTimerEmpty {
        TreeTimerEmpty
    }

    fn leaf_finish(self) -> BagEmpty {
        BagEmpty
    }

    fn start(&mut self) {
    }

    fn next(self) -> (TreeTimerEmpty, TreeTimerEmpty) {
        (TreeTimerEmpty, TreeTimerEmpty)
    }
}

} // verus!
