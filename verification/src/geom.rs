//! Axis aligned geometry: axes, ranges, rectangles and points over `i64`. A range holds its ends:
//! two ranges intersect when they share a point, touching ends included, and two rectangles when
//! their ranges do on both axes.
use vstd::prelude::*;
use core::cmp::Ordering;
use vstd::std_specs::convert::{FromSpec, TryFromSpec};

verus! {

/// One of the two axes of the plane.
#[derive(Clone, Copy, Debug, PartialEq, Eq, Structural)]
pub enum Axis {
    X,
    Y,
}

impl Axis {
    /// The perpendicular axis.
    pub open spec fn other(self) -> Axis {
        match self {
            Axis::X => Axis::Y,
            Axis::Y => Axis::X,
        }
    }

    /// Returns the perpendicular axis.
    pub fn next(self) -> (r: Axis)
        ensures
            r == self.other(),
    {
        match self {
            Axis::X => Axis::Y,
            Axis::Y => Axis::X,
        }
    }

    /// True for the x axis.
    pub fn is_xaxis(self) -> (b: bool)
        ensures
            b == (self == Axis::X),
    {
        match self {
            Axis::X => true,
            Axis::Y => false,
        }
    }

    /// True when both axes are the same axis.
    pub fn is_equal_to(self, other: Axis) -> (b: bool)
        ensures
            b == (self == other),
    {
        self == other
    }
}

/// The axis of the first divider of a tree: the y axis, so the root divider is a horizontal line.
pub fn default_axis() -> (a: Axis)
    ensures
        a == Axis::Y,
{
    Axis::Y
}

/// A closed interval `[start, end]` of one axis.
#[derive(Clone, Copy, Debug, PartialEq, Eq, Structural)]
pub struct Range {
    pub start: i64,
    pub end: i64,
}

/// True when the two closed intervals share a point.
pub open spec fn ranges_meet(a: Range, b: Range) -> bool {
    !(a.end < b.start || b.end < a.start)
}

impl Range {
    /// Constructor.
    pub fn new(start: i64, end: i64) -> (r: Range)
        ensures
            r.start == start,
            r.end == end,
    {
        Range { start, end }
    }

    /// Where `pos` lies with respect to the range: `Less` before it, `Greater` after it, `Equal` inside.
    pub fn contains_ext(&self, pos: i64) -> (o: Ordering)
        ensures
            (o == Ordering::Less) == (pos < self.start),
            (o == Ordering::Greater) == (self.start <= pos && pos > self.end),
            (o == Ordering::Equal) == (self.start <= pos && pos <= self.end),
    {
        if pos < self.start {
            Ordering::Less
        } else if pos > self.end {
            Ordering::Greater
        } else {
            Ordering::Equal
        }
    }

    /// True if `pos` is inside the range or on one of its ends.
    pub fn contains(&self, pos: i64) -> (b: bool)
        ensures
            b == (self.start <= pos && pos <= self.end),
    {
        self.start <= pos && pos <= self.end
    }

    /// True if `val` lies inside this range.
    pub fn contains_range(&self, val: &Range) -> (b: bool)
        ensures
            b == (self.start <= val.start && val.end <= self.end),
    {
        self.start <= val.start && val.end <= self.end
    }

    /// True if the two ranges share a point.
    pub fn intersects(&self, val: &Range) -> (b: bool)
        ensures
            b == ranges_meet(*self, *val),
    {
        !(self.end < val.start || val.end < self.start)
    }

    /// Splits the range at `divider` into `[start, divider]` and `[divider, end]`.
    pub fn subdivide(&self, divider: i64) -> (r: (Range, Range))
        ensures
            r.0 == (Range { start: self.start, end: divider }),
            r.1 == (Range { start: divider, end: self.end }),
    {
        (Range { start: self.start, end: divider }, Range { start: divider, end: self.end })
    }
}

/// An axis aligned rectangle: a range on each axis.
#[derive(Clone, Copy, Debug, PartialEq, Eq, Structural)]
pub struct Rect {
    pub x: Range,
    pub y: Range,
}

/// A point of the plane.
#[derive(Clone, Copy, Debug, PartialEq, Eq, Structural)]
pub struct Vec2<N> {
    pub x: N,
    pub y: N,
}

/// Constructor of a point.
pub fn vec2<N>(x: N, y: N) -> (v: Vec2<N>)
    ensures
        v.x == x,
        v.y == y,
{
    Vec2 { x, y }
}

impl<N> Vec2<N> {
    /// Converts both coordinates with `From`.
    pub fn inner_into<B: From<N>>(self) -> (r: Vec2<B>)
        ensures
            B::obeys_from_spec() ==> r.x == B::from_spec(self.x) && r.y == B::from_spec(self.y),
    {
        Vec2 { x: B::from(self.x), y: B::from(self.y) }
    }

    /// Converts both coordinates with `TryFrom`; the first failure is returned.
    pub fn inner_try_into<B: TryFrom<N>>(self) -> (r: Result<Vec2<B>, B::Error>)
        ensures
            B::obeys_try_from_spec() ==> match (B::try_from_spec(self.x), B::try_from_spec(self.y)) {
                (Ok(x), Ok(y)) => r == Ok::<Vec2<B>, B::Error>(Vec2 { x, y }),
                (Err(e), _) => r == Err::<Vec2<B>, B::Error>(e),
                (Ok(_), Err(e)) => r == Err::<Vec2<B>, B::Error>(e),
            },
    {
        let x = B::try_from(self.x);
        let y = B::try_from(self.y);
        match (x, y) {
            (Ok(x), Ok(y)) => Ok(Vec2 { x, y }),
            (Err(e), _) => Err(e),
            (Ok(_), Err(e)) => Err(e),
        }
    }
}

/// Constructor of a rectangle from its x range `[xs, xe]` and y range `[ys, ye]`.
pub fn rect(xs: i64, xe: i64, ys: i64, ye: i64) -> (r: Rect)
    ensures
        r == (Rect { x: Range { start: xs, end: xe }, y: Range { start: ys, end: ye } }),
{
    Rect { x: Range { start: xs, end: xe }, y: Range { start: ys, end: ye } }
}

impl Rect {
    /// The range of the rectangle on `axis`.
    pub open spec fn range_of(self, axis: Axis) -> Range {
        match axis {
            Axis::X => self.x,
            Axis::Y => self.y,
        }
    }

    /// True when the closed rectangles share a point.
    pub open spec fn meets(self, other: Rect) -> bool {
        ranges_meet(self.x, other.x) && ranges_meet(self.y, other.y)
    }

    /// True when `other` lies inside this rectangle.
    pub open spec fn holds(self, other: Rect) -> bool {
        self.x.start <= other.x.start && other.x.end <= self.x.end && self.y.start <= other.y.start
            && other.y.end <= self.y.end
    }

    /// Constructor from the x range `[xs, xe]` and the y range `[ys, ye]`.
    pub fn new(xs: i64, xe: i64, ys: i64, ye: i64) -> (r: Rect)
        ensures
            r == (Rect { x: Range { start: xs, end: xe }, y: Range { start: ys, end: ye } }),
    {
        Rect { x: Range { start: xs, end: xe }, y: Range { start: ys, end: ye } }
    }

    /// The range of the rectangle on `axis`.
    pub fn get_range(&self, axis: Axis) -> (r: Range)
        ensures
            r == self.range_of(axis),
    {
        match axis {
            Axis::X => self.x,
            Axis::Y => self.y,
        }
    }

    /// True when the two closed rectangles share a point.
    pub fn intersects_rect(&self, other: &Rect) -> (b: bool)
        ensures
            b == self.meets(*other),
    {
        other.x.intersects(&self.x) && other.y.intersects(&self.y)
    }

    /// True when `rect` lies inside this rectangle.
    pub fn contains_rect(&self, rect: &Rect) -> (b: bool)
        ensures
            b == self.holds(*rect),
    {
        self.x.contains_range(&rect.x) && self.y.contains_range(&rect.y)
    }

    /// True when the point lies inside the rectangle or on its border.
    pub fn contains_point(&self, p: Vec2<i64>) -> (b: bool)
        ensures
            b == (self.x.start <= p.x && p.x <= self.x.end && self.y.start <= p.y && p.y
                <= self.y.end),
    {
        self.x.contains(p.x) && self.y.contains(p.y)
    }

    /// The rectangle where both overlap, when they overlap with a positive extent on both axes;
    /// `None` when they are apart or only touch.
    pub fn get_intersect_rect(&self, other: &Rect) -> (r: Option<Rect>)
        ensures
            r.is_some() == (max_i64(self.x.start, other.x.start) < min_i64(self.x.end, other.x.end) && max_i64(
                self.y.start,
                other.y.start,
            ) < min_i64(self.y.end, other.y.end)),
            r matches Some(k) ==> k == (Rect {
                x: Range {
                    start: max_i64(self.x.start, other.x.start),
                    end: min_i64(self.x.end, other.x.end),
                },
                y: Range {
                    start: max_i64(self.y.start, other.y.start),
                    end: min_i64(self.y.end, other.y.end),
                },
            }),
    {
        let xs = if other.x.start > self.x.start { other.x.start } else { self.x.start };
        let xe = if other.x.end < self.x.end { other.x.end } else { self.x.end };
        if xe <= xs {
            return None;
        }
        let ys = if other.y.start > self.y.start { other.y.start } else { self.y.start };
        let ye = if other.y.end < self.y.end { other.y.end } else { self.y.end };
        if ye <= ys {
            return None;
        }
        Some(Rect { x: Range { start: xs, end: xe }, y: Range { start: ys, end: ye } })
    }

    /// Splits the rectangle at `divider` on `axis` into the part before and the part after it.
    pub fn subdivide(&self, axis: Axis, divider: i64) -> (r: (Rect, Rect))
        ensures
            r.0.range_of(axis) == (Range { start: self.range_of(axis).start, end: divider }),
            r.1.range_of(axis) == (Range { start: divider, end: self.range_of(axis).end }),
            r.0.range_of(axis.other()) == self.range_of(axis.other()),
            r.1.range_of(axis.other()) == self.range_of(axis.other()),
            r.0 == with_range(*self, axis, Range { start: self.range_of(axis).start, end: divider }),
            r.1 == with_range(*self, axis, Range { start: divider, end: self.range_of(axis).end }),
    {
        match axis {
            Axis::X => {
                let (l, r) = self.x.subdivide(divider);
                (Rect { x: l, y: self.y }, Rect { x: r, y: self.y })
            },
            Axis::Y => {
                let (l, r) = self.y.subdivide(divider);
                (Rect { x: self.x, y: l }, Rect { x: self.x, y: r })
            },
        }
    }

    /// Squared euclidean distance from the point to the rectangle, `None` when the point is
    /// strictly inside.
    pub fn distance_squared_to_point(&self, point: Vec2<i64>) -> (r: Option<i64>)
        requires
            self.x.start <= self.x.end,
            self.y.start <= self.y.end,
            fits_i64(rect_point_dist2(*self, point)),
        ensures
            r == (if point_strictly_inside(*self, point) {
                None::<i64>
            } else {
                Some(rect_point_dist2(*self, point) as i64)
            }),
    {
        let xx = clamp_i64(point.x, self.x.start, self.x.end);
        let yy = clamp_i64(point.y, self.y.start, self.y.end);
        proof {
            lemma_small_square((xx - point.x) as int, (yy - point.y) as int);
        }
        let dx = xx - point.x;
        let dy = yy - point.y;
        let dis = dx * dx + dy * dy;
        if xx > self.x.start && xx < self.x.end && yy > self.y.start && yy < self.y.end {
            None
        } else {
            Some(dis)
        }
    }
}

/// The rectangle with its range on `axis` replaced by `range`.
pub open spec fn with_range(r: Rect, axis: Axis, range: Range) -> Rect {
    match axis {
        Axis::X => Rect { x: range, y: r.y },
        Axis::Y => Rect { x: r.x, y: range },
    }
}

/// The rectangle with its range on `axis` replaced by `range`.
pub fn make_rect_from_range(axis: Axis, range: &Range, rect: &Rect) -> (r: Rect)
    ensures
        r == with_range(*rect, axis, *range),
{
    if axis.is_xaxis() {
        Rect { x: *range, y: rect.y }
    } else {
        Rect { x: rect.x, y: *range }
    }
}

/// The larger of two numbers.
pub open spec fn max_i64(a: i64, b: i64) -> i64 {
    if a < b {
        b
    } else {
        a
    }
}

/// The smaller of two numbers.
pub open spec fn min_i64(a: i64, b: i64) -> i64 {
    if a < b {
        a
    } else {
        b
    }
}

/// `v` limited to `[lo, hi]`.
pub open spec fn clamp_spec(v: i64, lo: i64, hi: i64) -> i64 {
    if v < lo {
        lo
    } else if v > hi {
        hi
    } else {
        v
    }
}

/// Squared euclidean distance from a point to the nearest point of a rectangle.
pub open spec fn rect_point_dist2(r: Rect, p: Vec2<i64>) -> int {
    let dx = clamp_spec(p.x, r.x.start, r.x.end) - p.x;
    let dy = clamp_spec(p.y, r.y.start, r.y.end) - p.y;
    dx * dx + dy * dy
}

/// True when the point is strictly inside the rectangle.
pub open spec fn point_strictly_inside(r: Rect, p: Vec2<i64>) -> bool {
    let xx = clamp_spec(p.x, r.x.start, r.x.end);
    let yy = clamp_spec(p.y, r.y.start, r.y.end);
    xx > r.x.start && xx < r.x.end && yy > r.y.start && yy < r.y.end
}

/// True when the value fits in an `i64`.
pub open spec fn fits_i64(v: int) -> bool {
    i64::MIN <= v <= i64::MAX
}

fn clamp_i64(v: i64, lo: i64, hi: i64) -> (r: i64)
    requires
        lo <= hi,
    ensures
        r == clamp_spec(v, lo, hi),
{
    if v < lo {
        lo
    } else if v > hi {
        hi
    } else {
        v
    }
}

proof fn lemma_small_square(dx: int, dy: int)
    requires
        dx * dx + dy * dy <= i64::MAX,
    ensures
        -0x1_0000_0000 < dx < 0x1_0000_0000,
        -0x1_0000_0000 < dy < 0x1_0000_0000,
        0 <= dx * dx,
        0 <= dy * dy,
{
    assert(0 <= dx * dx && 0 <= dy * dy) by (nonlinear_arith);
    if dx >= 0x1_0000_0000 || dx <= -0x1_0000_0000 {
        assert(dx * dx >= 0x1_0000_0000_0000_0000) by (nonlinear_arith)
            requires
                dx >= 0x1_0000_0000 || dx <= -0x1_0000_0000,
        ;
    }
    if dy >= 0x1_0000_0000 || dy <= -0x1_0000_0000 {
        assert(dy * dy >= 0x1_0000_0000_0000_0000) by (nonlinear_arith)
            requires
                dy >= 0x1_0000_0000 || dy <= -0x1_0000_0000,
        ;
    }
}

} // verus!
