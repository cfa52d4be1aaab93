//! Elements stored in a tree: a bounding rectangle together with user data.
use vstd::prelude::*;
use crate::geom::{Axis, Rect};

verus! {

/// An axis aligned bounding box together with the data it bounds. Equivalent to `(Rect, T)`.
#[derive(Clone, Copy, Debug)]
pub struct BBox<T> {
    pub rect: Rect,
    pub inner: T,
}

impl<T> BBox<T> {
    /// Constructor.
    pub fn new(rect: Rect, inner: T) -> (b: BBox<T>)
        ensures
            b.rect == rect,
            b.inner == inner,
    {
        BBox { rect, inner }
    }

    /// The bounding rectangle.
    pub fn get(&self) -> (r: &Rect)
        ensures
            *r == self.rect,
    {
        &self.rect
    }

    /// Read-only access to the user data.
    pub fn inner(&self) -> (r: &T)
        ensures
            *r == self.inner,
    {
        &self.inner
    }
}

/// An element whose rectangle can be read and whose data can be changed.
pub struct BBoxRefMut<'a, T> {
    pub rect: &'a Rect,
    pub inner: &'a mut T,
}

impl<'a, T> BBoxRefMut<'a, T> {
    /// Splits an element into its rectangle, read only, and its data.
    pub fn new(b: &'a mut BBox<T>) -> (r: BBoxRefMut<'a, T>)
        ensures
            *r.rect == old(b).rect,
            *r.inner == old(b).inner,
            final(b).rect == old(b).rect,
            final(b).inner == *final(r.inner),
    {
        BBoxRefMut { rect: &b.rect, inner: &mut b.inner }
    }
}

/// A bounding box that refers to its data through a mutable reference. Equivalent to
/// `&mut (Rect, T)`.
pub struct BBoxIndirect<'a, T> {
    pub inner: &'a mut T,
}

impl<'a, T> BBoxIndirect<'a, T> {
    /// Constructor.
    pub fn new(inner: &'a mut T) -> (r: BBoxIndirect<'a, T>)
        ensures
            *r.inner == *old(inner),
    {
        BBoxIndirect { inner }
    }
}

/// Start of the range of `b` on `axis`.
pub open spec fn lo_of<T>(b: BBox<T>, axis: Axis) -> i64 {
    b.rect.range_of(axis).start
}

/// End of the range of `b` on `axis`.
pub open spec fn hi_of<T>(b: BBox<T>, axis: Axis) -> i64 {
    b.rect.range_of(axis).end
}

/// Both ranges of the rectangle are well formed: start not after end.
pub open spec fn valid_rect(r: Rect) -> bool {
    r.x.start <= r.x.end && r.y.start <= r.y.end
}

/// The two lists of elements have the same rectangles, in the same order; their data may differ.
pub open spec fn same_rects<T>(a: Seq<BBox<T>>, b: Seq<BBox<T>>) -> bool {
    &&& a.len() == b.len()
    &&& forall|k: int| 0 <= k < a.len() ==> #[trigger] a[k].rect == b[k].rect
}

/// Every element has a well formed rectangle.
pub open spec fn all_valid<T>(s: Seq<BBox<T>>) -> bool {
    forall|k: int| 0 <= k < s.len() ==> #[trigger] valid_rect(s[k].rect)
}

/// Elements of `s` with index in `[lo, hi)` are in nondecreasing order of their start on `axis`.
pub open spec fn sorted_on<T>(s: Seq<BBox<T>>, lo: int, hi: int, axis: Axis) -> bool {
    forall|i: int, j: int|
        lo <= i <= j < hi ==> #[trigger] lo_of(s[i], axis) <= #[trigger] lo_of(s[j], axis)
}

/// `sorted_on` over bounds given as indices.
pub open spec fn sorted_between<T>(s: Seq<BBox<T>>, lo: usize, hi: usize, axis: Axis) -> bool {
    sorted_on(s, lo as int, hi as int, axis)
}

} // verus!
