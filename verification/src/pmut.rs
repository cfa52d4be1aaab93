//! A protected mutable reference: it hands out the element or the slice it points to, but the
//! holder cannot swap elements around or replace them through it.
use vstd::prelude::*;
use vstd::std_specs::iter::IteratorSpec;

verus! {

/// Mutable reference that forbids replacing what it points to.
pub struct PMut<'a, T: ?Sized> {
    inner: &'a mut T,
}

impl<'a, T> PMut<'a, T> {
    /// The element currently pointed to.
    pub closed spec fn elem(&self) -> T {
        *self.inner
    }

    /// Wraps a mutable reference.
    pub fn new(inner: &'a mut T) -> (r: PMut<'a, T>)
        ensures
            r.elem() == *old(inner),
    {
        PMut { inner }
    }

    /// Reborrows the pointer for a shorter lifetime.
    pub fn as_mut(&mut self) -> (r: PMut<'_, T>)
        ensures
            r.elem() == old(self).elem(),
    {
        PMut { inner: &mut *self.inner }
    }

    /// Read-only access to the element.
    pub fn as_ref(&self) -> (r: &T)
        ensures
            *r == self.elem(),
    {
        self.inner
    }
}

impl<'a, T> PMut<'a, [T]> {
    /// The elements of the slice currently pointed to.
    pub closed spec fn elems(&self) -> Seq<T> {
        self.inner@
    }

    /// Wraps a mutable slice.
    pub fn new(inner: &'a mut [T]) -> (r: PMut<'a, [T]>)
        ensures
            r.elems() == old(inner)@,
    {
        PMut { inner }
    }

    /// Reborrows the slice for a shorter lifetime.
    pub fn as_mut(&mut self) -> (r: PMut<'_, [T]>)
        ensures
            r.elems() == old(self).elems(),
    {
        PMut { inner: &mut *self.inner }
    }

    /// Read-only access to the slice.
    pub fn as_ref(&self) -> (r: &[T])
        ensures
            r@ == self.elems(),
    {
        self.inner
    }

    /// Number of elements.
    pub fn len(&self) -> (r: usize)
        ensures
            r == self.elems().len(),
    {
        self.inner.len()
    }

    /// True when there is no element.
    pub fn is_empty(&self) -> (b: bool)
        ensures
            b == (self.elems().len() == 0),
    {
        self.inner.len() == 0
    }

    /// Splits off the first element, `None` for an empty slice.
    pub fn split_first_mut(self) -> (r: Option<(PMut<'a, T>, PMut<'a, [T]>)>)
        ensures
            r is None <==> self.elems().len() == 0,
            r matches Some(p) ==> p.0.elem() == self.elems()[0] && p.1.elems()
                == self.elems().skip(1),
    {
        if self.inner.len() == 0 {
            None
        } else {
            let (first, rest) = self.inner.split_at_mut(1);
            match first.first_mut() {
                Some(f) => Some((PMut { inner: f }, PMut { inner: rest })),
                None => None,
            }
        }
    }

    /// The elements before index `end`.
    pub fn truncate_to(self, end: usize) -> (r: PMut<'a, [T]>)
        requires
            end <= self.elems().len(),
        ensures
            r.elems() == self.elems().take(end as int),
    {
        let (a, _b) = self.inner.split_at_mut(end);
        PMut { inner: a }
    }

    /// The elements from index `start` on.
    pub fn truncate_from(self, start: usize) -> (r: PMut<'a, [T]>)
        requires
            start <= self.elems().len(),
        ensures
            r.elems() == self.elems().skip(start as int),
    {
        let (_a, b) = self.inner.split_at_mut(start);
        PMut { inner: b }
    }

    /// The elements of indices `start..end`.
    pub fn truncate(self, start: usize, end: usize) -> (r: PMut<'a, [T]>)
        requires
            start <= end <= self.elems().len(),
        ensures
            r.elems() == self.elems().subrange(start as int, end as int),
    {
        let (a, _b) = self.inner.split_at_mut(end);
        let (_c, d) = a.split_at_mut(start);
        PMut { inner: d }
    }

    /// Iterator over shared references to the elements.
    pub fn iter(self) -> (r: core::slice::Iter<'a, T>)
        ensures
            r.remaining() == self.elems().as_ref(),
    {
        proof {
            vstd::std_specs::slice::axiom_spec_slice_iter(&*self.inner);
        }
        self.inner.iter()
    }

    /// Iterator over protected references to the elements.
    pub fn iter_mut(self) -> (r: PMutIter<'a, T>)
        ensures
            r.rest() == self.elems(),
    {
        PMutIter { inner: self.inner }
    }
}

/// Iterator over the elements of a protected slice, handing out `PMut`s.
pub struct PMutIter<'a, T> {
    inner: &'a mut [T],
}

impl<'a, T> PMutIter<'a, T> {
    /// The elements not handed out yet.
    pub closed spec fn rest(&self) -> Seq<T> {
        self.inner@
    }

    /// The next element, `None` when all were handed out.
    pub fn next(&mut self) -> (r: Option<PMut<'a, T>>)
        ensures
            r is None <==> old(self).rest().len() == 0,
            r matches Some(p) ==> p.elem() == old(self).rest()[0] && final(self).rest()
                == old(self).rest().skip(1),
            r is None ==> final(self).rest() == old(self).rest(),
    {
        let mut all: &'a mut [T] = &mut [];
        core::mem::swap(&mut all, &mut self.inner);
        if all.len() == 0 {
            self.inner = all;
            None
        } else {
            let (first, rest) = all.split_at_mut(1);
            self.inner = rest;
            match first.first_mut() {
                Some(f) => Some(PMut { inner: f }),
                None => None,
            }
        }
    }

    /// The last element not handed out yet, `None` when all were handed out.
    pub fn next_back(&mut self) -> (r: Option<PMut<'a, T>>)
        ensures
            r is None <==> old(self).rest().len() == 0,
            r matches Some(p) ==> p.elem() == old(self).rest().last() && final(self).rest()
                == old(self).rest().drop_last(),
            r is None ==> final(self).rest() == old(self).rest(),
    {
        let mut all: &'a mut [T] = &mut [];
        core::mem::swap(&mut all, &mut self.inner);
        let n = all.len();
        if n == 0 {
            self.inner = all;
            None
        } else {
            let (rest, last) = all.split_at_mut(n - 1);
            self.inner = rest;
            match last.first_mut() {
                Some(f) => Some(PMut { inner: f }),
                None => None,
            }
        }
    }

    /// Bounds on the number of elements left: both are exactly that number.
    pub fn size_hint(&self) -> (r: (usize, Option<usize>))
        ensures
            r.0 == self.rest().len(),
            r.1 == Some(self.rest().len() as usize),
    {
        (self.inner.len(), Some(self.inner.len()))
    }
}

} // verus!
