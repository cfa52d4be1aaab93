//! Splitting a slice into runs: each run is the longest prefix of what is left whose elements all
//! relate to the run's first element, for grouping the equally distant elements of a k nearest
//! answer.
use vstd::prelude::*;

verus! {

/// The length of the run at the start of `s`: the first `c` elements relate to `s[0]`, and the
/// next one, if any, does not.
pub open spec fn run_len<T, F: Fn(&T, &T) -> bool>(f: F, s: Seq<T>, c: int) -> bool {
    &&& 0 <= c <= s.len()
    &&& forall|j: int| 0 <= j < c ==> f.ensures((&s[j], &s[0]), true)
    &&& c < s.len() ==> f.ensures((&s[c], &s[0]), false)
}

/// The run at the start of a non-empty slice.
fn run_end<T, F: Fn(&T, &T) -> bool>(arr: &[T], func: &F) -> (c: usize)
    requires
        arr@.len() > 0,
        forall|a: &T, b: &T| func.requires((a, b)),
    ensures
        run_len(*func, arr@, c as int),
{
    let first = &arr[0];
    let mut c: usize = 0;
    loop
        invariant
            0 <= c <= arr@.len(),
            *first == arr@[0],
            forall|a: &T, b: &T| func.requires((a, b)),
            forall|j: int| 0 <= j < c ==> func.ensures((&arr@[j], &arr@[0]), true),
        ensures
            run_len(*func, arr@, c as int),
        decreases arr@.len() - c,
    {
        if c >= arr.len() {
            break;
        }
        let ok = func(&arr[c], first);
        if !ok {
            break;
        }
        c = c + 1;
    }
    c
}

/// Splits a slice into runs; the runs come out one by one from `next`.
pub struct SliceSplit<'a, T, F> {
    arr: Option<&'a [T]>,
    func: F,
}

impl<'a, T, F: Fn(&T, &T) -> bool> SliceSplit<'a, T, F> {
    /// What is left to split; `None` once the splitting has ended.
    pub closed spec fn rest(&self) -> Option<Seq<T>> {
        match self.arr {
            Some(a) => Some(a@),
            None => None,
        }
    }

    /// The relation between an element and the first element of its run.
    pub closed spec fn relation(&self) -> F {
        self.func
    }

    /// Splits `arr` with the relation `func`.
    pub fn new(arr: &'a [T], func: F) -> (r: SliceSplit<'a, T, F>)
        ensures
            r.rest() == Some(arr@),
            r.relation() == func,
    {
        SliceSplit { arr: Some(arr), func }
    }

    /// The next run; `None` when nothing is left, after which the splitting has ended.
    pub fn next(&mut self) -> (r: Option<&'a [T]>)
        requires
            forall|a: &T, b: &T| old(self).relation().requires((a, b)),
        ensures
            final(self).relation() == old(self).relation(),
            match old(self).rest() {
                None => r is None && final(self).rest() is None,
                Some(s) => if s.len() == 0 {
                    r is None && final(self).rest() is None
                } else {
                    exists|c: int| {
                        &&& run_len(old(self).relation(), s, c)
                        &&& r matches Some(x) && x@ == s.subrange(0, c)
                        &&& final(self).rest() == Some(s.subrange(c, s.len() as int))
                    }
                },
            },
    {
        let arr = match self.arr {
            Some(a) => a,
            None => {
                return None;
            },
        };
        if arr.len() == 0 {
            self.arr = None;
            return None;
        }
        proof {
            assert(self.func == old(self).relation());
            assert(forall|a: &T, b: &T| self.func.requires((a, b)));
        }
        let c = run_end(arr, &self.func);
        let (first, rest) = arr.split_at(c);
        self.arr = Some(rest);
        Some(first)
    }
}

/// Splits a mutable slice into runs; the runs come out one by one from `next`.
pub struct SliceSplitMut<'a, T, F> {
    arr: Option<&'a mut [T]>,
    func: F,
}

impl<'a, T, F: Fn(&T, &T) -> bool> SliceSplitMut<'a, T, F> {
    /// What is left to split; `None` once the splitting has ended.
    pub closed spec fn rest(&self) -> Option<Seq<T>> {
        match &self.arr {
            Some(a) => Some(a@),
            None => None,
        }
    }

    /// The relation between an element and the first element of its run.
    pub closed spec fn relation(&self) -> F {
        self.func
    }

    /// Splits `arr` with the relation `func`.
    pub fn new(arr: &'a mut [T], func: F) -> (r: SliceSplitMut<'a, T, F>)
        ensures
            r.rest() == Some(old(arr)@),
            r.relation() == func,
    {
        SliceSplitMut { arr: Some(arr), func }
    }

    /// The next run; `None` when nothing is left, after which the splitting has ended.
    pub fn next(&mut self) -> (r: Option<&'a mut [T]>)
        requires
            forall|a: &T, b: &T| old(self).relation().requires((a, b)),
        ensures
            final(self).relation() == old(self).relation(),
            match old(self).rest() {
                None => r is None && final(self).rest() is None,
                Some(s) => if s.len() == 0 {
                    r is None && final(self).rest() is None
                } else {
                    exists|c: int| {
                        &&& run_len(old(self).relation(), s, c)
                        &&& r matches Some(x) && x@ == s.subrange(0, c)
                        &&& final(self).rest() == Some(s.subrange(c, s.len() as int))
                    }
                },
            },
    {
        let arr = match self.arr.take() {
            Some(a) => a,
            None => {
                return None;
            },
        };
        if arr.len() == 0 {
            return None;
        }
        proof {
            assert(self.func == old(self).relation());
            assert(forall|a: &T, b: &T| self.func.requires((a, b)));
        }
        let c = run_end(&*arr, &self.func);
        let (first, rest) = arr.split_at_mut(c);
        self.arr = Some(rest);
        Some(first)
    }
}

} // verus!
