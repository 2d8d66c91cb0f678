//! A vector of at most `N` elements: pushes beyond the capacity are refused
//! and hand the element back.

use vstd::prelude::*;

verus! {

/// A vector holding at most `N` elements.
pub struct Vec<T, const N: usize> {
    buf: std::vec::Vec<T>,
}

impl<T, const N: usize> View for Vec<T, N> {
    type V = Seq<T>;

    /// The elements, in push order.
    closed spec fn view(&self) -> Seq<T> {
        self.buf@
    }
}

impl<T, const N: usize> Vec<T, N> {
    /// Never more than `N` elements.
    pub closed spec fn wf(&self) -> bool {
        self.buf@.len() <= N
    }

    /// An empty vector.
    pub fn new() -> (v: Self)
        where
            T: Copy,
        ensures
            v@ == Seq::<T>::empty(),
            v.wf(),
    {
        Vec { buf: std::vec::Vec::new() }
    }

    /// Append `v` when there is room (`Ok`); when `N` elements are already
    /// held, leave the vector as it is and hand `v` back (`Err`).
    pub fn push(&mut self, v: T) -> (r: Result<(), T>)
        requires
            old(self).wf(),
        ensures
            final(self).wf(),
            old(self)@.len() < N ==> r is Ok && final(self)@ == old(self)@.push(v),
            old(self)@.len() >= N ==> r == Err::<(), T>(v) && final(self)@ == old(self)@,
            final(self)@.len() <= N,
    {
        if self.buf.len() < N {
            self.buf.push(v);
            Ok(())
        } else {
            Err(v)
        }
    }

    /// Whether no element is held.
    pub fn is_empty(&self) -> (b: bool)
        ensures
            b == (self@.len() == 0),
    {
        self.buf.len() == 0
    }

    /// Number of elements held.
    pub fn len(&self) -> (n: usize)
        ensures
            n == self@.len(),
            self.wf() ==> n <= N,
    {
        self.buf.len()
    }

    /// The element at `i`.
    pub fn get(&self, i: usize) -> (r: &T)
        requires
            i < self@.len(),
        ensures
            *r == self@[i as int],
    {
        &self.buf[i]
    }
}

} // verus!
