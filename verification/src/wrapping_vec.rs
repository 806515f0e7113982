//! A fixed-length store addressed by a monotonically increasing counter: every
//! index is reduced modulo the length, so positions that only ever grow can be
//! used to address a bounded number of cells.

use vstd::prelude::*;

verus! {

/// A vector whose accessors wrap their index modulo the length.
pub struct WrappingVec<T> {
    inner: Vec<T>,
}

impl<T> View for WrappingVec<T> {
    type V = Seq<T>;

    closed spec fn view(&self) -> Seq<T> {
        self.inner@
    }
}

impl<T> WrappingVec<T> {
    /// Wrap an existing vector; its length becomes the modulus.
    pub fn from_vec(inner: Vec<T>) -> (r: WrappingVec<T>)
        ensures
            r@ == inner@,
    {
        WrappingVec { inner }
    }

    /// The number of cells, which is also the modulus applied to indices.
    pub fn len(&self) -> (r: usize)
        ensures
            r == self@.len(),
    {
        self.inner.len()
    }

    /// Read the cell a counter addresses.
    pub fn get(&self, i: usize) -> (r: &T)
        requires
            self@.len() > 0,
        ensures
            *r == self@[i as int % self@.len() as int],
    {
        &self.inner[i % self.inner.len()]
    }

    /// Overwrite the cell a counter addresses.
    pub fn put(&mut self, i: usize, value: T)
        requires
            old(self)@.len() > 0,
        ensures
            final(self)@ == old(self)@.update(i as int % old(self)@.len() as int, value),
    {
        let n = self.inner.len();
        self.inner.set(i % n, value);
    }

    /// Exchange the cell a counter addresses with the given value.
    pub fn swap_at(&mut self, i: usize, value: &mut T)
        requires
            old(self)@.len() > 0,
        ensures
            final(self)@ == old(self)@.update(i as int % old(self)@.len() as int, *old(value)),
            *final(value) == old(self)@[i as int % old(self)@.len() as int],
    {
        let n = self.inner.len();
        self.inner.set_and_swap(i % n, value);
    }
}

} // verus!
