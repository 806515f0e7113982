//! A sequential reference model of the ring buffer: a plain bounded vector
//! with the same eviction and drain-all semantics, kept as an oracle for
//! differential testing against the engine.

use vstd::prelude::*;

verus! {

/// A bounded buffer that keeps the most recent `size` elements.
pub struct BoundedBuffer<T> {
    size: usize,
    data: Vec<T>,
}

impl<T> View for BoundedBuffer<T> {
    type V = Seq<T>;

    closed spec fn view(&self) -> Seq<T> {
        self.data@
    }
}

impl<T> BoundedBuffer<T> {
    /// The fixed capacity chosen at construction.
    pub closed spec fn capacity(&self) -> nat {
        self.size as nat
    }

    /// The buffer never holds more than its capacity.
    pub closed spec fn well_formed(&self) -> bool {
        1 <= self.size && self.data@.len() <= self.size
    }

    /// Make an empty buffer of the given positive capacity.
    pub fn new(size: usize) -> (r: BoundedBuffer<T>)
        requires
            size >= 1,
        ensures
            r.well_formed(),
            r.capacity() == size,
            r@ == Seq::<T>::empty(),
    {
        BoundedBuffer { size, data: Vec::new() }
    }

    /// Append an element; when full, the oldest element is dropped to make
    /// room, so the buffer always holds the most recent writes in order.
    pub fn write(&mut self, x: T)
        requires
            old(self).well_formed(),
        ensures
            final(self).well_formed(),
            final(self).capacity() == old(self).capacity(),
            final(self)@ == if old(self)@.len() < old(self).capacity() {
                old(self)@.push(x)
            } else {
                old(self)@.drop_first().push(x)
            },
    {
        if self.data.len() < self.size {
            self.data.push(x);
        } else {
            let _evicted = self.data.remove(0);
            self.data.push(x);
        }
    }

    /// Drain everything: return the buffered elements oldest first and leave
    /// the buffer empty.
    pub fn read(&mut self) -> (r: Vec<T>)
        requires
            old(self).well_formed(),
        ensures
            final(self).well_formed(),
            final(self).capacity() == old(self).capacity(),
            r@ == old(self)@,
            final(self)@ == Seq::<T>::empty(),
    {
        let mut drained: Vec<T> = Vec::new();
        core::mem::swap(&mut self.data, &mut drained);
        drained
    }
}

} // verus!
