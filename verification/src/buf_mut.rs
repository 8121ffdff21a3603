//! A buffer of fixed capacity that is filled from the front.

use vstd::prelude::*;

verus! {

/// Holds up to `capacity` bytes.
pub struct BufMut {
    pub bytes: Vec<u8>,
    pub capacity: usize,
}

impl View for BufMut {
    type V = Seq<u8>;

    open spec fn view(&self) -> Seq<u8> {
        self.bytes@
    }
}

impl BufMut {
    pub open spec fn wf(self) -> bool {
        self@.len() <= self.capacity
    }

    pub fn new(capacity: usize) -> (buf: BufMut)
        ensures
            buf.wf(),
            buf@ == Seq::<u8>::empty(),
            buf.capacity == capacity,
    {
        BufMut { bytes: Vec::new(), capacity }
    }

    /// How many bytes the buffer still has room for.
    pub fn remaining(&self) -> (n: usize)
        requires
            self.wf(),
        ensures
            n == self.capacity - self@.len(),
    {
        self.capacity - self.bytes.len()
    }

    /// How many bytes the buffer holds.
    pub fn available(&self) -> (n: usize)
        ensures
            n == self@.len(),
    {
        self.bytes.len()
    }

    /// Takes as many of the bytes of `data` as there is room for, and says how many.
    pub fn write(&mut self, data: &[u8]) -> (n: usize)
        requires
            old(self).wf(),
        ensures
            final(self).wf(),
            final(self).capacity == old(self).capacity,
            n == if data@.len() <= old(self).capacity - old(self)@.len() {
                data@.len() as int
            } else {
                old(self).capacity - old(self)@.len()
            },
            final(self)@ == old(self)@ + data@.subrange(0, n as int),
    {
        let room: usize = self.remaining();
        let n: usize = if data.len() <= room {
            data.len()
        } else {
            room
        };
        let mut i: usize = 0;
        while i < n
            invariant
                i <= n <= data@.len(),
                n <= old(self).capacity - old(self)@.len(),
                self.capacity == old(self).capacity,
                self@ == old(self)@ + data@.subrange(0, i as int),
            decreases n - i,
        {
            self.bytes.push(data[i]);
            i = i + 1;
            assert(self@ =~= old(self)@ + data@.subrange(0, i as int));
        }
        n
    }

    /// Forgets the bytes.
    pub fn clear(&mut self)
        ensures
            final(self)@ == Seq::<u8>::empty(),
            final(self).capacity == old(self).capacity,
            final(self).wf(),
    {
        self.bytes.clear();
    }
}

} // verus!
