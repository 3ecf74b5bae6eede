//! Fixed-capacity FIFO of bytes between the serial side and the parser.
//!
//! The capacity is a power of two so the wrap-around stays a cheap masked
//! add.  The producer only ever calls `try_push`, the consumer `try_pop`
//! and `clear`; a full buffer drops the new byte and reports it, since
//! silent truncation would corrupt the line being assembled.

use vstd::prelude::*;

verus! {

/// Capacity of the byte ring, a power of two.
pub const RING_CAPACITY: usize = 128;

/// Fixed-capacity single-producer / single-consumer byte FIFO.
pub struct RingBuffer {
    buf: Vec<u8>,
    head: usize,
    len: usize,
}

impl RingBuffer {
    /// Structural invariant: backing storage is fully allocated and the
    /// indices stay inside it.
    pub closed spec fn wf(self) -> bool {
        &&& self.buf@.len() == RING_CAPACITY
        &&& self.head < RING_CAPACITY
        &&& self.len <= RING_CAPACITY
    }

    /// The buffered bytes, oldest first.
    pub closed spec fn contents(self) -> Seq<u8> {
        Seq::new(self.len as nat, |i: int| self.buf@[(self.head + i) % (RING_CAPACITY as int)])
    }

    /// A well-formed ring never holds more than its capacity.
    pub proof fn lemma_bounded(self)
        requires
            self.wf(),
        ensures
            self.contents().len() <= RING_CAPACITY,
    {
    }

    /// An empty ring.
    pub fn new() -> (r: RingBuffer)
        ensures
            r.wf(),
            r.contents() == Seq::<u8>::empty(),
    {
        let mut buf: Vec<u8> = Vec::new();
        while buf.len() < RING_CAPACITY
            invariant
                buf@.len() <= RING_CAPACITY,
            decreases RING_CAPACITY - buf@.len(),
        {
            buf.push(0);
        }
        RingBuffer { buf, head: 0, len: 0 }
    }

    /// Current occupancy.
    pub fn occupancy(&self) -> (r: usize)
        requires
            self.wf(),
        ensures
            r == self.contents().len(),
    {
        self.len
    }

    /// Appends `b` if there is room; a full ring leaves the contents
    /// unchanged and returns `false`.
    pub fn try_push(&mut self, b: u8) -> (r: bool)
        requires
            old(self).wf(),
        ensures
            final(self).wf(),
            old(self).contents().len() < RING_CAPACITY ==> r && final(self).contents()
                == old(self).contents().push(b),
            old(self).contents().len() == RING_CAPACITY ==> !r && final(self).contents()
                == old(self).contents(),
    {
        if self.len == RING_CAPACITY {
            false
        } else {
            let idx = (self.head + self.len) % RING_CAPACITY;
            self.buf.set(idx, b);
            self.len = self.len + 1;
            proof {
                let oldc = old(self).contents();
                let newc = self.contents();
                assert forall|i: int| 0 <= i < oldc.len() implies newc[i] == oldc[i] by {
                    assert((old(self).head + i) % (RING_CAPACITY as int) != (old(self).head
                        + old(self).len) % (RING_CAPACITY as int));
                }
                assert(newc[oldc.len() as int] == b);
                assert(newc =~= oldc.push(b));
            }
            true
        }
    }

    /// Removes and returns the oldest byte, or `None` when empty.
    pub fn try_pop(&mut self) -> (r: Option<u8>)
        requires
            old(self).wf(),
        ensures
            final(self).wf(),
            old(self).contents().len() == 0 ==> r is None && final(self).contents()
                == old(self).contents(),
            old(self).contents().len() > 0 ==> r == Some(old(self).contents()[0])
                && final(self).contents() == old(self).contents().drop_first(),
    {
        if self.len == 0 {
            None
        } else {
            let b = self.buf[self.head];
            self.head = (self.head + 1) % RING_CAPACITY;
            self.len = self.len - 1;
            proof {
                let oldc = old(self).contents();
                let newc = self.contents();
                assert forall|i: int| 0 <= i < newc.len() implies newc[i] == oldc[i + 1] by {
                    assert((old(self).head + (i + 1)) % (RING_CAPACITY as int)
                        == ((old(self).head + 1) % (RING_CAPACITY as int) + i) % (
                    RING_CAPACITY as int));
                }
                assert(newc =~= oldc.drop_first());
            }
            Some(b)
        }
    }

    /// Drops everything buffered; used by the consumer during recovery.
    pub fn clear(&mut self)
        requires
            old(self).wf(),
        ensures
            final(self).wf(),
            final(self).contents() == Seq::<u8>::empty(),
    {
        self.len = 0;
        proof {
            assert(self.contents() =~= Seq::<u8>::empty());
        }
    }
}

} // verus!
