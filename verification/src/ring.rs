//! Fixed-capacity FIFO ring buffer, the queue behind every price level.
//!
//! All storage is allocated at construction; push and pop move the head and
//! tail indices around the fixed buffer and never allocate.

use vstd::prelude::*;

verus! {

/// Position of logical slot `k` measured from `head` in a buffer of `cap` slots.
spec fn ring_index(head: int, k: int, cap: int) -> int {
    if head + k < cap {
        head + k
    } else {
        head + k - cap
    }
}

/// Fixed-capacity circular FIFO queue.
pub struct RingBuffer<T> {
    buffer: Vec<Option<T>>,
    capacity: usize,
    head: usize,
    len: usize,
}

impl<T> View for RingBuffer<T> {
    type V = Seq<T>;

    /// The queued elements in FIFO order, front first.
    closed spec fn view(&self) -> Seq<T> {
        Seq::new(
            self.len as nat,
            |k: int| self.buffer@[ring_index(self.head as int, k, self.capacity as int)].unwrap(),
        )
    }
}

impl<T> RingBuffer<T> {
    /// Fixed capacity chosen at construction.
    pub closed spec fn spec_capacity(&self) -> int {
        self.capacity as int
    }

    /// Well-formed: indices in range and every logical slot occupied.
    pub closed spec fn wf(&self) -> bool {
        &&& 0 < self.capacity
        &&& self.buffer@.len() == self.capacity
        &&& self.head < self.capacity
        &&& self.len <= self.capacity
        &&& forall|k: int|
            0 <= k < self.len ==> (#[trigger] self.buffer@[ring_index(
                self.head as int,
                k,
                self.capacity as int,
            )]) is Some
    }

    /// Creates an empty queue that can hold `capacity` elements.
    pub fn with_capacity(capacity: usize) -> (r: RingBuffer<T>)
        requires
            capacity > 0,
        ensures
            r.wf(),
            r.spec_capacity() == capacity,
            r@ =~= Seq::<T>::empty(),
    {
        let mut buffer: Vec<Option<T>> = Vec::new();
        let mut i: usize = 0;
        while i < capacity
            invariant
                i <= capacity,
                buffer@.len() == i,
            decreases capacity - i,
        {
            buffer.push(None);
            i = i + 1;
        }
        RingBuffer { buffer, capacity, head: 0, len: 0 }
    }

    /// Slot index just past the last element, where the next push lands.
    fn tail(&self) -> (t: usize)
        requires
            self.wf(),
            self@.len() < self.spec_capacity(),
        ensures
            t == ring_index(self.head as int, self.len as int, self.capacity as int),
            t < self.spec_capacity(),
    {
        if self.head >= self.capacity - self.len {
            self.head - (self.capacity - self.len)
        } else {
            self.head + self.len
        }
    }

    /// Enqueues at the tail; hands the value back when the queue is full.
    pub fn push(&mut self, value: T) -> (r: Result<(), T>)
        requires
            old(self).wf(),
        ensures
            final(self).wf(),
            final(self).spec_capacity() == old(self).spec_capacity(),
            match r {
                Ok(()) => old(self)@.len() < old(self).spec_capacity()
                    && final(self)@ =~= old(self)@.push(value),
                Err(v) => old(self)@.len() == old(self).spec_capacity()
                    && v == value
                    && final(self)@ =~= old(self)@,
            },
    {
        if self.len >= self.capacity {
            return Err(value);
        }
        let t = self.tail();
        self.buffer.set(t, Some(value));
        self.len = self.len + 1;
        proof {
            assert forall|k: int| 0 <= k < self.len implies (#[trigger] self.buffer@[ring_index(
                self.head as int,
                k,
                self.capacity as int,
            )]) is Some by {
                if k < self.len - 1 {
                    lemma_ring_distinct(
                        self.head as int,
                        k,
                        self.len - 1,
                        self.capacity as int,
                    );
                }
            }
            assert forall|k: int| 0 <= k < self.len implies self@[k] == old(self)@.push(
                value,
            )[k] by {
                if k < self.len - 1 {
                    lemma_ring_distinct(
                        self.head as int,
                        k,
                        self.len - 1,
                        self.capacity as int,
                    );
                }
            }
        }
        Ok(())
    }

    /// Dequeues the front element.
    pub fn pop(&mut self) -> (r: Option<T>)
        requires
            old(self).wf(),
        ensures
            final(self).wf(),
            final(self).spec_capacity() == old(self).spec_capacity(),
            match r {
                Some(v) => old(self)@.len() > 0
                    && v == old(self)@[0]
                    && final(self)@ =~= old(self)@.subrange(1, old(self)@.len() as int),
                None => old(self)@.len() == 0 && final(self)@ =~= old(self)@,
            },
    {
        if self.len == 0 {
            return None;
        }
        let mut slot: Option<T> = None;
        self.buffer.set_and_swap(self.head, &mut slot);
        self.head = if self.head + 1 == self.capacity {
            0
        } else {
            self.head + 1
        };
        self.len = self.len - 1;
        proof {
            assert(old(self).buffer@[ring_index(old(self).head as int, 0, old(self).capacity as int)] is Some);
            assert(ring_index(old(self).head as int, 0, old(self).capacity as int) == old(self).head as int);
            assert forall|k: int| 0 <= k < self.len implies ring_index(
                self.head as int,
                k,
                self.capacity as int,
            ) == ring_index(old(self).head as int, k + 1, self.capacity as int) && (
            #[trigger] self.buffer@[ring_index(self.head as int, k, self.capacity as int)])
                == old(self).buffer@[ring_index(
                old(self).head as int,
                k + 1,
                self.capacity as int,
            )] by {
                lemma_ring_distinct(old(self).head as int, 0, k + 1, self.capacity as int);
            }
            assert(self@ =~= old(self)@.subrange(1, old(self)@.len() as int));
        }
        match slot {
            Some(v) => Some(v),
            None => {
                proof {
                    assert(false);
                }
                None
            },
        }
    }

    /// Borrows the front element without removing it.
    pub fn front(&self) -> (r: Option<&T>)
        requires
            self.wf(),
        ensures
            match r {
                Some(v) => self@.len() > 0 && *v == self@[0],
                None => self@.len() == 0,
            },
    {
        if self.len == 0 {
            return None;
        }
        proof {
            assert(self.buffer@[ring_index(self.head as int, 0, self.capacity as int)] is Some);
            assert(ring_index(self.head as int, 0, self.capacity as int) == self.head as int);
        }
        match &self.buffer[self.head] {
            Some(v) => Some(v),
            None => {
                proof {
                    assert(false);
                }
                None
            },
        }
    }

    /// Overwrites the front element in place.
    pub fn set_front(&mut self, value: T)
        requires
            old(self).wf(),
            old(self)@.len() > 0,
        ensures
            final(self).wf(),
            final(self).spec_capacity() == old(self).spec_capacity(),
            final(self)@ =~= old(self)@.update(0, value),
    {
        let h = self.head;
        self.buffer.set(h, Some(value));
        proof {
            assert forall|k: int| 0 <= k < self.len implies (#[trigger] self.buffer@[ring_index(
                self.head as int,
                k,
                self.capacity as int,
            )]) is Some by {
                if k != 0 {
                    lemma_ring_distinct(self.head as int, 0, k, self.capacity as int);
                }
            }
            assert forall|k: int| 0 <= k < self.len implies self@[k] == old(self)@.update(
                0,
                value,
            )[k] by {
                if k != 0 {
                    lemma_ring_distinct(self.head as int, 0, k, self.capacity as int);
                }
            }
        }
    }

    /// Number of queued elements.
    pub fn len(&self) -> (n: usize)
        ensures
            n == self@.len(),
    {
        self.len
    }

    /// True when nothing is queued.
    pub fn is_empty(&self) -> (r: bool)
        ensures
            r <==> self@.len() == 0,
    {
        self.len == 0
    }

    /// True when another push would be refused.
    pub fn is_full(&self) -> (r: bool)
        requires
            self.wf(),
        ensures
            r <==> self@.len() == self.spec_capacity(),
    {
        self.len >= self.capacity
    }

    /// Fixed capacity of the queue.
    pub fn capacity(&self) -> (c: usize)
        ensures
            c == self.spec_capacity(),
    {
        self.capacity
    }

    /// Removes and drops every queued element.
    pub fn clear(&mut self)
        requires
            old(self).wf(),
        ensures
            final(self).wf(),
            final(self).spec_capacity() == old(self).spec_capacity(),
            final(self)@.len() == 0,
    {
        while self.len() > 0
            invariant
                self.wf(),
                self.spec_capacity() == old(self).spec_capacity(),
            decreases self@.len(),
        {
            let _popped = self.pop();
        }
    }

    /// Dequeues every element, front first.
    pub fn drain(&mut self) -> (r: Vec<T>)
        requires
            old(self).wf(),
        ensures
            final(self).wf(),
            final(self).spec_capacity() == old(self).spec_capacity(),
            final(self)@.len() == 0,
            r@ =~= old(self)@,
    {
        let mut out: Vec<T> = Vec::new();
        while self.len() > 0
            invariant
                self.wf(),
                self.spec_capacity() == old(self).spec_capacity(),
                out@ + self@ =~= old(self)@,
            decreases self@.len(),
        {
            match self.pop() {
                Some(v) => out.push(v),
                None => (),
            }
            proof {
                assert(out@ + self@ =~= old(self)@);
            }
        }
        proof {
            assert(out@ =~= old(self)@);
        }
        out
    }
}

impl<T> RingBuffer<T> {
    /// Well-formedness bounds the length by the capacity.
    pub proof fn lemma_wf_len(&self)
        requires
            self.wf(),
        ensures
            self@.len() <= self.spec_capacity(),
            self.spec_capacity() > 0,
    {
    }
}

/// Distinct logical offsets within capacity map to distinct buffer slots.
proof fn lemma_ring_distinct(head: int, k1: int, k2: int, cap: int)
    requires
        0 <= head < cap,
        0 <= k1 < cap,
        0 <= k2 < cap,
        k1 != k2,
    ensures
        ring_index(head, k1, cap) != ring_index(head, k2, cap),
        0 <= ring_index(head, k1, cap) < cap,
        0 <= ring_index(head, k2, cap) < cap,
{
}

} // verus!
