//! Bounded single-producer / single-consumer FIFO ring buffer.
//!
//! `RingBuffer` holds the ring itself: a head (read) and a tail (write) cursor
//! over a fixed array of slots, one slot always left free so that a full ring
//! can be told from an empty one. The producer and consumer handles share one
//! ring behind a lock.
use std::sync::Arc;
use vstd::prelude::*;
use vstd::rwlock::{RwLock, RwLockPredicate};

verus! {

pub struct RingBuffer<T> {
    data: Vec<Option<T>>,
    head: usize,
    tail: usize,
    capacity: usize,
}

impl<T> RingBuffer<T> {
    /// Number of items between the read and the write cursor.
    pub closed spec fn count(&self) -> nat {
        if self.tail >= self.head {
            (self.tail - self.head) as nat
        } else {
            (self.tail + self.capacity - self.head) as nat
        }
    }

    /// The slot that holds the `i`-th oldest item.
    pub closed spec fn slot(&self, i: int) -> int {
        if self.head + i < self.capacity {
            self.head + i
        } else {
            self.head + i - self.capacity
        }
    }

    /// How many items the ring can hold: one slot always stays free.
    pub closed spec fn max_items(&self) -> nat {
        (self.capacity - 1) as nat
    }

    pub closed spec fn wf(&self) -> bool {
        &&& self.capacity >= 2
        &&& self.data@.len() == self.capacity
        &&& self.head < self.capacity
        &&& self.tail < self.capacity
        &&& forall|i: int| 0 <= i < self.count() ==> (#[trigger] self.data@[self.slot(i)]) is Some
    }
}

impl<T> View for RingBuffer<T> {
    type V = Seq<T>;

    /// The queued items, oldest first.
    closed spec fn view(&self) -> Seq<T> {
        Seq::new(self.count(), |i: int| self.data@[self.slot(i)]->0)
    }
}

impl<T> RingBuffer<T> {
    /// An empty ring with `capacity` slots.
    pub fn new(capacity: usize) -> (r: Self)
        requires
            capacity >= 2,
        ensures
            r.wf(),
            r@ == Seq::<T>::empty(),
            r.max_items() == capacity - 1,
    {
        let mut data: Vec<Option<T>> = Vec::with_capacity(capacity);
        let mut i: usize = 0;
        while i < capacity
            invariant
                i <= capacity,
                data@.len() == i,
            decreases capacity - i,
        {
            data.push(None);
            i = i + 1;
        }
        let r = RingBuffer { data, head: 0, tail: 0, capacity };
        assert(r@ =~= Seq::<T>::empty());
        r
    }

    /// Append a value. Returns `false`, and changes nothing, when the ring is full.
    pub fn push(&mut self, value: T) -> (ok: bool)
        requires
            old(self).wf(),
        ensures
            final(self).wf(),
            final(self).max_items() == old(self).max_items(),
            ok == (old(self)@.len() < old(self).max_items()),
            ok ==> final(self)@ == old(self)@.push(value),
            !ok ==> final(self)@ == old(self)@,
    {
        let next_tail = if self.tail + 1 < self.capacity {
            self.tail + 1
        } else {
            0
        };
        if next_tail == self.head {
            return false;
        }
        let ghost before = *self;
        self.data.set(self.tail, Some(value));
        self.tail = next_tail;
        assert(self.count() == before.count() + 1);
        assert forall|i: int| 0 <= i < self.count() implies (#[trigger] self.data@[self.slot(i)]) is Some by {
            if i < before.count() {
                assert(self.slot(i) == before.slot(i));
                assert(before.data@[before.slot(i)] is Some);
            }
        }
        assert(self@ =~= before@.push(value)) by {
            assert forall|i: int| 0 <= i < before.count() implies self@[i] == before@[i] by {
                assert(self.slot(i) == before.slot(i));
                assert(self.slot(i) != before.tail);
            }
        }
        true
    }

    /// Take the oldest value, `None` when the ring is empty.
    pub fn pop(&mut self) -> (r: Option<T>)
        requires
            old(self).wf(),
        ensures
            final(self).wf(),
            final(self).max_items() == old(self).max_items(),
            old(self)@.len() == 0 ==> r is None && final(self)@ == old(self)@,
            old(self)@.len() > 0 ==> r == Some(old(self)@[0]) && final(self)@
                == old(self)@.drop_first(),
    {
        if self.head == self.tail {
            return None;
        }
        let ghost before = *self;
        let value = self.data[self.head].take();
        self.head = if self.head + 1 < self.capacity {
            self.head + 1
        } else {
            0
        };
        assert(self.count() + 1 == before.count());
        assert forall|i: int| 0 <= i < self.count() implies (#[trigger] self.data@[self.slot(i)]) is Some by {
            assert(self.slot(i) == before.slot(i + 1));
            assert(before.data@[before.slot(i + 1)] is Some);
            assert(before.slot(i + 1) != before.head);
        }
        assert(self@ =~= before@.drop_first()) by {
            assert forall|i: int| 0 <= i < self.count() implies self@[i] == before@[i + 1] by {
                assert(self.slot(i) == before.slot(i + 1));
                assert(before.slot(i + 1) != before.head);
            }
        }
        assert(before.data@[before.slot(0)] is Some);
        value
    }

    /// `true` when no value is queued.
    pub fn is_empty(&self) -> (b: bool)
        requires
            self.wf(),
        ensures
            b == (self@.len() == 0),
    {
        self.head == self.tail
    }
}

/// The lock around a shared ring only ever holds a well-formed ring of the
/// given number of slots.
pub struct RingInvariant {
    pub capacity: usize,
}

impl<T> RwLockPredicate<RingBuffer<T>> for RingInvariant {
    open spec fn inv(self, ring: RingBuffer<T>) -> bool {
        ring.wf() && ring.max_items() + 1 == self.capacity
    }
}

/// `Arc::clone`: another handle to the same shared value.
#[verifier::external_body]
fn share<V>(a: &Arc<V>) -> (r: Arc<V>)
    ensures
        r == *a,
{
    Arc::clone(a)
}

/// The producer (write) end of a shared ring.
pub struct SpscProducer<T> {
    inner: Arc<RwLock<RingBuffer<T>, RingInvariant>>,
}

/// The consumer (read) end of a shared ring.
pub struct SpscConsumer<T> {
    inner: Arc<RwLock<RingBuffer<T>, RingInvariant>>,
}

impl<T> SpscProducer<T> {
    /// The shared ring's lock.
    pub closed spec fn lock(&self) -> RwLock<RingBuffer<T>, RingInvariant> {
        *self.inner
    }

    /// Push a value; `false` when the ring is full. What the ring holds at the
    /// moment of the call depends on the consumer, so nothing is stated of the result.
    pub fn push(&self, value: T) -> bool {
        let (mut ring, handle) = self.inner.acquire_write();
        let ok = ring.push(value);
        handle.release_write(ring);
        ok
    }
}

impl<T> SpscConsumer<T> {
    /// The shared ring's lock.
    pub closed spec fn lock(&self) -> RwLock<RingBuffer<T>, RingInvariant> {
        *self.inner
    }

    /// Pop the oldest value; `None` when the ring is empty. What the ring holds at
    /// the moment of the call depends on the producer, so nothing is stated of the result.
    pub fn pop(&self) -> Option<T> {
        let (mut ring, handle) = self.inner.acquire_write();
        let value = ring.pop();
        handle.release_write(ring);
        value
    }

    /// `true` when no value is queued at the moment of the call.
    pub fn is_empty(&self) -> bool {
        let handle = self.inner.acquire_read();
        let empty = handle.borrow().is_empty();
        handle.release_read();
        empty
    }
}

impl<T> Clone for SpscConsumer<T> {
    fn clone(&self) -> (c: Self)
        ensures
            c.lock() == self.lock(),
    {
        SpscConsumer { inner: share(&self.inner) }
    }
}

/// A new ring of `capacity` slots (holding at most `capacity - 1` values) and
/// its two ends.
pub fn spsc_channel<T: Send>(capacity: usize) -> (ends: (SpscProducer<T>, SpscConsumer<T>))
    requires
        capacity >= 2,
    ensures
        ends.0.lock() == ends.1.lock(),
        ends.0.lock().pred().capacity == capacity,
{
    let ring = RingBuffer::new(capacity);
    let inner = Arc::new(RwLock::new(ring, Ghost(RingInvariant { capacity })));
    (SpscProducer { inner: share(&inner) }, SpscConsumer { inner })
}

} // verus!
