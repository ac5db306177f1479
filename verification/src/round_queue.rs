//! A ring queue of power-of-two size with a reading end and a writing end.
//!
//! The ring keeps one slot free, so a queue made with capacity `c` holds at
//! most `c - 1` items. A write never fails: when the queue is full, the write
//! takes the place of the oldest item, which is lost.
use core::marker::PhantomData;
use vstd::prelude::*;
use vstd::math::min;
use crate::power_of_two::{is_pow2, is_power_of_two, lemma_mask_wraps};

verus! {

/// Why a queue could not be made.
#[derive(Debug, Clone, Copy, PartialEq, Eq, Structural)]
pub enum QueueError {
    /// The capacity asked for was 0.
    ZeroCapacity,
    /// The capacity asked for was not a power of two.
    NotPowerOfTwo,
}

/// The position `x` on a ring of `cap` slots, for `0 <= x < 2 * cap`.
pub open spec fn wrap(x: int, cap: int) -> int {
    if x < cap {
        x
    } else {
        x - cap
    }
}

/// A queue of capacity `cap` that holds `len` items is full.
pub open spec fn is_full(len: nat, cap: nat) -> bool {
    len + 1 == cap
}

/// What a queue of capacity `cap` holding `items` holds after `value` is
/// written: `value` joins the back and, when the queue was full, the oldest
/// item leaves.
pub open spec fn written<T>(items: Seq<T>, cap: nat, value: T) -> Seq<T> {
    if is_full(items.len(), cap) {
        items.push(value).drop_first()
    } else {
        items.push(value)
    }
}

/// The `n` newest items of `s`, oldest first; all of `s` when it has no more.
pub open spec fn newest<T>(s: Seq<T>, n: nat) -> Seq<T> {
    if s.len() <= n {
        s
    } else {
        s.subrange(s.len() - n, s.len() as int)
    }
}

/// The `n` newest items of `s` number `n` (all of `s` when it has fewer),
/// end `s`, and grow by an item added at the end while fewer than `n` are
/// kept before it.
pub proof fn lemma_newest_is_the_tail<T>(s: Seq<T>, n: nat, x: T)
    ensures
        newest(s, n).len() == if s.len() <= n {
            s.len()
        } else {
            n
        },
        s == s.subrange(0, s.len() - newest(s, n).len()) + newest(s, n),
        n > 0 ==> newest(s.push(x), n) == newest(s, (n - 1) as nat).push(x),
{
    assert(s =~= s.subrange(0, s.len() - newest(s, n).len()) + newest(s, n));
    if n > 0 {
        assert(newest(s.push(x), n) =~= newest(s, (n - 1) as nat).push(x));
    }
}

/// What a queue of capacity `cap` holding `items` holds after each of
/// `values` is written in turn.
pub open spec fn written_all<T>(items: Seq<T>, cap: nat, values: Seq<T>) -> Seq<T>
    decreases values.len(),
{
    if values.len() == 0 {
        items
    } else {
        written(written_all(items, cap, values.drop_last()), cap, values.last())
    }
}

/// A well-formed queue has a positive capacity and holds fewer items than
/// its capacity: one slot always stays free.
pub proof fn lemma_len_below_capacity<T>(q: &RWRoundQueue<T>)
    requires
        q.wf(),
    ensures
        q.spec_capacity() > 0,
        q@.len() < q.spec_capacity(),
{
    q.lemma_wf_basics();
}

/// One write into a queue of capacity `cap` leaves in it the `cap - 1`
/// newest of its items and the written value.
pub proof fn lemma_written_keeps_newest<T>(items: Seq<T>, cap: nat, value: T)
    requires
        0 < cap,
        items.len() < cap,
    ensures
        written(items, cap, value) == newest(items.push(value), (cap - 1) as nat),
        written(items, cap, value).len() < cap,
{
    if is_full(items.len(), cap) {
        assert(items.push(value).drop_first() =~= newest(items.push(value), (cap - 1) as nat));
    }
}

/// Whatever is written into a queue of capacity `cap`, it holds the
/// `cap - 1` newest of the items it held and the values written, in the
/// order they were written: the oldest are the ones lost.
pub proof fn lemma_written_all_keeps_newest<T>(items: Seq<T>, cap: nat, values: Seq<T>)
    requires
        0 < cap,
        items.len() < cap,
    ensures
        written_all(items, cap, values) == newest(items + values, (cap - 1) as nat),
    decreases values.len(),
{
    if values.len() == 0 {
        assert(items + values =~= items);
    } else {
        let n = (cap - 1) as nat;
        let before = items + values.drop_last();
        lemma_written_all_keeps_newest(items, cap, values.drop_last());
        let held = newest(before, n);
        lemma_written_keeps_newest(held, cap, values.last());
        assert(items + values =~= before.push(values.last()));
        assert(newest(held.push(values.last()), n) =~= newest(before.push(values.last()), n));
    }
}

/// A queue that can hold an item gives back, on the next read, a value
/// written into it while it was empty.
pub proof fn lemma_write_into_empty_then_read<T>(cap: nat, value: T)
    requires
        cap > 1,
    ensures
        written(Seq::<T>::empty(), cap, value) == seq![value],
{
    assert(Seq::<T>::empty().push(value) =~= seq![value]);
}

/// An operation on the items of a queue.
pub enum QueueOp<T> {
    /// A write of the value, overwriting the oldest item when full.
    Write(T),
    /// A read of the oldest item, when there is one.
    Read,
}

/// A queue's items and capacity after `op`.
pub open spec fn queue_step<T>(m: (Seq<T>, nat), op: QueueOp<T>) -> (Seq<T>, nat) {
    match op {
        QueueOp::Write(v) => (written(m.0, m.1, v), m.1),
        QueueOp::Read => (
            if m.0.len() == 0 {
                m.0
            } else {
                m.0.drop_first()
            },
            m.1,
        ),
    }
}

/// A queue's items and capacity after each of `ops` in turn.
pub open spec fn queue_run<T>(m: (Seq<T>, nat), ops: Seq<QueueOp<T>>) -> (Seq<T>, nat)
    decreases ops.len(),
{
    if ops.len() == 0 {
        m
    } else {
        queue_step(queue_run(m, ops.drop_last()), ops.last())
    }
}

/// No run of reads and writes changes a queue's capacity, and none makes it
/// hold as many items as its capacity.
pub proof fn lemma_queue_run_keeps_capacity<T>(m: (Seq<T>, nat), ops: Seq<QueueOp<T>>)
    requires
        m.0.len() < m.1,
    ensures
        queue_run(m, ops).1 == m.1,
        queue_run(m, ops).0.len() < m.1,
    decreases ops.len(),
{
    if ops.len() > 0 {
        lemma_queue_run_keeps_capacity(m, ops.drop_last());
    }
}

/// A ring queue that overwrites its oldest item when it is full.
pub struct RWRoundQueue<T> {
    slots: Vec<Option<T>>,
    capacity: usize,
    read_idx: usize,
    write_idx: usize,
}

impl<T> View for RWRoundQueue<T> {
    type V = Seq<T>;

    /// The items in the queue, oldest first.
    open spec fn view(&self) -> Seq<T> {
        self.contents()
    }
}

impl<T> RWRoundQueue<T> {
    /// The capacity the queue was made with.
    pub closed spec fn spec_capacity(&self) -> nat {
        self.capacity as nat
    }

    /// The items and the capacity of the queue.
    pub open spec fn model(&self) -> (Seq<T>, nat) {
        (self@, self.spec_capacity())
    }

    /// The number of items between the read and the write position.
    closed spec fn spec_len(&self) -> nat {
        if self.write_idx >= self.read_idx {
            (self.write_idx - self.read_idx) as nat
        } else {
            (self.capacity - self.read_idx + self.write_idx) as nat
        }
    }

    /// The slot that holds the `i`-th oldest item.
    closed spec fn slot(&self, i: int) -> Option<T> {
        self.slots@[wrap(self.read_idx + i, self.capacity as int)]
    }

    /// The items in the queue, oldest first.
    pub closed spec fn contents(&self) -> Seq<T> {
        Seq::new(self.spec_len(), |i: int| self.slot(i)->0)
    }

    /// The slot that the next write fills.
    pub closed spec fn write_slot(&self) -> Option<T> {
        self.slots@[self.write_idx as int]
    }

    /// The queue is well formed: its capacity is a power of two, both
    /// positions lie on the ring, and every slot between them holds an item.
    pub closed spec fn wf(&self) -> bool {
        &&& self.slots@.len() == self.capacity
        &&& is_pow2(self.capacity as nat)
        &&& self.read_idx < self.capacity
        &&& self.write_idx < self.capacity
        &&& forall|i: int|
            0 <= i < self.spec_len() ==> (#[trigger] self.slots@[wrap(
                self.read_idx + i,
                self.capacity as int,
            )]) is Some
    }

    proof fn lemma_wf_basics(&self)
        requires
            self.wf(),
        ensures
            self.capacity > 0,
            self@.len() == self.spec_len(),
            self@.len() < self.capacity,
            self.write_idx == wrap(self.read_idx + self.spec_len(), self.capacity as int),
            is_full(self@.len(), self.capacity as nat) <==> wrap(self.write_idx + 1,
                self.capacity as int) == self.read_idx,
    {
        lemma_mask_wraps(self.capacity, 0);
    }

    /// Makes an empty queue of the given capacity, which must be a power of two.
    pub fn new(capacity: usize) -> (r: Result<Self, QueueError>)
        ensures
            match r {
                Ok(q) => {
                    &&& q.wf()
                    &&& q@ == Seq::<T>::empty()
                    &&& q.spec_capacity() == capacity
                    &&& q.model() == (Seq::<T>::empty(), capacity as nat)
                    &&& capacity > 0
                    &&& is_pow2(capacity as nat)
                },
                Err(QueueError::ZeroCapacity) => capacity == 0,
                Err(QueueError::NotPowerOfTwo) => capacity > 0 && !is_pow2(capacity as nat),
            },
    {
        if capacity == 0 {
            return Err(QueueError::ZeroCapacity);
        }
        if !is_power_of_two(capacity) {
            return Err(QueueError::NotPowerOfTwo);
        }
        let mut slots: Vec<Option<T>> = Vec::new();
        let mut i: usize = 0;
        while i < capacity
            invariant
                i <= capacity,
                slots@.len() == i,
            decreases capacity - i,
        {
            slots.push(None);
            i = i + 1;
        }
        let q = RWRoundQueue { slots, capacity, read_idx: 0, write_idx: 0 };
        assert(q@ =~= Seq::<T>::empty());
        Ok(q)
    }

    /// The position after `current` on the ring.
    fn next_index(&self, current: usize) -> (r: usize)
        requires
            self.wf(),
            current < self.capacity,
        ensures
            r == wrap(current + 1, self.capacity as int),
    {
        proof {
            lemma_mask_wraps(self.capacity, (current + 1) as usize);
        }
        (current + 1) & (self.capacity - 1)
    }


    /// The oldest item, left in the queue; `None` when the queue is empty.
    pub fn acquire_read_ptr(&self) -> (r: Option<&T>)
        requires
            self.wf(),
        ensures
            r is None <==> self@.len() == 0,
            r is Some ==> *r->0 == self@[0],
    {
        proof {
            self.lemma_wf_basics();
        }
        if self.read_idx == self.write_idx {
            return None;
        }
        proof {
            assert(self.slot(0) is Some);
        }
        self.slots[self.read_idx].as_ref()
    }

    /// Moves the read position past the oldest item, which must be there.
    pub fn commit_read(&mut self)
        requires
            old(self).wf(),
            old(self)@.len() > 0,
        ensures
            final(self).wf(),
            final(self).spec_capacity() == old(self).spec_capacity(),
            final(self)@ == old(self)@.drop_first(),
            final(self).write_slot() == old(self).write_slot(),
            final(self).model() == queue_step(old(self).model(), QueueOp::Read),
    {
        proof {
            self.lemma_wf_basics();
        }
        let read_idx = self.read_idx;
        let next_read = self.next_index(read_idx);
        self.read_idx = next_read;
        proof {
            let ghost pre = *old(self);
            assert forall|i: int| 0 <= i < self.spec_len() implies (#[trigger] self.slots@[wrap(
                self.read_idx + i,
                self.capacity as int,
            )]) is Some && self.slot(i) == pre.slot(i + 1) by {
                assert(pre.slots@[wrap(pre.read_idx + (i + 1), pre.capacity as int)] is Some);
            }
            assert(self@ =~= pre@.drop_first());
        }
    }

    /// The slot that the next write fills, and whether the queue is full, in
    /// which case committing the write drops the oldest item.
    pub fn acquire_write_ptr(&mut self) -> (r: Option<(&mut Option<T>, bool)>)
        requires
            old(self).wf(),
        ensures
            r is Some,
            ({
                let (slot, was_full) = r->0;
                &&& *slot == old(self).write_slot()
                &&& was_full == is_full(old(self)@.len(), old(self).spec_capacity())
            }),
            final(self).wf(),
            final(self).spec_capacity() == old(self).spec_capacity(),
            final(self)@ == old(self)@,
            final(self).write_slot() == *final((r->0).0),
    {
        proof {
            self.lemma_wf_basics();
        }
        let write_idx = self.write_idx;
        let read_idx = self.read_idx;
        let next_write = self.next_index(write_idx);
        let was_full = next_write == read_idx;
        let slot = &mut self.slots[write_idx];
        Some((slot, was_full))
    }


    /// Moves the write position past the slot that `acquire_write_ptr` gave
    /// out, which must have been filled; when the queue was full, the read
    /// position moves past the oldest item too.
    pub fn commit_write(&mut self, was_full: bool)
        requires
            old(self).wf(),
            old(self).write_slot() is Some,
            was_full == is_full(old(self)@.len(), old(self).spec_capacity()),
        ensures
            final(self).wf(),
            final(self).spec_capacity() == old(self).spec_capacity(),
            final(self)@ == written(
                old(self)@,
                old(self).spec_capacity(),
                old(self).write_slot()->0,
            ),
            final(self).model() == queue_step(
                old(self).model(),
                QueueOp::Write(old(self).write_slot()->0),
            ),
    {
        proof {
            self.lemma_wf_basics();
        }
        let write_idx = self.write_idx;
        let next_write = self.next_index(write_idx);
        if was_full {
            let read_idx = self.read_idx;
            let next_read = self.next_index(read_idx);
            self.read_idx = next_read;
        }
        self.write_idx = next_write;
        proof {
            let ghost pre = *old(self);
            let ghost after = written(pre@, pre.spec_capacity(), pre.write_slot()->0);
            assert forall|i: int| 0 <= i < self.spec_len() implies (#[trigger] self.slots@[wrap(
                self.read_idx + i,
                self.capacity as int,
            )]) is Some && self.slot(i)->0 == after[i] by {
                if was_full {
                    if i + 1 < pre.spec_len() {
                        assert(pre.slots@[wrap(pre.read_idx + (i + 1), pre.capacity as int)] is Some);
                    }
                } else {
                    if i < pre.spec_len() {
                        assert(pre.slots@[wrap(pre.read_idx + i, pre.capacity as int)] is Some);
                    }
                }
            }
            assert(self@ =~= after);
        }
    }

    /// Takes the oldest item out of the queue; `None` when the queue is empty.
    pub fn try_read(&mut self) -> (r: Option<T>)
        requires
            old(self).wf(),
        ensures
            final(self).wf(),
            final(self).spec_capacity() == old(self).spec_capacity(),
            old(self)@.len() == 0 ==> r is None && final(self)@ == old(self)@,
            old(self)@.len() > 0 ==> r == Some(old(self)@[0]) && final(self)@ == old(
                self,
            )@.drop_first(),
            final(self).model() == queue_step(old(self).model(), QueueOp::Read),
    {
        proof {
            self.lemma_wf_basics();
        }
        if self.read_idx == self.write_idx {
            return None;
        }
        let read_idx = self.read_idx;
        proof {
            assert(self.slots@[wrap(self.read_idx + 0, self.capacity as int)] is Some);
        }
        let next_read = self.next_index(read_idx);
        let value = self.slots[read_idx].take();
        self.read_idx = next_read;
        proof {
            let ghost pre = *old(self);
            assert forall|i: int| 0 <= i < self.spec_len() implies (#[trigger] self.slots@[wrap(
                self.read_idx + i,
                self.capacity as int,
            )]) is Some && self.slot(i) == pre.slot(i + 1) by {
                assert(pre.slots@[wrap(pre.read_idx + (i + 1), pre.capacity as int)] is Some);
            }
            assert(self@ =~= pre@.drop_first());
        }
        value
    }

    /// Writes `value`, overwriting the oldest item when the queue is full;
    /// returns whether it was full.
    pub fn write_overwrite(&mut self, value: T) -> (r: bool)
        requires
            old(self).wf(),
        ensures
            final(self).wf(),
            final(self).spec_capacity() == old(self).spec_capacity(),
            r == is_full(old(self)@.len(), old(self).spec_capacity()),
            final(self)@ == written(old(self)@, old(self).spec_capacity(), value),
            final(self).model() == queue_step(old(self).model(), QueueOp::Write(value)),
    {
        let (slot, was_full) = self.acquire_write_ptr().unwrap();
        *slot = Some(value);
        self.commit_write(was_full);
        was_full
    }

    /// Hands out the reading end and the writing end of the queue.
    pub fn split(&mut self) -> (r: (QueueReader<T>, QueueWriter<T>))
        ensures
            *final(self) == *old(self),
            r.0.spec_capacity() == old(self).spec_capacity(),
            r.1.spec_capacity() == old(self).spec_capacity(),
    {
        let reader = QueueReader { capacity: self.capacity, marker: PhantomData };
        let writer = QueueWriter { capacity: self.capacity, marker: PhantomData };
        (reader, writer)
    }

    /// The number of items in the queue.
    pub fn len(&self) -> (r: usize)
        requires
            self.wf(),
        ensures
            r == self@.len(),
    {
        let read_idx = self.read_idx;
        let write_idx = self.write_idx;
        if write_idx >= read_idx {
            write_idx - read_idx
        } else {
            self.capacity - read_idx + write_idx
        }
    }

    /// Whether the queue holds no item.
    pub fn is_empty(&self) -> (r: bool)
        requires
            self.wf(),
        ensures
            r == (self@.len() == 0),
    {
        self.read_idx == self.write_idx
    }

    /// The capacity the queue was made with.
    pub fn capacity(&self) -> (r: usize)
        ensures
            r == self.spec_capacity(),
    {
        self.capacity
    }
}

/// The reading end of a queue. The queue itself is handed to each call, so
/// that the two ends never alias it.
pub struct QueueReader<T> {
    capacity: usize,
    marker: PhantomData<T>,
}

impl<T> QueueReader<T> {
    /// The capacity of the queue this end was split from.
    pub closed spec fn spec_capacity(&self) -> nat {
        self.capacity as nat
    }

    /// Takes the oldest item out of the queue; `None` when it is empty.
    pub fn read(&self, queue: &mut RWRoundQueue<T>) -> (r: Option<T>)
        requires
            old(queue).wf(),
        ensures
            final(queue).wf(),
            final(queue).spec_capacity() == old(queue).spec_capacity(),
            old(queue)@.len() == 0 ==> r is None && final(queue)@ == old(queue)@,
            old(queue)@.len() > 0 ==> r == Some(old(queue)@[0]) && final(queue)@ == old(
                queue,
            )@.drop_first(),
            final(queue).model() == queue_step(old(queue).model(), QueueOp::Read),
    {
        queue.try_read()
    }

    /// Takes up to `max` items out of the queue, oldest first.
    pub fn read_batch(&self, queue: &mut RWRoundQueue<T>, max: usize) -> (r: Vec<T>)
        requires
            old(queue).wf(),
        ensures
            final(queue).wf(),
            final(queue).spec_capacity() == old(queue).spec_capacity(),
            r@ == old(queue)@.take(min(max as int, old(queue)@.len() as int)),
            final(queue)@ == old(queue)@.skip(min(max as int, old(queue)@.len() as int)),
    {
        let ghost start = old(queue)@;
        let mut result: Vec<T> = Vec::new();
        let mut k: usize = 0;
        while k < max
            invariant
                queue.wf(),
                queue.spec_capacity() == old(queue).spec_capacity(),
                k <= max,
                k <= start.len(),
                result@ == start.take(k as int),
                queue@ == start.skip(k as int),
            ensures
                queue.wf(),
                queue.spec_capacity() == old(queue).spec_capacity(),
                k == min(max as int, start.len() as int),
                result@ == start.take(k as int),
                queue@ == start.skip(k as int),
            decreases max - k,
        {
            match self.read(queue) {
                Some(item) => {
                    result.push(item);
                    k = k + 1;
                    assert(result@ =~= start.take(k as int));
                    assert(queue@ =~= start.skip(k as int));
                },
                None => {
                    break;
                },
            }
        }
        result
    }

    /// The number of items in the queue.
    pub fn len(&self, queue: &RWRoundQueue<T>) -> (r: usize)
        requires
            queue.wf(),
        ensures
            r == queue@.len(),
    {
        queue.len()
    }

    /// Whether the queue holds no item.
    pub fn is_empty(&self, queue: &RWRoundQueue<T>) -> (r: bool)
        requires
            queue.wf(),
        ensures
            r == (queue@.len() == 0),
    {
        queue.is_empty()
    }
}

/// The writing end of a queue. The queue itself is handed to each call, so
/// that the two ends never alias it.
pub struct QueueWriter<T> {
    capacity: usize,
    marker: PhantomData<T>,
}

impl<T> QueueWriter<T> {
    /// The capacity of the queue this end was split from.
    pub closed spec fn spec_capacity(&self) -> nat {
        self.capacity as nat
    }

    /// The slot that the next write fills, and whether the queue is full.
    pub fn acquire_ptr<'a>(&mut self, queue: &'a mut RWRoundQueue<T>) -> (r: Option<
        (&'a mut Option<T>, bool),
    >)
        requires
            old(queue).wf(),
        ensures
            *final(self) == *old(self),
            r is Some,
            ({
                let (slot, was_full) = r->0;
                &&& *slot == old(queue).write_slot()
                &&& was_full == is_full(old(queue)@.len(), old(queue).spec_capacity())
            }),
            final(queue).wf(),
            final(queue).spec_capacity() == old(queue).spec_capacity(),
            final(queue)@ == old(queue)@,
            final(queue).write_slot() == *final((r->0).0),
    {
        queue.acquire_write_ptr()
    }

    /// Commits the write into the slot that `acquire_ptr` gave out.
    pub fn commit(&mut self, queue: &mut RWRoundQueue<T>, was_full: bool)
        requires
            old(queue).wf(),
            old(queue).write_slot() is Some,
            was_full == is_full(old(queue)@.len(), old(queue).spec_capacity()),
        ensures
            *final(self) == *old(self),
            final(queue).wf(),
            final(queue).spec_capacity() == old(queue).spec_capacity(),
            final(queue)@ == written(
                old(queue)@,
                old(queue).spec_capacity(),
                old(queue).write_slot()->0,
            ),
            final(queue).model() == queue_step(
                old(queue).model(),
                QueueOp::Write(old(queue).write_slot()->0),
            ),
    {
        queue.commit_write(was_full)
    }

    /// Writes `value`, overwriting the oldest item when the queue is full;
    /// returns whether it was full.
    pub fn write(&mut self, queue: &mut RWRoundQueue<T>, value: T) -> (r: bool)
        requires
            old(queue).wf(),
        ensures
            *final(self) == *old(self),
            final(queue).wf(),
            final(queue).spec_capacity() == old(queue).spec_capacity(),
            r == is_full(old(queue)@.len(), old(queue).spec_capacity()),
            final(queue)@ == written(old(queue)@, old(queue).spec_capacity(), value),
            final(queue).model() == queue_step(old(queue).model(), QueueOp::Write(value)),
    {
        queue.write_overwrite(value)
    }

    /// The capacity of the queue this end was split from.
    pub fn capacity(&self) -> (r: usize)
        ensures
            r == self.spec_capacity(),
    {
        self.capacity
    }
}

} // verus!
