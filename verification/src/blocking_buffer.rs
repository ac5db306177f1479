//! A bounded FIFO buffer between sensor producers and aggregation workers.
//!
//! Producers wait while the buffer is full, so no reading is ever dropped;
//! consumers wait while it is empty, or give up after a timeout. The waiting
//! itself (a lock and a condition variable) belongs to the caller: each
//! operation here is one step that either completes or says what to wait for.
use std::collections::VecDeque;
use vstd::prelude::*;

verus! {

/// What one step of a read with a timeout decided.
#[derive(Debug)]
pub enum PopTimeout<T> {
    /// The oldest item, taken out of the buffer.
    Item(T),
    /// The buffer is empty: wait at most this many nanoseconds for an item.
    Wait(u128),
    /// The buffer is empty and the time is up.
    TimedOut,
}

/// One step on a buffer.
pub enum BufferOp<T> {
    /// A write of the value, which goes in when there is room.
    Push(T),
    /// A read, which takes the oldest item out when there is one.
    Pop,
}

/// A buffer's items, capacity, and counts of items that went in and came
/// out, after `op`.
pub open spec fn buffer_step<T>(m: (Seq<T>, nat, nat, nat), op: BufferOp<T>) -> (
    Seq<T>,
    nat,
    nat,
    nat,
) {
    match op {
        BufferOp::Push(v) => if m.0.len() < m.1 {
            (m.0.push(v), m.1, m.2 + 1, m.3)
        } else {
            m
        },
        BufferOp::Pop => if m.0.len() > 0 {
            (m.0.drop_first(), m.1, m.2, m.3 + 1)
        } else {
            m
        },
    }
}

/// A buffer's state after each of `ops` in turn.
pub open spec fn buffer_run<T>(m: (Seq<T>, nat, nat, nat), ops: Seq<BufferOp<T>>) -> (
    Seq<T>,
    nat,
    nat,
    nat,
)
    decreases ops.len(),
{
    if ops.len() == 0 {
        m
    } else {
        buffer_step(buffer_run(m, ops.drop_last()), ops.last())
    }
}

/// How many of `ops` are writes that found room, run from `m`.
pub open spec fn pushes_taken<T>(m: (Seq<T>, nat, nat, nat), ops: Seq<BufferOp<T>>) -> nat
    decreases ops.len(),
{
    if ops.len() == 0 {
        0
    } else {
        let before = buffer_run(m, ops.drop_last());
        pushes_taken(m, ops.drop_last()) + if ops.last() is Push && before.0.len() < before.1 {
            1nat
        } else {
            0nat
        }
    }
}

/// How many of `ops` are reads that found an item, run from `m`.
pub open spec fn pops_taken<T>(m: (Seq<T>, nat, nat, nat), ops: Seq<BufferOp<T>>) -> nat
    decreases ops.len(),
{
    if ops.len() == 0 {
        0
    } else {
        let before = buffer_run(m, ops.drop_last());
        pops_taken(m, ops.drop_last()) + if ops.last() is Pop && before.0.len() > 0 {
            1nat
        } else {
            0nat
        }
    }
}

/// Over any run of steps, the count of items that went in grows by exactly
/// the writes that found room and the count of items that came out by
/// exactly the reads that found an item; neither ever decreases, the
/// capacity never changes, and the buffer never holds more than it.
pub proof fn lemma_buffer_run_counts<T>(m: (Seq<T>, nat, nat, nat), ops: Seq<BufferOp<T>>)
    requires
        m.0.len() <= m.1,
    ensures
        buffer_run(m, ops).2 == m.2 + pushes_taken(m, ops),
        buffer_run(m, ops).3 == m.3 + pops_taken(m, ops),
        buffer_run(m, ops).2 >= m.2,
        buffer_run(m, ops).3 >= m.3,
        buffer_run(m, ops).1 == m.1,
        buffer_run(m, ops).0.len() <= m.1,
    decreases ops.len(),
{
    if ops.len() > 0 {
        lemma_buffer_run_counts(m, ops.drop_last());
    }
}

/// A bounded FIFO buffer that counts the items that went in and came out.
pub struct BlockingBuffer<T> {
    queue: VecDeque<T>,
    capacity: usize,
    total_push: usize,
    total_pop: usize,
    pushed: Ghost<Seq<T>>,
    popped: Ghost<Seq<T>>,
}

impl<T> View for BlockingBuffer<T> {
    type V = Seq<T>;

    /// The items in the buffer, oldest first.
    open spec fn view(&self) -> Seq<T> {
        self.contents()
    }
}

impl<T> BlockingBuffer<T> {
    /// The items in the buffer, oldest first.
    pub closed spec fn contents(&self) -> Seq<T> {
        self.queue@
    }

    /// The most items the buffer holds.
    pub closed spec fn spec_capacity(&self) -> nat {
        self.capacity as nat
    }

    /// How many items have gone in.
    pub closed spec fn spec_total_pushed(&self) -> nat {
        self.total_push as nat
    }

    /// How many items have come out.
    pub closed spec fn spec_total_popped(&self) -> nat {
        self.total_pop as nat
    }

    /// The items, the capacity, and how many items went in and came out.
    pub open spec fn model(&self) -> (Seq<T>, nat, nat, nat) {
        (self@, self.spec_capacity(), self.spec_total_pushed(), self.spec_total_popped())
    }

    /// Every item that has gone in, in the order it went in.
    pub closed spec fn pushed_items(&self) -> Seq<T> {
        self.pushed@
    }

    /// Every item that has come out, in the order it came out.
    pub closed spec fn popped_items(&self) -> Seq<T> {
        self.popped@
    }

    /// The buffer is well formed: it holds no more than its capacity, and
    /// every item that went in either came out or is still there.
    pub closed spec fn wf(&self) -> bool {
        &&& self.queue@.len() <= self.capacity
        &&& self.pushed@ == self.popped@ + self.queue@
        &&& self.total_push == self.pushed@.len()
        &&& self.total_pop == self.popped@.len()
    }

    /// Makes an empty buffer that holds at most `capacity` items.
    pub fn new(capacity: usize) -> (r: Self)
        ensures
            r.wf(),
            r@ == Seq::<T>::empty(),
            r.spec_capacity() == capacity,
            r.spec_total_pushed() == 0,
            r.spec_total_popped() == 0,
            r.pushed_items() == Seq::<T>::empty(),
            r.popped_items() == Seq::<T>::empty(),
            r.model() == (Seq::<T>::empty(), capacity as nat, 0nat, 0nat),
    {
        let r = BlockingBuffer {
            queue: VecDeque::new(),
            capacity,
            total_push: 0,
            total_pop: 0,
            pushed: Ghost(Seq::empty()),
            popped: Ghost(Seq::empty()),
        };
        assert(r.pushed@ =~= r.popped@ + r.queue@);
        r
    }

    /// One step of a write: appends `item` when there is room; when the
    /// buffer is full, hands `item` back and changes nothing, and the caller
    /// waits for a read before it tries again.
    pub fn push(&mut self, item: T) -> (r: Result<(), T>)
        requires
            old(self).wf(),
            old(self)@.len() < old(self).spec_capacity() ==> old(self).spec_total_pushed()
                < usize::MAX,
        ensures
            final(self).wf(),
            final(self).spec_capacity() == old(self).spec_capacity(),
            final(self).spec_total_popped() == old(self).spec_total_popped(),
            final(self).popped_items() == old(self).popped_items(),
            final(self).model() == buffer_step(old(self).model(), BufferOp::Push(item)),
            old(self)@.len() >= old(self).spec_capacity() ==> {
                &&& r == Err::<(), T>(item)
                &&& final(self)@ == old(self)@
                &&& final(self).spec_total_pushed() == old(self).spec_total_pushed()
                &&& final(self).pushed_items() == old(self).pushed_items()
            },
            old(self)@.len() < old(self).spec_capacity() ==> {
                &&& r is Ok
                &&& final(self)@ == old(self)@.push(item)
                &&& final(self).spec_total_pushed() == old(self).spec_total_pushed() + 1
                &&& final(self).pushed_items() == old(self).pushed_items().push(item)
            },
    {
        if self.queue.len() >= self.capacity {
            return Err(item);
        }
        let ghost g = item;
        self.queue.push_back(item);
        self.total_push = self.total_push + 1;
        proof {
            self.pushed@ = self.pushed@.push(g);
            assert(self.pushed@ =~= self.popped@ + self.queue@);
        }
        Ok(())
    }

    /// Takes the oldest item out of the buffer, counting it.
    fn take_front(&mut self) -> (r: T)
        requires
            old(self).wf(),
            old(self)@.len() > 0,
        ensures
            final(self).wf(),
            final(self).spec_capacity() == old(self).spec_capacity(),
            final(self).spec_total_pushed() == old(self).spec_total_pushed(),
            final(self).spec_total_popped() == old(self).spec_total_popped() + 1,
            r == old(self)@[0],
            final(self)@ == old(self)@.drop_first(),
            final(self).pushed_items() == old(self).pushed_items(),
            final(self).popped_items() == old(self).popped_items().push(r),
    {
        let item = self.queue.pop_front().unwrap();
        self.total_pop = self.total_pop + 1;
        proof {
            self.popped@ = self.popped@.push(item);
            assert(self.pushed@ =~= self.popped@ + self.queue@);
        }
        item
    }

    /// One step of a read: takes the oldest item out when there is one;
    /// `None` when the buffer is empty, and the caller waits for a write
    /// before it tries again.
    pub fn pop(&mut self) -> (r: Option<T>)
        requires
            old(self).wf(),
        ensures
            final(self).wf(),
            final(self).spec_capacity() == old(self).spec_capacity(),
            final(self).spec_total_pushed() == old(self).spec_total_pushed(),
            final(self).pushed_items() == old(self).pushed_items(),
            final(self).model() == buffer_step(old(self).model(), BufferOp::Pop),
            old(self)@.len() == 0 ==> {
                &&& r is None
                &&& final(self)@ == old(self)@
                &&& final(self).spec_total_popped() == old(self).spec_total_popped()
                &&& final(self).popped_items() == old(self).popped_items()
            },
            old(self)@.len() > 0 ==> {
                &&& r == Some(old(self)@[0])
                &&& final(self)@ == old(self)@.drop_first()
                &&& final(self).spec_total_popped() == old(self).spec_total_popped() + 1
                &&& final(self).popped_items() == old(self).popped_items().push(old(self)@[0])
            },
    {
        if self.queue.len() == 0 {
            return None;
        }
        Some(self.take_front())
    }

    /// One step of a read that gives up after `timeout_nanos`:
    /// `elapsed_nanos` is the time since the read began, and `timed_out`
    /// says whether the last wait ran out. Takes the oldest item out when
    /// there is one; otherwise the read ends when the last wait ran out or
    /// the time is past, and else waits for what is left of it.
    pub fn pop_timeout(&mut self, timeout_nanos: u128, elapsed_nanos: u128, timed_out: bool) -> (r:
        PopTimeout<T>)
        requires
            old(self).wf(),
        ensures
            final(self).wf(),
            final(self).spec_capacity() == old(self).spec_capacity(),
            final(self).spec_total_pushed() == old(self).spec_total_pushed(),
            final(self).pushed_items() == old(self).pushed_items(),
            final(self).model() == buffer_step(old(self).model(), BufferOp::Pop),
            old(self)@.len() > 0 ==> {
                &&& r == PopTimeout::Item(old(self)@[0])
                &&& final(self)@ == old(self)@.drop_first()
                &&& final(self).spec_total_popped() == old(self).spec_total_popped() + 1
                &&& final(self).popped_items() == old(self).popped_items().push(old(self)@[0])
            },
            old(self)@.len() == 0 ==> {
                &&& final(self)@ == old(self)@
                &&& final(self).spec_total_popped() == old(self).spec_total_popped()
                &&& final(self).popped_items() == old(self).popped_items()
                &&& (timed_out || elapsed_nanos > timeout_nanos) ==> r is TimedOut
                &&& !(timed_out || elapsed_nanos > timeout_nanos) ==> r == PopTimeout::<T>::Wait(
                    (timeout_nanos - elapsed_nanos) as u128,
                )
            },
    {
        if self.queue.len() > 0 {
            return PopTimeout::Item(self.take_front());
        }
        if timed_out {
            return PopTimeout::TimedOut;
        }
        match timeout_nanos.checked_sub(elapsed_nanos) {
            Some(remain) => PopTimeout::Wait(remain),
            None => PopTimeout::TimedOut,
        }
    }

    /// How many items have come out.
    pub fn throughput(&self) -> (r: usize)
        ensures
            r == self.spec_total_popped(),
    {
        self.total_pop
    }

    /// How many items the buffer holds.
    pub fn size(&self) -> (r: usize)
        ensures
            r == self@.len(),
    {
        self.queue.len()
    }

    /// The most items the buffer holds.
    pub fn capacity(&self) -> (r: usize)
        ensures
            r == self.spec_capacity(),
    {
        self.capacity
    }

    /// How many items have gone in.
    pub fn total_pushed(&self) -> (r: usize)
        ensures
            r == self.spec_total_pushed(),
    {
        self.total_push
    }

    /// How many items have come out.
    pub fn total_popped(&self) -> (r: usize)
        ensures
            r == self.spec_total_popped(),
    {
        self.total_pop
    }
}

/// Nothing is lost and the order holds: the items that came out, followed
/// by the items still in the buffer, are exactly the items that went in, in
/// the order they went in; the counters count them; and the buffer never
/// holds more than its capacity.
pub proof fn lemma_conservation<T>(b: &BlockingBuffer<T>)
    requires
        b.wf(),
    ensures
        b.popped_items() + b@ == b.pushed_items(),
        b.spec_total_pushed() == b.pushed_items().len(),
        b.spec_total_popped() == b.popped_items().len(),
        b.spec_total_pushed() == b.spec_total_popped() + b@.len(),
        b@.len() <= b.spec_capacity(),
{
}

/// What comes out came out in the order it went in: the `k`-th item taken
/// out of a buffer is the `k`-th item put in.
pub proof fn lemma_first_in_first_out<T>(b: &BlockingBuffer<T>, k: int)
    requires
        b.wf(),
        0 <= k < b.popped_items().len(),
    ensures
        b.popped_items()[k] == b.pushed_items()[k],
{
}

} // verus!
