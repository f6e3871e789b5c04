use vstd::prelude::*;

use ring_buffer::RingBuffer;

verus! {

#[verifier::external_type_specification]
#[verifier::external_body]
#[verifier::reject_recursive_types(T)]
pub struct ExRingBuffer<T>(RingBuffer<T>);

/// The ids that a ring buffer holds, front first.
pub uninterp spec fn queued(q: RingBuffer<usize>) -> Seq<usize>;

/// Relies on `ring_buffer::RingBuffer::new`: a new buffer holds nothing.
#[verifier::external_body]
fn ring_new() -> (r: RingBuffer<usize>)
    ensures
        queued(r) == Seq::<usize>::empty(),
{
    RingBuffer::new()
}

/// Relies on `RingBuffer::len`: the number of elements held.
#[verifier::external_body]
fn ring_len(q: &RingBuffer<usize>) -> (r: usize)
    ensures
        r == queued(*q).len(),
{
    q.len()
}

/// Relies on `RingBuffer::push_back`: the element goes to the back, the storage grows when full.
#[verifier::external_body]
fn ring_push(q: &mut RingBuffer<usize>, id: usize)
    ensures
        queued(*final(q)) == queued(*old(q)).push(id),
{
    q.push_back(id);
}

/// Relies on `RingBuffer::pop_front`: takes the front element off, or gives `None` when empty.
#[verifier::external_body]
fn ring_pop(q: &mut RingBuffer<usize>) -> (r: Option<usize>)
    ensures
        queued(*old(q)).len() == 0 ==> r is None && queued(*final(q)) == queued(*old(q)),
        queued(*old(q)).len() > 0 ==> r == Some(queued(*old(q))[0]) && queued(*final(q)) == queued(
            *old(q),
        ).drop_first(),
{
    q.pop_front()
}

/// How many ready ids the queue holds at most.
pub const SCHED_CAPACITY: usize = 512;

/// The ready queue: a bounded FIFO of context ids, served round-robin.
pub struct Scheduler {
    queue: RingBuffer<usize>,
}

impl View for Scheduler {
    type V = Seq<usize>;

    closed spec fn view(&self) -> Seq<usize> {
        queued(self.queue)
    }
}

impl Scheduler {
    pub open spec fn wf(&self) -> bool {
        self@.len() <= SCHED_CAPACITY
    }

    /// An empty queue.
    pub fn new() -> (r: Self)
        ensures
            r.wf(),
            r@ == Seq::<usize>::empty(),
    {
        Scheduler { queue: ring_new() }
    }

    /// The number of ready ids.
    pub fn len(&self) -> (r: usize)
        ensures
            r == self@.len(),
    {
        ring_len(&self.queue)
    }

    /// Queues `id` at the back; a full queue refuses it and hands it back.
    pub fn try_insert(&mut self, id: usize) -> (r: Result<(), usize>)
        requires
            old(self).wf(),
        ensures
            final(self).wf(),
            old(self)@.len() < SCHED_CAPACITY ==> r is Ok && final(self)@ == old(self)@.push(id),
            old(self)@.len() >= SCHED_CAPACITY ==> r == Err::<(), usize>(id) && final(self)@ == old(self)@,
    {
        if ring_len(&self.queue) >= SCHED_CAPACITY {
            return Err(id);
        }
        ring_push(&mut self.queue, id);
        Ok(())
    }

    /// Takes the oldest ready id, or `None` when no id is queued.
    pub fn try_get(&mut self) -> (r: Option<usize>)
        requires
            old(self).wf(),
        ensures
            final(self).wf(),
            old(self)@.len() == 0 ==> r is None && final(self)@ == old(self)@,
            old(self)@.len() > 0 ==> r == Some(old(self)@[0]) && final(self)@ == old(self)@.drop_first(),
    {
        ring_pop(&mut self.queue)
    }
}

} // verus!
