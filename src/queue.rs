//! The FIFO ready queue: values come out in the order they went in, each
//! exactly once.
use vstd::prelude::*;
use std::collections::VecDeque;

verus! {

pub struct Queue<T> {
    items: VecDeque<T>,
}

impl<T> View for Queue<T> {
    type V = Seq<T>;

    closed spec fn view(&self) -> Seq<T> {
        self.items@
    }
}

/// `q` after enqueuing each value of `xs` in turn.
pub open spec fn enqueue_all<T>(q: Seq<T>, xs: Seq<T>) -> Seq<T>
    decreases xs.len(),
{
    if xs.len() == 0 {
        q
    } else {
        enqueue_all(q, xs.drop_last()).push(xs.last())
    }
}

/// Values enqueued into an empty queue with no consumer in between come out
/// in the same order, each once, and then the queue is empty: after
/// enqueuing `xs` the contents are `xs`, and the `i`-th dequeue takes `xs[i]`
/// and leaves `xs.skip(i + 1)`.
pub proof fn lemma_fifo<T>(xs: Seq<T>)
    ensures
        enqueue_all(Seq::<T>::empty(), xs) == xs,
        forall|i: int|
            0 <= i < xs.len() ==> (#[trigger] xs.skip(i))[0] == xs[i] && xs.skip(i).drop_first() == xs.skip(i + 1),
        xs.skip(xs.len() as int).len() == 0,
    decreases xs.len(),
{
    if xs.len() > 0 {
        lemma_fifo(xs.drop_last());
        assert(xs.drop_last().push(xs.last()) =~= xs);
    }
    assert forall|i: int| 0 <= i < xs.len() implies (#[trigger] xs.skip(i))[0] == xs[i] && xs.skip(i).drop_first()
        == xs.skip(i + 1) by {
        assert(xs.skip(i).drop_first() =~= xs.skip(i + 1));
    }
}

impl<T> Queue<T> {
    /// An empty queue.
    pub fn create() -> (r: Queue<T>)
        ensures
            r@ == Seq::<T>::empty(),
    {
        Queue { items: VecDeque::new() }
    }

    /// Appends `val` at the tail.
    pub fn enqueue(&mut self, val: T)
        ensures
            final(self)@ == old(self)@.push(val),
    {
        self.items.push_back(val);
    }

    /// Takes the value at the head; `None` when the queue is empty.
    pub fn dequeue(&mut self) -> (r: Option<T>)
        ensures
            old(self)@.len() == 0 ==> r is None && final(self)@ == old(self)@,
            old(self)@.len() > 0 ==> r == Some(old(self)@[0]) && final(self)@ == old(self)@.drop_first(),
    {
        self.items.pop_front()
    }

    /// Number of values waiting.
    pub fn len(&self) -> (r: usize)
        ensures
            r == self@.len(),
    {
        self.items.len()
    }
}

} // verus!
