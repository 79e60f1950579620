use vstd::prelude::*;

use crate::bounded_queue::BoundedQueue;
use crate::executor::TaskWaker;

verus! {

/// Raw keyboard scancodes on their way from the interrupt handler to the one
/// task that consumes them.
///
/// The handler pushes without blocking or allocating and drops a scancode
/// that finds the queue full; the consumer takes them in arrival order and,
/// finding none, leaves a waker to be called on the next arrival.
pub struct ScancodeStream {
    queue: BoundedQueue<u8>,
    waker: Option<TaskWaker>,
}

impl ScancodeStream {
    /// Scancodes not yet consumed, oldest first.
    pub closed spec fn pending(&self) -> Seq<u8> {
        self.queue@
    }

    pub closed spec fn cap(&self) -> nat {
        self.queue.cap()
    }

    /// The waker to call on the next arrival, if a consumer left one.
    pub closed spec fn registered(&self) -> Option<TaskWaker> {
        self.waker
    }

    pub closed spec fn wf(&self) -> bool {
        self.queue.wf()
    }

    /// An empty stream that holds at most `capacity` scancodes.
    pub fn new(capacity: usize) -> (r: Self)
        ensures
            r.wf(),
            r.pending() == Seq::<u8>::empty(),
            r.cap() == capacity,
            r.registered() is None,
    {
        ScancodeStream { queue: BoundedQueue::new(capacity), waker: None }
    }

    /// What the keyboard interrupt does with a scancode: queue it, and hand
    /// back the consumer's waker, if one was left, for the caller to wake.
    /// A scancode that finds the queue full is dropped and wakes nobody.
    pub fn add_scancode(&mut self, scancode: u8) -> (w: Option<TaskWaker>)
        requires
            old(self).wf(),
        ensures
            final(self).wf(),
            final(self).cap() == old(self).cap(),
            old(self).pending().len() < old(self).cap() ==> {
                &&& final(self).pending() == old(self).pending().push(scancode)
                &&& w == old(self).registered()
                &&& final(self).registered() is None
            },
            old(self).pending().len() >= old(self).cap() ==> {
                &&& final(self).pending() == old(self).pending()
                &&& w is None
                &&& final(self).registered() == old(self).registered()
            },
    {
        if self.queue.push(scancode) {
            self.waker.take()
        } else {
            None
        }
    }

    /// Polls the stream on behalf of the task that `waker` wakes: the oldest
    /// scancode when there is one; otherwise `None`, with `waker` left to be
    /// called on the next arrival.
    pub fn poll_next(&mut self, waker: TaskWaker) -> (r: Option<u8>)
        requires
            old(self).wf(),
        ensures
            final(self).wf(),
            final(self).cap() == old(self).cap(),
            old(self).pending().len() > 0 ==> {
                &&& r == Some(old(self).pending()[0])
                &&& final(self).pending() == old(self).pending().drop_first()
                &&& final(self).registered() == old(self).registered()
            },
            old(self).pending().len() == 0 ==> {
                &&& r is None
                &&& final(self).pending() == old(self).pending()
                &&& final(self).registered() == Some(waker)
            },
    {
        match self.queue.pop() {
            Some(sc) => Some(sc),
            None => {
                self.waker = Some(waker);
                None
            },
        }
    }

    pub fn len(&self) -> (r: usize)
        requires
            self.wf(),
        ensures
            r == self.pending().len(),
    {
        self.queue.len()
    }
}

} // verus!
