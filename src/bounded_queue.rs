use vstd::prelude::*;

verus! {

/// A first-in first-out queue whose capacity is fixed when it is made.
///
/// Its storage is reserved up front, so `push` never allocates; a push onto
/// a full queue is dropped.
pub struct BoundedQueue<T> {
    buf: Vec<T>,
    head: usize,
    len: usize,
    capacity: usize,
}

impl<T: Copy> View for BoundedQueue<T> {
    type V = Seq<T>;

    /// The items in the order in which they will be popped.
    closed spec fn view(&self) -> Seq<T> {
        Seq::new(self.len as nat, |i: int| self.buf@[self.slot(i)])
    }
}

impl<T: Copy> BoundedQueue<T> {
    /// Position in `buf` of the item `i` places behind the head.
    closed spec fn slot(&self, i: int) -> int {
        if self.head + i < self.buf@.len() {
            self.head + i
        } else {
            self.head + i - self.buf@.len()
        }
    }

    /// The number of items the queue can hold.
    pub closed spec fn cap(&self) -> nat {
        self.capacity as nat
    }

    /// While the storage is still filling up the items lie unbroken at its
    /// end; once it is full they run round it as a ring.
    pub closed spec fn wf(&self) -> bool {
        &&& self.buf@.len() <= self.capacity
        &&& self.len <= self.buf@.len()
        &&& self.buf@.len() < self.capacity ==> self.head + self.len == self.buf@.len()
        &&& self.buf@.len() == self.capacity ==> (self.head < self.buf@.len() || self.buf@.len()
            == 0)
    }

    /// A well-formed queue never holds more than its capacity.
    pub proof fn lemma_len_bounded(&self)
        requires
            self.wf(),
        ensures
            self@.len() <= self.cap(),
    {
    }

    /// An empty queue that holds at most `capacity` items.
    pub fn new(capacity: usize) -> (r: Self)
        ensures
            r.wf(),
            r@ == Seq::<T>::empty(),
            r.cap() == capacity,
    {
        BoundedQueue { buf: Vec::with_capacity(capacity), head: 0, len: 0, capacity }
    }

    pub fn capacity(&self) -> (r: usize)
        ensures
            r == self.cap(),
    {
        self.capacity
    }

    pub fn len(&self) -> (r: usize)
        requires
            self.wf(),
        ensures
            r == self@.len(),
    {
        self.len
    }

    pub fn is_empty(&self) -> (r: bool)
        requires
            self.wf(),
        ensures
            r == (self@.len() == 0),
    {
        self.len == 0
    }

    /// Appends `x` unless the queue is full; a push onto a full queue is
    /// dropped and the queue stays as it was. Returns whether `x` was kept.
    pub fn push(&mut self, x: T) -> (kept: bool)
        requires
            old(self).wf(),
        ensures
            final(self).wf(),
            final(self).cap() == old(self).cap(),
            kept == (old(self)@.len() < old(self).cap()),
            kept ==> final(self)@ == old(self)@.push(x),
            !kept ==> final(self)@ == old(self)@,
    {
        if self.len == self.capacity {
            return false;
        }
        let n = self.buf.len();
        if n < self.capacity {
            self.buf.push(x);
            self.len = self.len + 1;
            assert(self@ =~= old(self)@.push(x));
        } else {
            let idx = if self.head < n - self.len {
                self.head + self.len
            } else {
                self.head - (n - self.len)
            };
            self.buf.set(idx, x);
            self.len = self.len + 1;
            assert(self@ =~= old(self)@.push(x));
        }
        true
    }

    /// Removes and returns the oldest item, or `None` when the queue is empty.
    pub fn pop(&mut self) -> (r: Option<T>)
        requires
            old(self).wf(),
        ensures
            final(self).wf(),
            final(self).cap() == old(self).cap(),
            old(self)@.len() == 0 ==> r is None && final(self)@ == old(self)@,
            old(self)@.len() > 0 ==> r == Some(old(self)@[0]) && final(self)@ == old(
                self,
            )@.drop_first(),
    {
        if self.len == 0 {
            return None;
        }
        let x = self.buf[self.head];
        let n = self.buf.len();
        if n < self.capacity || self.head + 1 < n {
            self.head = self.head + 1;
        } else {
            self.head = 0;
        }
        self.len = self.len - 1;
        assert(self@ =~= old(self)@.drop_first());
        Some(x)
    }
}

} // verus!
