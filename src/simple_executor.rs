use vstd::prelude::*;

verus! {

/// The executor for early boot, before interrupts are on: every task is
/// polled in turn, and one that is still pending goes to the back of the
/// line. Nothing ever wakes a task; the loop never halts.
pub struct SimpleExecutor {
    task_queue: Vec<u64>,
    next_id: u64,
}

impl SimpleExecutor {
    /// Identifiers in the order they will be polled.
    pub closed spec fn queue(&self) -> Seq<u64> {
        self.task_queue@
    }

    pub closed spec fn next_id(&self) -> nat {
        self.next_id as nat
    }

    pub fn new() -> (r: Self)
        ensures
            r.queue() == Seq::<u64>::empty(),
            r.next_id() == 0,
    {
        SimpleExecutor { task_queue: Vec::new(), next_id: 0 }
    }

    /// Queues a new task under the next identifier; `None` once the
    /// identifiers are used up.
    pub fn spawn(&mut self) -> (r: Option<u64>)
        ensures
            old(self).next_id() < u64::MAX ==> r == Some(old(self).next_id() as u64)
                && final(self).queue() == old(self).queue().push(old(self).next_id() as u64)
                && final(self).next_id() == old(self).next_id() + 1,
            old(self).next_id() == u64::MAX ==> r is None && final(self).queue() == old(
                self,
            ).queue() && final(self).next_id() == old(self).next_id(),
    {
        if self.next_id == u64::MAX {
            return None;
        }
        let id = self.next_id;
        self.task_queue.push(id);
        self.next_id = self.next_id + 1;
        Some(id)
    }

    /// The task to poll next, taken off the front of the line.
    pub fn next_task(&mut self) -> (r: Option<u64>)
        ensures
            final(self).next_id() == old(self).next_id(),
            old(self).queue().len() == 0 ==> r is None && final(self).queue() == old(self).queue(),
            old(self).queue().len() > 0 ==> r == Some(old(self).queue()[0]) && final(self).queue()
                == old(self).queue().drop_first(),
    {
        if self.task_queue.len() == 0 {
            return None;
        }
        let id = self.task_queue.remove(0);
        assert(self.task_queue@ =~= old(self).task_queue@.drop_first());
        Some(id)
    }

    /// Puts a task that is still pending at the back of the line.
    pub fn requeue(&mut self, id: u64)
        ensures
            final(self).next_id() == old(self).next_id(),
            final(self).queue() == old(self).queue().push(id),
    {
        self.task_queue.push(id);
    }

    pub fn len(&self) -> (r: usize)
        ensures
            r == self.queue().len(),
    {
        self.task_queue.len()
    }
}

} // verus!
