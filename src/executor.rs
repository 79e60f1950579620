use vstd::hash_map::HashMapWithView;
use vstd::hash_set::HashSetWithView;
use vstd::prelude::*;

use crate::bounded_queue::BoundedQueue;

verus! {

broadcast use vstd::std_specs::hash::group_hash_axioms;

/// Handle that puts one task back on the ready queue.
#[derive(Clone, Copy, Debug, PartialEq, Eq, Structural)]
pub struct TaskWaker {
    pub task_id: u64,
}

/// What the idle loop does once the ready queue looked empty and interrupts
/// were masked.
#[derive(Clone, Copy, Debug, PartialEq, Eq, Structural)]
pub enum IdleAction {
    /// Unmask interrupts and halt in one step, so that no wake is lost.
    EnableAndHalt,
    /// Work arrived meanwhile: unmask interrupts and go on without halting.
    EnableAndContinue,
}

/// The queue with its leading identifiers of tasks no longer registered
/// taken off.
pub open spec fn skip_stale(q: Seq<u64>, tasks: Set<u64>) -> Seq<u64>
    decreases q.len(),
{
    if q.len() > 0 && !tasks.contains(q[0]) {
        skip_stale(q.drop_first(), tasks)
    } else {
        q
    }
}

/// The scheduling state of the cooperative executor: which tasks are
/// registered, which are due to be polled, and a cached waker per task.
///
/// The futures themselves live with the caller, which polls the task that
/// `next_ready` names and reports back with `complete` or `suspend`.
pub struct Executor {
    tasks: HashSetWithView<u64>,
    waker_cache: HashMapWithView<u64, TaskWaker>,
    ready: BoundedQueue<u64>,
    next_id: u64,
    finished: Ghost<Set<u64>>,
}

impl Executor {
    /// Identifiers of the registered tasks.
    pub closed spec fn tasks(&self) -> Set<u64> {
        self.tasks@
    }

    /// Identifiers that have a cached waker.
    pub closed spec fn cached(&self) -> Set<u64> {
        self.waker_cache@.dom()
    }

    /// Identifiers due to be polled, oldest first.
    pub closed spec fn queue(&self) -> Seq<u64> {
        self.ready@
    }

    pub closed spec fn queue_cap(&self) -> nat {
        self.ready.cap()
    }

    /// Identifiers of the tasks that have reported completion.
    pub closed spec fn completed(&self) -> Set<u64> {
        self.finished@
    }

    /// The identifier the next spawned task gets.
    pub closed spec fn next_id(&self) -> nat {
        self.next_id as nat
    }

    pub closed spec fn wf(&self) -> bool {
        &&& self.ready.wf()
        &&& self.tasks@.disjoint(self.finished@)
        &&& self.waker_cache@.dom().subset_of(self.tasks@)
        &&& forall|id: u64| self.tasks@.contains(id) ==> id < self.next_id
        &&& forall|id: u64| self.finished@.contains(id) ==> id < self.next_id
        &&& forall|id: u64| #[trigger]
            self.waker_cache@.contains_key(id) ==> self.waker_cache@[id].task_id == id
    }

    /// A task that has completed is not registered, and its identifier is
    /// below every identifier still to be handed out, so it is never
    /// registered, and hence never polled, again.
    pub proof fn lemma_completed_stay_gone(&self, id: u64)
        requires
            self.wf(),
            self.completed().contains(id),
        ensures
            !self.tasks().contains(id),
            id < self.next_id(),
    {
    }

    /// An executor with no tasks whose ready queue holds at most
    /// `capacity` identifiers.
    pub fn new(capacity: usize) -> (r: Self)
        ensures
            r.wf(),
            r.tasks() == Set::<u64>::empty(),
            r.cached() == Set::<u64>::empty(),
            r.completed() == Set::<u64>::empty(),
            r.queue() == Seq::<u64>::empty(),
            r.queue_cap() == capacity,
            r.next_id() == 0,
    {
        Executor {
            tasks: HashSetWithView::new(),
            waker_cache: HashMapWithView::new(),
            ready: BoundedQueue::new(capacity),
            next_id: 0,
            finished: Ghost(Set::empty()),
        }
    }

    /// Registers a new task under the next identifier and queues it to be
    /// polled. Returns `None`, changing nothing, when the ready queue is full
    /// or the identifiers are used up.
    pub fn spawn(&mut self) -> (r: Option<u64>)
        requires
            old(self).wf(),
        ensures
            final(self).wf(),
            final(self).queue_cap() == old(self).queue_cap(),
            final(self).completed() == old(self).completed(),
            final(self).cached() == old(self).cached(),
            r is None <==> (old(self).queue().len() >= old(self).queue_cap() || old(self).next_id()
                == u64::MAX),
            r is None ==> final(self).tasks() == old(self).tasks() && final(self).queue() == old(
                self,
            ).queue() && final(self).next_id() == old(self).next_id(),
            r matches Some(id) ==> {
                &&& id == old(self).next_id()
                &&& !old(self).tasks().contains(id)
                &&& !old(self).completed().contains(id)
                &&& final(self).tasks() == old(self).tasks().insert(id)
                &&& final(self).queue() == old(self).queue().push(id)
                &&& final(self).next_id() == old(self).next_id() + 1
            },
    {
        proof {
            self.ready.lemma_len_bounded();
        }
        if self.ready.len() == self.ready.capacity() || self.next_id == u64::MAX {
            return None;
        }
        let id = self.next_id;
        assert(!self.tasks@.contains(id));
        assert(!self.finished@.contains(id));
        self.ready.push(id);
        self.tasks.insert(id);
        self.next_id = self.next_id + 1;
        Some(id)
    }

    /// Takes identifiers off the ready queue until one names a registered
    /// task, and returns it; identifiers of tasks that are gone are dropped
    /// silently. Returns `None` once the queue is drained.
    pub fn next_ready(&mut self) -> (r: Option<u64>)
        requires
            old(self).wf(),
        ensures
            final(self).wf(),
            final(self).queue_cap() == old(self).queue_cap(),
            final(self).tasks() == old(self).tasks(),
            final(self).cached() == old(self).cached(),
            final(self).completed() == old(self).completed(),
            final(self).next_id() == old(self).next_id(),
            ({
                let q = skip_stale(old(self).queue(), old(self).tasks());
                &&& q.len() == 0 ==> r is None && final(self).queue() == q
                &&& q.len() > 0 ==> r == Some(q[0]) && final(self).queue() == q.drop_first()
            }),
            r matches Some(id) ==> old(self).tasks().contains(id) && !old(self).completed().contains(
                id,
            ),
    {
        loop
            invariant
                self.wf(),
                self.ready.cap() == old(self).ready.cap(),
                self.tasks@ == old(self).tasks@,
                self.waker_cache@ == old(self).waker_cache@,
                self.finished@ == old(self).finished@,
                self.next_id == old(self).next_id,
                skip_stale(self.ready@, self.tasks@) == skip_stale(old(self).ready@, old(self).tasks@),
            decreases self.ready@.len(),
        {
            let ghost before = self.ready@;
            match self.ready.pop() {
                None => {
                    return None;
                },
                Some(id) => {
                    if self.tasks.contains(&id) {
                        return Some(id);
                    }
                    assert(skip_stale(before, self.tasks@) == skip_stale(self.ready@, self.tasks@));
                },
            }
        }
    }

    /// Records that task `id` has completed: it leaves the task map and the
    /// waker cache together, and is never polled again.
    pub fn complete(&mut self, id: u64)
        requires
            old(self).wf(),
            old(self).tasks().contains(id),
        ensures
            final(self).wf(),
            final(self).queue_cap() == old(self).queue_cap(),
            final(self).tasks() == old(self).tasks().remove(id),
            final(self).cached() == old(self).cached().remove(id),
            final(self).completed() == old(self).completed().insert(id),
            final(self).queue() == old(self).queue(),
            final(self).next_id() == old(self).next_id(),
    {
        self.tasks.remove(&id);
        self.waker_cache.remove(&id);
        self.finished = Ghost(self.finished@.insert(id));
        assert(self.cached() =~= old(self).cached().remove(id));
    }

    /// Records that task `id` is waiting on an event, and returns the waker
    /// that the event source must call; the waker is cached, so one made
    /// for an earlier suspension is handed out again.
    pub fn suspend(&mut self, id: u64) -> (w: TaskWaker)
        requires
            old(self).wf(),
            old(self).tasks().contains(id),
        ensures
            final(self).wf(),
            final(self).queue_cap() == old(self).queue_cap(),
            w.task_id == id,
            final(self).tasks() == old(self).tasks(),
            final(self).cached() == old(self).cached().insert(id),
            final(self).completed() == old(self).completed(),
            final(self).queue() == old(self).queue(),
            final(self).next_id() == old(self).next_id(),
    {
        match self.waker_cache.get(&id) {
            Some(w) => {
                let w = *w;
                assert(self.cached() =~= old(self).cached().insert(id));
                w
            },
            None => {
                let w = TaskWaker { task_id: id };
                self.waker_cache.insert(id, w);
                assert(self.cached() =~= old(self).cached().insert(id));
                w
            },
        }
    }

    /// Puts the task that `waker` names back on the ready queue. A wake for
    /// a task that is not registered changes nothing; a wake that finds the
    /// queue full is dropped.
    pub fn wake(&mut self, waker: TaskWaker)
        requires
            old(self).wf(),
        ensures
            final(self).wf(),
            final(self).queue_cap() == old(self).queue_cap(),
            final(self).tasks() == old(self).tasks(),
            final(self).cached() == old(self).cached(),
            final(self).completed() == old(self).completed(),
            final(self).next_id() == old(self).next_id(),
            !old(self).tasks().contains(waker.task_id) ==> final(self).queue() == old(self).queue(),
            old(self).tasks().contains(waker.task_id) && old(self).queue().len() < old(self).queue_cap()
                ==> final(self).queue() == old(self).queue().push(waker.task_id),
            old(self).queue().len() >= old(self).queue_cap() ==> final(self).queue() == old(
                self,
            ).queue(),
    {
        if self.tasks.contains(&waker.task_id) {
            self.ready.push(waker.task_id);
        }
    }

    /// The decision the idle loop takes with interrupts masked: halt only
    /// when no identifier is waiting on the ready queue.
    pub fn idle_action(&self) -> (r: IdleAction)
        requires
            self.wf(),
        ensures
            r == IdleAction::EnableAndHalt <==> self.queue().len() == 0,
    {
        if self.ready.is_empty() {
            IdleAction::EnableAndHalt
        } else {
            IdleAction::EnableAndContinue
        }
    }

    pub fn is_registered(&self, id: u64) -> (r: bool)
        ensures
            r == self.tasks().contains(id),
    {
        self.tasks.contains(&id)
    }

    pub fn task_count(&self) -> (r: usize)
        ensures
            r == self.tasks().len(),
    {
        self.tasks.len()
    }

    pub fn ready_len(&self) -> (r: usize)
        requires
            self.wf(),
        ensures
            r == self.queue().len(),
    {
        self.ready.len()
    }
}

} // verus!
