use vstd::prelude::*;
use crate::cell::{CountCell, CountRef, COMP_BIT, CNT_MASK};
use crate::Executable;

verus! {

/// A dense index into a graph's task array, assigned in declaration order.
#[derive(Clone, Copy, PartialEq, Eq, Structural, Hash, Debug)]
pub struct TaskId(pub usize);

impl TaskId {
    pub(crate) fn new(id: usize) -> (r: Self)
        ensures
            r.0 == id,
    {
        TaskId(id)
    }

    pub fn id(&self) -> (r: usize)
        ensures
            r == self.0,
    {
        self.0
    }
}

/// The plain indices of a sequence of task ids.
pub open spec fn ids(s: Seq<TaskId>) -> Seq<usize> {
    s.map_values(|t: TaskId| t.0)
}

/// How many times `s` holds `x`.
pub open spec fn count_in(s: Seq<usize>, x: usize) -> nat
    decreases s.len(),
{
    if s.len() == 0 {
        0
    } else {
        count_in(s.drop_last(), x) + if s.last() == x {
            1nat
        } else {
            0nat
        }
    }
}

pub proof fn lemma_count_in_concat(a: Seq<usize>, b: Seq<usize>, x: usize)
    ensures
        count_in(a + b, x) == count_in(a, x) + count_in(b, x),
    decreases b.len(),
{
    if b.len() == 0 {
        assert(a + b =~= a);
    } else {
        assert((a + b).drop_last() =~= a + b.drop_last());
        lemma_count_in_concat(a, b.drop_last(), x);
    }
}

pub proof fn lemma_count_in_single(y: usize, x: usize)
    ensures
        count_in(seq![y], x) == if x == y {
            1nat
        } else {
            0nat
        },
{
    assert(seq![y].drop_last() =~= Seq::<usize>::empty());
    assert(count_in(Seq::<usize>::empty(), x) == 0);
}

/// A compiled task: its cell and the precomputed sets that drive it at run time.
pub struct Task<Q> {
    id: TaskId,
    task: CountCell<Q>,
    lock: Vec<TaskId>,
    unlock: Vec<TaskId>,
    initial: usize,
}

/// A task whose cell has been taken: its holder runs the payload exactly once.
pub struct TaskRef {
    task: TaskId,
    borrow: CountRef,
}

impl TaskRef {
    pub closed spec fn task_id(&self) -> usize {
        self.task.0
    }

    /// The task that was taken.
    pub fn task(&self) -> (r: TaskId)
        ensures
            r.0 == self.task_id(),
    {
        self.task
    }
}

impl<Q> Task<Q> {
    pub closed spec fn spec_id(&self) -> usize {
        self.id.0
    }

    pub closed spec fn cell(&self) -> CountCell<Q> {
        self.task
    }

    pub closed spec fn lock_ids(&self) -> Seq<usize> {
        ids(self.lock@)
    }

    pub closed spec fn unlock_ids(&self) -> Seq<usize> {
        ids(self.unlock@)
    }

    pub closed spec fn spec_initial(&self) -> usize {
        self.initial
    }

    /// A compiled task whose cell is Completed and holds `task`.
    pub fn new(id: TaskId, task: Q, lock: Vec<TaskId>, unlock: Vec<TaskId>, initial: usize) -> (r:
        Self)
        ensures
            r.spec_id() == id.0,
            r.cell().is_resettable(),
            r.cell().payload() == task,
            r.lock_ids() == ids(lock@),
            r.unlock_ids() == ids(unlock@),
            r.spec_initial() == initial,
    {
        Task { id, task: CountCell::new(task), lock, unlock, initial }
    }

    pub fn id(&self) -> (r: TaskId)
        ensures
            r.0 == self.spec_id(),
    {
        self.id
    }

    /// Resets the cell to Counting(initial) at the start of a run.
    pub fn init(&mut self)
        requires
            old(self).cell().is_resettable(),
            old(self).spec_initial() < COMP_BIT,
        ensures
            final(self).cell().is_counting(),
            final(self).cell().count() == old(self).spec_initial(),
            final(self).cell().payload() == old(self).cell().payload(),
            final(self).same_plan(*old(self)),
    {
        self.task.reset(self.initial as u64);
    }

    /// The parts of a task that never change.
    pub open spec fn same_plan(&self, other: Self) -> bool {
        &&& self.spec_id() == other.spec_id()
        &&& self.lock_ids() == other.lock_ids()
        &&& self.unlock_ids() == other.unlock_ids()
        &&& self.spec_initial() == other.spec_initial()
    }

    /// Increments the cell's counter.
    pub fn lock(&mut self)
        requires
            old(self).cell().count() < CNT_MASK,
        ensures
            final(self).cell().is_locked() == old(self).cell().is_locked(),
            final(self).cell().is_completed() == old(self).cell().is_completed(),
            final(self).cell().count() == old(self).cell().count() + 1,
            final(self).cell().payload() == old(self).cell().payload(),
            final(self).same_plan(*old(self)),
    {
        self.task.lock()
    }

    /// Decrements the cell's counter; true iff the task just became ready.
    pub fn unlock(&mut self) -> (r: bool)
        requires
            old(self).cell().count() >= 1,
        ensures
            final(self).cell().is_locked() == old(self).cell().is_locked(),
            final(self).cell().is_completed() == old(self).cell().is_completed(),
            final(self).cell().count() == old(self).cell().count() - 1,
            final(self).cell().payload() == old(self).cell().payload(),
            final(self).same_plan(*old(self)),
            r == (old(self).cell().is_counting() && old(self).cell().count() == 1),
    {
        self.task.unlock()
    }

    /// Takes a ready task; any other is left as it is.
    pub fn take(&mut self) -> (r: Option<TaskRef>)
        ensures
            r.is_some() == old(self).cell().is_ready(),
            r.is_some() ==> final(self).cell().is_running() && final(self).cell().count() == 0
                && r.unwrap().task_id() == old(self).spec_id(),
            r.is_none() ==> *final(self) == *old(self),
            final(self).cell().payload() == old(self).cell().payload(),
            final(self).same_plan(*old(self)),
    {
        match self.task.take() {
            Some(borrow) => Some(TaskRef { task: self.id, borrow }),
            None => None,
        }
    }

    /// Runs the payload of a taken task against `data`.
    pub fn execute<T>(&mut self, handle: &TaskRef, data: &T)
        where Q: Executable<T>,
        requires
            old(self).cell().is_running(),
        ensures
            final(self).cell().is_locked() == old(self).cell().is_locked(),
            final(self).cell().is_completed() == old(self).cell().is_completed(),
            final(self).cell().count() == old(self).cell().count(),
            final(self).same_plan(*old(self)),
    {
        let _ = handle.task;
        self.task.run_payload(data)
    }

    /// Releases a taken task: its cell becomes Completed.
    pub fn release(&mut self, handle: TaskRef)
        requires
            old(self).cell().is_running(),
        ensures
            !final(self).cell().is_locked(),
            final(self).cell().is_completed(),
            final(self).cell().count() == old(self).cell().count(),
            final(self).cell().payload() == old(self).cell().payload(),
            final(self).same_plan(*old(self)),
    {
        self.task.release(handle.borrow)
    }

    pub fn initial_count(&self) -> (r: usize)
        ensures
            r == self.spec_initial(),
    {
        self.initial
    }

    /// The tasks this one locks when it starts.
    pub fn lockable_deps(&self) -> (r: &[TaskId])
        ensures
            ids(r@) == self.lock_ids(),
    {
        self.lock.as_slice()
    }

    /// The tasks this one unlocks when it finishes.
    pub fn unlockable_deps(&self) -> (r: &[TaskId])
        ensures
            ids(r@) == self.unlock_ids(),
    {
        self.unlock.as_slice()
    }
}

} // verus!
