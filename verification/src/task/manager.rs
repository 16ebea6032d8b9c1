//!Implementation of [`TaskManager`]
use super::table::{find_task, has_task, index_of, models};
use super::task::{TaskControlBlock, TaskModel};
use std::collections::VecDeque;
use vstd::prelude::*;

verus! {

///The numbers of the processes that are ready to run.
pub struct TaskManager {
    ready_queue: VecDeque<usize>,
}

impl View for TaskManager {
    type V = Seq<usize>;

    closed spec fn view(&self) -> Seq<usize> {
        self.ready_queue@
    }
}

/// How far a process has gone.
pub open spec fn stride_of(ts: Seq<TaskModel>, pid: usize) -> usize {
    ts[index_of(ts, pid)].stride
}

/// The first process of a queue that has gone least far.
pub open spec fn is_next(ts: Seq<TaskModel>, ready: Seq<usize>, k: int) -> bool {
    &&& 0 <= k < ready.len()
    &&& forall|j: int|
        0 <= j < ready.len() ==> stride_of(ts, ready[k]) <= stride_of(ts, #[trigger] ready[j])
    &&& forall|j: int| 0 <= j < k ==> stride_of(ts, ready[k]) < stride_of(ts, #[trigger] ready[j])
}

/// The processes after one of them ran.
pub open spec fn stepped(ts: Seq<TaskModel>, pid: usize) -> Seq<TaskModel> {
    let i = index_of(ts, pid);
    ts.update(i, TaskModel { stride: (ts[i].stride + ts[i].pass) as usize, ..ts[i] })
}

/// A stride scheduler.
impl TaskManager {
    ///Creat an empty TaskManager
    pub fn new() -> (r: Self)
        ensures
            r@ == Seq::<usize>::empty(),
    {
        TaskManager { ready_queue: VecDeque::new() }
    }

    /// Add process back to ready queue
    pub fn add(&mut self, task: usize)
        ensures
            final(self)@ == old(self)@.push(task),
    {
        self.ready_queue.push_back(task);
    }

    /// Take a process out of the ready queue: the first one that has gone least far. It
    /// goes on by its pass.
    pub fn fetch(&mut self, tasks: &mut Vec<TaskControlBlock>) -> (r: Option<usize>)
        requires
            forall|j: int|
                0 <= j < old(self)@.len() ==> has_task(
                    models(old(tasks)@),
                    #[trigger] old(self)@[j],
                ),
            forall|k: int| #[trigger]
                is_next(models(old(tasks)@), old(self)@, k) ==> {
                    let t = models(old(tasks)@)[index_of(models(old(tasks)@), old(self)@[k])];
                    t.stride + t.pass <= usize::MAX
                },
        ensures
            match r {
                Some(pid) => exists|k: int|
                    {
                        &&& #[trigger] is_next(models(old(tasks)@), old(self)@, k)
                        &&& pid == old(self)@[k]
                        &&& final(self)@ == old(self)@.remove(k)
                        &&& models(final(tasks)@) == stepped(models(old(tasks)@), pid)
                    },
                None => {
                    &&& old(self)@.len() == 0
                    &&& final(self)@ == old(self)@
                    &&& models(final(tasks)@) == models(old(tasks)@)
                },
            },
    {
        let ghost ts = models(tasks@);
        let ghost q = self@;
        let mut min_id: usize = 0;
        let mut min_stride: usize = usize::MAX;
        let mut id: usize = 0;
        while id < self.ready_queue.len()
            invariant
                id <= q.len(),
                q == self@,
                q == self.ready_queue@,
                ts == models(tasks@),
                *self == *old(self),
                *tasks == *old(tasks),
                forall|j: int| 0 <= j < q.len() ==> has_task(ts, #[trigger] q[j]),
                id > 0 ==> min_id < id,
                id == 0 ==> min_id == 0,
                id > 0 ==> stride_of(ts, q[min_id as int]) == min_stride,
                id == 0 ==> min_stride == usize::MAX,
                forall|j: int| 0 <= j < id ==> min_stride <= stride_of(ts, #[trigger] q[j]),
                forall|j: int| 0 <= j < min_id ==> min_stride < stride_of(ts, #[trigger] q[j]),
            decreases q.len() - id,
        {
            let pid: usize = self.ready_queue[id];
            assert(has_task(ts, q[id as int]));
            let at: usize = find_task(tasks, pid).unwrap();
            let stride: usize = tasks[at].inner.stride;
            assert(ts[at as int] == tasks@[at as int]@);
            if stride < min_stride {
                min_stride = stride;
                min_id = id;
            }
            id += 1;
        }
        let fetched_task: Option<usize> = self.ready_queue.remove(min_id);
        match fetched_task {
            Some(pid) => {
                assert(is_next(ts, q, min_id as int));
                assert(has_task(ts, q[min_id as int]));
                let at: usize = find_task(tasks, pid).unwrap();
                assert(ts[at as int] == tasks@[at as int]@);
                let stride: usize = tasks[at].inner.stride + tasks[at].inner.pass;
                tasks[at].inner.stride = stride;
                assert(models(tasks@) =~= stepped(ts, pid));
                Some(pid)
            },
            None => None,
        }
    }
}

/// Add process to ready queue
pub fn add_task(task: usize, manager: &mut TaskManager)
    ensures
        final(manager)@ == old(manager)@.push(task),
{
    manager.add(task);
}

/// Take a process out of the ready queue
pub fn fetch_task(manager: &mut TaskManager, tasks: &mut Vec<TaskControlBlock>) -> (r: Option<usize>)
    requires
        forall|j: int|
            0 <= j < old(manager)@.len() ==> has_task(
                models(old(tasks)@),
                #[trigger] old(manager)@[j],
            ),
        forall|k: int| #[trigger]
            is_next(models(old(tasks)@), old(manager)@, k) ==> {
                let t = models(old(tasks)@)[index_of(models(old(tasks)@), old(manager)@[k])];
                t.stride + t.pass <= usize::MAX
            },
    ensures
        match r {
            Some(pid) => exists|k: int|
                {
                    &&& #[trigger] is_next(models(old(tasks)@), old(manager)@, k)
                    &&& pid == old(manager)@[k]
                    &&& final(manager)@ == old(manager)@.remove(k)
                    &&& models(final(tasks)@) == stepped(models(old(tasks)@), pid)
                },
            None => {
                &&& old(manager)@.len() == 0
                &&& final(manager)@ == old(manager)@
                &&& models(final(tasks)@) == models(old(tasks)@)
            },
        },
{
    manager.fetch(tasks)
}

/// The scheduler is fair: the process that is taken out of the queue is one that has gone
/// least far, so one that has gone farther waits.
pub proof fn law_least_stride_runs(ts: Seq<TaskModel>, ready: Seq<usize>, k: int, pid: usize)
    requires
        is_next(ts, ready, k),
        ready.contains(pid),
    ensures
        stride_of(ts, ready[k]) <= stride_of(ts, pid),
{
    let j = choose|j: int| 0 <= j < ready.len() && ready[j] == pid;
    assert(stride_of(ts, ready[k]) <= stride_of(ts, ready[j]));
}

/// Of processes that have gone equally far the one that has waited longest runs.
pub proof fn law_first_of_equals(ts: Seq<TaskModel>, ready: Seq<usize>, k: int, j: int)
    requires
        is_next(ts, ready, k),
        0 <= j < ready.len(),
        stride_of(ts, ready[j]) <= stride_of(ts, ready[k]),
    ensures
        k <= j,
{
    assert(stride_of(ts, ready[k]) <= stride_of(ts, ready[j]));
}

} // verus!
