//! The table of all processes.
use super::task::{TaskControlBlock, TaskModel};
use vstd::prelude::*;

verus! {

/// The values of the processes.
pub open spec fn models(ts: Seq<TaskControlBlock>) -> Seq<TaskModel> {
    Seq::new(ts.len(), |i: int| ts[i]@)
}

/// The index, from `i` on, of the first process with the given number, or the number of
/// processes if there is none.
pub open spec fn index_from(ts: Seq<TaskModel>, pid: usize, i: int) -> int
    decreases ts.len() - i,
{
    if i < 0 || i >= ts.len() || ts[i].pid == pid {
        i
    } else {
        index_from(ts, pid, i + 1)
    }
}

/// The index of the process with the given number.
pub open spec fn index_of(ts: Seq<TaskModel>, pid: usize) -> int {
    index_from(ts, pid, 0)
}

/// There is a process with the given number.
pub open spec fn has_task(ts: Seq<TaskModel>, pid: usize) -> bool {
    index_of(ts, pid) < ts.len()
}

/// No two processes have the same number.
pub open spec fn pids_distinct(ts: Seq<TaskModel>) -> bool {
    forall|i: int, j: int|
        0 <= i < ts.len() && 0 <= j < ts.len() && i != j ==> (#[trigger] ts[i]).pid != (
        #[trigger] ts[j]).pid
}

/// `index_from` stops at the first process with the number.
pub proof fn lemma_index_from(ts: Seq<TaskModel>, pid: usize, i: int)
    requires
        0 <= i <= ts.len(),
    ensures
        i <= index_from(ts, pid, i) <= ts.len(),
        index_from(ts, pid, i) < ts.len() ==> ts[index_from(ts, pid, i)].pid == pid,
        forall|j: int| i <= j < index_from(ts, pid, i) ==> (#[trigger] ts[j]).pid != pid,
    decreases ts.len() - i,
{
    if i < ts.len() && ts[i].pid != pid {
        lemma_index_from(ts, pid, i + 1);
    }
}

/// The index of a process is the one that its number leads to.
pub proof fn lemma_index_of(ts: Seq<TaskModel>, i: int)
    requires
        pids_distinct(ts),
        0 <= i < ts.len(),
    ensures
        index_of(ts, ts[i].pid) == i,
        has_task(ts, ts[i].pid),
{
    lemma_index_from(ts, ts[i].pid, 0);
    let j = index_of(ts, ts[i].pid);
    if j < i {
        assert(ts[j].pid != ts[i].pid);
    }
    if j > i {
        assert(ts[i].pid != ts[i].pid);
    }
}

/// Find the process with the given number.
pub fn find_task(tasks: &Vec<TaskControlBlock>, pid: usize) -> (r: Option<usize>)
    ensures
        match r {
            Some(i) => i == index_of(models(tasks@), pid) && i < tasks@.len() && tasks@[i as int]@.pid
                == pid,
            None => !has_task(models(tasks@), pid),
        },
{
    let ghost ts = models(tasks@);
    let mut i: usize = 0;
    while i < tasks.len()
        invariant
            i <= tasks@.len(),
            ts == models(tasks@),
            index_from(ts, pid, i as int) == index_of(ts, pid),
        decreases tasks@.len() - i,
    {
        assert(ts[i as int] == tasks@[i as int]@);
        if tasks[i].pid.0 == pid {
            return Some(i);
        }
        i += 1;
    }
    None
}

} // verus!
