//! Which process runs.
use super::kernel::{
    child_ok, family_ok, files_ok, ids_ok, lemma_current, lemma_same_index, lemma_task, mem_ok,
    same_pids, sched_ok, Kernel, KernelModel,
};
use super::machine::Machine;
use super::manager::{add_task, fetch_task, is_next, stepped, TaskManager};
use super::processor::{take_current_task, Processor};
use super::table::{find_task, has_task, index_of, lemma_index_from, models, pids_distinct};
use super::task::{TaskModel, TaskStatus};
use crate::mm::owner::apart;
use crate::mm::page_table::token_of;
use vstd::prelude::*;

verus! {

/// The processes after one of them got another status.
pub open spec fn with_status(ts: Seq<TaskModel>, i: int, status: TaskStatus) -> Seq<TaskModel> {
    ts.update(i, TaskModel { status, ..ts[i] })
}

/// The process that is next can go on: its stride does not overflow.
pub open spec fn next_can_go(k: KernelModel) -> bool {
    forall|j: int| #[trigger]
        is_next(k.tasks, k.ready, j) ==> {
            let t = k.tasks[index_of(k.tasks, k.ready[j])];
            t.stride + t.pass <= usize::MAX
        }
}

/// The process at an index of the queue was taken out of it, and runs.
pub open spec fn running(k: KernelModel, j: int) -> KernelModel {
    let pid = k.ready[j];
    let ts = stepped(k.tasks, pid);
    KernelModel {
        tasks: with_status(ts, index_of(k.tasks, pid), TaskStatus::Running),
        ready: k.ready.remove(j),
        current: Some(pid),
        ..k
    }
}

/// The current process was put at the end of the queue.
pub open spec fn suspended(k: KernelModel) -> KernelModel {
    KernelModel {
        tasks: with_status(k.tasks, k.at(), TaskStatus::Ready),
        ready: k.ready.push(k.current->0),
        current: None,
        ..k
    }
}

/// A change of a process that is no zombie to another one that is none and differs in
/// nothing but its status and stride keeps all but the schedule.
proof fn lemma_restated(k: KernelModel, k2: KernelModel, i: int)
    requires
        k.wf(),
        0 <= i < k.tasks.len(),
        k2.machine == k.machine,
        k2.inodes == k.inodes,
        k2.pipes == k.pipes,
        k2.tasks == k.tasks.update(i, k2.tasks[i]),
        k2.tasks[i] == (TaskModel {
            status: k2.tasks[i].status,
            stride: k2.tasks[i].stride,
            ..k.tasks[i]
        }),
        k.tasks[i].status != TaskStatus::Zombie,
        k2.tasks[i].status != TaskStatus::Zombie,
    ensures
        mem_ok(k2),
        ids_ok(k2.machine, k2.tasks),
        family_ok(k2.tasks),
        files_ok(k2),
        same_pids(k.tasks, k2.tasks),
        pids_distinct(k2.tasks),
{
    reveal(mem_ok);
    reveal(ids_ok);
    reveal(family_ok);
    reveal(files_ok);
    let ts = k.tasks;
    let ts2 = k2.tasks;
    assert forall|j: int| 0 <= j < ts.len() implies (#[trigger] ts2[j]).pid == ts[j].pid
        && ts2[j].kernel_stack == ts[j].kernel_stack && ts2[j].space == ts[j].space && ts2[j].fds
        == ts[j].fds && ts2[j].children == ts[j].children && ts2[j].parent == ts[j].parent
        && ts2[j].wf(k.machine.mem) by {
        assert(ts[j].wf(k.machine.mem));
    }
    assert forall|a: int, b: int| 0 <= a < ts2.len() && 0 <= b < ts2.len() && a != b implies apart(
        (#[trigger] ts2[a]).space,
        (#[trigger] ts2[b]).space,
    ) && ts2[a].pid != ts2[b].pid && ts2[a].kernel_stack != ts2[b].kernel_stack by {
        assert(apart(ts[a].space, ts[b].space));
        assert(ts[a].pid != ts[b].pid);
        assert(ts[a].kernel_stack != ts[b].kernel_stack);
    }
    assert forall|a: int, c: int|
        0 <= a < ts2.len() && 0 <= c < ts2[a].children.len() implies #[trigger] child_ok(
        ts2,
        a,
        c,
    ) by {
        assert(child_ok(ts, a, c));
        lemma_same_index(ts, ts2, ts[a].children[c], 0);
        lemma_index_from(ts, ts[a].children[c], 0);
    }
    assert forall|j: int| 0 <= j < k2.tasks.len() implies super::kernel::fds_ok(
        (#[trigger] k2.tasks[j]).fds,
        k2.inodes.len() as int,
        k2.pipes.len() as int,
    ) by {
        assert(k.tasks[j].fds == k2.tasks[j].fds);
    }
}

/// Taking the next process out of the queue keeps the kernel consistent.
pub proof fn lemma_running(k: KernelModel, j: int)
    requires
        k.wf(),
        k.current is None,
        0 <= j < k.ready.len(),
    ensures
        running(k, j).wf(),
        0 <= index_of(k.tasks, k.ready[j]) < k.tasks.len(),
{
    let k2 = running(k, j);
    let pid = k.ready[j];
    let i = index_of(k.tasks, pid);
    lemma_index_from(k.tasks, pid, 0);
    assert(has_task(k.tasks, pid) && k.tasks[i].status == TaskStatus::Ready) by {
        reveal(sched_ok);
    }
    assert(k2.tasks =~= k.tasks.update(i, k2.tasks[i]));
    lemma_restated(k, k2, i);
    reveal(sched_ok);
    let r2 = k2.ready;
    assert forall|a: int, b: int| 0 <= a < r2.len() && 0 <= b < r2.len() && a != b implies r2[a]
        != r2[b] by {
        let a0 = if a < j {
            a
        } else {
            a + 1
        };
        let b0 = if b < j {
            b
        } else {
            b + 1
        };
        assert(k.ready[a0] != k.ready[b0]);
    }
    assert forall|a: int| 0 <= a < r2.len() implies has_task(k2.tasks, #[trigger] r2[a])
        && k2.tasks[index_of(k2.tasks, r2[a])].status == TaskStatus::Ready by {
        let a0 = if a < j {
            a
        } else {
            a + 1
        };
        assert(r2[a] == k.ready[a0]);
        assert(k.ready[a0] != k.ready[j]);
        lemma_same_index(k.tasks, k2.tasks, r2[a], 0);
        lemma_index_from(k.tasks, r2[a], 0);
    }
    lemma_same_index(k.tasks, k2.tasks, pid, 0);
    assert forall|a: int| 0 <= a < k2.tasks.len() implies match (#[trigger] k2.tasks[a]).status {
        TaskStatus::UnInit => false,
        TaskStatus::Ready => r2.contains(k2.tasks[a].pid),
        TaskStatus::Running => k2.current == Some(k2.tasks[a].pid),
        TaskStatus::Zombie => true,
    } by {
        if a != i {
            assert(k2.tasks[a] == k.tasks[a]);
            if k.tasks[a].status == TaskStatus::Ready {
                let x = choose|x: int| 0 <= x < k.ready.len() && k.ready[x] == k.tasks[a].pid;
                assert(k.tasks[a].pid != k.tasks[i].pid) by {
                    assert(k2.tasks[a].pid != k2.tasks[i].pid);
                }
                assert(x != j);
                let y = if x < j {
                    x
                } else {
                    x - 1
                };
                assert(r2[y] == k.tasks[a].pid);
            }
        }
    }
}

/// Putting the current process back into the queue keeps the kernel consistent.
pub proof fn lemma_suspended(k: KernelModel)
    requires
        k.wf(),
        k.runs(),
    ensures
        suspended(k).wf(),
{
    let k2 = suspended(k);
    lemma_current(k);
    let pid = k.current->0;
    let i = k.at();
    lemma_restated(k, k2, i);
    reveal(sched_ok);
    let r2 = k2.ready;
    let n = k.ready.len() as int;
    assert forall|a: int| 0 <= a < n implies k.ready[a] != pid by {
        if k.ready[a] == pid {
            assert(k.tasks[index_of(k.tasks, k.ready[a])].status == TaskStatus::Ready);
        }
    }
    assert forall|a: int, b: int| 0 <= a < r2.len() && 0 <= b < r2.len() && a != b implies r2[a]
        != r2[b] by {
        if a < n && b < n {
            assert(k.ready[a] != k.ready[b]);
        }
    }
    assert forall|a: int| 0 <= a < r2.len() implies has_task(k2.tasks, #[trigger] r2[a])
        && k2.tasks[index_of(k2.tasks, r2[a])].status == TaskStatus::Ready by {
        lemma_same_index(k.tasks, k2.tasks, r2[a], 0);
        lemma_index_from(k.tasks, r2[a], 0);
        if a < n {
            assert(r2[a] == k.ready[a]);
        }
    }
    assert forall|a: int| 0 <= a < k2.tasks.len() implies match (#[trigger] k2.tasks[a]).status {
        TaskStatus::UnInit => false,
        TaskStatus::Ready => r2.contains(k2.tasks[a].pid),
        TaskStatus::Running => k2.current == Some(k2.tasks[a].pid),
        TaskStatus::Zombie => true,
    } by {
        if a != i {
            assert(k2.tasks[a] == k.tasks[a]);
            assert(k.tasks[a].pid != k.tasks[i].pid) by {
                assert(k2.tasks[a].pid != k2.tasks[i].pid);
            }
            if k.tasks[a].status == TaskStatus::Ready {
                let x = choose|x: int| 0 <= x < n && k.ready[x] == k.tasks[a].pid;
                assert(r2[x] == k.tasks[a].pid);
            }
        } else {
            assert(r2[n] == pid);
        }
    }
}

impl Kernel {
    /// A kernel without processes.
    pub fn new(machine: Machine) -> (r: Self)
        requires
            machine@.wf(),
        ensures
            r@ == (KernelModel {
                machine: machine@,
                tasks: Seq::empty(),
                ready: Seq::empty(),
                current: None,
                inodes: Seq::empty(),
                pipes: Seq::empty(),
            }),
            r@.wf(),
    {
        let r: Kernel = Kernel {
            machine,
            tasks: Vec::new(),
            manager: TaskManager::new(),
            processor: Processor::new(),
            inodes: Vec::new(),
            pipes: Vec::new(),
        };
        proof {
            assert(r@.tasks =~= Seq::<TaskModel>::empty());
            reveal(mem_ok);
            reveal(ids_ok);
            reveal(family_ok);
            reveal(sched_ok);
            reveal(files_ok);
        }
        r
    }

    /// The index of the current process.
    pub(crate) fn current_index(&self) -> (r: usize)
        requires
            self@.wf(),
            self@.runs(),
        ensures
            r == self@.at(),
            r < self.tasks@.len(),
            self.tasks@[r as int]@ == self@.task(),
    {
        proof {
            lemma_current(self@);
        }
        let pid: usize = self.processor.current().unwrap();
        find_task(&self.tasks, pid).unwrap()
    }
}

/// Get the number of the current task
pub fn current_task(k: &Kernel) -> (r: Option<usize>)
    ensures
        r == k@.current,
{
    k.processor.current()
}

/// Get the current user token(addr of page table)
pub fn current_user_token(k: &Kernel) -> (r: usize)
    requires
        k@.wf(),
        k@.runs(),
    ensures
        r == token_of(k@.task().space.root),
{
    let i: usize = k.current_index();
    k.tasks[i].get_user_token()
}

/// One round of process execution and scheduling: take the next process out of the queue
/// and mark it as running. The caller switches to it.
pub fn run_tasks(k: &mut Kernel) -> (r: Option<usize>)
    requires
        old(k)@.wf(),
        old(k)@.current is None,
        next_can_go(old(k)@),
    ensures
        final(k)@.wf(),
        match r {
            Some(pid) => exists|j: int|
                #[trigger] is_next(old(k)@.tasks, old(k)@.ready, j) && pid == old(k)@.ready[j]
                    && final(k)@ == running(old(k)@, j),
            None => old(k)@.ready.len() == 0 && final(k)@ == old(k)@,
        },
{
    let ghost o = k@;
    proof {
        reveal(sched_ok);
        assert forall|j: int| 0 <= j < o.ready.len() implies has_task(o.tasks, #[trigger] o.ready[j]) by {}
    }
    match fetch_task(&mut k.manager, &mut k.tasks) {
        Some(pid) => {
            let ghost j = choose|j: int|
                {
                    &&& #[trigger] is_next(o.tasks, o.ready, j)
                    &&& pid == o.ready[j]
                    &&& k.manager@ == o.ready.remove(j)
                    &&& models(k.tasks@) == stepped(o.tasks, pid)
                };
            proof {
                lemma_running(o, j);
                lemma_same_index(o.tasks, models(k.tasks@), pid, 0);
            }
            let at: usize = find_task(&k.tasks, pid).unwrap();
            k.tasks[at].inner.task_status = TaskStatus::Running;
            k.processor.current = Some(pid);
            proof {
                assert(k@.tasks =~= running(o, j).tasks);
            }
            Some(pid)
        },
        None => None,
    }
}

/// Make current task suspended and switch to the next task. Return the number of the
/// process that is suspended; the caller goes on with scheduling.
pub fn suspend_current_and_run_next(k: &mut Kernel) -> (r: usize)
    requires
        old(k)@.wf(),
        old(k)@.runs(),
    ensures
        final(k)@.wf(),
        Some(r) == old(k)@.current,
        final(k)@ == suspended(old(k)@),
{
    let ghost o = k@;
    proof {
        lemma_suspended(o);
    }
    let at: usize = k.current_index();
    // There must be an application running.
    let task: usize = take_current_task(&mut k.processor).unwrap();
    // Change status to Ready
    k.tasks[at].inner.task_status = TaskStatus::Ready;
    // push back to ready queue.
    add_task(task, &mut k.manager);
    proof {
        assert(k@.tasks =~= suspended(o).tasks);
    }
    task
}

/// No process is lost or made up by scheduling: whether it waits or runs, there are the
/// same ones as before, and one that waits is in the queue.
pub proof fn law_no_task_is_lost(k: KernelModel, i: int)
    requires
        k.wf(),
        0 <= i < k.tasks.len(),
    ensures
        k.tasks[i].status == TaskStatus::Ready <==> k.ready.contains(k.tasks[i].pid),
        k.tasks[i].status == TaskStatus::Running <==> k.current == Some(k.tasks[i].pid),
{
    lemma_task(k, i);
    reveal(sched_ok);
    if k.ready.contains(k.tasks[i].pid) {
        let j = choose|j: int| 0 <= j < k.ready.len() && k.ready[j] == k.tasks[i].pid;
        assert(k.tasks[index_of(k.tasks, k.ready[j])].status == TaskStatus::Ready);
    }
}

} // verus!
