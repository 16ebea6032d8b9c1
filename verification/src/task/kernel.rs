//! All processes together, and what keeps them consistent.
use super::machine::{Machine, MachineModel};
use super::manager::TaskManager;
use super::processor::Processor;
use super::table::{
    has_task, index_from, index_of, lemma_index_from, lemma_index_of, models, pids_distinct,
};
use super::task::{
    lemma_task_holds, lemma_task_still_wf, FileHandle, TaskControlBlock, TaskModel, TaskStatus,
};
use crate::fs::inode::OSInode;
use crate::fs::pipe::PipeRingBuffer;
use crate::mm::frame_allocator::MemoryModel;
use crate::mm::owner::{
    apart, changed_only, holds, law_isolation, lemma_holds, lemma_still_wf, owns,
};
use crate::mm::space::SpaceModel;
use vstd::prelude::*;

verus! {

/// The processes, with what they share.
pub struct Kernel {
    pub machine: Machine,
    pub tasks: Vec<TaskControlBlock>,
    pub manager: TaskManager,
    pub processor: Processor,
    /// The open files, by number.
    pub inodes: Vec<OSInode>,
    /// The buffers of the pipes, by number.
    pub pipes: Vec<PipeRingBuffer>,
}

/// The values of a [`Kernel`].
#[verifier::ext_equal]
pub struct KernelModel {
    pub machine: MachineModel,
    pub tasks: Seq<TaskModel>,
    pub ready: Seq<usize>,
    pub current: Option<usize>,
    pub inodes: Seq<OSInode>,
    pub pipes: Seq<PipeRingBuffer>,
}

impl View for Kernel {
    type V = KernelModel;

    open spec fn view(&self) -> KernelModel {
        KernelModel {
            machine: self.machine@,
            tasks: models(self.tasks@),
            ready: self.manager@,
            current: self.processor.current,
            inodes: self.inodes@,
            pipes: self.pipes@,
        }
    }
}

/// Every process has memory of its own: no frame belongs to two of them, or to one of them
/// and to the kernel.
#[verifier::opaque]
pub open spec fn mem_ok(k: KernelModel) -> bool {
    &&& k.machine.wf()
    &&& forall|i: int| 0 <= i < k.tasks.len() ==> (#[trigger] k.tasks[i]).wf(k.machine.mem)
    &&& forall|i: int|
        0 <= i < k.tasks.len() ==> apart((#[trigger] k.tasks[i]).space, k.machine.kspace)
    &&& forall|i: int, j: int|
        0 <= i < k.tasks.len() && 0 <= j < k.tasks.len() && i != j ==> apart(
            (#[trigger] k.tasks[i]).space,
            (#[trigger] k.tasks[j]).space,
        )
}

/// Every process has a number and a kernel stack of its own, and they are in use.
#[verifier::opaque]
pub open spec fn ids_ok(m: MachineModel, ts: Seq<TaskModel>) -> bool {
    &&& pids_distinct(ts)
    &&& forall|i: int, j: int|
        0 <= i < ts.len() && 0 <= j < ts.len() && i != j ==> (#[trigger] ts[i]).kernel_stack != (
        #[trigger] ts[j]).kernel_stack
    &&& forall|i: int|
        0 <= i < ts.len() ==> m.pids.in_use((#[trigger] ts[i]).pid) && m.kstacks.in_use(
            ts[i].kernel_stack,
        )
}

/// The process is a child of the one that lists it.
pub open spec fn child_ok(ts: Seq<TaskModel>, i: int, c: int) -> bool {
    let p = ts[i].children[c];
    &&& has_task(ts, p)
    &&& ts[index_of(ts, p)].parent == Some(ts[i].pid)
}

/// Every process is listed once, by its parent, and the first process has none.
#[verifier::opaque]
pub open spec fn family_ok(ts: Seq<TaskModel>) -> bool {
    &&& ts.len() > 0 ==> ts[0].pid == 0 && ts[0].parent is None && ts[0].status
        != TaskStatus::Zombie
    &&& forall|i: int, c: int|
        0 <= i < ts.len() && 0 <= c < ts[i].children.len() ==> #[trigger] child_ok(ts, i, c)
    &&& forall|i: int|
        0 <= i < ts.len() ==> (#[trigger] ts[i]).children.no_duplicates() && ts[i].parent != Some(
            ts[i].pid,
        )
}

/// The queue holds exactly the processes that are ready, and the current process is the
/// only one that runs.
#[verifier::opaque]
pub open spec fn sched_ok(ts: Seq<TaskModel>, ready: Seq<usize>, current: Option<usize>) -> bool {
    &&& ready.no_duplicates()
    &&& forall|j: int|
        0 <= j < ready.len() ==> has_task(ts, #[trigger] ready[j]) && ts[index_of(
            ts,
            ready[j],
        )].status == TaskStatus::Ready
    &&& forall|i: int|
        0 <= i < ts.len() ==> match (#[trigger] ts[i]).status {
            TaskStatus::UnInit => false,
            TaskStatus::Ready => ready.contains(ts[i].pid),
            TaskStatus::Running => current == Some(ts[i].pid),
            TaskStatus::Zombie => true,
        }
    &&& current matches Some(p) ==> has_task(ts, p) && ts[index_of(ts, p)].status
        == TaskStatus::Running
}

/// A descriptor leads to a file or a pipe that there is.
pub open spec fn handle_ok(h: Option<FileHandle>, inodes: int, pipes: int) -> bool {
    match h {
        Some(FileHandle::Inode(n)) => n < inodes,
        Some(FileHandle::Pipe(p)) => p.buffer < pipes,
        _ => true,
    }
}

/// All descriptors of a process lead to something.
pub open spec fn fds_ok(fds: Seq<Option<FileHandle>>, inodes: int, pipes: int) -> bool {
    forall|fd: int| 0 <= fd < fds.len() ==> handle_ok(#[trigger] fds[fd], inodes, pipes)
}

/// All descriptors lead to something, and the pipes are well formed.
#[verifier::opaque]
pub open spec fn files_ok(k: KernelModel) -> bool {
    &&& forall|i: int|
        0 <= i < k.tasks.len() ==> fds_ok(
            (#[trigger] k.tasks[i]).fds,
            k.inodes.len() as int,
            k.pipes.len() as int,
        )
    &&& forall|b: int|
        0 <= b < k.pipes.len() ==> (#[trigger] k.pipes[b]).wf() && k.pipes[b].has_write_end()
}

impl KernelModel {
    /// The processes are consistent.
    pub open spec fn wf(self) -> bool {
        &&& mem_ok(self)
        &&& ids_ok(self.machine, self.tasks)
        &&& family_ok(self.tasks)
        &&& sched_ok(self.tasks, self.ready, self.current)
        &&& files_ok(self)
    }

    /// There is a current process.
    pub open spec fn runs(self) -> bool {
        self.current is Some
    }

    /// The index of the current process.
    pub open spec fn at(self) -> int {
        index_of(self.tasks, self.current->0)
    }

    /// The current process.
    pub open spec fn task(self) -> TaskModel {
        self.tasks[self.at()]
    }

    /// The kernel after the current process became `t`.
    pub open spec fn with_task(self, t: TaskModel) -> KernelModel {
        KernelModel { tasks: self.tasks.update(self.at(), t), ..self }
    }

    /// The kernel after the memory changed.
    pub open spec fn with_mem(self, m: MemoryModel) -> KernelModel {
        KernelModel { machine: MachineModel { mem: m, ..self.machine }, ..self }
    }
}

/// Two lists of processes have the same numbers.
pub open spec fn same_pids(ts: Seq<TaskModel>, ts2: Seq<TaskModel>) -> bool {
    &&& ts2.len() == ts.len()
    &&& forall|i: int| 0 <= i < ts.len() ==> (#[trigger] ts2[i]).pid == ts[i].pid
}

/// Processes are found at the same places in lists with the same numbers.
pub proof fn lemma_same_index(ts: Seq<TaskModel>, ts2: Seq<TaskModel>, pid: usize, i: int)
    requires
        same_pids(ts, ts2),
        0 <= i <= ts.len(),
    ensures
        index_from(ts2, pid, i) == index_from(ts, pid, i),
    decreases ts.len() - i,
{
    if i < ts.len() {
        assert(ts2[i].pid == ts[i].pid);
        if ts[i].pid != pid {
            lemma_same_index(ts, ts2, pid, i + 1);
        }
    }
}

/// Two lists of processes agree on what the processes have to do with each other.
pub open spec fn same_shape(ts: Seq<TaskModel>, ts2: Seq<TaskModel>) -> bool {
    &&& ts2.len() == ts.len()
    &&& forall|i: int|
        0 <= i < ts.len() ==> {
            let a = ts[i];
            let b = #[trigger] ts2[i];
            &&& b.pid == a.pid
            &&& b.kernel_stack == a.kernel_stack
            &&& b.status == a.status
            &&& b.parent == a.parent
            &&& b.children == a.children
        }
}

/// What the processes have to do with each other stays consistent if nothing of it changes.
pub proof fn lemma_same_shape(
    m: MachineModel,
    m2: MachineModel,
    ts: Seq<TaskModel>,
    ts2: Seq<TaskModel>,
    ready: Seq<usize>,
    current: Option<usize>,
)
    requires
        same_shape(ts, ts2),
        m2.pids == m.pids,
        m2.kstacks == m.kstacks,
        ids_ok(m, ts),
        family_ok(ts),
        sched_ok(ts, ready, current),
    ensures
        ids_ok(m2, ts2),
        family_ok(ts2),
        sched_ok(ts2, ready, current),
{
    reveal(ids_ok);
    reveal(family_ok);
    reveal(sched_ok);
    assert(same_pids(ts, ts2));
    assert forall|i: int, j: int|
        0 <= i < ts2.len() && 0 <= j < ts2.len() && i != j implies (#[trigger] ts2[i]).pid != (
    #[trigger] ts2[j]).pid && ts2[i].kernel_stack != ts2[j].kernel_stack by {
        assert(ts[i].pid != ts[j].pid);
        assert(ts[i].kernel_stack != ts[j].kernel_stack);
    }
    assert forall|i: int, c: int|
        0 <= i < ts2.len() && 0 <= c < ts2[i].children.len() implies #[trigger] child_ok(
        ts2,
        i,
        c,
    ) by {
        assert(child_ok(ts, i, c));
        lemma_same_index(ts, ts2, ts[i].children[c], 0);
        lemma_index_from(ts, ts[i].children[c], 0);
    }
    assert forall|j: int| 0 <= j < ready.len() implies has_task(ts2, #[trigger] ready[j])
        && ts2[index_of(ts2, ready[j])].status == TaskStatus::Ready by {
        lemma_same_index(ts, ts2, ready[j], 0);
        lemma_index_from(ts, ready[j], 0);
    }
    if let Some(p) = current {
        lemma_same_index(ts, ts2, p, 0);
        lemma_index_from(ts, p, 0);
    }
    assert forall|i: int| 0 <= i < ts2.len() implies match (#[trigger] ts2[i]).status {
        TaskStatus::UnInit => false,
        TaskStatus::Ready => ready.contains(ts2[i].pid),
        TaskStatus::Running => current == Some(ts2[i].pid),
        TaskStatus::Zombie => true,
    } by {
        assert(ts[i].status == ts2[i].status);
    }
}

/// The memory stays divided up if one process changes only its own address space.
pub proof fn lemma_mem_update(k: KernelModel, k2: KernelModel, i: int)
    requires
        mem_ok(k),
        0 <= i < k.tasks.len(),
        k2.tasks == k.tasks.update(i, k2.tasks[i]),
        k2.machine == (MachineModel { mem: k2.machine.mem, ..k.machine }),
        k2.machine.mem.wf(),
        k2.tasks[i].wf(k2.machine.mem),
        changed_only(k.tasks[i].space, k2.tasks[i].space, k.machine.mem, k2.machine.mem),
    ensures
        mem_ok(k2),
        k2.machine.wf(),
        forall|j: int, p: int|
            0 <= j < k.tasks.len() && j != i && #[trigger] owns(k.tasks[j].space, p)
                ==> k2.machine.mem.page(p) == k.machine.mem.page(p),
{
    reveal(mem_ok);
    let m = k.machine.mem;
    let m2 = k2.machine.mem;
    let s = k.tasks[i].space;
    let s2 = k2.tasks[i].space;
    let ks = k.machine.kspace;
    lemma_holds(ks, m);
    lemma_apart_sym(s, ks);
    law_isolation(ks, s, s2, m, m2);
    lemma_apart_sym(ks, s2);
    lemma_still_wf(ks, m, m2);
    assert forall|j: int| 0 <= j < k2.tasks.len() implies (#[trigger] k2.tasks[j]).wf(m2) && apart(
        k2.tasks[j].space,
        ks,
    ) && (j != i ==> apart(k2.tasks[j].space, s2) && apart(s2, k2.tasks[j].space)) by {
        if j != i {
            let o = k.tasks[j];
            assert(k2.tasks[j] == o);
            lemma_task_holds(o, m);
            assert(apart(k.tasks[j].space, k.tasks[i].space));
            law_isolation(o.space, s, s2, m, m2);
            lemma_apart_sym(o.space, s2);
            lemma_task_still_wf(o, m, m2);
        }
    }
    assert forall|a: int, b: int|
        0 <= a < k2.tasks.len() && 0 <= b < k2.tasks.len() && a != b implies apart(
        (#[trigger] k2.tasks[a]).space,
        (#[trigger] k2.tasks[b]).space,
    ) by {
        if a != i && b != i {
            assert(apart(k.tasks[a].space, k.tasks[b].space));
        }
    }
    assert forall|j: int, p: int|
        0 <= j < k.tasks.len() && j != i && #[trigger] owns(k.tasks[j].space, p) implies m2.page(p)
        == m.page(p) by {
        let o = k.tasks[j];
        lemma_task_holds(o, m);
        assert(apart(k.tasks[j].space, k.tasks[i].space));
        law_isolation(o.space, s, s2, m, m2);
    }
}

/// Having no frame in common goes both ways.
pub proof fn lemma_apart_sym(a: SpaceModel, b: SpaceModel)
    requires
        apart(a, b),
    ensures
        apart(b, a),
{
    assert forall|p: int| #[trigger] owns(b, p) implies !owns(a, p) by {
        if owns(a, p) {
            assert(!owns(b, p));
        }
    }
}

/// An address space that is as it was in the same memory did not change.
pub proof fn lemma_unchanged(s: SpaceModel, m: MemoryModel)
    requires
        holds(s, m),
    ensures
        changed_only(s, s, m, m),
{
}

/// The kernel stays consistent if one process changes only itself.
pub proof fn lemma_update(k: KernelModel, k2: KernelModel, i: int)
    requires
        k.wf(),
        0 <= i < k.tasks.len(),
        k2 == (KernelModel {
            machine: MachineModel { mem: k2.machine.mem, ..k.machine },
            tasks: k.tasks.update(i, k2.tasks[i]),
            ..k
        }),
        ({
            let t = k.tasks[i];
            let t2 = k2.tasks[i];
            &&& t2.pid == t.pid
            &&& t2.kernel_stack == t.kernel_stack
            &&& t2.status == t.status
            &&& t2.parent == t.parent
            &&& t2.children == t.children
            &&& fds_ok(t2.fds, k.inodes.len() as int, k.pipes.len() as int)
            &&& t2.wf(k2.machine.mem)
            &&& k2.machine.mem.wf()
            &&& changed_only(t.space, t2.space, k.machine.mem, k2.machine.mem)
        }),
    ensures
        k2.wf(),
{
    lemma_mem_update(k, k2, i);
    assert(same_shape(k.tasks, k2.tasks));
    lemma_same_shape(k.machine, k2.machine, k.tasks, k2.tasks, k.ready, k.current);
    reveal(files_ok);
    assert forall|j: int| 0 <= j < k2.tasks.len() implies fds_ok(
        (#[trigger] k2.tasks[j]).fds,
        k2.inodes.len() as int,
        k2.pipes.len() as int,
    ) by {
        if j != i {
            assert(k2.tasks[j] == k.tasks[j]);
        }
    }
}

/// What a consistent kernel says of one process.
pub proof fn lemma_task(k: KernelModel, i: int)
    requires
        k.wf(),
        0 <= i < k.tasks.len(),
    ensures
        k.machine.wf(),
        k.tasks[i].wf(k.machine.mem),
        apart(k.tasks[i].space, k.machine.kspace),
        index_of(k.tasks, k.tasks[i].pid) == i,
        has_task(k.tasks, k.tasks[i].pid),
        k.machine.pids.in_use(k.tasks[i].pid),
        k.machine.kstacks.in_use(k.tasks[i].kernel_stack),
        fds_ok(k.tasks[i].fds, k.inodes.len() as int, k.pipes.len() as int),
        pids_distinct(k.tasks),
        k.tasks[0].pid == 0,
        k.tasks[0].parent is None,
        k.tasks[0].status != TaskStatus::Zombie,
{
    reveal(mem_ok);
    reveal(ids_ok);
    reveal(family_ok);
    reveal(files_ok);
    lemma_index_of(k.tasks, i);
}

/// What a consistent kernel says of the current process.
pub proof fn lemma_current(k: KernelModel)
    requires
        k.wf(),
        k.runs(),
    ensures
        0 <= k.at() < k.tasks.len(),
        k.task().pid == k.current->0,
        k.task().status == TaskStatus::Running,
        k.machine.wf(),
        k.task().wf(k.machine.mem),
        k.task().space_ok(k.machine.mem),
        apart(k.task().space, k.machine.kspace),
        k.machine.kstacks.in_use(k.task().kernel_stack),
        fds_ok(k.task().fds, k.inodes.len() as int, k.pipes.len() as int),
        pids_distinct(k.tasks),
{
    reveal(sched_ok);
    lemma_index_from(k.tasks, k.current->0, 0);
    lemma_task(k, k.at());
}

} // verus!
