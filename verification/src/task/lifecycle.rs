//! How processes come to be, and how they end.
use super::id::{lemma_allocated, lemma_freed, stack_removed};
use super::kernel::{
    child_ok, family_ok, fds_ok, files_ok, ids_ok, lemma_current, lemma_same_index, lemma_task,
    mem_ok, same_pids, sched_ok, Kernel, KernelModel,
};
use super::machine::MachineModel;
use super::manager::add_task;
use super::processor::take_current_task;
use super::table::{
    find_task, has_task, index_from, index_of, lemma_index_from, lemma_index_of, models,
    pids_distinct,
};
use super::task::{
    joined_in, lemma_task_holds, lemma_task_still_wf, started, FileHandle, TaskControlBlock,
    TaskModel, TaskStatus,
};
use crate::easy_fs::block_dev::BlockDevice;
use crate::easy_fs::disk::file;
use crate::easy_fs::efs::EasyFileSystem;
use crate::easy_fs::tree::{entries, find_from, has_name, tree_ok};
use crate::fs::inode::{open_file, OSInode, OpenFlags, RDONLY};
use crate::mm::frame_allocator::{lemma_with_dealloc, MemoryModel};
use crate::mm::load::{loadable, program_plan};
use crate::mm::memory_set::areas_released;
use crate::mm::owner::{
    apart, changed_only, law_isolation, lemma_born_apart, lemma_holds, lemma_released_only,
    lemma_still_wf, owns,
};
use crate::mm::plan::plan_frames;
use crate::mm::space::SpaceModel;
use vstd::prelude::*;
use vstd::utf8::encode_utf8;

verus! {

/// Processes are found at the same places after one more was added.
pub proof fn lemma_index_push(ts: Seq<TaskModel>, t: TaskModel, pid: usize, i: int)
    requires
        0 <= i <= ts.len(),
    ensures
        index_from(ts, pid, i) < ts.len() ==> index_from(ts.push(t), pid, i) == index_from(
            ts,
            pid,
            i,
        ),
        index_from(ts, pid, i) >= ts.len() && t.pid == pid ==> index_from(ts.push(t), pid, i)
            == ts.len(),
    decreases ts.len() - i,
{
    if i < ts.len() {
        assert(ts.push(t)[i] == ts[i]);
        if ts[i].pid != pid {
            lemma_index_push(ts, t, pid, i + 1);
        }
    } else {
        assert(ts.push(t)[i] == t);
    }
}

/// The kernel after a new process was added to it, and put into the queue: the parent, if
/// there is one, lists it.
pub open spec fn with_new(k: KernelModel, n: MachineModel, t: TaskModel) -> KernelModel {
    let ts = match t.parent {
        Some(p) => {
            let i = index_of(k.tasks, p);
            k.tasks.update(
                i,
                TaskModel { children: k.tasks[i].children.push(t.pid), ..k.tasks[i] },
            )
        },
        None => k.tasks,
    };
    KernelModel { machine: n, tasks: ts.push(t), ready: k.ready.push(t.pid), ..k }
}

/// Adding a new process divides up the memory anew.
proof fn lemma_new_mem(k: KernelModel, n: MachineModel, t: TaskModel)
    requires
        k.wf(),
        joined_in(t, k.machine, n),
        t.parent matches Some(p) ==> has_task(k.tasks, p) && k.tasks[index_of(k.tasks, p)].status
            != TaskStatus::Zombie,
    ensures
        mem_ok(with_new(k, n, t)),
{
    reveal(mem_ok);
    let k2 = with_new(k, n, t);
    let m = k.machine.mem;
    let len = k.tasks.len() as int;
    if let Some(p) = t.parent {
        lemma_index_from(k.tasks, p, 0);
    }
    assert forall|i: int| 0 <= i < len implies (#[trigger] k2.tasks[i]).space == k.tasks[i].space
        && k2.tasks[i].wf(n.mem) && apart(k2.tasks[i].space, n.kspace) && apart(
        k2.tasks[i].space,
        t.space,
    ) && apart(t.space, k2.tasks[i].space) by {
        let o = k.tasks[i];
        assert(o.wf(m));
        lemma_task_holds(o, m);
        law_isolation(o.space, k.machine.kspace, n.kspace, m, n.mem);
        lemma_born_apart(o.space, t.space, m, n.mem);
        lemma_task_still_wf(o, m, n.mem);
    }
    assert(k2.tasks[len] == t);
    assert forall|i: int, j: int|
        0 <= i < k2.tasks.len() && 0 <= j < k2.tasks.len() && i != j implies apart(
        (#[trigger] k2.tasks[i]).space,
        (#[trigger] k2.tasks[j]).space,
    ) by {
        if i < len && j < len {
            assert(apart(k.tasks[i].space, k.tasks[j].space));
        }
    }
}

/// Adding a new process keeps the kernel consistent.
pub proof fn lemma_new_task(k: KernelModel, n: MachineModel, t: TaskModel)
    requires
        k.wf(),
        joined_in(t, k.machine, n),
        k.machine.pids.can_alloc(),
        k.machine.kstacks.can_alloc(),
        n.pids == k.machine.pids.allocated(),
        n.kstacks == k.machine.kstacks.allocated(),
        t.pid == k.machine.pids.next(),
        t.kernel_stack == k.machine.kstacks.next(),
        t.status == TaskStatus::Ready,
        t.children == Seq::<usize>::empty(),
        fds_ok(t.fds, k.inodes.len() as int, k.pipes.len() as int),
        match t.parent {
            Some(p) => has_task(k.tasks, p) && k.tasks[index_of(k.tasks, p)].status
                != TaskStatus::Zombie,
            None => k.tasks.len() == 0 && t.pid == 0,
        },
    ensures
        with_new(k, n, t).wf(),
{
    let k2 = with_new(k, n, t);
    let ts = k.tasks;
    let ts2 = k2.tasks;
    let len = ts.len() as int;
    lemma_new_mem(k, n, t);
    if let Some(p) = t.parent {
        lemma_index_from(ts, p, 0);
    }
    assert(k.machine.wf()) by {
        reveal(mem_ok);
    }
    lemma_allocated(k.machine.pids);
    lemma_allocated(k.machine.kstacks);
    assert(ts2[len] == t);
    let mid = ts2.drop_last();
    assert(mid.push(t) =~= ts2);
    assert(same_pids(ts, mid));
    assert forall|i: int| 0 <= i < len implies (#[trigger] ts2[i]) == (TaskModel {
        children: ts2[i].children,
        ..ts[i]
    }) && ts2[i].pid != t.pid && ts2[i].kernel_stack != t.kernel_stack by {
        reveal(ids_ok);
        assert(k.machine.pids.in_use(ts[i].pid));
        assert(k.machine.kstacks.in_use(ts[i].kernel_stack));
    }
    assert(!has_task(ts, t.pid)) by {
        lemma_index_from(ts, t.pid, 0);
        if has_task(ts, t.pid) {
            assert(ts2[index_of(ts, t.pid)].pid != t.pid);
        }
    }
    assert forall|p: usize| has_task(ts, p) implies #[trigger] index_of(ts2, p) == index_of(ts, p)
        && has_task(ts2, p) by {
        lemma_same_index(ts, mid, p, 0);
        lemma_index_push(mid, t, p, 0);
    }
    lemma_same_index(ts, mid, t.pid, 0);
    lemma_index_push(mid, t, t.pid, 0);
    lemma_index_from(mid, t.pid, 0);
    assert(index_of(ts2, t.pid) == len);
    assert(ids_ok(n, ts2)) by {
        reveal(ids_ok);
        assert forall|i: int, j: int|
            0 <= i < ts2.len() && 0 <= j < ts2.len() && i != j implies (#[trigger] ts2[i]).pid != (
        #[trigger] ts2[j]).pid && ts2[i].kernel_stack != ts2[j].kernel_stack by {
            if i < len && j < len {
                assert(ts[i].pid != ts[j].pid);
                assert(ts[i].kernel_stack != ts[j].kernel_stack);
            }
        }
        assert forall|i: int| 0 <= i < ts2.len() implies n.pids.in_use((#[trigger] ts2[i]).pid)
            && n.kstacks.in_use(ts2[i].kernel_stack) by {
            if i < len {
                assert(k.machine.pids.in_use(ts[i].pid));
            }
        }
    }
    assert(family_ok(ts2)) by {
        reveal(family_ok);
        assert forall|i: int, c: int|
            0 <= i < ts2.len() && 0 <= c < ts2[i].children.len() implies #[trigger] child_ok(
            ts2,
            i,
            c,
        ) by {
            if c < ts[i].children.len() {
                assert(child_ok(ts, i, c));
                let p = ts[i].children[c];
                assert(ts2[i].children[c] == p);
                lemma_index_from(ts, p, 0);
                assert(index_of(ts2, p) == index_of(ts, p));
            }
        }
        assert forall|i: int| 0 <= i < ts2.len() implies (
        #[trigger] ts2[i]).children.no_duplicates() && ts2[i].parent != Some(ts2[i].pid) by {
            if i < len {
                let cs = ts[i].children;
                assert(cs.no_duplicates());
                assert forall|c: int| 0 <= c < cs.len() implies cs[c] != t.pid by {
                    assert(child_ok(ts, i, c));
                }
            }
        }
    }
    assert(sched_ok(ts2, k2.ready, k2.current)) by {
        reveal(sched_ok);
        let r = k.ready;
        let r2 = k2.ready;
        assert forall|a: int| 0 <= a < r.len() implies r[a] != t.pid by {
            assert(has_task(ts, r[a]));
        }
        assert forall|a: int, b: int| 0 <= a < r2.len() && 0 <= b < r2.len() && a != b implies r2[a]
            != r2[b] by {
            if a < r.len() && b < r.len() {
                assert(r[a] != r[b]);
            }
        }
        assert forall|a: int| 0 <= a < r2.len() implies has_task(ts2, #[trigger] r2[a])
            && ts2[index_of(ts2, r2[a])].status == TaskStatus::Ready by {
            if a < r.len() {
                assert(r2[a] == r[a]);
                lemma_index_from(ts, r[a], 0);
            }
        }
        assert forall|i: int| 0 <= i < ts2.len() implies match (#[trigger] ts2[i]).status {
            TaskStatus::UnInit => false,
            TaskStatus::Ready => r2.contains(ts2[i].pid),
            TaskStatus::Running => k2.current == Some(ts2[i].pid),
            TaskStatus::Zombie => true,
        } by {
            if i < len {
                assert(ts[i].status == ts2[i].status);
                if ts[i].status == TaskStatus::Ready {
                    let x = choose|x: int| 0 <= x < r.len() && r[x] == ts[i].pid;
                    assert(r2[x] == ts[i].pid);
                }
            } else {
                assert(r2[r.len() as int] == t.pid);
            }
        }
        if let Some(p) = k.current {
            lemma_index_from(ts, p, 0);
        }
    }
    assert(files_ok(k2)) by {
        reveal(files_ok);
        assert forall|i: int| 0 <= i < k2.tasks.len() implies fds_ok(
            (#[trigger] k2.tasks[i]).fds,
            k2.inodes.len() as int,
            k2.pipes.len() as int,
        ) by {
            if i < len {
                assert(k.tasks[i].fds == k2.tasks[i].fds);
            }
        }
    }
}

/// The processes after the first of them became the parent of the children `cs` of another
/// one: they have it as their parent, and it lists them behind its own.
pub open spec fn reparented(ts: Seq<TaskModel>, cs: Seq<usize>) -> Seq<TaskModel> {
    Seq::new(
        ts.len(),
        |i: int|
            TaskModel {
                parent: if cs.contains(ts[i].pid) {
                    Some(0)
                } else {
                    ts[i].parent
                },
                children: if i == 0 {
                    ts[i].children + cs
                } else {
                    ts[i].children
                },
                ..ts[i]
            },
    )
}

/// A process that has exited: its exit code is kept until its parent asks for it, and it
/// has no children, no descriptors and no memory but the root of its page table.
pub open spec fn zombie(t: TaskModel, exit_code: i32) -> TaskModel {
    TaskModel {
        status: TaskStatus::Zombie,
        exit_code,
        children: Seq::empty(),
        space: SpaceModel { areas: Seq::empty(), ..t.space },
        fds: Seq::empty(),
        ..t
    }
}

/// The kernel after the current process has exited: the first process has become the
/// parent of its children.
pub open spec fn exited(k: KernelModel, exit_code: i32, m2: MemoryModel) -> KernelModel {
    let ts = reparented(k.tasks, k.task().children);
    KernelModel {
        machine: MachineModel { mem: m2, ..k.machine },
        tasks: ts.update(k.at(), zombie(k.task(), exit_code)),
        current: None,
        ..k
    }
}

/// What the memory of a process rests on did not change.
proof fn lemma_same_spaces(k: KernelModel, k2: KernelModel)
    requires
        mem_ok(k),
        k2.machine == k.machine,
        k2.tasks.len() == k.tasks.len(),
        forall|i: int|
            0 <= i < k.tasks.len() ==> {
                let a = k.tasks[i];
                let b = #[trigger] k2.tasks[i];
                &&& b == (TaskModel { parent: b.parent, children: b.children, ..a })
                &&& a.status == TaskStatus::Zombie ==> b.children == a.children
            },
    ensures
        mem_ok(k2),
{
    reveal(mem_ok);
    assert forall|i: int| 0 <= i < k2.tasks.len() implies (#[trigger] k2.tasks[i]).wf(
        k2.machine.mem,
    ) && k2.tasks[i].space == k.tasks[i].space by {
        assert(k.tasks[i].wf(k.machine.mem));
    }
    assert forall|i: int, j: int|
        0 <= i < k2.tasks.len() && 0 <= j < k2.tasks.len() && i != j implies apart(
        (#[trigger] k2.tasks[i]).space,
        (#[trigger] k2.tasks[j]).space,
    ) by {
        assert(apart(k.tasks[i].space, k.tasks[j].space));
    }
}

/// The family stays in order when the current process exits.
proof fn lemma_exited_family(k: KernelModel, exit_code: i32, m2: MemoryModel)
    requires
        k.wf(),
        k.runs(),
        k.current != Some(0usize),
    ensures
        family_ok(exited(k, exit_code, m2).tasks),
        same_pids(k.tasks, exited(k, exit_code, m2).tasks),
        k.at() != 0,
{
    reveal(family_ok);
    lemma_current(k);
    lemma_task(k, k.at());
    let ts = k.tasks;
    let ts2 = exited(k, exit_code, m2).tasks;
    let at = k.at();
    let t = k.task();
    let cs = t.children;
    assert(same_pids(ts, ts2));
    assert(t.pid != 0);
    assert(at != 0);
    assert forall|x: usize| cs.contains(x) implies has_task(ts, x) && ts[#[trigger] index_of(
        ts,
        x,
    )].parent == Some(t.pid) by {
        let c = choose|c: int| 0 <= c < cs.len() && cs[c] == x;
        assert(child_ok(ts, at, c));
    }
    assert(!cs.contains(0)) by {
        if cs.contains(0) {
            lemma_index_of(ts, 0);
            assert(ts[index_of(ts, 0)].parent == Some(t.pid));
        }
    }
    assert forall|i: int, c: int|
        0 <= i < ts2.len() && 0 <= c < ts2[i].children.len() implies #[trigger] child_ok(
        ts2,
        i,
        c,
    ) by {
        let x = ts2[i].children[c];
        assert(i != at);
        lemma_same_index(ts, ts2, x, 0);
        lemma_index_from(ts, x, 0);
        let j = index_of(ts, x);
        if c < ts[i].children.len() {
            assert(ts[i].children[c] == x);
            assert(child_ok(ts, i, c));
            assert(ts[j].parent == Some(ts[i].pid));
            assert(!cs.contains(x)) by {
                if cs.contains(x) {
                    assert(ts[index_of(ts, x)].parent == Some(t.pid));
                    assert(ts[i].pid != ts[at].pid);
                }
            }
        } else {
            assert(i == 0);
            assert(x == cs[c - ts[0].children.len()]);
            assert(cs.contains(x));
            assert(ts[index_of(ts, x)].parent == Some(t.pid));
            assert(ts[at].parent != Some(ts[at].pid));
            assert(j != at);
        }
    }
    assert forall|i: int| 0 <= i < ts2.len() implies (#[trigger] ts2[i]).children.no_duplicates()
        && ts2[i].parent != Some(ts2[i].pid) by {
        assert(ts[i].children.no_duplicates() && ts[i].parent != Some(ts[i].pid));
        if i == 0 {
            let a = ts[0].children;
            assert(ts2[0].children == a + cs);
            assert forall|c: int, d: int| 0 <= c < a.len() && 0 <= d < cs.len() implies a[c]
                != cs[d] by {
                assert(child_ok(ts, 0, c));
                assert(cs.contains(cs[d]));
                assert(ts[index_of(ts, cs[d])].parent == Some(t.pid));
            }
        }
    }
}

/// Exiting keeps the kernel consistent.
pub proof fn lemma_exited(k: KernelModel, exit_code: i32, m2: MemoryModel)
    requires
        k.wf(),
        k.runs(),
        k.current != Some(0usize),
        m2.wf(),
        areas_released(
            k.task().space.areas,
            k.machine.mem,
            m2,
            k.task().space.areas.len() as int,
        ),
    ensures
        exited(k, exit_code, m2).wf(),
{
    lemma_current(k);
    lemma_exited_family(k, exit_code, m2);
    let k2 = exited(k, exit_code, m2);
    let at = k.at();
    let t = k.task();
    let z = zombie(t, exit_code);
    lemma_released_only(t.space, z.space, k.machine.mem, m2);
    let mid = KernelModel {
        machine: k2.machine,
        tasks: k.tasks.update(at, z),
        ..k
    };
    super::kernel::lemma_mem_update(k, mid, at);
    let mid2 = KernelModel { tasks: k2.tasks, ..mid };
    lemma_task(k, at);
    assert forall|i: int| 0 <= i < mid.tasks.len() implies {
        let a = mid.tasks[i];
        let b = #[trigger] mid2.tasks[i];
        &&& b == (TaskModel { parent: b.parent, children: b.children, ..a })
        &&& a.status == TaskStatus::Zombie ==> b.children == a.children
    } by {
        if i != at {
            assert(mid.tasks[i] == k.tasks[i]);
            assert(mid2.tasks[i] == reparented(k.tasks, t.children)[i]);
        }
    }
    lemma_same_spaces(mid, mid2);
    assert(mem_ok(k2)) by {
        reveal(mem_ok);
    }
    let ts = k.tasks;
    let ts2 = k2.tasks;
    assert(ids_ok(k2.machine, ts2)) by {
        reveal(ids_ok);
        assert forall|i: int, j: int|
            0 <= i < ts2.len() && 0 <= j < ts2.len() && i != j implies (#[trigger] ts2[i]).pid != (
        #[trigger] ts2[j]).pid && ts2[i].kernel_stack != ts2[j].kernel_stack by {
            assert(ts[i].pid != ts[j].pid);
            assert(ts[i].kernel_stack != ts[j].kernel_stack);
        }
        assert forall|i: int| 0 <= i < ts2.len() implies k2.machine.pids.in_use(
            (#[trigger] ts2[i]).pid,
        ) && k2.machine.kstacks.in_use(ts2[i].kernel_stack) by {
            assert(k.machine.pids.in_use(ts[i].pid));
        }
    }
    assert(sched_ok(ts2, k2.ready, k2.current)) by {
        reveal(sched_ok);
        assert forall|a: int| 0 <= a < k.ready.len() implies has_task(ts2, #[trigger] k.ready[a])
            && ts2[index_of(ts2, k.ready[a])].status == TaskStatus::Ready by {
            lemma_same_index(ts, ts2, k.ready[a], 0);
            lemma_index_from(ts, k.ready[a], 0);
            assert(ts[index_of(ts, k.ready[a])].status == TaskStatus::Ready);
        }
        assert forall|i: int| 0 <= i < ts2.len() implies match (#[trigger] ts2[i]).status {
            TaskStatus::UnInit => false,
            TaskStatus::Ready => k2.ready.contains(ts2[i].pid),
            TaskStatus::Running => k2.current == Some(ts2[i].pid),
            TaskStatus::Zombie => true,
        } by {
            if i != at {
                assert(ts[i].status == ts2[i].status);
                assert(ts[i].pid != ts[at].pid);
            }
        }
    }
    assert(files_ok(k2)) by {
        reveal(files_ok);
        assert forall|i: int| 0 <= i < k2.tasks.len() implies fds_ok(
            (#[trigger] k2.tasks[i]).fds,
            k2.inodes.len() as int,
            k2.pipes.len() as int,
        ) by {
            if i != at {
                assert(k.tasks[i].fds == k2.tasks[i].fds);
            }
        }
    }
}

/// pid of usertests app in make run TEST=1
pub const IDLE_PID: usize = 0;

/// Put the first process in the place of a parent for the children of the process at an
/// index.
fn reparent_children(tasks: &mut Vec<TaskControlBlock>, at: usize)
    requires
        0 < at < old(tasks)@.len(),
        pids_distinct(models(old(tasks)@)),
        !models(old(tasks)@)[at as int].children.contains(models(old(tasks)@)[0].pid),
        !models(old(tasks)@)[at as int].children.contains(models(old(tasks)@)[at as int].pid),
        forall|c: int|
            0 <= c < models(old(tasks)@)[at as int].children.len() ==> has_task(
                models(old(tasks)@),
                #[trigger] models(old(tasks)@)[at as int].children[c],
            ),
    ensures
        models(final(tasks)@) == reparented(
            models(old(tasks)@),
            models(old(tasks)@)[at as int].children,
        ),
{
    let ghost ts = models(tasks@);
    let ghost cs = ts[at as int].children;
    let n: usize = tasks[at].inner.children.len();
    let mut c: usize = 0;
    assert(cs.take(0) =~= Seq::<usize>::empty());
    assert(models(tasks@) =~= reparented(ts, cs.take(0))) by {
        assert forall|i: int| 0 <= i < ts.len() implies ts[i] == reparented(ts, cs.take(0))[i] by {
            assert(ts[i].children + cs.take(0) =~= ts[i].children);
        }
    }
    while c < n
        invariant
            c <= n,
            n == cs.len(),
            0 < at < ts.len(),
            cs == ts[at as int].children,
            pids_distinct(ts),
            !cs.contains(ts[0].pid),
            !cs.contains(ts[at as int].pid),
            forall|c: int| 0 <= c < cs.len() ==> has_task(ts, #[trigger] cs[c]),
            models(tasks@) == reparented(ts, cs.take(c as int)),
        decreases n - c,
    {
        let ghost ts1 = models(tasks@);
        assert(ts1.len() == tasks@.len());
        assert(ts1.len() == ts.len());
        assert(tasks@[at as int]@ == ts1[at as int]);
        let pid: usize = tasks[at].inner.children[c];
        assert(pid == cs[c as int]);
        proof {
            assert(same_pids(ts, ts1));
            lemma_same_index(ts, ts1, pid, 0);
            lemma_index_from(ts, pid, 0);
            assert(has_task(ts, cs[c as int]));
        }
        let j: usize = find_task(tasks, pid).unwrap();
        proof {
            assert(cs.contains(pid));
            assert(j != 0);
        }
        tasks[j].inner.parent = Some(0);
        tasks[0].inner.children.push(pid);
        proof {
            let ts2 = models(tasks@);
            let cs2 = cs.take(c + 1);
            assert(cs2 =~= cs.take(c as int).push(pid));
            assert forall|i: int| 0 <= i < ts.len() implies #[trigger] ts2[i] == reparented(
                ts,
                cs2,
            )[i] by {
                let x = ts[i].pid;
                assert(ts1[i] == reparented(ts, cs.take(c as int))[i]);
                assert(cs2.contains(x) <==> cs.take(c as int).contains(x) || x == pid) by {
                    if cs.take(c as int).contains(x) {
                        let y = choose|y: int| 0 <= y < c && cs.take(c as int)[y] == x;
                        assert(cs2[y] == x);
                    }
                    if x == pid {
                        assert(cs2[c as int] == x);
                    }
                }
                if x == pid {
                    assert(ts[j as int].pid == pid);
                    assert(i == j);
                }
                if i == 0 {
                    assert(ts2[0].children =~= ts[0].children + cs2);
                }
            }
            assert(ts2 =~= reparented(ts, cs2));
        }
        c += 1;
    }
    assert(cs.take(n as int) =~= cs);
}

/// Exit the current 'Running' task and run the next task in task list. The first process
/// must not exit. Return the number of the process that exits; the caller goes on with
/// scheduling.
pub fn exit_current_and_run_next(k: &mut Kernel, exit_code: i32) -> (r: usize)
    requires
        old(k)@.wf(),
        old(k)@.runs(),
        old(k)@.current != Some(IDLE_PID),
    ensures
        final(k)@.wf(),
        Some(r) == old(k)@.current,
        final(k)@ == exited(old(k)@, exit_code, final(k)@.machine.mem),
        areas_released(
            old(k)@.task().space.areas,
            old(k)@.machine.mem,
            final(k)@.machine.mem,
            old(k)@.task().space.areas.len() as int,
        ),
{
    let ghost o = k@;
    let ghost t = o.task();
    proof {
        lemma_current(o);
        lemma_task(o, o.at());
    }
    let at: usize = k.current_index();
    proof {
        reveal(family_ok);
        lemma_index_of(o.tasks, 0);
        let cs = t.children;
        assert forall|c: int| 0 <= c < cs.len() implies has_task(o.tasks, #[trigger] cs[c]) && cs[c]
            != o.tasks[0].pid && cs[c] != t.pid by {
            assert(child_ok(o.tasks, at as int, c));
            lemma_index_of(o.tasks, at as int);
        }
    }
    // take from Processor
    let task: usize = take_current_task(&mut k.processor).unwrap();
    // do not move to its parent but under initproc
    reparent_children(&mut k.tasks, at);
    let ghost ts1 = models(k.tasks@);
    assert(ts1.len() == o.tasks.len() && ts1.len() == k.tasks@.len());
    assert(ts1[at as int] == k.tasks@[at as int]@);
    // Change status to Zombie
    k.tasks[at].inner.task_status = TaskStatus::Zombie;
    // Record exit code
    k.tasks[at].inner.exit_code = exit_code;
    k.tasks[at].inner.children.clear();
    // deallocate user space
    k.tasks[at].inner.memory_set.recycle_data_pages(&mut k.machine.mem);
    // drop file descriptors
    k.tasks[at].inner.fd_table.clear();
    proof {
        let m2 = k@.machine.mem;
        lemma_exited(o, exit_code, m2);
        let k2 = exited(o, exit_code, m2);
        assert(k@.tasks =~= k2.tasks) by {
            assert forall|i: int| 0 <= i < k2.tasks.len() implies #[trigger] k@.tasks[i]
                == k2.tasks[i] by {
                if i == at {
                    assert(k@.tasks[i].children =~= Seq::<usize>::empty());
                    assert(k@.tasks[i].fds =~= Seq::<Option<FileHandle>>::empty());
                    assert(!t.children.contains(t.pid));
                } else {
                    assert(k@.tasks[i] == ts1[i]);
                }
            }
        }
    }
    task
}

/// The kernel after the process at index `i` has learned that its child number `c` has
/// exited: the child is gone, and all that it had was given back.
pub open spec fn reaped(k: KernelModel, i: int, c: int, n: MachineModel) -> KernelModel {
    let j = index_of(k.tasks, k.tasks[i].children[c]);
    let ts = k.tasks.update(
        i,
        TaskModel { children: k.tasks[i].children.remove(c), ..k.tasks[i] },
    );
    KernelModel { machine: n, tasks: ts.remove(j), ..k }
}

/// What a process that has exited had left was given back: its number, its kernel stack,
/// and the root of its page table. `m1` is the memory when the kernel stack was unmapped.
pub open spec fn given_back(
    o: MachineModel,
    n: MachineModel,
    t: TaskModel,
    m1: MemoryModel,
) -> bool {
    &&& stack_removed(o.kspace, n.kspace, o.mem, m1, t.kernel_stack)
    &&& n == (MachineModel {
        mem: m1.with_dealloc(t.space.root),
        kspace: n.kspace,
        pids: o.pids.freed(t.pid),
        kstacks: o.kstacks.freed(t.kernel_stack),
        ..o
    })
}

/// A process and its child that has exited.
pub open spec fn can_reap(k: KernelModel, i: int, c: int) -> bool {
    &&& 0 <= i < k.tasks.len()
    &&& 0 <= c < k.tasks[i].children.len()
    &&& k.tasks[index_of(k.tasks, k.tasks[i].children[c])].status == TaskStatus::Zombie
}

/// Where a process is after the one at `j` was removed.
spec fn moved(i: int, j: int) -> int {
    if i < j {
        i
    } else {
        i - 1
    }
}

/// The memory stays divided up when what a process has left is given back.
proof fn lemma_reaped_mem(k: KernelModel, i: int, c: int, n: MachineModel, m1: MemoryModel)
    requires
        k.wf(),
        can_reap(k, i, c),
        n.wf(),
        given_back(k.machine, n, k.tasks[index_of(k.tasks, k.tasks[i].children[c])], m1),
        changed_only(k.machine.kspace, n.kspace, k.machine.mem, m1),
        m1.wf(),
        0 <= index_of(k.tasks, k.tasks[i].children[c]) < k.tasks.len(),
        i != index_of(k.tasks, k.tasks[i].children[c]),
    ensures
        mem_ok(reaped(k, i, c, n)),
{
    reveal(mem_ok);
    let k2 = reaped(k, i, c, n);
    let j = index_of(k.tasks, k.tasks[i].children[c]);
    let t = k.tasks[j];
    let m = k.machine.mem;
    let m2 = n.mem;
    let root = t.space.root;
    lemma_task_holds(t, m);
    assert(owns(t.space, root));
    law_isolation(t.space, k.machine.kspace, n.kspace, m, m1);
    assert(m1.in_use(root));
    lemma_with_dealloc(m1, root);
    assert forall|a: int| 0 <= a < k2.tasks.len() implies {
        let a0 = if a < j {
            a
        } else {
            a + 1
        };
        &&& (#[trigger] k2.tasks[a]).wf(m2)
        &&& apart(k2.tasks[a].space, n.kspace)
        &&& k2.tasks[a].space == k.tasks[a0].space
    } by {
        let a0 = if a < j {
            a
        } else {
            a + 1
        };
        let o = k.tasks[a0];
        assert(o.wf(m));
        lemma_task_holds(o, m);
        assert(apart(k.tasks[a0].space, k.tasks[j].space));
        law_isolation(o.space, k.machine.kspace, n.kspace, m, m1);
        assert forall|p: int| #[trigger] owns(o.space, p) implies m2.in_use(p) by {
            assert(!owns(t.space, p));
            assert(m1.in_use(p));
        }
        lemma_task_still_wf(o, m, m2);
        if a0 == i && o.status == TaskStatus::Zombie {
            assert(o.children.len() == 0);
        }
    }
    assert forall|a: int, b: int|
        0 <= a < k2.tasks.len() && 0 <= b < k2.tasks.len() && a != b implies apart(
        (#[trigger] k2.tasks[a]).space,
        (#[trigger] k2.tasks[b]).space,
    ) by {
        let a0 = if a < j {
            a
        } else {
            a + 1
        };
        let b0 = if b < j {
            b
        } else {
            b + 1
        };
        assert(apart(k.tasks[a0].space, k.tasks[b0].space));
    }
}

/// Removing a child that has exited keeps the kernel consistent.
pub proof fn lemma_reaped(k: KernelModel, i: int, c: int, n: MachineModel, m1: MemoryModel)
    requires
        k.wf(),
        can_reap(k, i, c),
        n.wf(),
        given_back(k.machine, n, k.tasks[index_of(k.tasks, k.tasks[i].children[c])], m1),
        changed_only(k.machine.kspace, n.kspace, k.machine.mem, m1),
        m1.wf(),
    ensures
        reaped(k, i, c, n).wf(),
        0 < index_of(k.tasks, k.tasks[i].children[c]) < k.tasks.len(),
        i != index_of(k.tasks, k.tasks[i].children[c]),
{
    let ts = k.tasks;
    let pid = ts[i].children[c];
    let j = index_of(ts, pid);
    let k2 = reaped(k, i, c, n);
    let ts2 = k2.tasks;
    lemma_task(k, i);
    assert(child_ok(ts, i, c) && ts[i].parent != Some(ts[i].pid)) by {
        reveal(family_ok);
    }
    lemma_index_from(ts, pid, 0);
    assert(j != 0);
    lemma_reaped_mem(k, i, c, n, m1);
    lemma_task(k, j);
    lemma_freed(k.machine.pids, ts[j].pid);
    lemma_freed(k.machine.kstacks, ts[j].kernel_stack);
    assert forall|a: int| 0 <= a < ts2.len() implies {
        let a0 = if a < j {
            a
        } else {
            a + 1
        };
        &&& 0 <= a0 < ts.len()
        &&& a0 != j
        &&& (#[trigger] ts2[a]) == (TaskModel { children: ts2[a].children, ..ts[a0] })
        &&& a0 != i ==> ts2[a].children == ts[a0].children
        &&& a0 == i ==> ts2[a].children == ts[i].children.remove(c)
    } by {}
    assert(ids_ok(n, ts2)) by {
        reveal(ids_ok);
        assert forall|a: int, b: int|
            0 <= a < ts2.len() && 0 <= b < ts2.len() && a != b implies (#[trigger] ts2[a]).pid != (
        #[trigger] ts2[b]).pid && ts2[a].kernel_stack != ts2[b].kernel_stack by {
            let a0 = if a < j {
                a
            } else {
                a + 1
            };
            let b0 = if b < j {
                b
            } else {
                b + 1
            };
            assert(ts[a0].pid != ts[b0].pid);
            assert(ts[a0].kernel_stack != ts[b0].kernel_stack);
        }
        assert forall|a: int| 0 <= a < ts2.len() implies n.pids.in_use((#[trigger] ts2[a]).pid)
            && n.kstacks.in_use(ts2[a].kernel_stack) by {
            let a0 = if a < j {
                a
            } else {
                a + 1
            };
            assert(k.machine.pids.in_use(ts[a0].pid));
            assert(ts[a0].pid != ts[j].pid);
            assert(ts[a0].kernel_stack != ts[j].kernel_stack);
        }
    }
    assert(pids_distinct(ts2)) by {
        reveal(ids_ok);
    }
    assert forall|p: usize| has_task(ts, p) && p != pid implies #[trigger] index_of(ts2, p) == moved(
        index_of(ts, p),
        j,
    ) && has_task(ts2, p) by {
        lemma_index_from(ts, p, 0);
        let q = index_of(ts, p);
        assert(q != j);
        assert(ts2[moved(q, j)].pid == p);
        lemma_index_of(ts2, moved(q, j));
    }
    assert(family_ok(ts2)) by {
        reveal(family_ok);
        assert forall|a: int, d: int|
            0 <= a < ts2.len() && 0 <= d < ts2[a].children.len() implies #[trigger] child_ok(
            ts2,
            a,
            d,
        ) by {
            let a0 = if a < j {
                a
            } else {
                a + 1
            };
            assert(ts2[a].pid == ts[a0].pid);
            let d0 = if a0 == i && d >= c {
                d + 1
            } else {
                d
            };
            let x = ts[a0].children[d0];
            assert(ts2[a].children[d] == x);
            assert(child_ok(ts, a0, d0));
            assert(x != pid) by {
                if x == pid {
                    assert(ts[j].parent == Some(ts[a0].pid));
                    assert(a0 == i);
                    assert(ts[i].children.no_duplicates());
                    assert(ts[i].children[d0] != ts[i].children[c]);
                }
            }
            lemma_index_from(ts, x, 0);
            assert(index_of(ts2, x) == moved(index_of(ts, x), j));
        }
        assert forall|a: int| 0 <= a < ts2.len() implies (
        #[trigger] ts2[a]).children.no_duplicates() && ts2[a].parent != Some(ts2[a].pid) by {
            let a0 = if a < j {
                a
            } else {
                a + 1
            };
            let cs = ts[a0].children;
            assert(cs.no_duplicates() && ts[a0].parent != Some(ts[a0].pid));
            if a0 == i {
                let cs2 = cs.remove(c);
                assert forall|x: int, y: int|
                    0 <= x < cs2.len() && 0 <= y < cs2.len() && x != y implies cs2[x] != cs2[y] by {
                    let x0 = if x < c {
                        x
                    } else {
                        x + 1
                    };
                    let y0 = if y < c {
                        y
                    } else {
                        y + 1
                    };
                    assert(cs[x0] != cs[y0]);
                }
            }
        }
    }
    assert(sched_ok(ts2, k2.ready, k2.current)) by {
        reveal(sched_ok);
        assert forall|a: int| 0 <= a < k.ready.len() implies has_task(ts2, #[trigger] k.ready[a])
            && ts2[index_of(ts2, k.ready[a])].status == TaskStatus::Ready by {
            let p = k.ready[a];
            assert(ts[index_of(ts, p)].status == TaskStatus::Ready);
            assert(p != pid);
            lemma_index_from(ts, p, 0);
            assert(index_of(ts2, p) == moved(index_of(ts, p), j));
        }
        if let Some(p) = k.current {
            assert(p != pid);
            lemma_index_from(ts, p, 0);
            assert(index_of(ts2, p) == moved(index_of(ts, p), j));
        }
        assert forall|a: int| 0 <= a < ts2.len() implies match (#[trigger] ts2[a]).status {
            TaskStatus::UnInit => false,
            TaskStatus::Ready => k2.ready.contains(ts2[a].pid),
            TaskStatus::Running => k2.current == Some(ts2[a].pid),
            TaskStatus::Zombie => true,
        } by {
            let a0 = if a < j {
                a
            } else {
                a + 1
            };
            assert(ts2[a].status == ts[a0].status);
        }
    }
    assert(files_ok(k2)) by {
        reveal(files_ok);
        assert forall|a: int| 0 <= a < k2.tasks.len() implies fds_ok(
            (#[trigger] k2.tasks[a]).fds,
            k2.inodes.len() as int,
            k2.pipes.len() as int,
        ) by {
            let a0 = if a < j {
                a
            } else {
                a + 1
            };
            assert(ts2[a].fds == ts[a0].fds);
        }
    }
}

/// Remove child number `c` of the process at index `i`, which has exited, and give back all
/// that it had. Return its number and its exit code.
pub fn reap(k: &mut Kernel, i: usize, c: usize) -> (r: (usize, i32))
    requires
        old(k)@.wf(),
        can_reap(old(k)@, i as int, c as int),
    ensures
        final(k)@.wf(),
        final(k)@ == reaped(old(k)@, i as int, c as int, final(k)@.machine),
        ({
            let t = old(k)@.tasks[index_of(
                old(k)@.tasks,
                old(k)@.tasks[i as int].children[c as int],
            )];
            &&& r.0 == t.pid
            &&& r.1 == t.exit_code
            &&& exists|m1: MemoryModel| #[trigger]
                given_back(old(k)@.machine, final(k)@.machine, t, m1)
        }),
{
    let ghost o = k@;
    let ghost j = index_of(o.tasks, o.tasks[i as int].children[c as int]);
    proof {
        reveal(family_ok);
        lemma_task(o, i as int);
        assert(child_ok(o.tasks, i as int, c as int));
        lemma_index_from(o.tasks, o.tasks[i as int].children[c as int], 0);
        lemma_task(o, j);
    }
    assert(k.tasks@[i as int]@ == o.tasks[i as int]);
    let pid: usize = k.tasks[i].inner.children.remove(c);
    proof {
        assert(same_pids(o.tasks, models(k.tasks@)));
        lemma_same_index(o.tasks, models(k.tasks@), pid, 0);
    }
    let at: usize = find_task(&k.tasks, pid).unwrap();
    // confirm that child will be deallocated after being removed from children list
    let child: TaskControlBlock = k.tasks.remove(at);
    let ghost t = o.tasks[j];
    assert(child@ == t) by {
        reveal(family_ok);
        assert(o.tasks[i as int].parent != Some(o.tasks[i as int].pid));
    }
    let found_pid: usize = child.getpid();
    let exit_code: i32 = child.inner.exit_code;
    child.pid.release(&mut k.machine.pids);
    k.machine.free_stack(child.kernel_stack);
    let ghost m1 = k@.machine.mem;
    proof {
        lemma_task_holds(t, o.machine.mem);
        assert(owns(t.space, t.space.root));
        lemma_holds(o.machine.kspace, o.machine.mem);
        law_isolation(t.space, o.machine.kspace, k@.machine.kspace, o.machine.mem, m1);
        lemma_with_dealloc(m1, t.space.root);
    }
    k.machine.mem.frame_dealloc(child.inner.memory_set.root_ppn());
    proof {
        let n = k@.machine;
        lemma_holds(n.kspace, m1);
        assert forall|p: int| #[trigger] owns(n.kspace, p) implies n.mem.in_use(p) by {
            assert(m1.in_use(p));
            if p == t.space.root {
                assert(owns(t.space, p));
            }
        }
        lemma_still_wf(n.kspace, m1, n.mem);
        assert(given_back(o.machine, n, t, m1));
        lemma_reaped(o, i as int, c as int, n, m1);
        assert(k@.tasks =~= reaped(o, i as int, c as int, n).tasks);
    }
    (found_pid, exit_code)
}

/// The name of the program of the first process.
pub open spec fn initproc_name() -> Seq<u8> {
    encode_utf8("ch7b_initproc"@)
}

/// Make the first process from its program in the file system, and put it into the queue.
/// `sstatus` is the value of the CSR.
pub fn add_initproc<D: BlockDevice>(sstatus: usize, k: &mut Kernel, fs: &mut EasyFileSystem<D>)
    requires
        old(k)@.wf(),
        old(k)@.tasks.len() == 0,
        old(k)@.machine.can_start(),
        old(k)@.machine.pids.next() == IDLE_PID,
        old(fs).wf(),
        tree_ok(old(fs)@),
        has_name(entries(old(fs)@, 0), initproc_name()),
        ({
            let es = entries(old(fs)@, 0);
            let b = file(old(fs)@, es[find_from(es, initproc_name(), 0)].inode_id as int);
            &&& b.len() + 512 <= usize::MAX
            &&& loadable(b)
            &&& plan_frames(program_plan(b)) + 3 <= old(k)@.machine.mem.frames.free_count()
        }),
    ensures
        final(k)@.wf(),
        final(fs).wf(),
        final(fs)@ == old(fs)@,
        final(fs).same_layout(old(fs)),
        ({
            let es = entries(old(fs)@, 0);
            let b = file(old(fs)@, es[find_from(es, initproc_name(), 0)].inode_id as int);
            exists|t: TaskModel, m1: MemoryModel, m2: MemoryModel| #[trigger]
                started(b, t, old(k)@.machine, final(k)@.machine, m1, m2, sstatus) && final(k)@
                    == with_new(old(k)@, final(k)@.machine, t)
        }),
{
    let ghost o = k@;
    let ghost d = fs@;
    proof {
        assert(0u32 & 0x200u32 != 0x200u32 && 0u32 & 0x400u32 != 0x400u32) by (bit_vector);
        assert(o.machine.wf()) by {
            reveal(mem_ok);
        }
    }
    let mut inode: OSInode = open_file("ch7b_initproc", OpenFlags { bits: RDONLY }, fs).unwrap();
    let v: Vec<u8> = inode.read_all(fs);
    assert(v@ =~= file(d, inode.inode.id()));
    let task: TaskControlBlock = TaskControlBlock::new(v.as_slice(), sstatus, &mut k.machine);
    let ghost t = task@;
    let pid: usize = task.getpid();
    k.tasks.push(task);
    add_task(pid, &mut k.manager);
    proof {
        let (m1, m2) = choose|m1: MemoryModel, m2: MemoryModel| #[trigger]
            started(v@, t, o.machine, k@.machine, m1, m2, sstatus);
        assert(fds_ok(t.fds, o.inodes.len() as int, o.pipes.len() as int));
        lemma_new_task(o, k@.machine, t);
        assert(k@.tasks =~= with_new(o, k@.machine, t).tasks);
        assert(started(v@, t, o.machine, k@.machine, m1, m2, sstatus));
    }
}

} // verus!
