//! What holds of processes from their start to their end.
use super::exec::{arg_start, args_len, argv_start, executed, with_args};
use super::id::{lemma_allocated, stack_top};
use super::kernel::{lemma_current, KernelModel};
use super::lifecycle::exited;
use super::machine::MachineModel;
use super::sched::{running, suspended};
use super::table::{index_of, lemma_index_from, lemma_index_of};
use super::task::{
    brk_moved, can_move_brk, forked, heap_ok, lemma_program, started, trap_page, FileHandle,
    TaskModel, TaskStatus,
};
use crate::mm::address::VirtAddr;
use crate::mm::elf::header_of;
use crate::mm::frame_allocator::MemoryModel;
use crate::mm::load::{program_plan, user_stack_top};
use crate::mm::map_area::{AreaModel, MapType};
use crate::mm::memory_set::{find_start, floor_of, lemma_find_start};
use crate::mm::owner::{holds, lemma_holds, owns};
use crate::mm::page_table::{token_of, PTE_V};
use crate::mm::plan::built;
use crate::mm::space::{covered, lemma_area, trampoline_page, SpaceModel};
use crate::trap::context::{initial_context, law_context_kept, with_context};
use vstd::prelude::*;

verus! {

/// Areas that start at the same pages are found at the same places.
proof fn lemma_same_starts(a: Seq<AreaModel>, b: Seq<AreaModel>, v: int, i: int)
    requires
        a.len() == b.len(),
        forall|j: int| 0 <= j < a.len() ==> (#[trigger] a[j]).l == b[j].l,
        0 <= i <= a.len(),
    ensures
        find_start(a, v, i) == find_start(b, v, i),
    decreases a.len() - i,
{
    if i < a.len() {
        assert(a[i].l == b[i].l);
        lemma_same_starts(a, b, v, i + 1);
    }
}

/// What a child has from its parent: the descriptors, the signals that it masks and handles,
/// the bottom of the heap and the program break, how far it has gone and how fast it goes.
/// Its heap is in order if that of the parent is. It has a number and a kernel stack that were
/// not in use, and its parent is the process; it has no children, no signals that are pending
/// or being handled, and is ready to run.
#[verifier::spinoff_prover]
#[verifier::rlimit(60)]
pub proof fn law_fork_inherits(
    t: TaskModel,
    c: TaskModel,
    o: MachineModel,
    n: MachineModel,
    m1: MemoryModel,
    m2: MemoryModel,
)
    requires
        o.wf(),
        o.can_start(),
        forked(t, c, o, n, m1, m2),
    ensures
        c.heap_bottom == t.heap_bottom,
        c.program_brk == t.program_brk,
        heap_ok(t) ==> heap_ok(c),
        c.base_size == t.base_size,
        c.fds == t.fds,
        c.stride == t.stride,
        c.pass == t.pass,
        c.signal.signal_mask == t.signal.signal_mask,
        c.signal.actions == t.signal.actions,
        c.signal.signals.bits == 0,
        c.signal.handling_sig == -1,
        c.signal.backup is None,
        !c.signal.killed && !c.signal.frozen,
        c.parent == Some(t.pid),
        c.children.len() == 0,
        c.exit_code == 0,
        c.status == TaskStatus::Ready,
        !o.pids.in_use(c.pid) && n.pids.in_use(c.pid),
        !o.kstacks.in_use(c.kernel_stack) && n.kstacks.in_use(c.kernel_stack),
        forall|i: usize| i != c.pid ==> (#[trigger] n.pids.in_use(i) <==> o.pids.in_use(i)),
        c.task_cx.ra == o.trap_return,
        c.task_cx.sp == stack_top(c.kernel_stack as int) as usize,
        c.task_cx.s.len() == 12,
        forall|i: int| 0 <= i < 12 ==> #[trigger] c.task_cx.s[i] == 0,
{
    let v = floor_of(VirtAddr(t.heap_bottom));
    lemma_find_start(t.space.areas, v, 0);
    assert forall|j: int| 0 <= j < t.space.areas.len() implies (#[trigger] t.space.areas[j]).l
        == c.space.areas[j].l by {
        assert(c.space.areas[j].l == t.space.areas[j].l);
    }
    lemma_same_starts(t.space.areas, c.space.areas, v, 0);
    lemma_allocated(o.pids);
    lemma_allocated(o.kstacks);
}

/// A child has the pages of its parent, with the same permissions.
#[verifier::spinoff_prover]
#[verifier::rlimit(60)]
pub proof fn law_fork_pages(
    t: TaskModel,
    c: TaskModel,
    o: MachineModel,
    n: MachineModel,
    m1: MemoryModel,
    m2: MemoryModel,
    k: usize,
)
    requires
        t.space_ok(o.mem),
        forked(t, c, o, n, m1, m2),
        k != trampoline_page(),
    ensures
        c.space.table.contains_key(k) <==> t.space.table.contains_key(k),
        t.space.table.contains_key(k) ==> c.space.table[k].flags == t.space.table[k].flags,
{
    let s = t.space;
    reveal(SpaceModel::wf);
    assert(s.areas.take(s.areas.len() as int) =~= s.areas);
    if covered(s.areas, k as int) {
        let i = choose|i: int| 0 <= i < s.areas.len() && (#[trigger] s.areas[i]).covers(k as int);
        assert(c.space.areas[i].l == s.areas[i].l);
        assert(c.space.areas[i].covers(k as int));
        assert(s.table.contains_key(k) && s.table[k] == s.areas[i].entry(k));
        assert(c.space.table[k] == c.space.areas[i].entry(k));
        assert(s.areas[i].map_type == MapType::Framed);
    }
}

/// A process that was made from a program is the first of its family: it has no parent and no
/// children. Its three descriptors lead to the console, it handles and masks no signal, its
/// heap is empty and starts where its stack ends, and it is ready to run.
pub proof fn law_new_process(
    b: Seq<u8>,
    t: TaskModel,
    o: MachineModel,
    n: MachineModel,
    m1: MemoryModel,
    m2: MemoryModel,
    sstatus: usize,
)
    requires
        o.wf(),
        o.can_start(),
        started(b, t, o, n, m1, m2, sstatus),
    ensures
        t.parent is None,
        t.children.len() == 0,
        t.exit_code == 0,
        t.status == TaskStatus::Ready,
        t.fds.len() == 3,
        t.fds[0] == Some(FileHandle::Stdin),
        t.fds[1] == Some(FileHandle::Stdout),
        t.fds[2] == Some(FileHandle::Stdout),
        t.signal.signals.bits == 0,
        t.signal.signal_mask.bits == 0,
        t.signal.handling_sig == -1,
        t.signal.backup is None,
        !t.signal.killed && !t.signal.frozen,
        t.signal.actions.len() == 32,
        forall|i: int|
            0 <= i < 32 ==> (#[trigger] t.signal.actions[i]).handler == 0
                && t.signal.actions[i].mask.bits == 40,
        t.heap_bottom == user_stack_top(b) as usize,
        t.program_brk == t.heap_bottom,
        t.base_size == t.heap_bottom,
        t.stride == 0,
        t.pass * 16 == 65536,
        !o.pids.in_use(t.pid) && n.pids.in_use(t.pid),
        !o.kstacks.in_use(t.kernel_stack) && n.kstacks.in_use(t.kernel_stack),
        t.task_cx.ra == o.trap_return,
        t.task_cx.sp == stack_top(t.kernel_stack as int) as usize,
        t.task_cx.s.len() == 12,
        forall|i: int| 0 <= i < 12 ==> #[trigger] t.task_cx.s[i] == 0,
{
    lemma_allocated(o.pids);
    lemma_allocated(o.kstacks);
}

/// The context with which a program starts: at its entry point, in user mode, with the stack
/// pointer in x2 and zero in all other registers. All bits of `sstatus` but the one that says
/// where the trap came from (bit 8) are as they were.
pub proof fn law_first_context(
    entry: usize,
    sp: usize,
    kernel_satp: usize,
    kernel_sp: usize,
    trap_handler: usize,
    sstatus: usize,
)
    ensures
        ({
            let cx = initial_context(entry, sp, kernel_satp, kernel_sp, trap_handler, sstatus);
            &&& cx.sepc == entry
            &&& cx.x.len() == 32
            &&& cx.x[2] == sp
            &&& forall|i: int| 0 <= i < 32 && i != 2 ==> #[trigger] cx.x[i] == 0
            &&& cx.sstatus & 0x100 == 0
            &&& cx.sstatus | 0x100 == sstatus | 0x100
            &&& cx.kernel_satp == kernel_satp
            &&& cx.kernel_sp == kernel_sp
            &&& cx.trap_handler == trap_handler
        }),
{
    assert((sstatus & !0x100usize) & 0x100 == 0 && (sstatus & !0x100usize) | 0x100 == sstatus
        | 0x100) by (bit_vector);
}

/// A process that is given another program stays the same process: its number, its family, its
/// descriptors, its signals, its heap bounds and its place in the schedule do not change.
pub proof fn law_exec_keeps(
    b: Seq<u8>,
    args: Seq<Seq<u8>>,
    t: TaskModel,
    t2: TaskModel,
    o: MachineModel,
    n: MachineModel,
    m1: MemoryModel,
    sstatus: usize,
)
    requires
        executed(b, args, t, t2, o, n, m1, sstatus),
    ensures
        t2.pid == t.pid,
        t2.kernel_stack == t.kernel_stack,
        t2.base_size == t.base_size,
        t2.task_cx == t.task_cx,
        t2.status == t.status,
        t2.parent == t.parent,
        t2.children == t.children,
        t2.exit_code == t.exit_code,
        t2.fds == t.fds,
        t2.signal == t.signal,
        t2.heap_bottom == t.heap_bottom,
        t2.program_brk == t.program_brk,
        t2.stride == t.stride,
        t2.pass == t.pass,
        n.kspace == o.kspace,
        n.pids == o.pids,
        n.kstacks == o.kstacks,
{
}

/// The context with which another program starts: at its entry point, with the number of its
/// arguments in a0, the address of the pointers to them in a1, a stack pointer below all of
/// them that is divisible by eight, and zero in all other registers.
#[verifier::spinoff_prover]
#[verifier::rlimit(40)]
pub proof fn law_exec_context(
    b: Seq<u8>,
    args: Seq<Seq<u8>>,
    t: TaskModel,
    t2: TaskModel,
    o: MachineModel,
    n: MachineModel,
    m1: MemoryModel,
    sstatus: usize,
)
    requires
        o.wf(),
        o.mem.frames.free_count() > 0,
        holds(t.space, o.mem),
        8 * (args.len() + 1) + args_len(args, args.len() as int) <= user_stack_top(b),
        0 <= args_len(args, args.len() as int),
        user_stack_top(b) <= usize::MAX,
        executed(b, args, t, t2, o, n, m1, sstatus),
    ensures
        ({
            let cx = t2.trap_cx(n.mem);
            let base = user_stack_top(b) - 8 * (args.len() + 1);
            let end = base - args_len(args, args.len() as int);
            &&& cx.sepc == header_of(b).entry_point as usize
            &&& cx.x.len() == 32
            &&& cx.x[10] == args.len()
            &&& cx.x[11] == base
            &&& cx.x[2] % 8 == 0
            &&& end - 8 < cx.x[2] <= end
            &&& forall|i: int|
                0 <= i < 32 && i != 2 && i != 10 && i != 11 ==> #[trigger] cx.x[i] == 0
            &&& cx.sstatus & 0x100 == 0
            &&& cx.kernel_satp == token_of(o.kspace.root)
            &&& cx.kernel_sp == stack_top(t.kernel_stack as int) as usize
            &&& cx.trap_handler == o.trap_handler
        }),
{
    let base = argv_start(user_stack_top(b), args);
    let sp = base - args_len(args, args.len() as int);
    let spu = (sp - sp % 8) as usize;
    law_first_context(
        header_of(b).entry_point as usize,
        spu,
        token_of(o.kspace.root),
        stack_top(t.kernel_stack as int) as usize,
        o.trap_handler,
        sstatus,
    );
    let cx = initial_context(
        header_of(b).entry_point as usize,
        spu,
        token_of(o.kspace.root),
        stack_top(t.kernel_stack as int) as usize,
        o.trap_handler,
        sstatus,
    ).with_x(10, args.len() as usize).with_x(11, base as usize);
    assert(t2.trap_cx(n.mem) == cx) by {
        let p = t2.trap_cx_ppn as int;
        let m2 = with_args(t2.space, m1, base, args, args.len() as int);
        lemma_trap_frame(b, t, t2.space, o, m1);
        assert(m1.in_use(p) && !owns(t.space, p));
        assert(n.mem.in_use(p));
        assert(n.mem.page(p) == with_context(m2.page(p), cx));
        law_context_kept(m2.page(p), cx);
    }
}

/// The frame of the trap context of a program that was loaded is in use, and belonged to no
/// address space before.
#[verifier::spinoff_prover]
#[verifier::rlimit(60)]
proof fn lemma_trap_frame(
    b: Seq<u8>,
    t: TaskModel,
    s: SpaceModel,
    o: MachineModel,
    m1: MemoryModel,
)
    requires
        o.wf(),
        o.mem.frames.free_count() > 0,
        holds(t.space, o.mem),
        built(program_plan(b), s, o.mem, m1, o.strampoline),
    ensures
        m1.in_use(s.table[trap_page()].ppn.0 as int),
        !owns(t.space, s.table[trap_page()].ppn.0 as int),
{
    let p = s.table[trap_page()].ppn.0 as int;
    lemma_program(b, s, o.mem, m1, o.strampoline);
    lemma_holds(s, m1);
    assert(owns(s, p));
    assert(!o.mem.in_use(p));
}

/// Where the arguments of a program lie: the pointers to them right below the top of the stack,
/// the first argument right below the pointers, and each further one right below the one
/// before, with a zero byte behind each.
pub proof fn law_arg_places(top: int, args: Seq<Seq<u8>>, i: int)
    requires
        0 <= i < args.len(),
    ensures
        argv_start(top, args) == top - 8 * args.len() - 8,
        arg_start(argv_start(top, args), args, i) + args[i].len() + 1 == if i == 0 {
            argv_start(top, args)
        } else {
            arg_start(argv_start(top, args), args, i - 1)
        },
{
    reveal_with_fuel(args_len, 2);
}

/// A process that exits leaves its exit code to its parent and gives all else up: its
/// descriptors and its children, whose parent is then the first process, which lists them
/// behind its own. No other process changes, and none runs.
#[verifier::spinoff_prover]
#[verifier::rlimit(60)]
pub proof fn law_exit(k: KernelModel, exit_code: i32, m2: MemoryModel)
    requires
        k.wf(),
        k.runs(),
        k.at() != 0,
    ensures
        ({
            let k2 = exited(k, exit_code, m2);
            let t = k.task();
            let z = k2.tasks[k.at()];
            &&& k2.tasks.len() == k.tasks.len()
            &&& z.status == TaskStatus::Zombie
            &&& z.exit_code == exit_code
            &&& z.pid == t.pid
            &&& z.parent == t.parent
            &&& z.kernel_stack == t.kernel_stack
            &&& z.fds.len() == 0
            &&& z.children.len() == 0
            &&& z.space.areas.len() == 0
            &&& z.space.root == t.space.root
            &&& k2.tasks[0].children == k.tasks[0].children + t.children
            &&& forall|i: int|
                0 <= i < k.tasks.len() && i != k.at() && t.children.contains(
                    (#[trigger] k.tasks[i]).pid,
                ) ==> k2.tasks[i].parent == Some(0usize)
            &&& forall|i: int|
                0 <= i < k.tasks.len() && i != k.at() ==> #[trigger] k2.tasks[i] == (TaskModel {
                    parent: k2.tasks[i].parent,
                    children: k2.tasks[i].children,
                    ..k.tasks[i]
                })
            &&& forall|i: int|
                0 <= i < k.tasks.len() && i != k.at() && !t.children.contains(
                    (#[trigger] k.tasks[i]).pid,
                ) ==> k2.tasks[i].parent == k.tasks[i].parent
            &&& forall|i: int|
                0 < i < k.tasks.len() && i != k.at() ==> (#[trigger] k2.tasks[i]).children
                    == k.tasks[i].children
            &&& k2.current is None
            &&& k2.ready == k.ready
            &&& k2.inodes == k.inodes
            &&& k2.pipes == k.pipes
        }),
{
    lemma_current(k);
}

/// A process that is chosen to run: it is taken out of the queue, runs, and has gone further by
/// its step. No other process changes, and the others keep their order in the queue.
#[verifier::spinoff_prover]
#[verifier::rlimit(60)]
pub proof fn law_chosen_runs(k: KernelModel, j: int)
    requires
        k.wf(),
        0 <= j < k.ready.len(),
    ensures
        ({
            let k2 = running(k, j);
            let pid = k.ready[j];
            &&& k2.current == Some(pid)
            &&& k2.ready == k.ready.take(j) + k.ready.skip(j + 1)
            &&& k2.tasks.len() == k.tasks.len()
            &&& forall|i: int|
                0 <= i < k.tasks.len() && (#[trigger] k.tasks[i]).pid != pid ==> k2.tasks[i]
                    == k.tasks[i]
            &&& forall|i: int|
                0 <= i < k.tasks.len() && (#[trigger] k.tasks[i]).pid == pid ==> k2.tasks[i] == (
                TaskModel {
                    status: TaskStatus::Running,
                    stride: (k.tasks[i].stride + k.tasks[i].pass) as usize,
                    ..k.tasks[i]
                })
            &&& k2.machine == k.machine
            &&& k2.inodes == k.inodes
            &&& k2.pipes == k.pipes
        }),
{
    reveal(super::kernel::sched_ok);
    reveal(super::kernel::ids_ok);
    let pid = k.ready[j];
    lemma_index_from(k.tasks, pid, 0);
    let k2 = running(k, j);
    assert(k2.ready =~= k.ready.take(j) + k.ready.skip(j + 1));
    assert forall|i: int| 0 <= i < k.tasks.len() && (#[trigger] k.tasks[i]).pid == pid implies i
        == index_of(k.tasks, pid) by {
        lemma_index_of(k.tasks, i);
    }
}

/// A process that makes way for others is ready to run again and stands at the end of the
/// queue. No other process changes, and none runs.
#[verifier::spinoff_prover]
#[verifier::rlimit(60)]
pub proof fn law_suspend(k: KernelModel)
    requires
        k.wf(),
        k.runs(),
    ensures
        ({
            let k2 = suspended(k);
            &&& k2.current is None
            &&& k2.ready == k.ready.push(k.task().pid)
            &&& k2.tasks.len() == k.tasks.len()
            &&& k2.tasks[k.at()] == (TaskModel { status: TaskStatus::Ready, ..k.task() })
            &&& forall|i: int|
                0 <= i < k.tasks.len() && i != k.at() ==> #[trigger] k2.tasks[i] == k.tasks[i]
            &&& k2.machine == k.machine
            &&& k2.inodes == k.inodes
            &&& k2.pipes == k.pipes
        }),
{
    lemma_current(k);
}

/// The pages of the heap are those up to the program break. Where it was moved up, the pages
/// that come are mapped like the others of the heap, in frames that were not in use, and hold
/// zero bytes. Where it was moved down, the pages that go are mapped no more. All other pages
/// are mapped as they were.
#[verifier::spinoff_prover]
#[verifier::rlimit(60)]
pub proof fn law_heap_pages(
    t: TaskModel,
    t2: TaskModel,
    m: MemoryModel,
    m2: MemoryModel,
    brk: int,
    k: usize,
)
    requires
        t.space_ok(m),
        heap_ok(t),
        can_move_brk(t, m, brk - t.program_brk),
        t.heap_bottom <= brk,
        find_start(t.space.areas, floor_of(VirtAddr(t.heap_bottom)), 0) < t.space.areas.len(),
        brk_moved(t, t2, m, m2, brk),
    ensures
        ({
            let before = (t.program_brk + 4095) / 4096;
            let after = (brk + 4095) / 4096;
            let h = t.heap_bottom / 4096;
            let e = t2.space.table[k];
            let p = e.ppn.0 as int;
            &&& t2.program_brk == brk
            &&& t2.heap_bottom == t.heap_bottom
            &&& before <= k < after ==> {
                &&& t2.space.table.contains_key(k)
                &&& h < before ==> e.flags == t.space.table[h].flags
                &&& e.flags == t.space.areas[find_start(
                    t.space.areas,
                    t.heap_bottom as int / 4096,
                    0,
                )].perm | PTE_V
                &&& !m.in_use(p) && m2.in_use(p)
                &&& forall|j: int| 0 <= j < 4096 ==> #[trigger] m2.page(p)[j] == 0
            }
            &&& after <= k < before ==> !t2.space.table.contains_key(k)
            &&& k < before && k < after || k >= before && k >= after ==> {
                &&& t2.space.table.contains_key(k) <==> t.space.table.contains_key(k)
                &&& t2.space.table.contains_key(k) ==> e == t.space.table[k]
            }
        }),
{
    let s = t.space;
    let v = floor_of(VirtAddr(t.heap_bottom));
    let i = find_start(s.areas, v, 0);
    let h = t.heap_bottom / 4096;
    let before = (t.program_brk + 4095) / 4096;
    let after = (brk + 4095) / 4096;
    lemma_find_start(s.areas, v, 0);
    lemma_area(s, m, i);
    let a = s.areas[i];
    assert(a.map_type == MapType::Framed);
    if h < before {
        assert(a.covers(h as int));
        assert(s.table.contains_key(h));
    }
    if before <= k < after {
        let a2 = t2.space.areas[i];
        assert(t2.space.table.contains_key(k));
        assert(t2.space.table[k] == (AreaModel { r: a.r, ..a2 }).entry(k));
        assert(t2.space.table[k].ppn.0 == a2.frames[k].ppn.0);
    }
}

/// The context with which the first program of a process starts: at its entry point, in user
/// mode, with the top of the user stack as its stack pointer and zero in all other registers.
#[verifier::spinoff_prover]
#[verifier::rlimit(60)]
pub proof fn law_started_context(
    b: Seq<u8>,
    t: TaskModel,
    o: MachineModel,
    n: MachineModel,
    m1: MemoryModel,
    m2: MemoryModel,
    sstatus: usize,
)
    requires
        o.wf(),
        o.mem.frames.free_count() > 0,
        started(b, t, o, n, m1, m2, sstatus),
    ensures
        ({
            let cx = t.trap_cx(n.mem);
            &&& cx.sepc == header_of(b).entry_point as usize
            &&& cx.x.len() == 32
            &&& cx.x[2] == user_stack_top(b) as usize
            &&& forall|i: int| 0 <= i < 32 && i != 2 ==> #[trigger] cx.x[i] == 0
            &&& cx.sstatus & 0x100 == 0
            &&& cx.sstatus | 0x100 == sstatus | 0x100
            &&& cx.kernel_satp == token_of(o.kspace.root)
            &&& cx.kernel_sp == stack_top(t.kernel_stack as int) as usize
            &&& cx.trap_handler == o.trap_handler
        }),
{
    let p = t.trap_cx_ppn as int;
    let top = stack_top(o.kstacks.next() as int) as usize;
    let entry = header_of(b).entry_point as usize;
    let sp = user_stack_top(b) as usize;
    let satp = token_of(o.kspace.root);
    let cx = initial_context(entry, sp, satp, top, o.trap_handler, sstatus);
    law_first_context(entry, sp, satp, top, o.trap_handler, sstatus);
    lemma_program(b, t.space, o.mem, m1, o.strampoline);
    lemma_holds(t.space, m1);
    assert(owns(t.space, p));
    assert(m1.in_use(p));
    assert(m2.in_use(p));
    law_context_kept(m2.page(p), cx);
    assert(n.mem.page(p) == with_context(m2.page(p), cx));
}

} // verus!
