//! Types related to task management & Functions for completely changing TCB
use super::context::{start_at, TaskContext, TaskCxModel};
use super::id::{pid_alloc, stack_area, stack_top, KernelStack, PidHandle};
use super::machine::{Machine, MachineModel};
use super::signal::{
    default_action, no_signals, SignalActions, SignalFlags, SignalModel, SignalState,
};
use crate::config::{PAGE_SIZE, TRAMPOLINE, TRAP_CONTEXT_BASE};
use crate::fs::pipe::Pipe;
use crate::mm::address::{low, PhysPageNum, VirtAddr, PA_SPACE, VA_SPACE};
use crate::mm::elf::header_of;
use crate::mm::frame_allocator::{zero_page, FrameMemory, MemoryModel};
use crate::mm::load::{
    end_page, framed, loadable, loads, program_plan, user_stack_bottom, user_stack_top,
};
use crate::mm::map_area::{kept, pages_mapped, pages_unmapped, AreaModel, MapType, R, U, W};
use crate::mm::memory_set::{
    area_added, ceil_of, copied, find_start, floor_of, lemma_find_start, total_pages, MemorySet,
};
use crate::mm::owner::{
    all_framed, apart, born, changed_only, holds, in_areas, lemma_built_born, lemma_copied_born,
    lemma_extended_only, lemma_holds, lemma_kept_same, lemma_page_only, lemma_still_wf,
    lemma_unmapped_only, owns, trampoline_outside,
};
use crate::mm::page_table::token_of;
use crate::mm::plan::{built, lemma_plan_ok, plan_frames, planned_areas};
use crate::mm::space::{covered, lemma_area, pages_free, trampoline_page, SpaceModel};
use crate::mm::user::{frame_of, page_of, reachable, user_byte};
use crate::trap::context::{
    context_in, initial_context, law_context_kept, with_context, TrapContext, TrapModel,
};
use vstd::prelude::*;

verus! {

/// The larger the constant, the finer the shares of the processor: a process with the
/// priority `p` passes `BIG_STRIDE / p`.
pub const BIG_STRIDE: usize = 65536;

/// The priority of a process that was given none.
pub const DEFAULT_PRIORITY: usize = 16;

/// How far a process of the default priority goes each time it runs.
pub const DEFAULT_PASS: usize = 4096;

/// task status: UnInit, Ready, Running, Exited
#[derive(Copy, Clone, PartialEq, Eq, Debug, Structural)]
pub enum TaskStatus {
    /// uninitialized
    UnInit,
    /// ready to run
    Ready,
    /// running
    Running,
    /// exited
    Zombie,
}

/// What a file descriptor leads to. Descriptors of one or more processes can lead to the
/// same open file or pipe.
#[derive(Copy, Clone, PartialEq, Eq, Debug, Structural)]
pub enum FileHandle {
    Stdin,
    Stdout,
    /// The open file with the given number.
    Inode(usize),
    /// One end of a pipe.
    Pipe(Pipe),
}

/// Task control block structure
///
/// Directly save the contents that will not change during running
pub struct TaskControlBlock {
    /// Process identifier
    pub pid: PidHandle,
    /// Kernel stack corresponding to PID
    pub kernel_stack: KernelStack,
    pub inner: TaskControlBlockInner,
}

/// What changes of a task while it runs.
pub struct TaskControlBlockInner {
    /// The physical page number of the frame where the trap context is placed
    pub trap_cx_ppn: PhysPageNum,
    /// Application data can only appear in areas
    /// where the application address space is lower than base_size
    pub base_size: usize,
    /// Save task context
    pub task_cx: TaskContext,
    /// Maintain the execution status of the current process
    pub task_status: TaskStatus,
    /// Application address space
    pub memory_set: MemorySet,
    /// Parent process of the current process.
    pub parent: Option<usize>,
    /// A vector containing the PIDs of all child processes of the current process
    pub children: Vec<usize>,
    /// It is set when active exit or execution error occurs
    pub exit_code: i32,
    pub fd_table: Vec<Option<FileHandle>>,
    pub signal: SignalState,
    /// Heap bottom
    pub heap_bottom: usize,
    /// Program break
    pub program_brk: usize,
    /// How far the process has gone; the one that has gone least runs next.
    pub stride: usize,
    /// How far it goes each time it runs.
    pub pass: usize,
}

/// The values of a [`TaskControlBlock`].
#[verifier::ext_equal]
pub struct TaskModel {
    pub pid: usize,
    pub kernel_stack: usize,
    pub trap_cx_ppn: usize,
    pub base_size: usize,
    pub task_cx: TaskCxModel,
    pub status: TaskStatus,
    pub space: SpaceModel,
    pub parent: Option<usize>,
    pub children: Seq<usize>,
    pub exit_code: i32,
    pub fds: Seq<Option<FileHandle>>,
    pub signal: SignalModel,
    pub heap_bottom: usize,
    pub program_brk: usize,
    pub stride: usize,
    pub pass: usize,
}

impl View for TaskControlBlock {
    type V = TaskModel;

    open spec fn view(&self) -> TaskModel {
        TaskModel {
            pid: self.pid.0,
            kernel_stack: self.kernel_stack.0,
            trap_cx_ppn: self.inner.trap_cx_ppn.0,
            base_size: self.inner.base_size,
            task_cx: self.inner.task_cx@,
            status: self.inner.task_status,
            space: self.inner.memory_set@,
            parent: self.inner.parent,
            children: self.inner.children@,
            exit_code: self.inner.exit_code,
            fds: self.inner.fd_table@,
            signal: self.inner.signal@,
            heap_bottom: self.inner.heap_bottom,
            program_brk: self.inner.program_brk,
            stride: self.inner.stride,
            pass: self.inner.pass,
        }
    }
}

/// The page of the trap context.
pub open spec fn trap_page() -> usize {
    (low(TRAP_CONTEXT_BASE, VA_SPACE) / PAGE_SIZE) as usize
}

impl TaskModel {
    /// The process has an address space, with its trap context in it.
    pub open spec fn space_ok(self, m: MemoryModel) -> bool {
        &&& self.space.wf(m)
        &&& all_framed(self.space)
        &&& trampoline_outside(self.space, m)
        &&& self.space.table.contains_key(trap_page())
        &&& self.space.table[trap_page()].ppn.0 == self.trap_cx_ppn
        &&& owns(self.space, self.trap_cx_ppn as int)
    }

    /// The process is consistent with the memory. One that has exited has only the root
    /// of its page table left, and no children.
    pub open spec fn wf(self, m: MemoryModel) -> bool {
        &&& self.signal.wf()
        &&& if self.status == TaskStatus::Zombie {
            &&& self.space.areas == Seq::<AreaModel>::empty()
            &&& m.in_use(self.space.root)
            &&& self.children == Seq::<usize>::empty()
        } else {
            self.space_ok(m)
        }
    }

    /// The trap context of the process.
    pub open spec fn trap_cx(self, m: MemoryModel) -> TrapModel {
        context_in(m.page(self.trap_cx_ppn as int))
    }
}

/// The frames of a consistent process are in use.
pub proof fn lemma_task_holds(t: TaskModel, m: MemoryModel)
    requires
        t.wf(m),
    ensures
        holds(t.space, m),
{
    if t.status != TaskStatus::Zombie {
        lemma_holds(t.space, m);
    }
}

/// A process stays consistent as long as its frames are in use.
pub proof fn lemma_task_still_wf(t: TaskModel, m: MemoryModel, m2: MemoryModel)
    requires
        t.wf(m),
        holds(t.space, m2),
        m2.start == m.start,
    ensures
        t.wf(m2),
{
    if t.status != TaskStatus::Zombie {
        lemma_still_wf(t.space, m, m2);
    } else {
        assert(owns(t.space, t.space.root));
    }
}

/// A page that is mapped lies in a frame of the address space.
pub proof fn lemma_entry_owned(s: SpaceModel, m: MemoryModel, k: usize)
    requires
        s.wf(m),
        all_framed(s),
        s.table.contains_key(k),
        k != trampoline_page(),
    ensures
        owns(s, s.table[k].ppn.0 as int),
        m.in_use(s.table[k].ppn.0 as int),
{
    lemma_holds(s, m);
    reveal(SpaceModel::wf);
    let i = choose|i: int| 0 <= i < s.areas.len() && (#[trigger] s.areas[i]).covers(k as int);
    assert(s.areas[i].map_type == MapType::Framed);
    assert(s.areas[i].covers(k as int));
    assert(s.areas[i].frames.contains_key(k));
}

/// The page of the trap context is the one before the trampoline.
pub proof fn lemma_trap_page()
    ensures
        trap_page() + 1 == trampoline_page(),
        framed(TRAP_CONTEXT_BASE as int, TRAMPOLINE as int, 0).area.covers(trap_page() as int),
{
    if usize::MAX == 0xffff_ffff {
        assert(low(TRAMPOLINE, VA_SPACE) == 0xffff_f000usize);
        assert(low(TRAP_CONTEXT_BASE, VA_SPACE) == 0xffff_e000usize);
    } else {
        assert(low(TRAMPOLINE, VA_SPACE) == 0x7f_ffff_f000);
        assert(low(TRAP_CONTEXT_BASE, VA_SPACE) == 0x7f_ffff_e000);
    }
}

/// The segments of a program have frames.
proof fn lemma_loads_framed(b: Seq<u8>, n: int)
    ensures
        forall|i: int|
            0 <= i < loads(b, n).len() ==> (#[trigger] loads(b, n)[i]).area.map_type
                == MapType::Framed,
    decreases n,
{
    if n > 0 {
        lemma_loads_framed(b, n - 1);
    }
}

/// What a program that was loaded has: frames for all of its pages, the trampoline, and
/// the page of the trap context.
pub proof fn lemma_program(b: Seq<u8>, s: SpaceModel, m: MemoryModel, m2: MemoryModel, t: usize)
    requires
        m.wf(),
        m.frames.free_count() > 0,
        built(program_plan(b), s, m, m2, t),
        low(t, PA_SPACE) / PAGE_SIZE < m.start,
    ensures
        born(s, m, m2),
        s.wf(m2),
        m2.wf(),
        kept(m, m2),
        all_framed(s),
        trampoline_outside(s, m2),
        s.table.contains_key(trap_page()),
        owns(s, s.table[trap_page()].ppn.0 as int),
{
    let plan = program_plan(b);
    let n = header_of(b).ph_count as int;
    lemma_loads_framed(b, n);
    assert forall|i: int| 0 <= i < plan.len() implies (#[trigger] plan[i]).area.map_type
        == MapType::Framed by {
        if i < loads(b, n).len() {
            assert(plan[i] == loads(b, n)[i]);
        }
    }
    lemma_built_born(plan, s, m, m2, t);
    lemma_trap_page();
    let last = plan.len() - 1;
    assert(planned_areas(plan)[last].covers(trap_page() as int));
    assert(all_framed(s)) by {
        reveal(built);
        assert forall|i: int| 0 <= i < s.areas.len() implies (#[trigger] s.areas[i]).map_type
            == MapType::Framed by {
            assert(plan[i].area.map_type == MapType::Framed);
        }
    }
    assert(s.table.contains_key(trap_page())) by {
        reveal(built);
    }
    assert(trampoline_outside(s, m2)) by {
        reveal(built);
    }
    lemma_entry_owned(s, m2, trap_page());
}

/// A kernel stack was mapped after a new address space was made, and a page of the new
/// space was written: the two have no frame in common, and all else is as it was.
pub proof fn lemma_new_task_memory(
    s: SpaceModel,
    k: SpaceModel,
    k2: SpaceModel,
    m: MemoryModel,
    m1: MemoryModel,
    m2: MemoryModel,
    p: int,
    bytes: Seq<u8>,
)
    requires
        k.wf(m),
        s.wf(m1),
        born(s, m, m1),
        changed_only(k, k2, m1, m2),
        kept(m1, m2),
        k2.wf(m2),
        m2.wf(),
        owns(s, p),
        bytes.len() == PAGE_SIZE,
    ensures
        ({
            let m3 = m2.with_page(p, bytes);
            &&& m3.wf()
            &&& s.wf(m3)
            &&& k2.wf(m3)
            &&& born(s, m, m3)
            &&& changed_only(k, k2, m, m3)
            &&& apart(s, k2)
            &&& apart(k2, s)
            &&& m3.page(p) == bytes
            &&& m3.start == m.start
        }),
{
    let m3 = m2.with_page(p, bytes);
    lemma_holds(k, m);
    lemma_holds(s, m1);
    lemma_holds(k2, m2);
    assert forall|q: int| #[trigger] owns(s, q) implies m2.in_use(q) by {
        assert(m1.in_use(q));
    }
    lemma_page_only(s, m2, p, bytes);
    assert forall|q: int| #[trigger] owns(k2, q) implies m3.in_use(q) && !owns(s, q) && (owns(k, q)
        || !m.in_use(q)) by {
        assert(m2.in_use(q));
        if owns(k, q) {
            assert(m.in_use(q));
            assert(!owns(s, q));
        } else {
            assert(!m1.in_use(q));
            assert(!owns(s, q));
            if m.in_use(q) {
                assert(m1.in_use(q));
            }
        }
    }
    assert(!m.in_use(p));
    assert forall|q: int| #[trigger] m.in_use(q) implies m3.in_use(q) && m3.page(q) == m.page(q) by {
        assert(m1.in_use(q) && m1.page(q) == m.page(q));
        assert(m2.in_use(q) && m2.page(q) == m1.page(q));
        assert(q != p);
    }
    assert forall|q: int| #[trigger] owns(s, q) implies m3.in_use(q) && !m.in_use(q) && !owns(
        k2,
        q,
    ) by {
        assert(m2.in_use(q));
        if owns(k2, q) {
            assert(!owns(s, q));
        }
    }
    lemma_still_wf(s, m1, m3);
    lemma_still_wf(k2, m2, m3);
}

/// The index of the first free descriptor from `i` on, or the number of descriptors if
/// there is none.
pub open spec fn first_free(fds: Seq<Option<FileHandle>>, i: int) -> int
    decreases fds.len() - i,
{
    if i < 0 || i >= fds.len() || fds[i] is None {
        i
    } else {
        first_free(fds, i + 1)
    }
}

/// The descriptors with room for one more.
pub open spec fn with_room(fds: Seq<Option<FileHandle>>) -> Seq<Option<FileHandle>> {
    if first_free(fds, 0) < fds.len() {
        fds
    } else {
        fds.push(None)
    }
}

/// `first_free` stops at the first free descriptor.
pub proof fn lemma_first_free(fds: Seq<Option<FileHandle>>, i: int)
    requires
        0 <= i <= fds.len(),
    ensures
        i <= first_free(fds, i) <= fds.len(),
        first_free(fds, i) < fds.len() ==> fds[first_free(fds, i)] is None,
        forall|j: int| i <= j < first_free(fds, i) ==> fds[j] is Some,
    decreases fds.len() - i,
{
    if i < fds.len() && fds[i] is Some {
        lemma_first_free(fds, i + 1);
    }
}

impl TaskControlBlockInner {
    /// The address of the page table of the process, as the processor wants it.
    pub fn get_user_token(&self) -> (r: usize)
        ensures
            r == token_of(self.memory_set@.root),
    {
        self.memory_set.token()
    }

    /// The trap context of the process, from the frame where it is placed.
    pub fn get_trap_cx(&self, mem: &FrameMemory) -> (r: TrapContext)
        requires
            mem@.wf(),
            mem@.in_use(self.trap_cx_ppn.0 as int),
        ensures
            r@ == context_in(mem@.page(self.trap_cx_ppn.0 as int)),
    {
        TrapContext::load(self.trap_cx_ppn, mem)
    }

    fn get_status(&self) -> (r: TaskStatus)
        ensures
            r == self.task_status,
    {
        self.task_status
    }

    /// Whether the process has exited.
    pub fn is_zombie(&self) -> (r: bool)
        ensures
            r == (self.task_status == TaskStatus::Zombie),
    {
        self.get_status() == TaskStatus::Zombie
    }

    /// Find the smallest file descriptor that is free, or make a new one.
    pub fn alloc_fd(&mut self) -> (r: usize)
        ensures
            r == first_free(old(self).fd_table@, 0),
            r < final(self).fd_table@.len(),
            final(self).fd_table@ == with_room(old(self).fd_table@),
            *final(self) == (TaskControlBlockInner {
                fd_table: final(self).fd_table,
                ..*old(self)
            }),
    {
        proof {
            lemma_first_free(self.fd_table@, 0);
        }
        let ghost fds = self.fd_table@;
        let mut fd: usize = 0;
        while fd < self.fd_table.len()
            invariant
                fd <= fds.len(),
                *self == *old(self),
                fds == self.fd_table@,
                first_free(fds, fd as int) == first_free(fds, 0),
            decreases fds.len() - fd,
        {
            if self.fd_table[fd].is_none() {
                return fd;
            }
            fd += 1;
        }
        self.fd_table.push(None);
        self.fd_table.len() - 1
    }
}

/// A process was made from a program: its address space as the program says, its trap
/// context at the entry point, the three standard descriptors, and no relatives. `m1` is
/// the memory when the address space was built, and `m2` when the kernel stack was mapped.
pub open spec fn started(
    b: Seq<u8>,
    t: TaskModel,
    o: MachineModel,
    n: MachineModel,
    m1: MemoryModel,
    m2: MemoryModel,
    sstatus: usize,
) -> bool {
    let top = stack_top(o.kstacks.next() as int) as usize;
    let p = t.trap_cx_ppn as int;
    let cx = initial_context(
        header_of(b).entry_point as usize,
        user_stack_top(b) as usize,
        token_of(n.kspace.root),
        top,
        o.trap_handler,
        sstatus,
    );
    &&& built(program_plan(b), t.space, o.mem, m1, o.strampoline)
    &&& area_added(o.kspace, n.kspace, m1, m2, stack_area(o.kstacks.next()), Seq::empty())
    &&& n == (MachineModel {
        mem: m2.with_page(p, with_context(m2.page(p), cx)),
        kspace: n.kspace,
        pids: o.pids.allocated(),
        kstacks: o.kstacks.allocated(),
        ..o
    })
    &&& t == (TaskModel {
        pid: o.pids.next(),
        kernel_stack: o.kstacks.next(),
        trap_cx_ppn: t.space.table[trap_page()].ppn.0,
        base_size: user_stack_top(b) as usize,
        task_cx: start_at(o.trap_return, top),
        status: TaskStatus::Ready,
        space: t.space,
        parent: None,
        children: Seq::empty(),
        exit_code: 0,
        fds: seq![Some(FileHandle::Stdin), Some(FileHandle::Stdout), Some(FileHandle::Stdout)],
        signal: no_signals(
            SignalFlags { bits: 0 },
            Seq::new(32, |i: int| default_action()),
        ),
        heap_bottom: user_stack_top(b) as usize,
        program_brk: user_stack_top(b) as usize,
        stride: 0,
        pass: DEFAULT_PASS,
    })
}

/// The process and the kernel have the memory that they need, each its own, and nothing
/// else changed.
pub open spec fn joined_in(t: TaskModel, o: MachineModel, n: MachineModel) -> bool {
    &&& n.wf()
    &&& t.wf(n.mem)
    &&& born(t.space, o.mem, n.mem)
    &&& changed_only(o.kspace, n.kspace, o.mem, n.mem)
    &&& apart(t.space, n.kspace)
    &&& apart(n.kspace, t.space)
}

impl TaskControlBlock {
    /// Get the address of app's page table
    pub fn get_user_token(&self) -> (r: usize)
        ensures
            r == token_of(self@.space.root),
    {
        self.inner.get_user_token()
    }

    /// get pid of process
    pub fn getpid(&self) -> (r: usize)
        ensures
            r == self@.pid,
    {
        self.pid.0
    }

    /// Create a new process
    ///
    /// At present, it is only used for the creation of initproc
    pub fn new(elf_data: &[u8], sstatus: usize, machine: &mut Machine) -> (r: Self)
        requires
            old(machine)@.wf(),
            old(machine)@.can_start(),
            loadable(elf_data@),
            plan_frames(program_plan(elf_data@)) + 3 <= old(machine)@.mem.frames.free_count(),
        ensures
            exists|m1: MemoryModel, m2: MemoryModel| #[trigger]
                started(elf_data@, r@, old(machine)@, final(machine)@, m1, m2, sstatus),
            joined_in(r@, old(machine)@, final(machine)@),
    {
        let ghost o = machine@;
        let ghost b = elf_data@;
        // memory_set with elf program headers/trampoline/trap context/user stack
        let (memory_set, user_sp, entry_point) = MemorySet::from_elf(
            elf_data,
            machine.strampoline,
            &mut machine.mem,
        );
        let ghost m1 = machine@.mem;
        let ghost s = memory_set@;
        proof {
            lemma_plan_ok(program_plan(b));
            lemma_program(b, s, o.mem, m1, o.strampoline);
            lemma_holds(o.kspace, o.mem);
            lemma_kept_same(o.kspace, o.mem, m1);
            lemma_still_wf(o.kspace, o.mem, m1);
            assert(m1.frames.free_count() >= 2) by {
                reveal(built);
            }
            lemma_trap_page();
        }
        let trap_cx_ppn: PhysPageNum = memory_set.translate(
            VirtAddr::from(TRAP_CONTEXT_BASE).floor(),
        ).unwrap().ppn();
        // alloc a pid and a kernel stack in kernel space
        let pid_handle: PidHandle = pid_alloc(&mut machine.pids);
        let kernel_stack: KernelStack = machine.alloc_stack();
        let ghost m2 = machine@.mem;
        proof {
            super::id::lemma_stack(kernel_stack.0);
        }
        let kernel_stack_top: usize = kernel_stack.get_top();
        let mut fd_table: Vec<Option<FileHandle>> = Vec::new();
        // 0 -> stdin
        fd_table.push(Some(FileHandle::Stdin));
        // 1 -> stdout
        fd_table.push(Some(FileHandle::Stdout));
        // 2 -> stderr
        fd_table.push(Some(FileHandle::Stdout));
        let task_control_block: TaskControlBlock = TaskControlBlock {
            pid: pid_handle,
            kernel_stack,
            inner: TaskControlBlockInner {
                trap_cx_ppn,
                base_size: user_sp,
                task_cx: TaskContext::goto_restore(machine.trap_return, kernel_stack_top),
                task_status: TaskStatus::Ready,
                memory_set,
                parent: None,
                children: Vec::new(),
                exit_code: 0,
                fd_table,
                signal: SignalState::new(SignalFlags::empty(), SignalActions::new()),
                heap_bottom: user_sp,
                program_brk: user_sp,
                stride: 0,
                pass: BIG_STRIDE / DEFAULT_PRIORITY,
            },
        };
        // prepare TrapContext in user space
        let trap_cx: TrapContext = TrapContext::app_init_context(
            entry_point,
            user_sp,
            machine.kernel_space.token(),
            kernel_stack_top,
            machine.trap_handler,
            sstatus,
        );
        let ghost p = trap_cx_ppn.0 as int;
        let ghost bytes = with_context(m2.page(p), trap_cx@);
        proof {
            lemma_new_task_memory(s, o.kspace, machine@.kspace, o.mem, m1, m2, p, bytes);
            assert(m1.in_use(p));
            assert(m2.in_use(p));
        }
        trap_cx.store(trap_cx_ppn, &mut machine.mem);
        proof {
            let t = task_control_block@;
            assert(t.fds =~= seq![
                Some(FileHandle::Stdin),
                Some(FileHandle::Stdout),
                Some(FileHandle::Stdout),
            ]);
            assert(t.children =~= Seq::<usize>::empty());
            assert(trampoline_outside(s, machine@.mem));
            assert(started(b, t, o, machine@, m1, m2, sstatus));
        }
        task_control_block
    }
}

/// A process was copied: the copy has the same memory in frames of its own, the same
/// descriptors, mask and actions, a number and a kernel stack of its own, and starts where
/// the process is. `m1` is the memory when the address space was copied, and `m2` when the
/// kernel stack was mapped.
pub open spec fn forked(
    t: TaskModel,
    c: TaskModel,
    o: MachineModel,
    n: MachineModel,
    m1: MemoryModel,
    m2: MemoryModel,
) -> bool {
    let top = stack_top(o.kstacks.next() as int) as usize;
    let p = c.trap_cx_ppn as int;
    let cx = TrapModel { kernel_sp: top, ..context_in(m2.page(p)) };
    &&& copied(t.space, c.space, o.mem, m1, t.space.areas.len() as int, o.strampoline)
    &&& kept(o.mem, m1)
    &&& c.space.root == o.mem.frames.next()
    &&& m1.frames.free_count() == o.mem.frames.free_count() - 1 - total_pages(t.space.areas)
    &&& area_added(o.kspace, n.kspace, m1, m2, stack_area(o.kstacks.next()), Seq::empty())
    &&& n == (MachineModel {
        mem: m2.with_page(p, with_context(m2.page(p), cx)),
        kspace: n.kspace,
        pids: o.pids.allocated(),
        kstacks: o.kstacks.allocated(),
        ..o
    })
    &&& c == (TaskModel {
        pid: o.pids.next(),
        kernel_stack: o.kstacks.next(),
        trap_cx_ppn: c.space.table[trap_page()].ppn.0,
        task_cx: start_at(o.trap_return, top),
        status: TaskStatus::Ready,
        space: c.space,
        parent: Some(t.pid),
        children: Seq::empty(),
        exit_code: 0,
        signal: no_signals(t.signal.signal_mask, t.signal.actions),
        ..t
    })
}

/// What the copy of an address space has: frames for all of its pages, the trampoline, and
/// the page of the trap context.
pub proof fn lemma_copy(
    t: TaskModel,
    c: SpaceModel,
    m: MemoryModel,
    m1: MemoryModel,
    strampoline: usize,
)
    requires
        m.wf(),
        m.frames.free_count() > 0,
        t.space_ok(m),
        copied(t.space, c, m, m1, t.space.areas.len() as int, strampoline),
        kept(m, m1),
        c.root == m.frames.next(),
        low(strampoline, PA_SPACE) / PAGE_SIZE < m.start,
    ensures
        born(c, m, m1),
        c.wf(m1),
        all_framed(c),
        trampoline_outside(c, m1),
        c.table.contains_key(trap_page()),
        owns(c, c.table[trap_page()].ppn.0 as int),
{
    let s = t.space;
    lemma_copied_born(s, c, m, m1, strampoline);
    lemma_trap_page();
    assert(all_framed(c)) by {
        assert forall|i: int| 0 <= i < c.areas.len() implies (#[trigger] c.areas[i]).map_type
            == MapType::Framed by {
            assert(c.areas[i].map_type == s.areas[i].map_type);
        }
    }
    assert(c.table.contains_key(trap_page())) by {
        reveal(SpaceModel::wf);
        assert(s.table.contains_key(trap_page()));
        assert(covered(s.areas, trap_page() as int));
        assert(s.areas.take(s.areas.len() as int) =~= s.areas);
    }
    lemma_entry_owned(c, m1, trap_page());
}

/// The trap context of the copy of a process is that of the process, but for the kernel
/// stack.
#[verifier::spinoff_prover]
#[verifier::rlimit(60)]
pub proof fn law_fork_context(
    t: TaskModel,
    c: TaskModel,
    o: MachineModel,
    n: MachineModel,
    m1: MemoryModel,
    m2: MemoryModel,
)
    requires
        o.wf(),
        o.mem.frames.free_count() > 0,
        t.space_ok(o.mem),
        forked(t, c, o, n, m1, m2),
    ensures
        c.trap_cx(n.mem) == (TrapModel {
            kernel_sp: stack_top(c.kernel_stack as int) as usize,
            ..t.trap_cx(o.mem)
        }),
{
    let p = c.trap_cx_ppn as int;
    let q = t.trap_cx_ppn as int;
    lemma_copy(t, c.space, o.mem, m1, o.strampoline);
    lemma_holds(c.space, m1);
    lemma_trap_page();
    assert(m1.page(p) == o.mem.page(q)) by {
        reveal(SpaceModel::wf);
        let k = trap_page();
        assert(c.space.table.contains_key(k));
        let i = choose|i: int|
            0 <= i < c.space.areas.len() && (#[trigger] c.space.areas[i]).covers(k as int);
        assert(c.space.areas[i].covers(k as int));
    }
    assert(m1.in_use(p));
    assert(m2.in_use(p) && m2.page(p) == m1.page(p));
    let cx = TrapModel {
        kernel_sp: stack_top(o.kstacks.next() as int) as usize,
        ..context_in(m2.page(p))
    };
    law_context_kept(m2.page(p), cx);
    assert(n.mem.page(p) == with_context(m2.page(p), cx));
}

/// Copying a process copies its memory: at each of its addresses the copy has the same
/// byte, at another place, and the process has what it had. The page of the trap context
/// is the exception, for the kernel stack is another one.
pub proof fn law_fork_memory(
    t: TaskModel,
    c: TaskModel,
    o: MachineModel,
    n: MachineModel,
    m1: MemoryModel,
    m2: MemoryModel,
    v: int,
)
    requires
        o.wf(),
        o.mem.frames.free_count() > 0,
        t.space_ok(o.mem),
        forked(t, c, o, n, m1, m2),
        reachable(t.space, o.mem, v),
        page_of(v) != trap_page(),
    ensures
        reachable(c.space, n.mem, v),
        user_byte(c.space, n.mem, v) == user_byte(t.space, o.mem, v),
        frame_of(c.space, v) != frame_of(t.space, v),
        reachable(t.space, n.mem, v),
        user_byte(t.space, n.mem, v) == user_byte(t.space, o.mem, v),
{
    let k = page_of(v);
    let q = frame_of(t.space, v);
    let trap = c.trap_cx_ppn as int;
    lemma_copy(t, c.space, o.mem, m1, o.strampoline);
    lemma_trap_page();
    let x = frame_of(c.space, v);
    assert(c.space.table.contains_key(k) && k != trampoline_page() && !o.mem.in_use(x)
        && m1.page(x) == o.mem.page(q)) by {
        reveal(SpaceModel::wf);
        assert(covered(t.space.areas, k as int));
        let i = choose|i: int|
            0 <= i < t.space.areas.len() && (#[trigger] t.space.areas[i]).covers(k as int);
        assert(t.space.areas.take(t.space.areas.len() as int) =~= t.space.areas);
        assert(c.space.areas[i].l == t.space.areas[i].l);
        assert(c.space.areas[i].covers(k as int));
    }
    lemma_entry_owned(c.space, m1, k);
    assert(x != trap) by {
        lemma_one_page(c.space, m1, k, trap_page());
    }
    assert(!o.mem.in_use(trap)) by {
        reveal(SpaceModel::wf);
        let i = choose|i: int|
            0 <= i < c.space.areas.len() && (#[trigger] c.space.areas[i]).covers(
                trap_page() as int,
            );
        assert(c.space.areas[i].covers(trap_page() as int));
    }
    assert(m2.in_use(x) && m2.page(x) == m1.page(x));
    assert(m1.in_use(q) && m1.page(q) == o.mem.page(q));
    assert(m2.in_use(q) && m2.page(q) == m1.page(q));
    lemma_entry_owned(c.space, m1, trap_page());
    assert(m2.in_use(trap));
}

/// Two pages of an address space do not lie in the same frame.
pub proof fn lemma_one_page(s: SpaceModel, m: MemoryModel, j: usize, k: usize)
    requires
        s.wf(m),
        all_framed(s),
        s.table.contains_key(j),
        s.table.contains_key(k),
        j != trampoline_page(),
        k != trampoline_page(),
        j != k,
    ensures
        s.table[j].ppn.0 != s.table[k].ppn.0,
{
    reveal(SpaceModel::wf);
    let x = choose|x: int| 0 <= x < s.areas.len() && (#[trigger] s.areas[x]).covers(j as int);
    let y = choose|y: int| 0 <= y < s.areas.len() && (#[trigger] s.areas[y]).covers(k as int);
    assert(s.areas[x].covers(j as int) && s.areas[y].covers(k as int));
    assert(s.areas[x].frames.contains_key(j));
    assert(s.areas[y].frames.contains_key(k));
}

/// The heap of a process: the area that starts at its bottom ends with the program break.
pub open spec fn heap_ok(t: TaskModel) -> bool {
    let s = t.space;
    let i = find_start(s.areas, floor_of(VirtAddr(t.heap_bottom)), 0);
    &&& t.heap_bottom % PAGE_SIZE == 0
    &&& 1 <= t.heap_bottom <= t.program_brk
    &&& t.program_brk <= isize::MAX
    &&& t.program_brk <= low(TRAP_CONTEXT_BASE, VA_SPACE)
    &&& i < s.areas.len() ==> s.areas[i].r == ceil_of(VirtAddr(t.program_brk))
}

/// The program break can be moved by so many bytes. If that is below the bottom of the
/// heap, or there is no heap, nothing is moved. Otherwise the pages of the heap that go are
/// there, and the one of the trap context is not among them, and for those that come there
/// is room and there are frames.
pub open spec fn can_move_brk(t: TaskModel, m: MemoryModel, size: int) -> bool {
    let s = t.space;
    let brk = t.program_brk + size;
    let end = ceil_of(VirtAddr(brk as usize));
    let i = find_start(s.areas, floor_of(VirtAddr(t.heap_bottom)), 0);
    &&& t.heap_bottom <= isize::MAX
    &&& t.program_brk <= isize::MAX
    &&& brk <= isize::MAX
    &&& brk >= t.heap_bottom && i < s.areas.len() ==> if size < 0 {
        &&& s.areas[i].l <= end <= s.areas[i].r
        &&& !(end <= trap_page() < s.areas[i].r)
    } else {
        &&& s.areas[i].r <= end
        &&& pages_free(s, s.areas[i].r, end)
        &&& end - s.areas[i].r <= m.frames.free_count()
    }
}

/// The program break of a process was moved: the pages of the heap end with it.
pub open spec fn brk_moved(
    t: TaskModel,
    t2: TaskModel,
    m: MemoryModel,
    m2: MemoryModel,
    brk: int,
) -> bool {
    let s = t.space;
    let s2 = t2.space;
    let i = find_start(s.areas, floor_of(VirtAddr(t.heap_bottom)), 0);
    let a2 = s2.areas[i];
    let end = ceil_of(VirtAddr(brk as usize));
    &&& t2 == (TaskModel { space: s2, program_brk: brk as usize, ..t })
    &&& s2.areas == s.areas.update(i, a2)
    &&& s2.root == s.root
    &&& a2.r == end
    &&& if brk < t.program_brk {
        pages_unmapped(
            s.areas[i],
            AreaModel { r: s.areas[i].r, ..a2 },
            s.table,
            s2.table,
            m,
            m2,
            end,
            s.areas[i].r,
        )
    } else {
        pages_mapped(
            s.areas[i],
            AreaModel { r: s.areas[i].r, ..a2 },
            s.table,
            s2.table,
            m,
            m2,
            s.areas[i].r,
            end,
        )
    }
}

/// An address space has no negative number of pages.
proof fn lemma_total_nonneg(s: SpaceModel, m: MemoryModel)
    requires
        s.wf(m),
    ensures
        0 <= total_pages(s.areas),
{
    reveal(SpaceModel::wf);
    lemma_total_areas(s.areas);
}

/// Areas have no negative number of pages.
proof fn lemma_total_areas(areas: Seq<AreaModel>)
    requires
        forall|i: int| 0 <= i < areas.len() ==> (#[trigger] areas[i]).wf(),
    ensures
        0 <= total_pages(areas),
    decreases areas.len(),
{
    if areas.len() > 0 {
        let rest = areas.drop_last();
        assert forall|i: int| 0 <= i < rest.len() implies (#[trigger] rest[i]).wf() by {
            assert(rest[i] == areas[i]);
        }
        lemma_total_areas(rest);
        assert(areas[areas.len() - 1].wf());
    }
}

/// Moving the program break keeps the process consistent, and changes only its address
/// space.
proof fn lemma_brk_moved(
    t: TaskModel,
    t2: TaskModel,
    m: MemoryModel,
    m2: MemoryModel,
    brk: int,
)
    requires
        t.space_ok(m),
        can_move_brk(t, m, brk - t.program_brk),
        t.heap_bottom <= brk,
        find_start(t.space.areas, floor_of(VirtAddr(t.heap_bottom)), 0) < t.space.areas.len(),
        t2.space.wf(m2),
        brk_moved(t, t2, m, m2, brk),
    ensures
        t2.space_ok(m2),
        changed_only(t.space, t2.space, m, m2),
{
    let s = t.space;
    let s2 = t2.space;
    let v = floor_of(VirtAddr(t.heap_bottom));
    let i = find_start(s.areas, v, 0);
    lemma_find_start(s.areas, v, 0);
    lemma_trap_page();
    let a = s.areas[i];
    let a2 = s2.areas[i];
    assert(a.map_type == MapType::Framed);
    assert forall|j: int| 0 <= j < s2.areas.len() implies (#[trigger] s2.areas[j]).map_type
        == MapType::Framed by {
        if j != i {
            assert(s2.areas[j] == s.areas[j]);
        }
    }
    if brk < t.program_brk {
        assert forall|j: int, k: usize|
            0 <= j < s2.areas.len() && #[trigger] s2.areas[j].frames.contains_key(k) implies in_areas(
            s.areas,
            s2.areas[j].frames[k].ppn.0 as int,
        ) by {
            if j != i {
                assert(s2.areas[j] == s.areas[j]);
            }
            assert(s.areas[j].frames.contains_key(k));
        }
        lemma_unmapped_only(
            s,
            s2,
            m,
            m2,
            i,
            AreaModel { r: a.r, ..a2 },
            ceil_of(VirtAddr(brk as usize)),
            a.r,
        );
    } else {
        lemma_extended_only(s, s2, m, m2, i, a.r, ceil_of(VirtAddr(brk as usize)));
    }
    let k = trap_page();
    assert(s.table.contains_key(k));
    if brk < t.program_brk {
        let end = ceil_of(VirtAddr(brk as usize));
        assert(pages_unmapped(
            a,
            AreaModel { r: a.r, ..a2 },
            s.table,
            s2.table,
            m,
            m2,
            end,
            a.r,
        ));
        assert(s2.table.contains_key(k));
        assert(s2.table[k] == s.table[k]);
    } else {
        let end = ceil_of(VirtAddr(brk as usize));
        assert(!(a.r <= k < end));
        assert(s2.table.contains_key(k));
        assert(s2.table[k] == s.table[k]);
    }
    lemma_entry_owned(s2, m2, k);
    assert(s2.table.contains_key(trampoline_page() as usize) ==> s2.table[trampoline_page() as usize]
        == s.table[trampoline_page() as usize]) by {
        lemma_area(s, m, i);
        lemma_area(s2, m2, i);
    }
}

impl TaskControlBlock {
    /// Fork from parent to child
    pub fn fork(&mut self, machine: &mut Machine) -> (r: Self)
        requires
            old(machine)@.wf(),
            old(machine)@.can_start(),
            old(self)@.space_ok(old(machine)@.mem),
            old(self)@.signal.wf(),
            apart(old(self)@.space, old(machine)@.kspace),
            total_pages(old(self)@.space.areas) + 3 <= old(machine)@.mem.frames.free_count(),
        ensures
            final(self)@ == (TaskModel {
                children: old(self)@.children.push(r@.pid),
                ..old(self)@
            }),
            exists|m1: MemoryModel, m2: MemoryModel| #[trigger]
                forked(old(self)@, r@, old(machine)@, final(machine)@, m1, m2),
            joined_in(r@, old(machine)@, final(machine)@),
    {
        let ghost o = machine@;
        let ghost t = self@;
        proof {
            lemma_total_nonneg(t.space, o.mem);
        }
        // copy user space(include trap context)
        let memory_set: MemorySet = MemorySet::from_existed_user(
            &self.inner.memory_set,
            machine.strampoline,
            &mut machine.mem,
        );
        let ghost m1 = machine@.mem;
        let ghost s = memory_set@;
        proof {
            lemma_copy(t, s, o.mem, m1, o.strampoline);
            lemma_holds(o.kspace, o.mem);
            lemma_kept_same(o.kspace, o.mem, m1);
            lemma_still_wf(o.kspace, o.mem, m1);
        }
        let trap_cx_ppn: PhysPageNum = memory_set.translate(
            VirtAddr::from(TRAP_CONTEXT_BASE).floor(),
        ).unwrap().ppn();
        // alloc a pid and a kernel stack in kernel space
        let pid_handle: PidHandle = pid_alloc(&mut machine.pids);
        let kernel_stack: KernelStack = machine.alloc_stack();
        let ghost m2 = machine@.mem;
        proof {
            super::id::lemma_stack(kernel_stack.0);
        }
        let kernel_stack_top: usize = kernel_stack.get_top();
        // copy fd table
        let mut new_fd_table: Vec<Option<FileHandle>> = Vec::new();
        let mut i: usize = 0;
        while i < self.inner.fd_table.len()
            invariant
                i <= self.inner.fd_table@.len(),
                new_fd_table@ == self.inner.fd_table@.take(i as int),
            decreases self.inner.fd_table@.len() - i,
        {
            new_fd_table.push(self.inner.fd_table[i]);
            i += 1;
            assert(new_fd_table@ =~= self.inner.fd_table@.take(i as int));
        }
        assert(new_fd_table@ =~= self.inner.fd_table@);
        let task_control_block: TaskControlBlock = TaskControlBlock {
            pid: pid_handle,
            kernel_stack,
            inner: TaskControlBlockInner {
                trap_cx_ppn,
                base_size: self.inner.base_size,
                task_cx: TaskContext::goto_restore(machine.trap_return, kernel_stack_top),
                task_status: TaskStatus::Ready,
                memory_set,
                parent: Some(self.pid.0),
                children: Vec::new(),
                exit_code: 0,
                fd_table: new_fd_table,
                // inherit the signal_mask and signal_action
                signal: SignalState::new(
                    self.inner.signal.signal_mask,
                    self.inner.signal.signal_actions.copy(),
                ),
                heap_bottom: self.inner.heap_bottom,
                program_brk: self.inner.program_brk,
                stride: self.inner.stride,
                pass: self.inner.pass,
            },
        };
        // add child
        self.inner.children.push(pid_handle.0);
        let ghost p = trap_cx_ppn.0 as int;
        proof {
            assert(m1.in_use(p));
            assert(m2.in_use(p));
        }
        // modify kernel_sp in trap_cx
        let mut trap_cx: TrapContext = TrapContext::load(trap_cx_ppn, &machine.mem);
        trap_cx.kernel_sp = kernel_stack_top;
        let ghost bytes = with_context(m2.page(p), trap_cx@);
        proof {
            lemma_new_task_memory(s, o.kspace, machine@.kspace, o.mem, m1, m2, p, bytes);
        }
        trap_cx.store(trap_cx_ppn, &mut machine.mem);
        proof {
            let c = task_control_block@;
            assert(c.children =~= Seq::<usize>::empty());
            assert(trampoline_outside(s, machine@.mem));
            assert(forked(t, c, o, machine@, m1, m2));
        }
        task_control_block
    }

    /// change the location of the program break. return None if failed.
    pub fn change_program_brk(&mut self, size: i32, machine: &mut Machine) -> (r: Option<usize>)
        requires
            old(machine)@.mem.wf(),
            old(self)@.space_ok(old(machine)@.mem),
            can_move_brk(old(self)@, old(machine)@.mem, size as int),
        ensures
            final(machine)@ == (MachineModel { mem: final(machine)@.mem, ..old(machine)@ }),
            final(machine)@.mem.wf(),
            final(self)@.space_ok(final(machine)@.mem),
            changed_only(
                old(self)@.space,
                final(self)@.space,
                old(machine)@.mem,
                final(machine)@.mem,
            ),
            ({
                let t = old(self)@;
                let brk = t.program_brk + size;
                let i = find_start(t.space.areas, floor_of(VirtAddr(t.heap_bottom)), 0);
                if brk < t.heap_bottom || i >= t.space.areas.len() {
                    r is None && final(self)@ == t && final(machine)@ == old(machine)@
                } else {
                    &&& r == Some(t.program_brk)
                    &&& brk_moved(t, final(self)@, old(machine)@.mem, final(machine)@.mem, brk)
                }
            }),
    {
        let ghost t = self@;
        let ghost m = machine@.mem;
        let ghost i = find_start(t.space.areas, floor_of(VirtAddr(t.heap_bottom)), 0);
        proof {
            lemma_holds(t.space, m);
            lemma_find_start(t.space.areas, floor_of(VirtAddr(t.heap_bottom)), 0);
            if i < t.space.areas.len() {
                assert(t.space.areas[i].map_type == MapType::Framed);
            }
        }
        let heap_bottom: usize = self.inner.heap_bottom;
        let old_break: usize = self.inner.program_brk;
        let new_brk: isize = self.inner.program_brk as isize + size as isize;
        if new_brk < heap_bottom as isize {
            return None;
        }
        let result: bool = if size < 0 {
            self.inner.memory_set.shrink_to(
                VirtAddr(heap_bottom),
                VirtAddr(new_brk as usize),
                &mut machine.mem,
            )
        } else {
            self.inner.memory_set.append_to(
                VirtAddr(heap_bottom),
                VirtAddr(new_brk as usize),
                &mut machine.mem,
            )
        };
        if result {
            self.inner.program_brk = new_brk as usize;
            proof {
                lemma_brk_moved(t, self@, m, machine@.mem, new_brk as int);
            }
            Some(old_break)
        } else {
            None
        }
    }
}

/// Moving the program break keeps the heap in order.
#[verifier::spinoff_prover]
#[verifier::rlimit(60)]
pub proof fn law_heap_kept(t: TaskModel, t2: TaskModel, m: MemoryModel, m2: MemoryModel, brk: int)
    requires
        t.space_ok(m),
        heap_ok(t),
        can_move_brk(t, m, brk - t.program_brk),
        t.heap_bottom <= brk,
        find_start(t.space.areas, floor_of(VirtAddr(t.heap_bottom)), 0) < t.space.areas.len(),
        brk_moved(t, t2, m, m2, brk),
    ensures
        heap_ok(t2),
{
    let s = t.space;
    let s2 = t2.space;
    let v = floor_of(VirtAddr(t.heap_bottom));
    let i = find_start(s.areas, v, 0);
    lemma_find_start(s.areas, v, 0);
    lemma_trap_page();
    assert(find_start(s2.areas, v, 0) == i) by {
        lemma_find_start(s2.areas, v, 0);
        let f = find_start(s2.areas, v, 0);
        assert(s2.areas[i].l == v);
        if f > i {
            assert(s2.areas[i].l != v);
        } else if f < i {
            assert(s2.areas[f] == s.areas[f]);
        }
    }
    assert(s.table.contains_key(trap_page()));
}

/// Moving the program break by `n` bytes and then by `-n` restores it. Up and down again, the
/// second move is always possible, the process is as it was, and every frame that was in use
/// is, with its bytes. Down and up again, the same pages are mapped as before: those below the
/// lower break to the same frames, and those of the heap above it to cleared ones.
#[verifier::spinoff_prover]
#[verifier::rlimit(60)]
pub proof fn law_brk_round_trip(
    t: TaskModel,
    t1: TaskModel,
    t2: TaskModel,
    m: MemoryModel,
    m1: MemoryModel,
    m2: MemoryModel,
    n: int,
)
    requires
        t.space_ok(m),
        heap_ok(t),
        can_move_brk(t, m, n),
        t.heap_bottom <= t.program_brk + n,
        find_start(t.space.areas, floor_of(VirtAddr(t.heap_bottom)), 0) < t.space.areas.len(),
        brk_moved(t, t1, m, m1, t.program_brk + n),
        t1.space_ok(m1),
        brk_moved(t1, t2, m1, m2, t1.program_brk - n),
    ensures
        t2.program_brk == t.program_brk,
        n >= 0 ==> {
            &&& can_move_brk(t1, m1, -n)
            &&& t2 == t
            &&& forall|p: int| #[trigger] m.in_use(p) ==> m2.in_use(p) && m2.page(p) == m.page(p)
        },
        n < 0 ==> {
            let s = t.space;
            let s2 = t2.space;
            let i = find_start(s.areas, floor_of(VirtAddr(t.heap_bottom)), 0);
            let a = s.areas[i];
            let end = ceil_of(VirtAddr(t1.program_brk));
            &&& t2 == (TaskModel { space: s2, ..t })
            &&& s2.root == s.root
            &&& s2.areas == s.areas.update(i, AreaModel { frames: s2.areas[i].frames, ..a })
            &&& s2.table.dom() == s.table.dom()
            &&& forall|k: usize|
                #[trigger] s.table.contains_key(k) && !(end <= k < a.r) ==> s2.table[k]
                    == s.table[k]
            &&& forall|k: usize|
                end <= k < a.r ==> m2.page((#[trigger] s2.areas[i].frames[k]).ppn.0 as int)
                    == zero_page()
        },
{
    let s = t.space;
    let s1 = t1.space;
    let s2 = t2.space;
    let v = floor_of(VirtAddr(t.heap_bottom));
    let i = find_start(s.areas, v, 0);
    lemma_find_start(s.areas, v, 0);
    assert(find_start(s1.areas, v, 0) == i) by {
        lemma_find_start(s1.areas, v, 0);
        let f = find_start(s1.areas, v, 0);
        assert(s1.areas[i].l == v);
        if f > i {
            assert(s1.areas[i].l != v);
        } else if f < i {
            assert(s1.areas[f] == s.areas[f]);
        }
    }
    lemma_area(s, m, i);
    lemma_area(s1, m1, i);
    let a = s.areas[i];
    let a1 = s1.areas[i];
    let a2 = s2.areas[i];
    let end = ceil_of(VirtAddr(t1.program_brk));
    assert(a.map_type == MapType::Framed);
    assert(a.r == ceil_of(VirtAddr(t.program_brk)));
    assert(t1.program_brk == t.program_brk + n);
    if n >= 0 {
        law_heap_kept(t, t1, m, m1, t.program_brk + n);
        if n > 0 {
            law_heap_shrinks(t1, m1, -n);
        }
        assert(a2.frames =~= a.frames) by {
            assert forall|k: usize| #[trigger] a2.frames.contains_key(k) <==> a.frames.contains_key(
                k,
            ) by {
                assert(a1.frames.contains_key(k) <==> a.frames.contains_key(k) || a.r <= k < end);
            }
            assert forall|k: usize| #[trigger] a2.frames.contains_key(k) implies a2.frames[k]
                == a.frames[k] by {
                assert(a1.frames.contains_key(k));
                assert(a1.frames[k] == a.frames[k]);
            }
        }
        assert(s2.table =~= s.table) by {
            assert forall|k: usize| #[trigger] s2.table.contains_key(k) <==> s.table.contains_key(
                k,
            ) by {
                assert(s1.table.contains_key(k) <==> s.table.contains_key(k) || a.r <= k < end);
            }
            assert forall|k: usize| #[trigger] s2.table.contains_key(k) implies s2.table[k]
                == s.table[k] by {
                assert(s1.table.contains_key(k));
            }
        }
        assert(s2.areas =~= s.areas);
        assert forall|p: int| #[trigger] m.in_use(p) implies m2.in_use(p) && m2.page(p) == m.page(
            p,
        ) by {
            assert(m1.in_use(p) && m1.page(p) == m.page(p));
            if n > 0 {
                assert forall|k: usize|
                    a.r <= k < end && #[trigger] a1.frames.contains_key(k) implies a1.frames[k].ppn.0
                    != p by {
                    assert(!m.in_use(a1.frames[k].ppn.0 as int));
                }
            }
        }
    } else {
        assert(s2.areas =~= s.areas.update(i, AreaModel { frames: a2.frames, ..a }));
        assert forall|k: usize| #[trigger] s2.table.contains_key(k) <==> s.table.contains_key(k) by {
            assert(s1.table.contains_key(k) <==> s.table.contains_key(k) && !(end <= k < a.r));
            assert(a.covers(k as int) ==> s.table.contains_key(k));
        }
        assert(s2.table.dom() =~= s.table.dom());
        assert forall|k: usize| #[trigger] s.table.contains_key(k) && !(end <= k < a.r) implies s2.table[k]
            == s.table[k] by {
            assert(s1.table.contains_key(k));
            assert(s2.table.contains_key(k));
        }
    }
}

/// A heap that is in order can be made smaller by any number of bytes.
#[verifier::spinoff_prover]
#[verifier::rlimit(60)]
pub proof fn law_heap_shrinks(t: TaskModel, m: MemoryModel, size: int)
    requires
        t.space_ok(m),
        heap_ok(t),
        size < 0,
    ensures
        can_move_brk(t, m, size),
{
    let s = t.space;
    let v = floor_of(VirtAddr(t.heap_bottom));
    let i = find_start(s.areas, v, 0);
    let brk = t.program_brk + size;
    if brk >= t.heap_bottom && i < s.areas.len() {
        lemma_find_start(s.areas, v, 0);
        lemma_trap_page();
        let end = ceil_of(VirtAddr(brk as usize));
        assert(end == (brk + 4095) / 4096);
        assert(s.areas[i].l == v && s.areas[i].r == ceil_of(VirtAddr(t.program_brk)));
        lemma_pages_in_order(
            t.heap_bottom as int,
            brk,
            t.program_brk as int,
            low(TRAP_CONTEXT_BASE, VA_SPACE) as int,
        );
    }
}

/// Pages of addresses that are in order are in order.
proof fn lemma_pages_in_order(a: int, b: int, c: int, d: int)
    requires
        a <= b <= c <= d,
        d % 4096 == 0,
    ensures
        a / 4096 <= (b + 4095) / 4096 <= (c + 4095) / 4096 <= d / 4096,
{
}

/// The heap of a process that was made from a program is in order, if no segment of
/// the program starts where it does.
#[verifier::spinoff_prover]
#[verifier::rlimit(60)]
pub proof fn law_new_heap(
    b: Seq<u8>,
    t: TaskModel,
    o: MachineModel,
    n: MachineModel,
    m1: MemoryModel,
    m2: MemoryModel,
    sstatus: usize,
)
    requires
        loadable(b),
        started(b, t, o, n, m1, m2, sstatus),
        user_stack_top(b) <= isize::MAX,
        user_stack_top(b) <= low(TRAP_CONTEXT_BASE, VA_SPACE),
        forall|i: int|
            0 <= i < loads(b, header_of(b).ph_count as int).len() ==> (#[trigger] loads(
                b,
                header_of(b).ph_count as int,
            )[i]).area.l != user_stack_top(b) / PAGE_SIZE as int,
    ensures
        heap_ok(t),
{
    let plan = program_plan(b);
    let l = loads(b, header_of(b).ph_count as int);
    let k = l.len() as int;
    let top = user_stack_top(b);
    let bottom = user_stack_bottom(b);
    let page = top / PAGE_SIZE as int;
    let areas = t.space.areas;
    reveal(built);
    assert(areas.len() == plan.len());
    assert(bottom >= 0);
    assert(low(top as usize, VA_SPACE) == top) by {
        if usize::MAX == 0xffff_ffff {
            assert(low(TRAP_CONTEXT_BASE, VA_SPACE) == 0xffff_e000usize);
        } else {
            assert(low(TRAP_CONTEXT_BASE, VA_SPACE) == 0x7f_ffff_e000);
        }
    }
    assert(top % PAGE_SIZE as int == 0) by {
        let e = end_page(b, header_of(b).ph_count as int) as usize;
        assert((e << 12usize) % 0x1000 == 0) by (bit_vector);
    }
    assert(low(bottom as usize, VA_SPACE) == bottom);
    assert(plan[k] == framed(bottom, top, R | W | U));
    assert(plan[k + 1] == framed(top, top, R | W | U));
    assert(areas[k].l == plan[k].area.l);
    assert(areas[k + 1].l == plan[k + 1].area.l);
    assert(areas[k + 1].l == page);
    assert(areas[k].l != page);
    assert forall|i: int| 0 <= i < k implies (#[trigger] areas[i]).l != page by {
        assert(plan[i] == l[i]);
    }
    lemma_find_start(areas, page, 0);
    let f = find_start(areas, page, 0);
    if f > k + 1 {
        assert(areas[k + 1].l != page);
    }
    assert(f == k + 1);
}

} // verus!
