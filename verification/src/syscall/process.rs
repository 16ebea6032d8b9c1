//! Process management syscalls
use crate::config::{KERNEL_STACK_SIZE, PAGE_SIZE, TRAMPOLINE, USER_STACK_SIZE};
use crate::easy_fs::block_dev::BlockDevice;
use crate::easy_fs::bytes::{
    le32, le32_bytes, le64_bytes, lemma_le32_of_bytes, lemma_le64_of_bytes, push_u32, Record,
};
use crate::easy_fs::disk::file;
use crate::easy_fs::efs::EasyFileSystem;
use crate::easy_fs::tree::{entries, find_from, tree_ok};
use crate::fs::inode::{open_file, OSInode, OpenFlags, RDONLY};
use crate::mm::address::{PhysPageNum, VirtAddr};
use crate::mm::frame_allocator::{FrameMemory, MemoryModel};
use crate::mm::load::{loadable, program_plan};
use crate::mm::memory_set::{areas_released, find_start, floor_of, total_pages, MemorySet};
use crate::mm::owner::{
    law_write_elsewhere, lemma_born_trans, lemma_holds, lemma_page_only, lemma_reachable_owned,
    lemma_still_wf, owns, ranges_apart,
};
use crate::mm::plan::plan_frames;
use crate::mm::space::SpaceModel;
use crate::mm::user::{
    latin, lemma_with_bytes, range_reachable, reachable, read_user, read_user_word, string_at,
    translated_str, user_bytes, user_word,
};
use crate::task::current::{
    law_current_reads_back, lemma_with_signal, lemma_with_user_bytes, set_current_trap_cx,
    write_current,
};
use crate::task::exec::{arg_bytes, args_size, executed};
use crate::task::id::lemma_stack;
use crate::task::kernel::{
    child_ok, family_ok, lemma_current, lemma_same_index, lemma_task, lemma_update, same_pids,
    Kernel, KernelModel,
};
use crate::task::lifecycle::{
    exit_current_and_run_next, exited, given_back, lemma_new_task, reap, reaped, with_new, IDLE_PID,
};
use crate::task::machine::{stacks_ok, MachineModel};
use crate::task::manager::add_task;
use crate::task::sched::{suspend_current_and_run_next, suspended};
use crate::task::signal::{flag, SignalAction, SignalFlags, SignalModel, MAX_SIG, SIGKILL, SIGSTOP};
use crate::task::table::{
    find_task, has_task, index_of, lemma_index_from, lemma_index_of, pids_distinct,
};
use crate::task::task::{
    brk_moved, can_move_brk, forked, joined_in, TaskControlBlock, TaskModel, TaskStatus,
};
use crate::trap::context::{context_in, with_context, TrapContext};
use vstd::prelude::*;
use vstd::utf8::encode_utf8;

verus! {

/// A point in time.
#[derive(Copy, Clone, PartialEq, Eq, Debug, Structural)]
pub struct TimeVal {
    pub sec: usize,
    pub usec: usize,
}

/// The current process exits. The caller goes on with scheduling.
pub fn sys_exit(exit_code: i32, k: &mut Kernel)
    requires
        old(k)@.wf(),
        old(k)@.runs(),
        old(k)@.current != Some(IDLE_PID),
    ensures
        final(k)@.wf(),
        final(k)@ == exited(old(k)@, exit_code, final(k)@.machine.mem),
        areas_released(
            old(k)@.task().space.areas,
            old(k)@.machine.mem,
            final(k)@.machine.mem,
            old(k)@.task().space.areas.len() as int,
        ),
{
    exit_current_and_run_next(k, exit_code);
}

/// The current process lets others run. The caller goes on with scheduling.
pub fn sys_yield(k: &mut Kernel) -> (r: isize)
    requires
        old(k)@.wf(),
        old(k)@.runs(),
    ensures
        r == 0,
        final(k)@.wf(),
        final(k)@ == suspended(old(k)@),
{
    suspend_current_and_run_next(k);
    0
}

/// The number of the current process.
pub fn sys_getpid(k: &Kernel) -> (r: isize)
    requires
        k@.wf(),
        k@.runs(),
    ensures
        r == k@.current->0 as isize,
{
    k.processor.current().unwrap() as isize
}

/// The current process was copied, and the copy was told so: its system call returns 0.
/// `n` is the machine before this, and `m1` and `m2` are as for the copy.
pub open spec fn fork_done(
    k: KernelModel,
    k2: KernelModel,
    c: TaskModel,
    n: MachineModel,
    m1: MemoryModel,
    m2: MemoryModel,
) -> bool {
    let p = c.trap_cx_ppn as int;
    let cx = context_in(n.mem.page(p)).with_x(10, 0);
    &&& forked(k.task(), c, k.machine, n, m1, m2)
    &&& k2 == with_new(
        k,
        MachineModel { mem: n.mem.with_page(p, with_context(n.mem.page(p), cx)), ..n },
        c,
    )
}

/// Writing a page of a new process keeps it one.
proof fn lemma_joined_page(t: TaskModel, o: MachineModel, n: MachineModel, bytes: Seq<u8>)
    requires
        joined_in(t, o, n),
        t.status != TaskStatus::Zombie,
        bytes.len() == PAGE_SIZE,
    ensures
        joined_in(
            t,
            o,
            MachineModel { mem: n.mem.with_page(t.trap_cx_ppn as int, bytes), ..n },
        ),
        n.mem.in_use(t.trap_cx_ppn as int),
{
    let p = t.trap_cx_ppn as int;
    let m2 = n.mem.with_page(p, bytes);
    lemma_holds(t.space, n.mem);
    lemma_holds(n.kspace, n.mem);
    lemma_page_only(t.space, n.mem, p, bytes);
    lemma_born_trans(t.space, t.space, o.mem, n.mem, m2);
    lemma_still_wf(t.space, n.mem, m2);
    assert forall|q: int| #[trigger] owns(n.kspace, q) implies m2.in_use(q) by {
        assert(n.mem.in_use(q));
    }
    lemma_still_wf(n.kspace, n.mem, m2);
    assert forall|q: int| #[trigger] o.mem.in_use(q) && !owns(o.kspace, q) implies m2.in_use(q)
        && m2.page(q) == o.mem.page(q) by {
        assert(n.mem.in_use(q));
        assert(!o.mem.in_use(p));
    }
}

/// Copy the current process, and put the copy into the queue. Return its number.
pub fn sys_fork(k: &mut Kernel) -> (r: isize)
    requires
        old(k)@.wf(),
        old(k)@.runs(),
        old(k)@.machine.can_start(),
        total_pages(old(k)@.task().space.areas) + 3 <= old(k)@.machine.mem.frames.free_count(),
    ensures
        final(k)@.wf(),
        r == old(k)@.machine.pids.next() as isize,
        exists|c: TaskModel, n: MachineModel, m1: MemoryModel, m2: MemoryModel| #[trigger]
            fork_done(old(k)@, final(k)@, c, n, m1, m2),
{
    let ghost o = k@;
    proof {
        lemma_current(o);
    }
    let at: usize = k.current_index();
    let new_task: TaskControlBlock = k.tasks[at].fork(&mut k.machine);
    let ghost c = new_task@;
    let ghost n = k@.machine;
    let ghost (m1, m2) = choose|m1: MemoryModel, m2: MemoryModel| #[trigger]
        forked(o.task(), c, o.machine, n, m1, m2);
    let new_pid: usize = new_task.getpid();
    // modify trap context of new_task, because it returns immediately after switching
    let ppn: PhysPageNum = new_task.inner.trap_cx_ppn;
    proof {
        lemma_joined_page(c, o.machine, n, with_context(n.mem.page(ppn.0 as int), c.trap_cx(n.mem)));
    }
    let mut trap_cx: TrapContext = TrapContext::load(ppn, &k.machine.mem);
    // we do not have to move to next instruction since we have done it before
    // for child process, fork returns 0
    trap_cx.set_x(10, 0);
    trap_cx.store(ppn, &mut k.machine.mem);
    // add new task to scheduler
    k.tasks.push(new_task);
    add_task(new_pid, &mut k.manager);
    proof {
        lemma_joined_page(c, o.machine, n, with_context(n.mem.page(ppn.0 as int), trap_cx@));
        lemma_new_task(o, k@.machine, c);
        assert(k@.tasks =~= with_new(o, k@.machine, c).tasks);
        assert(fork_done(o, k@, c, n, m1, m2));
    }
    new_pid as isize
}

/// There are `n` pointers to strings from an address on, and then a null pointer.
pub open spec fn args_at(s: SpaceModel, m: MemoryModel, v: int, n: int) -> bool {
    &&& 0 <= n
    &&& v + 8 * (n + 1) <= usize::MAX
    &&& range_reachable(s, m, v, 8 * (n + 1))
    &&& forall|i: int|
        0 <= i < n ==> user_word(s, m, #[trigger] arg_slot(v, i)) != 0 && exists|len: int|
            string_at(s, m, user_word(s, m, arg_slot(v, i)) as int, len)
    &&& user_word(s, m, arg_slot(v, n)) == 0
}

/// Where the pointer to an argument is.
pub open spec fn arg_slot(v: int, i: int) -> int {
    v + 8 * i
}

/// The strings that the pointers lead to.
pub open spec fn args_read(s: SpaceModel, m: MemoryModel, v: int, args: Seq<String>) -> bool {
    forall|i: int, len: int|
        0 <= i < args.len() && #[trigger] string_at(
            s,
            m,
            user_word(s, m, arg_slot(v, i)) as int,
            len,
        ) ==> args[i]@ == latin(user_bytes(s, m, user_word(s, m, arg_slot(v, i)) as int, len))
}

/// Read the arguments of a program from the memory of a process.
pub fn read_args(space: &MemorySet, args: usize, mem: &FrameMemory) -> (r: Vec<String>)
    requires
        mem@.wf(),
        exists|n: int| args_at(space@, mem@, args as int, n),
    ensures
        args_at(space@, mem@, args as int, r@.len() as int),
        args_read(space@, mem@, args as int, r@),
{
    let ghost n = choose|n: int| args_at(space@, mem@, args as int, n);
    let ghost s = space@;
    let ghost m = mem@;
    let mut args_vec: Vec<String> = Vec::new();
    let mut ptr: usize = args;
    loop
        invariant
            mem@.wf(),
            s == space@,
            m == mem@,
            args_at(s, m, args as int, n),
            args_vec@.len() <= n,
            ptr == arg_slot(args as int, args_vec@.len() as int),
            args_read(s, m, args as int, args_vec@),
        ensures
            args_vec@.len() == n,
        decreases n - args_vec@.len(),
    {
        let ghost i = args_vec@.len() as int;
        proof {
            assert forall|k: int| ptr <= k < ptr + 8 implies #[trigger] reachable(s, m, k) by {}
        }
        let arg_str_ptr: usize = read_user_word(space, ptr, mem);
        if arg_str_ptr == 0 {
            break;
        }
        assert(user_word(s, m, arg_slot(args as int, i)) != 0);
        let arg: String = translated_str(space, arg_str_ptr, mem);
        let ghost a0 = args_vec@;
        args_vec.push(arg);
        proof {
            assert forall|j: int, len: int|
                0 <= j < args_vec@.len() && #[trigger] string_at(
                    s,
                    m,
                    user_word(s, m, arg_slot(args as int, j)) as int,
                    len,
                ) implies args_vec@[j]@ == latin(
                user_bytes(s, m, user_word(s, m, arg_slot(args as int, j)) as int, len),
            ) by {
                if j < i {
                    assert(args_vec@[j] == a0[j]);
                }
            }
        }
        ptr += 8;
    }
    args_vec
}

/// The file that a path names, if there is one.
pub open spec fn file_named(d: Seq<Seq<u8>>, name: Seq<u8>) -> Option<int> {
    let es = entries(d, 0);
    let i = find_from(es, name, 0);
    if i < es.len() {
        Some(es[i].inode_id as int)
    } else {
        None
    }
}

/// A program can take the place of the one of the current process.
pub open spec fn can_exec(k: KernelModel, b: Seq<u8>, args: Seq<Seq<u8>>) -> bool {
    &&& loadable(b)
    &&& plan_frames(program_plan(b)) < k.machine.mem.frames.free_count()
    &&& args_size(args) <= USER_STACK_SIZE
}

/// The string at an address of the current process.
pub open spec fn path_read(k: KernelModel, v: usize, name: Seq<char>) -> bool {
    exists|n: int| #[trigger]
        string_at(k.task().space, k.machine.mem, v as int, n) && name == latin(
            user_bytes(k.task().space, k.machine.mem, v as int, n),
        )
}

/// The arguments at an address of the current process.
pub open spec fn args_taken(k: KernelModel, v: usize, a: Seq<String>) -> bool {
    &&& args_at(k.task().space, k.machine.mem, v as int, a.len() as int)
    &&& args_read(k.task().space, k.machine.mem, v as int, a)
}

/// The current process was given another program, and nothing else changed.
pub open spec fn exec_done(
    k: KernelModel,
    k2: KernelModel,
    b: Seq<u8>,
    args: Seq<Seq<u8>>,
    sstatus: usize,
) -> bool {
    &&& k2 == (KernelModel { machine: k2.machine, ..k.with_task(k2.tasks[k.at()]) })
    &&& exists|m1: MemoryModel| #[trigger]
        executed(b, args, k.task(), k2.tasks[k.at()], k.machine, k2.machine, m1, sstatus)
}

/// The kernel stack of the current process lies below the trampoline.
proof fn lemma_kernel_stack(k: KernelModel)
    requires
        k.wf(),
        k.runs(),
    ensures
        k.task().kernel_stack * (KERNEL_STACK_SIZE + PAGE_SIZE) + KERNEL_STACK_SIZE <= TRAMPOLINE,
{
    lemma_current(k);
    reveal(stacks_ok);
    lemma_stack(k.task().kernel_stack);
}

/// Replace the program of the current process by the one in a file. Return the number of
/// arguments, or -1 if there is no such file. `sstatus` is the value of the CSR.
pub fn sys_exec<D: BlockDevice>(
    path: usize,
    args: usize,
    sstatus: usize,
    k: &mut Kernel,
    fs: &mut EasyFileSystem<D>,
) -> (r: isize)
    requires
        old(k)@.wf(),
        old(k)@.runs(),
        old(fs).wf(),
        tree_ok(old(fs)@),
        exists|n: int| string_at(old(k)@.task().space, old(k)@.machine.mem, path as int, n),
        exists|n: int| args_at(old(k)@.task().space, old(k)@.machine.mem, args as int, n),
        forall|name: Seq<char>, a: Seq<String>|
            path_read(old(k)@, path, name) && #[trigger] args_taken(old(k)@, args, a)
                && file_named(old(fs)@, #[trigger] encode_utf8(name)) is Some ==> {
                let f = file(old(fs)@, file_named(old(fs)@, encode_utf8(name))->0);
                &&& f.len() + 512 <= usize::MAX
                &&& can_exec(old(k)@, f, arg_bytes(a))
            },
    ensures
        final(k)@.wf(),
        final(fs).wf(),
        final(fs)@ == old(fs)@,
        final(fs).same_layout(old(fs)),
        exists|name: Seq<char>, a: Seq<String>|
            path_read(old(k)@, path, name) && #[trigger] args_taken(old(k)@, args, a) && match file_named(
                old(fs)@,
                #[trigger] encode_utf8(name),
            ) {
                Some(id) => {
                    &&& r == a.len() as isize
                    &&& exec_done(
                        old(k)@,
                        final(k)@,
                        file(old(fs)@, id),
                        arg_bytes(a),
                        sstatus,
                    )
                },
                None => r == -1 && final(k)@ == old(k)@,
            },
{
    let ghost o = k@;
    let ghost d = fs@;
    proof {
        lemma_current(o);
    }
    let at: usize = k.current_index();
    let path: String = translated_str(&k.tasks[at].inner.memory_set, path, &k.machine.mem);
    let args_vec: Vec<String> = read_args(&k.tasks[at].inner.memory_set, args, &k.machine.mem);
    proof {
        assert(0u32 & 0x200u32 != 0x200u32 && 0u32 & 0x400u32 != 0x400u32) by (bit_vector);
        assert(args_taken(o, args, args_vec@));
    }
    let ghost name = path@;
    match open_file(path.as_str(), OpenFlags { bits: RDONLY }, fs) {
        Some(app_inode) => {
            let mut app_inode: OSInode = app_inode;
            let all_data: Vec<u8> = app_inode.read_all(fs);
            let argc: usize = args_vec.len();
            let ghost a = args_vec@;
            proof {
                let id = app_inode.inode.id();
                assert(all_data@ =~= file(d, id));
                lemma_kernel_stack(o);
            }
            k.tasks[at].exec(all_data.as_slice(), args_vec, sstatus, &mut k.machine);
            proof {
                let m1 = choose|m1: MemoryModel| #[trigger]
                    executed(
                        all_data@,
                        arg_bytes(a),
                        o.task(),
                        k.tasks@[at as int]@,
                        o.machine,
                        k@.machine,
                        m1,
                        sstatus,
                    );
                assert(k@.tasks =~= o.tasks.update(at as int, k@.tasks[at as int]));
                lemma_update(o, k@, at as int);
                assert(exec_done(o, k@, all_data@, arg_bytes(a), sstatus));
            }
            // return argc because cx.x[10] will be covered with it later
            argc as isize
        },
        None => -1,
    }
}

/// The process that is waited for: the one with the number, or any if it is -1.
pub open spec fn wanted(pid: isize, p: usize) -> bool {
    pid == -1 || pid as usize == p
}

/// Some child is the one that is waited for.
pub open spec fn waits_for_child(k: KernelModel, pid: isize) -> bool {
    exists|c: int|
        0 <= c < k.task().children.len() && wanted(pid, #[trigger] k.task().children[c])
}

/// A child has exited and is the one that is waited for.
pub open spec fn exited_child(k: KernelModel, pid: isize, c: int) -> bool {
    let p = k.task().children[c];
    &&& 0 <= c < k.task().children.len()
    &&& wanted(pid, p)
    &&& k.tasks[index_of(k.tasks, p)].status == TaskStatus::Zombie
}

/// What waiting for a process comes to.
pub open spec fn wait_done(
    k: KernelModel,
    k2: KernelModel,
    pid: isize,
    exit_code_ptr: usize,
    r: isize,
) -> bool {
    if !waits_for_child(k, pid) {
        r == -1 && k2 == k
    } else if forall|c: int| !#[trigger] exited_child(k, pid, c) {
        r == -2 && k2 == k
    } else {
        exists|c: int, n: MachineModel, m1: MemoryModel| #[trigger]
            waited(k, k2, pid, c, n, m1, exit_code_ptr, r)
    }
}

/// If there is not a child process whose pid is same as given, return -1.
/// Else if there is a child process but it is still running, return -2.
pub fn sys_waitpid(pid: isize, exit_code_ptr: usize, k: &mut Kernel) -> (r: isize)
    requires
        old(k)@.wf(),
        old(k)@.runs(),
        (exists|c: int| #[trigger] exited_child(old(k)@, pid, c)) ==> {
            &&& exit_code_ptr + 4 <= usize::MAX
            &&& exit_code_ptr % 4 == 0
            &&& range_reachable(
                old(k)@.task().space,
                old(k)@.machine.mem,
                exit_code_ptr as int,
                4,
            )
        },
    ensures
        final(k)@.wf(),
        wait_done(old(k)@, final(k)@, pid, exit_code_ptr, r),
{
    let ghost o = k@;
    let ghost cs = o.task().children;
    proof {
        lemma_current(o);
    }
    let at: usize = k.current_index();
    let len: usize = k.tasks[at].inner.children.len();
    // find a child process
    let mut any: bool = false;
    let mut found: Option<usize> = None;
    let mut i: usize = 0;
    while i < len && found.is_none()
        invariant
            i <= len,
            o == k@,
            o.wf(),
            o.runs(),
            at == o.at(),
            at < k.tasks@.len(),
            k.tasks@[at as int]@ == o.task(),
            cs == o.task().children,
            len == cs.len(),
            any == exists|c: int| 0 <= c < i && wanted(pid, #[trigger] cs[c]),
            match found {
                Some(c) => {
                    &&& c < i
                    &&& exited_child(o, pid, c as int)
                    &&& forall|d: int| 0 <= d < c ==> !#[trigger] exited_child(o, pid, d)
                },
                None => forall|d: int| 0 <= d < i ==> !#[trigger] exited_child(o, pid, d),
            },
        decreases len - i,
    {
        let p: usize = k.tasks[at].inner.children[i];
        assert(p == cs[i as int]);
        if pid == -1 || pid as usize == p {
            proof {
                lemma_children(o, i as int);
            }
            assert(wanted(pid, cs[i as int]));
            any = true;
            let j: usize = find_task(&k.tasks, p).unwrap();
            assert(o.tasks[j as int] == k.tasks@[j as int]@);
            if k.tasks[j].inner.is_zombie() {
                assert(exited_child(o, pid, i as int));
                found = Some(i);
            }
        }
        i += 1;
    }
    if !any {
        return -1;
    }
    match found {
        Some(idx) => {
            let (found_pid, exit_code) = reap(k, at, idx);
            let ghost n = k@.machine;
            let ghost j = index_of(o.tasks, cs[idx as int]);
            let ghost m1 = choose|m1: MemoryModel| #[trigger]
                given_back(o.machine, n, o.tasks[j], m1);
            let ghost k1 = k@;
            proof {
                lemma_children(o, idx as int);
                lemma_reaped_current(o, k1, idx as int, n, m1);
                assert forall|v: int| exit_code_ptr <= v < exit_code_ptr + 4 implies #[trigger] reachable(
                    k1.task().space,
                    k1.machine.mem,
                    v,
                ) by {
                    assert(reachable(o.task().space, o.machine.mem, v));
                    lemma_reachable_owned(o.task().space, o.machine.mem, v);
                }
            }
            let code: u32 = exit_code as u32;
            let bytes: Vec<u8> = code.to_bytes();
            write_current(k, exit_code_ptr, bytes.as_slice());
            proof {
                assert(waited(o, k@, pid, idx as int, n, m1, exit_code_ptr, found_pid as isize));
            }
            found_pid as isize
        },
        None => {
            proof {
                assert(waits_for_child(o, pid));
                assert forall|c: int| !#[trigger] exited_child(o, pid, c) by {}
            }
            -2
        },
    }
}

/// The first child that has exited and is waited for was removed, and its exit code was
/// written to the memory of the current process. `n` is the machine before this, and `m1`
/// the memory when the kernel stack of the child was unmapped.
pub open spec fn waited(
    k: KernelModel,
    k2: KernelModel,
    pid: isize,
    c: int,
    n: MachineModel,
    m1: MemoryModel,
    exit_code_ptr: usize,
    r: isize,
) -> bool {
    let t = k.tasks[index_of(k.tasks, k.task().children[c])];
    &&& exited_child(k, pid, c)
    &&& forall|d: int| 0 <= d < c ==> !#[trigger] exited_child(k, pid, d)
    &&& r == t.pid as isize
    &&& given_back(k.machine, n, t, m1)
    &&& k2 == reaped(k, k.at(), c, n).with_user_bytes(
        exit_code_ptr as int,
        le32_bytes(t.exit_code as u32),
    )
}

/// The children of the current process are processes.
pub proof fn lemma_children(k: KernelModel, c: int)
    requires
        k.wf(),
        k.runs(),
        0 <= c < k.task().children.len(),
    ensures
        has_task(k.tasks, k.task().children[c]),
        0 <= index_of(k.tasks, k.task().children[c]) < k.tasks.len(),
        k.tasks[index_of(k.tasks, k.task().children[c])].pid == k.task().children[c],
        k.task().children[c] != k.current->0,
{
    lemma_current(k);
    reveal(family_ok);
    assert(child_ok(k.tasks, k.at(), c));
    lemma_index_from(k.tasks, k.task().children[c], 0);
    assert(k.tasks[k.at()].parent != Some(k.tasks[k.at()].pid));
}

/// Removing a child leaves the current process with all of its memory.
pub proof fn lemma_reaped_current(k: KernelModel, k2: KernelModel, c: int, n: MachineModel, m1: MemoryModel)
    requires
        k.wf(),
        k.runs(),
        k2.wf(),
        0 <= c < k.task().children.len(),
        k2 == reaped(k, k.at(), c, n),
        given_back(k.machine, n, k.tasks[index_of(k.tasks, k.task().children[c])], m1),
    ensures
        k2.runs(),
        k2.task().space == k.task().space,
        forall|p: int| #[trigger] owns(k.task().space, p) ==> k2.machine.mem.in_use(p),
{
    lemma_current(k);
    lemma_children(k, c);
    let j = index_of(k.tasks, k.task().children[c]);
    let at = k.at();
    let at2 = if at < j {
        at
    } else {
        at - 1
    };
    assert(at != j);
    assert(k2.tasks[at2].pid == k.current->0);
    lemma_current(k2);
    assert(pids_distinct(k2.tasks));
    lemma_index_of(k2.tasks, at2);
    lemma_holds(k2.task().space, k2.machine.mem);
}

/// The process with the number that has not exited.
pub open spec fn alive(k: KernelModel, pid: usize) -> bool {
    has_task(k.tasks, pid) && k.tasks[index_of(k.tasks, pid)].status != TaskStatus::Zombie
}

/// What sending a signal to a process comes to.
pub open spec fn kill_done(
    k: KernelModel,
    k2: KernelModel,
    pid: usize,
    signum: int,
    r: isize,
) -> bool {
    let i = index_of(k.tasks, pid);
    let s = k.tasks[i].signal;
    if !alive(k, pid) || !(0 <= signum <= MAX_SIG) || s.signals.has(flag(signum)) {
        r == -1 && k2 == k
    } else {
        &&& r == 0
        &&& k2 == (KernelModel {
            tasks: k.tasks.update(
                i,
                TaskModel {
                    signal: SignalModel {
                        signals: SignalFlags { bits: s.signals.bits | flag(signum) },
                        ..s
                    },
                    ..k.tasks[i]
                },
            ),
            ..k
        })
    }
}

/// Send a signal to a process. Return -1 if there is no such process or no such signal, or
/// if the signal is already pending.
pub fn sys_kill(pid: usize, signum: i32, k: &mut Kernel) -> (r: isize)
    requires
        old(k)@.wf(),
    ensures
        final(k)@.wf(),
        kill_done(old(k)@, final(k)@, pid, signum as int, r),
{
    let ghost o = k@;
    match find_task(&k.tasks, pid) {
        Some(i) => {
            assert(o.tasks[i as int] == k.tasks@[i as int]@);
            if k.tasks[i].inner.is_zombie() {
                return -1;
            }
            if signum < 0 || signum as usize > MAX_SIG {
                return -1;
            }
            match SignalFlags::from_bits(1u32 << (signum as u32)) {
                Some(flag) => {
                    // insert the signal if legal
                    if k.tasks[i].inner.signal.signals.contains(flag) {
                        return -1;
                    }
                    k.tasks[i].inner.signal.add_signal(flag);
                    proof {
                        lemma_task(o, i as int);
                        lemma_with_signal(o, i as int, k.tasks@[i as int]@.signal);
                        assert(k@.tasks =~= o.tasks.update(i as int, k@.tasks[i as int]));
                    }
                    0
                },
                None => -1,
            }
        },
        None => -1,
    }
}

/// The time cannot be asked for.
pub fn sys_get_time(_ts: usize, _tz: usize) -> (r: isize)
    ensures
        r == -1,
{
    -1
}

/// Memory cannot be mapped by a process.
pub fn sys_mmap(_start: usize, _len: usize, _port: usize) -> (r: isize)
    ensures
        r == -1,
{
    -1
}

/// Memory cannot be unmapped by a process.
pub fn sys_munmap(_start: usize, _len: usize) -> (r: isize)
    ensures
        r == -1,
{
    -1
}

/// What moving the program break of the current process comes to: it stays if it would be
/// below the heap or if there is no heap.
pub open spec fn sbrk_done(k: KernelModel, k2: KernelModel, size: int, r: isize) -> bool {
    let t = k.task();
    let t2 = k2.tasks[k.at()];
    let brk = t.program_brk + size;
    let i = find_start(t.space.areas, floor_of(VirtAddr(t.heap_bottom)), 0);
    if brk < t.heap_bottom || i >= t.space.areas.len() {
        r == -1 && k2 == k
    } else {
        &&& r == t.program_brk as isize
        &&& k2 == k.with_task(t2).with_mem(k2.machine.mem)
        &&& brk_moved(t, t2, k.machine.mem, k2.machine.mem, brk)
    }
}

/// change data segment size
pub fn sys_sbrk(size: i32, k: &mut Kernel) -> (r: isize)
    requires
        old(k)@.wf(),
        old(k)@.runs(),
        can_move_brk(old(k)@.task(), old(k)@.machine.mem, size as int),
    ensures
        final(k)@.wf(),
        sbrk_done(old(k)@, final(k)@, size as int, r),
{
    let ghost o = k@;
    proof {
        lemma_current(o);
    }
    let at: usize = k.current_index();
    let brk: Option<usize> = k.tasks[at].change_program_brk(size, &mut k.machine);
    proof {
        assert(k@.tasks =~= o.tasks.update(at as int, k@.tasks[at as int]));
        lemma_update(o, k@, at as int);
    }
    match brk {
        Some(old_brk) => old_brk as isize,
        None => {
            assert(k@.tasks =~= o.tasks);
            -1
        },
    }
}

/// A process cannot be made from a program directly.
pub fn sys_spawn(_path: usize) -> (r: isize)
    ensures
        r == -1,
{
    -1
}

/// The priority cannot be set.
pub fn sys_set_priority(_prio: isize) -> (r: isize)
    ensures
        r == -1,
{
    -1
}

/// What setting the mask of the current process comes to.
pub open spec fn mask_done(k: KernelModel, k2: KernelModel, mask: u32, r: isize) -> bool {
    if k.runs() {
        &&& r == k.task().signal.signal_mask.bits as isize
        &&& k2 == k.with_signal(
            SignalModel { signal_mask: SignalFlags { bits: mask }, ..k.task().signal },
        )
    } else {
        r == -1 && k2 == k
    }
}

/// Set the signals that have to wait, and return those that had to before.
pub fn sys_sigprocmask(mask: u32, k: &mut Kernel) -> (r: isize)
    requires
        old(k)@.wf(),
    ensures
        final(k)@.wf(),
        mask_done(old(k)@, final(k)@, mask, r),
{
    let ghost o = k@;
    if k.processor.current().is_some() {
        proof {
            lemma_current(o);
        }
        let at: usize = k.current_index();
        match SignalFlags::from_bits(mask) {
            Some(flag) => {
                let old_mask: SignalFlags = k.tasks[at].inner.signal.set_mask(flag);
                proof {
                    let s = k.tasks@[at as int]@.signal;
                    lemma_with_signal(o, at as int, s);
                    assert(k@.tasks =~= o.with_signal(s).tasks);
                }
                old_mask.bits as isize
            },
            None => -1,
        }
    } else {
        -1
    }
}

/// What the end of a handler comes to: the trap context is the one that was kept when the
/// handler was started.
pub open spec fn return_done(k: KernelModel, k2: KernelModel, r: isize) -> bool {
    if k.runs() {
        let cx = k.task().signal.backup->0;
        &&& r == cx.x[10] as isize
        &&& k2 == k.with_signal(
            SignalModel { handling_sig: -1, ..k.task().signal },
        ).with_trap_cx(cx)
        &&& k2.trap_cx() == cx
    } else {
        r == -1 && k2 == k
    }
}

/// The handler of a signal has run: the process goes on where it was.
pub fn sys_sigreturn(k: &mut Kernel) -> (r: isize)
    requires
        old(k)@.wf(),
        old(k)@.runs() ==> old(k)@.task().signal.backup is Some,
    ensures
        final(k)@.wf(),
        return_done(old(k)@, final(k)@, r),
{
    let ghost o = k@;
    if k.processor.current().is_some() {
        proof {
            lemma_current(o);
        }
        let at: usize = k.current_index();
        // restore the trap context
        let trap_ctx: TrapContext = k.tasks[at].inner.signal.finish_handler();
        proof {
            let s = k.tasks@[at as int]@.signal;
            lemma_with_signal(o, at as int, s);
            assert(k@.tasks =~= o.with_signal(s).tasks);
            assert(same_pids(o.tasks, k@.tasks));
            lemma_same_index(o.tasks, k@.tasks, o.current->0, 0);
        }
        set_current_trap_cx(k, &trap_ctx);
        // Here we return the value of a0 in the trap_ctx,
        // otherwise it will be overwritten after we trap
        // back to the original execution of the application.
        trap_ctx.x[10] as isize
    } else {
        -1
    }
}

/// The action of a signal cannot be set: there is no action or no room for the one before,
/// or the kernel handles the signal itself.
pub open spec fn bad_sigaction(signal: u32, action: usize, old_action: usize) -> bool {
    action == 0 || old_action == 0 || signal == SIGKILL || signal == SIGSTOP
}

fn check_sigaction_error(signal: SignalFlags, action: usize, old_action: usize) -> (r: bool)
    ensures
        r == bad_sigaction(signal.bits, action, old_action),
{
    action == 0 || old_action == 0 || signal.bits == SIGKILL || signal.bits == SIGSTOP
}

/// The action that lies in the memory of a process: the handler, and behind it the mask.
pub open spec fn action_at(s: SpaceModel, m: MemoryModel, v: int) -> SignalAction {
    SignalAction {
        handler: user_word(s, m, v),
        mask: SignalFlags { bits: le32(user_bytes(s, m, v + 8, 4), 0) },
    }
}

/// The bytes of an action.
pub open spec fn action_bytes(a: SignalAction) -> Seq<u8> {
    le64_bytes(a.handler as u64) + le32_bytes(a.mask.bits)
}

/// The action of a signal was stored at `old_action`, and the one at `action` took its place.
pub open spec fn action_set(
    k: KernelModel,
    k2: KernelModel,
    signum: int,
    action: int,
    old_action: int,
) -> bool {
    let s = k.task().signal;
    let k1 = k.with_user_bytes(old_action, action_bytes(s.actions[signum]));
    k2 == k1.with_signal(
        SignalModel {
            actions: s.actions.update(
                signum,
                action_at(k.task().space, k1.machine.mem, action),
            ),
            ..s
        },
    )
}

/// Set the action of a signal for the current process, and store the one before. Return -1
/// if there is no such signal, if a pointer is null, or if the signal is one that the kernel
/// handles itself.
pub fn sys_sigaction(signum: i32, action: usize, old_action: usize, k: &mut Kernel) -> (r: isize)
    requires
        old(k)@.wf(),
        old(k)@.runs(),
        0 <= signum <= MAX_SIG && !bad_sigaction(flag(signum as int), action, old_action) ==> {
            &&& action % 8 == 0
            &&& old_action % 8 == 0
            &&& action + 12 <= usize::MAX
            &&& old_action + 12 <= usize::MAX
            &&& range_reachable(old(k)@.task().space, old(k)@.machine.mem, action as int, 12)
            &&& range_reachable(old(k)@.task().space, old(k)@.machine.mem, old_action as int, 12)
        },
    ensures
        final(k)@.wf(),
        ({
            let o = old(k)@;
            if !(0 <= signum <= MAX_SIG) || bad_sigaction(
                flag(signum as int),
                action,
                old_action,
            ) {
                r == -1 && final(k)@ == o
            } else {
                r == 0 && action_set(o, final(k)@, signum as int, action as int, old_action as int)
            }
        }),
{
    let ghost o = k@;
    proof {
        lemma_current(o);
    }
    let at: usize = k.current_index();
    if signum < 0 || signum as usize > MAX_SIG {
        return -1;
    }
    match SignalFlags::from_bits(1u32 << (signum as u32)) {
        Some(flag) => {
            if check_sigaction_error(flag, action, old_action) {
                return -1;
            }
            let prev_action: SignalAction =
                k.tasks[at].inner.signal.signal_actions.table[signum as usize];
            let mut bytes: Vec<u8> = (prev_action.handler as u64).to_bytes();
            push_u32(&mut bytes, prev_action.mask.bits);
            assert(bytes@ =~= action_bytes(prev_action));
            write_current(k, old_action, bytes.as_slice());
            let ghost k1 = k@;
            proof {
                lemma_current(k1);
                assert(k1.task() == o.task());
                lemma_with_bytes(
                    o.task().space,
                    o.machine.mem,
                    old_action as int,
                    bytes@,
                );
                assert forall|v: int| action <= v < action + 12 implies #[trigger] reachable(
                    k1.task().space,
                    k1.machine.mem,
                    v,
                ) by {
                    assert(reachable(o.task().space, o.machine.mem, v));
                }
            }
            let handler: usize = read_user_word(
                &k.tasks[at].inner.memory_set,
                action,
                &k.machine.mem,
            );
            let mask: Vec<u8> = read_user(
                &k.tasks[at].inner.memory_set,
                action + 8,
                4,
                &k.machine.mem,
            );
            let new_action: SignalAction = SignalAction {
                handler,
                mask: SignalFlags { bits: u32::from_bytes(mask.as_slice()) },
            };
            k.tasks[at].inner.signal.signal_actions.table.set(signum as usize, new_action);
            proof {
                let s = k.tasks@[at as int]@.signal;
                lemma_with_signal(k1, at as int, s);
                assert(k@.tasks =~= k1.with_signal(s).tasks);
                assert(s.actions =~= o.task().signal.actions.update(
                    signum as int,
                    action_at(o.task().space, k1.machine.mem, action as int),
                ));
            }
            0
        },
        None => -1,
    }
}

/// Setting the action of a signal and then the one that was stored restores the table: if the
/// second call stores elsewhere, the process has the actions that it had at first, and the one
/// that it had in between is what the second call stored.
pub proof fn law_action_restored(
    k: KernelModel,
    k1: KernelModel,
    k2: KernelModel,
    signum: int,
    action: int,
    saved: int,
    other: int,
)
    requires
        k.wf(),
        k.runs(),
        0 <= signum <= MAX_SIG,
        range_reachable(k.task().space, k.machine.mem, saved, 12),
        range_reachable(k.task().space, k.machine.mem, other, 12),
        ranges_apart(other, 12, saved, 12),
        action_set(k, k1, signum, action, saved),
        action_set(k1, k2, signum, saved, other),
    ensures
        k2.task() == k.task(),
        user_bytes(k2.task().space, k2.machine.mem, other, 12) == action_bytes(
            k1.task().signal.actions[signum],
        ),
{
    let t = k.task();
    let s = t.space;
    let a = t.signal.actions[signum];
    let b = action_bytes(a);
    lemma_current(k);
    lemma_le64_of_bytes(a.handler as u64);
    lemma_le32_of_bytes(a.mask.bits);
    let kw = k.with_user_bytes(saved, b);
    lemma_with_user_bytes(k, saved, b);
    law_current_reads_back(k, saved, b);
    lemma_with_bytes(s, k.machine.mem, saved, b);
    let m1 = kw.machine.mem;
    lemma_current(kw);
    let s1 = SignalModel {
        actions: t.signal.actions.update(signum, action_at(s, m1, action)),
        ..t.signal
    };
    assert(same_pids(kw.tasks, k1.tasks));
    lemma_same_index(kw.tasks, k1.tasks, k.current->0, 0);
    assert(k1.task() == (TaskModel { signal: s1, ..t }));
    let b1 = action_bytes(s1.actions[signum]);
    lemma_le64_of_bytes(s1.actions[signum].handler as u64);
    lemma_le32_of_bytes(s1.actions[signum].mask.bits);
    assert forall|v: int| saved <= v < saved + 12 implies #[trigger] reachable(s, m1, v) by {
        assert(reachable(s, k.machine.mem, v));
    }
    assert forall|v: int| other <= v < other + 12 implies #[trigger] reachable(s, m1, v) by {
        assert(reachable(s, k.machine.mem, v));
    }
    law_write_elsewhere(s, m1, other, b1, saved, 12);
    law_current_reads_back(kw, other, b1);
    let m2 = k2.machine.mem;
    assert(user_bytes(s, m2, saved, 12) == b);
    assert(user_bytes(s, m2, saved, 8) =~= le64_bytes(a.handler as u64)) by {
        assert forall|i: int| 0 <= i < 8 implies user_bytes(s, m2, saved, 8)[i] == le64_bytes(
            a.handler as u64,
        )[i] by {
            assert(user_bytes(s, m2, saved, 12)[i] == b[i]);
        }
    }
    assert(user_bytes(s, m2, saved + 8, 4) =~= le32_bytes(a.mask.bits)) by {
        assert forall|i: int| 0 <= i < 4 implies user_bytes(s, m2, saved + 8, 4)[i] == le32_bytes(
            a.mask.bits,
        )[i] by {
            assert(user_bytes(s, m2, saved, 12)[i + 8] == b[i + 8]);
        }
    }
    assert(action_at(s, m2, saved) == a);
    assert(s1.actions.update(signum, a) =~= t.signal.actions);
    assert(same_pids(k1.tasks, k2.tasks));
    lemma_same_index(k1.tasks, k2.tasks, k.current->0, 0);
}

} // verus!
