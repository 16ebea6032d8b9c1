//! What holds of system calls over the whole of the kernel.
use super::process::{
    action_bytes, action_set, args_taken, bad_sigaction, exited_child, file_named, fork_done,
    kill_done, lemma_children, lemma_reaped_current, mask_done, return_done, sbrk_done, wait_done,
    waited, waits_for_child, wanted,
};
use crate::easy_fs::bytes::{
    le32, le32_bytes, le64, le64_bytes, lemma_le32_of_bytes, lemma_le64_of_bytes,
};
use crate::easy_fs::tree::{entries, find_from, lemma_find_from, name_of};
use crate::mm::address::VirtAddr;
use crate::mm::frame_allocator::MemoryModel;
use crate::mm::memory_set::{find_start, floor_of};
use crate::mm::owner::{law_write_elsewhere, lemma_holds, lemma_reachable_owned, owns, ranges_apart};
use crate::mm::user::{range_reachable, reachable, string_at, user_byte, user_bytes, user_word};
use crate::task::current::{law_current_reads_back, lemma_with_user_bytes};
use crate::task::id::{lemma_freed, stack_top};
use crate::task::kernel::{ids_ok, lemma_current, lemma_same_index, same_pids, KernelModel};
use crate::task::laws::{in_set, law_signals_arrive, lemma_in_set, lemma_numbers};
use crate::task::lifecycle::reaped;
use crate::task::machine::MachineModel;
use crate::task::signal::{flag, SignalFlags, SignalModel};
use crate::task::table::{index_of, lemma_index_from, lemma_index_of, pids_distinct};
use crate::task::task::{law_fork_context, lemma_copy, TaskModel, TaskStatus};
use crate::trap::context::{context_in, law_context_kept, with_context, TrapModel};
use crate::trap::handler::signalled;
use vstd::prelude::*;

verus! {

/// A number that is taken as one without a sign, and back, is the same.
proof fn lemma_unsigned(pid: isize, p: usize)
    requires
        pid as usize == p,
    ensures
        p as isize == pid,
{
    assert((pid as usize) as isize == pid) by (bit_vector);
}

/// Waiting for the child with a given number. The result is -1 if the process has no such
/// child, -2 if that child has not exited, and its number if it has: no other child is ever
/// collected. Unless it is collected nothing changes.
#[verifier::spinoff_prover]
#[verifier::rlimit(60)]
pub proof fn law_wait_for_one(
    k: KernelModel,
    k2: KernelModel,
    pid: isize,
    exit_code_ptr: usize,
    r: isize,
)
    requires
        k.wf(),
        k.runs(),
        pid != -1,
        wait_done(k, k2, pid, exit_code_ptr, r),
    ensures
        !k.task().children.contains(pid as usize) ==> r == -1 && k2 == k,
        forall|i: int|
            0 <= i < k.tasks.len() && (#[trigger] k.tasks[i]).pid == pid as usize
                && k.task().children.contains(pid as usize) ==> if k.tasks[i].status
                == TaskStatus::Zombie {
                r == pid && k2 != k
            } else {
                r == -2 && k2 == k
            },
        r != -1 && r != -2 ==> r == pid,
{
    let p = pid as usize;
    let cs = k.task().children;
    lemma_current(k);
    lemma_unsigned(pid, p);
    if cs.contains(p) {
        let c = choose|c: int| 0 <= c < cs.len() && cs[c] == p;
        assert(wanted(pid, cs[c]));
        lemma_children(k, c);
        let j = index_of(k.tasks, p);
        assert forall|i: int|
            0 <= i < k.tasks.len() && (#[trigger] k.tasks[i]).pid == p implies i == j by {
            lemma_index_of(k.tasks, i);
        }
        if k.tasks[j].status == TaskStatus::Zombie {
            assert(exited_child(k, pid, c));
            let (d, n, m1) = choose|d: int, n: MachineModel, m1: MemoryModel| #[trigger]
                waited(k, k2, pid, d, n, m1, exit_code_ptr, r);
            assert(k2.tasks.len() == k.tasks.len() - 1);
        } else {
            assert forall|d: int| !#[trigger] exited_child(k, pid, d) by {}
        }
    } else {
        assert(!waits_for_child(k, pid)) by {
            if waits_for_child(k, pid) {
                let c = choose|c: int| 0 <= c < cs.len() && wanted(pid, #[trigger] cs[c]);
                assert(cs[c] == p);
            }
        }
    }
}

/// Waiting for any child: -1 if there is none, -2 if none has exited, and else the number of
/// the first in the list that has.
#[verifier::spinoff_prover]
#[verifier::rlimit(60)]
pub proof fn law_wait_for_any(
    k: KernelModel,
    k2: KernelModel,
    pid: isize,
    exit_code_ptr: usize,
    r: isize,
)
    requires
        k.wf(),
        k.runs(),
        pid == -1,
        wait_done(k, k2, pid, exit_code_ptr, r),
    ensures
        k.task().children.len() == 0 ==> r == -1 && k2 == k,
        k.task().children.len() > 0 && (forall|i: int|
            0 <= i < k.tasks.len() && k.task().children.contains((#[trigger] k.tasks[i]).pid)
                ==> k.tasks[i].status != TaskStatus::Zombie) ==> r == -2 && k2 == k,
        forall|i: int|
            0 <= i < k.tasks.len() && k.task().children.contains((#[trigger] k.tasks[i]).pid)
                && k.tasks[i].status == TaskStatus::Zombie ==> k2 != k && exists|c: int|
                0 <= c < k.task().children.len() && r == (#[trigger] k.task().children[c]) as isize
                    && c <= k.task().children.index_of(k.tasks[i].pid),
{
    let cs = k.task().children;
    lemma_current(k);
    if cs.len() > 0 {
        assert(wanted(pid, cs[0]));
    }
    assert forall|c: int| 0 <= c < cs.len() implies {
        let j = index_of(k.tasks, #[trigger] cs[c]);
        0 <= j < k.tasks.len() && k.tasks[j].pid == cs[c]
    } by {
        lemma_children(k, c);
    }
    if forall|i: int|
        0 <= i < k.tasks.len() && cs.contains((#[trigger] k.tasks[i]).pid) ==> k.tasks[i].status
            != TaskStatus::Zombie {
        assert forall|c: int| !#[trigger] exited_child(k, pid, c) by {
            if exited_child(k, pid, c) {
                let j = index_of(k.tasks, cs[c]);
                assert(cs.contains(k.tasks[j].pid));
            }
        }
    }
    assert forall|i: int|
        0 <= i < k.tasks.len() && cs.contains((#[trigger] k.tasks[i]).pid) && k.tasks[i].status
            == TaskStatus::Zombie implies k2 != k && exists|c: int|
        0 <= c < cs.len() && r == (#[trigger] cs[c]) as isize && c <= cs.index_of(
            k.tasks[i].pid,
        ) by {
        let e = cs.index_of(k.tasks[i].pid);
        assert(cs[e] == k.tasks[i].pid);
        lemma_index_of(k.tasks, i);
        assert(exited_child(k, pid, e));
        let (d, n, m1) = choose|d: int, n: MachineModel, m1: MemoryModel| #[trigger]
            waited(k, k2, pid, d, n, m1, exit_code_ptr, r);
        assert(k2.tasks.len() == k.tasks.len() - 1);
        assert(r == cs[d] as isize);
        if d > e {
            assert(!exited_child(k, pid, e));
        }
    }
}

/// Collecting a child: its process is gone and its number is free, its parent has its exit code
/// and does not list it any more, and no other process changes.
#[verifier::spinoff_prover]
#[verifier::rlimit(60)]
pub proof fn law_child_collected(
    k: KernelModel,
    k2: KernelModel,
    pid: isize,
    c: int,
    n: MachineModel,
    m1: MemoryModel,
    exit_code_ptr: usize,
    r: isize,
)
    requires
        k.wf(),
        k.runs(),
        reaped(k, k.at(), c, n).wf(),
        waited(k, k2, pid, c, n, m1, exit_code_ptr, r),
        range_reachable(k.task().space, k.machine.mem, exit_code_ptr as int, 4),
    ensures
        ({
            let p = k.task().children[c];
            &&& r == p as isize
            &&& forall|i: int| 0 <= i < k2.tasks.len() ==> (#[trigger] k2.tasks[i]).pid != p
            &&& forall|i: int|
                0 <= i < k.tasks.len() && (#[trigger] k.tasks[i]).pid != p && i != k.at()
                    ==> k2.tasks.contains(k.tasks[i])
            &&& k2.task() == (TaskModel { children: k2.task().children, ..k.task() })
            &&& forall|q: usize| #[trigger]
                k2.task().children.contains(q) <==> k.task().children.contains(q) && q != p
            &&& k2.current == k.current
            &&& k2.ready == k.ready
            &&& k2.inodes == k.inodes
            &&& k2.pipes == k.pipes
            &&& !k2.machine.pids.in_use(p)
            &&& forall|i: int|
                0 <= i < k.tasks.len() && (#[trigger] k.tasks[i]).pid == p ==> {
                    &&& k.tasks[i].status == TaskStatus::Zombie
                    &&& !k2.machine.kstacks.in_use(k.tasks[i].kernel_stack)
                    &&& le32(
                        user_bytes(k2.task().space, k2.machine.mem, exit_code_ptr as int, 4),
                        0,
                    ) == k.tasks[i].exit_code as u32
                }
        }),
{
    let at = k.at();
    let cs = k.task().children;
    let p = cs[c];
    let j = index_of(k.tasks, p);
    let t = k.tasks[j];
    let k1 = reaped(k, at, c, n);
    lemma_current(k);
    lemma_children(k, c);
    lemma_reaped_current(k, k1, c, n, m1);
    lemma_current(k1);
    let at2 = if at < j {
        at
    } else {
        at - 1
    };
    assert(at != j);
    assert(k1.tasks[at2] == (TaskModel { children: cs.remove(c), ..k.task() }));
    assert(pids_distinct(k1.tasks));
    lemma_index_of(k1.tasks, at2);
    assert(k1.at() == at2);
    let data = le32_bytes(t.exit_code as u32);
    lemma_le32_of_bytes(t.exit_code as u32);
    assert forall|v: int| exit_code_ptr <= v < exit_code_ptr + 4 implies #[trigger] reachable(
        k1.task().space,
        k1.machine.mem,
        v,
    ) by {
        assert(reachable(k.task().space, k.machine.mem, v));
        lemma_reachable_owned(k.task().space, k.machine.mem, v);
    }
    law_current_reads_back(k1, exit_code_ptr as int, data);
    assert(k2.tasks == k1.tasks);
    assert forall|i: int| 0 <= i < k2.tasks.len() implies (#[trigger] k2.tasks[i]).pid != p by {
        let i0 = if i < j {
            i
        } else {
            i + 1
        };
        assert(k2.tasks[i].pid == k.tasks[i0].pid);
        assert(k.tasks[i0].pid != k.tasks[j].pid);
    }
    assert forall|i: int|
        0 <= i < k.tasks.len() && (#[trigger] k.tasks[i]).pid != p && i != at implies k2.tasks.contains(
        k.tasks[i],
    ) by {
        let i2 = if i < j {
            i
        } else {
            i - 1
        };
        assert(k2.tasks[i2] == k.tasks[i]);
    }
    assert forall|i: int| 0 <= i < k.tasks.len() && (#[trigger] k.tasks[i]).pid == p implies i
        == j by {
        lemma_index_of(k.tasks, i);
    }
    assert(cs.no_duplicates()) by {
        reveal(crate::task::kernel::family_ok);
        assert(k.tasks[at].children.no_duplicates());
    }
    assert forall|q: usize| #[trigger] cs.remove(c).contains(q) <==> cs.contains(q) && q != p by {
        let rest = cs.remove(c);
        if rest.contains(q) {
            let i = choose|i: int| 0 <= i < rest.len() && rest[i] == q;
            let i0 = if i < c {
                i
            } else {
                i + 1
            };
            assert(cs[i0] == q && i0 != c);
        }
        if cs.contains(q) && q != p {
            let i = choose|i: int| 0 <= i < cs.len() && cs[i] == q;
            let i2 = if i < c {
                i
            } else {
                i - 1
            };
            assert(rest[i2] == q);
        }
    }
    reveal(ids_ok);
    assert(k.machine.pids.in_use(k.tasks[j].pid));
    lemma_freed(k.machine.pids, t.pid);
    lemma_freed(k.machine.kstacks, t.kernel_stack);
}

/// Sending a signal: it arrives at the process with the number, and at no other, and nothing
/// else changes. It is refused, and nothing changes at all, if there is no such process, if it
/// has exited, if there is no such signal, or if the signal is pending there already.
#[verifier::spinoff_prover]
#[verifier::rlimit(60)]
pub proof fn law_kill(k: KernelModel, k2: KernelModel, pid: usize, signum: int, r: isize)
    requires
        k.wf(),
        kill_done(k, k2, pid, signum, r),
    ensures
        (forall|i: int| 0 <= i < k.tasks.len() ==> (#[trigger] k.tasks[i]).pid != pid) ==> r == -1
            && k2 == k,
        forall|i: int|
            0 <= i < k.tasks.len() && (#[trigger] k.tasks[i]).pid == pid ==> {
                let t = k.tasks[i];
                let t2 = k2.tasks[i];
                if t.status == TaskStatus::Zombie || !(0 <= signum < 32) || in_set(
                    t.signal.signals,
                    signum,
                ) {
                    r == -1 && k2 == k
                } else {
                    &&& r == 0
                    &&& k2 == (KernelModel { tasks: k2.tasks, ..k })
                    &&& k2.tasks.len() == k.tasks.len()
                    &&& forall|j: int|
                        0 <= j < k.tasks.len() && j != i ==> #[trigger] k2.tasks[j] == k.tasks[j]
                    &&& t2 == (TaskModel {
                        signal: SignalModel { signals: t2.signal.signals, ..t.signal },
                        ..t
                    })
                    &&& forall|n: int|
                        0 <= n < 32 ==> (#[trigger] in_set(t2.signal.signals, n) <==> in_set(
                            t.signal.signals,
                            n,
                        ) || n == signum)
                }
            },
{
    lemma_index_from(k.tasks, pid, 0);
    assert forall|i: int| 0 <= i < k.tasks.len() && (#[trigger] k.tasks[i]).pid == pid implies i
        == index_of(k.tasks, pid) by {
        reveal(ids_ok);
        lemma_index_of(k.tasks, i);
    }
    let i = index_of(k.tasks, pid);
    if i < k.tasks.len() && 0 <= signum < 32 {
        let s = k.tasks[i].signal.signals;
        lemma_in_set(s, signum);
        assert forall|n: int| 0 <= n < 32 implies in_set(
            SignalFlags { bits: s.bits | flag(signum) },
            n,
        ) == (in_set(s, n) || n == signum) by {
            law_signals_arrive(s, flag(signum), n);
            lemma_one_signal(signum, n);
        }
    }
}

/// The flag of a signal is in the set of that signal alone.
pub proof fn lemma_one_signal(sig: int, n: int)
    requires
        0 <= sig < 32,
        0 <= n < 32,
    ensures
        in_set(SignalFlags { bits: flag(sig) }, n) <==> n == sig,
{
    let i = sig as u32;
    let j = n as u32;
    assert(((1u32 << i) >> j) & 1 == 1 <==> i == j) by (bit_vector)
        requires
            i < 32,
            j < 32,
    ;
}

/// A process that makes an error gets the signal for it, besides those that it has. No other
/// process gets it, and nothing else changes.
pub proof fn law_fault_signal(k: KernelModel, bits: u32)
    requires
        k.wf(),
        k.runs(),
    ensures
        ({
            let k2 = signalled(k, bits);
            let s = k.task().signal;
            let s2 = k2.task().signal;
            &&& k2 == (KernelModel { tasks: k2.tasks, ..k })
            &&& k2.tasks.len() == k.tasks.len()
            &&& forall|j: int|
                0 <= j < k.tasks.len() && j != k.at() ==> #[trigger] k2.tasks[j] == k.tasks[j]
            &&& k2.task() == (TaskModel {
                signal: SignalModel { signals: s2.signals, ..s },
                ..k.task()
            })
            &&& forall|n: int|
                0 <= n < 32 ==> (#[trigger] in_set(s2.signals, n) <==> in_set(s.signals, n)
                    || in_set(SignalFlags { bits }, n))
        }),
{
    let k2 = signalled(k, bits);
    lemma_current(k);
    assert(same_pids(k.tasks, k2.tasks));
    lemma_same_index(k.tasks, k2.tasks, k.current->0, 0);
    let s2 = k2.task().signal;
    assert(s2.signals.bits == k.task().signal.signals.bits | bits);
    assert(k2.tasks[k.at()] == k2.task());
    assert forall|n: int| 0 <= n < 32 implies (#[trigger] in_set(s2.signals, n) <==> in_set(
        k.task().signal.signals,
        n,
    ) || in_set(SignalFlags { bits }, n)) by {
        law_signals_arrive(k.task().signal.signals, bits, n);
    }
}

/// The action of a signal cannot be set for SIGKILL (9) and SIGSTOP (19), and for all others it
/// can, unless a pointer is null.
pub proof fn law_settable_signals(sig: int, action: usize, old_action: usize)
    requires
        0 <= sig < 32,
    ensures
        bad_sigaction(flag(sig), action, old_action) <==> action == 0 || old_action == 0 || sig == 9
            || sig == 19,
{
    lemma_numbers(sig);
}

/// Setting the action of a signal: the process has the handler and the mask that lie at
/// `action`, the ones before lie at `old_action`, and all other actions, the signals that are
/// pending and the masks are as they were.
#[verifier::spinoff_prover]
#[verifier::rlimit(60)]
pub proof fn law_action_set(
    k: KernelModel,
    k2: KernelModel,
    signum: int,
    action: int,
    old_action: int,
)
    requires
        k.wf(),
        k.runs(),
        0 <= signum < 32,
        range_reachable(k.task().space, k.machine.mem, action, 12),
        range_reachable(k.task().space, k.machine.mem, old_action, 12),
        ranges_apart(old_action, 12, action, 12),
        action_set(k, k2, signum, action, old_action),
    ensures
        ({
            let s = k.task().space;
            let a = k.task().signal.actions;
            let a2 = k2.task().signal.actions;
            let m = k.machine.mem;
            let m2 = k2.machine.mem;
            &&& a2.len() == a.len()
            &&& a2[signum].handler == le64(user_bytes(s, m, action, 8), 0) as usize
            &&& a2[signum].mask.bits == le32(user_bytes(s, m, action + 8, 4), 0)
            &&& forall|i: int| 0 <= i < a.len() && i != signum ==> #[trigger] a2[i] == a[i]
            &&& le64(user_bytes(s, m2, old_action, 8), 0) == a[signum].handler
            &&& le32(user_bytes(s, m2, old_action + 8, 4), 0) == a[signum].mask.bits
            &&& k2.task() == (TaskModel {
                signal: SignalModel { actions: a2, ..k.task().signal },
                ..k.task()
            })
        }),
{
    let s = k.task().space;
    let m = k.machine.mem;
    let a = k.task().signal.actions[signum];
    let b = action_bytes(a);
    lemma_current(k);
    lemma_le64_of_bytes(a.handler as u64);
    lemma_le32_of_bytes(a.mask.bits);
    let k1 = k.with_user_bytes(old_action, b);
    lemma_with_user_bytes(k, old_action, b);
    law_current_reads_back(k, old_action, b);
    law_write_elsewhere(s, m, old_action, b, action, 12);
    let m2 = k1.machine.mem;
    assert(same_pids(k1.tasks, k2.tasks));
    lemma_same_index(k1.tasks, k2.tasks, k.current->0, 0);
    lemma_split(s, m, action);
    lemma_split(s, m2, action);
    lemma_split(s, m2, old_action);
    assert(b.take(8) =~= le64_bytes(a.handler as u64));
    assert(b.skip(8) =~= le32_bytes(a.mask.bits));
}

/// The first eight and the last four of twelve bytes.
proof fn lemma_split(
    s: crate::mm::space::SpaceModel,
    m: MemoryModel,
    v: int,
)
    ensures
        user_bytes(s, m, v, 8) == user_bytes(s, m, v, 12).take(8),
        user_bytes(s, m, v + 8, 4) == user_bytes(s, m, v, 12).skip(8),
{
    assert(user_bytes(s, m, v, 8) =~= user_bytes(s, m, v, 12).take(8));
    assert(user_bytes(s, m, v + 8, 4) =~= user_bytes(s, m, v, 12).skip(8));
}

/// Copying the current process: there is one process more, whose parent is the current process
/// and which waits for its turn at the end of the queue. The child goes on where the parent
/// is, with the same registers but for 0 in a0, so that it can tell itself from the parent,
/// whose own context does not change. No other process changes, but that the parent lists the
/// child behind its other children.
#[verifier::spinoff_prover]
#[verifier::rlimit(60)]
pub proof fn law_fork_call(
    k: KernelModel,
    k2: KernelModel,
    c: TaskModel,
    n: MachineModel,
    m1: MemoryModel,
    m2: MemoryModel,
)
    requires
        k.wf(),
        k.runs(),
        k.machine.mem.frames.free_count() > 0,
        fork_done(k, k2, c, n, m1, m2),
    ensures
        k2.tasks.len() == k.tasks.len() + 1,
        k2.tasks.last() == c,
        c.parent == k.current,
        forall|i: int|
            0 <= i < k.tasks.len() && i != k.at() ==> #[trigger] k2.tasks[i] == k.tasks[i],
        k2.tasks[k.at()] == (TaskModel {
            children: k.task().children.push(c.pid),
            ..k.task()
        }),
        k2.ready == k.ready.push(c.pid),
        k2.current == k.current,
        k2.inodes == k.inodes,
        k2.pipes == k.pipes,
        c.trap_cx(k2.machine.mem) == (TrapModel {
            x: k.trap_cx().x.update(10, 0),
            kernel_sp: stack_top(c.kernel_stack as int) as usize,
            ..k.trap_cx()
        }),
        k.task().trap_cx(k2.machine.mem) == k.trap_cx(),
{
    lemma_current(k);
    lemma_index_of(k.tasks, k.at());
    lemma_fork_contexts(k, k2, c, n, m1, m2);
}

/// The contexts of a process that was copied and of its copy.
#[verifier::spinoff_prover]
#[verifier::rlimit(60)]
proof fn lemma_fork_contexts(
    k: KernelModel,
    k2: KernelModel,
    c: TaskModel,
    n: MachineModel,
    m1: MemoryModel,
    m2: MemoryModel,
)
    requires
        k.wf(),
        k.runs(),
        k.machine.mem.frames.free_count() > 0,
        fork_done(k, k2, c, n, m1, m2),
    ensures
        c.trap_cx(k2.machine.mem) == (TrapModel {
            x: k.trap_cx().x.update(10, 0),
            kernel_sp: stack_top(c.kernel_stack as int) as usize,
            ..k.trap_cx()
        }),
        k.task().trap_cx(k2.machine.mem) == k.trap_cx(),
{
    let t = k.task();
    let o = k.machine;
    let p = c.trap_cx_ppn as int;
    let q = t.trap_cx_ppn as int;
    lemma_current(k);
    law_fork_context(t, c, o, n, m1, m2);
    lemma_copy(t, c.space, o.mem, m1, o.strampoline);
    lemma_holds(c.space, m1);
    lemma_holds(t.space, o.mem);
    assert(owns(c.space, p));
    assert(!o.mem.in_use(p));
    assert(m2.in_use(p));
    assert(o.mem.in_use(q));
    assert(m1.in_use(q) && m2.in_use(q) && m2.page(q) == o.mem.page(q));
    let cx = context_in(n.mem.page(p)).with_x(10, 0);
    law_context_kept(n.mem.page(p), cx);
    assert(k2.machine.mem.page(p) == with_context(n.mem.page(p), cx));
    assert(k2.machine.mem.page(q) == o.mem.page(q));
}

/// The program that a name leads to is the file of the first entry of the root directory with
/// the name, and there is none if no entry has it.
pub proof fn law_program_named(d: Seq<Seq<u8>>, name: Seq<u8>, i: int)
    requires
        0 <= i <= entries(d, 0).len(),
        forall|j: int| 0 <= j < i ==> name_of(#[trigger] entries(d, 0)[j]) != name,
        i == entries(d, 0).len() || name_of(entries(d, 0)[i]) == name,
    ensures
        i == entries(d, 0).len() ==> file_named(d, name) is None,
        i < entries(d, 0).len() ==> file_named(d, name) == Some(entries(d, 0)[i].inode_id as int),
{
    let es = entries(d, 0);
    let f = find_from(es, name, 0);
    lemma_find_from(es, name, 0);
    if f < i {
        assert(name_of(es[f]) != name);
    }
    if i < f {
        assert(name_of(es[i]) != name);
    }
}

/// The arguments of a program are read from a list of pointers, eight bytes each, that ends
/// with a null pointer: argument `i` has the characters of the bytes that the pointer at
/// `v + 8 * i` leads to, up to the first zero byte.
#[verifier::spinoff_prover]
#[verifier::rlimit(60)]
pub proof fn law_args_taken(k: KernelModel, v: usize, a: Seq<String>, i: int, len: int, j: int)
    requires
        args_taken(k, v, a),
        0 <= i < a.len(),
        0 <= j < len,
        ({
            let s = k.task().space;
            let m = k.machine.mem;
            let p = user_word(s, m, v + 8 * i) as int;
            &&& string_at(s, m, p, len)
        }),
    ensures
        ({
            let s = k.task().space;
            let m = k.machine.mem;
            let p = user_word(s, m, v + 8 * i) as int;
            &&& p != 0
            &&& user_word(s, m, v + 8 * a.len()) == 0
            &&& a[i]@.len() == len
            &&& a[i]@[j] as u32 == user_byte(s, m, p + j)
            &&& user_byte(s, m, p + j) != 0
            &&& user_byte(s, m, p + len) == 0
        }),
{
    let s = k.task().space;
    let m = k.machine.mem;
    assert(user_word(s, m, super::process::arg_slot(v as int, i)) != 0);
    assert(user_word(s, m, super::process::arg_slot(v as int, a.len() as int)) == 0);
}

/// Moving the program break gives the break before. It moves by the number of bytes, unless
/// it would be below the heap: that is refused, and nothing changes. No other process and
/// nothing else of this one changes but its memory.
#[verifier::spinoff_prover]
#[verifier::rlimit(60)]
pub proof fn law_sbrk(k: KernelModel, k2: KernelModel, size: int, r: isize)
    requires
        k.wf(),
        k.runs(),
        0 <= k.task().program_brk + size <= isize::MAX,
        k.task().program_brk <= isize::MAX,
        sbrk_done(k, k2, size, r),
    ensures
        ({
            let t = k.task();
            let t2 = k2.tasks[k.at()];
            &&& k2.tasks.len() == k.tasks.len()
            &&& forall|j: int|
                0 <= j < k.tasks.len() && j != k.at() ==> #[trigger] k2.tasks[j] == k.tasks[j]
            &&& k2.ready == k.ready
            &&& k2.current == k.current
            &&& k2.inodes == k.inodes
            &&& k2.pipes == k.pipes
            &&& t2 == (TaskModel { space: t2.space, program_brk: t2.program_brk, ..t })
            &&& t.program_brk + size < t.heap_bottom ==> r == -1 && k2 == k
            &&& r == -1 <==> t.program_brk + size < t.heap_bottom || find_start(
                t.space.areas,
                floor_of(VirtAddr(t.heap_bottom)),
                0,
            ) >= t.space.areas.len()
            &&& r != -1 ==> r == t.program_brk && t2.program_brk == t.program_brk + size
        }),
{
    lemma_current(k);
}

/// Setting the signals that have to wait gives those that had to before, and the process has
/// the new ones. Nothing else changes.
pub proof fn law_mask_set(k: KernelModel, k2: KernelModel, mask: u32, r: isize)
    requires
        k.wf(),
        k.runs(),
        mask_done(k, k2, mask, r),
        usize::BITS == 64,
    ensures
        ({
            let s = k.task().signal;
            let s2 = k2.tasks[k.at()].signal;
            &&& r == s.signal_mask.bits
            &&& s2.signal_mask.bits == mask
            &&& s2 == (SignalModel { signal_mask: s2.signal_mask, ..s })
            &&& k2.tasks == k.tasks.update(k.at(), TaskModel { signal: s2, ..k.task() })
            &&& k2 == (KernelModel { tasks: k2.tasks, ..k })
        }),
{
    lemma_current(k);
}

/// When the handler of a signal has run, the process has the context that it had when the
/// handler was started, and no signal is being handled. The result is the a0 of that context,
/// so that the process finds there what it had. Its mask and its pending signals stay.
#[verifier::spinoff_prover]
#[verifier::rlimit(60)]
pub proof fn law_handler_ended(k: KernelModel, k2: KernelModel, r: isize)
    requires
        k.wf(),
        k.runs(),
        k.task().signal.backup is Some,
        return_done(k, k2, r),
    ensures
        ({
            let s = k.task().signal;
            let t2 = k2.tasks[k.at()];
            &&& k2.trap_cx() == s.backup->0
            &&& r == s.backup->0.x[10] as isize
            &&& t2.signal.handling_sig == -1
            &&& t2.signal == (SignalModel { handling_sig: -1, ..s })
            &&& t2 == (TaskModel { signal: t2.signal, ..k.task() })
            &&& forall|j: int|
                0 <= j < k.tasks.len() && j != k.at() ==> #[trigger] k2.tasks[j] == k.tasks[j]
            &&& k2.ready == k.ready
            &&& k2.current == k.current
        }),
{
    lemma_current(k);
}

} // verus!
