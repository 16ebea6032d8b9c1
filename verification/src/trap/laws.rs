//! What holds of a process after a trap.
use super::context::TrapModel;
use super::handler::{signals_checked, trapped, with_result, SignalOutcome, TrapAction, TrapCause};
use crate::syscall::laws::{law_fault_signal, lemma_one_signal};
use crate::task::current::lemma_with_trap_cx;
use crate::task::kernel::{lemma_current, lemma_same_index, same_pids, KernelModel};
use crate::task::laws::{in_set, law_fatal_signals, lemma_numbers};
use crate::task::signal::{delivered, SIGILL, SIGSEGV};
use crate::task::task::TaskStatus;
use vstd::prelude::*;

verus! {

/// What comes of a trap. A system call has its number from a7 and its arguments from a0 to a3,
/// and the process goes on four bytes behind. An illegal instruction brings the process SIGILL
/// (4), an access that is not allowed SIGSEGV (11), and no other signal. When its time is up,
/// it goes to the end of the queue.
#[verifier::spinoff_prover]
#[verifier::rlimit(60)]
pub proof fn law_trapped(cause: TrapCause, k: KernelModel, k2: KernelModel, r: TrapAction, n: int)
    requires
        k.wf(),
        k.runs(),
        k.trap_cx().sepc + 4 <= usize::MAX,
        cause != TrapCause::Other,
        trapped(cause, k, k2, r),
        0 <= n < 32,
    ensures
        ({
            let cx = k.trap_cx();
            let fault = cause != TrapCause::UserEnvCall && cause != TrapCause::SupervisorTimer;
            &&& cause == TrapCause::UserEnvCall ==> {
                &&& r matches TrapAction::Syscall(id, args) && id == cx.x[17] && args@.len() == 4
                    && args@[0] == cx.x[10] && args@[1] == cx.x[11] && args@[2] == cx.x[12]
                    && args@[3] == cx.x[13]
                &&& k2.trap_cx().sepc == cx.sepc + 4
                &&& k2.trap_cx().x == cx.x
                &&& k2.tasks == k.tasks
                &&& k2.ready == k.ready
                &&& k2.current == k.current
            }
            &&& cause == TrapCause::SupervisorTimer ==> {
                &&& r == TrapAction::Preempt(k.task().pid)
                &&& k2.current is None
                &&& k2.ready == k.ready.push(k.task().pid)
                &&& k2.tasks[k.at()].status == TaskStatus::Ready
            }
            &&& fault ==> {
                &&& r == TrapAction::Continue
                &&& k2.current == k.current
                &&& in_set(k2.task().signal.signals, n) <==> in_set(k.task().signal.signals, n) || n
                    == if cause == TrapCause::IllegalInstruction {
                    4
                } else {
                    11int
                }
            }
        }),
{
    lemma_current(k);
    let cx = k.trap_cx();
    if cause == TrapCause::UserEnvCall {
        lemma_with_trap_cx(k, TrapModel { sepc: (cx.sepc + 4) as usize, ..cx });
    }
    law_fault_signal(k, SIGILL);
    law_fault_signal(k, SIGSEGV);
    lemma_numbers(4);
    lemma_numbers(11);
    lemma_one_signal(4, n);
    lemma_one_signal(11, n);
    assert(in_set(k2.task().signal.signals, n) || !in_set(k2.task().signal.signals, n));
}

/// The result of a system call is in a0 of the process, and nothing else changes.
pub proof fn law_result_handed(k: KernelModel, result: isize, i: int)
    requires
        k.wf(),
        k.runs(),
        0 <= i < 32,
    ensures
        ({
            let k2 = with_result(k, result);
            let cx = k.trap_cx();
            &&& k2.trap_cx().x[i] == if i == 10 {
                result as usize
            } else {
                cx.x[i]
            }
            &&& k2.trap_cx().sepc == cx.sepc
            &&& k2.trap_cx().sstatus == cx.sstatus
            &&& k2.tasks == k.tasks
            &&& k2.ready == k.ready
            &&& k2.current == k.current
        }),
{
    lemma_current(k);
    lemma_with_trap_cx(k, k.trap_cx().with_x(10, result as usize));
}

/// What becomes of a process that has looked at its signals. It waits at the end of the queue if
/// it is stopped and was not killed. Otherwise it ends if SIGINT (2), SIGILL (4), SIGABRT (6),
/// SIGFPE (8), SIGKILL (9) or SIGSEGV (11) is pending, with the negative number of the smallest
/// of them as its exit code. In all other cases it goes on.
#[verifier::spinoff_prover]
#[verifier::rlimit(60)]
pub proof fn law_signals_checked(k: KernelModel, k2: KernelModel, r: SignalOutcome)
    requires
        k.wf(),
        k.runs(),
        k.at() != 0,
        signals_checked(k, k2, r),
    ensures
        ({
            let s = delivered(k.task().signal, k.trap_cx(), 0).0;
            let t = k2.tasks[k.at()];
            let fatal = in_set(s.signals, 2) || in_set(s.signals, 4) || in_set(s.signals, 6)
                || in_set(s.signals, 8) || in_set(s.signals, 9) || in_set(s.signals, 11);
            &&& t.pid == k.task().pid
            &&& r == SignalOutcome::Wait <==> s.frozen && !s.killed
            &&& r == SignalOutcome::Exit <==> !(s.frozen && !s.killed) && fatal
            &&& r == SignalOutcome::Wait ==> {
                &&& t.status == TaskStatus::Ready
                &&& t.signal == s
                &&& k2.current is None
                &&& k2.ready == k.ready.push(t.pid)
            }
            &&& r == SignalOutcome::Exit ==> {
                &&& t.status == TaskStatus::Zombie
                &&& t.exit_code < 0
                &&& in_set(s.signals, -t.exit_code)
                &&& k2.current is None
                &&& k2.ready == k.ready
            }
            &&& r == SignalOutcome::Return ==> {
                &&& t.status == TaskStatus::Running
                &&& t.signal == s
                &&& k2.current == k.current
                &&& k2.ready == k.ready
            }
        }),
{
    let s = delivered(k.task().signal, k.trap_cx(), 0).0;
    let k0 = k.with_signal(s);
    lemma_current(k);
    assert(same_pids(k.tasks, k0.tasks));
    lemma_same_index(k.tasks, k0.tasks, k.current->0, 0);
    law_fatal_signals(s.signals);
}

} // verus!
