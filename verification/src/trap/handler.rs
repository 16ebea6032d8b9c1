//! What the kernel does about a trap.
//!
//! All traps of processes come here, with their cause. Timer interrupts trigger task
//! preemption, and system calls are handed on with their number and their arguments.
use super::context::{TrapContext, TrapModel};
use crate::config::{TRAMPOLINE, TRAP_CONTEXT_BASE};
use crate::mm::memory_set::areas_released;
use crate::mm::page_table::token_of;
use crate::task::current::{
    check_signals_error_of_current, current_add_signal, current_trap_cx, handle_signals,
    lemma_with_trap_cx, set_current_trap_cx,
};
use crate::task::kernel::{lemma_current, lemma_same_index, same_pids, Kernel, KernelModel};
use crate::task::lifecycle::{exit_current_and_run_next, exited, IDLE_PID};
use crate::task::sched::{current_user_token, suspend_current_and_run_next, suspended};
use crate::task::signal::{delivered, error_of, SignalFlags, SignalModel, SIGILL, SIGSEGV};
use vstd::prelude::*;

verus! {

/// Why a process has trapped.
#[derive(Copy, Clone, PartialEq, Eq, Debug, Structural)]
pub enum TrapCause {
    UserEnvCall,
    StoreFault,
    StorePageFault,
    InstructionFault,
    InstructionPageFault,
    LoadFault,
    LoadPageFault,
    IllegalInstruction,
    SupervisorTimer,
    /// One that the kernel does not support.
    Other,
}

/// What has to be done next about a trap.
#[derive(Copy, Clone, Debug)]
pub enum TrapAction {
    /// The system call with the given number and arguments.
    Syscall(usize, [usize; 4]),
    /// Signals are looked at, and the process goes on.
    Continue,
    /// The next timer interrupt is set, and another process runs; the process with the
    /// given number goes on when it runs again.
    Preempt(usize),
}

/// The kernel after the current process got a signal.
pub open spec fn signalled(k: KernelModel, bits: u32) -> KernelModel {
    k.with_signal(
        SignalModel {
            signals: SignalFlags { bits: k.task().signal.signals.bits | bits },
            ..k.task().signal
        },
    )
}

/// What a trap of the current process comes to.
pub open spec fn trapped(cause: TrapCause, k: KernelModel, k2: KernelModel, r: TrapAction) -> bool {
    match cause {
        TrapCause::UserEnvCall => {
            let cx = k.trap_cx();
            &&& k2 == k.with_trap_cx(TrapModel { sepc: (cx.sepc + 4) as usize, ..cx })
            &&& r matches TrapAction::Syscall(id, args)
            &&& id == cx.x[17]
            &&& args@ == cx.x.subrange(10, 14)
        },
        TrapCause::IllegalInstruction => r == TrapAction::Continue && k2 == signalled(k, SIGILL),
        TrapCause::SupervisorTimer => r == TrapAction::Preempt(k.current->0) && k2 == suspended(k),
        _ => r == TrapAction::Continue && k2 == signalled(k, SIGSEGV),
    }
}

/// trap handler: what comes of a trap, before signals are looked at. A process that makes
/// a system call goes on behind the instruction with which it did so.
pub fn trap_handler(cause: TrapCause, k: &mut Kernel) -> (r: TrapAction)
    requires
        old(k)@.wf(),
        old(k)@.runs(),
        cause != TrapCause::Other,
        cause == TrapCause::UserEnvCall ==> old(k)@.trap_cx().sepc + 4 <= usize::MAX,
    ensures
        final(k)@.wf(),
        trapped(cause, old(k)@, final(k)@, r),
{
    match cause {
        TrapCause::UserEnvCall => {
            // jump to next instruction anyway
            let mut cx: TrapContext = current_trap_cx(k);
            cx.sepc += 4;
            set_current_trap_cx(k, &cx);
            let args: [usize; 4] = [cx.x[10], cx.x[11], cx.x[12], cx.x[13]];
            assert(args@ =~= cx@.x.subrange(10, 14));
            TrapAction::Syscall(cx.x[17], args)
        },
        TrapCause::IllegalInstruction => {
            current_add_signal(k, SignalFlags { bits: SIGILL });
            TrapAction::Continue
        },
        TrapCause::SupervisorTimer => TrapAction::Preempt(suspend_current_and_run_next(k)),
        _ => {
            current_add_signal(k, SignalFlags { bits: SIGSEGV });
            TrapAction::Continue
        },
    }
}

/// The kernel after the current process got the result of a system call.
pub open spec fn with_result(k: KernelModel, result: isize) -> KernelModel {
    k.with_trap_cx(k.trap_cx().with_x(10, result as usize))
}

/// Hand the result of a system call to the current process.
pub fn finish_syscall(result: isize, k: &mut Kernel)
    requires
        old(k)@.wf(),
        old(k)@.runs(),
    ensures
        final(k)@.wf(),
        final(k)@ == with_result(old(k)@, result),
{
    // cx is changed during sys_exec, so we have to call it again
    let mut cx: TrapContext = current_trap_cx(k);
    cx.set_x(10, result as usize);
    set_current_trap_cx(k, &cx);
}

/// What becomes of a process that has looked at its signals.
#[derive(Copy, Clone, PartialEq, Eq, Debug, Structural)]
pub enum SignalOutcome {
    /// It is frozen: another process runs, and this one looks at its signals again when it
    /// runs again.
    Wait,
    /// It was ended by a signal, and another process runs.
    Exit,
    /// It goes on.
    Return,
}

/// The kernel after the current process has handled its signals.
pub open spec fn signals_handled(k: KernelModel) -> KernelModel {
    let d = delivered(k.task().signal, k.trap_cx(), 0);
    k.with_signal(d.0).with_trap_cx(d.1)
}

/// What it comes to that the current process has looked at its signals: it waits if it is
/// frozen, ends if it has a signal that ends it, and goes on otherwise.
pub open spec fn signals_checked(k: KernelModel, k2: KernelModel, r: SignalOutcome) -> bool {
    let d = delivered(k.task().signal, k.trap_cx(), 0).0;
    let k1 = signals_handled(k);
    if d.frozen && !d.killed {
        r == SignalOutcome::Wait && k2 == suspended(k1)
    } else {
        match error_of(d.signals) {
            Some(e) => {
                &&& r == SignalOutcome::Exit
                &&& k2 == exited(k1, e.0 as i32, k2.machine.mem)
                &&& areas_released(
                    k1.task().space.areas,
                    k1.machine.mem,
                    k2.machine.mem,
                    k1.task().space.areas.len() as int,
                )
            },
            None => r == SignalOutcome::Return && k2 == k1,
        }
    }
}

/// The current process looks at its signals before it goes on after a trap. The first
/// process must not have a signal that ends it.
pub fn check_signals(k: &mut Kernel) -> (r: SignalOutcome)
    requires
        old(k)@.wf(),
        old(k)@.runs(),
        ({
            let d = delivered(old(k)@.task().signal, old(k)@.trap_cx(), 0).0;
            old(k)@.current == Some(IDLE_PID) ==> error_of(d.signals) is None
        }),
    ensures
        final(k)@.wf(),
        signals_checked(old(k)@, final(k)@, r),
{
    let ghost o = k@;
    let ghost d = delivered(o.task().signal, o.trap_cx(), 0);
    proof {
        lemma_current(o);
        assert(same_pids(o.tasks, o.with_signal(d.0).tasks));
        lemma_same_index(o.tasks, o.with_signal(d.0).tasks, o.current->0, 0);
    }
    let frozen: bool = handle_signals(k);
    assert(k@.task().signal == d.0);
    if frozen {
        suspend_current_and_run_next(k);
        return SignalOutcome::Wait;
    }
    // check error signals (if error then exit)
    match check_signals_error_of_current(k) {
        Some((errno, _)) => {
            exit_current_and_run_next(k, errno);
            SignalOutcome::Exit
        },
        None => SignalOutcome::Return,
    }
}

/// return to user space: the address of the trap context and the page table of the current
/// process, and the address of the code that goes to user mode, in the page of the
/// trampoline. `alltraps` and `restore` are the addresses of the code that enters and
/// leaves the kernel.
pub fn trap_return(alltraps: usize, restore: usize, k: &Kernel) -> (r: (usize, usize, usize))
    requires
        k@.wf(),
        k@.runs(),
        alltraps <= restore,
        restore - alltraps + TRAMPOLINE <= usize::MAX,
    ensures
        r.0 == TRAP_CONTEXT_BASE,
        r.1 == token_of(k@.task().space.root),
        r.2 == restore - alltraps + TRAMPOLINE,
{
    let trap_cx_ptr: usize = TRAP_CONTEXT_BASE;
    let user_satp: usize = current_user_token(k);
    let restore_va: usize = restore - alltraps + TRAMPOLINE;
    (trap_cx_ptr, user_satp, restore_va)
}

/// A process that makes a system call sees nothing of it but its result: its registers and
/// its program counter are as they were, but for the result and the step behind the
/// instruction.
pub proof fn law_syscall_result(k: KernelModel, result: isize)
    requires
        k.wf(),
        k.runs(),
        k.trap_cx().sepc + 4 <= usize::MAX,
    ensures
        ({
            let cx = k.trap_cx();
            let k1 = k.with_trap_cx(TrapModel { sepc: (cx.sepc + 4) as usize, ..cx });
            let k2 = with_result(k1, result);
            k2.trap_cx() == (TrapModel {
                sepc: (cx.sepc + 4) as usize,
                ..cx.with_x(10, result as usize)
            })
        }),
{
    let cx = k.trap_cx();
    let cx1 = TrapModel { sepc: (cx.sepc + 4) as usize, ..cx };
    lemma_with_trap_cx(k, cx1);
    let k1 = k.with_trap_cx(cx1);
    lemma_with_trap_cx(k1, k1.trap_cx().with_x(10, result as usize));
}

} // verus!
