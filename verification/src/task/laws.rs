//! What holds of processes and their signals over several operations.
use super::signal::{
    default_action, delivered, error_of, flag, kernel_signal, law_masked_signals_wait, SignalFlags,
    SignalModel, MAX_SIG, SIGABRT, SIGCONT, SIGDEF, SIGFPE, SIGILL, SIGINT, SIGKILL, SIGSEGV,
    SIGSTOP,
};
use crate::trap::context::TrapModel;
use vstd::prelude::*;

verus! {

/// The signal with the number `n` is in the set.
pub open spec fn in_set(s: SignalFlags, n: int) -> bool {
    (s.bits >> (n as u32)) & 1 == 1
}

/// A signal is in a set if its bit is.
pub proof fn lemma_in_set(s: SignalFlags, n: int)
    requires
        0 <= n < 32,
    ensures
        s.has(flag(n)) <==> in_set(s, n),
{
    let b = s.bits;
    let i = n as u32;
    assert(b & (1u32 << i) == (1u32 << i) <==> (b >> i) & 1 == 1) by (bit_vector)
        requires
            i < 32,
    ;
}

/// Toggling a signal changes its bit alone.
proof fn lemma_toggled(b: u32, i: int, n: int)
    requires
        0 <= i < 32,
        0 <= n < 32,
    ensures
        in_set(SignalFlags { bits: b ^ flag(i) }, n) <==> in_set(SignalFlags { bits: b }, n) != (i
            == n),
{
    let x = i as u32;
    let y = n as u32;
    assert(((b ^ (1u32 << x)) >> y) & 1 == 1 <==> ((b >> y) & 1 == 1) != (x == y)) by (bit_vector)
        requires
            x < 32,
            y < 32,
    ;
}

/// The numbers of the signals that have names.
pub proof fn lemma_numbers(n: int)
    requires
        0 <= n < 32,
    ensures
        flag(n) == SIGDEF <==> n == 0,
        flag(n) == SIGINT <==> n == 2,
        flag(n) == SIGILL <==> n == 4,
        flag(n) == SIGABRT <==> n == 6,
        flag(n) == SIGFPE <==> n == 8,
        flag(n) == SIGKILL <==> n == 9,
        flag(n) == SIGSEGV <==> n == 11,
        flag(n) == SIGCONT <==> n == 18,
        flag(n) == SIGSTOP <==> n == 19,
{
    let i = n as u32;
    assert((1u32 << i == 0x1 <==> i == 0) && (1u32 << i == 0x4 <==> i == 2) && (1u32 << i == 0x10
        <==> i == 4) && (1u32 << i == 0x40 <==> i == 6) && (1u32 << i == 0x100 <==> i == 8) && (1u32
        << i == 0x200 <==> i == 9) && (1u32 << i == 0x800 <==> i == 11) && (1u32 << i == 0x4_0000
        <==> i == 18) && (1u32 << i == 0x8_0000 <==> i == 19)) by (bit_vector)
        requires
            i < 32,
    ;
}

/// What comes of the signals from `sig` on, by the signals that can be delivered.
#[verifier::spinoff_prover]
#[verifier::rlimit(60)]
proof fn lemma_delivered(s: SignalModel, cx: TrapModel, ready: Seq<bool>, u: int, sig: int)
    requires
        s.wf(),
        cx.x.len() == 32,
        ready.len() == 32,
        0 <= sig <= u <= 32,
        forall|n: int| sig <= n < 32 ==> (#[trigger] ready[n] <==> s.deliverable(n)),
        forall|n: int|
            sig <= n < u && #[trigger] ready[n] ==> n == 0 || n == 9 || n == 18 || n == 19,
        u < 32 ==> ready[u] && u != 0 && u != 9 && u != 18 && u != 19,
    ensures
        ({
            let (s2, cx2) = delivered(s, cx, sig);
            let started = u < 32 && s.actions[u].handler != 0;
            &&& s2.actions == s.actions
            &&& s2.signal_mask == s.signal_mask
            &&& s2.killed == (s.killed || (sig <= 0 < u && ready[0]) || (sig <= 9 < u && ready[9]))
            &&& s2.frozen == if sig <= 19 < u && ready[19] {
                true
            } else if sig <= 18 < u && ready[18] {
                false
            } else {
                s.frozen
            }
            &&& !started ==> s2.handling_sig == s.handling_sig && s2.backup == s.backup && cx2 == cx
            &&& started ==> {
                &&& s2.handling_sig == u
                &&& s2.backup == Some(cx)
                &&& cx2 == (TrapModel {
                    sepc: s.actions[u].handler,
                    x: cx.x.update(10, u as usize),
                    ..cx
                })
            }
            &&& forall|n: int|
                0 <= n < 32 ==> (#[trigger] in_set(s2.signals, n) <==> in_set(s.signals, n) && !(
                started && n == u) && !((n == 18 || n == 19) && sig <= n < u && ready[n]))
        }),
    decreases 32 - sig,
{
    if sig < 32 {
        lemma_numbers(sig);
        if !s.deliverable(sig) {
            assert(!ready[sig]);
            lemma_delivered(s, cx, ready, u, sig + 1);
        } else if sig == u {
            assert(!kernel_signal(sig));
            assert forall|n: int| 0 <= n < 32 implies in_set(
                SignalFlags { bits: s.signals.bits ^ flag(u) },
                n,
            ) == (in_set(s.signals, n) != (u == n)) by {
                lemma_toggled(s.signals.bits, u, n);
            }
            lemma_in_set(s.signals, u);
        } else {
            assert(ready[sig]);
            let s1 = s.kernel_handled(sig);
            lemma_in_set(s.signals, sig);
            assert forall|n: int| 0 <= n < 32 implies in_set(
                SignalFlags { bits: s.signals.bits ^ flag(sig) },
                n,
            ) == (in_set(s.signals, n) != (sig == n)) by {
                lemma_toggled(s.signals.bits, sig, n);
            }
            assert forall|n: int| sig + 1 <= n < 32 implies (#[trigger] ready[n]
                <==> s1.deliverable(n)) by {
                lemma_in_set(s.signals, n);
                lemma_in_set(s1.signals, n);
            }
            lemma_delivered(s1, cx, ready, u, sig + 1);
        }
    }
}

/// Handling the signals of a process. `ready` says which signals are pending, not in the mask
/// of the process, and not in the mask of the handler that runs. Among these, SIGDEF (0),
/// SIGKILL (9), SIGCONT (18) and SIGSTOP (19) are for the kernel, and `u` is the first of the
/// others, or 32 if there is none.
///
/// The handler of `u`, if there is one, is started at its address with `u` in a0 and all other
/// registers as they were, the context is saved, and `u` is not pending any more. Otherwise
/// the process goes on as it was. No other handler is started. The kernel kills the process
/// for SIGDEF and SIGKILL, lets it go on for SIGCONT and stops it for SIGSTOP, as far as they
/// come before `u`; the last two are not pending any more. All other signals stay pending or
/// not, and masks and actions stay as they are.
#[verifier::spinoff_prover]
#[verifier::rlimit(60)]
pub proof fn law_signals_handled(s: SignalModel, cx: TrapModel, ready: Seq<bool>, u: int)
    requires
        s.wf(),
        cx.x.len() == 32,
        ready.len() == 32,
        forall|n: int|
            0 <= n < 32 ==> (#[trigger] ready[n] <==> in_set(s.signals, n) && !in_set(
                s.signal_mask,
                n,
            ) && (s.handling_sig == -1 || !in_set(s.actions[s.handling_sig].mask, n))),
        0 <= u <= 32,
        forall|n: int|
            0 <= n < u && #[trigger] ready[n] ==> n == 0 || n == 9 || n == 18 || n == 19,
        u < 32 ==> ready[u] && u != 0 && u != 9 && u != 18 && u != 19,
    ensures
        ({
            let (s2, cx2) = delivered(s, cx, 0);
            let started = u < 32 && s.actions[u].handler != 0;
            &&& s2.actions == s.actions
            &&& s2.signal_mask == s.signal_mask
            &&& s2.killed == (s.killed || (0 < u && ready[0]) || (9 < u && ready[9]))
            &&& s2.frozen == if 19 < u && ready[19] {
                true
            } else if 18 < u && ready[18] {
                false
            } else {
                s.frozen
            }
            &&& !started ==> s2.handling_sig == s.handling_sig && s2.backup == s.backup && cx2 == cx
            &&& started ==> {
                &&& s2.handling_sig == u
                &&& s2.backup == Some(cx)
                &&& cx2 == (TrapModel {
                    sepc: s.actions[u].handler,
                    x: cx.x.update(10, u as usize),
                    ..cx
                })
            }
            &&& forall|n: int|
                0 <= n < 32 ==> (#[trigger] in_set(s2.signals, n) <==> in_set(s.signals, n) && !(
                started && n == u) && !((n == 18 || n == 19) && n < u && ready[n]))
        }),
{
    assert forall|n: int| 0 <= n < 32 implies (#[trigger] ready[n] <==> s.deliverable(n)) by {
        lemma_in_set(s.signals, n);
        lemma_in_set(s.signal_mask, n);
        if s.handling_sig != -1 {
            lemma_in_set(s.actions[s.handling_sig].mask, n);
        }
    }
    lemma_delivered(s, cx, ready, u, 0);
}

/// Which of the signals can be delivered, and the first of them that is not for the kernel.
proof fn lemma_ready(s: SignalModel) -> (r: (Seq<bool>, int))
    ensures
        r.0.len() == 32,
        forall|n: int|
            0 <= n < 32 ==> (#[trigger] r.0[n] <==> in_set(s.signals, n) && !in_set(
                s.signal_mask,
                n,
            ) && (s.handling_sig == -1 || !in_set(s.actions[s.handling_sig].mask, n))),
        0 <= r.1 <= 32,
        forall|n: int|
            0 <= n < r.1 && #[trigger] r.0[n] ==> n == 0 || n == 9 || n == 18 || n == 19,
        r.1 < 32 ==> r.0[r.1] && r.1 != 0 && r.1 != 9 && r.1 != 18 && r.1 != 19,
{
    let ready = Seq::new(
        32,
        |n: int|
            in_set(s.signals, n) && !in_set(s.signal_mask, n) && (s.handling_sig == -1 || !in_set(
                s.actions[s.handling_sig].mask,
                n,
            )),
    );
    (ready, lemma_first(ready, 0))
}

/// The first signal from `n` on that can be delivered and is not for the kernel.
proof fn lemma_first(ready: Seq<bool>, n: int) -> (u: int)
    requires
        ready.len() == 32,
        0 <= n <= 32,
    ensures
        n <= u <= 32,
        forall|k: int| n <= k < u && #[trigger] ready[k] ==> k == 0 || k == 9 || k == 18 || k == 19,
        u < 32 ==> ready[u] && u != 0 && u != 9 && u != 18 && u != 19,
    decreases 32 - n,
{
    if n == 32 || (ready[n] && n != 0 && n != 9 && n != 18 && n != 19) {
        n
    } else {
        lemma_first(ready, n + 1)
    }
}

/// A signal that is in the mask of the process, or in the mask of the handler that runs, stays
/// pending, and no handler is started for it: if the handler that runs is its own, that one
/// goes on, with the context that was saved for it.
#[verifier::spinoff_prover]
#[verifier::rlimit(60)]
pub proof fn law_masked_signal_stays(s: SignalModel, cx: TrapModel, n: int)
    requires
        s.wf(),
        cx.x.len() == 32,
        0 <= n < 32,
        in_set(s.signals, n),
        in_set(s.signal_mask, n) || (s.handling_sig != -1 && in_set(
            s.actions[s.handling_sig].mask,
            n,
        )),
    ensures
        ({
            let (s2, cx2) = delivered(s, cx, 0);
            &&& in_set(s2.signals, n)
            &&& s2.handling_sig == n ==> s.handling_sig == n && s2.backup == s.backup && cx2 == cx
        }),
{
    let (ready, u) = lemma_ready(s);
    law_signals_handled(s, cx, ready, u);
    assert(!ready[n]);
}

/// If every pending signal is in the mask of the process or in that of the handler that runs,
/// nothing happens at all.
pub proof fn law_all_masked(s: SignalModel, cx: TrapModel)
    requires
        s.wf(),
        cx.x.len() == 32,
        forall|n: int|
            0 <= n < 32 && #[trigger] in_set(s.signals, n) ==> in_set(s.signal_mask, n) || (
            s.handling_sig != -1 && in_set(s.actions[s.handling_sig].mask, n)),
    ensures
        delivered(s, cx, 0) == (s, cx),
{
    assert forall|n: int| 0 <= n <= MAX_SIG implies !#[trigger] s.deliverable(n) by {
        lemma_in_set(s.signals, n);
        lemma_in_set(s.signal_mask, n);
        if s.handling_sig != -1 {
            lemma_in_set(s.actions[s.handling_sig].mask, n);
        }
    }
    law_masked_signals_wait(s, cx, 0);
}

/// A process ends of its signals exactly if SIGINT (2), SIGILL (4), SIGABRT (6), SIGFPE (8),
/// SIGKILL (9) or SIGSEGV (11) is among them. Its exit code is the negative number of the
/// smallest of them.
pub proof fn law_fatal_signals(s: SignalFlags)
    ensures
        error_of(s) is Some <==> in_set(s, 2) || in_set(s, 4) || in_set(s, 6) || in_set(s, 8)
            || in_set(s, 9) || in_set(s, 11),
        error_of(s) matches Some((code, text)) ==> {
            let n = -code;
            &&& n == 2 || n == 4 || n == 6 || n == 8 || n == 9 || n == 11
            &&& in_set(s, n)
            &&& forall|k: int|
                0 <= k < n && (k == 2 || k == 4 || k == 6 || k == 8 || k == 9) ==> !#[trigger] in_set(
                    s,
                    k,
                )
            &&& n == 2 ==> text == "Killed, SIGINT=2"@
            &&& n == 4 ==> text == "Illegal Instruction, SIGILL=4"@
            &&& n == 6 ==> text == "Aborted, SIGABRT=6"@
            &&& n == 8 ==> text == "Erroneous Arithmetic Operation, SIGFPE=8"@
            &&& n == 9 ==> text == "Killed, SIGKILL=9"@
            &&& n == 11 ==> text == "Segmentation Fault, SIGSEGV=11"@
        },
{
    lemma_numbers(2);
    lemma_numbers(4);
    lemma_numbers(6);
    lemma_numbers(8);
    lemma_numbers(9);
    lemma_numbers(11);
    lemma_in_set(s, 2);
    lemma_in_set(s, 4);
    lemma_in_set(s, 6);
    lemma_in_set(s, 8);
    lemma_in_set(s, 9);
    lemma_in_set(s, 11);
}

/// Signals that arrive become pending, and none goes away by that.
pub proof fn law_signals_arrive(s: SignalFlags, bits: u32, n: int)
    requires
        0 <= n < 32,
    ensures
        in_set(SignalFlags { bits: s.bits | bits }, n) <==> in_set(s, n) || in_set(
            SignalFlags { bits },
            n,
        ),
{
    let b = s.bits;
    let i = n as u32;
    assert(((b | bits) >> i) & 1 == 1 <==> (b >> i) & 1 == 1 || (bits >> i) & 1 == 1)
        by (bit_vector)
        requires
            i < 32,
    ;
}

/// As long as a process has set up no action for a signal, there is no handler for it, and
/// what would be masked while one ran are SIGQUIT (3) and SIGTRAP (5).
pub proof fn law_default_action(n: int)
    requires
        0 <= n < 32,
    ensures
        default_action().handler == 0,
        in_set(default_action().mask, n) <==> n == 3 || n == 5,
{
    lemma_in_set(default_action().mask, n);
    let k = n as u32;
    assert(((40u32 >> k) & 1 == 1) == (k == 3 || k == 5)) by (bit_vector)
        requires
            k < 32u32,
    ;
}

} // verus!
