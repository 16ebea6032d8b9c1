//! Signals: which are pending or masked, and what a process does when one arrives.
use crate::trap::context::{TrapContext, TrapModel};
use vstd::prelude::*;

verus! {

/// The largest number of a signal.
pub const MAX_SIG: usize = 31;

/// Default signal handling
pub const SIGDEF: u32 = 0x1;

pub const SIGINT: u32 = 0x4;

pub const SIGILL: u32 = 0x10;

pub const SIGABRT: u32 = 0x40;

pub const SIGFPE: u32 = 0x100;

pub const SIGKILL: u32 = 0x200;

pub const SIGUSR1: u32 = 0x400;

pub const SIGSEGV: u32 = 0x800;

pub const SIGCONT: u32 = 0x4_0000;

pub const SIGSTOP: u32 = 0x8_0000;

/// The signals that a handler masks unless it was set up otherwise.
pub const DEFAULT_MASK: u32 = 40;

/// A set of signals: bit `n` stands for the signal with the number `n`.
#[derive(Copy, Clone, PartialEq, Eq, Debug, Structural)]
pub struct SignalFlags {
    pub bits: u32,
}

/// The flag of a signal.
pub open spec fn flag(sig: int) -> u32 {
    1u32 << (sig as u32)
}

impl SignalFlags {
    /// No signal.
    pub fn empty() -> (r: Self)
        ensures
            r.bits == 0,
    {
        SignalFlags { bits: 0 }
    }

    /// The set with the given bits: all of them stand for signals.
    pub fn from_bits(bits: u32) -> (r: Option<Self>)
        ensures
            r == Some(SignalFlags { bits }),
    {
        Some(SignalFlags { bits })
    }

    /// The set with one signal.
    pub fn of(sig: usize) -> (r: Self)
        requires
            sig <= MAX_SIG,
        ensures
            r.bits == flag(sig as int),
    {
        SignalFlags { bits: 1u32 << (sig as u32) }
    }

    /// Whether all of the given signals are in the set.
    pub open spec fn has(self, other: u32) -> bool {
        self.bits & other == other
    }

    /// Whether all of the given signals are in the set.
    pub fn contains(&self, other: SignalFlags) -> (r: bool)
        ensures
            r == self.has(other.bits),
    {
        self.bits & other.bits == other.bits
    }

    /// Put signals into the set.
    pub fn insert(&mut self, other: SignalFlags)
        ensures
            final(self).bits == old(self).bits | other.bits,
    {
        self.bits = self.bits | other.bits;
    }

    /// Take out the signals that are in the set, and put in those that are not.
    pub fn toggle(&mut self, other: SignalFlags)
        ensures
            final(self).bits == old(self).bits ^ other.bits,
    {
        self.bits = self.bits ^ other.bits;
    }

    /// The exit code and the message with which a process ends if one of the signals that
    /// end it is in the set.
    pub fn check_error(&self) -> (r: Option<(i32, &'static str)>)
        ensures
            match r {
                Some(e) => error_of(*self) == Some((e.0 as int, e.1@)),
                None => error_of(*self) is None,
            },
    {
        if self.contains(SignalFlags { bits: SIGINT }) {
            Some((-2, "Killed, SIGINT=2"))
        } else if self.contains(SignalFlags { bits: SIGILL }) {
            Some((-4, "Illegal Instruction, SIGILL=4"))
        } else if self.contains(SignalFlags { bits: SIGABRT }) {
            Some((-6, "Aborted, SIGABRT=6"))
        } else if self.contains(SignalFlags { bits: SIGFPE }) {
            Some((-8, "Erroneous Arithmetic Operation, SIGFPE=8"))
        } else if self.contains(SignalFlags { bits: SIGKILL }) {
            Some((-9, "Killed, SIGKILL=9"))
        } else if self.contains(SignalFlags { bits: SIGSEGV }) {
            Some((-11, "Segmentation Fault, SIGSEGV=11"))
        } else {
            None
        }
    }
}

/// The exit code and the message of a process that has the given signals: those of the
/// first of them that ends it.
pub open spec fn error_of(s: SignalFlags) -> Option<(int, Seq<char>)> {
    if s.has(SIGINT) {
        Some((-2, "Killed, SIGINT=2"@))
    } else if s.has(SIGILL) {
        Some((-4, "Illegal Instruction, SIGILL=4"@))
    } else if s.has(SIGABRT) {
        Some((-6, "Aborted, SIGABRT=6"@))
    } else if s.has(SIGFPE) {
        Some((-8, "Erroneous Arithmetic Operation, SIGFPE=8"@))
    } else if s.has(SIGKILL) {
        Some((-9, "Killed, SIGKILL=9"@))
    } else if s.has(SIGSEGV) {
        Some((-11, "Segmentation Fault, SIGSEGV=11"@))
    } else {
        None
    }
}

/// Action for a signal
#[derive(Copy, Clone, PartialEq, Eq, Debug, Structural)]
pub struct SignalAction {
    /// The address of the handler, or 0 if there is none.
    pub handler: usize,
    /// The signals that wait while the handler runs.
    pub mask: SignalFlags,
}

/// The action of a signal for which none was set up.
pub open spec fn default_action() -> SignalAction {
    SignalAction { handler: 0, mask: SignalFlags { bits: DEFAULT_MASK } }
}

/// The actions of all signals.
pub struct SignalActions {
    pub table: Vec<SignalAction>,
}

impl SignalActions {
    /// No signal has a handler.
    pub fn new() -> (r: Self)
        ensures
            r.table@ == Seq::new(32, |i: int| default_action()),
    {
        let mut table: Vec<SignalAction> = Vec::new();
        let mut i: usize = 0;
        while i <= MAX_SIG
            invariant
                i <= 32,
                table@ == Seq::new(i as nat, |k: int| default_action()),
            decreases 32 - i,
        {
            table.push(
                SignalAction { handler: 0, mask: SignalFlags { bits: DEFAULT_MASK } },
            );
            i += 1;
            assert(table@ =~= Seq::new(i as nat, |k: int| default_action()));
        }
        SignalActions { table }
    }

    /// The same actions once more.
    pub fn copy(&self) -> (r: Self)
        ensures
            r.table@ == self.table@,
    {
        let mut table: Vec<SignalAction> = Vec::new();
        let mut i: usize = 0;
        while i < self.table.len()
            invariant
                i <= self.table@.len(),
                table@ == self.table@.take(i as int),
            decreases self.table@.len() - i,
        {
            table.push(self.table[i]);
            i += 1;
            assert(table@ =~= self.table@.take(i as int));
        }
        assert(table@ =~= self.table@);
        SignalActions { table }
    }
}

/// What a process has to do with signals.
pub struct SignalState {
    /// The signals that have arrived and were not handled yet.
    pub signals: SignalFlags,
    /// The signals that have to wait.
    pub signal_mask: SignalFlags,
    /// the signal which is being handling, or -1
    pub handling_sig: isize,
    /// Signal actions
    pub signal_actions: SignalActions,
    /// if the task is killed
    pub killed: bool,
    /// if the task is frozen by a signal
    pub frozen: bool,
    /// The trap context that is restored when the handler has run.
    pub trap_ctx_backup: Option<TrapContext>,
}

/// The values of a [`SignalState`].
#[verifier::ext_equal]
pub struct SignalModel {
    pub signals: SignalFlags,
    pub signal_mask: SignalFlags,
    pub handling_sig: int,
    pub actions: Seq<SignalAction>,
    pub killed: bool,
    pub frozen: bool,
    pub backup: Option<TrapModel>,
}

impl View for SignalState {
    type V = SignalModel;

    open spec fn view(&self) -> SignalModel {
        SignalModel {
            signals: self.signals,
            signal_mask: self.signal_mask,
            handling_sig: self.handling_sig as int,
            actions: self.signal_actions.table@,
            killed: self.killed,
            frozen: self.frozen,
            backup: match self.trap_ctx_backup {
                Some(cx) => Some(cx@),
                None => None,
            },
        }
    }
}

/// A process without signals, with the given mask and actions.
pub open spec fn no_signals(signal_mask: SignalFlags, actions: Seq<SignalAction>) -> SignalModel {
    SignalModel {
        signals: SignalFlags { bits: 0 },
        signal_mask,
        handling_sig: -1,
        actions,
        killed: false,
        frozen: false,
        backup: None,
    }
}

impl SignalModel {
    /// There is an action for every signal, and what is being handled is a signal.
    pub open spec fn wf(self) -> bool {
        &&& self.actions.len() == 32
        &&& -1 <= self.handling_sig <= MAX_SIG
        &&& self.backup matches Some(cx) ==> cx.x.len() == 32
    }

    /// The signal has arrived, and neither the process nor the handler that runs masks it.
    pub open spec fn deliverable(self, sig: int) -> bool {
        &&& self.signals.has(flag(sig))
        &&& !self.signal_mask.has(flag(sig))
        &&& self.handling_sig == -1 || !self.actions[self.handling_sig].mask.has(flag(sig))
    }

    /// What the kernel does about a signal that it handles itself.
    pub open spec fn kernel_handled(self, sig: int) -> SignalModel {
        if flag(sig) == SIGSTOP {
            SignalModel {
                frozen: true,
                signals: SignalFlags { bits: self.signals.bits ^ SIGSTOP },
                ..self
            }
        } else if flag(sig) == SIGCONT {
            if self.signals.has(SIGCONT) {
                SignalModel {
                    frozen: false,
                    signals: SignalFlags { bits: self.signals.bits ^ SIGCONT },
                    ..self
                }
            } else {
                self
            }
        } else {
            SignalModel { killed: true, ..self }
        }
    }

    /// The state after the handler of a signal was started: nothing changes if there is
    /// none.
    pub open spec fn user_handled(self, cx: TrapModel, sig: int) -> SignalModel {
        if self.actions[sig].handler != 0 {
            SignalModel {
                handling_sig: sig,
                signals: SignalFlags { bits: self.signals.bits ^ flag(sig) },
                backup: Some(cx),
                ..self
            }
        } else {
            self
        }
    }

    /// The trap context with which the handler of a signal starts.
    pub open spec fn handler_context(self, cx: TrapModel, sig: int) -> TrapModel {
        if self.actions[sig].handler != 0 {
            TrapModel { sepc: self.actions[sig].handler, ..cx.with_x(10, sig as usize) }
        } else {
            cx
        }
    }
}

/// The kernel handles the signal itself.
pub open spec fn kernel_signal(sig: int) -> bool {
    flag(sig) == SIGKILL || flag(sig) == SIGSTOP || flag(sig) == SIGCONT || flag(sig) == SIGDEF
}

/// What comes of the signals from `sig` on: the kernel handles its own, until the first one
/// for the process, whose handler is started.
pub open spec fn delivered(s: SignalModel, cx: TrapModel, sig: int) -> (SignalModel, TrapModel)
    decreases 32 - sig,
{
    if sig > MAX_SIG {
        (s, cx)
    } else if !s.deliverable(sig) {
        delivered(s, cx, sig + 1)
    } else if kernel_signal(sig) {
        delivered(s.kernel_handled(sig), cx, sig + 1)
    } else {
        (s.user_handled(cx, sig), s.handler_context(cx, sig))
    }
}

impl SignalState {
    /// The state of a process without signals.
    pub fn new(signal_mask: SignalFlags, signal_actions: SignalActions) -> (r: Self)
        ensures
            r@ == no_signals(signal_mask, signal_actions.table@),
    {
        SignalState {
            signals: SignalFlags::empty(),
            signal_mask,
            handling_sig: -1,
            signal_actions,
            killed: false,
            frozen: false,
            trap_ctx_backup: None,
        }
    }

    /// Add signals to those that have arrived.
    pub fn add_signal(&mut self, signal: SignalFlags)
        ensures
            final(self)@ == (SignalModel {
                signals: SignalFlags { bits: old(self)@.signals.bits | signal.bits },
                ..old(self)@
            }),
    {
        self.signals.insert(signal);
    }

    /// call kernel signal handler
    fn call_kernel_signal_handler(&mut self, sig: usize, signal: SignalFlags)
        requires
            signal.bits == flag(sig as int),
        ensures
            final(self)@ == old(self)@.kernel_handled(sig as int),
    {
        if signal.bits == SIGSTOP {
            self.frozen = true;
            self.signals.toggle(SignalFlags { bits: SIGSTOP });
        } else if signal.bits == SIGCONT {
            if self.signals.contains(SignalFlags { bits: SIGCONT }) {
                self.signals.toggle(SignalFlags { bits: SIGCONT });
                self.frozen = false;
            }
        } else {
            self.killed = true;
        }
    }

    /// call user signal handler
    fn call_user_signal_handler(&mut self, sig: usize, signal: SignalFlags, trap_ctx: &mut TrapContext)
        requires
            old(self)@.wf(),
            sig <= MAX_SIG,
            signal.bits == flag(sig as int),
        ensures
            final(self)@ == old(self)@.user_handled(old(trap_ctx)@, sig as int),
            final(trap_ctx)@ == old(self)@.handler_context(old(trap_ctx)@, sig as int),
            final(self)@.wf(),
    {
        let handler: usize = self.signal_actions.table[sig].handler;
        if handler != 0 {
            // handle flag
            self.handling_sig = sig as isize;
            self.signals.toggle(signal);
            // backup trapframe
            self.trap_ctx_backup = Some(*trap_ctx);
            // modify trapframe
            trap_ctx.sepc = handler;
            // put args (a0)
            trap_ctx.set_x(10, sig);
        }
    }

    /// Check if the current task has any signal to handle
    pub fn check_pending_signals(&mut self, trap_ctx: &mut TrapContext)
        requires
            old(self)@.wf(),
        ensures
            final(self)@.wf(),
            final(self)@ == delivered(old(self)@, old(trap_ctx)@, 0).0,
            final(trap_ctx)@ == delivered(old(self)@, old(trap_ctx)@, 0).1,
    {
        let ghost all = delivered(self@, trap_ctx@, 0);
        let mut sig: usize = 0;
        while sig <= MAX_SIG
            invariant
                sig <= MAX_SIG + 1,
                self@.wf(),
                delivered(self@, trap_ctx@, sig as int) == all,
                all == delivered(old(self)@, old(trap_ctx)@, 0),
            decreases 32 - sig,
        {
            let signal: SignalFlags = SignalFlags::of(sig);
            if self.signals.contains(signal) && !self.signal_mask.contains(signal) {
                let mut masked: bool = true;
                let handling_sig: isize = self.handling_sig;
                if handling_sig == -1 {
                    masked = false;
                } else {
                    let handling: usize = handling_sig as usize;
                    if !self.signal_actions.table[handling].mask.contains(signal) {
                        masked = false;
                    }
                }
                if !masked {
                    if signal.bits == SIGKILL || signal.bits == SIGSTOP || signal.bits == SIGCONT
                        || signal.bits == SIGDEF {
                        // signal is a kernel signal
                        self.call_kernel_signal_handler(sig, signal);
                    } else {
                        // signal is a user signal
                        self.call_user_signal_handler(sig, signal, trap_ctx);
                        return;
                    }
                }
            }
            sig += 1;
        }
    }

    /// One round of handling signals. Return whether the process has to wait, and to try
    /// again, because it is frozen and was not killed.
    pub fn handle_signals(&mut self, trap_ctx: &mut TrapContext) -> (r: bool)
        requires
            old(self)@.wf(),
        ensures
            final(self)@.wf(),
            final(self)@ == delivered(old(self)@, old(trap_ctx)@, 0).0,
            final(trap_ctx)@ == delivered(old(self)@, old(trap_ctx)@, 0).1,
            r == (final(self)@.frozen && !final(self)@.killed),
    {
        self.check_pending_signals(trap_ctx);
        self.frozen && !self.killed
    }

    /// Set the signals that have to wait, and return those that had to before.
    pub fn set_mask(&mut self, mask: SignalFlags) -> (r: SignalFlags)
        ensures
            r == old(self)@.signal_mask,
            final(self)@ == (SignalModel { signal_mask: mask, ..old(self)@ }),
    {
        let old_mask: SignalFlags = self.signal_mask;
        self.signal_mask = mask;
        old_mask
    }

    /// The handler has run: the process goes on where it was. Return the trap context.
    pub fn finish_handler(&mut self) -> (r: TrapContext)
        requires
            old(self)@.backup is Some,
        ensures
            Some(r@) == old(self)@.backup,
            final(self)@ == (SignalModel { handling_sig: -1, ..old(self)@ }),
    {
        self.handling_sig = -1;
        self.trap_ctx_backup.unwrap()
    }
}

/// The handler of a signal starts at its address with the number of the signal, and all
/// other registers as they were; and the context that the process had is the one that is
/// restored when the handler has run.
pub proof fn law_handler_returns(s: SignalModel, cx: TrapModel, sig: int)
    requires
        s.wf(),
        cx.x.len() == 32,
        0 <= sig <= MAX_SIG,
        s.actions[sig].handler != 0,
    ensures
        s.user_handled(cx, sig).backup == Some(cx),
        s.user_handled(cx, sig).handling_sig == sig,
        s.handler_context(cx, sig).sepc == s.actions[sig].handler,
        s.handler_context(cx, sig).x[10] == sig,
        forall|i: int|
            0 <= i < 32 && i != 10 ==> #[trigger] s.handler_context(cx, sig).x[i] == cx.x[i],
{
}

/// A signal whose handler was started is not pending any more, and all others are as they
/// were.
pub proof fn law_signal_taken(s: SignalModel, cx: TrapModel, sig: int, other: int)
    requires
        0 <= sig <= MAX_SIG,
        0 <= other <= MAX_SIG,
        s.actions[sig].handler != 0,
        s.signals.has(flag(sig)),
    ensures
        s.user_handled(cx, sig).signals.has(flag(other)) <==> s.signals.has(flag(other)) && other
            != sig,
{
    let b = s.signals.bits;
    let i = sig as u32;
    let j = other as u32;
    assert((b ^ (1u32 << i)) & (1u32 << j) == (1u32 << j) <==> b & (1u32 << j) == (1u32 << j) && i
        != j) by (bit_vector)
        requires
            i <= 31,
            j <= 31,
            b & (1u32 << i) == (1u32 << i),
    ;
}

/// Masked signals wait: if no signal can be delivered, nothing happens.
pub proof fn law_masked_signals_wait(s: SignalModel, cx: TrapModel, sig: int)
    requires
        forall|k: int| sig <= k <= MAX_SIG ==> !#[trigger] s.deliverable(k),
    ensures
        delivered(s, cx, sig) == (s, cx),
    decreases 32 - sig,
{
    if sig <= MAX_SIG {
        law_masked_signals_wait(s, cx, sig + 1);
    }
}

/// A process that SIGKILL reaches is killed, unless a signal that it handles itself comes
/// first.
pub proof fn law_kill_kills(s: SignalModel, cx: TrapModel, sig: int)
    requires
        s.wf(),
        0 <= sig <= 9,
        s.deliverable(9),
        forall|k: int| 0 <= k < 9 && !kernel_signal(k) ==> !#[trigger] s.deliverable(k),
    ensures
        delivered(s, cx, sig).0.killed,
    decreases 10 - sig,
{
    assert(1u32 << 9u32 == 0x200u32 && 1u32 << 0u32 == 1u32) by (bit_vector);
    if sig == 9 {
        let s2 = s.kernel_handled(9);
        assert(s2.killed);
        lemma_stays_killed(s2, cx, 10);
    } else if s.deliverable(sig) {
        let i = sig as u32;
        assert(1u32 << i != 0x80000u32 && 1u32 << i != 0x40000u32) by (bit_vector)
            requires
                i < 9,
        ;
        lemma_stays_killed(s.kernel_handled(sig), cx, sig + 1);
    } else {
        law_kill_kills(s, cx, sig + 1);
    }
}

/// Nothing makes a pending SIGKILL go away: after the signals were handled, whatever they
/// are and whether they are masked, it is still an error that ends the process.
pub proof fn law_kill_ends(s: SignalModel, cx: TrapModel, sig: int)
    requires
        s.signals.has(SIGKILL),
        0 <= sig <= 32,
    ensures
        delivered(s, cx, sig).0.signals.has(SIGKILL),
        error_of(delivered(s, cx, sig).0.signals) is Some,
    decreases 32 - sig,
{
    let b = s.signals.bits;
    if sig <= MAX_SIG {
        if !s.deliverable(sig) {
            law_kill_ends(s, cx, sig + 1);
        } else if kernel_signal(sig) {
            assert((b ^ SIGSTOP) & SIGKILL == SIGKILL && (b ^ SIGCONT) & SIGKILL == SIGKILL)
                by (bit_vector)
                requires
                    b & SIGKILL == SIGKILL,
            ;
            law_kill_ends(s.kernel_handled(sig), cx, sig + 1);
        } else {
            let i = sig as u32;
            assert((b ^ (1u32 << i)) & SIGKILL == SIGKILL) by (bit_vector)
                requires
                    i <= 31,
                    b & SIGKILL == SIGKILL,
                    1u32 << i != SIGKILL,
            ;
        }
    }
}

/// Handling signals does not bring a process back to life.
proof fn lemma_stays_killed(s: SignalModel, cx: TrapModel, sig: int)
    requires
        s.killed,
        0 <= sig,
    ensures
        delivered(s, cx, sig).0.killed,
    decreases 32 - sig,
{
    if sig <= MAX_SIG {
        if !s.deliverable(sig) {
            lemma_stays_killed(s, cx, sig + 1);
        } else if kernel_signal(sig) {
            lemma_stays_killed(s.kernel_handled(sig), cx, sig + 1);
        }
    }
}

} // verus!
