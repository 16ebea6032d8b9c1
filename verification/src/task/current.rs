//! The current process: its trap context, its signals and its memory.
use super::kernel::{lemma_current, lemma_task, lemma_unchanged, lemma_update, Kernel, KernelModel};
use super::signal::{delivered, error_of, SignalFlags, SignalModel};
use super::task::TaskModel;
use crate::mm::address::VA_SPACE;
use crate::mm::owner::{
    law_no_alias, lemma_holds, lemma_page_only, lemma_still_wf, lemma_written_only,
};
use crate::mm::user::{
    law_user_read_after_write, range_reachable, user_bytes, with_bytes, write_user,
};
use crate::trap::context::{law_context_kept, with_context, TrapContext, TrapModel};
use vstd::prelude::*;

verus! {

impl KernelModel {
    /// The trap context of the current process.
    pub open spec fn trap_cx(self) -> TrapModel {
        self.task().trap_cx(self.machine.mem)
    }

    /// The kernel after the trap context of the current process was set.
    pub open spec fn with_trap_cx(self, cx: TrapModel) -> KernelModel {
        let m = self.machine.mem;
        let p = self.task().trap_cx_ppn as int;
        self.with_mem(m.with_page(p, with_context(m.page(p), cx)))
    }

    /// The kernel after the signals of the current process changed.
    pub open spec fn with_signal(self, s: SignalModel) -> KernelModel {
        self.with_task(TaskModel { signal: s, ..self.task() })
    }

    /// The kernel after bytes were written to the memory of the current process.
    pub open spec fn with_user_bytes(self, v: int, data: Seq<u8>) -> KernelModel {
        self.with_mem(with_bytes(self.task().space, self.machine.mem, v, data))
    }
}

/// Setting the trap context keeps the kernel consistent.
pub proof fn lemma_with_trap_cx(k: KernelModel, cx: TrapModel)
    requires
        k.wf(),
        k.runs(),
        cx.x.len() == 32,
    ensures
        k.with_trap_cx(cx).wf(),
        k.with_trap_cx(cx).trap_cx() == cx,
        k.with_trap_cx(cx).machine.mem.wf(),
{
    lemma_current(k);
    let t = k.task();
    let m = k.machine.mem;
    let p = t.trap_cx_ppn as int;
    let bytes = with_context(m.page(p), cx);
    let k2 = k.with_trap_cx(cx);
    let m2 = k2.machine.mem;
    lemma_holds(t.space, m);
    lemma_page_only(t.space, m, p, bytes);
    lemma_still_wf(t.space, m, m2);
    assert(k2.tasks =~= k.tasks.update(k.at(), t));
    lemma_update(k, k2, k.at());
    law_context_kept(m.page(p), cx);
}

/// Changing the signals keeps the kernel consistent.
pub proof fn lemma_with_signal(k: KernelModel, i: int, s: SignalModel)
    requires
        k.wf(),
        0 <= i < k.tasks.len(),
        s.wf(),
    ensures
        (KernelModel {
            tasks: k.tasks.update(i, TaskModel { signal: s, ..k.tasks[i] }),
            ..k
        }).wf(),
{
    lemma_task(k, i);
    super::task::lemma_task_holds(k.tasks[i], k.machine.mem);
    lemma_unchanged(k.tasks[i].space, k.machine.mem);
    let k2 = KernelModel {
        tasks: k.tasks.update(i, TaskModel { signal: s, ..k.tasks[i] }),
        ..k
    };
    lemma_update(k, k2, i);
}

/// Writing to the memory of the current process keeps the kernel consistent.
pub proof fn lemma_with_user_bytes(k: KernelModel, v: int, data: Seq<u8>)
    requires
        k.wf(),
        k.runs(),
        range_reachable(k.task().space, k.machine.mem, v, data.len() as int),
    ensures
        k.with_user_bytes(v, data).wf(),
{
    lemma_current(k);
    let t = k.task();
    let m = k.machine.mem;
    let k2 = k.with_user_bytes(v, data);
    lemma_written_only(t.space, m, v, data);
    assert(k2.tasks =~= k.tasks.update(k.at(), t));
    lemma_update(k, k2, k.at());
}

/// What a system call leaves in the memory of the process that made it, such as an exit code
/// or the bytes of a file, is what the process finds there.
pub proof fn law_current_reads_back(k: KernelModel, v: int, data: Seq<u8>)
    requires
        k.wf(),
        k.runs(),
        range_reachable(k.task().space, k.machine.mem, v, data.len() as int),
        data.len() <= VA_SPACE,
    ensures
        user_bytes(
            k.task().space,
            k.with_user_bytes(v, data).machine.mem,
            v,
            data.len() as int,
        ) == data,
        k.with_user_bytes(v, data).task().space == k.task().space,
{
    lemma_current(k);
    law_no_alias(k.task().space, k.machine.mem, v, data.len() as int);
    law_user_read_after_write(k.task().space, k.machine.mem, v, data);
}

///Get the trap context of current task
pub fn current_trap_cx(k: &Kernel) -> (r: TrapContext)
    requires
        k@.wf(),
        k@.runs(),
    ensures
        r@ == k@.trap_cx(),
{
    proof {
        lemma_current(k@);
        lemma_holds(k@.task().space, k@.machine.mem);
    }
    let at: usize = k.current_index();
    k.tasks[at].inner.get_trap_cx(&k.machine.mem)
}

/// Set the trap context of the current task.
pub fn set_current_trap_cx(k: &mut Kernel, cx: &TrapContext)
    requires
        old(k)@.wf(),
        old(k)@.runs(),
    ensures
        final(k)@ == old(k)@.with_trap_cx(cx@),
        final(k)@.wf(),
        final(k)@.trap_cx() == cx@,
{
    proof {
        lemma_current(k@);
        lemma_holds(k@.task().space, k@.machine.mem);
        lemma_with_trap_cx(k@, cx@);
    }
    let at: usize = k.current_index();
    cx.store(k.tasks[at].inner.trap_cx_ppn, &mut k.machine.mem);
}

/// Write to the memory of the current process.
pub fn write_current(k: &mut Kernel, v: usize, data: &[u8])
    requires
        old(k)@.wf(),
        old(k)@.runs(),
        v + data@.len() <= usize::MAX,
        range_reachable(
            old(k)@.task().space,
            old(k)@.machine.mem,
            v as int,
            data@.len() as int,
        ),
    ensures
        final(k)@ == old(k)@.with_user_bytes(v as int, data@),
        final(k)@.wf(),
{
    proof {
        lemma_current(k@);
        lemma_with_user_bytes(k@, v as int, data@);
    }
    let at: usize = k.current_index();
    write_user(&k.tasks[at].inner.memory_set, v, data, &mut k.machine.mem);
}

/// Check if the current task has any signal to handle
pub fn check_signals_error_of_current(k: &Kernel) -> (r: Option<(i32, &'static str)>)
    requires
        k@.wf(),
        k@.runs(),
    ensures
        match r {
            Some(e) => error_of(k@.task().signal.signals) == Some((e.0 as int, e.1@)),
            None => error_of(k@.task().signal.signals) is None,
        },
{
    let at: usize = k.current_index();
    k.tasks[at].inner.signal.signals.check_error()
}

/// Add signal to the current task
pub fn current_add_signal(k: &mut Kernel, signal: SignalFlags)
    requires
        old(k)@.wf(),
        old(k)@.runs(),
    ensures
        final(k)@.wf(),
        final(k)@ == old(k)@.with_signal(
            SignalModel {
                signals: SignalFlags {
                    bits: old(k)@.task().signal.signals.bits | signal.bits,
                },
                ..old(k)@.task().signal
            },
        ),
{
    let ghost o = k@;
    let at: usize = k.current_index();
    k.tasks[at].inner.signal.add_signal(signal);
    proof {
        lemma_current(o);
        let s = SignalModel {
            signals: SignalFlags { bits: o.task().signal.signals.bits | signal.bits },
            ..o.task().signal
        };
        lemma_with_signal(o, o.at(), s);
        assert(k@.tasks =~= o.with_signal(s).tasks);
    }
}

/// One round of handling signals for the current process. Return whether it has to wait
/// and to try again, because it is frozen.
pub fn handle_signals(k: &mut Kernel) -> (r: bool)
    requires
        old(k)@.wf(),
        old(k)@.runs(),
    ensures
        final(k)@.wf(),
        ({
            let d = delivered(old(k)@.task().signal, old(k)@.trap_cx(), 0);
            &&& final(k)@ == old(k)@.with_signal(d.0).with_trap_cx(d.1)
            &&& r == (d.0.frozen && !d.0.killed)
        }),
{
    let ghost o = k@;
    let ghost d = delivered(o.task().signal, o.trap_cx(), 0);
    proof {
        lemma_current(o);
    }
    let at: usize = k.current_index();
    let mut cx: TrapContext = current_trap_cx(k);
    let r: bool = k.tasks[at].inner.signal.handle_signals(&mut cx);
    proof {
        lemma_with_signal(o, o.at(), d.0);
        assert(k@.tasks =~= o.with_signal(d.0).tasks);
        assert(super::kernel::same_pids(o.tasks, k@.tasks));
        super::kernel::lemma_same_index(o.tasks, k@.tasks, o.current->0, 0);
    }
    set_current_trap_cx(k, &cx);
    r
}

} // verus!
