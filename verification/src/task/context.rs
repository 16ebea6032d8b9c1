//! Implementation of [`TaskContext`]
use vstd::prelude::*;

verus! {

/// task context structure containing some registers
#[derive(Copy, Clone)]
pub struct TaskContext {
    /// Ret position after task switching
    pub ra: usize,
    /// Stack pointer
    pub sp: usize,
    /// s0-11 register, callee saved
    pub s: [usize; 12],
}

/// The values in a task context.
#[verifier::ext_equal]
pub struct TaskCxModel {
    pub ra: usize,
    pub sp: usize,
    pub s: Seq<usize>,
}

impl View for TaskContext {
    type V = TaskCxModel;

    open spec fn view(&self) -> TaskCxModel {
        TaskCxModel { ra: self.ra, sp: self.sp, s: self.s@ }
    }
}

/// A context that starts at an address with a stack, and with all else zero.
pub open spec fn start_at(ra: usize, sp: usize) -> TaskCxModel {
    TaskCxModel { ra, sp, s: Seq::new(12, |i: int| 0usize) }
}

impl TaskContext {
    /// Create a new empty task context
    pub fn zero_init() -> (r: Self)
        ensures
            r@ == start_at(0, 0),
    {
        let r: TaskContext = TaskContext { ra: 0, sp: 0, s: [0usize; 12] };
        assert(r@.s =~= start_at(0, 0).s);
        r
    }

    /// Create a new task context with a trap return addr and a kernel stack pointer.
    /// `restore` is the address of the code that goes to user mode.
    pub fn goto_restore(restore: usize, kstack_ptr: usize) -> (r: Self)
        ensures
            r@ == start_at(restore, kstack_ptr),
    {
        let r: TaskContext = TaskContext { ra: restore, sp: kstack_ptr, s: [0usize; 12] };
        assert(r@.s =~= start_at(restore, kstack_ptr).s);
        r
    }
}

} // verus!
