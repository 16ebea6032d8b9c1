//!Implementation of [`Processor`]
use super::context::{start_at, TaskContext};
use vstd::prelude::*;

verus! {

/// Processor management structure
pub struct Processor {
    ///The number of the task currently executing on the current processor
    pub current: Option<usize>,
    ///The basic control flow of each core, helping to select and switch process
    pub idle_task_cx: TaskContext,
}

impl Processor {
    ///Create an empty Processor
    pub fn new() -> (r: Self)
        ensures
            r.current is None,
            r.idle_task_cx@ == start_at(0, 0),
    {
        Processor { current: None, idle_task_cx: TaskContext::zero_init() }
    }

    ///Get current task in moving semanteme
    pub fn take_current(&mut self) -> (r: Option<usize>)
        ensures
            r == old(self).current,
            *final(self) == (Processor { current: None, ..*old(self) }),
    {
        let r: Option<usize> = self.current;
        self.current = None;
        r
    }

    ///Get current task in cloning semanteme
    pub fn current(&self) -> (r: Option<usize>)
        ensures
            r == self.current,
    {
        self.current
    }
}

/// Get current task through take, leaving a None in its place
pub fn take_current_task(processor: &mut Processor) -> (r: Option<usize>)
    ensures
        r == old(processor).current,
        *final(processor) == (Processor { current: None, ..*old(processor) }),
{
    processor.take_current()
}

} // verus!
