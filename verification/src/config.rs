//! Constants in the kernel.
use vstd::prelude::*;

verus! {

/// user app's stack size
pub const USER_STACK_SIZE: usize = 8192;

/// kernel stack size
pub const KERNEL_STACK_SIZE: usize = 8192;

/// kernel heap size
pub const KERNEL_HEAP_SIZE: usize = 0x200_0000;

/// page size : 4KB
pub const PAGE_SIZE: usize = 0x1000;

/// page size bits: 12
pub const PAGE_SIZE_BITS: usize = 0xc;

/// the virtual addr of trampoline
pub const TRAMPOLINE: usize = usize::MAX - PAGE_SIZE + 1;

/// the virtual addr of trap context
pub const TRAP_CONTEXT_BASE: usize = TRAMPOLINE - PAGE_SIZE;

/// clock frequency
pub const CLOCK_FREQ: usize = 12500000;

/// the physical memory end
pub const MEMORY_END: usize = 0x88000000;

} // verus!
