//! Constants shared by the memory and task subsystems.
use vstd::prelude::*;

verus! {

/// Size of one physical frame and of one virtual page, in bytes.
pub const PAGE_SIZE: usize = 0x1000;

/// Number of address bits inside a page.
pub const PAGE_SIZE_BITS: usize = 12;

/// Size of every user stack, in bytes.
pub const USER_STACK_SIZE: usize = 4096 * 2;

/// Size of every kernel stack, in bytes.
pub const KERNEL_STACK_SIZE: usize = 4096 * 2;

/// Size of the kernel heap, in bytes.
pub const KERNEL_HEAP_SIZE: usize = 0x20_0000;

/// Virtual address of the highest page: the trampoline.
pub const TRAMPOLINE: usize = usize::MAX - PAGE_SIZE + 1;

/// Virtual address of the page right below the trampoline, which holds the trap frame.
pub const TRAP_CONTEXT: usize = TRAMPOLINE - PAGE_SIZE;

} // verus!
