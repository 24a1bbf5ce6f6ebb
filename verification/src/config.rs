//! Fixed parameters of the machine and of the kernel's layout.

use vstd::prelude::*;

verus! {

/// Bytes in one page.
pub const PAGE_SIZE: usize = 4096;

/// Pages that one leaf table of a page table covers.
pub const TABLE_SPAN: usize = 512;

/// Number of distinct system calls that are counted per task.
pub const MAX_SYSCALL_NUM: usize = 500;

/// Bytes in one kernel stack.
pub const KERNEL_STACK_SIZE: usize = 8192;

/// Virtual address of the trampoline page, the topmost page.
pub const TRAMPOLINE: usize = usize::MAX - 4095;

/// Virtual address of the page that holds a task's trap context.
pub const TRAP_CONTEXT_BASE: usize = usize::MAX - 8191;

/// Why a memory operation was refused.
#[derive(Clone, Copy, Debug, PartialEq, Eq, Structural)]
pub enum MemError {
    /// The frame pool cannot supply the frames that the operation needs.
    OutOfMemory,
    /// A length of zero, a range past the end of the address space, or
    /// permission bits that name no access or an unknown one.
    InvalidArgument,
    /// The range meets an area that is already mapped.
    RegionOverlap,
    /// No area covers exactly the given range.
    NotMapped,
}

} // verus!
