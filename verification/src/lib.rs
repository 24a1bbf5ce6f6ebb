//! Address-space and task-control core of a small kernel.
//!
//! Every task owns a [`memory_set::MemorySet`]: a page table plus the list of
//! mapped areas that justify its entries. Physical frames, for pages and for
//! the leaf tables of the page tables, come from one
//! [`frame::FrameAllocator`], which the caller hands to each operation that
//! needs frames. The library deals in frame numbers; the bytes in the frames
//! are the caller's business. The [`task::TaskControlBlock`] adds the program
//! break and the per-task accounting, and [`syscall`] is the thin layer on
//! top of it.

pub mod config;
pub mod frame;
pub mod page_table;
pub mod memory_set;
pub mod task;
pub mod syscall;
