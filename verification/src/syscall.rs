//! The system calls that act on the calling task's control block.
//!
//! A call that reports to the user does not write the report itself: it
//! returns the value together with the places in physical memory where the
//! user's buffer lies, and the caller copies the value's bytes there.

use vstd::prelude::*;
use crate::config::MAX_SYSCALL_NUM;
use crate::frame::FrameAllocator;
use crate::memory_set::{segment_count, segment_of, Segment};
use crate::task::{TaskControlBlock, TaskStatus};

verus! {

/// Bytes that a [`TimeVal`] takes in user memory.
pub const TIME_VAL_SIZE: usize = 16;

/// Bytes that a [`TaskInfo`] takes in user memory.
pub const TASK_INFO_SIZE: usize = 2016;

/// Microseconds in a second.
pub const MICROS_PER_SEC: usize = 1_000_000;

/// A point in time: whole seconds and the microseconds beyond them.
#[derive(Clone, Copy, Debug, PartialEq, Eq, Structural)]
pub struct TimeVal {
    pub sec: usize,
    pub usec: usize,
}

/// What a task may learn about itself.
#[derive(Clone, Copy, Debug)]
pub struct TaskInfo {
    /// Where the task stands in its life.
    pub status: TaskStatus,
    /// How often the task made each system call.
    pub syscall_times: [u32; MAX_SYSCALL_NUM],
    /// Time since the task was set up.
    pub time: usize,
}

/// The time value of a clock reading in microseconds.
pub open spec fn time_val_of(now_us: usize) -> TimeVal {
    TimeVal { sec: now_us / MICROS_PER_SEC, usec: now_us % MICROS_PER_SEC }
}

/// The pieces of the user buffer of `len` bytes at `ptr`, or none where the
/// buffer is not wholly mapped.
pub open spec fn reply_segments(task: &TaskControlBlock, ptr: usize, len: usize) -> Seq<Segment> {
    if task.memory_set.buffer_mapped(ptr, len) {
        Seq::new(
            segment_count(ptr, len) as nat,
            |k: int| segment_of(task.memory_set.table(), ptr, len, k),
        )
    } else {
        Seq::empty()
    }
}

/// Where a report of `len` bytes for the user buffer at `ptr` has to go: the
/// status of the call, 0 or -1, and the pieces of the buffer.
fn locate_reply(task: &TaskControlBlock, ptr: usize, len: usize) -> (r: (isize, Vec<Segment>))
    ensures
        r.0 == (if task.memory_set.buffer_mapped(ptr, len) { 0isize } else { -1isize }),
        r.1@ == reply_segments(task, ptr, len),
{
    match task.memory_set.translated_segments(ptr, len) {
        Some(segments) => {
            assert(segments@ =~= reply_segments(task, ptr, len));
            (0, segments)
        },
        None => (-1, Vec::new()),
    }
}

/// The calling task ends: it leaves the processor for good. A task that is
/// not running stays as it is.
pub fn sys_exit(task: &mut TaskControlBlock, _exit_code: i32)
    ensures
        final(task).task_status == (if old(task).task_status == TaskStatus::Running {
            TaskStatus::Exited
        } else {
            old(task).task_status
        }),
        final(task).task_status == old(task).task_status || old(task).task_status.may_become(
            final(task).task_status,
        ),
        final(task).memory_set == old(task).memory_set,
        final(task).program_brk == old(task).program_brk,
        final(task).heap_bottom == old(task).heap_bottom,
        final(task).base_size == old(task).base_size,
        final(task).syscall_times == old(task).syscall_times,
        final(task).time == old(task).time,
        final(task).task_cx == old(task).task_cx,
        final(task).trap_cx == old(task).trap_cx,
        final(task).trap_cx_ppn == old(task).trap_cx_ppn,
{
    if task.task_status == TaskStatus::Running {
        task.task_status = TaskStatus::Exited;
    }
}

/// The calling task gives up the processor and waits for its next turn.
/// A task that is not running stays as it is. Always returns 0.
pub fn sys_yield(task: &mut TaskControlBlock) -> (r: isize)
    ensures
        r == 0,
        final(task).task_status == (if old(task).task_status == TaskStatus::Running {
            TaskStatus::Ready
        } else {
            old(task).task_status
        }),
        final(task).task_status == old(task).task_status || old(task).task_status.may_become(
            final(task).task_status,
        ),
        final(task).memory_set == old(task).memory_set,
        final(task).program_brk == old(task).program_brk,
        final(task).heap_bottom == old(task).heap_bottom,
        final(task).base_size == old(task).base_size,
        final(task).syscall_times == old(task).syscall_times,
        final(task).time == old(task).time,
        final(task).task_cx == old(task).task_cx,
        final(task).trap_cx == old(task).trap_cx,
        final(task).trap_cx_ppn == old(task).trap_cx_ppn,
{
    if task.task_status == TaskStatus::Running {
        task.task_status = TaskStatus::Ready;
    }
    0
}

/// Reports the clock reading `now_us`, in microseconds, as seconds and
/// microseconds for the user buffer at `ts`. Returns the status of the call,
/// 0 or, where the buffer is not wholly mapped, -1; the time value; and the
/// pieces of physical memory that take its bytes, none on failure.
pub fn sys_get_time(task: &TaskControlBlock, ts: usize, _tz: usize, now_us: usize) -> (r: (
    isize,
    TimeVal,
    Vec<Segment>,
))
    ensures
        r.0 == (if task.memory_set.buffer_mapped(ts, TIME_VAL_SIZE) { 0isize } else { -1isize }),
        r.1 == time_val_of(now_us),
        r.2@ == reply_segments(task, ts, TIME_VAL_SIZE),
{
    let time_info = TimeVal { sec: now_us / MICROS_PER_SEC, usec: now_us % MICROS_PER_SEC };
    let (status, segments) = locate_reply(task, ts, TIME_VAL_SIZE);
    (status, time_info, segments)
}

/// Reports the task's status, its system-call counts and the time that
/// passed between its set-up and the clock reading `now`, for the user
/// buffer at `ti`. Returns the status of the call, 0 or, where the buffer is
/// not wholly mapped, -1; the report; and the pieces of physical memory that
/// take its bytes, none on failure. The clock does not run backwards.
pub fn sys_task_info(task: &TaskControlBlock, ti: usize, now: usize) -> (r: (
    isize,
    TaskInfo,
    Vec<Segment>,
))
    requires
        task.time <= now,
    ensures
        r.0 == (if task.memory_set.buffer_mapped(ti, TASK_INFO_SIZE) { 0isize } else { -1isize }),
        r.1.status == task.task_status,
        r.1.syscall_times == task.syscall_times,
        r.1.time == now - task.time,
        r.2@ == reply_segments(task, ti, TASK_INFO_SIZE),
{
    let info = TaskInfo {
        status: task.task_status,
        syscall_times: task.syscall_times,
        time: now - task.time,
    };
    let (status, segments) = locate_reply(task, ti, TASK_INFO_SIZE);
    (status, info, segments)
}

/// Maps memory for the calling task. Returns 0, or -1 with nothing changed
/// when the request is refused.
pub fn sys_mmap(
    task: &mut TaskControlBlock,
    frames: &mut FrameAllocator,
    start: usize,
    len: usize,
    port: usize,
) -> (r: isize)
    requires
        old(task).wf(old(frames)),
    ensures
        r == (if old(task).mmap_refusal(old(frames), start, len, port) is None {
            0isize
        } else {
            -1isize
        }),
        TaskControlBlock::mmap_done(
            old(task),
            old(frames),
            start,
            len,
            port,
            final(task),
            final(frames),
        ),
{
    match task.program_mmap(frames, start, len, port) {
        Ok(()) => 0,
        Err(_) => -1,
    }
}

/// Unmaps memory of the calling task. Returns 0, or -1 with nothing changed
/// when the request is refused.
pub fn sys_munmap(
    task: &mut TaskControlBlock,
    frames: &mut FrameAllocator,
    start: usize,
    len: usize,
) -> (r: isize)
    requires
        old(task).wf(old(frames)),
    ensures
        r == (if old(task).munmap_refusal(start, len) is None { 0isize } else { -1isize }),
        TaskControlBlock::munmap_done(
            old(task),
            old(frames),
            start,
            len,
            final(task),
            final(frames),
        ),
{
    match task.program_mummap(frames, start, len) {
        Ok(()) => 0,
        Err(_) => -1,
    }
}

/// Moves the break of the calling task by `size` bytes. Returns the break
/// as it was, as a signed word, or -1 with nothing changed when the move is
/// refused.
pub fn sys_sbrk(task: &mut TaskControlBlock, frames: &mut FrameAllocator, size: i32) -> (r: isize)
    requires
        old(task).wf(old(frames)),
    ensures
        r == (if old(task).brk_refused(old(frames), size) {
            -1isize
        } else {
            old(task).program_brk as isize
        }),
        TaskControlBlock::brk_done(old(task), old(frames), size, final(task), final(frames)),
{
    match task.change_program_brk(frames, size) {
        Some(old_brk) => old_brk as isize,
        None => -1,
    }
}

} // verus!
