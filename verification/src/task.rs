//! The task control block and what a task may do to its own address space.

use vstd::prelude::*;
use crate::config::{
    MemError, KERNEL_STACK_SIZE, MAX_SYSCALL_NUM, PAGE_SIZE, TRAMPOLINE,
    TRAP_CONTEXT_BASE,
};
use crate::frame::FrameAllocator;
use crate::memory_set::{ceil_page, floor_page, page_ceil, page_floor, ranges_meet, MemorySet};
use crate::page_table::{MapPermission, PageTable};

verus! {

/// Where a task stands in its life.
#[derive(Clone, Copy, Debug, PartialEq, Eq, Structural)]
pub enum TaskStatus {
    /// Not set up yet.
    UnInit,
    /// Waiting for the processor.
    Ready,
    /// On the processor.
    Running,
    /// Finished; never runs again.
    Exited,
}

impl TaskStatus {
    /// The steps of a task's life: set up, dispatched, and from the processor
    /// either back to waiting or out for good.
    pub open spec fn may_become(self, next: TaskStatus) -> bool {
        match (self, next) {
            (TaskStatus::UnInit, TaskStatus::Ready) => true,
            (TaskStatus::Ready, TaskStatus::Running) => true,
            (TaskStatus::Running, TaskStatus::Ready) => true,
            (TaskStatus::Running, TaskStatus::Exited) => true,
            _ => false,
        }
    }
}

/// The registers that a context switch saves: return address, stack pointer
/// and the callee-saved registers.
#[derive(Clone, Copy, Debug)]
pub struct TaskContext {
    pub ra: usize,
    pub sp: usize,
    pub s: [usize; 12],
}

impl TaskContext {
    /// The context of a task that has not run yet: its first switch returns
    /// into `trap_return` on the kernel stack that ends at `kstack_ptr`.
    pub fn goto_trap_return(trap_return: usize, kstack_ptr: usize) -> (r: TaskContext)
        ensures
            r.ra == trap_return,
            r.sp == kstack_ptr,
            forall|i: int| 0 <= i < 12 ==> r.s[i] == 0,
    {
        TaskContext { ra: trap_return, sp: kstack_ptr, s: [0; 12] }
    }
}

/// The user state that a trap saves, and what the trap entry needs to find
/// its way into the kernel.
#[derive(Clone, Copy, Debug)]
pub struct TrapContext {
    /// General registers; register 2 is the stack pointer.
    pub x: [usize; 32],
    /// Address at which user execution resumes.
    pub sepc: usize,
    /// Root token of the kernel's address space.
    pub kernel_satp: usize,
    /// Top of the task's kernel stack.
    pub kernel_sp: usize,
    /// Address of the kernel's trap handler.
    pub trap_handler: usize,
}

impl TrapContext {
    /// The trap context of a task that is about to run for the first time.
    pub fn app_init_context(
        entry: usize,
        sp: usize,
        kernel_satp: usize,
        kernel_sp: usize,
        trap_handler: usize,
    ) -> (r: TrapContext)
        ensures
            r.sepc == entry,
            r.kernel_satp == kernel_satp,
            r.kernel_sp == kernel_sp,
            r.trap_handler == trap_handler,
            forall|i: int| 0 <= i < 32 ==> r.x[i] == (if i == 2 { sp } else { 0 }),
    {
        let mut x: [usize; 32] = [0; 32];
        x[2] = sp;
        TrapContext { x, sepc: entry, kernel_satp, kernel_sp, trap_handler }
    }
}

/// Lowest byte address of the kernel stack of a task slot.
pub open spec fn kernel_stack_bottom(app_id: usize) -> int {
    kernel_stack_top(app_id) - KERNEL_STACK_SIZE
}

/// One past the highest byte address of the kernel stack of a task slot.
/// The stacks lie below the trampoline, one unmapped page between
/// neighbours.
pub open spec fn kernel_stack_top(app_id: usize) -> int {
    TRAMPOLINE - app_id * (KERNEL_STACK_SIZE + PAGE_SIZE)
}

/// The kernel stack of the task slot lies within the address space, below
/// the trampoline.
pub open spec fn kernel_stack_fits(app_id: usize) -> bool {
    app_id * (KERNEL_STACK_SIZE + PAGE_SIZE) + KERNEL_STACK_SIZE <= TRAMPOLINE
}

/// Whether the address space has room for the kernel stack of the task
/// slot.
pub fn has_kernel_stack(app_id: usize) -> (r: bool)
    ensures
        r == kernel_stack_fits(app_id),
{
    let room: usize = TRAMPOLINE - KERNEL_STACK_SIZE;
    let step: usize = KERNEL_STACK_SIZE + PAGE_SIZE;
    let last: usize = room / step;
    proof {
        assert(last * step <= room < (last + 1) * step);
    }
    app_id <= last
}

/// The byte range of the kernel stack of a task slot, bottom first.
pub fn kernel_stack_position(app_id: usize) -> (r: (usize, usize))
    requires
        kernel_stack_fits(app_id),
    ensures
        r.0 == kernel_stack_bottom(app_id),
        r.1 == kernel_stack_top(app_id),
{
    let top: usize = TRAMPOLINE - app_id * (KERNEL_STACK_SIZE + PAGE_SIZE);
    (top - KERNEL_STACK_SIZE, top)
}

/// Everything the kernel keeps about one task.
pub struct TaskControlBlock {
    /// Registers saved at the last switch away from the task.
    pub task_cx: TaskContext,
    /// Where the task stands in its life.
    pub task_status: TaskStatus,
    /// The task's address space.
    pub memory_set: MemorySet,
    /// Frame that holds the trap context.
    pub trap_cx_ppn: usize,
    /// The trap context that lives in that frame.
    pub trap_cx: TrapContext,
    /// Top address of the loaded program.
    pub base_size: usize,
    /// Lowest address of the heap.
    pub heap_bottom: usize,
    /// Current end of the heap.
    pub program_brk: usize,
    /// How often the task made each system call.
    pub syscall_times: [u32; MAX_SYSCALL_NUM],
    /// Clock reading at which the task was set up.
    pub time: usize,
}

impl TaskControlBlock {
    /// The task's address space is well formed and lives on frames of the
    /// given pool, and the break is not below the heap's bottom.
    pub open spec fn wf(&self, frames: &FrameAllocator) -> bool {
        &&& self.memory_set.wf()
        &&& frames.wf()
        &&& self.memory_set.backed_by(frames)
        &&& self.heap_bottom <= self.program_brk
    }

    /// The heap is the first area that starts at the heap's bottom page, and
    /// it ends at the break, rounded up to a whole page.
    pub open spec fn heap_in_step(&self) -> bool {
        &&& self.memory_set.has_area_at(floor_page(self.heap_bottom))
        &&& self.memory_set.areas()[self.memory_set.index_at(
            floor_page(self.heap_bottom),
        )].end_vpn == ceil_page(self.program_brk)
    }

    /// Everything but the address space and the break is the same in both.
    pub open spec fn same_bookkeeping(&self, other: &TaskControlBlock) -> bool {
        &&& self.task_cx == other.task_cx
        &&& self.task_status == other.task_status
        &&& self.trap_cx_ppn == other.trap_cx_ppn
        &&& self.trap_cx == other.trap_cx
        &&& self.base_size == other.base_size
        &&& self.heap_bottom == other.heap_bottom
        &&& self.syscall_times == other.syscall_times
        &&& self.time == other.time
    }

    /// Where a change of the break by `size` would put it.
    pub open spec fn brk_target(&self, size: i32) -> int {
        self.program_brk + size
    }

    /// A change of the break by `size` is refused: the new break would lie
    /// below the heap's bottom or past the end of the address space, or the
    /// address space cannot follow.
    pub open spec fn brk_refused(&self, frames: &FrameAllocator, size: i32) -> bool {
        let target = self.brk_target(size);
        ||| target < self.heap_bottom
        ||| target > usize::MAX
        ||| (if size < 0 {
            self.memory_set.shrink_refusal(self.heap_bottom, target as usize) is Some
        } else {
            self.memory_set.append_refusal(frames, self.heap_bottom, target as usize) is Some
        })
    }

    /// What a change of the break by `size` that was not refused leaves
    /// behind.
    pub open spec fn brk_moved(
        pre: &TaskControlBlock,
        pre_frames: &FrameAllocator,
        size: i32,
        post: &TaskControlBlock,
        post_frames: &FrameAllocator,
    ) -> bool {
        let target = pre.brk_target(size) as usize;
        &&& post.program_brk == target
        &&& post.same_bookkeeping(pre)
        &&& post.wf(post_frames)
        &&& if size < 0 {
            MemorySet::shrunk(
                &pre.memory_set,
                pre_frames,
                floor_page(pre.heap_bottom),
                ceil_page(target),
                &post.memory_set,
                post_frames,
            )
        } else {
            MemorySet::grown(
                &pre.memory_set,
                pre_frames,
                floor_page(pre.heap_bottom),
                ceil_page(target),
                &post.memory_set,
                post_frames,
            )
        }
    }

    /// The error, if any, with which a request to map `len` bytes at `start`
    /// with the accesses of `port` is refused.
    pub open spec fn mmap_refusal(
        &self,
        frames: &FrameAllocator,
        start: usize,
        len: usize,
        port: usize,
    ) -> Option<MemError> {
        if len == 0 || !MapPermission::port_ok(port) || start + len > usize::MAX {
            Some(MemError::InvalidArgument)
        } else {
            self.memory_set.insert_refusal(frames, start, (start + len) as usize)
        }
    }

    /// The error, if any, with which a request to unmap `len` bytes at
    /// `start` is refused.
    pub open spec fn munmap_refusal(&self, start: usize, len: usize) -> Option<MemError> {
        if len == 0 || start + len > usize::MAX {
            Some(MemError::InvalidArgument)
        } else if !self.memory_set.has_exact(
            floor_page(start),
            ceil_page((start + len) as usize),
        ) {
            Some(MemError::NotMapped)
        } else {
            None
        }
    }

    /// The states before and after a request to map memory: nothing changed
    /// where it was refused, the new area and nothing else where it was not.
    pub open spec fn mmap_done(
        pre: &TaskControlBlock,
        pre_frames: &FrameAllocator,
        start: usize,
        len: usize,
        port: usize,
        post: &TaskControlBlock,
        post_frames: &FrameAllocator,
    ) -> bool {
        if pre.mmap_refusal(pre_frames, start, len, port) is Some {
            *post == *pre && *post_frames == *pre_frames
        } else {
            &&& post.wf(post_frames)
            &&& post.same_bookkeeping(pre)
            &&& post.program_brk == pre.program_brk
            &&& MemorySet::inserted(
                &pre.memory_set,
                pre_frames,
                floor_page(start),
                ceil_page((start + len) as usize),
                MapPermission::of_port(port),
                &post.memory_set,
                post_frames,
            )
        }
    }

    /// The states before and after a request to unmap memory: nothing
    /// changed where it was refused, the area gone and nothing else where it
    /// was not.
    pub open spec fn munmap_done(
        pre: &TaskControlBlock,
        pre_frames: &FrameAllocator,
        start: usize,
        len: usize,
        post: &TaskControlBlock,
        post_frames: &FrameAllocator,
    ) -> bool {
        if pre.munmap_refusal(start, len) is Some {
            *post == *pre && *post_frames == *pre_frames
        } else {
            &&& post.wf(post_frames)
            &&& post.same_bookkeeping(pre)
            &&& post.program_brk == pre.program_brk
            &&& MemorySet::deleted(
                &pre.memory_set,
                pre_frames,
                floor_page(start),
                ceil_page((start + len) as usize),
                &post.memory_set,
                post_frames,
            )
        }
    }

    /// The states before and after a request to move the break: nothing
    /// changed where it was refused, the break and the heap moved where it
    /// was not.
    pub open spec fn brk_done(
        pre: &TaskControlBlock,
        pre_frames: &FrameAllocator,
        size: i32,
        post: &TaskControlBlock,
        post_frames: &FrameAllocator,
    ) -> bool {
        if pre.brk_refused(pre_frames, size) {
            *post == *pre && *post_frames == *pre_frames
        } else {
            Self::brk_moved(pre, pre_frames, size, post, post_frames)
        }
    }

    /// Sets up the control block of a task whose program is loaded: takes
    /// over the address space that the loader built, with the user stack
    /// pointer and the entry point that it reported, maps the kernel stack
    /// of slot `app_id` into the kernel's address space for reading and
    /// writing, and prepares the trap context for the first entry into user
    /// mode. The task starts out ready, with all counters at zero, the heap
    /// empty at `user_sp` and `now` as its starting time. Where the kernel
    /// stack cannot be mapped, the error says why and nothing has changed.
    pub fn new(
        memory_set: MemorySet,
        user_sp: usize,
        entry_point: usize,
        app_id: usize,
        kernel_space: &mut MemorySet,
        frames: &mut FrameAllocator,
        trap_return: usize,
        trap_handler: usize,
        now: usize,
    ) -> (r: Result<TaskControlBlock, MemError>)
        requires
            kernel_stack_fits(app_id),
            old(frames).wf(),
            memory_set.wf(),
            memory_set.backed_by(old(frames)),
            memory_set.table().contains_key(floor_page(TRAP_CONTEXT_BASE)),
            old(kernel_space).wf(),
            old(kernel_space).backed_by(old(frames)),
        ensures
            match old(kernel_space).insert_refusal(
                old(frames),
                kernel_stack_bottom(app_id) as usize,
                kernel_stack_top(app_id) as usize,
            ) {
                Some(err) => r == Err::<TaskControlBlock, MemError>(err) && *final(kernel_space)
                    == *old(kernel_space) && *final(frames) == *old(frames),
                None => {
                    &&& r is Ok
                    &&& MemorySet::inserted(
                        old(kernel_space),
                        old(frames),
                        floor_page(kernel_stack_bottom(app_id) as usize),
                        ceil_page(kernel_stack_top(app_id) as usize),
                        MapPermission { read: true, write: true, execute: false, user: false },
                        final(kernel_space),
                        final(frames),
                    )
                    &&& r->Ok_0.wf(final(frames))
                    &&& r->Ok_0.memory_set == memory_set
                    &&& r->Ok_0.heap_in_step() == (memory_set.has_area_at(floor_page(user_sp))
                        && memory_set.areas()[memory_set.index_at(floor_page(user_sp))].end_vpn
                        == ceil_page(user_sp))
                    &&& r->Ok_0.task_status == TaskStatus::Ready
                    &&& r->Ok_0.trap_cx_ppn == memory_set.table()[floor_page(
                        TRAP_CONTEXT_BASE,
                    )].ppn
                    &&& r->Ok_0.base_size == user_sp
                    &&& r->Ok_0.heap_bottom == user_sp
                    &&& r->Ok_0.program_brk == user_sp
                    &&& r->Ok_0.time == now
                    &&& forall|i: int| 0 <= i < MAX_SYSCALL_NUM ==> r->Ok_0.syscall_times[i] == 0
                    &&& r->Ok_0.task_cx.ra == trap_return
                    &&& r->Ok_0.task_cx.sp == kernel_stack_top(app_id)
                    &&& forall|i: int| 0 <= i < 12 ==> r->Ok_0.task_cx.s[i] == 0
                    &&& r->Ok_0.trap_cx.sepc == entry_point
                    &&& r->Ok_0.trap_cx.kernel_satp == PageTable::token_of(old(kernel_space).root())
                    &&& r->Ok_0.trap_cx.kernel_sp == kernel_stack_top(app_id)
                    &&& r->Ok_0.trap_cx.trap_handler == trap_handler
                    &&& forall|i: int|
                        0 <= i < 32 ==> r->Ok_0.trap_cx.x[i] == (if i == 2 {
                            user_sp
                        } else {
                            0
                        })
                },
            },
    {
        let trap_cx_ppn: usize = memory_set.translate(TRAP_CONTEXT_BASE / PAGE_SIZE).unwrap().ppn;
        let (kernel_stack_bottom, kernel_stack_top) = kernel_stack_position(app_id);
        match kernel_space.insert_framed_area(
            frames,
            kernel_stack_bottom,
            kernel_stack_top,
            MapPermission::kernel_rw(),
        ) {
            Ok(()) => {},
            Err(err) => {
                return Err(err);
            },
        }
        let trap_cx = TrapContext::app_init_context(
            entry_point,
            user_sp,
            kernel_space.token(),
            kernel_stack_top,
            trap_handler,
        );
        Ok(
            TaskControlBlock {
                task_cx: TaskContext::goto_trap_return(trap_return, kernel_stack_top),
                task_status: TaskStatus::Ready,
                memory_set,
                trap_cx_ppn,
                trap_cx,
                base_size: user_sp,
                heap_bottom: user_sp,
                program_brk: user_sp,
                syscall_times: [0; MAX_SYSCALL_NUM],
                time: now,
            },
        )
    }

    /// The trap context of the task, for reading and writing. Whatever is
    /// written through the reference is the task's trap context afterwards;
    /// nothing else about the task changes.
    pub fn get_trap_cx(&mut self) -> (r: &mut TrapContext)
        ensures
            *r == old(self).trap_cx,
            final(self).trap_cx == *final(r),
            final(self).task_cx == old(self).task_cx,
            final(self).task_status == old(self).task_status,
            final(self).memory_set == old(self).memory_set,
            final(self).trap_cx_ppn == old(self).trap_cx_ppn,
            final(self).base_size == old(self).base_size,
            final(self).heap_bottom == old(self).heap_bottom,
            final(self).program_brk == old(self).program_brk,
            final(self).syscall_times == old(self).syscall_times,
            final(self).time == old(self).time,
    {
        &mut self.trap_cx
    }

    /// The root token of the task's page table.
    pub fn get_user_token(&self) -> (r: usize)
        ensures
            r == PageTable::token_of(self.memory_set.root()),
    {
        self.memory_set.token()
    }

    /// Moves the break by `size` bytes and lets the heap area follow: it
    /// grows for a `size` of zero or more and shrinks for a negative one.
    /// Returns the break as it was, or `None`, with nothing changed, when the
    /// move is refused.
    pub fn change_program_brk(&mut self, frames: &mut FrameAllocator, size: i32) -> (r: Option<
        usize,
    >)
        requires
            old(self).wf(old(frames)),
        ensures
            r == (if old(self).brk_refused(old(frames), size) {
                None
            } else {
                Some(old(self).program_brk)
            }),
            Self::brk_done(old(self), old(frames), size, final(self), final(frames)),
            old(self).heap_in_step() ==> final(self).heap_in_step(),
    {
        let old_break: usize = self.program_brk;
        if size < 0 {
            let back: usize = (-(size as i64)) as usize;
            if old_break - self.heap_bottom < back {
                return None;
            }
            let new_brk: usize = old_break - back;
            match self.memory_set.shrink_to(frames, self.heap_bottom, new_brk) {
                Ok(()) => {
                    self.program_brk = new_brk;
                    proof {
                        old(self).memory_set.lemma_update_keeps_first(
                            floor_page(self.heap_bottom),
                            ceil_page(new_brk),
                            &self.memory_set,
                        );
                    }
                    Some(old_break)
                },
                Err(_) => None,
            }
        } else {
            let forth: usize = size as usize;
            if forth > usize::MAX - old_break {
                return None;
            }
            let new_brk: usize = old_break + forth;
            match self.memory_set.append_to(frames, self.heap_bottom, new_brk) {
                Ok(()) => {
                    self.program_brk = new_brk;
                    proof {
                        old(self).memory_set.lemma_update_keeps_first(
                            floor_page(self.heap_bottom),
                            ceil_page(new_brk),
                            &self.memory_set,
                        );
                    }
                    Some(old_break)
                },
                Err(_) => None,
            }
        }
    }

    /// Maps `len` bytes at `start`, rounded outwards to whole pages, to fresh
    /// frames for user access as `port` asks: bit 0 read, bit 1 write, bit 2
    /// execute. Nothing changes when the request is refused.
    pub fn program_mmap(
        &mut self,
        frames: &mut FrameAllocator,
        start: usize,
        len: usize,
        port: usize,
    ) -> (r: Result<(), MemError>)
        requires
            old(self).wf(old(frames)),
        ensures
            r == (match old(self).mmap_refusal(old(frames), start, len, port) {
                Some(err) => Err::<(), MemError>(err),
                None => Ok(()),
            }),
            Self::mmap_done(old(self), old(frames), start, len, port, final(self), final(frames)),
    {
        if len == 0 {
            return Err(MemError::InvalidArgument);
        }
        let perm = match MapPermission::from_port(port) {
            Some(perm) => perm,
            None => {
                return Err(MemError::InvalidArgument);
            },
        };
        if len > usize::MAX - start {
            return Err(MemError::InvalidArgument);
        }
        let end: usize = start + len;
        match self.memory_set.insert_framed_area(frames, start, end, perm) {
            Ok(()) => Ok(()),
            Err(err) => Err(err),
        }
    }

    /// Unmaps the area that covers exactly `len` bytes at `start`, rounded
    /// outwards to whole pages, and hands its frames back. Nothing changes
    /// when the request is refused.
    pub fn program_mummap(&mut self, frames: &mut FrameAllocator, start: usize, len: usize) -> (r:
        Result<(), MemError>)
        requires
            old(self).wf(old(frames)),
        ensures
            r == (match old(self).munmap_refusal(start, len) {
                Some(err) => Err::<(), MemError>(err),
                None => Ok(()),
            }),
            Self::munmap_done(old(self), old(frames), start, len, final(self), final(frames)),
    {
        if len == 0 {
            return Err(MemError::InvalidArgument);
        }
        if len > usize::MAX - start {
            return Err(MemError::InvalidArgument);
        }
        let end: usize = start + len;
        match self.memory_set.delete_framed_area(frames, start, end) {
            Ok(()) => Ok(()),
            Err(err) => Err(err),
        }
    }

    /// The frames behind the `len` bytes at `start`, one for each page that
    /// the range touches, in the order of the pages: after a request to map
    /// that range was granted, the frames that it took for pages. `None`
    /// where the range runs past the end of the address space or touches a
    /// page that is not mapped.
    pub fn mapped_frames(&self, start: usize, len: usize) -> (r: Option<Vec<usize>>)
        ensures
            r is Some <==> start + len <= usize::MAX && self.memory_set.pages_mapped(
                floor_page(start),
                ceil_page((start + len) as usize),
            ),
            r is Some ==> r->Some_0@ == self.memory_set.frames_behind(
                floor_page(start),
                ceil_page((start + len) as usize),
            ),
    {
        if len > usize::MAX - start {
            return None;
        }
        self.memory_set.frames_of_pages(page_floor(start), page_ceil(start + len))
    }

    /// The frames behind the pages that lie between a break at `old_brk`
    /// and the break as it is, in the order of the pages: after the break
    /// moved up from `old_brk`, the frames that the heap gained. `None`
    /// where one of these pages is not mapped.
    pub fn heap_frames_since(&self, old_brk: usize) -> (r: Option<Vec<usize>>)
        ensures
            r is Some <==> self.memory_set.pages_mapped(
                ceil_page(old_brk),
                ceil_page(self.program_brk),
            ),
            r is Some ==> r->Some_0@ == self.memory_set.frames_behind(
                ceil_page(old_brk),
                ceil_page(self.program_brk),
            ),
    {
        self.memory_set.frames_of_pages(page_ceil(old_brk), page_ceil(self.program_brk))
    }

    /// Counts one more call of the system call `syscall_id`.
    pub fn syscall_count(&mut self, syscall_id: usize)
        requires
            syscall_id < MAX_SYSCALL_NUM,
            old(self).syscall_times[syscall_id as int] < u32::MAX,
        ensures
            final(self).syscall_times@ == old(self).syscall_times@.update(
                syscall_id as int,
                (old(self).syscall_times[syscall_id as int] + 1) as u32,
            ),
            final(self).task_cx == old(self).task_cx,
            final(self).task_status == old(self).task_status,
            final(self).memory_set == old(self).memory_set,
            final(self).trap_cx_ppn == old(self).trap_cx_ppn,
            final(self).trap_cx == old(self).trap_cx,
            final(self).base_size == old(self).base_size,
            final(self).heap_bottom == old(self).heap_bottom,
            final(self).program_brk == old(self).program_brk,
            final(self).time == old(self).time,
    {
        let seen: u32 = self.syscall_times[syscall_id];
        self.syscall_times[syscall_id] = seen + 1;
    }
}

/// A port with a bit above the low three, or with no bit at all, is refused
/// as an invalid argument, whatever the range and the state.
pub proof fn lemma_bad_port_refused(
    task: &TaskControlBlock,
    frames: &FrameAllocator,
    start: usize,
    len: usize,
    port: usize,
)
    requires
        port & !0x7usize != 0 || port == 0,
    ensures
        task.mmap_refusal(frames, start, len, port) == Some(MemError::InvalidArgument),
{
    MapPermission::lemma_port_bits(port);
}

/// A request to map a range that meets an area already there is refused as
/// an overlap, and the task and the pool stay as they were.
pub proof fn lemma_overlapping_mmap_refused(
    pre: &TaskControlBlock,
    pre_frames: &FrameAllocator,
    start: usize,
    len: usize,
    port: usize,
    post: &TaskControlBlock,
    post_frames: &FrameAllocator,
)
    requires
        len > 0,
        start + len <= usize::MAX,
        MapPermission::port_ok(port),
        pre.memory_set.meets(floor_page(start), ceil_page((start + len) as usize)),
        TaskControlBlock::mmap_done(pre, pre_frames, start, len, port, post, post_frames),
    ensures
        pre.mmap_refusal(pre_frames, start, len, port) == Some(MemError::RegionOverlap),
        *post == *pre,
        *post_frames == *pre_frames,
        post.memory_set.table() == pre.memory_set.table(),
{
}

/// A request to unmap a range that is not exactly an area is refused as not
/// mapped. One that is exactly an area leaves none of its pages mapped, and
/// a request to map the same range again is then not refused.
pub proof fn lemma_munmap_exact_or_refused(
    pre: &TaskControlBlock,
    pre_frames: &FrameAllocator,
    start: usize,
    len: usize,
    port: usize,
    post: &TaskControlBlock,
    post_frames: &FrameAllocator,
)
    requires
        pre.wf(pre_frames),
        len > 0,
        start + len <= usize::MAX,
        MapPermission::port_ok(port),
        TaskControlBlock::munmap_done(pre, pre_frames, start, len, post, post_frames),
    ensures
        !pre.memory_set.has_exact(floor_page(start), ceil_page((start + len) as usize))
            ==> pre.munmap_refusal(start, len) == Some(MemError::NotMapped) && *post == *pre,
        pre.memory_set.has_exact(floor_page(start), ceil_page((start + len) as usize)) ==> {
            &&& pre.munmap_refusal(start, len) is None
            &&& forall|vpn: usize|
                floor_page(start) <= vpn < ceil_page((start + len) as usize)
                    ==> !#[trigger] post.memory_set.table().contains_key(vpn)
            &&& post.mmap_refusal(post_frames, start, len, port) is None
        },
{
    if pre.memory_set.has_exact(floor_page(start), ceil_page((start + len) as usize)) {
        crate::memory_set::lemma_deleted_range_is_free_again(
            &pre.memory_set,
            pre_frames,
            start,
            (start + len) as usize,
            &post.memory_set,
            post_frames,
        );
    }
}

/// A move of the break to below the heap's bottom is refused, and the task,
/// its break included, and the pool stay as they were.
pub proof fn lemma_brk_below_bottom_refused(
    pre: &TaskControlBlock,
    pre_frames: &FrameAllocator,
    size: i32,
    post: &TaskControlBlock,
    post_frames: &FrameAllocator,
)
    requires
        pre.program_brk + size < pre.heap_bottom,
        TaskControlBlock::brk_done(pre, pre_frames, size, post, post_frames),
    ensures
        pre.brk_refused(pre_frames, size),
        post.program_brk == pre.program_brk,
        *post == *pre,
        *post_frames == *pre_frames,
{
}

/// Moving the break by `n` and then by `-n` puts it back: where the first
/// move is not refused, the second is not either, and afterwards the break,
/// the areas and the set of mapped pages are what they were. So is the
/// number of free frames, but for the leaf tables that a heap that grew
/// first had to add to the page table.
pub proof fn lemma_brk_round_trip(
    t0: &TaskControlBlock,
    f0: &FrameAllocator,
    n: i32,
    t1: &TaskControlBlock,
    f1: &FrameAllocator,
    t2: &TaskControlBlock,
    f2: &FrameAllocator,
)
    requires
        t0.wf(f0),
        t0.heap_in_step(),
        n > i32::MIN,
        !t0.brk_refused(f0, n),
        TaskControlBlock::brk_done(t0, f0, n, t1, f1),
        TaskControlBlock::brk_done(t1, f1, (-n) as i32, t2, f2),
    ensures
        !t1.brk_refused(f1, (-n) as i32),
        t2.program_brk == t0.program_brk,
        t2.memory_set.areas() == t0.memory_set.areas(),
        t2.memory_set.table().dom() == t0.memory_set.table().dom(),
        f2.free_count() == f0.free_count() - (if n >= 0 {
            t0.memory_set.frames_needed(
                ceil_page(t0.program_brk),
                ceil_page(t0.brk_target(n) as usize),
            ) - (ceil_page(t0.brk_target(n) as usize) - ceil_page(t0.program_brk))
        } else {
            0
        }),
{
    let s = floor_page(t0.heap_bottom);
    let m0 = &t0.memory_set;
    let m1 = &t1.memory_set;
    let m2 = &t2.memory_set;
    let w = choose|i: int| m0.area_starts(i, s);
    m0.lemma_first_exists(s, w);
    let i = m0.index_at(s);
    let c0 = ceil_page(t0.program_brk);
    let c1 = ceil_page(t1.program_brk);
    m0.lemma_update_keeps_first(s, c1, m1);
    assert(m1.index_at(s) == i);
    assert(m0.areas()[i].start_vpn <= m0.areas()[i].end_vpn);
    if n >= 0 {
        assert(c0 <= c1);
        assert(!t1.brk_refused(f1, (-n) as i32));
        assert(m2.areas() =~= m0.areas());
        assert forall|vpn: usize| c0 <= vpn < c1 implies !m0.table().contains_key(vpn) by {
            if m0.table().contains_key(vpn) {
                assert(m0.covered(vpn));
                let j = choose|j: int| m0.area_holds(j, vpn);
                assert(m0.area_meets(j, c0, c1));
            }
        }
        assert forall|vpn: usize| m2.table().contains_key(vpn) <==> m0.table().contains_key(
            vpn,
        ) by {
            if m2.table().contains_key(vpn) {
                assert(m1.table().contains_key(vpn));
            }
            if m0.table().contains_key(vpn) {
                assert(m1.table().contains_key(vpn));
            }
        }
        assert(m2.table().dom() =~= m0.table().dom());
    } else {
        assert(c1 <= c0);
        assert forall|vpn: usize| c1 <= vpn < c0 implies m0.table().contains_key(vpn) by {
            assert(m0.area_holds(i, vpn));
        }
        m0.lemma_mapped_range_has_tables(c1, c0);
        assert forall|j: int| !m1.area_meets(j, c1, c0) by {
            if m1.area_meets(j, c1, c0) {
                let vpn = if m1.areas()[j].start_vpn < c1 {
                    c1
                } else {
                    m1.areas()[j].start_vpn
                };
                assert(m1.area_holds(j, vpn));
                assert(m1.covered(vpn));
                assert(m1.table().contains_key(vpn));
            }
        }
        assert(!t1.brk_refused(f1, (-n) as i32));
        assert(m2.areas() =~= m0.areas());
        assert forall|vpn: usize| m2.table().contains_key(vpn) <==> m0.table().contains_key(
            vpn,
        ) by {
            if m2.table().contains_key(vpn) {
                if !(c1 <= vpn < c0) {
                    assert(m1.table().contains_key(vpn));
                }
            }
            if m0.table().contains_key(vpn) {
                if !(c1 <= vpn < c0) {
                    assert(m1.table().contains_key(vpn));
                }
                assert(m2.table().contains_key(vpn));
            }
        }
        assert(m2.table().dom() =~= m0.table().dom());
    }
}

/// The kernel stacks of two different task slots share no page.
pub proof fn lemma_kernel_stacks_apart(a: usize, b: usize)
    requires
        a != b,
        kernel_stack_fits(a),
        kernel_stack_fits(b),
    ensures
        !ranges_meet(
            floor_page(kernel_stack_bottom(a) as usize),
            ceil_page(kernel_stack_top(a) as usize),
            floor_page(kernel_stack_bottom(b) as usize),
            ceil_page(kernel_stack_top(b) as usize),
        ),
{
    if a < b {
        assert(kernel_stack_top(b) + PAGE_SIZE <= kernel_stack_bottom(a));
    } else {
        assert(kernel_stack_top(a) + PAGE_SIZE <= kernel_stack_bottom(b));
    }
}

} // verus!
