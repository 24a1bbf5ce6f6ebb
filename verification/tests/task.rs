use task_core::config::{
    MemError, KERNEL_STACK_SIZE, MAX_SYSCALL_NUM, PAGE_SIZE, TRAMPOLINE, TRAP_CONTEXT_BASE,
};
use task_core::frame::FrameAllocator;
use task_core::memory_set::{MapArea, MemorySet, Segment};
use task_core::page_table::{MapPermission, TOKEN_MODE};
use task_core::syscall::{
    sys_exit, sys_get_time, sys_mmap, sys_munmap, sys_sbrk, sys_task_info, sys_yield, TimeVal,
    TASK_INFO_SIZE, TIME_VAL_SIZE,
};
use task_core::task::{
    has_kernel_stack, kernel_stack_position, TaskContext, TaskControlBlock, TaskStatus,
    TrapContext,
};

fn user_rw() -> MapPermission {
    MapPermission { read: true, write: true, execute: false, user: true }
}

fn kernel_rw() -> MapPermission {
    MapPermission { read: true, write: true, execute: false, user: false }
}

/// An address space as a loader leaves it: the trap-context page and an
/// empty heap at `user_sp`.
fn loaded_space(pool: &mut FrameAllocator, user_sp: usize) -> MemorySet {
    let mut space = MemorySet::new_bare(2);
    assert_eq!(space.insert_framed_area(pool, TRAP_CONTEXT_BASE, TRAMPOLINE, kernel_rw()), Ok(()));
    assert_eq!(space.insert_framed_area(pool, user_sp, user_sp, user_rw()), Ok(()));
    space
}

fn new_task(pool: &mut FrameAllocator, kernel: &mut MemorySet, user_sp: usize) -> TaskControlBlock {
    let space = loaded_space(pool, user_sp);
    match TaskControlBlock::new(space, user_sp, 0x1000, 0, kernel, pool, 0xaaaa, 0xbbbb, 1_000) {
        Ok(task) => task,
        Err(err) => panic!("task set-up failed: {:?}", err),
    }
}

#[test]
fn kernel_stacks_lie_below_the_trampoline() {
    assert_eq!(TRAMPOLINE, usize::MAX - PAGE_SIZE + 1);
    assert_eq!(TRAP_CONTEXT_BASE, TRAMPOLINE - PAGE_SIZE);
    assert_eq!(kernel_stack_position(0), (TRAMPOLINE - KERNEL_STACK_SIZE, TRAMPOLINE));
    let (bottom, top) = kernel_stack_position(3);
    assert_eq!(top, TRAMPOLINE - 3 * (KERNEL_STACK_SIZE + PAGE_SIZE));
    assert_eq!(bottom, top - KERNEL_STACK_SIZE);
}

#[test]
fn contexts_start_out_clean() {
    let cx = TaskContext::goto_trap_return(0x1234, 0x9000);
    assert_eq!((cx.ra, cx.sp), (0x1234, 0x9000));
    assert_eq!(cx.s, [0usize; 12]);
    let trap = TrapContext::app_init_context(1, 2, 3, 4, 5);
    assert_eq!(trap.sepc, 1);
    assert_eq!(trap.x[2], 2);
    assert_eq!(trap.kernel_satp, 3);
    assert_eq!(trap.kernel_sp, 4);
    assert_eq!(trap.trap_handler, 5);
    for i in 0..32 {
        if i != 2 {
            assert_eq!(trap.x[i], 0);
        }
    }
}

#[test]
fn new_task_is_ready_with_empty_heap() {
    let mut pool = FrameAllocator::new(50, 80);
    let mut kernel = MemorySet::new_bare(1);
    let mut task = new_task(&mut pool, &mut kernel, 0x10000);
    assert_eq!(task.task_status, TaskStatus::Ready);
    assert_eq!(task.base_size, 0x10000);
    assert_eq!(task.heap_bottom, 0x10000);
    assert_eq!(task.program_brk, 0x10000);
    assert_eq!(task.time, 1_000);
    assert!(task.syscall_times.iter().all(|&n| n == 0));
    assert_eq!(task.syscall_times.len(), MAX_SYSCALL_NUM);
    assert_eq!(task.trap_cx_ppn, 50);
    assert_eq!(task.task_cx.ra, 0xaaaa);
    assert_eq!(task.task_cx.sp, TRAMPOLINE);
    let trap = task.get_trap_cx();
    assert_eq!(trap.sepc, 0x1000);
    assert_eq!(trap.x[2], 0x10000);
    assert_eq!(trap.kernel_satp, TOKEN_MODE | 1);
    assert_eq!(trap.kernel_sp, TRAMPOLINE);
    assert_eq!(trap.trap_handler, 0xbbbb);
    trap.x[10] = 42;
    trap.sepc += 4;
    assert_eq!(task.trap_cx.x[10], 42);
    assert_eq!(task.get_trap_cx().sepc, 0x1004);
    assert_eq!(task.get_user_token(), TOKEN_MODE | 2);
    assert_eq!(kernel.area_count(), 1);
    let stack = kernel.area(0);
    assert_eq!(stack.perm, kernel_rw());
    assert_eq!(stack.end_vpn - stack.start_vpn, KERNEL_STACK_SIZE / PAGE_SIZE);
    assert_eq!(stack.end_vpn, TRAMPOLINE / PAGE_SIZE);
    assert!(pool.has_free(25));
    assert!(!pool.has_free(26));
}

#[test]
fn new_task_fails_when_its_kernel_stack_is_taken() {
    let mut pool = FrameAllocator::new(50, 80);
    let mut kernel = MemorySet::new_bare(1);
    let _first = new_task(&mut pool, &mut kernel, 0x10000);
    let space = loaded_space(&mut pool, 0x10000);
    let second = TaskControlBlock::new(space, 0x10000, 0, 0, &mut kernel, &mut pool, 0, 0, 0);
    assert!(matches!(second, Err(MemError::RegionOverlap)));
    assert_eq!(kernel.area_count(), 1);
}

#[test]
fn new_task_fails_without_frames_for_its_kernel_stack() {
    let mut pool = FrameAllocator::new(50, 54);
    let mut kernel = MemorySet::new_bare(1);
    let space = loaded_space(&mut pool, 0x10000);
    let task = TaskControlBlock::new(space, 0x10000, 0, 1, &mut kernel, &mut pool, 0, 0, 0);
    assert!(matches!(task, Err(MemError::OutOfMemory)));
    assert_eq!(kernel.area_count(), 0);
    assert!(pool.has_free(2));
    assert!(!pool.has_free(3));
}

#[test]
fn sbrk_grows_the_heap_by_a_page() {
    let mut pool = FrameAllocator::new(50, 80);
    let mut kernel = MemorySet::new_bare(1);
    let mut task = new_task(&mut pool, &mut kernel, 0x10000);
    assert!(task.memory_set.translate(0x10).is_none());
    assert_eq!(sys_sbrk(&mut task, &mut pool, 4096), 0x10000);
    assert_eq!(task.program_brk, 0x11000);
    let entry = task.memory_set.translate(0x10).expect("the heap page is present");
    assert!(entry.perm.write);
    assert!(entry.perm.read);
    assert!(entry.perm.user);
    assert_eq!(
        task.memory_set.translated_segments(0x10000, 1),
        Some(vec![Segment { ppn: entry.ppn, offset: 0, len: 1 }])
    );
    assert!(task.memory_set.translate(0x11).is_none());
}

#[test]
fn sbrk_round_trip_restores_break_and_pages() {
    let mut pool = FrameAllocator::new(50, 80);
    let mut kernel = MemorySet::new_bare(1);
    let mut task = new_task(&mut pool, &mut kernel, 0x10000);
    assert_eq!(task.change_program_brk(&mut pool, 100), Some(0x10000));
    let heap_before = task.memory_set.area(1);
    assert_eq!(heap_before, MapArea { start_vpn: 0x10, end_vpn: 0x11, perm: user_rw() });
    assert_eq!(task.change_program_brk(&mut pool, 3 * 4096), Some(0x10064));
    assert_eq!(task.program_brk, 0x13064);
    assert_eq!(task.memory_set.area(1).end_vpn, 0x14);
    assert!(task.memory_set.translate(0x13).is_some());
    assert_eq!(task.change_program_brk(&mut pool, -3 * 4096), Some(0x13064));
    assert_eq!(task.program_brk, 0x10064);
    assert_eq!(task.memory_set.area(1), heap_before);
    assert!(task.memory_set.translate(0x10).is_some());
    assert!(task.memory_set.translate(0x11).is_none());
    assert!(task.memory_set.translate(0x13).is_none());
    assert!(pool.has_free(23));
    assert!(!pool.has_free(24));
}

#[test]
fn sbrk_below_heap_bottom_fails() {
    let mut pool = FrameAllocator::new(50, 80);
    let mut kernel = MemorySet::new_bare(1);
    let mut task = new_task(&mut pool, &mut kernel, 0x10000);
    assert_eq!(sys_sbrk(&mut task, &mut pool, -1), -1);
    assert_eq!(task.program_brk, 0x10000);
    assert_eq!(sys_sbrk(&mut task, &mut pool, 10), 0x10000);
    assert_eq!(task.change_program_brk(&mut pool, -11), None);
    assert_eq!(task.program_brk, 0x1000a);
    assert_eq!(task.change_program_brk(&mut pool, i32::MIN), None);
    assert_eq!(task.change_program_brk(&mut pool, -10), Some(0x1000a));
    assert_eq!(task.program_brk, 0x10000);
    assert!(task.memory_set.translate(0x10).is_none());
}

#[test]
fn sbrk_without_frames_fails_and_keeps_the_break() {
    let mut pool = FrameAllocator::new(50, 57);
    let mut kernel = MemorySet::new_bare(1);
    let mut task = new_task(&mut pool, &mut kernel, 0x10000);
    assert_eq!(sys_sbrk(&mut task, &mut pool, 2 * 4096), -1);
    assert_eq!(task.program_brk, 0x10000);
    assert!(task.memory_set.translate(0x10).is_none());
    assert!(pool.has_free(2));
    assert!(!pool.has_free(3));
    assert_eq!(sys_sbrk(&mut task, &mut pool, 4096), 0x10000);
    assert!(!pool.has_free(1));
}

#[test]
fn sbrk_into_a_mapped_area_fails() {
    let mut pool = FrameAllocator::new(50, 80);
    let mut kernel = MemorySet::new_bare(1);
    let mut task = new_task(&mut pool, &mut kernel, 0x10000);
    assert_eq!(task.program_mmap(&mut pool, 0x11000, 4096, 1), Ok(()));
    assert_eq!(task.change_program_brk(&mut pool, 4096), Some(0x10000));
    assert_eq!(task.change_program_brk(&mut pool, 1), None);
    assert_eq!(task.program_brk, 0x11000);
}

#[test]
fn mmap_rejects_bad_ports_and_empty_ranges() {
    let mut pool = FrameAllocator::new(50, 80);
    let mut kernel = MemorySet::new_bare(1);
    let mut task = new_task(&mut pool, &mut kernel, 0x10000);
    assert_eq!(task.program_mmap(&mut pool, 0x20000, 4096, 0), Err(MemError::InvalidArgument));
    assert_eq!(task.program_mmap(&mut pool, 0x20000, 4096, 8), Err(MemError::InvalidArgument));
    assert_eq!(task.program_mmap(&mut pool, 0x20000, 4096, 0xb), Err(MemError::InvalidArgument));
    assert_eq!(task.program_mmap(&mut pool, 0x20000, 0, 3), Err(MemError::InvalidArgument));
    assert_eq!(
        task.program_mmap(&mut pool, usize::MAX - 10, 4096, 3),
        Err(MemError::InvalidArgument)
    );
    assert_eq!(sys_mmap(&mut task, &mut pool, 0x20000, 4096, 0), -1);
    assert!(task.memory_set.translate(0x20).is_none());
    assert_eq!(task.memory_set.area_count(), 2);
}

#[test]
fn mmap_sets_user_and_the_asked_permissions() {
    let mut pool = FrameAllocator::new(50, 80);
    let mut kernel = MemorySet::new_bare(1);
    let mut task = new_task(&mut pool, &mut kernel, 0x10000);
    assert_eq!(sys_mmap(&mut task, &mut pool, 0x20000, 1, 0x5), 0);
    let entry = task.memory_set.translate(0x20).expect("mapped");
    assert_eq!(
        entry.perm,
        MapPermission { read: true, write: false, execute: true, user: true }
    );
    assert!(task.memory_set.translate(0x21).is_none());
}

#[test]
fn mmap_overlap_is_refused() {
    let mut pool = FrameAllocator::new(50, 80);
    let mut kernel = MemorySet::new_bare(1);
    let mut task = new_task(&mut pool, &mut kernel, 0x10000);
    assert_eq!(task.program_mmap(&mut pool, 0x20000, 8192, 0x3), Ok(()));
    assert_eq!(task.program_mmap(&mut pool, 0x21000, 4096, 0x1), Err(MemError::RegionOverlap));
    assert_eq!(sys_mmap(&mut task, &mut pool, 0x21000, 4096, 0x1), -1);
    assert_eq!(task.memory_set.translate(0x21).map(|e| e.perm), Some(user_rw()));
    assert_eq!(task.memory_set.area_count(), 3);
}

#[test]
fn munmap_then_mmap_again_succeeds() {
    let mut pool = FrameAllocator::new(50, 80);
    let mut kernel = MemorySet::new_bare(1);
    let mut task = new_task(&mut pool, &mut kernel, 0x10000);
    assert_eq!(task.program_mmap(&mut pool, 0x20000, 8192, 0x3), Ok(()));
    assert_eq!(task.program_mmap(&mut pool, 0x21000, 4096, 0x1), Err(MemError::RegionOverlap));
    assert_eq!(task.program_mummap(&mut pool, 0x20000, 8192), Ok(()));
    assert!(task.memory_set.translate(0x20).is_none());
    assert!(task.memory_set.translate(0x21).is_none());
    assert_eq!(task.program_mmap(&mut pool, 0x20000, 4096, 0x1), Ok(()));
    assert!(task.memory_set.translate(0x20).is_some());
    assert!(task.memory_set.translate(0x21).is_none());
}

#[test]
fn munmap_refusals() {
    let mut pool = FrameAllocator::new(50, 80);
    let mut kernel = MemorySet::new_bare(1);
    let mut task = new_task(&mut pool, &mut kernel, 0x10000);
    assert_eq!(sys_mmap(&mut task, &mut pool, 0x20000, 8192, 0x3), 0);
    assert_eq!(task.program_mummap(&mut pool, 0x20000, 0), Err(MemError::InvalidArgument));
    assert_eq!(task.program_mummap(&mut pool, usize::MAX, 2), Err(MemError::InvalidArgument));
    assert_eq!(task.program_mummap(&mut pool, 0x20000, 4096), Err(MemError::NotMapped));
    assert_eq!(task.program_mummap(&mut pool, 0x30000, 4096), Err(MemError::NotMapped));
    assert_eq!(sys_munmap(&mut task, &mut pool, 0x21000, 4096), -1);
    assert!(task.memory_set.translate(0x20).is_some());
    assert!(task.memory_set.translate(0x21).is_some());
    assert_eq!(sys_munmap(&mut task, &mut pool, 0x20000, 8192), 0);
    assert_eq!(sys_munmap(&mut task, &mut pool, 0x20000, 8192), -1);
}

#[test]
fn munmap_of_the_whole_pool_frees_it_for_reuse() {
    let mut pool = FrameAllocator::new(50, 59);
    let mut kernel = MemorySet::new_bare(1);
    let mut task = new_task(&mut pool, &mut kernel, 0x10000);
    assert_eq!(task.program_mmap(&mut pool, 0x20000, 3 * 4096, 0x3), Ok(()));
    assert!(!pool.has_free(1));
    assert_eq!(task.program_mmap(&mut pool, 0x30000, 4096, 0x3), Err(MemError::OutOfMemory));
    assert_eq!(task.program_mummap(&mut pool, 0x20000, 3 * 4096), Ok(()));
    assert_eq!(task.program_mmap(&mut pool, 0x30000, 3 * 4096, 0x3), Ok(()));
}

#[test]
fn syscall_count_counts_one_call() {
    let mut pool = FrameAllocator::new(50, 80);
    let mut kernel = MemorySet::new_bare(1);
    let mut task = new_task(&mut pool, &mut kernel, 0x10000);
    task.syscall_count(64);
    task.syscall_count(64);
    task.syscall_count(MAX_SYSCALL_NUM - 1);
    assert_eq!(task.syscall_times[64], 2);
    assert_eq!(task.syscall_times[MAX_SYSCALL_NUM - 1], 1);
    assert_eq!(task.syscall_times.iter().map(|&n| n as usize).sum::<usize>(), 3);
}

#[test]
fn yield_and_exit_follow_the_life_of_a_task() {
    let mut pool = FrameAllocator::new(50, 80);
    let mut kernel = MemorySet::new_bare(1);
    let mut task = new_task(&mut pool, &mut kernel, 0x10000);
    assert_eq!(sys_yield(&mut task), 0);
    assert_eq!(task.task_status, TaskStatus::Ready);
    sys_exit(&mut task, 0);
    assert_eq!(task.task_status, TaskStatus::Ready);
    task.task_status = TaskStatus::Running;
    assert_eq!(sys_yield(&mut task), 0);
    assert_eq!(task.task_status, TaskStatus::Ready);
    task.task_status = TaskStatus::Running;
    sys_exit(&mut task, 3);
    assert_eq!(task.task_status, TaskStatus::Exited);
    assert_eq!(sys_yield(&mut task), 0);
    assert_eq!(task.task_status, TaskStatus::Exited);
}

#[test]
fn get_time_splits_microseconds_and_finds_the_buffer() {
    let mut pool = FrameAllocator::new(50, 80);
    let mut kernel = MemorySet::new_bare(1);
    let mut task = new_task(&mut pool, &mut kernel, 0x10000);
    assert_eq!(sys_sbrk(&mut task, &mut pool, 2 * 4096), 0x10000);
    let first = task.memory_set.translate(0x10).expect("first heap page").ppn;
    let second = task.memory_set.translate(0x11).expect("second heap page").ppn;
    let (status, value, segments) = sys_get_time(&task, 0x10ff8, 0, 3_000_017);
    assert_eq!(status, 0);
    assert_eq!(value, TimeVal { sec: 3, usec: 17 });
    assert_eq!(
        segments,
        vec![
            Segment { ppn: first, offset: 0xff8, len: 8 },
            Segment { ppn: second, offset: 0, len: 8 },
        ]
    );
    assert_eq!(segments.iter().map(|s| s.len).sum::<usize>(), TIME_VAL_SIZE);
    let (status, value, segments) = sys_get_time(&task, 0x11ff8, 0, 999_999);
    assert_eq!(status, -1);
    assert_eq!(value, TimeVal { sec: 0, usec: 999_999 });
    assert!(segments.is_empty());
}

#[test]
fn task_info_reports_status_counts_and_elapsed_time() {
    let mut pool = FrameAllocator::new(50, 80);
    let mut kernel = MemorySet::new_bare(1);
    let mut task = new_task(&mut pool, &mut kernel, 0x10000);
    assert_eq!(sys_sbrk(&mut task, &mut pool, 4096), 0x10000);
    task.task_status = TaskStatus::Running;
    task.syscall_count(169);
    task.syscall_count(410);
    task.syscall_count(410);
    let page = task.memory_set.translate(0x10).expect("heap page").ppn;
    let (status, info, segments) = sys_task_info(&task, 0x10010, 1_500);
    assert_eq!(status, 0);
    assert_eq!(info.status, TaskStatus::Running);
    assert_eq!(info.syscall_times[169], 1);
    assert_eq!(info.syscall_times[410], 2);
    assert_eq!(info.syscall_times[0], 0);
    assert_eq!(info.time, 500);
    assert_eq!(segments, vec![Segment { ppn: page, offset: 0x10, len: TASK_INFO_SIZE }]);
    let (status, _, segments) = sys_task_info(&task, 0x10fff, 1_000);
    assert_eq!(status, -1);
    assert!(segments.is_empty());
}

#[test]
fn two_tasks_on_one_pool_keep_their_frames_apart() {
    let mut pool = FrameAllocator::new(50, 80);
    let mut kernel = MemorySet::new_bare(1);
    let mut first = new_task(&mut pool, &mut kernel, 0x10000);
    let space = loaded_space(&mut pool, 0x10000);
    let mut second =
        match TaskControlBlock::new(space, 0x10000, 0, 1, &mut kernel, &mut pool, 0, 0, 0) {
            Ok(task) => task,
            Err(err) => panic!("task set-up failed: {:?}", err),
        };
    assert_eq!(first.program_mmap(&mut pool, 0x20000, 8192, 3), Ok(()));
    assert_eq!(second.program_mmap(&mut pool, 0x20000, 8192, 3), Ok(()));
    let a = first.memory_set.translate(0x20).expect("mapped").ppn;
    let b = first.memory_set.translate(0x21).expect("mapped").ppn;
    let c = second.memory_set.translate(0x20).expect("mapped").ppn;
    let d = second.memory_set.translate(0x21).expect("mapped").ppn;
    assert!(a != b && a != c && a != d && b != c && b != d && c != d);
    assert_eq!(first.program_mummap(&mut pool, 0x20000, 8192), Ok(()));
    assert_eq!(second.memory_set.translate(0x20).map(|e| e.ppn), Some(c));
    assert_eq!(second.memory_set.translate(0x21).map(|e| e.ppn), Some(d));
    assert_eq!(second.program_mmap(&mut pool, 0x30000, 8192, 1), Ok(()));
    let e = second.memory_set.translate(0x30).expect("mapped").ppn;
    let f = second.memory_set.translate(0x31).expect("mapped").ppn;
    assert!(e != c && e != d && f != c && f != d && e != f);
    assert_eq!(kernel.area_count(), 2);
}

#[test]
fn kernel_stacks_exist_as_far_as_the_address_space_reaches() {
    assert!(has_kernel_stack(0));
    assert!(has_kernel_stack(15));
    assert!(has_kernel_stack(16));
    assert!(has_kernel_stack(100_000));
    let step = KERNEL_STACK_SIZE + PAGE_SIZE;
    let last = (TRAMPOLINE - KERNEL_STACK_SIZE) / step;
    assert!(has_kernel_stack(last));
    assert!(!has_kernel_stack(last + 1));
    assert!(!has_kernel_stack(usize::MAX));
    let (bottom, top) = kernel_stack_position(last);
    assert_eq!(top, TRAMPOLINE - last * step);
    assert_eq!(bottom, top - KERNEL_STACK_SIZE);
    let (bottom, top) = kernel_stack_position(16);
    assert_eq!(top, TRAMPOLINE - 16 * step);
    assert_eq!(bottom, top - KERNEL_STACK_SIZE);
}

#[test]
fn new_task_on_a_high_slot() {
    let mut pool = FrameAllocator::new(50, 80);
    let mut kernel = MemorySet::new_bare(1);
    let space = loaded_space(&mut pool, 0x10000);
    let task = match TaskControlBlock::new(space, 0x10000, 0x1000, 16, &mut kernel, &mut pool, 7, 8, 9)
    {
        Ok(task) => task,
        Err(err) => panic!("task set-up failed: {:?}", err),
    };
    let (bottom, top) = kernel_stack_position(16);
    assert_eq!(task.task_status, TaskStatus::Ready);
    assert_eq!(task.task_cx.sp, top);
    assert_eq!(task.trap_cx.kernel_sp, top);
    assert_eq!(task.time, 9);
    assert!(task.syscall_times.iter().all(|&n| n == 0));
    assert_eq!(kernel.area_count(), 1);
    assert_eq!(kernel.area(0).start_vpn, bottom / PAGE_SIZE);
    assert_eq!(kernel.area(0).end_vpn, top / PAGE_SIZE);
    assert_eq!(kernel.area(0).perm, kernel_rw());
    let space = loaded_space(&mut pool, 0x10000);
    let far = TaskControlBlock::new(space, 0x10000, 0, 5_000, &mut kernel, &mut pool, 0, 0, 0);
    assert!(far.is_ok());
    assert_eq!(kernel.area_count(), 2);
    let (far_bottom, far_top) = kernel_stack_position(5_000);
    assert!(far_top <= bottom);
    assert_eq!(kernel.area(1).start_vpn, far_bottom / PAGE_SIZE);
}

#[test]
fn fresh_frames_of_mmap_and_sbrk_are_listed() {
    let mut pool = FrameAllocator::new(50, 80);
    let mut kernel = MemorySet::new_bare(1);
    let mut task = new_task(&mut pool, &mut kernel, 0x10000);
    assert_eq!(task.mapped_frames(0x20000, 8192), None);
    assert_eq!(task.program_mmap(&mut pool, 0x20010, 8192, 3), Ok(()));
    let a = task.memory_set.translate(0x20).expect("mapped").ppn;
    let b = task.memory_set.translate(0x21).expect("mapped").ppn;
    let c = task.memory_set.translate(0x22).expect("mapped").ppn;
    assert_eq!(task.mapped_frames(0x20010, 8192), Some(vec![a, b, c]));
    assert_eq!(task.mapped_frames(0x21000, 1), Some(vec![b]));
    assert_eq!(task.mapped_frames(0x22000, 4097), None);
    assert_eq!(task.mapped_frames(usize::MAX, 1), None);
    assert_eq!(task.mapped_frames(0x20000, 0), Some(vec![]));
    assert_eq!(task.change_program_brk(&mut pool, 10), Some(0x10000));
    let h0 = task.memory_set.translate(0x10).expect("mapped").ppn;
    assert_eq!(task.heap_frames_since(0x10000), Some(vec![h0]));
    assert_eq!(task.change_program_brk(&mut pool, 8192), Some(0x1000a));
    let h1 = task.memory_set.translate(0x11).expect("mapped").ppn;
    let h2 = task.memory_set.translate(0x12).expect("mapped").ppn;
    assert_eq!(task.heap_frames_since(0x1000a), Some(vec![h1, h2]));
    assert_eq!(task.heap_frames_since(0x10000), Some(vec![h0, h1, h2]));
    assert_eq!(task.heap_frames_since(0x1200a), Some(vec![]));
    assert_eq!(task.heap_frames_since(0x30000), Some(vec![]));
    assert_eq!(task.heap_frames_since(0xf001), Some(vec![h0, h1, h2]));
    assert_eq!(task.heap_frames_since(0xf000), None);
}
