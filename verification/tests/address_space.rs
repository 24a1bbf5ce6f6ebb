use task_core::config::{MemError, PAGE_SIZE};
use task_core::frame::FrameAllocator;
use task_core::memory_set::{page_ceil, page_floor, MapArea, MemorySet, Segment};
use task_core::page_table::{MapPermission, PageTable, TOKEN_MODE};

fn user_rw() -> MapPermission {
    MapPermission { read: true, write: true, execute: false, user: true }
}

fn user_r() -> MapPermission {
    MapPermission { read: true, write: false, execute: false, user: true }
}

#[test]
fn frame_pool_hands_out_fresh_then_recycled() {
    let mut pool = FrameAllocator::new(100, 103);
    assert!(pool.has_free(3));
    assert!(!pool.has_free(4));
    assert_eq!(pool.alloc_frame(), Ok(100));
    assert_eq!(pool.alloc_frame(), Ok(101));
    pool.dealloc_frame(100);
    assert!(pool.has_free(2));
    assert!(!pool.has_free(3));
    assert_eq!(pool.alloc_frame(), Ok(100));
    assert_eq!(pool.alloc_frame(), Ok(102));
    assert_eq!(pool.alloc_frame(), Err(MemError::OutOfMemory));
    assert!(pool.has_free(0));
    assert!(!pool.has_free(1));
}

#[test]
fn empty_frame_pool_is_out_of_memory() {
    let mut pool = FrameAllocator::new(7, 7);
    assert_eq!(pool.alloc_frame(), Err(MemError::OutOfMemory));
}

#[test]
fn page_rounding_floors_start_and_ceils_end() {
    assert_eq!(page_floor(0), 0);
    assert_eq!(page_floor(4095), 0);
    assert_eq!(page_floor(4096), 1);
    assert_eq!(page_ceil(0), 0);
    assert_eq!(page_ceil(1), 1);
    assert_eq!(page_ceil(4096), 1);
    assert_eq!(page_ceil(4097), 2);
    assert_eq!(page_ceil(usize::MAX), usize::MAX / PAGE_SIZE + 1);
}

#[test]
fn page_table_maps_translates_and_unmaps() {
    let mut pool = FrameAllocator::new(20, 22);
    let mut table = PageTable::new(9);
    assert_eq!(table.token(), TOKEN_MODE | 9);
    assert_eq!(table.translate(5), None);
    assert!(!table.has_table(0));
    assert_eq!(table.map(&mut pool, 5, 77, user_rw()), Ok(()));
    let entry = table.translate(5).expect("page 5 is mapped");
    assert_eq!(entry.ppn, 77);
    assert_eq!(entry.perm, user_rw());
    assert_eq!(table.translate(6), None);
    assert!(table.has_table(0));
    assert!(!table.has_table(1));
    table.unmap(5);
    assert_eq!(table.translate(5), None);
    assert!(table.has_table(0));
}

#[test]
fn page_table_takes_a_frame_for_each_new_leaf_table() {
    let mut pool = FrameAllocator::new(20, 22);
    let mut table = PageTable::new(9);
    assert_eq!(table.map(&mut pool, 5, 77, user_rw()), Ok(()));
    assert!(pool.has_free(1));
    assert!(!pool.has_free(2));
    assert_eq!(table.map(&mut pool, 511, 78, user_rw()), Ok(()));
    assert!(pool.has_free(1));
    assert_eq!(table.map(&mut pool, 512, 79, user_rw()), Ok(()));
    assert!(!pool.has_free(1));
    assert_eq!(table.map(&mut pool, 1024, 80, user_rw()), Err(MemError::OutOfMemory));
    assert_eq!(table.translate(1024), None);
    assert!(!table.has_table(2));
    assert_eq!(table.map(&mut pool, 513, 81, user_rw()), Ok(()));
    assert_eq!(table.translate(513).map(|e| e.ppn), Some(81));
}

#[test]
fn insert_needs_a_frame_for_a_new_leaf_table() {
    let mut pool = FrameAllocator::new(10, 13);
    let mut space = MemorySet::new_bare(1);
    assert_eq!(
        space.insert_framed_area(&mut pool, 0x4000, 0x7000, user_rw()),
        Err(MemError::OutOfMemory)
    );
    assert!(pool.has_free(3));
    assert_eq!(space.insert_framed_area(&mut pool, 0x4000, 0x6000, user_rw()), Ok(()));
    assert!(!pool.has_free(1));
    assert_eq!(space.delete_framed_area(&mut pool, 0x4000, 0x6000), Ok(()));
    assert!(pool.has_free(2));
    assert!(!pool.has_free(3));
    assert_eq!(space.insert_framed_area(&mut pool, 0x5000, 0x7000, user_rw()), Ok(()));
}

#[test]
fn insert_across_leaf_tables_takes_a_frame_for_each() {
    let mut pool = FrameAllocator::new(10, 20);
    let mut space = MemorySet::new_bare(1);
    assert_eq!(
        space.insert_framed_area(&mut pool, 511 * PAGE_SIZE, 513 * PAGE_SIZE, user_rw()),
        Ok(())
    );
    assert!(pool.has_free(6));
    assert!(!pool.has_free(7));
    assert_eq!(space.area_frames(0), vec![10, 12]);
}

#[test]
fn port_decoding() {
    assert_eq!(MapPermission::from_port(0), None);
    assert_eq!(MapPermission::from_port(8), None);
    assert_eq!(MapPermission::from_port(9), None);
    assert_eq!(MapPermission::from_port(1), Some(user_r()));
    assert_eq!(MapPermission::from_port(3), Some(user_rw()));
    assert_eq!(
        MapPermission::from_port(4),
        Some(MapPermission { read: false, write: false, execute: true, user: true })
    );
    assert_eq!(
        MapPermission::from_port(7),
        Some(MapPermission { read: true, write: true, execute: true, user: true })
    );
}

#[test]
fn disjoint_inserts_get_distinct_frames() {
    let mut pool = FrameAllocator::new(10, 20);
    let mut space = MemorySet::new_bare(1);
    assert_eq!(space.insert_framed_area(&mut pool, 0x4000, 0x6000, user_rw()), Ok(()));
    assert_eq!(space.insert_framed_area(&mut pool, 0x8000, 0x9000, user_r()), Ok(()));
    assert_eq!(space.area_count(), 2);
    assert_eq!(space.area(0), MapArea { start_vpn: 4, end_vpn: 6, perm: user_rw() });
    assert_eq!(space.area(1), MapArea { start_vpn: 8, end_vpn: 9, perm: user_r() });
    let a = space.translate(4).expect("page 4");
    let b = space.translate(5).expect("page 5");
    let c = space.translate(8).expect("page 8");
    assert_eq!((a.ppn, b.ppn, c.ppn), (10, 12, 13));
    assert_eq!(space.area_frames(0), vec![10, 12]);
    assert_eq!(space.area_frames(1), vec![13]);
    assert_eq!(a.perm, user_rw());
    assert_eq!(c.perm, user_r());
    assert_eq!(space.translate(3), None);
    assert_eq!(space.translate(6), None);
    assert_eq!(space.translate(7), None);
    assert_eq!(space.translate(9), None);
    assert!(pool.has_free(6));
    assert!(!pool.has_free(7));
}

#[test]
fn insert_rounds_outwards() {
    let mut pool = FrameAllocator::new(0, 8);
    let mut space = MemorySet::new_bare(100);
    assert_eq!(space.insert_framed_area(&mut pool, 0x1234, 0x3001, user_rw()), Ok(()));
    assert_eq!(space.area(0), MapArea { start_vpn: 1, end_vpn: 4, perm: user_rw() });
    assert!(space.translate(1).is_some());
    assert!(space.translate(3).is_some());
    assert!(space.translate(4).is_none());
}

#[test]
fn overlapping_insert_changes_nothing() {
    let mut pool = FrameAllocator::new(10, 20);
    let mut space = MemorySet::new_bare(1);
    assert_eq!(space.insert_framed_area(&mut pool, 0x4000, 0x6000, user_rw()), Ok(()));
    assert_eq!(
        space.insert_framed_area(&mut pool, 0x5000, 0x8000, user_r()),
        Err(MemError::RegionOverlap)
    );
    assert_eq!(
        space.insert_framed_area(&mut pool, 0x3fff, 0x4001, user_r()),
        Err(MemError::RegionOverlap)
    );
    assert_eq!(space.area_count(), 1);
    assert_eq!(space.translate(6), None);
    assert_eq!(space.translate(7), None);
    assert_eq!(space.translate(3), None);
    assert_eq!(space.translate(5).map(|e| e.perm), Some(user_rw()));
    assert!(pool.has_free(7));
    assert!(!pool.has_free(8));
}

#[test]
fn insert_with_too_few_frames_changes_nothing() {
    let mut pool = FrameAllocator::new(10, 12);
    let mut space = MemorySet::new_bare(1);
    assert_eq!(
        space.insert_framed_area(&mut pool, 0x4000, 0x7000, user_rw()),
        Err(MemError::OutOfMemory)
    );
    assert_eq!(space.area_count(), 0);
    assert_eq!(space.translate(4), None);
    assert!(pool.has_free(2));
}

#[test]
fn insert_with_reversed_range_is_invalid() {
    let mut pool = FrameAllocator::new(10, 12);
    let mut space = MemorySet::new_bare(1);
    assert_eq!(
        space.insert_framed_area(&mut pool, 0x7000, 0x4000, user_rw()),
        Err(MemError::InvalidArgument)
    );
}

#[test]
fn delete_needs_an_exact_match() {
    let mut pool = FrameAllocator::new(10, 20);
    let mut space = MemorySet::new_bare(1);
    assert_eq!(space.insert_framed_area(&mut pool, 0x4000, 0x6000, user_rw()), Ok(()));
    assert_eq!(space.delete_framed_area(&mut pool, 0x4000, 0x5000), Err(MemError::NotMapped));
    assert_eq!(space.delete_framed_area(&mut pool, 0x5000, 0x6000), Err(MemError::NotMapped));
    assert_eq!(space.delete_framed_area(&mut pool, 0x3000, 0x6000), Err(MemError::NotMapped));
    assert!(space.translate(4).is_some());
    assert!(space.translate(5).is_some());
    assert!(pool.has_free(7));
    assert!(!pool.has_free(8));
    assert_eq!(space.delete_framed_area(&mut pool, 0x4000, 0x6000), Ok(()));
    assert_eq!(space.area_count(), 0);
    assert_eq!(space.translate(4), None);
    assert_eq!(space.translate(5), None);
    assert!(pool.has_free(9));
    assert!(!pool.has_free(10));
    assert_eq!(space.insert_framed_area(&mut pool, 0x4000, 0x6000, user_r()), Ok(()));
    assert_eq!(space.translate(4).map(|e| e.perm), Some(user_r()));
}

#[test]
fn delete_keeps_the_other_areas() {
    let mut pool = FrameAllocator::new(10, 20);
    let mut space = MemorySet::new_bare(1);
    assert_eq!(space.insert_framed_area(&mut pool, 0x1000, 0x2000, user_r()), Ok(()));
    assert_eq!(space.insert_framed_area(&mut pool, 0x4000, 0x6000, user_rw()), Ok(()));
    assert_eq!(space.insert_framed_area(&mut pool, 0x8000, 0x9000, user_r()), Ok(()));
    let kept = space.translate(8);
    assert_eq!(space.delete_framed_area(&mut pool, 0x4000, 0x6000), Ok(()));
    assert_eq!(space.area_count(), 2);
    assert_eq!(space.area(0), MapArea { start_vpn: 1, end_vpn: 2, perm: user_r() });
    assert_eq!(space.area(1), MapArea { start_vpn: 8, end_vpn: 9, perm: user_r() });
    assert_eq!(space.translate(8), kept);
    assert!(space.translate(1).is_some());
}

#[test]
fn append_and_shrink_move_the_end_of_an_area() {
    let mut pool = FrameAllocator::new(10, 20);
    let mut space = MemorySet::new_bare(1);
    assert_eq!(space.insert_framed_area(&mut pool, 0x4000, 0x4000, user_rw()), Ok(()));
    assert_eq!(space.area(0), MapArea { start_vpn: 4, end_vpn: 4, perm: user_rw() });
    assert_eq!(space.append_to(&mut pool, 0x4000, 0x6001), Ok(()));
    assert_eq!(space.area(0), MapArea { start_vpn: 4, end_vpn: 7, perm: user_rw() });
    assert!(space.translate(6).is_some());
    assert!(space.translate(7).is_none());
    assert!(pool.has_free(6));
    assert!(!pool.has_free(7));
    assert_eq!(space.shrink_to(&mut pool, 0x4000, 0x5000), Ok(()));
    assert_eq!(space.area(0), MapArea { start_vpn: 4, end_vpn: 5, perm: user_rw() });
    assert!(space.translate(4).is_some());
    assert!(space.translate(5).is_none());
    assert!(space.translate(6).is_none());
    assert!(pool.has_free(8));
    assert!(!pool.has_free(9));
}

#[test]
fn append_and_shrink_refusals() {
    let mut pool = FrameAllocator::new(10, 14);
    let mut space = MemorySet::new_bare(1);
    assert_eq!(space.insert_framed_area(&mut pool, 0x4000, 0x5000, user_rw()), Ok(()));
    assert_eq!(space.insert_framed_area(&mut pool, 0x6000, 0x7000, user_rw()), Ok(()));
    assert_eq!(space.append_to(&mut pool, 0x3000, 0x5000), Err(MemError::NotMapped));
    assert_eq!(space.shrink_to(&mut pool, 0x3000, 0x3000), Err(MemError::NotMapped));
    assert_eq!(space.append_to(&mut pool, 0x4000, 0x4000), Err(MemError::InvalidArgument));
    assert_eq!(space.append_to(&mut pool, 0x4000, 0x7000), Err(MemError::RegionOverlap));
    assert_eq!(space.append_to(&mut pool, 0x6000, 0x9000), Err(MemError::OutOfMemory));
    assert_eq!(space.shrink_to(&mut pool, 0x4000, 0x6000), Err(MemError::InvalidArgument));
    assert_eq!(space.shrink_to(&mut pool, 0x4000, 0x3000), Err(MemError::InvalidArgument));
    assert_eq!(space.area(0), MapArea { start_vpn: 4, end_vpn: 5, perm: user_rw() });
    assert_eq!(space.area(1), MapArea { start_vpn: 6, end_vpn: 7, perm: user_rw() });
    assert!(pool.has_free(1));
    assert!(!pool.has_free(2));
    assert_eq!(space.append_to(&mut pool, 0x4000, 0x6000), Ok(()));
    assert_eq!(space.area(0), MapArea { start_vpn: 4, end_vpn: 6, perm: user_rw() });
}

#[test]
fn search_finds_the_first_area() {
    let mut pool = FrameAllocator::new(10, 20);
    let mut space = MemorySet::new_bare(1);
    assert_eq!(space.insert_framed_area(&mut pool, 0x4000, 0x4000, user_rw()), Ok(()));
    assert_eq!(space.insert_framed_area(&mut pool, 0x4000, 0x5000, user_rw()), Ok(()));
    assert_eq!(space.find_start(4), Some(0));
    assert_eq!(space.find_start(5), None);
    assert_eq!(space.find_exact(4, 5), Some(1));
    assert_eq!(space.find_exact(4, 6), None);
    assert!(space.overlaps(4, 5));
    assert!(space.overlaps(0, 5));
    assert!(!space.overlaps(5, 9));
    assert!(!space.overlaps(4, 4));
}

#[test]
fn buffer_within_one_page_is_one_segment() {
    let mut pool = FrameAllocator::new(10, 20);
    let mut space = MemorySet::new_bare(1);
    assert_eq!(space.insert_framed_area(&mut pool, 0x4000, 0x6000, user_rw()), Ok(()));
    assert_eq!(
        space.translated_segments(0x4010, 16),
        Some(vec![Segment { ppn: 10, offset: 0x10, len: 16 }])
    );
    assert_eq!(
        space.translated_segments(0x5000, 4096),
        Some(vec![Segment { ppn: 12, offset: 0, len: 4096 }])
    );
    assert_eq!(space.translated_segments(0x4010, 0), Some(vec![]));
}

#[test]
fn buffer_across_pages_is_cut_at_page_ends() {
    let mut pool = FrameAllocator::new(10, 20);
    let mut space = MemorySet::new_bare(1);
    assert_eq!(space.insert_framed_area(&mut pool, 0x4000, 0x7000, user_rw()), Ok(()));
    assert_eq!(
        space.translated_segments(0x4ff8, 16),
        Some(vec![
            Segment { ppn: 10, offset: 0xff8, len: 8 },
            Segment { ppn: 12, offset: 0, len: 8 },
        ])
    );
    assert_eq!(
        space.translated_segments(0x4fff, 4098),
        Some(vec![
            Segment { ppn: 10, offset: 0xfff, len: 1 },
            Segment { ppn: 12, offset: 0, len: 4096 },
            Segment { ppn: 13, offset: 0, len: 1 },
        ])
    );
}

#[test]
fn buffer_on_unmapped_page_has_no_segments() {
    let mut pool = FrameAllocator::new(10, 20);
    let mut space = MemorySet::new_bare(1);
    assert_eq!(space.insert_framed_area(&mut pool, 0x4000, 0x5000, user_rw()), Ok(()));
    assert_eq!(space.translated_segments(0x4ff8, 16), None);
    assert_eq!(space.translated_segments(0x3fff, 2), None);
    assert_eq!(space.translated_segments(usize::MAX, 2), None);
}

#[test]
fn space_token_names_the_root() {
    let space = MemorySet::new_bare(0x81234);
    assert_eq!(space.token(), TOKEN_MODE | 0x81234);
    assert_eq!(TOKEN_MODE, 1usize << (usize::BITS - 1));
}

#[test]
fn frames_of_a_page_range() {
    let mut pool = FrameAllocator::new(10, 20);
    let mut space = MemorySet::new_bare(1);
    assert_eq!(space.insert_framed_area(&mut pool, 0x4000, 0x7000, user_rw()), Ok(()));
    assert_eq!(space.frames_of_pages(4, 7), Some(vec![10, 12, 13]));
    assert_eq!(space.frames_of_pages(5, 6), Some(vec![12]));
    assert_eq!(space.frames_of_pages(5, 5), Some(vec![]));
    assert_eq!(space.frames_of_pages(6, 4), Some(vec![]));
    assert_eq!(space.frames_of_pages(3, 5), None);
    assert_eq!(space.frames_of_pages(6, 8), None);
}
