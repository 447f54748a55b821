use kernel::boot_info::MemoryArea;
use kernel::mem::paging::{CoreFrameAlloc, Frame, FrameAlloc};

fn frame(number: u64) -> Frame {
    Frame::containing_address(number * 4096)
}

fn take(allocator: &mut CoreFrameAlloc, count: usize) -> Vec<u64> {
    let mut taken = Vec::new();
    for _ in 0..count {
        match allocator.alloc_frame() {
            Some(frame) => taken.push(frame.number()),
            None => break,
        }
    }
    taken
}

#[test]
fn core_alloc_skips_reserved_frames() {
    let areas = vec![MemoryArea { base_addr: 0, length: 64 * 1024 }];
    let mut allocator = CoreFrameAlloc::new(areas, [(frame(2), frame(3)), (frame(2), frame(3))]);
    assert_eq!(take(&mut allocator, 8), vec![0, 1, 4, 5, 6, 7, 8, 9]);
}

#[test]
fn core_alloc_yields_every_free_frame_once_in_ascending_order() {
    let areas = vec![
        MemoryArea { base_addr: 0x8000, length: 0x4000 },
        MemoryArea { base_addr: 0x1000, length: 0x3000 },
        MemoryArea { base_addr: 0x2000, length: 0x5000 },
    ];
    let mut allocator = CoreFrameAlloc::new(areas, [(frame(2), frame(2)), (frame(9), frame(10))]);
    // Areas hold the frames 1..=6 and 8..=11; reserved are 2, 9 and 10.
    assert_eq!(take(&mut allocator, 100), vec![1, 3, 4, 5, 6, 8, 11]);
}

#[test]
fn core_alloc_stays_exhausted() {
    let areas = vec![MemoryArea { base_addr: 0, length: 0x2000 }];
    let mut allocator = CoreFrameAlloc::new(areas, [(frame(5), frame(6)), (frame(7), frame(7))]);
    assert_eq!(take(&mut allocator, 2), vec![0, 1]);
    for _ in 0..5 {
        assert!(allocator.alloc_frame().is_none());
    }
}

#[test]
fn core_alloc_without_areas_is_empty() {
    let mut allocator = CoreFrameAlloc::new(Vec::new(), [(frame(0), frame(0)), (frame(0), frame(0))]);
    assert!(allocator.alloc_frame().is_none());
}

#[test]
fn core_alloc_counts_frames_that_areas_touch() {
    // Two bytes that straddle a frame boundary touch two frames.
    let areas = vec![MemoryArea { base_addr: 0x1fff, length: 2 }];
    let mut allocator = CoreFrameAlloc::new(areas, [(frame(9), frame(9)), (frame(9), frame(9))]);
    assert_eq!(take(&mut allocator, 10), vec![1, 2]);
}

#[test]
fn core_alloc_reserved_range_over_whole_area() {
    let areas = vec![
        MemoryArea { base_addr: 0, length: 0x3000 },
        MemoryArea { base_addr: 0x10_0000, length: 0x2000 },
    ];
    let mut allocator = CoreFrameAlloc::new(areas, [(frame(0), frame(0x100)), (frame(7), frame(8))]);
    assert_eq!(take(&mut allocator, 10), vec![0x101]);
}

#[test]
fn core_alloc_dealloc_does_not_reuse() {
    let areas = vec![MemoryArea { base_addr: 0, length: 0x2000 }];
    let mut allocator = CoreFrameAlloc::new(areas, [(frame(5), frame(6)), (frame(7), frame(7))]);
    let first = allocator.alloc_frame().unwrap();
    assert_eq!(first.number(), 0);
    allocator.dealloc(first);
    assert_eq!(allocator.alloc_frame().map(|f| f.number()), Some(1));
    assert!(allocator.alloc_frame().is_none());
}
