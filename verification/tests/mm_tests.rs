use lintsomax::mm::{FrameAllocator, FRAME_SIZE, RAM_END};

#[test]
fn init_counts_the_frames_above_the_image() {
    let a = FrameAllocator::init(0x4020_0000);
    assert_eq!(a.stats(), (0, (0x4800_0000 - 0x4020_0000) / 4096));
    assert_eq!(a.next_frame_exec(), 0x4020_0000);
}

#[test]
fn frames_are_consecutive_aligned_and_never_reissued() {
    let mut a = FrameAllocator::init(0x4020_0000);
    let f1 = a.alloc_frame().unwrap();
    let f2 = a.alloc_frame().unwrap();
    let f3 = a.alloc_frame().unwrap();
    assert_eq!(f1, 0x4020_0000);
    assert_eq!(f2, 0x4020_1000);
    assert_eq!(f3, 0x4020_2000);
    for f in [f1, f2, f3] {
        assert_eq!(f % FRAME_SIZE, 0);
        assert!(f + FRAME_SIZE <= RAM_END);
    }
    assert_eq!(a.stats().0, 3);
}

#[test]
fn exhaustion_returns_none_and_stays_exhausted() {
    // Two frames left below the end of RAM.
    let mut a = FrameAllocator::init(RAM_END - 2 * FRAME_SIZE);
    assert_eq!(a.stats(), (0, 2));
    assert_eq!(a.alloc_frame(), Some(RAM_END - 2 * FRAME_SIZE));
    assert_eq!(a.alloc_frame(), Some(RAM_END - FRAME_SIZE));
    assert_eq!(a.alloc_frame(), None);
    assert_eq!(a.alloc_frame(), None);
    assert_eq!(a.stats(), (2, 2));
    assert_eq!(a.next_frame_exec(), RAM_END);
}

#[test]
fn empty_region_has_no_frames() {
    let mut a = FrameAllocator::init(RAM_END);
    assert_eq!(a.stats(), (0, 0));
    assert_eq!(a.alloc_frame(), None);
}
