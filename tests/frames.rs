use ucore::frame_allocator::{alloc_frame, dealloc_frame, FrameAllocator, MEMORY_OFFSET, PAGE_SIZE};

#[test]
fn four_frames_then_exhausted_then_lowest_reused() {
    let mut fa = FrameAllocator::new(4);
    let ids: Vec<usize> = (0..4).map(|_| fa.allocate().unwrap()).collect();
    assert_eq!(ids, vec![0, 1, 2, 3]);
    assert_eq!(fa.allocate(), None);
    fa.deallocate(ids[0]);
    assert_eq!(fa.allocate(), Some(ids[0]));
}

#[test]
fn alloc_dealloc_restores_free_count() {
    let mut fa = FrameAllocator::new(8);
    fa.allocate().unwrap();
    let before = fa.free_count();
    assert_eq!(before, 7);
    let id = fa.allocate().unwrap();
    assert_eq!(fa.free_count(), 6);
    fa.deallocate(id);
    assert_eq!(fa.free_count(), before);
}

#[test]
fn allocated_frame_not_returned_until_freed() {
    let mut fa = FrameAllocator::new(3);
    let a = fa.allocate().unwrap();
    let b = fa.allocate().unwrap();
    assert_ne!(a, b);
    fa.deallocate(b);
    let c = fa.allocate().unwrap();
    assert_eq!(c, b);
    assert!(fa.is_allocated(a));
    assert_ne!(c, a);
}

#[test]
fn exhaustion_never_reuses() {
    let mut fa = FrameAllocator::new(2);
    assert_eq!(fa.allocate(), Some(0));
    assert_eq!(fa.allocate(), Some(1));
    assert_eq!(fa.free_count(), 0);
    assert_eq!(fa.allocate(), None);
    assert_eq!(fa.allocate(), None);
    assert_eq!(fa.capacity(), 2);
}

#[test]
fn empty_allocator_is_exhausted() {
    let mut fa = FrameAllocator::new(0);
    assert_eq!(fa.allocate(), None);
    assert_eq!(fa.free_count(), 0);
}

#[test]
fn frame_addresses_are_linear() {
    let mut fa = FrameAllocator::new(4);
    assert_eq!(alloc_frame(&mut fa), Some(MEMORY_OFFSET));
    assert_eq!(alloc_frame(&mut fa), Some(MEMORY_OFFSET + PAGE_SIZE));
    assert_eq!(MEMORY_OFFSET + PAGE_SIZE, 0x8000_1000);
    dealloc_frame(&mut fa, MEMORY_OFFSET);
    assert!(!fa.is_allocated(0));
    assert!(fa.is_allocated(1));
    assert_eq!(alloc_frame(&mut fa), Some(MEMORY_OFFSET));
}
