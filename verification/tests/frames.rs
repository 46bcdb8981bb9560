use os::frame_allocator::FrameAllocator;

#[test]
fn allocate_hands_out_fresh_frames_in_order() {
    let mut a = FrameAllocator::new(10, 13);
    assert_eq!(a.allocate(), Some(10));
    assert_eq!(a.allocate(), Some(11));
    assert_eq!(a.allocate(), Some(12));
    assert_eq!(a.allocate(), None);
}

#[test]
fn deallocated_frame_is_handed_out_next() {
    let mut a = FrameAllocator::new(0, 4);
    let f0 = a.allocate().unwrap();
    let f1 = a.allocate().unwrap();
    a.deallocate(f0);
    assert_eq!(a.allocate(), Some(f0));
    assert_eq!(a.allocate(), Some(2));
    a.deallocate(f1);
    assert_eq!(a.allocate(), Some(f1));
}
