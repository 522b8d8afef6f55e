use arena_alloc::fixed::FixedAllocator;
use arena_alloc::layout::Layout;

#[test]
fn basic_allocation() {
    let mut allocator = FixedAllocator::new(vec![0u8; 1024]);

    let layout = Layout::from_size_align(8, 8);
    let ptr = allocator.allocate(layout).unwrap();
    assert_eq!(ptr, 0);
    assert_eq!(allocator.used(), 8);
    assert_eq!(allocator.available(), 1024 - 8);

    let layout2 = Layout::from_size_align(4, 4);
    let ptr2 = allocator.allocate(layout2).unwrap();
    assert_eq!(ptr2, 8);
    assert_eq!(allocator.used(), 12);

    allocator.deallocate(ptr2, layout2);
    assert_eq!(allocator.used(), 8);
}

#[test]
fn alignment_test() {
    let mut allocator = FixedAllocator::new(vec![0u8; 1024]);

    let layout1 = Layout::from_size_align(1, 1);
    let _ptr1 = allocator.allocate(layout1).unwrap();
    assert_eq!(allocator.used(), 1);

    let layout2 = Layout::from_size_align(8, 8);
    let _ptr2 = allocator.allocate(layout2).unwrap();

    assert_eq!(allocator.used(), 16);
}

#[test]
fn out_of_memory() {
    let mut allocator = FixedAllocator::new(vec![0u8; 16]);

    let layout = Layout::from_size_align(32, 1);
    let result = allocator.allocate(layout);
    assert!(result.is_err());
}

#[test]
fn reset_functionality() {
    let mut allocator = FixedAllocator::new(vec![0u8; 1024]);

    let layout = Layout::from_size_align(8, 8);
    let _ptr = allocator.allocate(layout).unwrap();
    assert_eq!(allocator.used(), 8);

    allocator.reset();
    assert_eq!(allocator.used(), 0);
    assert_eq!(allocator.available(), 1024);
}

#[test]
fn grow_functionality() {
    let mut allocator = FixedAllocator::new(vec![0u8; 1024]);

    let old_layout = Layout::from_size_align(32, 4);
    let ptr = allocator.allocate(old_layout).unwrap();
    assert_eq!(allocator.used(), 32);

    allocator.write_byte(ptr, 42);

    let new_layout = Layout::from_size_align(64, 4);
    let new_ptr = allocator.grow(ptr, old_layout, new_layout).unwrap();
    assert_eq!(allocator.used(), 64);
    assert_eq!(new_ptr, ptr);

    assert_eq!(allocator.read_byte(new_ptr), 42);

    let huge_layout = Layout::from_size_align(2048, 4);
    let result = allocator.grow(new_ptr, new_layout, huge_layout);
    assert!(result.is_err());
}

#[test]
fn shrink_functionality() {
    let mut allocator = FixedAllocator::new(vec![0u8; 1024]);

    let old_layout = Layout::from_size_align(64, 4);
    let ptr = allocator.allocate(old_layout).unwrap();
    assert_eq!(allocator.used(), 64);

    allocator.write_byte(ptr, 42);

    let new_layout = Layout::from_size_align(32, 4);
    let new_ptr = allocator.shrink(ptr, old_layout, new_layout).unwrap();
    assert_eq!(new_ptr, ptr);
    assert_eq!(allocator.used(), 32);

    assert_eq!(allocator.read_byte(new_ptr), 42);
}

#[test]
fn grow_with_relocation() {
    let mut allocator = FixedAllocator::new(vec![0u8; 1024]);

    let layout1 = Layout::from_size_align(32, 4);
    let ptr1 = allocator.allocate(layout1).unwrap();
    allocator.write_byte(ptr1, 42);

    let layout2 = Layout::from_size_align(32, 4);
    let _ptr2 = allocator.allocate(layout2).unwrap();
    assert_eq!(allocator.used(), 64);

    let new_layout = Layout::from_size_align(64, 4);
    let new_ptr = allocator.grow(ptr1, layout1, new_layout).unwrap();
    assert_ne!(new_ptr, ptr1);

    assert_eq!(allocator.read_byte(new_ptr), 42);
}

#[test]
fn shrink_non_tail_is_noop() {
    let mut allocator = FixedAllocator::new(vec![0u8; 64]);
    let l = Layout::from_size_align(16, 1);
    let a = allocator.allocate(l).unwrap();
    let _b = allocator.allocate(l).unwrap();
    let kept = allocator
        .shrink(a, l, Layout::from_size_align(8, 1))
        .unwrap();
    assert_eq!(kept, a);
    assert_eq!(allocator.used(), 32);
}
