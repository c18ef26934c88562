use fecs::entity_allocator::EntityAllocator;

#[test]
fn entity_allocator_create() {
    let mut allocator = EntityAllocator::new();

    assert_eq!(allocator.create(), Ok(0));
    assert_eq!(allocator.create(), Ok(1));
    assert_eq!(allocator.create(), Ok(2));
}

#[test]
fn entity_allocator_destroy() {
    let mut allocator = EntityAllocator::new();

    assert_eq!(allocator.create(), Ok(0));
    assert_eq!(allocator.create(), Ok(1));
    assert_eq!(allocator.create(), Ok(2));
    assert_eq!(allocator.destroy(2), Ok(()));
    assert_eq!(allocator.create(), Ok(2));
    assert_eq!(allocator.destroy(0), Ok(()));
    assert_eq!(allocator.create(), Ok(0));
}

#[test]
fn ensure_capacity() {
    let allocator = EntityAllocator::with_capacity(123);
    assert_eq!(allocator.capacity(), 123);
}

#[test]
fn reserve() {
    let mut allocator = EntityAllocator::new();
    allocator.reserve(123);
    assert_eq!(allocator.capacity(), 123);
}
