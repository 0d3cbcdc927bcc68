use sillos::kmem::heap::{ListAllocator, HEAP_SIZE, HEAP_START};

// A kernel heap over the usual heap range.
fn heap() -> ListAllocator {
    let mut allocator = ListAllocator::new();
    allocator.init(HEAP_START as usize, HEAP_SIZE as usize);
    allocator
}

#[test]
fn kmem_allocates_small_block() {
    let mut allocator = heap();
    let ptr = allocator.allocate(8, 8);
    assert!(ptr != 0, "small allocation returned null");
    allocator.deallocate(ptr, 8, 8);
}

#[test]
fn kmem_allocates_multiple_blocks() {
    let mut allocator = heap();
    let a = allocator.allocate(64, 8);
    let b = allocator.allocate(64, 8);
    let c = allocator.allocate(64, 8);
    assert!(a != 0 && b != 0 && c != 0, "one or more allocations returned null");
    assert!(a != b && a != c && b != c, "allocator returned duplicate addresses");
    allocator.deallocate(a, 64, 8);
    allocator.deallocate(b, 64, 8);
    allocator.deallocate(c, 64, 8);
}

#[test]
fn kmem_respects_alignment() {
    let mut allocator = heap();
    let layouts = [(1usize, 1usize), (8, 2), (16, 4), (32, 8), (32, 16), (64, 32), (128, 64), (256, 128)];
    for &(size, alignment) in &layouts {
        let ptr = allocator.allocate(size, alignment);
        assert!(ptr != 0, "aligned allocation returned null");
        assert!(ptr % alignment == 0, "allocation does not satisfy requested alignment");
        allocator.deallocate(ptr, size, alignment);
    }
}

#[test]
fn kmem_allocated_memory_is_writable() {
    let mut allocator = heap();
    let ptr = allocator.allocate(4096, 8);
    assert!(ptr != 0, "allocation returned null");
    // The heap's memory, indexed from its start.
    let mut memory = vec![0u8; HEAP_SIZE as usize];
    let offset = ptr - HEAP_START as usize;
    for i in 0..4096 {
        memory[offset + i] = (i & 0xff) as u8;
    }
    for i in 0..4096 {
        assert!(
            memory[offset + i] == (i & 0xff) as u8,
            "memory read-back did not match written data"
        );
    }
    allocator.deallocate(ptr, 4096, 8);
}

#[test]
fn kmem_can_free_memory() {
    let mut allocator = heap();
    let ptr = allocator.allocate(128, 8);
    assert!(ptr != 0, "initial allocation failed");
    allocator.deallocate(ptr, 128, 8);
    let ptr2 = allocator.allocate(128, 8);
    assert!(ptr2 != 0, "allocation after free failed");
    allocator.deallocate(ptr2, 128, 8);
}

#[test]
fn kmem_reuses_freed_memory() {
    let mut allocator = heap();
    let first = allocator.allocate(256, 8);
    assert!(first != 0, "initial allocation failed");
    allocator.deallocate(first, 256, 8);
    let second = allocator.allocate(256, 8);
    assert!(second != 0, "allocation after free failed");
    let reused = first == second;
    allocator.deallocate(second, 256, 8);
    assert!(reused, "allocator did not reuse recently freed memory");
}

#[test]
fn kmem_handles_different_sizes() {
    let mut allocator = heap();
    let sizes = [1usize, 2, 4, 8, 16, 32, 64, 128, 256, 512, 1024];
    let mut allocations = [0usize; 11];
    for i in 0..sizes.len() {
        let allocation = allocator.allocate(sizes[i], 8);
        assert!(allocation != 0, "allocation failed for one of the requested sizes");
        allocations[i] = allocation;
    }
    for i in 0..sizes.len() {
        allocator.deallocate(allocations[i], sizes[i], 8);
    }
}

#[test]
fn kmem_handles_many_allocations() {
    let mut allocator = heap();
    let mut allocations = [0usize; 128];
    for i in 0..allocations.len() {
        let allocation = allocator.allocate(64, 8);
        assert!(allocation != 0, "allocator failed during repeated allocation");
        allocations[i] = allocation;
    }
    for i in 0..allocations.len() {
        for j in (i + 1)..allocations.len() {
            assert!(allocations[i] != allocations[j], "allocator returned duplicate addresses");
        }
    }
    for ptr in allocations {
        allocator.deallocate(ptr, 64, 8);
    }
}

#[test]
fn kmem_handles_fragmentation() {
    let mut allocator = heap();
    let a = allocator.allocate(128, 8);
    let b = allocator.allocate(128, 8);
    let c = allocator.allocate(128, 8);
    assert!(a != 0 && b != 0 && c != 0, "initial allocations failed");
    // Free the middle allocation.
    allocator.deallocate(b, 128, 8);
    let d = allocator.allocate(128, 8);
    assert!(d != 0, "allocator failed after fragmentation");
    allocator.deallocate(a, 128, 8);
    allocator.deallocate(c, 128, 8);
    allocator.deallocate(d, 128, 8);
}

#[test]
fn kmem_allocates_large_block() {
    let mut allocator = heap();
    let ptr = allocator.allocate(16 * 1024, 16);
    assert!(ptr != 0, "large allocation failed");
    assert!(ptr % 16 == 0, "large allocation has invalid alignment");
    allocator.deallocate(ptr, 16 * 1024, 16);
}

#[test]
fn kmem_handles_high_alignment() {
    let mut allocator = heap();
    let ptr = allocator.allocate(128, 256);
    assert!(ptr != 0, "high-alignment allocation failed");
    assert!(ptr % 256 == 0, "allocation is not 256-byte aligned");
    allocator.deallocate(ptr, 128, 256);
}
