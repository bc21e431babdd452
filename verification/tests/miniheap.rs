use miniheap::align_down;
use miniheap::align_up;
use miniheap::Allocator;
use miniheap::Chunk;
use miniheap::FreeChunkList;
use miniheap::Heap;
use miniheap::OutOfMemory;
use std::mem::align_of;
use std::mem::size_of;

fn new_heap() -> Heap {
    let heap_addr: usize = 0x1000;
    let heap = Heap::new(heap_addr, 1000);
    assert_eq!(heap.base, heap_addr);
    assert_eq!(heap.size, 1000);
    heap
}

#[test]
fn empty() {
    let heap = Heap::empty();
    assert_eq!(heap.base, 0);
    assert_eq!(heap.size, 0);
}

#[test]
fn allocate_double_usize() {
    let mut heap = new_heap();
    let size = size_of::<usize>() * 2;
    let addr = heap.allocate_first_fit(size, align_of::<usize>());
    assert!(addr.is_ok());
}

#[test]
fn allocate_then_oversized_fails() {
    let mut heap = new_heap();
    let first = heap.allocate_first_fit(16, 8);
    assert_eq!(first, Ok(0x1000));
    let second = heap.allocate_first_fit(2000, 8);
    assert_eq!(second, Err(OutOfMemory));
}

#[test]
fn coalesce_two_adjacent_blocks() {
    let mut heap = new_heap();
    let a = heap.allocate_first_fit(32, 8).unwrap();
    let b = heap.allocate_first_fit(32, 8).unwrap();
    assert_eq!(a, 0x1000);
    assert_eq!(b, 0x1000 + 32);
    assert!(heap.try_deallocate(a, 32));
    assert!(heap.try_deallocate(b, 32));
    assert_eq!(heap.free_list.chunks.len(), 1);
    assert_eq!(heap.free_list.chunks[0], Chunk { addr: 0x1000, size: 1000 });
}

#[test]
fn small_request_rounds_up() {
    let mut heap = new_heap();
    assert_eq!(FreeChunkList::min_size(), 16);
    let a = heap.allocate_first_fit(3, 8).unwrap();
    assert_eq!(a, 0x1000);
    // sixteen bytes were carved, not three
    assert_eq!(heap.free_list.chunks.len(), 1);
    assert_eq!(heap.free_list.chunks[0], Chunk { addr: 0x1000 + 16, size: 1000 - 16 });
    // freeing with the normalized size succeeds and restores the region
    assert!(heap.try_deallocate(a, 16));
    assert_eq!(heap.free_list.chunks.len(), 1);
    assert_eq!(heap.free_list.chunks[0], Chunk { addr: 0x1000, size: 1000 });
}

#[test]
fn boundary_small_equals_min() {
    // a request below the minimum behaves exactly as one of the minimum
    let mut h1 = new_heap();
    let mut h2 = new_heap();
    let a1 = h1.allocate_first_fit(1, 8).unwrap();
    let a2 = h2.allocate_first_fit(16, 8).unwrap();
    assert_eq!(a1, a2);
    assert_eq!(h1.free_list.chunks, h2.free_list.chunks);
    assert!(h1.try_deallocate(a1, 1));
    assert!(h2.try_deallocate(a2, 16));
    assert_eq!(h1.free_list.chunks, h2.free_list.chunks);
    assert_eq!(h1.free_list.chunks.len(), 1);
}

#[test]
fn allocate_free_round_trip() {
    let mut heap = new_heap();
    let a = heap.allocate_first_fit(200, 8).unwrap();
    heap.deallocate(a, 200);
    assert_eq!(heap.free_list.chunks.len(), 1);
    assert_eq!(heap.free_list.chunks[0], Chunk { addr: 0x1000, size: 1000 });
}

#[test]
fn double_free_is_fatal_violation() {
    let mut heap = new_heap();
    let a = heap.allocate_first_fit(16, 8).unwrap();
    assert!(heap.try_deallocate(a, 16));
    // the same block again: the engine refuses and touches nothing
    assert!(!heap.try_deallocate(a, 16));
    assert_eq!(heap.free_list.chunks.len(), 1);
    assert_eq!(heap.free_list.chunks[0], Chunk { addr: 0x1000, size: 1000 });
}

#[test]
fn aligned_allocation_with_front_padding() {
    // a heap whose base is not 64-aligned forces front padding
    let mut heap = Heap::new(0x1008, 1000);
    let a = heap.allocate_first_fit(16, 64).unwrap();
    assert_eq!(a % 64, 0);
    assert_eq!(a, 0x1040);
    assert_eq!(heap.free_list.chunks.len(), 2);
    assert_eq!(heap.free_list.chunks[0], Chunk { addr: 0x1008, size: 0x38 });
    assert_eq!(heap.free_list.chunks[1], Chunk { addr: 0x1050, size: 0x1008 + 1000 - 0x1050 });
}

#[test]
fn awkward_remainder_rejected() {
    // carving 992 bytes would leave 8 stray bytes, less than a chunk:
    // the fit is refused rather than the bytes wasted
    let mut heap = new_heap();
    assert_eq!(heap.allocate_first_fit(992, 8), Err(OutOfMemory));
    // carving 984 leaves exactly one minimal chunk and succeeds
    let a = heap.allocate_first_fit(984, 8).unwrap();
    assert_eq!(a, 0x1000);
    assert_eq!(heap.free_list.chunks.len(), 1);
    assert_eq!(heap.free_list.chunks[0], Chunk { addr: 0x1000 + 984, size: 16 });
}

#[test]
fn exact_fit_empties_list() {
    let mut heap = new_heap();
    let a = heap.allocate_first_fit(1000, 8).unwrap();
    assert_eq!(a, 0x1000);
    assert_eq!(heap.free_list.chunks.len(), 0);
    // nothing left: further requests fail
    assert_eq!(heap.allocate_first_fit(16, 8), Err(OutOfMemory));
    assert!(heap.try_deallocate(a, 1000));
    assert_eq!(heap.free_list.chunks.len(), 1);
    assert_eq!(heap.free_list.chunks[0], Chunk { addr: 0x1000, size: 1000 });
}

#[test]
fn uninitialized_heap_rejects_allocation() {
    let mut heap = Heap::empty();
    assert_eq!(heap.allocate_first_fit(16, 8), Err(OutOfMemory));
    assert!(!heap.try_deallocate(0x1000, 16));
}

#[test]
fn heap_init_builds_single_chunk() {
    let mut heap = Heap::empty();
    heap.init(0x2000, 4096);
    assert_eq!(heap.base, 0x2000);
    assert_eq!(heap.size, 4096);
    assert_eq!(heap.free_list.chunks.len(), 1);
    assert_eq!(heap.free_list.chunks[0], Chunk { addr: 0x2000, size: 4096 });
}

#[test]
fn list_operations() {
    let list = FreeChunkList::empty();
    assert_eq!(list.chunks.len(), 0);
    let mut list = FreeChunkList::new(0x4000, 256);
    assert_eq!(list.chunks.len(), 1);
    assert_eq!(list.chunks[0], Chunk { addr: 0x4000, size: 256 });
    // carve the front block, then give it back: one chunk again
    let a = list.allocate_first_fit(64, 8).unwrap();
    assert_eq!(a, 0x4000);
    assert_eq!(list.chunks.len(), 1);
    assert_eq!(list.chunks[0], Chunk { addr: 0x4040, size: 192 });
    list.deallocate(a, 64);
    assert_eq!(list.chunks.len(), 1);
    assert_eq!(list.chunks[0], Chunk { addr: 0x4000, size: 256 });
}

#[test]
fn chunk_info_snapshot() {
    let c = Chunk { addr: 0x1000, size: 64 };
    let info = c.info();
    assert_eq!(info.addr, 0x1000);
    assert_eq!(info.size, 64);
}

#[test]
fn align_helpers() {
    assert_eq!(align_up(0, 8), 0);
    assert_eq!(align_up(1, 8), 8);
    assert_eq!(align_up(8, 8), 8);
    assert_eq!(align_up(4095, 4096), 4096);
    assert_eq!(align_down(0, 8), 0);
    assert_eq!(align_down(7, 8), 0);
    assert_eq!(align_down(9, 8), 8);
    assert_eq!(align_down(7, 0), 7);
}

#[test]
fn adapter_lifecycle() {
    let mut allocator = Allocator::empty();
    assert!(!allocator.is_initialized());
    allocator.init(0x8000, 2048);
    assert!(allocator.is_initialized());
    let a = allocator.allocate(128, 8).unwrap();
    assert_eq!(a, 0x8000);
    assert!(allocator.deallocate(a, 128, 8));
    // the second free of the same block is the fatal precondition path:
    // the adapter reports it and the caller halts
    assert!(!allocator.deallocate(a, 128, 8));
    assert_eq!(allocator.allocate(4096, 8), Err(OutOfMemory));
}
