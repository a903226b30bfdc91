use rust_os::allocator::{align_up, heap_page_addresses, DummyAlloc, HEAP_SIZE, HEAP_START,
    PAGE_SIZE};
use rust_os::bump::BumpAllocator;
use rust_os::fixed_size_block::{find_block_index, FixedSizeBlockAllocator};
use rust_os::linked_list::LinkedListAllocator;

/// A little simulated heap: the allocators hand out addresses inside
/// [HEAP_START, HEAP_START + HEAP_SIZE), and the tests store bytes there.
struct SimHeap {
    bytes: Vec<u8>,
}

impl SimHeap {
    fn new() -> SimHeap {
        SimHeap { bytes: vec![0u8; HEAP_SIZE as usize] }
    }

    fn write_u64(&mut self, addr: u64, value: u64) {
        let off = (addr - HEAP_START) as usize;
        self.bytes[off..off + 8].copy_from_slice(&value.to_le_bytes());
    }

    fn read_u64(&self, addr: u64) -> u64 {
        let off = (addr - HEAP_START) as usize;
        let mut b = [0u8; 8];
        b.copy_from_slice(&self.bytes[off..off + 8]);
        u64::from_le_bytes(b)
    }

    fn write_u32(&mut self, addr: u64, value: u32) {
        let off = (addr - HEAP_START) as usize;
        self.bytes[off..off + 4].copy_from_slice(&value.to_le_bytes());
    }

    fn read_u32(&self, addr: u64) -> u32 {
        let off = (addr - HEAP_START) as usize;
        let mut b = [0u8; 4];
        b.copy_from_slice(&self.bytes[off..off + 4]);
        u32::from_le_bytes(b)
    }
}

fn fresh_list_allocator() -> LinkedListAllocator {
    let mut a = LinkedListAllocator::new();
    a.init(HEAP_START, HEAP_SIZE);
    a
}

#[test]
fn align_up_values() {
    assert_eq!(align_up(0, 1), 0);
    assert_eq!(align_up(7, 8), 8);
    assert_eq!(align_up(8, 8), 8);
    assert_eq!(align_up(9, 8), 16);
    assert_eq!(align_up(HEAP_START + 1, 4096), HEAP_START + 4096);
}

#[test]
fn heap_pages_cover_the_range() {
    let pages = heap_page_addresses();
    assert_eq!(pages.len() as u64, HEAP_SIZE / PAGE_SIZE);
    assert_eq!(pages[0], HEAP_START);
    assert_eq!(pages[24], HEAP_START + 24 * PAGE_SIZE);
}

#[test]
fn dummy_refuses_everything() {
    let d = DummyAlloc;
    assert!(d.allocate(1, 1).is_none());
    assert!(d.allocate(64, 64).is_none());
}

#[test]
fn simple_allocation() {
    // Two 4-byte integers holding 1 and 2; both survive and read back.
    let mut alloc = fresh_list_allocator();
    let mut heap = SimHeap::new();
    let a = alloc.allocate(4, 4).expect("first allocation failed");
    let b = alloc.allocate(4, 4).expect("second allocation failed");
    assert_eq!(a % 4, 0);
    assert_eq!(b % 4, 0);
    assert_ne!(a, b);
    heap.write_u32(a, 1);
    heap.write_u32(b, 2);
    assert_eq!(heap.read_u32(a), 1);
    assert_eq!(heap.read_u32(b), 2);
}

#[test]
fn large_vector() {
    // A growable sequence of 1000 integers, doubling its backing block.
    let mut alloc = fresh_list_allocator();
    let mut heap = SimHeap::new();
    let mut cap: u64 = 4;
    let mut len: u64 = 0;
    let mut base = alloc.allocate(cap * 8, 8).expect("initial buffer");
    for i in 0..1000u64 {
        if len == cap {
            let new_cap = cap * 2;
            let new_base = alloc.allocate(new_cap * 8, 8).expect("grow failed");
            for j in 0..len {
                let v = heap.read_u64(base + j * 8);
                heap.write_u64(new_base + j * 8, v);
            }
            alloc.deallocate(base, cap * 8, 8);
            base = new_base;
            cap = new_cap;
        }
        heap.write_u64(base + len * 8, i);
        len += 1;
    }
    assert_eq!(len, 1000);
    for i in 0..1000u64 {
        assert_eq!(heap.read_u64(base + i * 8), i);
    }
}

#[test]
fn many_boxes() {
    // 102400 allocate-write-read-free cycles; none may fail.
    let mut alloc = fresh_list_allocator();
    let mut heap = SimHeap::new();
    for i in 0..102400u64 {
        let a = alloc.allocate(8, 8).expect("allocation failed mid-loop");
        heap.write_u64(a, i);
        assert_eq!(heap.read_u64(a), i);
        alloc.deallocate(a, 8, 8);
    }
}

#[test]
fn many_boxes_long_lived() {
    // A long-lived allocation stays intact across 102400 short cycles.
    let mut alloc = fresh_list_allocator();
    let mut heap = SimHeap::new();
    let long_lived = alloc.allocate(8, 8).expect("long-lived allocation");
    heap.write_u64(long_lived, 1);
    for i in 0..102400u64 {
        let a = alloc.allocate(8, 8).expect("allocation failed mid-loop");
        assert_ne!(a, long_lived);
        heap.write_u64(a, i);
        assert_eq!(heap.read_u64(a), i);
        alloc.deallocate(a, 8, 8);
        assert_eq!(heap.read_u64(long_lived), 1);
    }
    assert_eq!(heap.read_u64(long_lived), 1);
}

#[test]
fn free_list_exhaustion_returns_null() {
    let mut alloc = fresh_list_allocator();
    assert!(alloc.allocate(HEAP_SIZE + 1, 8).is_none());
    // A full-heap allocation still works, and repeats after freeing.
    let whole = alloc.allocate(HEAP_SIZE, 8).expect("whole-heap allocation");
    assert_eq!(whole, HEAP_START);
    assert!(alloc.allocate(1, 1).is_none());
    alloc.deallocate(whole, HEAP_SIZE, 8);
    assert_eq!(alloc.allocate(HEAP_SIZE, 8), Some(HEAP_START));
}

#[test]
fn free_list_alignment() {
    let mut alloc = fresh_list_allocator();
    let a = alloc.allocate(10, 64).expect("aligned allocation");
    assert_eq!(a % 64, 0);
    let b = alloc.allocate(1, 4096).expect("page-aligned allocation");
    assert_eq!(b % 4096, 0);
}

#[test]
fn bump_allocate_and_rewind() {
    let mut bump = BumpAllocator::new();
    bump.init(HEAP_START, HEAP_SIZE);
    let a = bump.allocate(16, 8).expect("first");
    let b = bump.allocate(16, 8).expect("second");
    assert_eq!(a, HEAP_START);
    assert_eq!(b, HEAP_START + 16);
    // Freeing the newest block rewinds the bump pointer: the same request
    // lands on the same address.
    bump.deallocate(b, 16);
    assert_eq!(bump.allocate(16, 8), Some(b));
}

#[test]
fn bump_reclamation() {
    // Allocate-and-immediately-free far beyond the heap size: the LIFO
    // reuse path keeps every allocation succeeding.
    let mut bump = BumpAllocator::new();
    bump.init(HEAP_START, HEAP_SIZE);
    for _ in 0..100000u64 {
        let a = bump.allocate(1024, 8).expect("bump allocation failed");
        bump.deallocate(a, 1024);
    }
}

#[test]
fn bump_resets_when_empty() {
    let mut bump = BumpAllocator::new();
    bump.init(HEAP_START, HEAP_SIZE);
    let a = bump.allocate(16, 8).expect("first");
    let b = bump.allocate(16, 64).expect("second");
    assert_eq!(a, HEAP_START);
    assert_eq!(b, HEAP_START + 64);
    // Freeing `b` rewinds to its start; freeing `a` then finds nothing
    // live, and the pointer resets to the heap start.
    bump.deallocate(b, 16);
    bump.deallocate(a, 16);
    assert_eq!(bump.allocate(16, 8), Some(a));
    // Exhaustion answers with None rather than a fault.
    assert!(bump.allocate(HEAP_SIZE, 8).is_none());
}

#[test]
fn block_index_boundaries() {
    assert_eq!(find_block_index(1, 1), Some(0));
    assert_eq!(find_block_index(8, 8), Some(0));
    assert_eq!(find_block_index(9, 1), Some(1));
    assert_eq!(find_block_index(2048, 1), Some(8));
    assert_eq!(find_block_index(2049, 1), None);
    assert_eq!(find_block_index(1, 4096), None);
}

#[test]
fn fixed_size_reuses_class_blocks() {
    let mut alloc = FixedSizeBlockAllocator::new();
    alloc.init(HEAP_START, HEAP_SIZE);
    let a = alloc.allocate(8, 8).expect("class allocation");
    assert_eq!(a % 8, 0);
    alloc.deallocate(a, 8, 8);
    // The freed block sits on the class stack and is handed out again.
    assert_eq!(alloc.allocate(8, 8), Some(a));
}

#[test]
fn fixed_size_oversized_goes_to_fallback() {
    let mut alloc = FixedSizeBlockAllocator::new();
    alloc.init(HEAP_START, HEAP_SIZE);
    let a = alloc.allocate(4096, 8).expect("oversized allocation");
    assert_eq!(a % 8, 0);
    let b = alloc.allocate(100, 64).expect("class allocation");
    assert_eq!(b % 64, 0);
    assert!(a + 4096 <= b || b + 128 <= a, "allocations overlap");
    alloc.deallocate(a, 4096, 8);
    alloc.deallocate(b, 100, 64);
    assert!(alloc.allocate(HEAP_SIZE * 2, 8).is_none());
}

#[test]
fn fixed_size_distinct_classes_do_not_overlap() {
    let mut alloc = FixedSizeBlockAllocator::new();
    alloc.init(HEAP_START, HEAP_SIZE);
    let mut blocks: Vec<(u64, u64)> = Vec::new();
    for &(size, align) in &[(8u64, 8u64), (16, 16), (100, 8), (500, 256), (2000, 8)] {
        let a = alloc.allocate(size, align).expect("allocation failed");
        assert_eq!(a % align, 0);
        assert!(a >= HEAP_START && a + size <= HEAP_START + HEAP_SIZE);
        for &(b, bsize) in &blocks {
            assert!(a + size <= b || b + bsize <= a, "allocations overlap");
        }
        blocks.push((a, size));
    }
}
