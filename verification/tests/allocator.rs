//! Behaviour of the single-owner blink allocator.

use blink_alloc::{
    align_down, align_ptr_offset, align_up, is_aligned_to, AllocError, BackingAllocator,
    BlinkAlloc, BlinkAllocator, Global, Layout,
};

#[test]
fn test_local_alloc() {
    let mut blink = BlinkAlloc::new();

    let layout = Layout::from_size_align(8, 8).unwrap();
    let slot = blink.allocate(&layout).unwrap();

    // store the value 42 in the allocated block
    blink.write(slot.addr, &vec![42u8, 0, 0, 0, 0, 0, 0, 0]);
    assert_eq!(blink.read(slot.addr), 42);

    blink.reset();
}

struct ControlledGlobal {
    inner: Global,
    enabled: bool,
    last: bool,
}

impl BackingAllocator for ControlledGlobal {
    // specification-only trait items; never called at run time
    fn allocated(&self) -> vstd::map::Map<usize, usize> {
        panic!("specification-only trait item")
    }

    fn wf(&self) -> bool {
        panic!("specification-only trait item")
    }

    fn allocate_region(&mut self, size: usize, align: usize) -> Result<usize, AllocError> {
        if !self.enabled {
            return Err(AllocError);
        }
        if self.last {
            self.enabled = false;
        }
        self.inner.allocate_region(size, align)
    }

    fn deallocate_region(&mut self, base: usize, size: usize) {
        self.inner.deallocate_region(base, size)
    }
}

#[test]
fn test_reuse() {
    let allocator = ControlledGlobal { inner: Global::new(), enabled: true, last: false };

    let mut alloc = BlinkAlloc::with_chunk_size_in(0, allocator);

    let layout = Layout::from_size_align(4, 4).unwrap();
    for _ in 0..123 {
        alloc.allocate(&layout).unwrap();
    }
    alloc.reset();

    alloc.allocator.last = false;

    for _ in 0..123 {
        alloc.allocate(&layout).unwrap();
    }
}

#[test]
fn zeroed_blocks_read_zero() {
    let mut blink = BlinkAlloc::new();
    let layout = Layout::from_size_align(4, 4).unwrap();

    // leave stale bytes behind, reclaim them, then ask for zeroed memory
    let a = blink.allocate(&layout).unwrap();
    blink.write(a.addr, &vec![0xAAu8, 0xBB, 0xCC, 0xDD]);
    blink.deallocate(a.addr, 4);

    let b = blink.allocate_zeroed(&layout).unwrap();
    assert_eq!(b.addr, a.addr);
    for i in 0..4 {
        assert_eq!(blink.read(b.addr + i), 0);
    }
}

#[test]
fn allocation_error_on_overflow() {
    // a chunk size hint at the address-space limit makes the growth
    // arithmetic overflow before any chunk is requested
    let mut blink = BlinkAlloc::with_chunk_size(usize::MAX);
    let layout = Layout::from_size_align(4, 4).unwrap();
    assert_eq!(blink.allocate(&layout), Err(AllocError));

    // a refused backing allocator surfaces as the same error
    let disabled = ControlledGlobal { inner: Global::new(), enabled: false, last: false };
    let mut blink = BlinkAlloc::new_in(disabled);
    assert_eq!(blink.allocate(&layout), Err(AllocError));
}

#[test]
fn layout_rejects_bad_alignment() {
    assert!(Layout::from_size_align(8, 0).is_none());
    assert!(Layout::from_size_align(8, 3).is_none());
    assert!(Layout::from_size_align(8, 6).is_none());
    assert!(Layout::from_size_align(usize::MAX, 2).is_none());
    assert!(Layout::from_size_align(16, 16).is_some());
}

#[test]
fn align_helpers_exact() {
    assert_eq!(align_down(13, 4), 12);
    assert_eq!(align_down(16, 4), 16);
    assert_eq!(align_up(13, 4), Some(16));
    assert_eq!(align_up(16, 4), Some(16));
    assert_eq!(align_up(usize::MAX, 2), None);
    assert!(is_aligned_to(24, 8));
    assert!(!is_aligned_to(20, 8));
    assert_eq!(align_ptr_offset(13, 8), 16);
    assert_eq!(align_ptr_offset(usize::MAX, 2), usize::MAX);
}

#[test]
fn resize_shrinks_in_place() {
    let mut blink = BlinkAlloc::new();
    let layout8 = Layout::from_size_align(8, 8).unwrap();
    let layout4 = Layout::from_size_align(4, 4).unwrap();

    let a = blink.allocate(&layout8).unwrap();
    blink.write(a.addr, &vec![1u8, 2, 3, 4, 5, 6, 7, 8]);

    let b = blink.resize(a.addr, &layout8, &layout4, false).unwrap();
    assert_eq!(b.addr, a.addr);
    assert_eq!(b.len, 4);
    for i in 0..4 {
        assert_eq!(blink.read(b.addr + i), (i + 1) as u8);
    }
}
