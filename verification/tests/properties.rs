//! Scenario checks for the allocator's stated properties.

use blink_alloc::{
    drain_step, size_hint_and_one, Blink, BlinkAlloc, BlinkAllocator, DropItem, DropList,
    GlobalBlinkAlloc, Layout, SyncBlinkAlloc,
};

fn ranges_disjoint(ranges: &[(usize, usize)]) {
    for i in 0..ranges.len() {
        for j in 0..ranges.len() {
            if i != j {
                let (a, al) = ranges[i];
                let (b, bl) = ranges[j];
                assert!(a + al <= b || b + bl <= a, "ranges overlap");
            }
        }
    }
}

#[test]
fn alignment_of_returned_addresses() {
    let mut blink = BlinkAlloc::new();
    for shift in 0..8 {
        let align = 1usize << shift;
        let layout = Layout::from_size_align(5, align).unwrap();
        let slot = blink.allocate(&layout).unwrap();
        assert_eq!(slot.addr % align, 0);
    }
}

#[test]
fn allocations_between_resets_disjoint() {
    let mut blink = BlinkAlloc::with_chunk_size(64);
    let mut ranges = Vec::new();
    for i in 0..40 {
        let size = 1 + (i % 7);
        let align = 1usize << (i % 4);
        let layout = Layout::from_size_align(size, align).unwrap();
        let slot = blink.allocate(&layout).unwrap();
        ranges.push((slot.addr, slot.len));
    }
    ranges_disjoint(&ranges);
}

#[test]
fn lifo_reuse_of_most_recent_allocation() {
    let mut blink = BlinkAlloc::new();
    let layout = Layout::from_size_align(4, 4).unwrap();

    let _a = blink.allocate(&layout).unwrap();
    let b = blink.allocate(&layout).unwrap();

    // the most recent allocation is reclaimed and comes back
    blink.deallocate(b.addr, b.len);
    let again = blink.allocate(&layout).unwrap();
    assert_eq!(again.addr, b.addr);
}

#[test]
fn dealloc_of_older_allocation_is_noop() {
    let mut blink = BlinkAlloc::new();
    let layout = Layout::from_size_align(4, 4).unwrap();

    let a = blink.allocate(&layout).unwrap();
    blink.write(a.addr, &vec![9u8, 9, 9, 9]);
    let b = blink.allocate(&layout).unwrap();

    // `a` is not the most recent allocation: nothing is reclaimed
    blink.deallocate(a.addr, a.len);
    let c = blink.allocate(&layout).unwrap();
    assert_ne!(c.addr, a.addr);
    assert_ne!(c.addr, b.addr);
    for i in 0..4 {
        assert_eq!(blink.read(a.addr + i), 9);
    }
}

#[test]
fn resize_preserves_content_in_place() {
    let mut blink = BlinkAlloc::new();
    let small = Layout::from_size_align(4, 4).unwrap();
    let large = Layout::from_size_align(12, 4).unwrap();

    let a = blink.allocate(&small).unwrap();
    blink.write(a.addr, &vec![10u8, 20, 30, 40]);

    // most recent allocation: grows in place
    let b = blink.resize(a.addr, &small, &large, false).unwrap();
    assert_eq!(b.addr, a.addr);
    for i in 0..4 {
        assert_eq!(blink.read(b.addr + i), ((i + 1) * 10) as u8);
    }
}

#[test]
fn resize_preserves_content_via_copy() {
    let mut blink = BlinkAlloc::new();
    let small = Layout::from_size_align(4, 4).unwrap();
    let large = Layout::from_size_align(12, 4).unwrap();

    let a = blink.allocate(&small).unwrap();
    blink.write(a.addr, &vec![10u8, 20, 30, 40]);
    // a second allocation, so `a` is no longer the most recent one
    let _b = blink.allocate(&small).unwrap();

    let c = blink.resize(a.addr, &small, &large, false).unwrap();
    assert_ne!(c.addr, a.addr);
    for i in 0..4 {
        assert_eq!(blink.read(c.addr + i), ((i + 1) * 10) as u8);
    }
}

#[test]
fn resize_zeroed_clears_grown_bytes() {
    let mut blink = BlinkAlloc::new();
    let small = Layout::from_size_align(4, 4).unwrap();
    let large = Layout::from_size_align(10, 4).unwrap();

    let a = blink.allocate(&small).unwrap();
    blink.write(a.addr, &vec![1u8, 2, 3, 4]);
    let b = blink.resize(a.addr, &small, &large, true).unwrap();
    for i in 0..4 {
        assert_eq!(blink.read(b.addr + i), (i + 1) as u8);
    }
    for i in 4..10 {
        assert_eq!(blink.read(b.addr + i), 0);
    }
}

#[test]
fn reset_keeps_last_chunk_warm() {
    let mut blink = BlinkAlloc::new();
    let layout = Layout::from_size_align(64, 8).unwrap();

    blink.allocate(&layout).unwrap();
    let calls_after_first = blink.allocator.call_count();
    assert_eq!(calls_after_first, 1);

    blink.reset();

    // the kept chunk serves the next cycle without a new backing call
    for _ in 0..3 {
        blink.allocate(&layout).unwrap();
    }
    assert_eq!(blink.allocator.call_count(), calls_after_first);
}

#[test]
fn full_reset_releases_every_chunk() {
    let mut blink = BlinkAlloc::with_chunk_size(64);
    let layout = Layout::from_size_align(128, 8).unwrap();
    for _ in 0..5 {
        blink.allocate(&layout).unwrap();
    }
    assert!(blink.allocator.outstanding_regions() > 0);

    blink.reset_all();
    assert_eq!(blink.allocator.outstanding_regions(), 0);
}

#[test]
fn drop_list_finalizes_in_reverse_order() {
    let mut list = DropList::new();
    let a = DropItem::init_value(100);
    let b = DropItem::init_value(200);
    let c = DropItem::init_value(300);
    list.add(a);
    list.add(b);
    list.add(c);

    let order = list.reset();
    assert_eq!(order.len(), 3);
    assert_eq!(order[0], c);
    assert_eq!(order[1], b);
    assert_eq!(order[2], a);

    // a second reset on the emptied list is a no-op
    let empty = list.reset();
    assert_eq!(empty.len(), 0);
}

#[test]
fn blink_put_registers_in_order() {
    let mut blink = Blink::new();
    let a = blink.put(vec![1u8], 1).unwrap();
    let b = blink.put(vec![2u8, 3], 1).unwrap();
    let c = blink.put(vec![4u8], 1).unwrap();

    assert_eq!(blink.read_value(a, 1), vec![1u8]);
    assert_eq!(blink.read_value(b, 2), vec![2u8, 3]);

    let order = blink.reset();
    assert_eq!(order.len(), 3);
    assert_eq!(order[0].handle, c);
    assert_eq!(order[1].handle, b);
    assert_eq!(order[2].handle, a);
}

#[test]
fn test_emplace_no_drop() {
    let mut blink = Blink::new();

    // a value whose finalizer must never run
    let hello = vec![b'H', b'e', b'l', b'l', b'o'];
    let foo = blink.emplace_no_drop().try_value(&mut blink, hello, 1).unwrap();
    assert_eq!(blink.read_value(foo, 5), vec![b'H', b'e', b'l', b'l', b'o']);

    let world = blink.put(vec![b'W', b'o', b'r', b'l', b'd'], 1).unwrap();

    let order = blink.reset();
    // only the registered value is finalized; had the unregistered one been
    // finalized too, its destructor would have panicked with "Dropped"
    assert_eq!(order.len(), 1, "Dropped");
    assert_eq!(order[0].handle, world);
}

#[test]
fn emplace_no_drop_skips_registration() {
    let mut blink = Blink::new();
    let emplacer = blink.emplace_no_drop();
    let addr = emplacer.try_value(&mut blink, vec![7u8, 8], 1).unwrap();
    assert_eq!(blink.read_value(addr, 2), vec![7u8, 8]);

    let order = blink.reset();
    assert_eq!(order.len(), 0);
}

#[test]
fn shared_allocations_disjoint_and_counted() {
    // stand-in for the concurrent scenario: several logical workers
    // allocating in turn from one shared allocator
    let workers = 4;
    let per_worker = 25;
    let mut shared = SyncBlinkAlloc::new();
    let mut ranges = Vec::new();
    for round in 0..per_worker {
        for worker in 0..workers {
            let size = 1 + ((round + worker) % 5);
            let layout = Layout::from_size_align(size, 4).unwrap();
            let slot = shared.allocate(&layout).unwrap();
            ranges.push((slot.addr, slot.len));
        }
    }
    assert_eq!(ranges.len(), workers * per_worker);
    ranges_disjoint(&ranges);
}

#[test]
fn sync_resize_shrinks_in_place() {
    let mut shared = SyncBlinkAlloc::new();
    let layout8 = Layout::from_size_align(8, 8).unwrap();
    let layout4 = Layout::from_size_align(4, 4).unwrap();

    let a = shared.allocate(&layout8).unwrap();
    shared.write(a.addr, &vec![1u8, 2, 3, 4, 5, 6, 7, 8]);

    // with no proxies outstanding, a shrink keeps the address
    let b = shared.resize(a.addr, &layout8, &layout4, false).unwrap();
    assert_eq!(b.addr, a.addr);
    assert_eq!(b.len, 4);
    for i in 0..4 {
        assert_eq!(shared.read(b.addr + i), (i + 1) as u8);
    }
}

#[test]
fn local_proxy_draws_from_shared() {
    let mut shared = SyncBlinkAlloc::new();
    let layout = Layout::from_size_align(16, 8).unwrap();
    let direct = shared.allocate(&layout).unwrap();

    let mut local = shared.local();
    let a = local.allocate(&mut shared, &layout).unwrap();
    let b = local.allocate(&mut shared, &layout).unwrap();

    ranges_disjoint(&[(direct.addr, direct.len), (a.addr, a.len), (b.addr, b.len)]);

    local.reset(&mut shared);
    shared.reset();
}

#[test]
fn empty_arena_three_allocations_one_chunk() {
    let mut blink = BlinkAlloc::new();
    let layout = Layout::from_size_align(4, 4).unwrap();

    let p1 = blink.allocate(&layout).unwrap();
    let p2 = blink.allocate(&layout).unwrap();
    let p3 = blink.allocate(&layout).unwrap();

    // exactly one backing-allocator chunk request, sized for all three
    assert_eq!(blink.allocator.call_count(), 1);

    assert_ne!(p1.addr, p2.addr);
    assert_ne!(p2.addr, p3.addr);
    assert_ne!(p1.addr, p3.addr);
    assert_eq!(p1.addr % 4, 0);
    assert_eq!(p2.addr % 4, 0);
    assert_eq!(p3.addr % 4, 0);

    // the third block ends at the running cursor: reclaiming it and
    // allocating again hands the same address back
    blink.deallocate(p3.addr, p3.len);
    let again = blink.allocate(&layout).unwrap();
    assert_eq!(again.addr, p3.addr);
}

#[test]
fn global_adapter_mode_switch() {
    let mut adapter = GlobalBlinkAlloc::new();
    let layout = Layout::from_size_align(8, 8).unwrap();

    // direct mode: requests fall through to the backing allocator
    let direct = adapter.allocate(&layout).unwrap();
    assert_eq!(direct.addr % 8, 0);

    adapter.blink_mode();
    let blinked = adapter.allocate(&layout).unwrap();
    assert_eq!(blinked.addr % 8, 0);
    adapter.reset();
}

#[test]
fn send_blink_resets_on_construction() {
    let mut blink = Blink::new();
    blink.put(vec![1u8, 2, 3], 1).unwrap();
    let sent = blink_alloc::SendBlink::new(blink);
    let mut back = sent.into_inner();
    let order = back.reset();
    assert_eq!(order.len(), 0);
}

#[test]
fn copy_slice_roundtrip() {
    let mut blink = Blink::new();
    let bytes = vec![5u8, 6, 7, 8, 9];
    let addr = blink.try_copy_slice(&bytes).unwrap();
    assert_eq!(blink.read_value(addr, 5), bytes);
    // copies carry no finalizer record
    let order = blink.reset();
    assert_eq!(order.len(), 0);
}

#[test]
fn test_iter_drain() {
    // counting 0..5: the reported lower bound is drained in one step
    assert_eq!(drain_step(0, 5), (5, 5));
    // counting 0..usize::MAX: a single bulk step reaches the saturation cap
    assert_eq!(drain_step(0, usize::MAX), (usize::MAX, usize::MAX));
    // an endless repeat reports usize::MAX as its lower bound and saturates
    // the same way, even part-way through the count
    assert_eq!(drain_step(1, usize::MAX), (usize::MAX - 1, usize::MAX));
}

#[test]
fn size_hint_and_one_values() {
    assert_eq!(size_hint_and_one(0, Some(10), 8), Some(17));
    assert_eq!(size_hint_and_one(12, Some(10), 8), Some(21));
    assert_eq!(size_hint_and_one(3, None, 8), Some(17));
    assert_eq!(size_hint_and_one(usize::MAX, None, 1), None);
}
