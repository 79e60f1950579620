use kernel_core::{
    init_heap, BootInfoFrameAllocator, Heap, MapToError, Mapper, MemoryRegion, PhysicalFrame,
    VirtualPage, FLAG_PRESENT, FLAG_WRITABLE, HEAP_PAGES, HEAP_SIZE, HEAP_START, PAGE_SIZE,
};

fn region(start: u64, end: u64, usable: bool) -> MemoryRegion {
    MemoryRegion { start, end, usable }
}

#[test]
fn two_regions_yield_frames_in_order_then_deplete() {
    let map = vec![
        region(0x1000, 0x3000, true),
        region(0x3000, 0x8000, false),
        region(0x8000, 0xa000, true),
    ];
    let mut frames = BootInfoFrameAllocator::init(map);
    let got: Vec<u64> = (0..4).map(|_| frames.allocate_frame().unwrap().start).collect();
    assert_eq!(got, vec![0x1000, 0x2000, 0x8000, 0x9000]);
    assert_eq!(frames.allocate_frame(), None);
}

#[test]
fn depletion_is_permanent() {
    let mut frames = BootInfoFrameAllocator::init(vec![region(0x10000, 0x11000, true)]);
    assert_eq!(frames.allocate_frame(), Some(PhysicalFrame { start: 0x10000 }));
    for _ in 0..5 {
        assert_eq!(frames.allocate_frame(), None);
    }
}

#[test]
fn no_frame_is_returned_twice() {
    let map = vec![
        region(0x0, 0x5000, true),
        region(0x5000, 0x6000, false),
        region(0x6000, 0x9000, true),
        region(0x20000, 0x22000, true),
    ];
    let mut frames = BootInfoFrameAllocator::init(map);
    let mut seen = Vec::new();
    while let Some(f) = frames.allocate_frame() {
        assert_eq!(f.start % PAGE_SIZE, 0);
        assert!(!seen.contains(&f.start));
        seen.push(f.start);
    }
    assert_eq!(seen.len(), 10);
}

#[test]
fn empty_memory_map_has_no_frames() {
    let mut frames = BootInfoFrameAllocator::init(vec![]);
    assert_eq!(frames.allocate_frame(), None);
}

#[test]
fn map_then_translate() {
    let mut frames = BootInfoFrameAllocator::init(vec![region(0x100000, 0x110000, true)]);
    let mut mapper = Mapper::new();
    let page = VirtualPage { start: 0xb8000 };
    assert_eq!(mapper.translate(page), None);
    let frame = PhysicalFrame { start: 0x5000 };
    assert_eq!(mapper.map_to(page, frame, FLAG_PRESENT | FLAG_WRITABLE, &mut frames), Ok(()));
    assert_eq!(mapper.translate(page), Some(frame));
    assert!(mapper.is_frame_used(frame));
    // three tables were created, from the first three frames
    assert_eq!(frames.allocate_frame(), Some(PhysicalFrame { start: 0x103000 }));
}

#[test]
fn mapping_a_mapped_page_is_refused() {
    let mut frames = BootInfoFrameAllocator::init(vec![region(0x100000, 0x110000, true)]);
    let mut mapper = Mapper::new();
    let page = VirtualPage { start: 0x4000 };
    let first = PhysicalFrame { start: 0x1000 };
    assert_eq!(mapper.map_to(page, first, FLAG_PRESENT, &mut frames), Ok(()));
    let second = PhysicalFrame { start: 0x2000 };
    assert_eq!(
        mapper.map_to(page, second, FLAG_PRESENT, &mut frames),
        Err(MapToError::PageAlreadyMapped)
    );
    assert_eq!(mapper.translate(page), Some(first));
}

#[test]
fn one_frame_never_backs_two_pages() {
    let mut frames = BootInfoFrameAllocator::init(vec![region(0x100000, 0x110000, true)]);
    let mut mapper = Mapper::new();
    let frame = PhysicalFrame { start: 0x1000 };
    let a = VirtualPage { start: 0x4000 };
    let b = VirtualPage { start: 0x5000 };
    assert_eq!(mapper.map_to(a, frame, FLAG_PRESENT, &mut frames), Ok(()));
    assert_eq!(
        mapper.map_to(b, frame, FLAG_PRESENT, &mut frames),
        Err(MapToError::PageAlreadyMapped)
    );
    assert_eq!(mapper.translate(b), None);
}

#[test]
fn mapping_without_frames_for_tables_fails() {
    let mut frames = BootInfoFrameAllocator::init(vec![region(0x100000, 0x102000, true)]);
    let mut mapper = Mapper::new();
    let page = VirtualPage { start: 0x4000 };
    assert_eq!(
        mapper.map_to(page, PhysicalFrame { start: 0x1000 }, FLAG_PRESENT, &mut frames),
        Err(MapToError::FrameAllocationFailed)
    );
    assert_eq!(mapper.translate(page), None);
    assert_eq!(frames.allocate_frame(), None);
}

#[test]
fn heap_init_maps_every_heap_page() {
    let mut frames = BootInfoFrameAllocator::init(vec![region(0x100000, 0x200000, true)]);
    let mut mapper = Mapper::new();
    let heap = init_heap(&mut mapper, &mut frames).unwrap();
    for k in 0..HEAP_PAGES {
        let page = VirtualPage { start: HEAP_START + k * PAGE_SIZE };
        assert!(mapper.translate(page).is_some());
    }
    let mut heap = heap;
    assert_eq!(heap.allocate(HEAP_SIZE, 8), Some(HEAP_START));
}

#[test]
fn heap_init_without_enough_frames_fails() {
    let mut frames = BootInfoFrameAllocator::init(vec![region(0x100000, 0x104000, true)]);
    let mut mapper = Mapper::new();
    assert!(matches!(
        init_heap(&mut mapper, &mut frames),
        Err(MapToError::FrameAllocationFailed)
    ));
}

#[test]
fn heap_allocations_are_disjoint_aligned_and_inside() {
    let mut heap = Heap::init(HEAP_START, HEAP_SIZE);
    let mut live: Vec<(u64, u64)> = Vec::new();
    for (size, align) in [(8u64, 8u64), (100, 16), (1, 1), (4096, 4096), (24, 8)] {
        let a = heap.allocate(size, align).unwrap();
        assert_eq!(a % align, 0);
        assert!(a >= HEAP_START && a + size <= HEAP_START + HEAP_SIZE);
        for &(b, s) in &live {
            assert!(a + size <= b || b + s <= a);
        }
        live.push((a, size));
    }
}

#[test]
fn freed_block_serves_an_equal_or_smaller_request() {
    let mut heap = Heap::init(0x1000, 256);
    let a = heap.allocate(128, 8).unwrap();
    let b = heap.allocate(128, 8).unwrap();
    assert_eq!(heap.allocate(1, 1), None);
    heap.deallocate(a, 128);
    let c = heap.allocate(64, 8).unwrap();
    assert_eq!(c, a);
    heap.deallocate(b, 128);
    assert_eq!(heap.allocate(128, 8), Some(b));
}

#[test]
fn exhausted_heap_reports_failure() {
    let mut heap = Heap::init(0x1000, 64);
    assert_eq!(heap.allocate(65, 1), None);
    assert_eq!(heap.allocate(64, 1), Some(0x1000));
    assert_eq!(heap.allocate(1, 1), None);
}

#[test]
fn balanced_alloc_free_pairs_do_not_leak() {
    let mut heap = Heap::init(HEAP_START, HEAP_SIZE);
    let mut seen = Vec::new();
    for _ in 0..10_000u32 {
        let a = heap.allocate(64, 8).unwrap();
        if !seen.contains(&a) {
            seen.push(a);
        }
        heap.deallocate(a, 64);
    }
    // the freed block is the first reused
    assert_eq!(seen, vec![HEAP_START]);
}

#[test]
fn boxed_and_vector_values_fit_in_the_heap() {
    let mut heap = Heap::init(HEAP_START, HEAP_SIZE);
    // a boxed value, then a vector that doubles its storage up to 500 words
    let boxed = heap.allocate(8, 8).unwrap();
    let mut cap: u64 = 1;
    let mut storage = heap.allocate(8 * cap, 8).unwrap();
    while cap < 500 {
        let bigger = heap.allocate(16 * cap, 8).unwrap();
        heap.deallocate(storage, 8 * cap);
        storage = bigger;
        cap *= 2;
    }
    assert!(storage >= HEAP_START && storage + 8 * cap <= HEAP_START + HEAP_SIZE);
    assert!(boxed + 8 <= storage || storage + 8 * cap <= boxed);
}

#[test]
fn heap_init_over_a_mapped_heap_page_fails() {
    let mut frames = BootInfoFrameAllocator::init(vec![region(0x100000, 0x200000, true)]);
    let mut mapper = Mapper::new();
    let page = VirtualPage { start: HEAP_START + 3 * PAGE_SIZE };
    assert_eq!(mapper.map_to(page, PhysicalFrame { start: 0x1000 }, FLAG_PRESENT, &mut frames), Ok(()));
    assert!(matches!(
        init_heap(&mut mapper, &mut frames),
        Err(MapToError::PageAlreadyMapped)
    ));
    assert_eq!(mapper.translate(page), Some(PhysicalFrame { start: 0x1000 }));
}

#[test]
fn heap_init_uses_heap_pages_plus_three_tables() {
    let mut frames = BootInfoFrameAllocator::init(vec![region(0x100000, 0x100000 + 28 * PAGE_SIZE, true)]);
    let mut mapper = Mapper::new();
    assert!(init_heap(&mut mapper, &mut frames).is_ok());
    assert_eq!(frames.allocate_frame(), None);
}
