use kernel_core::executor::Executor;
use kernel_core::frames::{FrameAllocator, MemoryRegion, RegionKind, FRAME_SIZE};
use kernel_core::heap::{AllocError, HeapAllocator};
use kernel_core::paging::{MapError, Mapper, PageFlags};
use kernel_core::task::TaskState;
use kernel_core::{boot_kernel, HEAP_SIZE, HEAP_START};

fn usable(start: u64, end: u64) -> MemoryRegion {
    MemoryRegion { start, end, kind: RegionKind::Usable }
}

#[test]
fn trivial_assertion() {
    kernel_core::trivial_assertion();
}

#[test]
fn frame_allocator_eight_frames_then_none() {
    let regions = vec![usable(0x1000, 0x9000)];
    let mut fa = FrameAllocator::init(regions);
    let mut got: Vec<u64> = Vec::new();
    for _ in 0..8 {
        got.push(fa.allocate_frame().expect("frame owed"));
    }
    assert_eq!(
        got,
        vec![0x1000, 0x2000, 0x3000, 0x4000, 0x5000, 0x6000, 0x7000, 0x8000]
    );
    for window in got.windows(2) {
        assert_eq!(window[1], window[0] + FRAME_SIZE);
    }
    assert_eq!(fa.allocate_frame(), None);
    assert_eq!(fa.allocate_frame(), None);
}

#[test]
fn frame_allocator_skips_unusable_and_aligns() {
    let regions = vec![
        MemoryRegion { start: 0, end: 0x3000, kind: RegionKind::Reserved },
        usable(0x3800, 0x6000),
        MemoryRegion { start: 0x6000, end: 0x8000, kind: RegionKind::KernelOwned },
    ];
    let mut fa = FrameAllocator::init(regions);
    assert_eq!(fa.allocate_frame(), Some(0x4000));
    assert_eq!(fa.allocate_frame(), Some(0x5000));
    assert_eq!(fa.allocate_frame(), None);
}

#[test]
fn map_range_then_overlap_conflicts() {
    let mut mapper = Mapper::init(0);
    let mut fa = FrameAllocator::init(vec![usable(0x1000, 0x11000)]);
    let flags = PageFlags { present: true, writable: true };
    assert_eq!(mapper.map_range(&mut fa, 0x40_0000, 4, flags), Ok(()));
    // every page of the range is mapped with the requested flags
    assert_eq!(mapper.translate(0x40_0000), Some(0x1000));
    assert_eq!(mapper.translate(0x40_1000 + 5), Some(0x2000 + 5));
    assert_eq!(mapper.translate(0x40_3000), Some(0x4000));
    assert_eq!(mapper.translate(0x40_4000), None);
    // any overlapping sub-range conflicts instead of silently remapping
    assert_eq!(
        mapper.map_range(&mut fa, 0x40_2000, 4, flags),
        Err(MapError::PageAlreadyMapped)
    );
    // the conflicting call changed nothing, so a fresh range still works
    assert_eq!(mapper.map_range(&mut fa, 0x50_0000, 2, flags), Ok(()));
    assert_eq!(mapper.translate(0x50_1000), Some(0x6000));
}

#[test]
fn map_page_refuses_double_map() {
    let mut mapper = Mapper::init(0);
    let flags = PageFlags { present: true, writable: false };
    assert_eq!(mapper.map_page(0x7000, 0x1000, flags), Ok(()));
    assert_eq!(
        mapper.map_page(0x7000, 0x2000, flags),
        Err(MapError::PageAlreadyMapped)
    );
    assert_eq!(mapper.translate(0x7000), Some(0x1000));
}

#[test]
fn map_range_frame_exhaustion() {
    let mut mapper = Mapper::init(0);
    let mut fa = FrameAllocator::init(vec![usable(0x1000, 0x3000)]);
    let flags = PageFlags { present: true, writable: true };
    assert_eq!(
        mapper.map_range(&mut fa, 0x40_0000, 4, flags),
        Err(MapError::FrameAllocationFailed)
    );
    assert_eq!(fa.allocate_frame(), None);
}

#[test]
fn heap_small_arena_alloc_pattern() {
    let mut heap = HeapAllocator::new(0x1000, 1000);
    let a = heap.allocate(24, 8).expect("first block owed");
    let b = heap.allocate(24, 8).expect("second block owed");
    let c = heap.allocate(24, 8).expect("third block owed");
    for p in [a, b, c] {
        assert_eq!(p % 8, 0);
        assert!(p >= 0x1000 && p + 24 <= 0x1000 + 1000);
    }
    // pairwise disjoint
    for (x, y) in [(a, b), (a, c), (b, c)] {
        assert!(x + 24 <= y || y + 24 <= x);
    }
    assert_eq!(heap.allocate(2000, 8), Err(AllocError::OutOfMemory));
}

#[test]
fn heap_round_trip_never_exhausts() {
    let mut heap = HeapAllocator::new(0, 256);
    let mut last: Option<u64> = None;
    for _ in 0..100 {
        let p = heap.allocate(24, 8).expect("round trip must not exhaust the heap");
        if let Some(q) = last {
            assert_eq!(p, q);
        }
        heap.deallocate(p, 24);
        last = Some(p);
    }
    // freed blocks coalesce back into the whole arena
    let p1 = heap.allocate(32, 16).expect("block owed");
    let p2 = heap.allocate(32, 16).expect("block owed");
    assert!(p1 + 32 <= p2 || p2 + 32 <= p1);
    heap.deallocate(p2, 32);
    heap.deallocate(p1, 32);
    assert_eq!(heap.allocate(256, 1), Ok(0));
}

#[test]
fn heap_respects_alignment_of_unaligned_arena() {
    let mut heap = HeapAllocator::new(9, 100);
    let p = heap.allocate(4, 16).expect("aligned block owed");
    assert_eq!(p % 16, 0);
    assert!(p >= 9 && p + 4 <= 109);
}

#[test]
fn executor_ready_and_await_wake() {
    let mut ex = Executor::new(4);
    let t1 = ex.spawn(TaskState::Ready { value: 42 });
    let t2 = ex.spawn(TaskState::AwaitWake { value: 7, polled: false });
    ex.run_ready_tasks();
    // the ready task completed before any wake was injected
    assert_eq!(ex.completed.len(), 1);
    assert_eq!(ex.completed[0].id, t1);
    assert_eq!(ex.completed[0].value, 42);
    // the waiting task was polled once, suspended, and kept
    assert_eq!(ex.tasks.len(), 1);
    assert_eq!(ex.tasks[0].id, t2);
    assert_eq!(ex.tasks[0].polls, 1);
    assert!(!ex.step());
    // a simulated interrupt wakes it; only then does it complete
    ex.wake_task(t2);
    ex.run_ready_tasks();
    assert_eq!(ex.completed.len(), 2);
    assert_eq!(ex.completed[1].id, t2);
    assert_eq!(ex.completed[1].value, 7);
    // removed from the task table the moment it completed
    assert_eq!(ex.tasks.len(), 0);
}

#[test]
fn wake_twice_causes_one_repoll() {
    let mut ex = Executor::new(4);
    let t = ex.spawn(TaskState::Keyboard { received: Vec::new() });
    ex.run_ready_tasks();
    assert_eq!(ex.tasks[0].polls, 1);
    ex.wake_task(t);
    ex.wake_task(t);
    assert_eq!(ex.queue.len(), 1);
    ex.run_ready_tasks();
    assert_eq!(ex.tasks[0].polls, 2);
}

#[test]
fn stale_wake_is_ignored() {
    let mut ex = Executor::new(2);
    let t = ex.spawn(TaskState::Ready { value: 9 });
    ex.run_ready_tasks();
    assert_eq!(ex.tasks.len(), 0);
    ex.wake_task(t);
    assert_eq!(ex.queue.len(), 0);
    assert!(!ex.step());
}

#[test]
fn scancode_overflow_drops_and_counts() {
    let mut ex = Executor::new(3);
    let _t = ex.spawn(TaskState::Keyboard { received: Vec::new() });
    // first poll drains nothing and registers the waker with the queue
    ex.run_ready_tasks();
    // five interrupts arrive faster than the task drains, capacity is 3
    for sc in [1u8, 2, 3, 4, 5] {
        ex.add_scancode(sc);
    }
    assert_eq!(ex.scancodes.dropped, 2);
    ex.run_ready_tasks();
    match &ex.tasks[0].state {
        TaskState::Keyboard { received } => assert_eq!(received, &vec![1, 2, 3]),
        _ => panic!("keyboard task changed kind"),
    }
    assert_eq!(ex.scancodes.items.len(), 0);
}

#[test]
fn keyboard_drains_again_after_wake() {
    let mut ex = Executor::new(8);
    let _t = ex.spawn(TaskState::Keyboard { received: Vec::new() });
    ex.run_ready_tasks();
    ex.add_scancode(0x1e);
    ex.run_ready_tasks();
    ex.add_scancode(0x30);
    ex.run_ready_tasks();
    match &ex.tasks[0].state {
        TaskState::Keyboard { received } => assert_eq!(received, &vec![0x1e, 0x30]),
        _ => panic!("keyboard task changed kind"),
    }
    assert_eq!(ex.scancodes.dropped, 0);
}

#[test]
fn boot_kernel_maps_heap_and_serves_allocations() {
    let regions = vec![usable(0, 32 * FRAME_SIZE)];
    let mut kernel = boot_kernel(0x1_0000_0000, regions).expect("enough frames for the heap");
    // the heap needs one frame per page
    assert_eq!(kernel.frame_allocator.served, HEAP_SIZE / FRAME_SIZE);
    // the heap range translates, page by page, to the frames that back it
    assert_eq!(kernel.mapper.translate(HEAP_START), Some(0));
    assert_eq!(
        kernel.mapper.translate(HEAP_START + FRAME_SIZE + 7),
        Some(FRAME_SIZE + 7)
    );
    assert_eq!(kernel.mapper.translate(HEAP_START + HEAP_SIZE), None);
    // allocations come from inside the arena
    let p = kernel.heap.allocate(64, 8).expect("heap block owed");
    assert!(p >= HEAP_START && p + 64 <= HEAP_START + HEAP_SIZE);
    kernel.heap.deallocate(p, 64);
}

#[test]
fn boot_kernel_fails_on_frame_exhaustion() {
    let regions = vec![usable(0, 10 * FRAME_SIZE)];
    assert!(matches!(
        boot_kernel(0, regions),
        Err(MapError::FrameAllocationFailed)
    ));
}
