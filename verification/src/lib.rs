//! Core of a small cooperative kernel: physical frame allocation from a
//! boot-time memory map, installation of virtual page mappings, a
//! general-purpose heap allocator over a fixed arena, and a single-core
//! cooperative task executor fed by interrupt-driven queues.
//!
//! Hardware access (page-table memory, the page-table base register,
//! interrupt delivery, the halt instruction) stays outside: every function
//! here works on a plain-value model of that state, and the surrounding
//! kernel hands values in and out at its edges.

use vstd::prelude::*;

pub mod executor;
pub mod frames;
pub mod heap;
pub mod paging;
pub mod task;

use crate::executor::Executor;
use crate::frames::{FrameAllocator, MemoryRegion, FRAME_SIZE, usable_frames, wf_regions};
use crate::heap::{block_addrs, HeapAllocator};
use crate::paging::{MapError, Mapper, PageFlags, page_at, range_conflicts};

verus! {

/// Start of the heap arena in the kernel's virtual address space.
pub const HEAP_START: u64 = 0x4444_4444_0000;

/// Size in bytes of the heap arena.
pub const HEAP_SIZE: u64 = 100 * 1024;

/// Capacity of the scancode staging queue.
pub const SCANCODE_QUEUE_CAPACITY: usize = 100;

/// How many pages back the heap arena.
pub open spec fn heap_page_count() -> int {
    HEAP_SIZE as int / FRAME_SIZE as int
}

/// The initialized kernel core: address translation, the frame pool, the
/// heap, and the task executor.
pub struct Kernel {
    pub mapper: Mapper,
    pub frame_allocator: FrameAllocator,
    pub heap: HeapAllocator,
    pub executor: Executor,
}

/// Maps every page of the heap arena, backing each with a fresh frame, and
/// hands the arena to a fresh allocator. Fails with `FrameAllocationFailed`
/// when the usable frames run out, and with `PageAlreadyMapped` when some
/// heap page is already mapped; both are fatal to the boot sequence.
pub fn init_heap(
    mapper: &mut Mapper,
    frame_allocator: &mut FrameAllocator,
) -> (r: Result<HeapAllocator, MapError>)
    requires
        old(mapper).wf(),
        old(frame_allocator).wf(),
    ensures
        final(mapper).wf(),
        final(mapper).physical_memory_offset == old(mapper).physical_memory_offset,
        final(frame_allocator).wf(),
        final(frame_allocator).regions@ == old(frame_allocator).regions@,
        r is Ok <==> !range_conflicts(old(mapper).page_table(), HEAP_START, HEAP_SIZE / FRAME_SIZE)
            && old(frame_allocator).remaining_frames().len() >= heap_page_count(),
        r matches Ok(h) ==> {
            &&& h.wf()
            &&& h.base == HEAP_START
            &&& h.size == HEAP_SIZE
            &&& h.live@ == Map::<int, int>::empty()
            &&& h.free_set() == block_addrs(HEAP_START as int, HEAP_SIZE as int)
            &&& forall|i: int| 0 <= i < heap_page_count() ==> {
                &&& final(mapper).page_table().contains_key(#[trigger] page_at(HEAP_START, i))
                &&& final(mapper).page_table()[page_at(HEAP_START, i)].flags
                    == (PageFlags { present: true, writable: true })
            }
            &&& final(frame_allocator).num_served()
                == old(frame_allocator).num_served() + heap_page_count()
        },
        r matches Err(e) ==> {
            &&& (e == MapError::PageAlreadyMapped <==> range_conflicts(
                old(mapper).page_table(), HEAP_START, HEAP_SIZE / FRAME_SIZE))
            &&& (e == MapError::PageAlreadyMapped ==> {
                &&& final(mapper).page_table() == old(mapper).page_table()
                &&& final(frame_allocator).num_served() == old(frame_allocator).num_served()
            })
            &&& (e == MapError::FrameAllocationFailed ==> final(frame_allocator).num_served()
                == old(frame_allocator).all_frames().len())
        },
{
    let page_count = HEAP_SIZE / FRAME_SIZE;
    let flags = PageFlags { present: true, writable: true };
    match mapper.map_range(frame_allocator, HEAP_START, page_count, flags) {
        Ok(()) => Ok(HeapAllocator::new(HEAP_START, HEAP_SIZE)),
        Err(e) => Err(e),
    }
}

/// Builds the whole core from the boot handoff: the frame allocator over the
/// memory map, the mapper over the physical-memory offset, the heap arena
/// mapped and ready, and an idle executor. Succeeds exactly when the memory
/// map holds enough usable frames to back the heap; the boot sequence owns
/// the decision to halt on failure.
pub fn boot_kernel(
    physical_memory_offset: u64,
    memory_map: Vec<MemoryRegion>,
) -> (r: Result<Kernel, MapError>)
    requires
        wf_regions(memory_map@),
    ensures
        r is Ok <==> usable_frames(memory_map@).len() >= heap_page_count(),
        r matches Ok(k) ==> {
            &&& k.mapper.wf()
            &&& k.frame_allocator.wf()
            &&& k.heap.wf()
            &&& k.executor.wf()
            &&& k.mapper.physical_memory_offset == physical_memory_offset
            &&& k.frame_allocator.regions@ == memory_map@
            &&& k.frame_allocator.num_served() == heap_page_count()
            &&& k.heap.base == HEAP_START
            &&& k.heap.size == HEAP_SIZE
            &&& k.heap.live@ == Map::<int, int>::empty()
            &&& k.heap.free_set() == block_addrs(HEAP_START as int, HEAP_SIZE as int)
            &&& forall|i: int| 0 <= i < heap_page_count() ==> {
                &&& k.mapper.page_table().contains_key(#[trigger] page_at(HEAP_START, i))
                &&& k.mapper.page_table()[page_at(HEAP_START, i)].flags
                    == (PageFlags { present: true, writable: true })
            }
            &&& k.executor.task_view() == Map::<u64, executor::EntryModel>::empty()
            &&& k.executor.queue@ == Seq::<u64>::empty()
            &&& k.executor.scancodes.capacity == SCANCODE_QUEUE_CAPACITY
        },
        r matches Err(e) ==> e == MapError::FrameAllocationFailed,
{
    let mut mapper = Mapper::init(physical_memory_offset);
    let mut frame_allocator = FrameAllocator::init(memory_map);
    proof {
        assert(!range_conflicts(mapper.page_table(), HEAP_START, HEAP_SIZE / FRAME_SIZE));
        assert(frame_allocator.remaining_frames() =~= frame_allocator.all_frames());
    }
    let heap = match init_heap(&mut mapper, &mut frame_allocator) {
        Ok(heap) => heap,
        Err(e) => {
            proof {
                assert(e == MapError::FrameAllocationFailed);
            }
            return Err(e);
        },
    };
    let executor = Executor::new(SCANCODE_QUEUE_CAPACITY);
    Ok(Kernel { mapper, frame_allocator, heap, executor })
}

/// A sanity check that the verifier is running over this crate at all.
pub fn trivial_assertion() {
    assert(1int == 1int);
}

} // verus!
