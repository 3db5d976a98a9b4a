//! Virtual-to-physical page mappings.
//!
//! The mapper models the kernel's exclusive view of its page tables: the set
//! of mappings installed through it, each from a page-aligned virtual
//! address to a physical frame with permission flags. `map_range` installs a
//! fresh mapping for every page of a range, drawing backing frames from the
//! frame allocator, and refuses to overwrite an existing mapping.

use vstd::prelude::*;
use crate::frames::{FrameAllocator, FRAME_SIZE, MAX_PHYS_ADDR, frame_in_usable_region,
    lemma_usable_frames_unique, usable_frames};

verus! {

/// Permission bits of one page mapping.
#[derive(Clone, Copy, PartialEq, Eq, Structural, Debug)]
pub struct PageFlags {
    pub present: bool,
    pub writable: bool,
}

/// One installed mapping: a virtual page, its backing frame, and flags.
#[derive(Clone, Copy, PartialEq, Eq, Structural, Debug)]
pub struct PageMapping {
    pub page: u64,
    pub frame: u64,
    pub flags: PageFlags,
}

/// How installing a mapping can fail.
#[derive(Clone, Copy, PartialEq, Eq, Structural, Debug)]
pub enum MapError {
    /// The frame allocator ran out of usable frames: fatal at boot.
    FrameAllocationFailed,
    /// Some page of the requested range already has a valid mapping.
    PageAlreadyMapped,
}

/// The page table as a map from virtual page to installed mapping.
pub open spec fn table_of(s: Seq<PageMapping>) -> Map<u64, PageMapping>
    decreases s.len(),
{
    if s.len() == 0 {
        Map::empty()
    } else {
        table_of(s.drop_last()).insert(s.last().page, s.last())
    }
}

proof fn lemma_table_of_contains(s: Seq<PageMapping>, p: u64)
    ensures
        table_of(s).contains_key(p) <==> exists|k: int| 0 <= k < s.len() && (#[trigger] s[k]).page == p,
    decreases s.len(),
{
    if s.len() > 0 {
        lemma_table_of_contains(s.drop_last(), p);
        if s.last().page == p {
            assert(s[s.len() - 1].page == p);
        } else if table_of(s).contains_key(p) {
            let k = choose|k: int| 0 <= k < s.drop_last().len() && (#[trigger] s.drop_last()[k]).page == p;
            assert(s[k].page == p);
        } else if exists|k: int| 0 <= k < s.len() && (#[trigger] s[k]).page == p {
            let k = choose|k: int| 0 <= k < s.len() && (#[trigger] s[k]).page == p;
            assert(k < s.len() - 1);
            assert(s.drop_last()[k].page == p);
        }
    }
}

proof fn lemma_table_of_index(s: Seq<PageMapping>, k: int)
    requires
        forall|a: int, b: int|
            #![trigger s[a].page, s[b].page]
            0 <= a < b < s.len() ==> s[a].page != s[b].page,
        0 <= k < s.len(),
    ensures
        table_of(s).contains_key(s[k].page),
        table_of(s)[s[k].page] == s[k],
    decreases s.len(),
{
    lemma_table_of_contains(s, s[k].page);
    if k < s.len() - 1 {
        assert(forall|a: int, b: int|
            #![trigger s.drop_last()[a].page, s.drop_last()[b].page]
            0 <= a < b < s.drop_last().len() ==> s.drop_last()[a].page != s.drop_last()[b].page);
        lemma_table_of_index(s.drop_last(), k);
        assert(s.last().page != s[k].page);
    }
}

/// The i'th page of the range starting at `start`.
pub open spec fn page_at(start: u64, i: int) -> u64 {
    (start + i * FRAME_SIZE) as u64
}

/// Some page of the given range already has a mapping in `m`.
pub open spec fn range_conflicts(m: Map<u64, PageMapping>, start: u64, count: u64) -> bool {
    exists|i: int| 0 <= i < count && m.contains_key(#[trigger] page_at(start, i))
}

/// Two page ranges share at least one page.
pub open spec fn ranges_overlap(start1: u64, count1: u64, start2: u64, count2: u64) -> bool {
    exists|i: int, j: int|
        #![trigger page_at(start1, i), page_at(start2, j)]
        0 <= i < count1 && 0 <= j < count2 && page_at(start1, i) == page_at(start2, j)
}

/// `new_m` extends `old_m` with exactly the first `n` pages of the range at
/// `start`, backed in order by the frames of `fresh`, and nothing else.
pub open spec fn mapped_exactly(
    old_m: Map<u64, PageMapping>,
    new_m: Map<u64, PageMapping>,
    start: u64,
    n: int,
    fresh: Seq<u64>,
    flags: PageFlags,
) -> bool {
    &&& forall|i: int| 0 <= i < n ==> {
        &&& new_m.contains_key(#[trigger] page_at(start, i))
        &&& new_m[page_at(start, i)] == PageMapping {
            page: page_at(start, i),
            frame: fresh[i],
            flags: flags,
        }
    }
    &&& forall|p: u64| #[trigger] new_m.contains_key(p) <==> old_m.contains_key(p)
        || exists|i: int| 0 <= i < n && p == page_at(start, i)
    &&& forall|p: u64| #[trigger] old_m.contains_key(p) ==> new_m[p] == old_m[p]
}

/// LAW: once every page of one range is mapped, any overlapping range
/// conflicts, so a later `map_range` over it reports `PageAlreadyMapped`
/// rather than silently remapping.
pub proof fn lemma_overlapping_range_conflicts(
    m: Map<u64, PageMapping>,
    start1: u64,
    count1: u64,
    start2: u64,
    count2: u64,
)
    requires
        forall|k: int| 0 <= k < count1 ==> m.contains_key(#[trigger] page_at(start1, k)),
        ranges_overlap(start1, count1, start2, count2),
    ensures
        range_conflicts(m, start2, count2),
{
    let (i, j) = choose|i: int, j: int|
        #![trigger page_at(start1, i), page_at(start2, j)]
        0 <= i < count1 && 0 <= j < count2 && page_at(start1, i) == page_at(start2, j);
    assert(m.contains_key(page_at(start2, j)));
}

/// The kernel's page-mapping state: the physical-memory offset handed over
/// by the bootloader, and the mappings installed through this mapper.
pub struct Mapper {
    pub physical_memory_offset: u64,
    pub entries: Vec<PageMapping>,
}

impl Mapper {
    pub open spec fn wf(&self) -> bool {
        &&& forall|k: int| 0 <= k < self.entries@.len() ==> {
            &&& (#[trigger] self.entries@[k]).page % FRAME_SIZE == 0
            &&& self.entries@[k].frame + FRAME_SIZE <= MAX_PHYS_ADDR
        }
        &&& forall|a: int, b: int|
            #![trigger self.entries@[a].page, self.entries@[b].page]
            0 <= a < b < self.entries@.len() ==> self.entries@[a].page != self.entries@[b].page
    }

    /// The installed mappings, keyed by virtual page.
    pub open spec fn page_table(&self) -> Map<u64, PageMapping> {
        table_of(self.entries@)
    }

    /// Builds a mapper for an address space in which all physical memory is
    /// mapped starting at `physical_memory_offset`; no mapping has been
    /// installed through it yet.
    pub fn init(physical_memory_offset: u64) -> (r: Mapper)
        ensures
            r.wf(),
            r.physical_memory_offset == physical_memory_offset,
            r.page_table() == Map::<u64, PageMapping>::empty(),
    {
        Mapper { physical_memory_offset, entries: Vec::new() }
    }

    /// Whether `page` already has a mapping.
    pub fn contains_page(&self, page: u64) -> (r: bool)
        requires
            self.wf(),
        ensures
            r == self.page_table().contains_key(page),
    {
        proof {
            lemma_table_of_contains(self.entries@, page);
        }
        let n = self.entries.len();
        let mut k: usize = 0;
        while k < n
            invariant
                0 <= k <= n,
                n == self.entries@.len(),
                forall|j: int| 0 <= j < k ==> (#[trigger] self.entries@[j]).page != page,
            decreases n - k,
        {
            if self.entries[k].page == page {
                proof {
                    lemma_table_of_contains(self.entries@, page);
                    assert(exists|j: int|
                        0 <= j < self.entries@.len() && (#[trigger] self.entries@[j]).page == page)
                        by {
                        assert((self.entries@[k as int]).page == page);
                    }
                }
                return true;
            }
            k = k + 1;
        }
        false
    }

    /// Installs a single mapping, failing if the page is already mapped.
    pub fn map_page(&mut self, page: u64, frame: u64, flags: PageFlags) -> (r: Result<(), MapError>)
        requires
            old(self).wf(),
            page % FRAME_SIZE == 0,
            frame + FRAME_SIZE <= MAX_PHYS_ADDR,
        ensures
            final(self).wf(),
            final(self).physical_memory_offset == old(self).physical_memory_offset,
            old(self).page_table().contains_key(page) ==> {
                &&& r == Err::<(), MapError>(MapError::PageAlreadyMapped)
                &&& final(self).page_table() == old(self).page_table()
                &&& final(self).entries@ == old(self).entries@
            },
            !old(self).page_table().contains_key(page) ==> {
                &&& r is Ok
                &&& final(self).page_table() == old(self).page_table().insert(
                    page,
                    PageMapping { page, frame, flags },
                )
            },
    {
        if self.contains_page(page) {
            return Err(MapError::PageAlreadyMapped);
        }
        proof {
            lemma_table_of_contains(self.entries@, page);
        }
        self.entries.push(PageMapping { page, frame, flags });
        proof {
            assert(self.entries@.drop_last() =~= old(self).entries@);
            assert(self.entries@.last() == PageMapping { page, frame, flags });
            assert(forall|j: int| 0 <= j < old(self).entries@.len()
                ==> (#[trigger] old(self).entries@[j]).page != page);
        }
        Ok(())
    }

    /// Looks a virtual address up in the installed mappings, returning the
    /// physical address it maps to.
    pub fn translate(&self, virt: u64) -> (r: Option<u64>)
        requires
            self.wf(),
        ensures
            ({
                let page = (virt - virt % FRAME_SIZE) as u64;
                if self.page_table().contains_key(page) {
                    r == Some((self.page_table()[page].frame + virt % FRAME_SIZE) as u64)
                } else {
                    r is None
                }
            }),
    {
        let offset_in_page = virt % FRAME_SIZE;
        let page = virt - offset_in_page;
        proof {
            lemma_table_of_contains(self.entries@, page);
        }
        let n = self.entries.len();
        let mut k: usize = 0;
        while k < n
            invariant
                0 <= k <= n,
                n == self.entries@.len(),
                self.wf(),
                page == (virt - virt % FRAME_SIZE) as u64,
                offset_in_page == virt % FRAME_SIZE,
                forall|j: int| 0 <= j < k ==> (#[trigger] self.entries@[j]).page != page,
            decreases n - k,
        {
            if self.entries[k].page == page {
                proof {
                    lemma_table_of_index(self.entries@, k as int);
                }
                return Some(self.entries[k].frame + offset_in_page);
            }
            k = k + 1;
        }
        None
    }

    /// Maps every page of the `page_count`-page range starting at
    /// `virt_start`, backing each page with a fresh frame from
    /// `frame_allocator`. Fails with `PageAlreadyMapped`, changing nothing,
    /// if any page of the range is already mapped; fails with
    /// `FrameAllocationFailed`, with the first pages of the range mapped and
    /// the allocator exhausted, if the usable frames run out.
    pub fn map_range(
        &mut self,
        frame_allocator: &mut FrameAllocator,
        virt_start: u64,
        page_count: u64,
        flags: PageFlags,
    ) -> (r: Result<(), MapError>)
        requires
            old(self).wf(),
            old(frame_allocator).wf(),
            virt_start % FRAME_SIZE == 0,
            virt_start + page_count * FRAME_SIZE <= u64::MAX,
        ensures
            final(self).wf(),
            final(frame_allocator).wf(),
            final(self).physical_memory_offset == old(self).physical_memory_offset,
            final(frame_allocator).regions@ == old(frame_allocator).regions@,
            range_conflicts(old(self).page_table(), virt_start, page_count) ==> {
                &&& r == Err::<(), MapError>(MapError::PageAlreadyMapped)
                &&& final(self).page_table() == old(self).page_table()
                &&& final(frame_allocator).num_served() == old(frame_allocator).num_served()
            },
            !range_conflicts(old(self).page_table(), virt_start, page_count)
                && old(frame_allocator).remaining_frames().len() >= page_count ==> {
                &&& r is Ok
                &&& final(frame_allocator).num_served()
                    == old(frame_allocator).num_served() + page_count
                &&& mapped_exactly(
                    old(self).page_table(),
                    final(self).page_table(),
                    virt_start,
                    page_count as int,
                    old(frame_allocator).remaining_frames(),
                    flags,
                )
            },
            !range_conflicts(old(self).page_table(), virt_start, page_count)
                && old(frame_allocator).remaining_frames().len() < page_count ==> {
                &&& r == Err::<(), MapError>(MapError::FrameAllocationFailed)
                &&& final(frame_allocator).num_served()
                    == old(frame_allocator).all_frames().len()
                &&& mapped_exactly(
                    old(self).page_table(),
                    final(self).page_table(),
                    virt_start,
                    old(frame_allocator).remaining_frames().len() as int,
                    old(frame_allocator).remaining_frames(),
                    flags,
                )
            },
    {
        // First pass: refuse the whole request if any page is already mapped,
        // so a conflict never leaves a half-installed range behind.
        let mut i: u64 = 0;
        while i < page_count
            invariant
                0 <= i <= page_count,
                self.wf(),
                frame_allocator.wf(),
                self == old(self),
                frame_allocator == old(frame_allocator),
                virt_start + page_count * FRAME_SIZE <= u64::MAX,
                forall|j: int| 0 <= j < i
                    ==> !self.page_table().contains_key(#[trigger] page_at(virt_start, j)),
            decreases page_count - i,
        {
            proof {
                assert((i as int) * FRAME_SIZE <= (page_count as int) * FRAME_SIZE) by {
                    assert((page_count - i) as int * FRAME_SIZE >= 0) by (nonlinear_arith)
                        requires page_count as int - i as int >= 0;
                    assert((page_count - i) as int * FRAME_SIZE
                        == (page_count as int) * FRAME_SIZE - (i as int) * FRAME_SIZE)
                        by (nonlinear_arith);
                }
                assert((i as int) * FRAME_SIZE >= 0) by (nonlinear_arith)
                    requires i as int >= 0;
            }
            let page = virt_start + i * FRAME_SIZE;
            if self.contains_page(page) {
                proof {
                    assert(page == page_at(virt_start, i as int));
                    assert(range_conflicts(self.page_table(), virt_start, page_count));
                }
                return Err(MapError::PageAlreadyMapped);
            }
            i = i + 1;
        }
        proof {
            assert(!range_conflicts(self.page_table(), virt_start, page_count));
            lemma_usable_frames_unique(frame_allocator.regions@);
        }
        // Second pass: back and install each page of the range in order.
        let ghost fresh = old(frame_allocator).remaining_frames();
        let mut i: u64 = 0;
        while i < page_count
            invariant
                0 <= i <= page_count,
                self.wf(),
                frame_allocator.wf(),
                self.physical_memory_offset == old(self).physical_memory_offset,
                frame_allocator.regions@ == old(frame_allocator).regions@,
                virt_start % FRAME_SIZE == 0,
                virt_start + page_count * FRAME_SIZE <= u64::MAX,
                fresh == old(frame_allocator).remaining_frames(),
                frame_allocator.num_served() == old(frame_allocator).num_served() + i,
                i <= fresh.len(),
                !range_conflicts(old(self).page_table(), virt_start, page_count),
                forall|k: int| #![trigger usable_frames(frame_allocator.regions@)[k]]
                    0 <= k < usable_frames(frame_allocator.regions@).len()
                    ==> frame_in_usable_region(
                        frame_allocator.regions@,
                        usable_frames(frame_allocator.regions@)[k],
                    ),
                mapped_exactly(
                    old(self).page_table(),
                    self.page_table(),
                    virt_start,
                    i as int,
                    fresh,
                    flags,
                ),
            decreases page_count - i,
        {
            proof {
                assert((i as int) * FRAME_SIZE <= (page_count as int) * FRAME_SIZE) by {
                    assert((page_count - i) as int * FRAME_SIZE >= 0) by (nonlinear_arith)
                        requires page_count as int - i as int >= 0;
                    assert((page_count - i) as int * FRAME_SIZE
                        == (page_count as int) * FRAME_SIZE - (i as int) * FRAME_SIZE)
                        by (nonlinear_arith);
                }
                assert((i as int) * FRAME_SIZE >= 0) by (nonlinear_arith)
                    requires i as int >= 0;
            }
            let page = virt_start + i * FRAME_SIZE;
            match frame_allocator.allocate_frame() {
                None => {
                    proof {
                        assert(old(frame_allocator).num_served() + i
                            >= frame_allocator.all_frames().len());
                        assert(fresh.len() <= i);
                        assert(fresh.len() == i);
                        assert(frame_allocator.num_served()
                            == frame_allocator.all_frames().len());
                    }
                    return Err(MapError::FrameAllocationFailed);
                },
                Some(frame) => {
                    proof {
                        let served = old(frame_allocator).num_served() + i;
                        assert(frame == frame_allocator.all_frames()[served as int]);
                        assert(frame == fresh[i as int]);
                        assert(frame_in_usable_region(frame_allocator.regions@, frame));
                        let ri = choose|ri: int|
                            0 <= ri < frame_allocator.regions@.len()
                                && (#[trigger] frame_allocator.regions@[ri]).kind is Usable
                                && frame_allocator.regions@[ri].start <= frame
                                && frame + FRAME_SIZE <= frame_allocator.regions@[ri].end;
                        assert(frame + FRAME_SIZE <= MAX_PHYS_ADDR);
                        // The page itself is fresh: not in the old table, and
                        // distinct from the pages mapped so far.
                        assert(page == page_at(virt_start, i as int));
                        assert(!old(self).page_table().contains_key(page));
                        assert forall|j: int| 0 <= j < i
                            implies page != #[trigger] page_at(virt_start, j) by {
                            assert((i as int) * FRAME_SIZE > (j as int) * FRAME_SIZE) by (nonlinear_arith)
                                requires 0 <= j < i as int, FRAME_SIZE as int > 0;
                            assert((j as int) * FRAME_SIZE >= 0) by (nonlinear_arith)
                                requires j >= 0;
                            assert((j as int) * FRAME_SIZE < (page_count as int) * FRAME_SIZE)
                                by (nonlinear_arith)
                                requires 0 <= j < page_count as int, FRAME_SIZE as int > 0;
                        }
                        assert(!self.page_table().contains_key(page));
                    }
                    let res = self.map_page(page, frame, flags);
                    match res {
                        Ok(()) => {},
                        Err(e) => {
                            proof {
                                assert(false);
                            }
                            return Err(e);
                        },
                    }
                    i = i + 1;
                },
            }
        }
        Ok(())
    }
}

} // verus!
