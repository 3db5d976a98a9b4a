//! Physical frame allocation over the boot-time memory map.
//!
//! The bootloader hands the kernel an ordered list of physical memory
//! regions. The usable regions are cut into frame-sized, frame-aligned
//! chunks, and the allocator hands those chunks out one by one in ascending
//! address order; nothing is ever returned to the pool.

use vstd::prelude::*;

verus! {

/// Size in bytes of one physical frame (and of one virtual page).
pub const FRAME_SIZE: u64 = 4096;

/// Upper bound on physical addresses: the 52-bit architectural limit of
/// x86-64 physical address space.
pub const MAX_PHYS_ADDR: u64 = 0x10_0000_0000_0000;

/// Usability tag of one region of the boot memory map.
#[derive(Clone, Copy, PartialEq, Eq, Structural, Debug)]
pub enum RegionKind {
    Usable,
    Reserved,
    BootloaderOwned,
    KernelOwned,
}

/// One contiguous physical address range `[start, end)` of the boot memory
/// map, with its usability tag.
#[derive(Clone, Copy, PartialEq, Eq, Structural, Debug)]
pub struct MemoryRegion {
    pub start: u64,
    pub end: u64,
    pub kind: RegionKind,
}

/// Least multiple of `align` that is at least `addr`.
pub open spec fn spec_align_up(addr: int, align: int) -> int {
    ((addr + align - 1) / align) * align
}

pub proof fn lemma_align_up(addr: int, align: int)
    requires
        0 <= addr,
        1 <= align,
    ensures
        addr <= spec_align_up(addr, align),
        spec_align_up(addr, align) < addr + align,
        spec_align_up(addr, align) % align == 0,
{
    let x = addr + align - 1;
    let q = x / align;
    let r = x % align;
    vstd::arithmetic::div_mod::lemma_fundamental_div_mod(x, align);
    vstd::arithmetic::div_mod::lemma_mod_bound(x, align);
    assert(q * align == x - r);
    vstd::arithmetic::div_mod::lemma_mod_multiples_basic(q, align);
}

impl MemoryRegion {
    pub open spec fn wf(self) -> bool {
        self.start <= self.end && self.end <= MAX_PHYS_ADDR
    }

    /// Address of the first frame-aligned chunk at or above the region start.
    pub open spec fn first_frame(self) -> int {
        spec_align_up(self.start as int, FRAME_SIZE as int)
    }

    /// How many whole frames a usable region contributes.
    pub open spec fn frame_count(self) -> nat {
        if self.kind is Usable && self.first_frame() + FRAME_SIZE <= self.end {
            ((self.end - self.first_frame()) / (FRAME_SIZE as int)) as nat
        } else {
            0nat
        }
    }

    /// The frames this region contributes, in ascending address order.
    pub open spec fn frames(self) -> Seq<u64> {
        Seq::new(self.frame_count(), |i: int| (self.first_frame() + i * FRAME_SIZE) as u64)
    }
}

/// The boot collaborator's contract on the memory map: every region is
/// well-formed, and the regions are sorted and pairwise disjoint.
pub open spec fn wf_regions(rs: Seq<MemoryRegion>) -> bool {
    &&& forall|i: int| 0 <= i < rs.len() ==> (#[trigger] rs[i]).wf()
    &&& forall|i: int, j: int|
        #![trigger rs[i].end, rs[j].start]
        0 <= i < j < rs.len() ==> rs[i].end <= rs[j].start
}

/// Every usable frame the memory map yields, region by region in map order.
pub open spec fn usable_frames(rs: Seq<MemoryRegion>) -> Seq<u64>
    decreases rs.len(),
{
    if rs.len() == 0 {
        Seq::empty()
    } else {
        rs.first().frames() + usable_frames(rs.drop_first())
    }
}

/// `addr` is the start of a whole frame inside a usable region of `rs`.
pub open spec fn frame_in_usable_region(rs: Seq<MemoryRegion>, addr: u64) -> bool {
    exists|i: int|
        0 <= i < rs.len() && (#[trigger] rs[i]).kind is Usable && rs[i].start <= addr
            && addr + FRAME_SIZE <= rs[i].end
}

/// Walking the recursion one region at a time, from the front.
proof fn lemma_usable_frames_unfold(rs: Seq<MemoryRegion>, i: int)
    requires
        0 <= i < rs.len(),
    ensures
        usable_frames(rs.skip(i)) == rs[i].frames() + usable_frames(rs.skip(i + 1)),
{
    assert(rs.skip(i).first() == rs[i]);
    assert(rs.skip(i).drop_first() =~= rs.skip(i + 1));
}

/// Every frame of a well-formed region lies inside it, is frame-aligned,
/// and the frames ascend in steps of the frame size.
proof fn lemma_region_frames(r: MemoryRegion)
    requires
        r.wf(),
    ensures
        forall|k: int| #![trigger r.frames()[k]]
            0 <= k < r.frames().len() ==> {
                &&& r.kind is Usable
                &&& r.start <= r.frames()[k]
                &&& r.frames()[k] + FRAME_SIZE <= r.end
                &&& r.frames()[k] == r.first_frame() + k * FRAME_SIZE
            },
{
    if r.frame_count() > 0 {
        lemma_align_up(r.start as int, FRAME_SIZE as int);
        let first = r.first_frame();
        let c = r.frame_count() as int;
        vstd::arithmetic::div_mod::lemma_fundamental_div_mod(r.end - first, FRAME_SIZE as int);
        vstd::arithmetic::div_mod::lemma_mod_bound(r.end - first, FRAME_SIZE as int);
        assert(c * FRAME_SIZE <= r.end - first);
        assert forall|k: int| 0 <= k < r.frames().len() implies {
            &&& r.kind is Usable
            &&& r.start <= #[trigger] r.frames()[k]
            &&& r.frames()[k] + FRAME_SIZE <= r.end
            &&& r.frames()[k] == r.first_frame() + k * FRAME_SIZE
        } by {
            assert((k + 1) * FRAME_SIZE <= c * FRAME_SIZE) by {
                assert((c - (k + 1)) * FRAME_SIZE >= 0) by (nonlinear_arith)
                    requires c - (k + 1) >= 0;
                assert((c - (k + 1)) * FRAME_SIZE == c * FRAME_SIZE - (k + 1) * FRAME_SIZE)
                    by (nonlinear_arith);
            }
            assert(k * FRAME_SIZE >= 0) by (nonlinear_arith)
                requires k >= 0;
            assert(first + k * FRAME_SIZE + FRAME_SIZE <= r.end);
        }
    }
}

/// Every usable frame of a sorted map sits at or above the first region's
/// start address.
proof fn lemma_usable_frames_lower_bound(rs: Seq<MemoryRegion>)
    requires
        wf_regions(rs),
        rs.len() > 0,
    ensures
        forall|k: int| #![trigger usable_frames(rs)[k]]
            0 <= k < usable_frames(rs).len() ==> rs.first().start <= usable_frames(rs)[k],
    decreases rs.len(),
{
    let r0 = rs.first();
    let rest = rs.drop_first();
    lemma_region_frames(r0);
    assert(wf_regions(rest)) by {
        assert(forall|i: int| 0 <= i < rest.len() ==> (#[trigger] rest[i]).wf()) by {
            assert(forall|i: int| 0 <= i < rest.len() ==> rest[i] == rs[i + 1]);
        }
    }
    if rest.len() > 0 {
        lemma_usable_frames_lower_bound(rest);
        assert(r0.start <= r0.end <= rest.first().start);
    }
    assert forall|k: int| 0 <= k < usable_frames(rs).len()
        implies rs.first().start <= #[trigger] usable_frames(rs)[k] by {
        let f0 = r0.frames();
        if k < f0.len() {
            assert(usable_frames(rs)[k] == f0[k]);
        } else {
            assert(usable_frames(rs)[k] == usable_frames(rest)[k - f0.len()]);
        }
    }
}

/// LAW: the usable frames derived from a well-formed memory map are
/// strictly ascending (hence pairwise distinct), and each lies wholly
/// inside a region marked usable.
pub proof fn lemma_usable_frames_unique(rs: Seq<MemoryRegion>)
    requires
        wf_regions(rs),
    ensures
        forall|k: int, l: int|
            #![trigger usable_frames(rs)[k], usable_frames(rs)[l]]
            0 <= k < l < usable_frames(rs).len() ==> usable_frames(rs)[k] < usable_frames(rs)[l],
        forall|k: int| #![trigger usable_frames(rs)[k]]
            0 <= k < usable_frames(rs).len() ==> frame_in_usable_region(rs, usable_frames(rs)[k]),
    decreases rs.len(),
{
    if rs.len() > 0 {
        let r0 = rs.first();
        let rest = rs.drop_first();
        let f0 = r0.frames();
        lemma_region_frames(r0);
        assert(wf_regions(rest)) by {
            assert(forall|i: int| 0 <= i < rest.len() ==> rest[i] == rs[i + 1]);
        }
        lemma_usable_frames_unique(rest);
        if rest.len() > 0 {
            lemma_usable_frames_lower_bound(rest);
        }
        assert forall|k: int, l: int|
            0 <= k < l < usable_frames(rs).len()
            implies #[trigger] usable_frames(rs)[k] < #[trigger] usable_frames(rs)[l] by {
            if l < f0.len() {
                assert((l - k) * FRAME_SIZE > 0) by (nonlinear_arith)
                    requires l - k >= 1;
                assert((l - k) * FRAME_SIZE == l * FRAME_SIZE - k * FRAME_SIZE)
                    by (nonlinear_arith);
            } else if k < f0.len() {
                assert(usable_frames(rs)[k] == f0[k]);
                assert(usable_frames(rs)[l] == usable_frames(rest)[l - f0.len()]);
                assert(f0[k] + FRAME_SIZE <= r0.end);
                assert(r0.end <= rest.first().start);
                assert(rest.first().start <= usable_frames(rest)[l - f0.len()]);
            } else {
                assert(usable_frames(rs)[k] == usable_frames(rest)[k - f0.len()]);
                assert(usable_frames(rs)[l] == usable_frames(rest)[l - f0.len()]);
            }
        }
        assert forall|k: int| 0 <= k < usable_frames(rs).len()
            implies frame_in_usable_region(rs, #[trigger] usable_frames(rs)[k]) by {
            if k < f0.len() {
                assert(rs[0] == r0);
                assert(rs[0].kind is Usable && rs[0].start <= usable_frames(rs)[k]
                    && usable_frames(rs)[k] + FRAME_SIZE <= rs[0].end);
            } else {
                let addr = usable_frames(rest)[k - f0.len()];
                assert(usable_frames(rs)[k] == addr);
                assert(frame_in_usable_region(rest, addr));
                let i = choose|i: int|
                    0 <= i < rest.len() && (#[trigger] rest[i]).kind is Usable
                        && rest[i].start <= addr && addr + FRAME_SIZE <= rest[i].end;
                assert(rs[i + 1] == rest[i]);
                assert(0 <= i + 1 < rs.len() && (rs[i + 1]).kind is Usable
                    && rs[i + 1].start <= addr && addr + FRAME_SIZE <= rs[i + 1].end);
            }
        }
    }
}

/// End-to-end address span of the memory map.
pub open spec fn region_span(rs: Seq<MemoryRegion>) -> int {
    if rs.len() == 0 {
        0
    } else {
        rs.last().end - rs.first().start
    }
}

/// The total number of usable frames is bounded by the physical address
/// space, so a frame counter can never overflow.
pub proof fn lemma_usable_frames_len(rs: Seq<MemoryRegion>)
    requires
        wf_regions(rs),
    ensures
        usable_frames(rs).len() * FRAME_SIZE <= region_span(rs),
        usable_frames(rs).len() <= MAX_PHYS_ADDR,
    decreases rs.len(),
{
    if rs.len() > 0 {
        let r0 = rs.first();
        let rest = rs.drop_first();
        let f0 = r0.frames();
        assert(wf_regions(rest)) by {
            assert(forall|i: int| 0 <= i < rest.len() ==> rest[i] == rs[i + 1]);
        }
        lemma_usable_frames_len(rest);
        assert(f0.len() * FRAME_SIZE <= r0.end - r0.start) by {
            if r0.frame_count() > 0 {
                lemma_align_up(r0.start as int, FRAME_SIZE as int);
                vstd::arithmetic::div_mod::lemma_fundamental_div_mod(
                    r0.end - r0.first_frame(), FRAME_SIZE as int);
                vstd::arithmetic::div_mod::lemma_mod_bound(
                    r0.end - r0.first_frame(), FRAME_SIZE as int);
            }
        }
        if rest.len() > 0 {
            assert(r0.end <= rest.first().start);
            assert(rs.last() == rest.last());
        }
        assert(usable_frames(rs).len() == f0.len() + usable_frames(rest).len());
        assert((f0.len() + usable_frames(rest).len()) * FRAME_SIZE
            == f0.len() * FRAME_SIZE + usable_frames(rest).len() * FRAME_SIZE)
            by (nonlinear_arith);
    }
    assert(usable_frames(rs).len() <= usable_frames(rs).len() * FRAME_SIZE) by (nonlinear_arith)
        requires usable_frames(rs).len() >= 0;
    if rs.len() > 0 {
        assert(region_span(rs) <= MAX_PHYS_ADDR);
    }
}

/// The frame allocator: a monotonic cursor over the usable frames of the
/// boot memory map.
pub struct FrameAllocator {
    pub regions: Vec<MemoryRegion>,
    pub served: u64,
}

impl FrameAllocator {
    pub open spec fn wf(&self) -> bool {
        &&& wf_regions(self.regions@)
        &&& self.served <= usable_frames(self.regions@).len()
    }

    /// Every usable frame this allocator will ever hand out, in order.
    pub open spec fn all_frames(&self) -> Seq<u64> {
        usable_frames(self.regions@)
    }

    /// How many frames have been handed out so far.
    pub open spec fn num_served(&self) -> nat {
        self.served as nat
    }

    /// The frames still available, in the order they will be handed out.
    pub open spec fn remaining_frames(&self) -> Seq<u64> {
        self.all_frames().skip(self.served as int)
    }

    /// Builds an allocator over the boot memory map. Nothing is allocated
    /// yet; the map itself must satisfy the boot collaborator's contract.
    pub fn init(memory_map: Vec<MemoryRegion>) -> (r: FrameAllocator)
        requires
            wf_regions(memory_map@),
        ensures
            r.wf(),
            r.regions@ == memory_map@,
            r.num_served() == 0,
    {
        FrameAllocator { regions: memory_map, served: 0 }
    }

    /// First frame-aligned address at or above the region start.
    fn region_first_frame(r: &MemoryRegion) -> (f: u64)
        requires
            r.wf(),
        ensures
            f == r.first_frame(),
    {
        proof {
            lemma_align_up(r.start as int, FRAME_SIZE as int);
        }
        let rem = r.start % FRAME_SIZE;
        let first = if rem == 0 { r.start } else { r.start + (FRAME_SIZE - rem) };
        proof {
            let q = r.start as int / FRAME_SIZE as int;
            vstd::arithmetic::div_mod::lemma_fundamental_div_mod(r.start as int, FRAME_SIZE as int);
            vstd::arithmetic::div_mod::lemma_mod_bound(r.start as int, FRAME_SIZE as int);
            if rem == 0 {
                vstd::arithmetic::div_mod::lemma_fundamental_div_mod_converse(
                    r.start as int + FRAME_SIZE as int - 1, FRAME_SIZE as int,
                    q, FRAME_SIZE as int - 1);
            } else {
                vstd::arithmetic::div_mod::lemma_fundamental_div_mod_converse(
                    r.start as int + FRAME_SIZE as int - 1, FRAME_SIZE as int,
                    q + 1, rem as int - 1);
                assert(first == (q + 1) * FRAME_SIZE) by (nonlinear_arith)
                    requires
                        first == q * FRAME_SIZE + rem + (FRAME_SIZE - rem),
                        rem == r.start as int % FRAME_SIZE as int,
                        r.start == q * FRAME_SIZE + rem;
            }
            assert(first == r.first_frame());
        }
        first
    }

    /// Exact frame count of one region, computed at run time.
    fn region_frame_count(r: &MemoryRegion) -> (c: u64)
        requires
            r.wf(),
        ensures
            c == r.frame_count(),
    {
        if !matches!(r.kind, RegionKind::Usable) {
            return 0;
        }
        let first = Self::region_first_frame(r);
        if first + FRAME_SIZE <= r.end {
            let c = (r.end - first) / FRAME_SIZE;
            proof {
                vstd::arithmetic::div_mod::lemma_fundamental_div_mod(
                    r.end - first, FRAME_SIZE as int);
                vstd::arithmetic::div_mod::lemma_mod_bound(r.end - first, FRAME_SIZE as int);
            }
            c
        } else {
            0
        }
    }

    /// Hands out the next unused usable frame, in ascending address order
    /// region by region; returns `None` exactly when every usable frame has
    /// already been handed out.
    pub fn allocate_frame(&mut self) -> (r: Option<u64>)
        requires
            old(self).wf(),
        ensures
            final(self).wf(),
            final(self).regions@ == old(self).regions@,
            old(self).num_served() < old(self).all_frames().len() ==> {
                &&& r == Some(old(self).all_frames()[old(self).num_served() as int])
                &&& final(self).num_served() == old(self).num_served() + 1
            },
            old(self).num_served() >= old(self).all_frames().len() ==> {
                &&& r is None
                &&& final(self).num_served() == old(self).num_served()
            },
    {
        let ghost all = usable_frames(self.regions@);
        let mut skip: u64 = self.served;
        let mut i: usize = 0;
        proof {
            assert(self.regions@.skip(0) =~= self.regions@);
        }
        while i < self.regions.len()
            invariant
                self.wf(),
                self.regions@ == old(self).regions@,
                self.served == old(self).served,
                all == usable_frames(self.regions@),
                0 <= i <= self.regions.len(),
                skip <= self.served,
                usable_frames(self.regions@.skip(i as int)) == all.skip(self.served - skip),
            decreases self.regions.len() - i,
        {
            let region = self.regions[i];
            proof {
                assert(region.wf());
                lemma_usable_frames_unfold(self.regions@, i as int);
            }
            let c = Self::region_frame_count(&region);
            let ghost tail = all.skip(self.served - skip);
            if skip < c {
                proof {
                    lemma_region_frames(region);
                    lemma_align_up(region.start as int, FRAME_SIZE as int);
                    assert(tail == region.frames() + usable_frames(self.regions@.skip(i as int + 1)));
                    assert(skip < tail.len());
                    assert(tail[skip as int] == region.frames()[skip as int]);
                    assert(tail.len() == all.len() - (self.served - skip));
                    assert(self.served < all.len());
                    assert(all.skip(self.served - skip)[skip as int]
                        == all[self.served - skip + skip]);
                    assert(all[self.served as int] == tail[skip as int]);
                    lemma_usable_frames_len(self.regions@);
                }
                let first = Self::region_first_frame(&region);
                proof {
                    assert(region.frames()[skip as int] == first + (skip as int) * FRAME_SIZE);
                    assert(region.frames()[skip as int] + FRAME_SIZE <= region.end);
                    assert((skip as int) * FRAME_SIZE
                        == region.frames()[skip as int] - first);
                }
                let frame = first + skip * FRAME_SIZE;
                proof {
                    assert(frame == region.frames()[skip as int]);
                }
                self.served = self.served + 1;
                return Some(frame);
            }
            proof {
                assert(tail =~= region.frames() + usable_frames(self.regions@.skip(i as int + 1)));
                assert(tail.skip(c as int) =~= usable_frames(self.regions@.skip(i as int + 1)));
                assert(all.skip(self.served - skip).skip(c as int)
                    =~= all.skip(self.served - (skip - c)));
            }
            skip = skip - c;
            i = i + 1;
        }
        proof {
            assert(self.regions@.skip(self.regions@.len() as int) =~= Seq::<MemoryRegion>::empty());
            assert(all.skip(self.served - skip) =~= Seq::<u64>::empty());
            assert(all.len() <= self.served - skip);
        }
        None
    }
}

} // verus!
