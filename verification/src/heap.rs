//! General-purpose heap allocation over a fixed arena.
//!
//! Once the heap's virtual range is mapped, the allocator manages it as a
//! free list of maximally coalesced, sorted, disjoint ranges. `allocate`
//! carves an aligned block out of the first fitting range; `deallocate`
//! returns a block and re-merges it with its neighbours, so a freed block
//! restores the free space exactly. A ghost map of live blocks carries the
//! proof that no two live allocations ever overlap.

use vstd::prelude::*;
use crate::frames::{spec_align_up, lemma_align_up};

verus! {

/// Allocation failure: the arena has no fitting free block left.
#[derive(Clone, Copy, PartialEq, Eq, Structural, Debug)]
pub enum AllocError {
    OutOfMemory,
}

/// One free range `[start, end)` of the arena.
#[derive(Clone, Copy, PartialEq, Eq, Structural, Debug)]
pub struct FreeRange {
    pub start: u64,
    pub end: u64,
}

/// The set of free byte addresses described by a free list.
pub open spec fn free_addrs(s: Seq<FreeRange>) -> Set<int> {
    Set::new(|q: int| exists|i: int| 0 <= i < s.len() && (#[trigger] s[i]).start <= q < s[i].end)
}

/// The byte addresses of the block of `size` bytes at `p`.
pub open spec fn block_addrs(p: int, size: int) -> Set<int> {
    Set::new(|q: int| p <= q < p + size)
}

/// An aligned block of `size` bytes fits somewhere in the free space.
pub open spec fn can_alloc(free: Set<int>, size: int, align: int) -> bool {
    exists|p: int| #[trigger] (p % align) == 0 && block_addrs(p, size).subset_of(free)
}

/// An aligned block of `size` bytes fits inside the single range `r`.
pub open spec fn range_fits(r: FreeRange, size: int, align: int) -> bool {
    spec_align_up(r.start as int, align) + size <= r.end
}

/// Two distinct multiples of `align` lie at least `align` apart.
proof fn lemma_multiple_gap(a: int, b: int, align: int)
    requires
        1 <= align,
        a % align == 0,
        b % align == 0,
        a < b,
    ensures
        a + align <= b,
{
    let qa = a / align;
    let qb = b / align;
    vstd::arithmetic::div_mod::lemma_fundamental_div_mod(a, align);
    vstd::arithmetic::div_mod::lemma_fundamental_div_mod(b, align);
    assert(a == align * qa && b == align * qb);
    assert(qa < qb) by (nonlinear_arith)
        requires align >= 1, align * qa < align * qb;
    assert(align * qa + align <= align * qb) by (nonlinear_arith)
        requires align >= 1, qa + 1 <= qb;
}

/// The least aligned address at or above `addr` is indeed the least.
proof fn lemma_align_up_least(addr: int, align: int, p: int)
    requires
        0 <= addr,
        1 <= align,
        p % align == 0,
        addr <= p,
    ensures
        spec_align_up(addr, align) <= p,
{
    lemma_align_up(addr, align);
    let au = spec_align_up(addr, align);
    if p < au {
        lemma_multiple_gap(p, au, align);
        assert(au < addr + align);
        assert(false);
    }
}

/// An aligned address in `[addr, addr + align)` is the rounded-up address.
proof fn lemma_align_up_unique(addr: int, align: int, v: int)
    requires
        0 <= addr,
        1 <= align,
        v % align == 0,
        addr <= v,
        v < addr + align,
    ensures
        v == spec_align_up(addr, align),
{
    lemma_align_up(addr, align);
    lemma_align_up_least(addr, align, v);
    let au = spec_align_up(addr, align);
    if au < v {
        lemma_multiple_gap(au, v, align);
        assert(false);
    }
}

/// A contiguous run of free addresses lies wholly inside one free range of a
/// maximally coalesced free list.
proof fn lemma_contiguous_block_in_one_range(s: Seq<FreeRange>, p: int, size: int)
    requires
        forall|i: int| 0 <= i < s.len() ==> (#[trigger] s[i]).start < s[i].end,
        forall|i: int, j: int|
            #![trigger s[i].end, s[j].start]
            0 <= i < j < s.len() ==> s[i].end < s[j].start,
        size >= 1,
        block_addrs(p, size).subset_of(free_addrs(s)),
    ensures
        exists|i: int| 0 <= i < s.len() && (#[trigger] s[i]).start <= p && p + size <= s[i].end,
{
    assert(block_addrs(p, size).contains(p));
    assert(free_addrs(s).contains(p));
    let i = choose|i: int| 0 <= i < s.len() && (#[trigger] s[i]).start <= p < s[i].end;
    if p + size > s[i].end {
        let e = s[i].end as int;
        assert(block_addrs(p, size).contains(e));
        assert(free_addrs(s).contains(e));
        let j = choose|j: int| 0 <= j < s.len() && (#[trigger] s[j]).start <= e < s[j].end;
        if j < i {
            assert(s[j].end < s[i].start);
            assert(false);
        } else if j == i {
            assert(false);
        } else {
            assert(s[i].end < s[j].start);
            assert(false);
        }
    }
    assert(s[i].start <= p && p + size <= s[i].end);
}

/// If no single free range fits an aligned block, none exists at all.
proof fn lemma_no_fit_no_alloc(s: Seq<FreeRange>, size: int, align: int)
    requires
        forall|i: int| 0 <= i < s.len() ==> (#[trigger] s[i]).start < s[i].end,
        forall|i: int, j: int|
            #![trigger s[i].end, s[j].start]
            0 <= i < j < s.len() ==> s[i].end < s[j].start,
        forall|i: int| 0 <= i < s.len() ==> 0 <= (#[trigger] s[i]).start,
        size >= 1,
        align >= 1,
        forall|i: int| 0 <= i < s.len() ==> !range_fits(#[trigger] s[i], size, align),
    ensures
        !can_alloc(free_addrs(s), size, align),
{
    if can_alloc(free_addrs(s), size, align) {
        let p = choose|p: int| #[trigger] (p % align) == 0
            && block_addrs(p, size).subset_of(free_addrs(s));
        lemma_contiguous_block_in_one_range(s, p, size);
        let i = choose|i: int|
            0 <= i < s.len() && (#[trigger] s[i]).start <= p && p + size <= s[i].end;
        lemma_align_up_least(s[i].start as int, align, p);
        assert(range_fits(s[i], size, align));
        assert(false);
    }
}

/// LAW: returning the block just carved out restores the free space exactly,
/// so an allocate/deallocate round trip leaves every later request able to
/// succeed precisely as before, no matter how often it repeats.
pub proof fn lemma_alloc_round_trip(
    free0: Set<int>,
    free1: Set<int>,
    free2: Set<int>,
    p: int,
    size: int,
)
    requires
        block_addrs(p, size).subset_of(free0),
        free1 == free0.difference(block_addrs(p, size)),
        free2 == free1.union(block_addrs(p, size)),
    ensures
        free2 == free0,
        forall|s2: int, a2: int| can_alloc(free2, s2, a2) == can_alloc(free0, s2, a2),
{
    assert(free2 =~= free0);
}

/// Shape of the free list after a freed block is spliced back in at
/// position `i`, merged with its left and right neighbours where adjacent:
/// the result is again sorted with strict gaps, within the arena, its free
/// addresses are the old ones plus the block, and the remaining live blocks
/// stay disjoint from it.
#[verifier::rlimit(100)]
#[verifier::spinoff_prover]
proof fn lemma_dealloc_splice(
    s0: Seq<FreeRange>,
    t: Seq<FreeRange>,
    live: Map<int, int>,
    i: int,
    p: u64,
    size: u64,
    base: u64,
    asize: u64,
    merge_left: bool,
    merge_right: bool,
    lo: u64,
    hi: u64,
)
    requires
        base + asize <= u64::MAX,
        forall|k: int| 0 <= k < s0.len() ==> {
            &&& base <= (#[trigger] s0[k]).start
            &&& s0[k].start < s0[k].end
            &&& s0[k].end <= base + asize
        },
        forall|a: int, b: int|
            #![trigger s0[a].end, s0[b].start]
            0 <= a < b < s0.len() ==> s0[a].end < s0[b].start,
        1 <= size,
        base <= p,
        p + size <= base + asize,
        0 <= i <= s0.len(),
        forall|j: int| 0 <= j < i ==> (#[trigger] s0[j]).end <= p,
        forall|j: int| i <= j < s0.len() ==> (#[trigger] s0[j]).start >= p + size,
        merge_left == (i > 0 && s0[i - 1].end == p),
        merge_right == (i < s0.len() && p + size == s0[i].start),
        lo == if merge_left { s0[i - 1].start } else { p },
        hi == if merge_right { s0[i].end } else { (p + size) as u64 },
        t == s0.take(if merge_left { i - 1 } else { i })
            + seq![FreeRange { start: lo, end: hi }]
            + s0.skip((if merge_left { i - 1 } else { i })
                + (if merge_left { 1int } else { 0int })
                + (if merge_right { 1int } else { 0int })),
        forall|q: int| #[trigger] live.contains_key(q) ==> base <= q < live[q] <= base + asize,
        forall|q1: int, q2: int|
            #![trigger live.contains_key(q1), live.contains_key(q2)]
            live.contains_key(q1) && live.contains_key(q2) && q1 != q2
                ==> live[q1] <= q2 || live[q2] <= q1,
        forall|q: int, k: int|
            #![trigger live.contains_key(q), s0[k]]
            live.contains_key(q) && 0 <= k < s0.len()
                ==> s0[k].end <= q || live[q] <= s0[k].start,
        live.contains_key(p as int),
        live[p as int] == p + size,
    ensures
        forall|k: int| 0 <= k < t.len() ==> {
            &&& base <= (#[trigger] t[k]).start
            &&& t[k].start < t[k].end
            &&& t[k].end <= base + asize
        },
        forall|a: int, b: int|
            #![trigger t[a].end, t[b].start]
            0 <= a < b < t.len() ==> t[a].end < t[b].start,
        free_addrs(t) == free_addrs(s0).union(block_addrs(p as int, size as int)),
        forall|pl: int, k: int|
            #![trigger live.remove(p as int).contains_key(pl), t[k]]
            live.remove(p as int).contains_key(pl) && 0 <= k < t.len()
                ==> t[k].end <= pl || live.remove(p as int)[pl] <= t[k].start,
{
    let li = if merge_left { i - 1 } else { i };
    let removed: int = (if merge_left { 1int } else { 0int })
        + (if merge_right { 1int } else { 0int });
    let blk = block_addrs(p as int, size as int);
    assert(lo <= p && p + size <= hi);
    assert forall|q: int|
        free_addrs(t).contains(q) == free_addrs(s0).union(blk).contains(q) by {
        if free_addrs(t).contains(q) {
            let k = choose|k: int| 0 <= k < t.len() && (#[trigger] t[k]).start <= q < t[k].end;
            if k < li {
                assert(s0[k].start <= q < s0[k].end);
            } else if k == li {
                if q < p {
                    assert(merge_left);
                    assert(s0[li].start <= q < s0[li].end);
                } else if q >= p + size {
                    assert(merge_right);
                    let ri = li + removed - 1;
                    assert(s0[ri].start <= q < s0[ri].end);
                }
            } else {
                assert(t[k] == s0[k - 1 + removed]);
                assert(s0[k - 1 + removed].start <= q < s0[k - 1 + removed].end);
            }
            assert(free_addrs(s0).contains(q) || blk.contains(q));
        }
        if free_addrs(s0).union(blk).contains(q) {
            assert(free_addrs(s0).contains(q) || blk.contains(q));
            if blk.contains(q) {
                assert(t[li].start <= q < t[li].end);
            } else {
                let k = choose|k: int|
                    0 <= k < s0.len() && (#[trigger] s0[k]).start <= q < s0[k].end;
                if k < li {
                    assert(t[k].start <= q < t[k].end);
                } else if k < li + removed {
                    assert(t[li].start <= q < t[li].end);
                } else {
                    assert(t[k + 1 - removed] == s0[k]);
                    assert(t[k + 1 - removed].start <= q < t[k + 1 - removed].end);
                }
            }
            assert(free_addrs(t).contains(q));
        }
    }
    assert(free_addrs(t) =~= free_addrs(s0).union(blk));
    // Sortedness with strict gaps.
    assert forall|a: int, b: int|
        0 <= a < b < t.len()
        implies #[trigger] t[a].end < #[trigger] t[b].start by {
        if b < li {
            assert(t[a] == s0[a] && t[b] == s0[b]);
            assert(s0[a].end < s0[b].start);
        } else if a < li && b == li {
            if merge_left {
                assert(t[a] == s0[a] && a < li);
                assert(s0[a].end < s0[li].start);
                assert(t[b].start == s0[li].start);
            } else {
                assert(t[a] == s0[a]);
                assert(s0[a].end <= p);
                if s0[a].end == p {
                    assert(a == i - 1 || s0[a].end < s0[i - 1].start);
                    assert(false);
                }
                assert(t[b].start == p);
            }
        } else if a < li && b > li {
            assert(t[a] == s0[a] && t[b] == s0[b - 1 + removed]);
            assert(s0[a].end < s0[b - 1 + removed].start);
        } else if a == li {
            assert(t[b] == s0[b - 1 + removed]);
            assert(b - 1 + removed >= li + removed);
            assert(s0[b - 1 + removed].start >= p + size);
            if merge_right {
                let ri = li + removed - 1;
                assert(hi == s0[ri].end);
                assert(b - 1 + removed > ri);
                assert(s0[ri].end < s0[b - 1 + removed].start);
            } else {
                assert(hi == p + size);
                if s0[b - 1 + removed].start == p + size {
                    assert(false);
                }
            }
        } else {
            assert(t.len() == s0.len() + 1 - removed);
            assert(li < a);
            assert(0 <= a - 1 + removed < s0.len());
            assert(0 <= b - 1 + removed < s0.len());
            assert(t[a] == s0[a - 1 + removed]);
            assert(t[b] == s0[b - 1 + removed]);
            assert(s0[a - 1 + removed].end < s0[b - 1 + removed].start);
        }
    }
    // Live blocks remain disjoint from the new free list.
    assert forall|pl: int, k: int|
        live.remove(p as int).contains_key(pl) && 0 <= k < t.len()
        implies t[k].end <= pl || live.remove(p as int)[pl] <= t[k].start by {
        assert(live.contains_key(pl) && pl != p as int);
        let ple = live[pl];
        if k < li {
            assert(t[k] == s0[k]);
            assert(s0[k].end <= pl || ple <= s0[k].start);
        } else if k == li {
            assert(ple <= p || pl >= p + size) by {
                assert(live[p as int] <= pl || ple <= p);
            }
            if merge_left {
                assert(s0[li].end <= pl || ple <= s0[li].start);
            }
            if merge_right {
                let ri = li + removed - 1;
                assert(s0[ri].end <= pl || ple <= s0[ri].start);
            }
            assert(t[k].end <= pl || ple <= t[k].start);
        } else {
            assert(t[k] == s0[k - 1 + removed]);
            assert(s0[k - 1 + removed].end <= pl || ple <= s0[k - 1 + removed].start);
        }
    }
}

/// LAW: two distinct live allocations of a well-formed heap never overlap.
pub proof fn lemma_live_blocks_disjoint(h: HeapAllocator, p: int, q: int)
    requires
        h.wf(),
        h.live@.contains_key(p),
        h.live@.contains_key(q),
        p != q,
    ensures
        h.live@[p] <= q || h.live@[q] <= p,
{
}

/// The heap allocator over the arena `[base, base + size)`.
pub struct HeapAllocator {
    pub base: u64,
    pub size: u64,
    pub free: Vec<FreeRange>,
    /// The blocks currently handed out and not yet returned: start -> end.
    pub live: Ghost<Map<int, int>>,
}

impl HeapAllocator {
    pub open spec fn arena_end(&self) -> int {
        self.base + self.size
    }

    /// The free list is sorted, within the arena, and maximally coalesced:
    /// strict gaps separate consecutive ranges.
    pub open spec fn ranges_wf(&self) -> bool {
        &&& self.base + self.size <= u64::MAX
        &&& forall|i: int| 0 <= i < self.free@.len() ==> {
            &&& self.base <= (#[trigger] self.free@[i]).start
            &&& self.free@[i].start < self.free@[i].end
            &&& self.free@[i].end <= self.arena_end()
        }
        &&& forall|i: int, j: int|
            #![trigger self.free@[i].end, self.free@[j].start]
            0 <= i < j < self.free@.len() ==> self.free@[i].end < self.free@[j].start
    }

    /// Live blocks are nonempty, within the arena, pairwise disjoint, and
    /// disjoint from every free range.
    pub open spec fn live_wf(&self) -> bool {
        &&& forall|p: int| #[trigger] self.live@.contains_key(p)
            ==> self.base <= p < self.live@[p] <= self.arena_end()
        &&& forall|p: int, q: int|
            #![trigger self.live@.contains_key(p), self.live@.contains_key(q)]
            self.live@.contains_key(p) && self.live@.contains_key(q) && p != q
                ==> self.live@[p] <= q || self.live@[q] <= p
        &&& forall|p: int, i: int|
            #![trigger self.live@.contains_key(p), self.free@[i]]
            self.live@.contains_key(p) && 0 <= i < self.free@.len()
                ==> self.free@[i].end <= p || self.live@[p] <= self.free@[i].start
    }

    pub open spec fn wf(&self) -> bool {
        self.ranges_wf() && self.live_wf()
    }

    /// The set of currently free byte addresses.
    pub open spec fn free_set(&self) -> Set<int> {
        free_addrs(self.free@)
    }

    /// Builds an allocator over the fresh arena `[base, base + size)`, all of
    /// it free. The arena must already be mapped; callers of `allocate`
    /// receive addresses inside it and nowhere else.
    pub fn new(base: u64, size: u64) -> (r: HeapAllocator)
        requires
            base + size <= u64::MAX,
        ensures
            r.wf(),
            r.base == base,
            r.size == size,
            r.live@ == Map::<int, int>::empty(),
            r.free_set() == block_addrs(base as int, size as int),
    {
        let mut free: Vec<FreeRange> = Vec::new();
        if size > 0 {
            free.push(FreeRange { start: base, end: base + size });
        }
        let r = HeapAllocator { base, size, free, live: Ghost(Map::empty()) };
        proof {
            if size > 0 {
                assert forall|q: int| block_addrs(base as int, size as int).contains(q)
                    implies r.free_set().contains(q) by {
                    assert(r.free@[0].start <= q < r.free@[0].end);
                }
            }
            assert(r.free_set() =~= block_addrs(base as int, size as int));
        }
        r
    }

    /// Carves an aligned block of `size` bytes out of the free space.
    /// Succeeds exactly when some aligned block of that size is wholly free;
    /// the returned address is aligned, lies inside the arena, was free, and
    /// is live (and no longer free) afterwards. Fails with `OutOfMemory`,
    /// changing nothing, when no fitting block exists.
    #[verifier::rlimit(100)]
    pub fn allocate(&mut self, size: u64, align: u64) -> (r: Result<u64, AllocError>)
        requires
            old(self).wf(),
            1 <= size,
            1 <= align,
        ensures
            final(self).wf(),
            final(self).base == old(self).base,
            final(self).size == old(self).size,
            r is Ok <==> can_alloc(old(self).free_set(), size as int, align as int),
            r matches Ok(p) ==> {
                &&& p % align == 0
                &&& old(self).base <= p
                &&& p + size <= old(self).arena_end()
                &&& block_addrs(p as int, size as int).subset_of(old(self).free_set())
                &&& final(self).free_set() == old(self).free_set().difference(
                    block_addrs(p as int, size as int))
                &&& !old(self).live@.contains_key(p as int)
                &&& final(self).live@ == old(self).live@.insert(p as int, p + size)
            },
            r is Err ==> {
                &&& r == Err::<u64, AllocError>(AllocError::OutOfMemory)
                &&& final(self).free@ == old(self).free@
                &&& final(self).live@ == old(self).live@
            },
    {
        let n = self.free.len();
        let mut i: usize = 0;
        while i < n
            invariant
                0 <= i <= n,
                self == old(self),
                self.wf(),
                1 <= size,
                1 <= align,
                n == self.free@.len(),
                forall|j: int| 0 <= j < i
                    ==> !range_fits(#[trigger] self.free@[j], size as int, align as int),
            decreases n - i,
        {
            let rg = self.free[i];
            let rem = rg.start % align;
            let pad = if rem == 0 { 0u64 } else { align - rem };
            proof {
                vstd::arithmetic::div_mod::lemma_fundamental_div_mod(rg.start as int, align as int);
                vstd::arithmetic::div_mod::lemma_mod_bound(rg.start as int, align as int);
                let q = rg.start as int / align as int;
                assert((rg.start + pad) % (align as int) == 0) by {
                    if rem == 0 {
                        assert(rg.start + pad == rg.start as int);
                    } else {
                        assert(rg.start + pad == (align as int) * (q + 1)) by (nonlinear_arith)
                            requires
                                pad == align - rem,
                                rg.start == (align as int) * q + rem;
                        vstd::arithmetic::div_mod::lemma_mod_multiples_basic(q + 1, align as int);
                        assert((align as int) * (q + 1) == (q + 1) * (align as int))
                            by (nonlinear_arith);
                    }
                }
                lemma_align_up_unique(rg.start as int, align as int, rg.start + pad);
                assert(rg.start + pad == spec_align_up(rg.start as int, align as int));
            }
            if pad <= rg.end - rg.start && size <= (rg.end - rg.start) - pad {
                let p = rg.start + pad;
                proof {
                    assert(p % align == 0);
                    assert(range_fits(rg, size as int, align as int));
                }
                let ghost s0 = self.free@;
                let ghost blk = block_addrs(p as int, size as int);
                let ghost frags = if rg.start < p && p + size < rg.end {
                    seq![FreeRange { start: rg.start, end: p },
                         FreeRange { start: (p + size) as u64, end: rg.end }]
                } else if rg.start < p {
                    seq![FreeRange { start: rg.start, end: p }]
                } else if p + size < rg.end {
                    seq![FreeRange { start: (p + size) as u64, end: rg.end }]
                } else {
                    Seq::<FreeRange>::empty()
                };
                self.free.remove(i);
                if p + size < rg.end {
                    self.free.insert(i, FreeRange { start: p + size, end: rg.end });
                }
                if rg.start < p {
                    self.free.insert(i, FreeRange { start: rg.start, end: p });
                }
                proof {
                    assert(self.free@ =~= s0.take(i as int) + frags + s0.skip(i as int + 1));
                    let t = self.free@;
                    let fl = frags.len() as int;
                    // Forward: every new free address was free and is off the block.
                    assert forall|q: int| free_addrs(t).contains(q)
                        implies free_addrs(s0).contains(q) && !blk.contains(q) by {
                        let k = choose|k: int| 0 <= k < t.len() && (#[trigger] t[k]).start <= q < t[k].end;
                        if k < i {
                            assert(s0[k].start <= q < s0[k].end);
                        } else if k < i + fl {
                            assert(s0[i as int].start <= q < s0[i as int].end);
                        } else {
                            assert(t[k] == s0[k - fl + 1]);
                            assert(s0[k - fl + 1].start <= q < s0[k - fl + 1].end);
                        }
                    }
                    // Backward: every old free address off the block is still free.
                    assert forall|q: int| free_addrs(s0).contains(q) && !blk.contains(q)
                        implies free_addrs(t).contains(q) by {
                        let k = choose|k: int| 0 <= k < s0.len() && (#[trigger] s0[k]).start <= q < s0[k].end;
                        if k < i {
                            assert(t[k].start <= q < t[k].end);
                        } else if k == i {
                            if q < p {
                                assert(rg.start < p);
                                assert(t[i as int].start <= q < t[i as int].end);
                            } else {
                                assert(q >= p + size);
                                assert(p + size < rg.end);
                                let w = i + fl - 1;
                                assert(t[w] == FreeRange { start: (p + size) as u64, end: rg.end });
                                assert(t[w].start <= q < t[w].end);
                            }
                        } else {
                            assert(t[k + fl - 1] == s0[k]);
                            assert(t[k + fl - 1].start <= q < t[k + fl - 1].end);
                        }
                    }
                    assert(free_addrs(t) =~= free_addrs(s0).difference(blk));
                    // The block was wholly free.
                    assert forall|q: int| blk.contains(q) implies free_addrs(s0).contains(q) by {
                        assert(s0[i as int].start <= q < s0[i as int].end);
                    }
                    // The new address is not a live block's start.
                    assert(!self.live@.contains_key(p as int)) by {
                        if self.live@.contains_key(p as int) {
                            assert(s0[i as int].end <= p || self.live@[p as int] <= s0[i as int].start);
                        }
                    }
                }
                let ghost new_live = self.live@.insert(p as int, p + size);
                proof {
                    // Well-formedness of the new state.
                    let t = self.free@;
                    assert forall|a: int, b: int|
                        0 <= a < b < t.len()
                        implies #[trigger] t[a].end < #[trigger] t[b].start by {
                        let fl = frags.len() as int;
                        if b < i {
                        } else if a >= i + fl {
                            assert(t[a] == s0[a - fl + 1] && t[b] == s0[b - fl + 1]);
                        } else if a < i && b >= i + fl {
                            assert(t[a] == s0[a] && t[b] == s0[b - fl + 1]);
                            assert(s0[a].end < s0[i as int].start);
                            assert(s0[i as int].start <= rg.start);
                        } else if a < i {
                            assert(t[a].end < s0[i as int].start);
                            assert(t[b].start >= rg.start);
                        } else if b >= i + fl {
                            assert(t[a].end <= rg.end);
                            assert(t[b] == s0[b - fl + 1]);
                            assert(s0[i as int].end < s0[b - fl + 1].start);
                        } else {
                            assert(fl == 2 && a == i && b == i + 1);
                        }
                    }
                    assert forall|pl: int, k: int|
                        new_live.contains_key(pl) && 0 <= k < self.free@.len()
                        implies self.free@[k].end <= pl || new_live[pl] <= self.free@[k].start by {
                        let t = self.free@;
                        let fl = frags.len() as int;
                        if pl == p as int {
                            if k < i {
                                assert(t[k] == s0[k]);
                                assert(s0[k].end < s0[i as int].start);
                            } else if k < i + fl {
                            } else {
                                assert(t[k] == s0[k - fl + 1]);
                                assert(s0[i as int].end < s0[k - fl + 1].start);
                            }
                        } else {
                            assert(self.live@.contains_key(pl));
                            if k < i {
                                assert(t[k] == s0[k]);
                                assert(s0[k].end <= pl || self.live@[pl] <= s0[k].start);
                            } else if k < i + fl {
                                assert(s0[i as int].end <= pl || self.live@[pl] <= s0[i as int].start);
                            } else {
                                assert(t[k] == s0[k - fl + 1]);
                                assert(s0[k - fl + 1].end <= pl
                                    || self.live@[pl] <= s0[k - fl + 1].start);
                            }
                        }
                    }
                }
                self.live = Ghost(new_live);
                return Ok(p);
            }
            i = i + 1;
        }
        proof {
            lemma_no_fit_no_alloc(self.free@, size as int, align as int);
        }
        Err(AllocError::OutOfMemory)
    }

    /// Returns the live block of `size` bytes at `p` to the free space,
    /// merging it with any adjacent free range. Freeing an address that is
    /// not the start of a live block of exactly that size is the caller's
    /// contract violation, excluded here by precondition.
    #[verifier::rlimit(100)]
    pub fn deallocate(&mut self, p: u64, size: u64)
        requires
            old(self).wf(),
            old(self).live@.contains_key(p as int),
            old(self).live@[p as int] == p + size,
        ensures
            final(self).wf(),
            final(self).base == old(self).base,
            final(self).size == old(self).size,
            final(self).live@ == old(self).live@.remove(p as int),
            final(self).free_set() == old(self).free_set().union(
                block_addrs(p as int, size as int)),
    {
        proof {
            assert(self.base <= p < p + size <= self.arena_end());
        }
        let n = self.free.len();
        // Position of the first free range past the block.
        let mut i: usize = 0;
        while i < n && self.free[i].start <= p
            invariant
                0 <= i <= n,
                self == old(self),
                self.wf(),
                n == self.free@.len(),
                self.live@.contains_key(p as int),
                self.live@[p as int] == p + size,
                forall|j: int| 0 <= j < i ==> (#[trigger] self.free@[j]).start <= p,
            decreases n - i,
        {
            i = i + 1;
        }
        proof {
            // Left of the gap every range ends at or before p; right of it
            // every range starts at or after p + size.
            assert forall|j: int| 0 <= j < i implies (#[trigger] self.free@[j]).end <= p by {
                assert(self.free@[j].end <= p || self.live@[p as int] <= self.free@[j].start);
            }
            assert forall|j: int| i <= j < n
                implies (#[trigger] self.free@[j]).start >= p + size by {
                if j == i {
                    assert(self.free@[j].end <= p || p + size <= self.free@[j].start);
                    assert(self.free@[j].start > p || i == n);
                } else {
                    assert(self.free@[i as int].end <= p || p + size <= self.free@[i as int].start);
                    assert(self.free@[i as int].start > p);
                    assert(self.free@[i as int].end < self.free@[j].start);
                }
            }
        }
        let ghost s0 = self.free@;
        let ghost blk = block_addrs(p as int, size as int);
        let merge_left = i > 0 && self.free[i - 1].end == p;
        let merge_right = i < n && p + size == self.free[i].start;
        let mut lo = p;
        let mut hi = p + size;
        if merge_left {
            lo = self.free[i - 1].start;
        }
        if merge_right {
            hi = self.free[i].end;
        }
        if merge_right {
            self.free.remove(i);
        }
        if merge_left {
            self.free.remove(i - 1);
            self.free.insert(i - 1, FreeRange { start: lo, end: hi });
        } else {
            self.free.insert(i, FreeRange { start: lo, end: hi });
        }
        proof {
            let li = if merge_left { i - 1 } else { i as int };
            let removed: int = (if merge_left { 1int } else { 0int })
                + (if merge_right { 1int } else { 0int });
            assert(self.free@ =~= s0.take(li) + seq![FreeRange { start: lo, end: hi }]
                + s0.skip(li + removed));
            lemma_dealloc_splice(
                s0, self.free@, self.live@, i as int, p, size, self.base, self.size,
                merge_left, merge_right, lo, hi,
            );
        }
        self.live = Ghost(self.live@.remove(p as int));
    }
}

} // verus!
