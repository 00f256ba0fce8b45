//! The kernel heap: a first-fit free-list allocator over one contiguous
//! window. Free blocks are kept address-sorted and coalesced; every
//! allocation remembers the block it was carved from.

use vstd::prelude::*;
use crate::seqsum::{sum, lemma_sum_push, lemma_sum_insert, lemma_sum_remove, lemma_sum_update};
use crate::pmm::{Pmm, frame_range, run_free, MAX_FRAMES, FRAME_SIZE, MAX_PHYS};

verus! {

pub const HEAP_FRAMES: usize = 1024;
pub const MIN_BLOCK: u64 = 32;
pub const HEADER: u64 = 16;

/// A free block: `size` bytes starting at `start` (header included).
#[derive(Clone, Copy)]
pub struct FreeBlock {
    pub start: u64,
    pub size: u64,
}

/// A live allocation: the pointer handed out and the block it owns.
#[derive(Clone, Copy)]
pub struct Allocation {
    pub ptr: u64,
    pub block_start: u64,
    pub block_size: u64,
}

pub open spec fn block_end(b: FreeBlock) -> int {
    b.start + b.size
}

pub open spec fn alloc_end(a: Allocation) -> int {
    a.block_start + a.block_size
}

/// `x` rounded up to a multiple of `a`.
pub open spec fn round_up(x: int, a: int) -> int {
    ((x + a - 1) / a) * a
}

/// Effective alignment and size of a request.
pub open spec fn eff_align(align: u64) -> int {
    if align < 16 {
        16
    } else {
        align as int
    }
}

pub open spec fn eff_need(size: u64) -> int {
    if size < 1 {
        1
    } else {
        size as int
    }
}

/// The payload address a request gets from a block starting at `start`.
pub open spec fn payload_at(start: int, align: u64) -> int {
    round_up(start + HEADER, eff_align(align))
}

/// Bytes a request takes out of a block starting at `start`.
pub open spec fn block_total(start: int, size: u64, align: u64) -> int {
    round_up(HEADER + (payload_at(start, align) - (start + HEADER)) + eff_need(size), MIN_BLOCK as int)
}

/// Block `b` can satisfy the request.
pub open spec fn block_fits(b: FreeBlock, size: u64, align: u64) -> bool {
    b.size >= block_total(b.start as int, size, align)
}

/// The free list after carving `total` bytes off the front of block `i`: the
/// rest stays in place when it is at least a minimum block, else the block goes.
pub open spec fn carve(s: Seq<FreeBlock>, i: int, total: int) -> Seq<FreeBlock> {
    if s[i].size - total >= MIN_BLOCK {
        s.update(i, FreeBlock { start: (s[i].start + total) as u64, size: (s[i].size - total) as u64 })
    } else {
        s.remove(i)
    }
}

/// The size recorded for an allocation carved from block `b`.
pub open spec fn carved_size(b: FreeBlock, total: int) -> u64 {
    if b.size - total >= MIN_BLOCK {
        total as u64
    } else {
        b.size
    }
}

/// The free list after returning block `b` at its sorted position `k` and
/// merging it with the following, then the preceding, block where they touch.
#[verifier::opaque]
pub open spec fn coalesce(s: Seq<FreeBlock>, k: int, b: FreeBlock) -> Seq<FreeBlock> {
    let s2 = coalesce_next(s, k, b);
    if k > 0 && s2[k - 1].start + s2[k - 1].size == b.start {
        s2.update(k - 1, FreeBlock { start: s2[k - 1].start, size: (s2[k - 1].size + s2[k].size) as u64 }).remove(k)
    } else {
        s2
    }
}

/// `k` is the sorted position of `start` in `s`.
pub open spec fn sorted_pos(s: Seq<FreeBlock>, k: int, start: u64) -> bool {
    &&& 0 <= k <= s.len()
    &&& forall|i: int| 0 <= i < k ==> (#[trigger] s[i]).start < start
    &&& k < s.len() ==> s[k].start >= start
}

pub open spec fn free_sizes(s: Seq<FreeBlock>) -> Seq<int> {
    s.map_values(|b: FreeBlock| b.size as int)
}

pub open spec fn alloc_sizes(s: Seq<Allocation>) -> Seq<int> {
    s.map_values(|a: Allocation| a.block_size as int)
}

/// Free blocks are non-empty, address-sorted, and separated by gaps (touching
/// blocks are always merged).
pub open spec fn free_list_ok(s: Seq<FreeBlock>, base: int, end: int) -> bool {
    &&& forall|i: int| 0 <= i < s.len() ==> base <= (#[trigger] s[i]).start && block_end(s[i]) <= end && s[i].size > 0
    &&& forall|i: int, j: int| 0 <= i < j < s.len() ==> block_end(#[trigger] s[i]) < (#[trigger] s[j]).start
}

pub open spec fn disjoint(a: Allocation, b: FreeBlock) -> bool {
    alloc_end(a) <= b.start || block_end(b) <= a.block_start
}

pub open spec fn allocs_disjoint(x: Allocation, y: Allocation) -> bool {
    alloc_end(x) <= y.block_start || alloc_end(y) <= x.block_start
}

proof fn lemma_round_up(x: int, a: int)
    requires
        a > 0,
        x >= 0,
    ensures
        x <= round_up(x, a) < x + a,
        round_up(x, a) % a == 0,
{
    let q = (x + a - 1) / a;
    assert(q * a <= x + a - 1 < q * a + a) by (nonlinear_arith)
        requires
            q == (x + a - 1) / a,
            a > 0,
            x >= 0,
    ;
    assert((q * a) % a == 0) by (nonlinear_arith)
        requires
            a > 0,
    ;
}

pub struct KernelAllocator {
    free: Vec<FreeBlock>,
    allocs: Vec<Allocation>,
    base: u64,
    size: u64,
    ready: bool,
}

impl KernelAllocator {
    pub closed spec fn free_list(&self) -> Seq<FreeBlock> {
        self.free@
    }

    pub closed spec fn allocations(&self) -> Seq<Allocation> {
        self.allocs@
    }

    pub closed spec fn heap_base(&self) -> u64 {
        self.base
    }

    pub closed spec fn heap_size(&self) -> u64 {
        self.size
    }

    pub closed spec fn is_ready(&self) -> bool {
        self.ready
    }

    pub closed spec fn wf(&self) -> bool {
        &&& self.base + self.size <= u64::MAX
        &&& !self.ready ==> self.free@.len() == 0 && self.allocs@.len() == 0 && self.size == 0
        &&& free_list_ok(self.free@, self.base as int, self.base + self.size)
        &&& forall|i: int| 0 <= i < self.allocs@.len() ==> {
            let a = #[trigger] self.allocs@[i];
            &&& self.base <= a.block_start
            &&& alloc_end(a) <= self.base + self.size
            &&& a.block_start + HEADER <= a.ptr < alloc_end(a)
        }
        &&& forall|i: int, j: int| 0 <= i < self.allocs@.len() && 0 <= j < self.free@.len() ==> disjoint(#[trigger] self.allocs@[i], #[trigger] self.free@[j])
        &&& forall|i: int, j: int| 0 <= i < self.allocs@.len() && 0 <= j < self.allocs@.len() && i != j ==> allocs_disjoint(#[trigger] self.allocs@[i], #[trigger] self.allocs@[j])
        &&& sum(free_sizes(self.free@)) + sum(alloc_sizes(self.allocs@)) == self.size
    }

    /// A heap that has no window yet.
    pub fn new() -> (h: KernelAllocator)
        ensures
            h.wf(),
            !h.is_ready(),
            h.heap_base() == 0,
            h.heap_size() == 0,
            h.free_list() == Seq::<FreeBlock>::empty(),
            h.allocations() == Seq::<Allocation>::empty(),
    {
        let h = KernelAllocator { free: Vec::new(), allocs: Vec::new(), base: 0, size: 0, ready: false };
        assert(free_sizes(h.free@) =~= Seq::<int>::empty());
        assert(alloc_sizes(h.allocs@) =~= Seq::<int>::empty());
        h
    }

    /// Hands the window `[base, base + size)` to the heap as one free block.
    pub fn init_window(&mut self, base: u64, size: u64)
        requires
            old(self).wf(),
            !old(self).is_ready(),
            size > 0,
            base + size <= u64::MAX,
        ensures
            final(self).wf(),
            final(self).is_ready(),
            final(self).heap_base() == base,
            final(self).heap_size() == size,
            final(self).free_list() == seq![FreeBlock { start: base, size }],
            final(self).allocations() == Seq::<Allocation>::empty(),
    {
        self.free.push(FreeBlock { start: base, size });
        self.base = base;
        self.size = size;
        self.ready = true;
        assert(self.free@ =~= seq![FreeBlock { start: base, size }]);
        proof {
            assert(free_sizes(self.free@) =~= seq![size as int]);
            assert(seq![size as int].drop_last() =~= Seq::<int>::empty());
            assert(alloc_sizes(self.allocs@) =~= Seq::<int>::empty());
        }
    }

    /// Takes `HEAP_FRAMES` contiguous frames from `pmm` and makes them the heap
    /// window (through the direct map), reporting the outcome on the console.
    pub fn heap_init(&mut self, pmm: &mut Pmm, out: &mut Vec<u8>)
        requires
            old(self).wf(),
            !old(self).is_ready(),
            old(pmm).wf(),
            old(pmm).hhdm_spec() + MAX_PHYS <= u64::MAX,
        ensures
            final(self).wf(),
            final(pmm).wf(),
            final(pmm).hhdm_spec() == old(pmm).hhdm_spec(),
            final(self).is_ready() <==> (old(pmm).is_ready() && exists|t: int| #[trigger] run_free(old(pmm).free_set(), t, HEAP_FRAMES as int)),
            final(self).is_ready() ==> exists|s: int| {
                &&& #[trigger] run_free(old(pmm).free_set(), s, HEAP_FRAMES as int)
                &&& forall|t: int| #[trigger] run_free(old(pmm).free_set(), t, HEAP_FRAMES as int) ==> s <= t
                &&& final(self).heap_base() == old(pmm).hhdm_spec() + s * 4096
                &&& final(pmm).free_set() == old(pmm).free_set().difference(frame_range(s, HEAP_FRAMES as int))
                &&& final(pmm).free_count() == old(pmm).free_count() - HEAP_FRAMES
                &&& final(pmm).excess() == old(pmm).excess()
                &&& final(pmm).is_ready() == old(pmm).is_ready()
                &&& final(pmm).cursor() == old(pmm).cursor()
            },
            final(self).is_ready() ==> {
                &&& final(self).heap_size() == HEAP_FRAMES * FRAME_SIZE
                &&& final(self).free_list() == seq![FreeBlock { start: final(self).heap_base(), size: (HEAP_FRAMES * FRAME_SIZE) as u64 }]
                &&& final(self).allocations() == Seq::<Allocation>::empty()
                &&& final(out)@ == old(out)@ + heap_ok_prefix() + crate::serial::hex16((HEAP_FRAMES * FRAME_SIZE) as u64) + seq![0x0Au8]
            },
            !final(self).is_ready() ==> {
                &&& *final(self) == *old(self)
                &&& *final(pmm) == *old(pmm)
                &&& final(out)@ == old(out)@ + heap_none_msg()
            },
    {
        let phys = match pmm.alloc_frames_contig(HEAP_FRAMES) {
            Some(p) => p,
            None => {
                crate::serial::serial_write(out, &heap_none_bytes());
                return;
            },
        };
        proof {
            let s = phys as int / 4096;
            old(pmm).lemma_free_bounded();
            assert(old(pmm).free_set().contains(s + HEAP_FRAMES - 1));
            assert(old(pmm).free_set().contains(s));
            assert(phys == s * 4096);
        }
        let base = pmm.phys_to_virt(phys);
        let size: u64 = (HEAP_FRAMES as u64) * FRAME_SIZE;
        self.init_window(base, size);
        crate::serial::serial_write(out, &heap_ok_bytes());
        crate::serial::serial_write_hex(out, size);
        crate::serial::serial_write(out, &[0x0Au8]);
        assert(out@ =~= old(out)@ + heap_ok_prefix() + crate::serial::hex16(size) + seq![0x0Au8]);
    }

    /// Bytes available for new allocations, summed over the free list.
    pub closed spec fn free_bytes(&self) -> int {
        sum(free_sizes(self.free@))
    }

    /// First-fit allocation of `size` bytes aligned to `align` (at least 16).
    /// Returns the payload address, or 0 when the heap is not ready or no free
    /// block is large enough.
    pub fn heap_alloc(&mut self, size: u64, align: u64) -> (p: u64)
        requires
            old(self).wf(),
            old(self).heap_base() + old(self).heap_size() + align + size + 128 <= u64::MAX,
        ensures
            final(self).wf(),
            final(self).heap_base() == old(self).heap_base(),
            final(self).heap_size() == old(self).heap_size(),
            final(self).is_ready() == old(self).is_ready(),
            p == 0 <==> (!old(self).is_ready() || forall|i: int|
                0 <= i < old(self).free_list().len() ==> !block_fits(#[trigger] old(self).free_list()[i], size, align)),
            p == 0 ==> *final(self) == *old(self),
            p != 0 ==> exists|i: int| {
                &&& 0 <= i < old(self).free_list().len()
                &&& block_fits(#[trigger] old(self).free_list()[i], size, align)
                &&& forall|j: int| 0 <= j < i ==> !block_fits(#[trigger] old(self).free_list()[j], size, align)
                &&& p == payload_at(old(self).free_list()[i].start as int, align)
                &&& final(self).free_list() == carve(old(self).free_list(), i, block_total(old(self).free_list()[i].start as int, size, align))
                &&& final(self).allocations() == old(self).allocations().push(Allocation {
                    ptr: p,
                    block_start: old(self).free_list()[i].start,
                    block_size: carved_size(old(self).free_list()[i], block_total(old(self).free_list()[i].start as int, size, align)),
                })
            },
            p != 0 ==> p % (eff_align(align) as u64) == 0 && p + eff_need(size) <= alloc_end(final(self).allocations().last()),
    {
        if !self.ready {
            return 0;
        }
        let al: u64 = if align < 16 { 16 } else { align };
        let need: u64 = if size < 1 { 1 } else { size };
        let mut i: usize = 0;
        while i < self.free.len()
            invariant
                self.wf(),
                *self == *old(self),
                self.ready,
                al == eff_align(align),
                need == eff_need(size),
                self.base + self.size + align + size + 128 <= u64::MAX,
                i <= self.free@.len(),
                forall|j: int| 0 <= j < i ==> !block_fits(#[trigger] self.free@[j], size, align),
            decreases self.free@.len() - i,
        {
            let b = self.free[i];
            assert(self.base <= b.start && block_end(b) <= self.base + self.size);
            let payload = b.start + HEADER;
            let y = payload + al - 1;
            let aligned = y - y % al;
            assert(aligned == (y / al) * al) by (nonlinear_arith)
                requires
                    aligned == y - y % al,
                    al > 0,
            ;
            assert(aligned == round_up(payload as int, al as int));
            proof {
                lemma_round_up(payload as int, al as int);
            }
            let pad = aligned - payload;
            let t0 = HEADER + pad + need;
            let y2 = t0 + MIN_BLOCK - 1;
            let total = y2 - y2 % MIN_BLOCK;
            assert(total == (y2 / MIN_BLOCK) * MIN_BLOCK) by (nonlinear_arith)
                requires
                    total == y2 - y2 % MIN_BLOCK,
                    MIN_BLOCK > 0,
            ;
            proof {
                lemma_round_up(t0 as int, MIN_BLOCK as int);
            }
            assert(total == block_total(b.start as int, size, align));
            if b.size >= total {
                let remain = b.size - total;
                let ghost old_free = self.free@;
                let bsize: u64;
                if remain >= MIN_BLOCK {
                    self.free.set(i, FreeBlock { start: b.start + total, size: remain });
                    bsize = total;
                    proof {
                        lemma_sum_update(free_sizes(old_free), i as int, remain as int);
                        assert(free_sizes(self.free@) =~= free_sizes(old_free).update(i as int, remain as int));
                    }
                } else {
                    self.free.remove(i);
                    bsize = b.size;
                    proof {
                        lemma_sum_remove(free_sizes(old_free), i as int);
                        assert(free_sizes(self.free@) =~= free_sizes(old_free).remove(i as int));
                    }
                }
                let ghost old_allocs = self.allocs@;
                let a = Allocation { ptr: aligned, block_start: b.start, block_size: bsize };
                self.allocs.push(a);
                proof {
                    lemma_sum_push(alloc_sizes(old_allocs), bsize as int);
                    assert(alloc_sizes(self.allocs@) =~= alloc_sizes(old_allocs).push(bsize as int));
                    assert(self.free@ == carve(old_free, i as int, total as int));
                    assert forall|x: int, y: int| 0 <= x < y < self.free@.len() implies block_end(#[trigger] self.free@[x]) < (#[trigger] self.free@[y]).start by {
                        if remain < MIN_BLOCK {
                            let ox = if x < i { x } else { x + 1 };
                            let oy = if y < i { y } else { y + 1 };
                            assert(self.free@[x] == old_free[ox]);
                            assert(self.free@[y] == old_free[oy]);
                        } else {
                            assert(block_end(old_free[x]) < old_free[y].start);
                        }
                    }
                    assert forall|x: int, y: int| 0 <= x < self.allocs@.len() && 0 <= y < self.free@.len() implies disjoint(#[trigger] self.allocs@[x], #[trigger] self.free@[y]) by {
                        if remain < MIN_BLOCK {
                            let oy = if y < i { y } else { y + 1 };
                            assert(self.free@[y] == old_free[oy]);
                            if x < old_allocs.len() {
                                assert(disjoint(old_allocs[x], old_free[oy]));
                            } else {
                                if oy < i {
                                    assert(block_end(old_free[oy]) < old_free[i as int].start);
                                } else {
                                    assert(block_end(old_free[i as int]) < old_free[oy].start);
                                }
                            }
                        } else {
                            if x < old_allocs.len() {
                                assert(disjoint(old_allocs[x], old_free[y]));
                            } else if y < i {
                                assert(block_end(old_free[y]) < old_free[i as int].start);
                            } else if y > i {
                                assert(block_end(old_free[i as int]) < old_free[y].start);
                            }
                        }
                    }
                    assert forall|x: int, y: int| 0 <= x < self.allocs@.len() && 0 <= y < self.allocs@.len() && x != y implies allocs_disjoint(#[trigger] self.allocs@[x], #[trigger] self.allocs@[y]) by {
                        if x == old_allocs.len() {
                            assert(disjoint(old_allocs[y], old_free[i as int]));
                        } else if y == old_allocs.len() {
                            assert(disjoint(old_allocs[x], old_free[i as int]));
                        }
                    }
                    assert(self.allocs@.last() == a);
                    assert(block_fits(old(self).free_list()[i as int], size, align));
                }
                return aligned;
            }
            i += 1;
        }
        0
    }

    /// Returns the allocation at `ptr` to the free list at its sorted position,
    /// merging it with the blocks it touches. A null pointer, or a heap that is
    /// not ready, changes nothing.
    pub fn heap_dealloc(&mut self, ptr: u64)
        requires
            old(self).wf(),
            ptr != 0 && old(self).is_ready() ==> exists|j: int| 0 <= j < old(self).allocations().len() && (#[trigger] old(self).allocations()[j]).ptr == ptr,
        ensures
            final(self).wf(),
            final(self).heap_base() == old(self).heap_base(),
            final(self).heap_size() == old(self).heap_size(),
            final(self).is_ready() == old(self).is_ready(),
            (ptr == 0 || !old(self).is_ready()) ==> *final(self) == *old(self),
            (ptr != 0 && old(self).is_ready()) ==> exists|j: int, k: int| #![trigger old(self).allocations()[j], sorted_pos(old(self).free_list(), k, old(self).allocations()[j].block_start)] {
                let a = old(self).allocations()[j];
                &&& 0 <= j < old(self).allocations().len()
                &&& a.ptr == ptr
                &&& final(self).allocations() == old(self).allocations().remove(j)
                &&& sorted_pos(old(self).free_list(), k, a.block_start)
                &&& final(self).free_list() == coalesce(old(self).free_list(), k, FreeBlock { start: a.block_start, size: a.block_size })
            },
    {
        if ptr == 0 || !self.ready {
            return;
        }
        let j = self.find_alloc(ptr);
        let ghost allocs0 = self.allocs@;
        let ghost free0 = self.free@;
        let a = self.allocs.remove(j);
        let k = insert_pos(&self.free, a.block_start);
        let blk = FreeBlock { start: a.block_start, size: a.block_size };
        proof {
            lemma_sum_remove(alloc_sizes(allocs0), j as int);
            assert(alloc_sizes(self.allocs@) =~= alloc_sizes(allocs0).remove(j as int));
            assert forall|x: int| 0 <= x < k implies block_end(#[trigger] free0[x]) <= blk.start by {
                assert(disjoint(allocs0[j as int], free0[x]));
            }
            if k < free0.len() {
                assert(disjoint(allocs0[j as int], free0[k as int]));
            }
            lemma_coalesce(free0, k as int, blk, self.base as int, self.base + self.size);
        }
        return_block(&mut self.free, k, blk, self.base + self.size);
        proof {
            assert forall|x: int, y: int| 0 <= x < self.allocs@.len() && 0 <= y < self.free@.len() implies disjoint(#[trigger] self.allocs@[x], #[trigger] self.free@[y]) by {
                let ox = if x < j { x } else { x + 1 };
                assert(self.allocs@[x] == allocs0[ox]);
                assert(allocs_disjoint(allocs0[ox], allocs0[j as int]));
                lemma_coalesce_disjoint(free0, k as int, blk, allocs0[ox]);
            }
            assert forall|x: int, y: int| 0 <= x < self.allocs@.len() && 0 <= y < self.allocs@.len() && x != y implies allocs_disjoint(#[trigger] self.allocs@[x], #[trigger] self.allocs@[y]) by {
                let ox = if x < j { x } else { x + 1 };
                let oy = if y < j { y } else { y + 1 };
                assert(self.allocs@[x] == allocs0[ox]);
                assert(self.allocs@[y] == allocs0[oy]);
            }
            assert forall|x: int| 0 <= x < self.allocs@.len() implies {
                let a = #[trigger] self.allocs@[x];
                &&& self.base <= a.block_start
                &&& alloc_end(a) <= self.base + self.size
                &&& a.block_start + HEADER <= a.ptr < alloc_end(a)
            } by {
                let ox = if x < j { x } else { x + 1 };
                assert(self.allocs@[x] == allocs0[ox]);
            }
            assert(sorted_pos(old(self).free_list(), k as int, old(self).allocations()[j as int].block_start));
        }
    }

    /// Index of the live allocation whose pointer is `ptr`.
    fn find_alloc(&self, ptr: u64) -> (j: usize)
        requires
            exists|x: int| 0 <= x < self.allocs@.len() && (#[trigger] self.allocs@[x]).ptr == ptr,
        ensures
            j < self.allocs@.len(),
            self.allocs@[j as int].ptr == ptr,
    {
        let mut j: usize = 0;
        while j < self.allocs.len() && self.allocs[j].ptr != ptr
            invariant
                j <= self.allocs@.len(),
                forall|x: int| 0 <= x < j ==> (#[trigger] self.allocs@[x]).ptr != ptr,
                exists|x: int| 0 <= x < self.allocs@.len() && (#[trigger] self.allocs@[x]).ptr == ptr,
            decreases self.allocs@.len() - j,
        {
            j += 1;
        }
        j
    }
}

/// The sorted position of `start` among the free blocks.
fn insert_pos(free: &Vec<FreeBlock>, start: u64) -> (k: usize)
    ensures
        k <= free@.len(),
        forall|x: int| 0 <= x < k ==> (#[trigger] free@[x]).start < start,
        k < free@.len() ==> free@[k as int].start >= start,
{
    let mut k: usize = 0;
    while k < free.len() && free[k].start < start
        invariant
            k <= free@.len(),
            forall|x: int| 0 <= x < k ==> (#[trigger] free@[x]).start < start,
        decreases free@.len() - k,
    {
        k += 1;
    }
    k
}

/// Inserts `b` at position `k` and merges it with the blocks it touches.
fn return_block(free: &mut Vec<FreeBlock>, k: usize, b: FreeBlock, end: u64)
    requires
        k <= old(free)@.len(),
        k < old(free)@.len() ==> block_end(b) <= old(free)@[k as int].start,
        k > 0 ==> block_end(old(free)@[k - 1]) <= b.start,
        forall|y: int| 0 <= y < coalesce_next(old(free)@, k as int, b).len() ==> block_end(#[trigger] coalesce_next(old(free)@, k as int, b)[y]) <= end,
        coalesce_next(old(free)@, k as int, b).len() >= 1,
        forall|i: int| 0 <= i < old(free)@.len() ==> block_end(#[trigger] old(free)@[i]) <= end,
    ensures
        final(free)@ == coalesce(old(free)@, k as int, b),
{
    let ghost s = free@;
    free.insert(k, b);
    if k < free.len() - 1 && b.start + b.size == free[k + 1].start {
        let nxt = free[k + 1];
        assert(nxt == s[k as int]);
        free.set(k, FreeBlock { start: b.start, size: b.size + nxt.size });
        free.remove(k + 1);
    }
    assert(free@ == coalesce_next(s, k as int, b)) by {
        reveal(coalesce_next);
    }
    if k > 0 && free[k - 1].start + free[k - 1].size == b.start {
        let prv = free[k - 1];
        let cur = free[k];
        assert(block_end(cur) <= end);
        free.set(k - 1, FreeBlock { start: prv.start, size: prv.size + cur.size });
        free.remove(k);
    }
    assert(free@ == coalesce(s, k as int, b)) by {
        reveal(coalesce);
    }
}

pub open spec fn heap_none_msg() -> Seq<u8> {
    seq![0x4Du8, 0x4D, 0x3A, 0x20, 0x68, 0x65, 0x61, 0x70, 0x20, 0x6E, 0x6F, 0x6E, 0x65, 0x0A]
}

pub open spec fn heap_ok_prefix() -> Seq<u8> {
    seq![0x4Du8, 0x4D, 0x3A, 0x20, 0x68, 0x65, 0x61, 0x70, 0x20, 0x6F, 0x6B, 0x20, 0x73, 0x69, 0x7A, 0x65, 0x3D, 0x30, 0x78]
}

fn heap_none_bytes() -> (r: [u8; 14])
    ensures
        r@ == heap_none_msg(),
{
    let r = [0x4Du8, 0x4D, 0x3A, 0x20, 0x68, 0x65, 0x61, 0x70, 0x20, 0x6E, 0x6F, 0x6E, 0x65, 0x0A];
    assert(r@ =~= heap_none_msg());
    r
}

fn heap_ok_bytes() -> (r: [u8; 19])
    ensures
        r@ == heap_ok_prefix(),
{
    let r = [0x4Du8, 0x4D, 0x3A, 0x20, 0x68, 0x65, 0x61, 0x70, 0x20, 0x6F, 0x6B, 0x20, 0x73, 0x69, 0x7A, 0x65, 0x3D, 0x30, 0x78];
    assert(r@ =~= heap_ok_prefix());
    r
}

/// The free list after returning `b` at position `k` and merging it with the
/// following block when the two touch.
#[verifier::opaque]
pub open spec fn coalesce_next(s: Seq<FreeBlock>, k: int, b: FreeBlock) -> Seq<FreeBlock> {
    let s1 = s.insert(k, b);
    if k + 1 < s1.len() && b.start + b.size == s1[k + 1].start {
        s1.update(k, FreeBlock { start: b.start, size: (b.size + s1[k + 1].size) as u64 }).remove(k + 1)
    } else {
        s1
    }
}

/// Blocks are non-empty and each ends strictly before the next begins.
pub open spec fn gaps_between(s: Seq<FreeBlock>) -> bool {
    &&& forall|i: int| 0 <= i < s.len() ==> (#[trigger] s[i]).size > 0
    &&& forall|i: int| 0 <= i < s.len() - 1 ==> block_end(#[trigger] s[i]) < s[i + 1].start
}

proof fn lemma_gaps_pairwise(s: Seq<FreeBlock>)
    requires
        gaps_between(s),
    ensures
        forall|i: int, j: int| 0 <= i < j < s.len() ==> block_end(#[trigger] s[i]) < (#[trigger] s[j]).start,
{
    assert forall|i: int, j: int| 0 <= i < j < s.len() implies block_end(#[trigger] s[i]) < (#[trigger] s[j]).start by {
        lemma_gaps_step(s, i, j);
    }
}

proof fn lemma_gaps_step(s: Seq<FreeBlock>, i: int, j: int)
    requires
        gaps_between(s),
        0 <= i < j < s.len(),
    ensures
        block_end(s[i]) < s[j].start,
    decreases j - i,
{
    if j > i + 1 {
        lemma_gaps_step(s, i, j - 1);
        assert(s[j - 1].size > 0);
        assert(block_end(s[j - 1]) < s[j].start);
    }
}

/// The facts the coalescing lemmas share: `s` has gaps between its blocks,
/// lies in `[base, end)`, and `b` sits in the gap at position `k`.
pub open spec fn gap_insert_ok(s: Seq<FreeBlock>, k: int, b: FreeBlock, base: int, end: int) -> bool {
    &&& gaps_between(s)
    &&& forall|i: int| 0 <= i < s.len() ==> base <= (#[trigger] s[i]).start && block_end(s[i]) <= end
    &&& 0 <= k <= s.len()
    &&& k > 0 ==> block_end(s[k - 1]) <= b.start
    &&& k < s.len() ==> block_end(b) <= s[k].start
    &&& base <= b.start
    &&& block_end(b) <= end
    &&& b.size > 0
    &&& end <= u64::MAX
}

pub open spec fn in_bounds(r: Seq<FreeBlock>, base: int, end: int) -> bool {
    forall|i: int| 0 <= i < r.len() ==> base <= (#[trigger] r[i]).start && block_end(r[i]) <= end
}

proof fn lemma_case_plain(s: Seq<FreeBlock>, k: int, b: FreeBlock, base: int, end: int)
    requires
        gap_insert_ok(s, k, b, base, end),
        !(k < s.len() && block_end(b) == s[k].start),
        !(k > 0 && block_end(s[k - 1]) == b.start),
    ensures
        coalesce(s, k, b) == s.insert(k, b),
        gaps_between(coalesce(s, k, b)),
        in_bounds(coalesce(s, k, b), base, end),
        sum(free_sizes(coalesce(s, k, b))) == sum(free_sizes(s)) + b.size,
{
    lemma_plain_shape(s, k, b);
    lemma_insert_gaps(s, k, b, base, end);
    let r = s.insert(k, b);
    lemma_sum_insert(free_sizes(s), k, b.size as int);
    assert(free_sizes(r) =~= free_sizes(s).insert(k, b.size as int));
}

proof fn lemma_plain_shape(s: Seq<FreeBlock>, k: int, b: FreeBlock)
    requires
        0 <= k <= s.len(),
        !(k < s.len() && block_end(b) == s[k].start),
        !(k > 0 && block_end(s[k - 1]) == b.start),
    ensures
        coalesce(s, k, b) == s.insert(k, b),
{
    reveal(coalesce);
    reveal(coalesce_next);
    let r = s.insert(k, b);
    assert(coalesce_next(s, k, b) == r);
    if k > 0 {
        assert(r[k - 1] == s[k - 1]);
    }
}

proof fn lemma_insert_gaps(s: Seq<FreeBlock>, k: int, b: FreeBlock, base: int, end: int)
    requires
        gap_insert_ok(s, k, b, base, end),
        !(k < s.len() && block_end(b) == s[k].start),
        !(k > 0 && block_end(s[k - 1]) == b.start),
    ensures
        gaps_between(s.insert(k, b)),
        in_bounds(s.insert(k, b), base, end),
{
    let r = s.insert(k, b);
    assert forall|i: int| 0 <= i < r.len() implies (#[trigger] r[i]).size > 0 && base <= r[i].start && block_end(r[i]) <= end by {
        if i < k {
            assert(r[i] == s[i]);
        } else if i > k {
            assert(r[i] == s[i - 1]);
        }
    }
    assert forall|i: int| 0 <= i < r.len() - 1 implies block_end(#[trigger] r[i]) < r[i + 1].start by {
        if i < k - 1 {
            assert(r[i] == s[i] && r[i + 1] == s[i + 1]);
            assert(block_end(s[i]) < s[i + 1].start);
        } else if i == k - 1 {
            assert(r[i] == s[k - 1] && r[i + 1] == b);
        } else if i == k {
            assert(r[i] == b && r[i + 1] == s[k]);
        } else {
            assert(r[i] == s[i - 1] && r[i + 1] == s[i]);
            assert(block_end(s[i - 1]) < s[i].start);
        }
    }
}

proof fn lemma_case_next(s: Seq<FreeBlock>, k: int, b: FreeBlock, base: int, end: int)
    requires
        gap_insert_ok(s, k, b, base, end),
        k < s.len() && block_end(b) == s[k].start,
        !(k > 0 && block_end(s[k - 1]) == b.start),
    ensures
        coalesce(s, k, b) == s.update(k, FreeBlock { start: b.start, size: (b.size + s[k].size) as u64 }),
        gaps_between(coalesce(s, k, b)),
        in_bounds(coalesce(s, k, b), base, end),
        sum(free_sizes(coalesce(s, k, b))) == sum(free_sizes(s)) + b.size,
{
    reveal(coalesce);
    reveal(coalesce_next);
    let m = FreeBlock { start: b.start, size: (b.size + s[k].size) as u64 };
    let r = s.update(k, m);
    assert(block_end(s[k]) <= end);
    assert(coalesce_next(s, k, b) =~= r);
    if k > 0 {
        assert(r[k - 1] == s[k - 1]);
    }
    assert(coalesce(s, k, b) == r);
    lemma_sum_update(free_sizes(s), k, m.size as int);
    assert(free_sizes(r) =~= free_sizes(s).update(k, m.size as int));
    assert forall|i: int| 0 <= i < r.len() - 1 implies block_end(#[trigger] r[i]) < r[i + 1].start by {
        assert(block_end(s[i]) < s[i + 1].start);
    }
}

proof fn lemma_case_prev(s: Seq<FreeBlock>, k: int, b: FreeBlock, base: int, end: int)
    requires
        gap_insert_ok(s, k, b, base, end),
        !(k < s.len() && block_end(b) == s[k].start),
        k > 0 && block_end(s[k - 1]) == b.start,
    ensures
        coalesce(s, k, b) == s.update(k - 1, FreeBlock { start: s[k - 1].start, size: (s[k - 1].size + b.size) as u64 }),
        gaps_between(coalesce(s, k, b)),
        in_bounds(coalesce(s, k, b), base, end),
        sum(free_sizes(coalesce(s, k, b))) == sum(free_sizes(s)) + b.size,
{
    reveal(coalesce);
    reveal(coalesce_next);
    let p = FreeBlock { start: s[k - 1].start, size: (s[k - 1].size + b.size) as u64 };
    let c1 = s.insert(k, b);
    let r = s.update(k - 1, p);
    assert(coalesce_next(s, k, b) =~= c1);
    assert(c1[k - 1] == s[k - 1] && c1[k] == b);
    assert(coalesce(s, k, b) =~= r);
    lemma_sum_update(free_sizes(s), k - 1, p.size as int);
    assert(free_sizes(r) =~= free_sizes(s).update(k - 1, p.size as int));
    assert forall|i: int| 0 <= i < r.len() - 1 implies block_end(#[trigger] r[i]) < r[i + 1].start by {
        assert(block_end(s[i]) < s[i + 1].start);
    }
}

proof fn lemma_case_both(s: Seq<FreeBlock>, k: int, b: FreeBlock, base: int, end: int)
    requires
        gap_insert_ok(s, k, b, base, end),
        k < s.len() && block_end(b) == s[k].start,
        k > 0 && block_end(s[k - 1]) == b.start,
    ensures
        coalesce(s, k, b) == s.update(k - 1, FreeBlock { start: s[k - 1].start, size: (s[k - 1].size + b.size + s[k].size) as u64 }).remove(k),
        gaps_between(coalesce(s, k, b)),
        in_bounds(coalesce(s, k, b), base, end),
        sum(free_sizes(coalesce(s, k, b))) == sum(free_sizes(s)) + b.size,
{
    reveal(coalesce);
    reveal(coalesce_next);
    let m = FreeBlock { start: b.start, size: (b.size + s[k].size) as u64 };
    let q = FreeBlock { start: s[k - 1].start, size: (s[k - 1].size + b.size + s[k].size) as u64 };
    assert(block_end(s[k]) <= end);
    let c1 = s.update(k, m);
    assert(coalesce_next(s, k, b) =~= c1);
    assert(c1[k - 1] == s[k - 1] && c1[k] == m);
    let u = s.update(k - 1, q);
    let r = u.remove(k);
    assert(coalesce(s, k, b) =~= r);
    lemma_sum_update(free_sizes(s), k - 1, q.size as int);
    assert(free_sizes(u) =~= free_sizes(s).update(k - 1, q.size as int));
    lemma_sum_remove(free_sizes(u), k);
    assert(free_sizes(r) =~= free_sizes(u).remove(k));
    assert forall|i: int| 0 <= i < r.len() - 1 implies block_end(#[trigger] r[i]) < r[i + 1].start by {
        if i < k - 1 {
            assert(block_end(s[i]) < s[i + 1].start);
        } else {
            assert(block_end(s[i + 1]) < s[i + 2].start);
        }
    }
    assert forall|i: int| 0 <= i < r.len() implies base <= (#[trigger] r[i]).start && block_end(r[i]) <= end by {
        if i >= k {
            assert(r[i] == s[i + 1]);
        }
    }
}

/// Returning a block that sits in a gap of a well-formed free list keeps it
/// well formed and adds exactly the block's size to the free total.
#[verifier::rlimit(60)]
proof fn lemma_coalesce(s: Seq<FreeBlock>, k: int, b: FreeBlock, base: int, end: int)
    requires
        free_list_ok(s, base, end),
        sorted_pos(s, k, b.start),
        forall|x: int| 0 <= x < k ==> block_end(#[trigger] s[x]) <= b.start,
        k < s.len() ==> block_end(b) <= s[k].start,
        base <= b.start,
        block_end(b) <= end,
        b.size > 0,
        end <= u64::MAX,
    ensures
        free_list_ok(coalesce(s, k, b), base, end),
        sum(free_sizes(coalesce(s, k, b))) == sum(free_sizes(s)) + b.size,
        forall|y: int| 0 <= y < coalesce_next(s, k, b).len() ==> block_end(#[trigger] coalesce_next(s, k, b)[y]) <= end,
        coalesce_next(s, k, b).len() >= 1,
{
    lemma_gaps_pairwise_from_ok(s, base, end);
    if k > 0 {
        assert(block_end(s[k - 1]) <= b.start);
    }
    assert(gap_insert_ok(s, k, b, base, end));
    let tn = k < s.len() && block_end(b) == s[k].start;
    let tp = k > 0 && block_end(s[k - 1]) == b.start;
    if tn && tp {
        lemma_case_both(s, k, b, base, end);
    } else if tn {
        lemma_case_next(s, k, b, base, end);
    } else if tp {
        lemma_case_prev(s, k, b, base, end);
    } else {
        lemma_case_plain(s, k, b, base, end);
    }
    lemma_gaps_pairwise(coalesce(s, k, b));
    reveal(coalesce_next);
    let c1 = coalesce_next(s, k, b);
    if tn {
        assert(block_end(s[k]) <= end);
        assert(c1 =~= s.update(k, FreeBlock { start: b.start, size: (b.size + s[k].size) as u64 }));
        assert forall|y: int| 0 <= y < c1.len() implies block_end(#[trigger] c1[y]) <= end by {
            if y != k {
                assert(c1[y] == s[y]);
            }
        }
    } else {
        assert(c1 =~= s.insert(k, b));
        assert forall|y: int| 0 <= y < c1.len() implies block_end(#[trigger] c1[y]) <= end by {
            if y < k {
                assert(c1[y] == s[y]);
            } else if y > k {
                assert(c1[y] == s[y - 1]);
            }
        }
    }
}

proof fn lemma_gaps_pairwise_from_ok(s: Seq<FreeBlock>, base: int, end: int)
    requires
        free_list_ok(s, base, end),
    ensures
        gaps_between(s),
{
    assert forall|i: int| 0 <= i < s.len() - 1 implies block_end(#[trigger] s[i]) < s[i + 1].start by {
        assert(block_end(s[i]) < s[i + 1].start);
    }
}

/// An allocation clear of the returned block and of every free block stays
/// clear of every block of the coalesced list.
proof fn lemma_coalesce_disjoint(s: Seq<FreeBlock>, k: int, b: FreeBlock, a: Allocation)
    requires
        0 <= k <= s.len(),
        a.block_start < alloc_end(a),
        disjoint(a, b),
        forall|x: int| 0 <= x < s.len() ==> disjoint(a, #[trigger] s[x]),
    ensures
        forall|y: int| 0 <= y < coalesce(s, k, b).len() ==> disjoint(a, #[trigger] coalesce(s, k, b)[y]),
{
    reveal(coalesce);
    reveal(coalesce_next);
    let c1 = coalesce_next(s, k, b);
    let r = coalesce(s, k, b);
    assert forall|y: int| 0 <= y < c1.len() implies disjoint(a, #[trigger] c1[y]) by {
        if k < s.len() && b.start + b.size == s[k].start && y == k {
            assert(disjoint(a, s[k]));
        } else if k < s.len() && b.start + b.size == s[k].start {
            if y < k {
                assert(c1[y] == s[y]);
            } else {
                assert(c1[y] == s[y]);
            }
        } else {
            if y < k {
                assert(c1[y] == s[y]);
            } else if y > k {
                assert(c1[y] == s[y - 1]);
            }
        }
    }
    assert forall|y: int| 0 <= y < r.len() implies disjoint(a, #[trigger] r[y]) by {
        if k > 0 && c1[k - 1].start + c1[k - 1].size == b.start {
            if y == k - 1 {
                assert(disjoint(a, c1[k - 1]));
                assert(disjoint(a, c1[k]));
            } else if y < k - 1 {
                assert(r[y] == c1[y]);
            } else {
                assert(r[y] == c1[y + 1]);
            }
        } else {
            assert(r[y] == c1[y]);
        }
    }
}

/// Freeing what was just allocated gives the free list back unchanged: the
/// block carved for a request, returned at its sorted position, coalesces back
/// into exactly the block it came from.
pub proof fn law_alloc_then_free_restores(s: Seq<FreeBlock>, i: int, total: int, base: int, end: int)
    requires
        free_list_ok(s, base, end),
        0 <= i < s.len(),
        0 < total <= s[i].size,
        end <= u64::MAX,
    ensures
        sorted_pos(carve(s, i, total), i, s[i].start),
        coalesce(carve(s, i, total), i, FreeBlock { start: s[i].start, size: carved_size(s[i], total) }) == s,
{
    reveal(coalesce);
    reveal(coalesce_next);
    let c = carve(s, i, total);
    let b = FreeBlock { start: s[i].start, size: carved_size(s[i], total) };
    assert forall|x: int| 0 <= x < i implies (#[trigger] c[x]).start < s[i].start by {
        assert(block_end(s[x]) < s[i].start);
    }
    if i > 0 {
        assert(block_end(s[i - 1]) < s[i].start);
    }
    if s[i].size - total >= MIN_BLOCK {
        let rest = FreeBlock { start: (s[i].start + total) as u64, size: (s[i].size - total) as u64 };
        assert(c == s.update(i, rest));
        let s1 = c.insert(i, b);
        assert(s1[i + 1] == rest);
        let s2 = s1.update(i, FreeBlock { start: b.start, size: (b.size + s1[i + 1].size) as u64 }).remove(i + 1);
        assert(s2 =~= s);
        assert(coalesce_next(c, i, b) == s2);
        if i > 0 {
            assert(s2[i - 1] == s[i - 1]);
        }
    } else {
        assert(c == s.remove(i));
        let s1 = c.insert(i, b);
        assert(s1 =~= s);
        if i + 1 < s.len() {
            assert(block_end(s[i]) < s[i + 1].start);
        }
        assert(coalesce_next(c, i, b) == s1);
        if i > 0 {
            assert(s1[i - 1] == s[i - 1]);
        }
    }
}

/// At most one position is the sorted position of a start address.
proof fn lemma_sorted_pos_unique(s: Seq<FreeBlock>, k1: int, k2: int, start: u64)
    requires
        sorted_pos(s, k1, start),
        sorted_pos(s, k2, start),
    ensures
        k1 == k2,
{
    if k1 < k2 {
        assert(s[k1].start < start);
    } else if k2 < k1 {
        assert(s[k2].start < start);
    }
}

/// Freeing the block an allocation just returned restores the heap: whatever
/// the free list was (one block right after `heap_init`, or any other), a
/// successful `heap_alloc` followed by `heap_dealloc` of its pointer leaves
/// the same free list and the same allocations, with no fragmentation.
pub proof fn law_free_after_alloc_restores_heap(h0: KernelAllocator, size: u64, align: u64, p: u64, h1: KernelAllocator, h2: KernelAllocator)
    requires
        h0.wf(),
        h1.wf(),
        p != 0,
        h1.is_ready(),
        exists|i: int| {
            &&& 0 <= i < h0.free_list().len()
            &&& block_fits(#[trigger] h0.free_list()[i], size, align)
            &&& p == payload_at(h0.free_list()[i].start as int, align)
            &&& h1.free_list() == carve(h0.free_list(), i, block_total(h0.free_list()[i].start as int, size, align))
            &&& h1.allocations() == h0.allocations().push(Allocation {
                ptr: p,
                block_start: h0.free_list()[i].start,
                block_size: carved_size(h0.free_list()[i], block_total(h0.free_list()[i].start as int, size, align)),
            })
        },
        exists|j: int, k: int| #![trigger h1.allocations()[j], sorted_pos(h1.free_list(), k, h1.allocations()[j].block_start)] {
            let a = h1.allocations()[j];
            &&& 0 <= j < h1.allocations().len()
            &&& a.ptr == p
            &&& h2.allocations() == h1.allocations().remove(j)
            &&& sorted_pos(h1.free_list(), k, a.block_start)
            &&& h2.free_list() == coalesce(h1.free_list(), k, FreeBlock { start: a.block_start, size: a.block_size })
        },
    ensures
        h2.free_list() == h0.free_list(),
        h2.allocations() == h0.allocations(),
{
    let i = choose|i: int| {
        &&& 0 <= i < h0.free_list().len()
        &&& block_fits(#[trigger] h0.free_list()[i], size, align)
        &&& p == payload_at(h0.free_list()[i].start as int, align)
        &&& h1.free_list() == carve(h0.free_list(), i, block_total(h0.free_list()[i].start as int, size, align))
        &&& h1.allocations() == h0.allocations().push(Allocation {
            ptr: p,
            block_start: h0.free_list()[i].start,
            block_size: carved_size(h0.free_list()[i], block_total(h0.free_list()[i].start as int, size, align)),
        })
    };
    let (j, k) = choose|j: int, k: int| #![trigger h1.allocations()[j], sorted_pos(h1.free_list(), k, h1.allocations()[j].block_start)] {
        let a = h1.allocations()[j];
        &&& 0 <= j < h1.allocations().len()
        &&& a.ptr == p
        &&& h2.allocations() == h1.allocations().remove(j)
        &&& sorted_pos(h1.free_list(), k, a.block_start)
        &&& h2.free_list() == coalesce(h1.free_list(), k, FreeBlock { start: a.block_start, size: a.block_size })
    };
    let s = h0.free_list();
    let b = s[i];
    let start = b.start as int;
    let total = block_total(start, size, align);
    let last = h1.allocations().len() - 1;
    // the pointer is the new allocation's: pointers of distinct allocations differ
    if j != last {
        let x = h1.allocations()[j];
        let y = h1.allocations()[last];
        assert(allocs_disjoint(x, y));
        assert(false);
    }
    assert(h1.allocations().remove(j) =~= h0.allocations());
    // the carved block is returned at position i, and coalesces back
    lemma_round_up(start + HEADER, eff_align(align));
    lemma_round_up(HEADER + (payload_at(start, align) - (start + HEADER)) + eff_need(size), MIN_BLOCK as int);
    law_alloc_then_free_restores(s, i, total, h0.heap_base() as int, h0.heap_base() + h0.heap_size());
    lemma_sorted_pos_unique(h1.free_list(), k, i, b.start);
}

} // verus!
