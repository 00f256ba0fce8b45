//! User address spaces over x86-64 four-level page tables: demand paging of
//! the user heap window, per-process tables, fork with copy-on-write frame
//! sharing, and the mmap/munmap/mprotect page operations.
//!
//! Physical memory is a sequence of 64-bit words (word `i` holds bytes
//! `[8 i, 8 i + 8)`); an access outside it reads 0 and writes nothing, as
//! for memory that is not there. Frames come from the frame allocator and
//! arrive zeroed. Each frame also carries a copy-on-write count: the number
//! of owners beyond the first. The CR3 value a call walks is its argument.

use vstd::prelude::*;
use crate::pmm::{Pmm, AllocState, alloc_pick, alloc_after, free_after, alloc_ok, frame_range, lemma_alloc_pick_picks, run_free, MAX_FRAMES};

verus! {

pub const FRAME_SIZE: u64 = 4096;

/// Physical-address bits of a page-table entry.
pub const PHYS_MASK: u64 = 0x000F_FFFF_FFFF_F000;

/// Present | writable | user.
pub const PTE_P_W_U: u64 = 0x07;

/// Present | user, read-only.
pub const PTE_P_U: u64 = 0x05;

pub const PTE_W: u64 = 0x02;

/// No-execute (bit 63).
pub const PTE_NX: u64 = 0x8000_0000_0000_0000;

/// Software bit 9: a copy-on-write page, as opposed to a read-only mapping.
pub const PTE_COW: u64 = 0x200;

/// The demand-paged user window [16 MiB, 32 MiB) and its frame quota.
pub const DEMAND_BASE: u64 = 0x0100_0000;
pub const DEMAND_END: u64 = 0x0200_0000;
pub const DEMAND_MAX_FRAMES: u64 = 2048;

/// Stacks of spawned tasks: 128 KiB strides from 25 MiB, whose lowest
/// 16 KiB is a guard zone never mapped.
pub const DEMAND_STACK_BASE: u64 = 0x0190_0000;
pub const DEMAND_STACK_STRIDE: u64 = 0x2_0000;
pub const DEMAND_STACK_GUARD: u64 = 0x4000;

/// The executable window [20 MiB, 24 MiB): pages there are mapped without NX.
pub const EXEC_WINDOW_BASE: u64 = 0x0140_0000;
pub const EXEC_WINDOW_END: u64 = 0x0180_0000;

// ---------------- the model ----------------

/// Physical memory, the frame allocator, the per-frame copy-on-write counts
/// and the count of demand-mapped data frames.
pub struct VmView {
    pub mem: Seq<u64>,
    pub alloc: AllocState,
    pub cow: Seq<u8>,
    pub demand: int,
}

/// The word at byte address `a`; 0 outside memory.
pub open spec fn rd(m: Seq<u64>, a: int) -> u64 {
    if 0 <= a && a / 8 < m.len() {
        m[a / 8]
    } else {
        0
    }
}

/// Memory after writing `v` at byte address `a`; unchanged outside memory.
pub open spec fn wr(m: Seq<u64>, a: int, v: u64) -> Seq<u64> {
    if 0 <= a && a / 8 < m.len() {
        m.update(a / 8, v)
    } else {
        m
    }
}

/// Memory with the frame at `a` zeroed.
pub open spec fn zero_frame(m: Seq<u64>, a: int) -> Seq<u64> {
    Seq::new(m.len(), |i: int| if a / 8 <= i < a / 8 + 512 { 0u64 } else { m[i] })
}

/// Memory with the frame at `dst` a copy of the frame at `src`.
pub open spec fn copy_frame(m: Seq<u64>, src: int, dst: int) -> Seq<u64> {
    Seq::new(m.len(), |i: int| if dst / 8 <= i < dst / 8 + 512 { rd(m, src + (i - dst / 8) * 8) } else { m[i] })
}

/// Memory with the `n` frames from `a` on zeroed.
pub open spec fn zero_run(m: Seq<u64>, a: int, n: int) -> Seq<u64> {
    Seq::new(m.len(), |i: int| if a / 8 <= i < a / 8 + 512 * n { 0u64 } else { m[i] })
}

/// An allocation: the frame handed out, zeroed, or None with nothing changed.
pub open spec fn alloc_zeroed(v: VmView) -> (Option<u64>, VmView) {
    match alloc_pick(v.alloc) {
        Some(f) => (Some((f * 4096) as u64), VmView { mem: zero_frame(v.mem, f * 4096), alloc: alloc_after(v.alloc, f), ..v }),
        None => (None, v),
    }
}

/// Returning frame `phys` to the allocator.
pub open spec fn free_spec(v: VmView, phys: u64) -> VmView {
    VmView { alloc: free_after(v.alloc, phys as int), ..v }
}

/// Dropping one owner of leaf frame `phys`: a shared frame loses one count;
/// the last owner frees it and rolls back the demand count.
pub open spec fn release_leaf(v: VmView, phys: u64) -> VmView {
    let idx = phys as int / 4096;
    if idx < MAX_FRAMES && v.cow[idx] > 0 {
        VmView { cow: v.cow.update(idx, (v.cow[idx] - 1) as u8), ..v }
    } else {
        VmView { alloc: free_after(v.alloc, phys as int), demand: if v.demand > 0 { v.demand - 1 } else { 0 }, ..v }
    }
}

/// Adding one owner to frame `phys` (the count saturates at 255).
pub open spec fn cow_incr_spec(v: VmView, phys: u64) -> VmView {
    let idx = phys as int / 4096;
    if idx < MAX_FRAMES {
        VmView { cow: v.cow.update(idx, if v.cow[idx] == 255 { 255u8 } else { (v.cow[idx] + 1) as u8 }), ..v }
    } else {
        v
    }
}

/// Entry index of `va` at the level whose entries map `1 << shift` bytes.
pub open spec fn idx(va: u64, shift: u64) -> u64 {
    (va >> shift) & 0x1FFu64
}

/// Address of the entry for `va` in the table at `table`.
pub open spec fn slot(table: u64, va: u64, shift: u64) -> u64 {
    (table + idx(va, shift) * 8) as u64
}

pub open spec fn present(e: u64) -> bool {
    e & 1u64 != 0
}

/// Address of the page-directory entry for `va` under the top-level table
/// `root`, when the PML4 and PDPT entries on the way are present.
pub open spec fn pd_slot(m: Seq<u64>, root: u64, va: u64) -> Option<u64> {
    let e4 = rd(m, slot(root & PHYS_MASK, va, 39) as int);
    if !present(e4) {
        None
    } else {
        let e3 = rd(m, slot(e4 & PHYS_MASK, va, 30) as int);
        if !present(e3) {
            None
        } else {
            Some(slot(e3 & PHYS_MASK, va, 21))
        }
    }
}

/// Address of the page-table entry for `va`, when every level above it is
/// present.
pub open spec fn pt_slot(m: Seq<u64>, root: u64, va: u64) -> Option<u64> {
    match pd_slot(m, root, va) {
        None => None,
        Some(ps) => {
            let e2 = rd(m, ps as int);
            if !present(e2) {
                None
            } else {
                Some(slot(e2 & PHYS_MASK, va, 12))
            }
        },
    }
}

/// Leaf flags for mmap/mprotect protection `prot` (1 read, 2 write, 4
/// execute): present and user always, writable with 2, no-execute without 4.
pub open spec fn prot_flags(prot: u64) -> u64 {
    if prot & 2u64 != 0 {
        if prot & 4u64 == 0 {
            PTE_P_U | PTE_W | PTE_NX
        } else {
            PTE_P_U | PTE_W
        }
    } else {
        if prot & 4u64 == 0 {
            PTE_P_U | PTE_NX
        } else {
            PTE_P_U
        }
    }
}

proof fn lemma_pt_bits(e: u64, va: u64, s: u64)
    by (bit_vector)
    ensures
        e & 0x000F_FFFF_FFFF_F000u64 <= 0x000F_FFFF_FFFF_F000u64,
        e & !0xFFFu64 <= e,
        (va >> s) & 0x1FFu64 <= 0x1FF,
        va & 0xFFFu64 == va % 4096,
        e & 1u64 == e % 2,
{
}

pub struct Vm {
    mem: Vec<u64>,
    pmm: Pmm,
    cow: Vec<u8>,
    demand_mapped: u64,
}

impl Vm {
    pub closed spec fn view(&self) -> VmView {
        VmView { mem: self.mem@, alloc: self.pmm.alloc_state(), cow: self.cow@, demand: self.demand_mapped as int }
    }

    pub closed spec fn wf(&self) -> bool {
        &&& self.pmm.wf()
        &&& self.cow@.len() == MAX_FRAMES
    }

    /// A system with `words` words of zeroed memory, the allocator `pmm`, no
    /// shared frames and nothing demand-mapped.
    pub fn new(pmm: Pmm, words: usize) -> (vm: Vm)
        requires
            pmm.wf(),
        ensures
            vm.wf(),
            vm@.mem == Seq::new(words as nat, |i: int| 0u64),
            vm@.alloc == pmm.alloc_state(),
            vm@.cow == Seq::new(MAX_FRAMES as nat, |i: int| 0u8),
            vm@.demand == 0,
    {
        let vm = Vm { mem: vec![0u64; words], pmm, cow: vec![0u8; MAX_FRAMES], demand_mapped: 0 };
        assert(vm.mem@ =~= Seq::new(words as nat, |i: int| 0u64));
        assert(vm.cow@ =~= Seq::new(MAX_FRAMES as nat, |i: int| 0u8));
        vm
    }

    /// The frame allocator.
    pub fn pmm(&self) -> (p: &Pmm)
        ensures
            p.alloc_state() == self@.alloc,
            self.wf() ==> p.wf(),
    {
        &self.pmm
    }

    /// Demand-mapped data frames.
    pub fn demand_mapped(&self) -> (n: u64)
        ensures
            n == self@.demand,
    {
        self.demand_mapped
    }

    /// Copy-on-write count of the frame at `phys` (0 past the table).
    pub fn cow_count(&self, phys: u64) -> (n: u8)
        requires
            self.wf(),
        ensures
            n == (if phys as int / 4096 < MAX_FRAMES { self@.cow[phys as int / 4096] } else { 0u8 }),
    {
        let i = phys / FRAME_SIZE;
        if i < MAX_FRAMES as u64 {
            self.cow[i as usize]
        } else {
            0
        }
    }

    /// The word at byte address `a`.
    pub fn read_word(&self, a: u64) -> (w: u64)
        ensures
            w == rd(self@.mem, a as int),
    {
        let i = a / 8;
        if i < self.mem.len() as u64 {
            self.mem[i as usize]
        } else {
            0
        }
    }

    /// Writes `w` at byte address `a`.
    pub fn write_word(&mut self, a: u64, w: u64)
        requires
            old(self).wf(),
        ensures
            final(self).wf(),
            final(self)@ == (VmView { mem: wr(old(self)@.mem, a as int, w), ..old(self)@ }),
    {
        let i = a / 8;
        if i < self.mem.len() as u64 {
            self.mem.set(i as usize, w);
        }
    }

    fn zero(&mut self, a: u64)
        requires
            old(self).wf(),
            a % 4096 == 0,
        ensures
            final(self).wf(),
            final(self)@ == (VmView { mem: zero_frame(old(self)@.mem, a as int), ..old(self)@ }),
    {
        let ghost m0 = self.mem@;
        let base = a / 8;
        let mut k: u64 = 0;
        while k < 512
            invariant
                k <= 512,
                base == a / 8,
                self.wf(),
                self.pmm == old(self).pmm,
                self.cow == old(self).cow,
                self.demand_mapped == old(self).demand_mapped,
                m0 == old(self).mem@,
                self.mem@.len() == m0.len(),
                forall|i: int| 0 <= i < m0.len() ==> #[trigger] self.mem@[i] == (if base <= i < base + k { 0u64 } else { m0[i] }),
            decreases 512 - k,
        {
            if base + k < self.mem.len() as u64 {
                self.mem.set((base + k) as usize, 0);
            }
            k += 1;
        }
        assert(self.mem@ =~= zero_frame(m0, a as int));
    }

    /// Takes a frame from the allocator and zeroes it.
    fn alloc_zeroed(&mut self) -> (r: Option<u64>)
        requires
            old(self).wf(),
        ensures
            final(self).wf(),
            (r, final(self)@) == alloc_zeroed(old(self)@),
            r matches Some(p) ==> p % 4096 == 0 && 1 <= p as int / 4096 < MAX_FRAMES,
    {
        let ghost p0 = self.pmm;
        let r = self.pmm.alloc_frame();
        proof {
            Pmm::lemma_alloc_functional(p0, r, self.pmm);
        }
        match r {
            Some(p) => {
                self.zero(p);
                Some(p)
            },
            None => None,
        }
    }

    /// Allocates one frame and zeroes it: the frame the allocator picks
    /// (see `Pmm::alloc_frame`), reading as zero afterwards; None, with
    /// nothing changed, when the allocator is not ready or has no free frame.
    pub fn alloc_frame(&mut self) -> (r: Option<u64>)
        requires
            old(self).wf(),
        ensures
            final(self).wf(),
            (r, final(self)@) == alloc_zeroed(old(self)@),
            r is None <==> (!old(self)@.alloc.ready || old(self)@.alloc.free.len() == 0),
            r matches Some(p) ==> {
                &&& p % 4096 == 0
                &&& 1 <= p as int / 4096 < MAX_FRAMES
                &&& Some(p as int / 4096) == alloc_pick(old(self)@.alloc)
                &&& final(self)@.alloc == alloc_after(old(self)@.alloc, p as int / 4096)
                &&& forall|b: int| p <= b < p + 4096 ==> #[trigger] rd(final(self)@.mem, b) == 0
                &&& forall|b: int| !(p <= b < p + 4096) ==> #[trigger] rd(final(self)@.mem, b) == rd(old(self)@.mem, b)
                &&& final(self)@.cow == old(self)@.cow
                &&& final(self)@.demand == old(self)@.demand
            },
    {
        let ghost v0 = *self;
        proof {
            v0.lemma_view_ok();
            lemma_alloc_pick_picks(v0@.alloc);
        }
        let r = self.alloc_zeroed();
        proof {
            if let Some(p) = r {
                let q = p as int / 4096;
                assert(q * 4096 == p);
                assert(alloc_pick(v0@.alloc) == Some(q));
                assert(self@.mem == zero_frame(v0@.mem, p as int));
                assert(p as int / 8 == q * 512);
                assert forall|b: int| p <= b < p + 4096 implies #[trigger] rd(self@.mem, b) == 0 by {
                    assert(q * 512 <= b / 8 < q * 512 + 512);
                }
                assert forall|b: int| !(p <= b < p + 4096) implies #[trigger] rd(self@.mem, b) == rd(old(self)@.mem, b) by {
                    if 0 <= b {
                        assert(!(q * 512 <= b / 8 < q * 512 + 512));
                    }
                }
            }
        }
        r
    }

    /// Allocates `count` contiguous frames (see `Pmm::alloc_frames_contig`)
    /// and zeroes them: the run reads as zero afterwards; None, with nothing
    /// changed, when the allocator has no such run.
    pub fn alloc_frames_contig(&mut self, count: usize) -> (r: Option<u64>)
        requires
            old(self).wf(),
        ensures
            final(self).wf(),
            r is None <==> (!old(self)@.alloc.ready || count == 0 || !exists|s: int|
                #[trigger] run_free(old(self)@.alloc.free, s, count as int)),
            r is None ==> final(self)@ == old(self)@,
            r matches Some(p) ==> {
                let s = p as int / 4096;
                &&& p % 4096 == 0
                &&& 1 <= s && s + count <= MAX_FRAMES
                &&& run_free(old(self)@.alloc.free, s, count as int)
                &&& forall|t: int| #[trigger] run_free(old(self)@.alloc.free, t, count as int) ==> s <= t
                &&& final(self)@.alloc == (AllocState {
                    free: old(self)@.alloc.free.difference(frame_range(s, count as int)),
                    count: old(self)@.alloc.count - count,
                    ..old(self)@.alloc
                })
                &&& final(self)@.mem == zero_run(old(self)@.mem, p as int, count as int)
                &&& final(self)@.cow == old(self)@.cow
                &&& final(self)@.demand == old(self)@.demand
            },
    {
        let ghost p0 = self.pmm;
        proof {
            p0.lemma_state_views();
        }
        let r = self.pmm.alloc_frames_contig(count);
        proof {
            self.pmm.lemma_state_views();
        }
        match r {
            None => {
                return None;
            },
            Some(p) => {
                proof {
                    Pmm::lemma_contig_functional(p0, p, count, self.pmm);
                }
                let ghost m0 = self.mem@;
                let mut k: usize = 0;
                while k < count
                    invariant
                        self.wf(),
                        k <= count,
                        p % 4096 == 0,
                        p as int / 4096 + count <= MAX_FRAMES,
                        self@.mem == zero_run(m0, p as int, k as int),
                        self@.alloc == (AllocState {
                            free: old(self)@.alloc.free.difference(frame_range(p as int / 4096, count as int)),
                            count: old(self)@.alloc.count - count,
                            ..old(self)@.alloc
                        }),
                        self@.cow == old(self)@.cow,
                        self@.demand == old(self)@.demand,
                        m0 == old(self)@.mem,
                    decreases count - k,
                {
                    let ghost mk = self@.mem;
                    self.zero(p + k as u64 * 4096);
                    k += 1;
                    assert(self@.mem =~= zero_run(m0, p as int, k as int));
                }
                Some(p)
            },
        }
    }

    /// Returns frame `phys` to the allocator.
    fn free(&mut self, phys: u64)
        requires
            old(self).wf(),
        ensures
            final(self).wf(),
            final(self)@ == free_spec(old(self)@, phys),
    {
        let ghost p0 = self.pmm;
        self.pmm.free_frame(phys);
        proof {
            Pmm::lemma_free_functional(p0, phys, self.pmm);
        }
    }

    /// Drops one owner of leaf frame `phys`; the last owner frees it.
    fn cow_release_leaf(&mut self, phys: u64)
        requires
            old(self).wf(),
        ensures
            final(self).wf(),
            final(self)@ == release_leaf(old(self)@, phys),
    {
        let i = phys / FRAME_SIZE;
        if i < MAX_FRAMES as u64 && self.cow[i as usize] > 0 {
            let c = self.cow[i as usize];
            self.cow.set(i as usize, c - 1);
            return;
        }
        self.free(phys);
        if self.demand_mapped > 0 {
            self.demand_mapped = self.demand_mapped - 1;
        }
    }

    /// Adds one owner to frame `phys`.
    fn cow_incr(&mut self, phys: u64)
        requires
            old(self).wf(),
        ensures
            final(self).wf(),
            final(self)@ == cow_incr_spec(old(self)@, phys),
    {
        let i = phys / FRAME_SIZE;
        if i < MAX_FRAMES as u64 {
            let c = self.cow[i as usize];
            self.cow.set(i as usize, c.saturating_add(1));
        }
    }

    /// Address of the PD entry for `va` under `root`, if the levels above are present.
    fn find_pd_slot(&self, root: u64, va: u64) -> (r: Option<u64>)
        ensures
            r == pd_slot(self@.mem, root, va),
    {
        proof {
            lemma_pt_bits(root, va, 39);
        }
        let pml4e = self.read_word((root & PHYS_MASK) + ((va >> 39) & 0x1FF) * 8);
        if pml4e & 1 == 0 {
            return None;
        }
        proof {
            lemma_pt_bits(pml4e, va, 30);
        }
        let pdpte = self.read_word((pml4e & PHYS_MASK) + ((va >> 30) & 0x1FF) * 8);
        if pdpte & 1 == 0 {
            return None;
        }
        proof {
            lemma_pt_bits(pdpte, va, 21);
        }
        Some((pdpte & PHYS_MASK) + ((va >> 21) & 0x1FF) * 8)
    }

    /// Address of the PT entry for `va` under `root`, if every level is present.
    fn find_pt_slot(&self, root: u64, va: u64) -> (r: Option<u64>)
        ensures
            r == pt_slot(self@.mem, root, va),
    {
        let ps = match self.find_pd_slot(root, va) {
            Some(s) => s,
            None => return None,
        };
        let pde = self.read_word(ps);
        if pde & 1 == 0 {
            return None;
        }
        proof {
            lemma_pt_bits(pde, va, 12);
        }
        Some((pde & PHYS_MASK) + ((va >> 12) & 0x1FF) * 8)
    }
}

pub open spec fn protect_spec(v: VmView, root: u64, va: u64, prot: u64) -> (bool, VmView) {
    match pt_slot(v.mem, root, va) {
        None => (false, v),
        Some(s) => {
            let pte = rd(v.mem, s as int);
            if !present(pte) {
                (false, v)
            } else {
                (true, VmView { mem: wr(v.mem, s as int, (pte & PHYS_MASK) | prot_flags(prot)), ..v })
            }
        },
    }
}

pub open spec fn unmap_spec(v: VmView, root: u64, va: u64) -> (bool, VmView) {
    match pt_slot(v.mem, root, va) {
        None => (false, v),
        Some(s) => {
            let pte = rd(v.mem, s as int);
            if !present(pte) {
                (false, v)
            } else {
                (true, release_leaf(VmView { mem: wr(v.mem, s as int, 0), ..v }, pte & PHYS_MASK))
            }
        },
    }
}

/// Mapping a fresh frame with flags `flags` at leaf slot `s`, unless one is
/// there already (`already` is then the result).
pub open spec fn leaf_map(v: VmView, s: u64, flags: u64, already: bool) -> (bool, VmView) {
    if present(rd(v.mem, s as int)) {
        (already, v)
    } else {
        match alloc_zeroed(v) {
            (None, v1) => (false, v1),
            (Some(f), v1) => (true, VmView { mem: wr(v1.mem, s as int, f | flags), demand: v1.demand + 1, ..v1 }),
        }
    }
}

/// The PT for PD slot `ps`: the present one, or a fresh zeroed table linked
/// in (present, writable, user). None when no frame is left for it.
pub open spec fn pt_for(v: VmView, ps: u64) -> Option<(u64, VmView)> {
    let pde = rd(v.mem, ps as int);
    if present(pde) {
        Some((pde & PHYS_MASK, v))
    } else {
        match alloc_zeroed(v) {
            (None, _) => None,
            (Some(pt), v1) => Some(((pt | PTE_P_W_U) & PHYS_MASK, VmView { mem: wr(v1.mem, ps as int, pt | PTE_P_W_U), ..v1 })),
        }
    }
}

/// Mapping `va` through the page-directory entry at `ps`: the page table is
/// the present one or a fresh one, then the leaf as `leaf_map` says.
pub open spec fn map_at_pd(v: VmView, ps: u64, va: u64, prot: u64) -> (bool, VmView) {
    match pt_for(v, ps) {
        None => (false, alloc_zeroed(v).1),
        Some((pt, v1)) => leaf_map(v1, slot(pt, va, 12), prot_flags(prot), true),
    }
}

/// What mmap does to the address space rooted at `root`: a missing PDPT,
/// page directory or page table on the walk to `va` is allocated (zeroed)
/// and linked, present, writable and user; then a fresh zeroed frame is
/// mapped with the flags of `prot`, unless a page is there already. It fails
/// only when a frame cannot be had; tables linked before that stay linked.
pub open spec fn map_spec(v: VmView, root: u64, va: u64, prot: u64) -> (bool, VmView) {
    match pd_slot(v.mem, root, va) {
        Some(ps) => map_at_pd(v, ps, va, prot),
        None => match pt_for(v, slot(root & PHYS_MASK, va, 39)) {
            None => (false, v),
            Some((t3, v1)) => match pt_for(v1, slot(t3, va, 30)) {
                None => (false, v1),
                Some((t2, v2)) => map_at_pd(v2, slot(t2, va, 21), va, prot),
            },
        },
    }
}

impl Vm {
    /// The PT for PD slot `ps`, allocating and linking a zeroed one if absent.
    fn ensure_pt(&mut self, ps: u64) -> (r: Option<u64>)
        requires
            old(self).wf(),
        ensures
            final(self).wf(),
            match pt_for(old(self)@, ps) {
                None => r is None && final(self)@ == alloc_zeroed(old(self)@).1,
                Some((pt, v1)) => r == Some(pt) && final(self)@ == v1,
            },
            r matches Some(p) ==> p <= PHYS_MASK,
    {
        let pde = self.read_word(ps);
        if pde & 1 != 0 {
            proof {
                lemma_pt_bits(pde, 0, 0);
            }
            return Some(pde & PHYS_MASK);
        }
        let pt = match self.alloc_zeroed() {
            Some(p) => p,
            None => return None,
        };
        self.write_word(ps, pt | PTE_P_W_U);
        proof {
            lemma_pt_bits(pt | PTE_P_W_U, 0, 0);
        }
        Some((pt | PTE_P_W_U) & PHYS_MASK)
    }

    /// Map one user page at `va` with protection `prot` (1 R, 2 W, 4 X) in the
    /// address space rooted at `cr3`, allocating any missing table on the
    /// way. True if a page is mapped there afterwards (a present one is left
    /// as it is); false only when no frame is left.
    pub fn vm_map_current(&mut self, cr3: u64, va: u64, prot: u64) -> (ok: bool)
        requires
            old(self).wf(),
            old(self)@.demand < u64::MAX,
        ensures
            final(self).wf(),
            (ok, final(self)@) == map_spec(old(self)@, cr3, va, prot),
    {
        let ps = match self.find_pd_slot(cr3, va) {
            Some(s) => s,
            None => {
                proof {
                    lemma_pt_bits(cr3, va, 39);
                }
                let s4 = (cr3 & PHYS_MASK) + ((va >> 39) & 0x1FF) * 8;
                let t3 = match self.ensure_pt(s4) {
                    Some(t) => t,
                    None => return false,
                };
                proof {
                    lemma_pt_bits(t3, va, 30);
                }
                let s3 = t3 + ((va >> 30) & 0x1FF) * 8;
                let t2 = match self.ensure_pt(s3) {
                    Some(t) => t,
                    None => return false,
                };
                proof {
                    lemma_pt_bits(t2, va, 21);
                }
                t2 + ((va >> 21) & 0x1FF) * 8
            },
        };
        let pt = match self.ensure_pt(ps) {
            Some(p) => p,
            None => return false,
        };
        proof {
            lemma_pt_bits(pt, va, 12);
        }
        let s = pt + ((va >> 12) & 0x1FF) * 8;
        if self.read_word(s) & 1 != 0 {
            return true;
        }
        let frame = match self.alloc_zeroed() {
            Some(f) => f,
            None => return false,
        };
        let mut flags = PTE_P_U;
        if prot & 2 != 0 {
            flags = flags | PTE_W;
        }
        if prot & 4 == 0 {
            flags = flags | PTE_NX;
        }
        self.write_word(s, frame | flags);
        self.demand_mapped = self.demand_mapped + 1;
        true
    }

    /// Unmap the user page at `va` in the address space rooted at `cr3`,
    /// releasing its frame (a shared frame only loses an owner). True if a
    /// page was mapped there.
    pub fn vm_unmap_current(&mut self, cr3: u64, va: u64) -> (ok: bool)
        requires
            old(self).wf(),
        ensures
            final(self).wf(),
            (ok, final(self)@) == unmap_spec(old(self)@, cr3, va),
    {
        let s = match self.find_pt_slot(cr3, va) {
            Some(s) => s,
            None => return false,
        };
        let pte = self.read_word(s);
        if pte & 1 == 0 {
            return false;
        }
        self.write_word(s, 0);
        self.cow_release_leaf(pte & PHYS_MASK);
        true
    }

    /// Change the protection of the mapped user page at `va` (1 R, 2 W, 4 X),
    /// keeping its frame and dropping any copy-on-write mark. True if a page
    /// was mapped there.
    pub fn vm_protect_current(&mut self, cr3: u64, va: u64, prot: u64) -> (ok: bool)
        requires
            old(self).wf(),
        ensures
            final(self).wf(),
            (ok, final(self)@) == protect_spec(old(self)@, cr3, va, prot),
    {
        let s = match self.find_pt_slot(cr3, va) {
            Some(s) => s,
            None => return false,
        };
        let pte = self.read_word(s);
        if pte & 1 == 0 {
            return false;
        }
        let mut flags = PTE_P_U;
        if prot & 2 != 0 {
            flags = flags | PTE_W;
        }
        if prot & 4 == 0 {
            flags = flags | PTE_NX;
        }
        self.write_word(s, (pte & PHYS_MASK) | flags);
        true
    }
}

// ---------------- demand paging ----------------

/// A fault at `va` may be served by demand paging: the allocator is up, `va`
/// lies in the demand window but not in a stack guard zone, and the quota
/// of demand frames is not used up.
pub open spec fn demand_allowed(v: VmView, va: u64) -> bool {
    &&& v.alloc.ready
    &&& DEMAND_BASE <= va < DEMAND_END
    &&& !(va >= DEMAND_STACK_BASE && (va - DEMAND_STACK_BASE) % (DEMAND_STACK_STRIDE as int) < DEMAND_STACK_GUARD)
    &&& v.demand < DEMAND_MAX_FRAMES
}

/// Leaf flags of a demand page: present, writable, user; no-execute outside
/// the executable window.
pub open spec fn demand_flags(va: u64) -> u64 {
    if EXEC_WINDOW_BASE <= va < EXEC_WINDOW_END {
        PTE_P_W_U
    } else {
        PTE_P_W_U | PTE_NX
    }
}

/// The PD entry for a demand fault: through PML4 entry 0 and PDPT entry 0
/// (the whole demand window lies in the first GiB).
pub open spec fn demand_pd_slot(m: Seq<u64>, root: u64, va: u64) -> Option<u64> {
    let e4 = rd(m, (root & PHYS_MASK) as int);
    if !present(e4) {
        None
    } else {
        let e3 = rd(m, (e4 & PHYS_MASK) as int);
        if !present(e3) {
            None
        } else {
            Some(slot(e3 & PHYS_MASK, va, 21))
        }
    }
}

pub open spec fn demand_spec(v: VmView, root: u64, va: u64) -> (bool, VmView) {
    if !demand_allowed(v, va) {
        (false, v)
    } else {
        match demand_pd_slot(v.mem, root, va) {
            None => (false, v),
            Some(ps) => match pt_for(v, ps) {
                None => (false, v),
                Some((pt, v1)) => leaf_map(v1, slot(pt, va, 12), demand_flags(va), false),
            },
        }
    }
}

/// "MM: demand map va=0x".
pub open spec fn demand_msg() -> Seq<u8> {
    seq![0x4Du8, 0x4D, 0x3A, 0x20, 0x64, 0x65, 0x6D, 0x61, 0x6E, 0x64, 0x20, 0x6D, 0x61, 0x70, 0x20, 0x76, 0x61, 0x3D, 0x30, 0x78]
}

fn demand_msg_bytes() -> (r: [u8; 20])
    ensures
        r@ == demand_msg(),
{
    let r = [0x4Du8, 0x4D, 0x3A, 0x20, 0x64, 0x65, 0x6D, 0x61, 0x6E, 0x64, 0x20, 0x6D, 0x61, 0x70, 0x20, 0x76, 0x61, 0x3D, 0x30, 0x78];
    assert(r@ =~= demand_msg());
    r
}

pub open spec fn get_page_spec(v: VmView, root: u64, va: u64) -> (Option<u64>, VmView) {
    match pd_slot(v.mem, root, va) {
        None => (None, v),
        Some(ps) => match pt_for(v, ps) {
            None => (None, v),
            Some((pt, v1)) => {
                let s = slot(pt, va, 12);
                let pte = rd(v1.mem, s as int);
                if present(pte) {
                    (Some(pte & PHYS_MASK), v1)
                } else {
                    match alloc_zeroed(v1) {
                        (None, v2) => (None, v2),
                        (Some(f), v2) => (Some(f), VmView { mem: wr(v2.mem, s as int, f | demand_flags(va)), demand: v2.demand + 1, ..v2 }),
                    }
                }
            },
        },
    }
}

impl Vm {
    /// Serve a user page fault at `va` in the address space rooted at `cr3` by
    /// mapping a fresh zeroed frame; true when mapped (the faulting access is
    /// retried). Refused outside the demand window, in a stack guard zone,
    /// over the quota, when a table level above the page directory is missing,
    /// when the page is already present (a protection fault), and when no
    /// frame is left. A mapping in the first 64 KiB of the window is logged.
    pub fn try_demand_map(&mut self, out: &mut Vec<u8>, cr3: u64, va: u64) -> (ok: bool)
        requires
            old(self).wf(),
        ensures
            final(self).wf(),
            (ok, final(self)@) == demand_spec(old(self)@, cr3, va),
            final(out)@ == old(out)@ + (if ok && va < DEMAND_BASE + 0x1_0000 {
                demand_msg() + crate::serial::hex16(va & !0xFFFu64) + seq![0x0Au8]
            } else {
                seq![]
            }),
    {
        if !self.pmm.ready() || va < DEMAND_BASE || va >= DEMAND_END {
            assert(old(out)@ + seq![] =~= old(out)@);
            return false;
        }
        if va >= DEMAND_STACK_BASE && (va - DEMAND_STACK_BASE) % DEMAND_STACK_STRIDE < DEMAND_STACK_GUARD {
            assert(old(out)@ + seq![] =~= old(out)@);
            return false;
        }
        if self.demand_mapped >= DEMAND_MAX_FRAMES {
            assert(old(out)@ + seq![] =~= old(out)@);
            return false;
        }
        assert(old(out)@ + seq![] =~= old(out)@);
        proof {
            lemma_pt_bits(cr3, va, 21);
        }
        let pml4e = self.read_word(cr3 & PHYS_MASK);
        if pml4e & 1 == 0 {
            return false;
        }
        proof {
            lemma_pt_bits(pml4e, va, 21);
        }
        let pdpte = self.read_word(pml4e & PHYS_MASK);
        if pdpte & 1 == 0 {
            return false;
        }
        proof {
            lemma_pt_bits(pdpte, va, 21);
        }
        let ps = (pdpte & PHYS_MASK) + ((va >> 21) & 0x1FF) * 8;
        let pt = match self.ensure_pt(ps) {
            Some(p) => p,
            None => return false,
        };
        proof {
            lemma_pt_bits(pt, va, 12);
        }
        let s = pt + ((va >> 12) & 0x1FF) * 8;
        if self.read_word(s) & 1 != 0 {
            return false;
        }
        let frame = match self.alloc_zeroed() {
            Some(f) => f,
            None => return false,
        };
        let flags = if va >= EXEC_WINDOW_BASE && va < EXEC_WINDOW_END {
            PTE_P_W_U
        } else {
            PTE_P_W_U | PTE_NX
        };
        self.write_word(s, frame | flags);
        self.demand_mapped = self.demand_mapped + 1;
        if va < DEMAND_BASE + 0x1_0000 {
            crate::serial::serial_write(out, &demand_msg_bytes());
            crate::serial::serial_write_hex(out, va & !0xFFF);
            crate::serial::serial_write(out, &[0x0Au8]);
            assert(out@ =~= old(out)@ + (demand_msg() + crate::serial::hex16(va & !0xFFFu64) + seq![0x0Au8]));
        }
        true
    }

    /// The frame backing user page `va` in the address space rooted at `root`,
    /// mapping a fresh zeroed one (and a page table, if missing) when absent.
    /// None when a level above the page directory is missing or no frame is
    /// left.
    pub fn as_get_page(&mut self, root: u64, va: u64) -> (r: Option<u64>)
        requires
            old(self).wf(),
            old(self)@.demand < u64::MAX,
        ensures
            final(self).wf(),
            (r, final(self)@) == get_page_spec(old(self)@, root, va),
            r matches Some(f) ==> f <= PHYS_MASK,
    {
        let ps = match self.find_pd_slot(root, va) {
            Some(s) => s,
            None => return None,
        };
        let pt = match self.ensure_pt(ps) {
            Some(p) => p,
            None => return None,
        };
        proof {
            lemma_pt_bits(pt, va, 12);
        }
        let s = pt + ((va >> 12) & 0x1FF) * 8;
        let pte = self.read_word(s);
        if pte & 1 != 0 {
            proof {
                lemma_pt_bits(pte, 0, 0);
            }
            return Some(pte & PHYS_MASK);
        }
        let frame = match self.alloc_zeroed() {
            Some(f) => f,
            None => return None,
        };
        let flags = if va >= EXEC_WINDOW_BASE && va < EXEC_WINDOW_END {
            PTE_P_W_U
        } else {
            PTE_P_W_U | PTE_NX
        };
        self.write_word(s, frame | flags);
        self.demand_mapped = self.demand_mapped + 1;
        Some(frame)
    }
}

// ---------------- copy-on-write and address spaces ----------------

pub open spec fn cow_break_spec(v: VmView, root: u64, va: u64) -> (bool, VmView) {
    match pt_slot(v.mem, root, va) {
        None => (false, v),
        Some(s) => {
            let pte = rd(v.mem, s as int);
            let frame = pte & PHYS_MASK;
            let i = frame as int / 4096;
            if !present(pte) || pte & PTE_COW == 0 {
                (false, v)
            } else if i < MAX_FRAMES && v.cow[i] == 0 {
                (true, VmView { mem: wr(v.mem, s as int, (pte & !PTE_COW) | PTE_W), ..v })
            } else {
                match alloc_zeroed(v) {
                    (None, v1) => (false, v1),
                    (Some(fresh), v1) => {
                        let m2 = copy_frame(v1.mem, frame as int, fresh as int);
                        let cow2 = if i < MAX_FRAMES && v1.cow[i] > 0 {
                            v1.cow.update(i, (v1.cow[i] - 1) as u8)
                        } else {
                            v1.cow
                        };
                        (true, VmView {
                            mem: wr(m2, s as int, fresh | (pte & !PHYS_MASK & !PTE_COW) | PTE_W),
                            cow: cow2,
                            demand: v1.demand + 1,
                            ..v1
                        })
                    },
                }
            }
        },
    }
}

pub open spec fn create_spec(v: VmView, src: u64) -> (Option<u64>, VmView) {
    match alloc_zeroed(v) {
        (None, v1) => (None, v1),
        (Some(pml4), v1) => match alloc_zeroed(v1) {
            (None, v2) => (None, free_spec(v2, pml4)),
            (Some(pdpt), v2) => match alloc_zeroed(v2) {
                (None, v3) => (None, free_spec(free_spec(v3, pdpt), pml4)),
                (Some(pd), v3) => {
                    let m4 = copy_frame(v3.mem, (src & PHYS_MASK) as int, pml4 as int);
                    let m5 = wr(m4, pml4 as int, pdpt | PTE_P_W_U);
                    (Some(pml4), VmView { mem: wr(m5, pdpt as int, pd | PTE_P_W_U), ..v3 })
                },
            },
        },
    }
}

impl Vm {
    /// Copies the frame at `src` over the frame at `dst`.
    fn copy(&mut self, src: u64, dst: u64)
        requires
            old(self).wf(),
            src % 4096 == 0,
            dst % 4096 == 0,
            src <= PHYS_MASK,
        ensures
            final(self).wf(),
            final(self)@ == (VmView { mem: copy_frame(old(self)@.mem, src as int, dst as int), ..old(self)@ }),
    {
        let ghost m0 = self.mem@;
        let mut k: u64 = 0;
        while k < 512
            invariant
                k <= 512,
                src % 4096 == 0,
                dst % 4096 == 0,
                src <= PHYS_MASK,
                self.wf(),
                self.pmm == old(self).pmm,
                self.cow == old(self).cow,
                self.demand_mapped == old(self).demand_mapped,
                m0 == old(self).mem@,
                self.mem@.len() == m0.len(),
                forall|i: int| 0 <= i < m0.len() ==> #[trigger] self.mem@[i] == (if dst / 8 <= i < dst / 8 + k { rd(m0, src + (i - dst / 8) * 8) } else { m0[i] }),
            decreases 512 - k,
        {
            let a = src + k * 8;
            assert(a / 8 == src / 8 + k);
            assert(rd(self.mem@, a as int) == rd(m0, a as int));
            let w = self.read_word(a);
            if dst / 8 + k < self.mem.len() as u64 {
                self.mem.set((dst / 8 + k) as usize, w);
            }
            k += 1;
        }
        assert(self.mem@ =~= copy_frame(m0, src as int, dst as int));
    }

    /// Resolve a write fault at `va` on a copy-on-write page of the address
    /// space rooted at `cr3`. A sole owner gets the page back writable; a
    /// sharer gets a private writable copy and drops its share. True when
    /// the fault was a copy-on-write one and is resolved (the write is
    /// retried); false for any other page or when no frame is left.
    pub fn cow_break(&mut self, cr3: u64, va: u64) -> (ok: bool)
        requires
            old(self).wf(),
            old(self)@.demand < u64::MAX,
        ensures
            final(self).wf(),
            (ok, final(self)@) == cow_break_spec(old(self)@, cr3, va),
    {
        let s = match self.find_pt_slot(cr3, va) {
            Some(s) => s,
            None => return false,
        };
        let pte = self.read_word(s);
        if pte & 1 == 0 || pte & PTE_COW == 0 {
            return false;
        }
        let frame = pte & PHYS_MASK;
        let idx = frame / FRAME_SIZE;
        if idx < MAX_FRAMES as u64 && self.cow[idx as usize] == 0 {
            self.write_word(s, (pte & !PTE_COW) | PTE_W);
            return true;
        }
        let fresh = match self.alloc_zeroed() {
            Some(f) => f,
            None => return false,
        };
        proof {
            lemma_pt_bits(pte, 0, 0);
            lemma_frame_aligned(pte);
        }
        self.copy(frame, fresh);
        if idx < MAX_FRAMES as u64 && self.cow[idx as usize] > 0 {
            let c = self.cow[idx as usize];
            self.cow.set(idx as usize, c - 1);
        }
        self.write_word(s, fresh | (pte & !PHYS_MASK & !PTE_COW) | PTE_W);
        self.demand_mapped = self.demand_mapped + 1;
        true
    }

    /// A private address space cloned from the top-level table at `src`: a
    /// fresh PML4 holding a copy of every entry of the source, with entry 0
    /// replaced by a fresh PDPT whose entry 0 is a fresh, empty page
    /// directory. Returns the new PML4's address; None (all frames taken
    /// returned) when frames run out.
    pub fn address_space_create(&mut self, src: u64) -> (r: Option<u64>)
        requires
            old(self).wf(),
        ensures
            final(self).wf(),
            (r, final(self)@) == create_spec(old(self)@, src),
    {
        let pml4 = match self.alloc_zeroed() {
            Some(p) => p,
            None => return None,
        };
        let pdpt = match self.alloc_zeroed() {
            Some(p) => p,
            None => {
                self.free(pml4);
                return None;
            },
        };
        let pd = match self.alloc_zeroed() {
            Some(p) => p,
            None => {
                self.free(pdpt);
                self.free(pml4);
                return None;
            },
        };
        proof {
            lemma_pt_bits(src, 0, 0);
            lemma_frame_aligned(src);
        }
        self.copy(src & PHYS_MASK, pml4);
        self.write_word(pml4, pdpt | PTE_P_W_U);
        self.write_word(pdpt, pd | PTE_P_W_U);
        Some(pml4)
    }
}

proof fn lemma_frame_aligned(e: u64)
    by (bit_vector)
    ensures
        (e & 0x000F_FFFF_FFFF_F000u64) % 4096 == 0,
{
}

// ---------------- loading user memory ----------------

/// Memory with byte `b` stored at byte address `a` (little-endian words).
pub open spec fn wr_byte(m: Seq<u64>, a: int, b: u8) -> Seq<u64> {
    let sh = ((a % 8) * 8) as u64;
    wr(m, a / 8 * 8, (rd(m, a / 8 * 8) & !(0xFFu64 << sh)) | ((b as u64) << sh))
}

/// Memory with the bytes of `data` stored from byte address `a` on.
pub open spec fn write_bytes(m: Seq<u64>, a: int, data: Seq<u8>) -> Seq<u64>
    decreases data.len(),
{
    if data.len() == 0 {
        m
    } else {
        wr_byte(write_bytes(m, a, data.drop_last()), a + data.len() - 1, data.last())
    }
}

pub open spec fn min_int(a: int, b: int) -> int {
    if a < b {
        a
    } else {
        b
    }
}

/// Copying `data[off..]` to user address `va + off` on, page by page: each
/// page is resolved (mapped on demand) and the part of `data` that falls in
/// it is stored; stops, false, at a page that cannot be resolved.
pub open spec fn copyout_from(v: VmView, root: u64, va: u64, data: Seq<u8>, off: int) -> (bool, VmView)
    decreases data.len() - off,
{
    if off < 0 || off >= data.len() {
        (true, v)
    } else {
        let cur = (va + off) as u64;
        match get_page_spec(v, root, cur) {
            (None, v1) => (false, v1),
            (Some(f), v1) => {
                let po = cur as int % 4096;
                let n = min_int(4096 - po, data.len() - off);
                let v2 = VmView { mem: write_bytes(v1.mem, f + po, data.subrange(off, off + n)), ..v1 };
                copyout_from(v2, root, va, data, off + n)
            },
        }
    }
}

/// Resolving every page of `[va + off, va + len)`; false at the first that
/// cannot be resolved.
pub open spec fn map_zeroed_from(v: VmView, root: u64, va: u64, len: int, off: int) -> (bool, VmView)
    decreases len - off,
{
    if off < 0 || off >= len {
        (true, v)
    } else {
        let cur = (va + off) as u64;
        match get_page_spec(v, root, cur) {
            (None, v1) => (false, v1),
            (Some(f), v1) => {
                let po = cur as int % 4096;
                map_zeroed_from(v1, root, va, len, off + min_int(4096 - po, len - off))
            },
        }
    }
}

proof fn lemma_get_page_demand(v: VmView, root: u64, va: u64)
    ensures
        v.demand <= get_page_spec(v, root, va).1.demand <= v.demand + 1,
{
}

impl Vm {
    fn write_byte(&mut self, a: u64, b: u8)
        requires
            old(self).wf(),
        ensures
            final(self).wf(),
            final(self)@ == (VmView { mem: wr_byte(old(self)@.mem, a as int, b), ..old(self)@ }),
    {
        let wa = a / 8 * 8;
        let sh = (a % 8) * 8;
        let w = self.read_word(wa);
        self.write_word(wa, (w & !(0xFFu64 << sh)) | ((b as u64) << sh));
    }

    /// Copy `data` into the address space rooted at `root` at user address
    /// `va`, mapping pages as needed (how ELF segments reach a new task).
    /// False, with the pages before it written, at the first page that
    /// cannot be resolved.
    pub fn as_copyout(&mut self, root: u64, va: u64, data: &[u8]) -> (ok: bool)
        requires
            old(self).wf(),
            va + data.len() <= u64::MAX,
            old(self)@.demand + data.len() < u64::MAX,
        ensures
            final(self).wf(),
            (ok, final(self)@) == copyout_from(old(self)@, root, va, data@, 0),
    {
        let mut off: usize = 0;
        while off < data.len()
            invariant
                self.wf(),
                off <= data.len(),
                va + data.len() <= u64::MAX,
                self@.demand <= old(self)@.demand + off,
                old(self)@.demand + data.len() < u64::MAX,
                copyout_from(old(self)@, root, va, data@, 0) == copyout_from(self@, root, va, data@, off as int),
            decreases data.len() - off,
        {
            let cur = va + off as u64;
            let ghost v0 = self@;
            proof {
                lemma_get_page_demand(v0, root, cur);
            }
            let frame = match self.as_get_page(root, cur) {
                Some(f) => f,
                None => return false,
            };
            proof {
                lemma_pt_bits(0, cur, 0);
            }
            let page_off = (cur & 0xFFF) as usize;
            let n = if 0x1000 - page_off < data.len() - off { 0x1000 - page_off } else { data.len() - off };
            let ghost m1 = self@.mem;
            let mut k: usize = 0;
            while k < n
                invariant
                    self.wf(),
                    k <= n,
                    off + n <= data.len(),
                    frame <= PHYS_MASK,
                    page_off + n <= 4096,
                    self@ == (VmView { mem: write_bytes(m1, frame + page_off, data@.subrange(off as int, off + k)), ..get_page_spec(v0, root, cur).1 }),
                decreases n - k,
            {
                self.write_byte(frame + page_off as u64 + k as u64, data[off + k]);
                assert(data@.subrange(off as int, off + k + 1).drop_last() =~= data@.subrange(off as int, off + k));
                k += 1;
            }
            off += n;
        }
        true
    }

    /// Make sure every page of `[va, va + len)` in the address space rooted
    /// at `root` is mapped; fresh frames arrive zeroed (the BSS path). False
    /// at the first page that cannot be resolved.
    pub fn as_map_zeroed(&mut self, root: u64, va: u64, len: usize) -> (ok: bool)
        requires
            old(self).wf(),
            va + len <= u64::MAX,
            old(self)@.demand + len < u64::MAX,
        ensures
            final(self).wf(),
            (ok, final(self)@) == map_zeroed_from(old(self)@, root, va, len as int, 0),
    {
        let mut off: usize = 0;
        while off < len
            invariant
                self.wf(),
                off <= len,
                va + len <= u64::MAX,
                self@.demand <= old(self)@.demand + off,
                old(self)@.demand + len < u64::MAX,
                map_zeroed_from(old(self)@, root, va, len as int, 0) == map_zeroed_from(self@, root, va, len as int, off as int),
            decreases len - off,
        {
            let cur = va + off as u64;
            proof {
                lemma_get_page_demand(self@, root, cur);
            }
            if self.as_get_page(root, cur).is_none() {
                return false;
            }
            proof {
                lemma_pt_bits(0, cur, 0);
            }
            let page_off = (cur & 0xFFF) as usize;
            let n = if 0x1000 - page_off < len - off { 0x1000 - page_off } else { len - off };
            off += n;
        }
        true
    }
}

// ---------------- releasing and forking address spaces ----------------

/// Releasing the leaf frames mapped by page table `pt`, entries `j..512`.
pub open spec fn release_pt_from(v: VmView, pt: u64, j: int) -> VmView
    decreases 512 - j,
{
    if j < 0 || j >= 512 {
        v
    } else {
        let pte = rd(v.mem, pt + j * 8);
        let v1 = if present(pte) { release_leaf(v, pte & PHYS_MASK) } else { v };
        release_pt_from(v1, pt, j + 1)
    }
}

/// Releasing the page tables of directory `pd`, entries `i..512`, and the
/// leaves they map.
pub open spec fn release_pd_from(v: VmView, pd: u64, i: int) -> VmView
    decreases 512 - i,
{
    if i < 0 || i >= 512 {
        v
    } else {
        let pde = rd(v.mem, pd + i * 8);
        let v1 = if present(pde) {
            free_spec(release_pt_from(v, pde & PHYS_MASK, 0), pde & PHYS_MASK)
        } else {
            v
        };
        release_pd_from(v1, pd, i + 1)
    }
}

/// Releasing the private user subtree of the address space at `pml4`
/// (PML4 entry 0, its PDPT entry 0, that directory's tables and leaves) and
/// the PML4 itself; the cloned kernel half is left alone.
pub open spec fn release_spec(v: VmView, pml4: u64) -> VmView {
    let root = pml4 & PHYS_MASK;
    let e4 = rd(v.mem, root as int);
    let v1 = if present(e4) {
        let pdpt = e4 & PHYS_MASK;
        let e3 = rd(v.mem, pdpt as int);
        let v2 = if present(e3) {
            let pd = e3 & PHYS_MASK;
            free_spec(release_pd_from(v, pd, 0), pd)
        } else {
            v
        };
        free_spec(v2, pdpt)
    } else {
        v
    };
    free_spec(v1, root)
}

proof fn lemma_release_empty_pd(v: VmView, pd: u64, i: int)
    requires
        0 <= i <= 512,
        forall|k: int| i <= k < 512 ==> #[trigger] rd(v.mem, pd + k * 8) == 0,
    ensures
        release_pd_from(v, pd, i) == v,
    decreases 512 - i,
{
    if i < 512 {
        lemma_flag_bits(0);
        assert(rd(v.mem, pd + i * 8) == 0);
        lemma_release_empty_pd(v, pd, i + 1);
    }
}

/// Releasing an address space right after creating it gives the allocator
/// back every frame creation took (the PML4, PDPT and page directory), with
/// its free count; copy-on-write counts and the demand count are untouched,
/// and the source table the kernel half was copied from (a table in use, not
/// a free frame) reads as it did.
#[verifier::rlimit(60)]
pub proof fn law_release_undoes_create(v: VmView, src: u64)
    requires
        vm_ok(v),
        free_backed(v),
    ensures
        create_spec(v, src).0 matches Some(root) ==> {
            let w = release_spec(create_spec(v, src).1, root);
            &&& w.alloc.free == v.alloc.free
            &&& w.alloc.count == v.alloc.count
            &&& w.alloc.ready == v.alloc.ready
            &&& w.cow == v.cow
            &&& w.demand == v.demand
            &&& !v.alloc.free.contains((src & PHYS_MASK) as int / 4096) ==> forall|k: int| 0 <= k < 512
                ==> #[trigger] rd(w.mem, (src & PHYS_MASK) + k * 8) == rd(v.mem, (src & PHYS_MASK) + k * 8)
        },
{
    lemma_alloc_pick_picks(v.alloc);
    if let Some(f1) = alloc_pick(v.alloc) {
        let v1 = alloc_zeroed(v).1;
        crate::pmm::lemma_alloc_ok_steps(v.alloc, f1, 0);
        lemma_alloc_pick_picks(v1.alloc);
        if let Some(f2) = alloc_pick(v1.alloc) {
            let v2 = alloc_zeroed(v1).1;
            crate::pmm::lemma_alloc_ok_steps(v1.alloc, f2, 0);
            lemma_alloc_pick_picks(v2.alloc);
            if let Some(f3) = alloc_pick(v2.alloc) {
                let v3 = alloc_zeroed(v2).1;
                let pml4 = (f1 * 4096) as u64;
                let pdpt = (f2 * 4096) as u64;
                let pd = (f3 * 4096) as u64;
                lemma_flag_bits(pml4);
                lemma_flag_bits(pdpt);
                lemma_flag_bits(pd);
                lemma_frame_aligned(pml4);
                let m4 = copy_frame(v3.mem, (src & PHYS_MASK) as int, pml4 as int);
                let m5 = wr(m4, pml4 as int, pdpt | PTE_P_W_U);
                let m6 = wr(m5, pdpt as int, pd | PTE_P_W_U);
                let c = VmView { mem: m6, ..v3 };
                assert(create_spec(v, src) == (Some(pml4), c));
                assert(v.alloc.free.contains(f1) && v.alloc.free.contains(f2) && v.alloc.free.contains(f3));
                assert(f1 != f2 && f2 != f3 && f1 != f3);
                assert(backed(v.mem, pml4 as int) && backed(v.mem, pdpt as int) && backed(v.mem, pd as int));
                assert(pml4 & 0xFFFu64 == 0 && pml4 <= 0x000F_FFFF_FFFF_F000u64 ==> pml4 & 0x000F_FFFF_FFFF_F000u64 == pml4) by (bit_vector);
                assert(pml4 & PHYS_MASK == pml4);
                lemma_rd_wr(m5, pdpt as int, pd | PTE_P_W_U, pml4 as int);
                lemma_rd_wr(m4, pml4 as int, pdpt | PTE_P_W_U, pml4 as int);
                lemma_rd_wr(m5, pdpt as int, pd | PTE_P_W_U, pdpt as int);
                assert(rd(m6, pml4 as int) == pdpt | PTE_P_W_U);
                assert(rd(m6, pdpt as int) == pd | PTE_P_W_U);
                assert forall|k: int| 0 <= k < 512 implies #[trigger] rd(m6, pd + k * 8) == 0 by {
                    let b = pd + k * 8;
                    lemma_rd_wr(m5, pdpt as int, pd | PTE_P_W_U, b);
                    lemma_rd_wr(m4, pml4 as int, pdpt | PTE_P_W_U, b);
                    assert(!(pml4 / 8 <= b / 8 < pml4 / 8 + 512));
                    lemma_rd_zero(v2.mem, pd as int, b);
                }
                lemma_release_empty_pd(c, pd, 0);
                let w = release_spec(c, pml4);
                assert(w.alloc.free =~= v.alloc.free);
                assert(w.mem == m6);
                let st = src & PHYS_MASK;
                if !v.alloc.free.contains(st as int / 4096) {
                    lemma_frame_aligned(src);
                    assert forall|k: int| 0 <= k < 512 implies #[trigger] rd(w.mem, st + k * 8) == rd(v.mem, st + k * 8) by {
                        let b = st + k * 8;
                        lemma_rd_wr(m5, pdpt as int, pd | PTE_P_W_U, b);
                        lemma_rd_wr(m4, pml4 as int, pdpt | PTE_P_W_U, b);
                        assert(!(pml4 / 8 <= b / 8 < pml4 / 8 + 512));
                        lemma_rd_zero(v2.mem, pd as int, b);
                        lemma_rd_zero(v1.mem, pdpt as int, b);
                        lemma_rd_zero(v.mem, pml4 as int, b);
                    }
                }
            }
        }
    }
}

/// Sharing the leaves of parent table `p_pt`, entries `j..512`, with the
/// child table `c_pt`: both entries become the read-only copy-on-write form
/// of the parent's, and the frame gains an owner.
pub open spec fn fork_pt_from(v: VmView, p_pt: u64, c_pt: u64, j: int) -> VmView
    decreases 512 - j,
{
    if j < 0 || j >= 512 {
        v
    } else {
        let pte = rd(v.mem, p_pt + j * 8);
        let v1 = if present(pte) {
            let ro = (pte & !PTE_W) | PTE_COW;
            cow_incr_spec(VmView { mem: wr(wr(v.mem, p_pt + j * 8, ro), c_pt + j * 8, ro), ..v }, pte & PHYS_MASK)
        } else {
            v
        };
        fork_pt_from(v1, p_pt, c_pt, j + 1)
    }
}

/// Forking the parent directory `p_pd` into the child directory `c_pd`,
/// entries `i..512`: each present parent table gets a fresh child table
/// sharing its leaves. When no frame is left the child address space is
/// released and the fork fails.
pub open spec fn fork_pd_from(v: VmView, p_pd: u64, c_pd: u64, child: u64, i: int) -> (bool, VmView)
    decreases 512 - i,
{
    if i < 0 || i >= 512 {
        (true, v)
    } else {
        let pde = rd(v.mem, p_pd + i * 8);
        if !present(pde) {
            fork_pd_from(v, p_pd, c_pd, child, i + 1)
        } else {
            match alloc_zeroed(v) {
                (None, v1) => (false, release_spec(v1, child)),
                (Some(c_pt), v1) => {
                    let v2 = fork_pt_from(v1, pde & PHYS_MASK, c_pt, 0);
                    let v3 = VmView { mem: wr(v2.mem, c_pd + i * 8, c_pt | PTE_P_W_U), ..v2 };
                    fork_pd_from(v3, p_pd, c_pd, child, i + 1)
                },
            }
        }
    }
}

pub open spec fn fork_spec(v: VmView, parent: u64) -> (Option<u64>, VmView) {
    match create_spec(v, parent) {
        (None, v1) => (None, v1),
        (Some(child), v1) => {
            let m = v1.mem;
            let c_pdpt = rd(m, (child & PHYS_MASK) as int) & PHYS_MASK;
            let c_pd = rd(m, c_pdpt as int) & PHYS_MASK;
            let p4 = rd(m, (parent & PHYS_MASK) as int);
            if !present(p4) {
                (Some(child), v1)
            } else {
                let p3 = rd(m, (p4 & PHYS_MASK) as int);
                if !present(p3) {
                    (Some(child), v1)
                } else {
                    match fork_pd_from(v1, p3 & PHYS_MASK, c_pd, child, 0) {
                        (true, v2) => (Some(child), v2),
                        (false, v2) => (None, v2),
                    }
                }
            }
        },
    }
}

impl Vm {
    fn release_pt(&mut self, pt: u64)
        requires
            old(self).wf(),
            pt <= PHYS_MASK,
        ensures
            final(self).wf(),
            final(self)@ == release_pt_from(old(self)@, pt, 0),
    {
        let mut j: u64 = 0;
        while j < 512
            invariant
                self.wf(),
                j <= 512,
                pt <= PHYS_MASK,
                release_pt_from(old(self)@, pt, 0) == release_pt_from(self@, pt, j as int),
            decreases 512 - j,
        {
            let pte = self.read_word(pt + j * 8);
            if pte & 1 != 0 {
                self.cow_release_leaf(pte & PHYS_MASK);
            }
            j += 1;
        }
    }

    /// Free the private address space at `pml4_phys`: every page table and
    /// leaf frame of its user subtree (a shared leaf only loses an owner),
    /// then its PDPT, directory and PML4. The cloned kernel half is untouched.
    pub fn address_space_release(&mut self, pml4_phys: u64)
        requires
            old(self).wf(),
        ensures
            final(self).wf(),
            final(self)@ == release_spec(old(self)@, pml4_phys),
    {
        let root = pml4_phys & PHYS_MASK;
        proof {
            lemma_pt_bits(pml4_phys, 0, 0);
        }
        let pml4e = self.read_word(root);
        if pml4e & 1 != 0 {
            let pdpt_phys = pml4e & PHYS_MASK;
            proof {
                lemma_pt_bits(pml4e, 0, 0);
            }
            let pdpte = self.read_word(pdpt_phys);
            if pdpte & 1 != 0 {
                let pd_phys = pdpte & PHYS_MASK;
                proof {
                    lemma_pt_bits(pdpte, 0, 0);
                }
                let ghost v0 = self@;
                let mut i: u64 = 0;
                while i < 512
                    invariant
                        self.wf(),
                        i <= 512,
                        pd_phys <= PHYS_MASK,
                        release_pd_from(v0, pd_phys, 0) == release_pd_from(self@, pd_phys, i as int),
                    decreases 512 - i,
                {
                    let pde = self.read_word(pd_phys + i * 8);
                    if pde & 1 != 0 {
                        let pt_phys = pde & PHYS_MASK;
                        proof {
                            lemma_pt_bits(pde, 0, 0);
                        }
                        self.release_pt(pt_phys);
                        self.free(pt_phys);
                    }
                    i += 1;
                }
                self.free(pd_phys);
            }
            self.free(pdpt_phys);
        }
        self.free(root);
    }
}

impl Vm {
    fn fork_pt(&mut self, p_pt: u64, c_pt: u64)
        requires
            old(self).wf(),
            p_pt <= PHYS_MASK,
            c_pt <= PHYS_MASK,
        ensures
            final(self).wf(),
            final(self)@ == fork_pt_from(old(self)@, p_pt, c_pt, 0),
    {
        let mut j: u64 = 0;
        while j < 512
            invariant
                self.wf(),
                j <= 512,
                p_pt <= PHYS_MASK,
                c_pt <= PHYS_MASK,
                fork_pt_from(old(self)@, p_pt, c_pt, 0) == fork_pt_from(self@, p_pt, c_pt, j as int),
            decreases 512 - j,
        {
            let pte = self.read_word(p_pt + j * 8);
            if pte & 1 != 0 {
                let ro = (pte & !PTE_W) | PTE_COW;
                self.write_word(p_pt + j * 8, ro);
                self.write_word(c_pt + j * 8, ro);
                self.cow_incr(pte & PHYS_MASK);
            }
            j += 1;
        }
    }

    /// Fork the address space at `parent_pml4` into a copy-on-write child: a
    /// fresh address space (kernel half cloned) whose user page tables are
    /// private copies, while every user data frame is shared read-only and
    /// copy-on-write between parent and child and gains an owner. The first
    /// write from either side then goes through `cow_break`. Returns the
    /// child's PML4; None, with the partial child released, when frames run
    /// out.
    pub fn address_space_fork(&mut self, parent_pml4: u64) -> (r: Option<u64>)
        requires
            old(self).wf(),
        ensures
            final(self).wf(),
            (r, final(self)@) == fork_spec(old(self)@, parent_pml4),
    {
        let child = match self.address_space_create(parent_pml4) {
            Some(c) => c,
            None => return None,
        };
        proof {
            lemma_pt_bits(child, 0, 0);
        }
        let c_pml4e = self.read_word(child & PHYS_MASK);
        proof {
            lemma_pt_bits(c_pml4e, 0, 0);
        }
        let c_pdpte = self.read_word(c_pml4e & PHYS_MASK);
        proof {
            lemma_pt_bits(c_pdpte, 0, 0);
        }
        let child_pd = c_pdpte & PHYS_MASK;
        proof {
            lemma_pt_bits(parent_pml4, 0, 0);
        }
        let p_pml4e = self.read_word(parent_pml4 & PHYS_MASK);
        if p_pml4e & 1 == 0 {
            return Some(child);
        }
        proof {
            lemma_pt_bits(p_pml4e, 0, 0);
        }
        let p_pdpte = self.read_word(p_pml4e & PHYS_MASK);
        if p_pdpte & 1 == 0 {
            return Some(child);
        }
        proof {
            lemma_pt_bits(p_pdpte, 0, 0);
        }
        let p_pd = p_pdpte & PHYS_MASK;
        let ghost v1 = self@;
        let mut i: u64 = 0;
        while i < 512
            invariant
                self.wf(),
                i <= 512,
                p_pd <= PHYS_MASK,
                child_pd <= PHYS_MASK,
                fork_spec(old(self)@, parent_pml4) == (match fork_pd_from(v1, p_pd, child_pd, child, 0) {
                    (true, v2) => (Some(child), v2),
                    (false, v2) => (None, v2),
                }),
                fork_pd_from(v1, p_pd, child_pd, child, 0) == fork_pd_from(self@, p_pd, child_pd, child, i as int),
            decreases 512 - i,
        {
            let p_pde = self.read_word(p_pd + i * 8);
            if p_pde & 1 != 0 {
                let c_pt = match self.alloc_zeroed() {
                    Some(f) => f,
                    None => {
                        self.address_space_release(child);
                        return None;
                    },
                };
                proof {
                    lemma_pt_bits(p_pde, 0, 0);
                }
                self.fork_pt(p_pde & PHYS_MASK, c_pt);
                self.write_word(child_pd + i * 8, c_pt | PTE_P_W_U);
            }
            i += 1;
        }
        Some(child)
    }
}

// ---------------- laws ----------------

/// What every system state satisfies.
pub open spec fn vm_ok(v: VmView) -> bool {
    &&& alloc_ok(v.alloc)
    &&& v.cow.len() == MAX_FRAMES
    &&& v.demand >= 0
}

impl Vm {
    pub proof fn lemma_view_ok(&self)
        requires
            self.wf(),
        ensures
            vm_ok(self@),
    {
        self.pmm.lemma_alloc_state_ok();
    }
}

/// The frame at `t` lies in memory.
pub open spec fn backed(m: Seq<u64>, t: int) -> bool {
    0 <= t && t + 4096 <= 8 * m.len()
}

/// Memory backs every frame the allocator may hand out.
pub open spec fn free_backed(v: VmView) -> bool {
    forall|f: int| #[trigger] v.alloc.free.contains(f) ==> backed(v.mem, f * 4096)
}

/// A table frame on a walk: backed by memory and not free.
pub open spec fn table_ok(v: VmView, t: u64) -> bool {
    backed(v.mem, t as int) && !v.alloc.free.contains(t as int / 4096)
}

/// The tables on the walk of `va` from `root` down to the page directory
/// (and the page table, when the directory entry is present) are distinct
/// frames of memory that the allocator does not consider free.
pub open spec fn walk_sound(v: VmView, root: u64, va: u64) -> bool {
    let m = v.mem;
    let t4 = root & PHYS_MASK;
    let e4 = rd(m, slot(t4, va, 39) as int);
    let t3 = e4 & PHYS_MASK;
    let e3 = rd(m, slot(t3, va, 30) as int);
    let t2 = e3 & PHYS_MASK;
    let e2 = rd(m, slot(t2, va, 21) as int);
    let t1 = e2 & PHYS_MASK;
    &&& table_ok(v, t4) && table_ok(v, t3) && table_ok(v, t2)
    &&& t4 != t3 && t4 != t2 && t3 != t2
    &&& present(e2) ==> table_ok(v, t1) && t1 != t4 && t1 != t3 && t1 != t2
}

proof fn lemma_flag_bits(x: u64)
    by (bit_vector)
    ensures
        (x | 5u64) & 1u64 != 0,
        (x | (5u64 | 2u64)) & 1u64 != 0,
        (x | (5u64 | 0x8000_0000_0000_0000u64)) & 1u64 != 0,
        (x | (5u64 | 2u64 | 0x8000_0000_0000_0000u64)) & 1u64 != 0,
        (x | 7u64) & 1u64 != 0,
        (x | (7u64 | 0x8000_0000_0000_0000u64)) & 1u64 != 0,
        x & 0xFFFu64 == 0 && x <= 0x000F_FFFF_FFFF_F000u64 ==> (x | 7u64) & 0x000F_FFFF_FFFF_F000u64 == x,
        x & 0xFFFu64 == x % 4096,
        x == 0 ==> x & 1u64 == 0,
        x & 0xFFFu64 == 0 && x <= 0x000F_FFFF_FFFF_F000u64 ==> (x | 5u64) & 0x000F_FFFF_FFFF_F000u64 == x
            && (x | (5u64 | 2u64)) & 0x000F_FFFF_FFFF_F000u64 == x
            && (x | (5u64 | 0x8000_0000_0000_0000u64)) & 0x000F_FFFF_FFFF_F000u64 == x
            && (x | (5u64 | 2u64 | 0x8000_0000_0000_0000u64)) & 0x000F_FFFF_FFFF_F000u64 == x,
{
}

proof fn lemma_slot_in(t: u64, va: u64, s: u64)
    requires
        t % 4096 == 0,
        t <= PHYS_MASK,
    ensures
        t <= slot(t, va, s) < t + 4096,
        slot(t, va, s) % 8 == 0,
{
    lemma_pt_bits(t, va, s);
}

proof fn lemma_rd_zero(m: Seq<u64>, f: int, b: int)
    requires
        f % 4096 == 0,
        0 <= f,
        0 <= b,
        b % 8 == 0,
    ensures
        rd(zero_frame(m, f), b) == (if f <= b < f + 4096 && b / 8 < m.len() { 0u64 } else { rd(m, b) }),
{
}

proof fn lemma_rd_wr(m: Seq<u64>, a: int, x: u64, b: int)
    requires
        a % 8 == 0,
        b % 8 == 0,
        0 <= a,
        0 <= b,
    ensures
        rd(wr(m, a, x), b) == (if a == b && a / 8 < m.len() { x } else { rd(m, b) }),
{
}

proof fn lemma_walk_facts(v: VmView, root: u64, va: u64)
    requires
        vm_ok(v),
        walk_sound(v, root, va),
    ensures
        ({
            let m = v.mem;
            let t4 = root & PHYS_MASK;
            let s4 = slot(t4, va, 39);
            let e4 = rd(m, s4 as int);
            let t3 = e4 & PHYS_MASK;
            let s3 = slot(t3, va, 30);
            let e3 = rd(m, s3 as int);
            let t2 = e3 & PHYS_MASK;
            let ps = slot(t2, va, 21);
            let pde = rd(m, ps as int);
            let t1 = pde & PHYS_MASK;
            let ls = slot(t1, va, 12);
            &&& t4 % 4096 == 0 && t3 % 4096 == 0 && t2 % 4096 == 0 && t1 % 4096 == 0
            &&& t4 <= s4 < t4 + 4096 && s4 % 8 == 0
            &&& t3 <= s3 < t3 + 4096 && s3 % 8 == 0
            &&& t2 <= ps < t2 + 4096 && ps % 8 == 0
            &&& t1 <= ls < t1 + 4096 && ls % 8 == 0
            &&& t1 <= PHYS_MASK
        }),
{
    lemma_pt_bits(root, va, 39);
    lemma_frame_aligned(root);
    let m = v.mem;
    let t4 = root & PHYS_MASK;
    lemma_slot_in(t4, va, 39);
    let e4 = rd(m, slot(t4, va, 39) as int);
    lemma_pt_bits(e4, va, 30);
    lemma_frame_aligned(e4);
    lemma_slot_in(e4 & PHYS_MASK, va, 30);
    let e3 = rd(m, slot(e4 & PHYS_MASK, va, 30) as int);
    lemma_pt_bits(e3, va, 21);
    lemma_frame_aligned(e3);
    lemma_slot_in(e3 & PHYS_MASK, va, 21);
    let pde = rd(m, slot(e3 & PHYS_MASK, va, 21) as int);
    lemma_pt_bits(pde, va, 12);
    lemma_frame_aligned(pde);
    lemma_slot_in(pde & PHYS_MASK, va, 12);
}

#[verifier::rlimit(40)]
proof fn lemma_map_idem_pt_present(v: VmView, root: u64, va: u64, prot: u64)
    requires
        vm_ok(v),
        free_backed(v),
        walk_sound(v, root, va),
        pd_slot(v.mem, root, va) is Some,
        present(rd(v.mem, pd_slot(v.mem, root, va).unwrap() as int)),
    ensures
        map_spec(v, root, va, prot).0 ==> map_spec(map_spec(v, root, va, prot).1, root, va, prot) == (true, map_spec(v, root, va, prot).1),
{
    lemma_walk_facts(v, root, va);
    let m = v.mem;
    let s4 = slot(root & PHYS_MASK, va, 39);
    let s3 = slot(rd(m, s4 as int) & PHYS_MASK, va, 30);
    let ps = pd_slot(m, root, va).unwrap();
    let t1 = rd(m, ps as int) & PHYS_MASK;
    let ls = slot(t1, va, 12);
    lemma_alloc_pick_picks(v.alloc);
    let flags = prot_flags(prot);
    if present(rd(m, ls as int)) {
        return;
    }
    match alloc_pick(v.alloc) {
        None => {},
        Some(f) => {
            let fa = (f * 4096) as u64;
            let v1 = alloc_zeroed(v).1;
            let v2 = VmView { mem: wr(v1.mem, ls as int, fa | flags), demand: v1.demand + 1, ..v1 };
            assert(map_spec(v, root, va, prot) == (true, v2));
            lemma_flag_bits(fa);
            lemma_rd_zero(m, fa as int, s4 as int);
            lemma_rd_zero(m, fa as int, s3 as int);
            lemma_rd_zero(m, fa as int, ps as int);
            lemma_rd_zero(m, fa as int, ls as int);
            lemma_rd_wr(v1.mem, ls as int, fa | flags, s4 as int);
            lemma_rd_wr(v1.mem, ls as int, fa | flags, s3 as int);
            lemma_rd_wr(v1.mem, ls as int, fa | flags, ps as int);
            lemma_rd_wr(v1.mem, ls as int, fa | flags, ls as int);
            assert(pd_slot(v2.mem, root, va) == Some(ps));
            assert(present(rd(v2.mem, ls as int)));
        },
    }
}

#[verifier::rlimit(60)]
proof fn lemma_map_idem_pt_absent(v: VmView, root: u64, va: u64, prot: u64)
    requires
        vm_ok(v),
        free_backed(v),
        walk_sound(v, root, va),
        pd_slot(v.mem, root, va) is Some,
        !present(rd(v.mem, pd_slot(v.mem, root, va).unwrap() as int)),
    ensures
        map_spec(v, root, va, prot).0 ==> map_spec(map_spec(v, root, va, prot).1, root, va, prot) == (true, map_spec(v, root, va, prot).1),
{
    lemma_walk_facts(v, root, va);
    let m = v.mem;
    let s4 = slot(root & PHYS_MASK, va, 39);
    let s3 = slot(rd(m, s4 as int) & PHYS_MASK, va, 30);
    let ps = pd_slot(m, root, va).unwrap();
    lemma_alloc_pick_picks(v.alloc);
    let flags = prot_flags(prot);
    match alloc_pick(v.alloc) {
        None => {},
        Some(p) => {
            let pa = (p * 4096) as u64;
            let va1 = alloc_zeroed(v).1;
            lemma_flag_bits(pa);
            let v1 = VmView { mem: wr(va1.mem, ps as int, pa | PTE_P_W_U), ..va1 };
            assert(pt_for(v, ps) == Some((pa, v1)));
            lemma_slot_in(pa, va, 12);
            let ls = slot(pa, va, 12);
            lemma_rd_zero(m, pa as int, s4 as int);
            lemma_rd_zero(m, pa as int, s3 as int);
            lemma_rd_zero(m, pa as int, ps as int);
            lemma_rd_zero(m, pa as int, ls as int);
            lemma_rd_wr(va1.mem, ps as int, pa | PTE_P_W_U, ls as int);
            lemma_flag_bits(0);
            assert(!present(rd(v1.mem, ls as int)));
            lemma_alloc_pick_picks(v1.alloc);
            crate::pmm::lemma_alloc_ok_steps(v.alloc, p, 0);
            match alloc_pick(v1.alloc) {
                None => {},
                Some(f) => {
                    let fa = (f * 4096) as u64;
                    let v2a = alloc_zeroed(v1).1;
                    let v2 = VmView { mem: wr(v2a.mem, ls as int, fa | flags), demand: v2a.demand + 1, ..v2a };
                    assert(map_spec(v, root, va, prot) == (true, v2));
                    lemma_flag_bits(fa);
                    lemma_rd_wr(va1.mem, ps as int, pa | PTE_P_W_U, s4 as int);
                    lemma_rd_wr(va1.mem, ps as int, pa | PTE_P_W_U, s3 as int);
                    lemma_rd_wr(va1.mem, ps as int, pa | PTE_P_W_U, ps as int);
                    lemma_rd_zero(v1.mem, fa as int, s4 as int);
                    lemma_rd_zero(v1.mem, fa as int, s3 as int);
                    lemma_rd_zero(v1.mem, fa as int, ps as int);
                    lemma_rd_zero(v1.mem, fa as int, ls as int);
                    lemma_rd_wr(v2a.mem, ls as int, fa | flags, s4 as int);
                    lemma_rd_wr(v2a.mem, ls as int, fa | flags, s3 as int);
                    lemma_rd_wr(v2a.mem, ls as int, fa | flags, ps as int);
                    lemma_rd_wr(v2a.mem, ls as int, fa | flags, ls as int);
                    assert(pd_slot(v2.mem, root, va) == Some(ps));
                    assert(rd(v2.mem, ps as int) == pa | PTE_P_W_U);
                    assert(present(rd(v2.mem, ls as int)));
                },
            }
        },
    }
}

/// Linking a fresh table at the absent entry `s`: the frame taken, what
/// memory then reads, and that the allocator and memory stay sound.
proof fn lemma_fresh_level(v: VmView, s: u64)
    requires
        vm_ok(v),
        free_backed(v),
        s % 8 == 0,
        !present(rd(v.mem, s as int)),
        !v.alloc.free.contains(s as int / 4096),
        alloc_pick(v.alloc) is Some,
    ensures
        ({
            let f = alloc_pick(v.alloc)->0;
            let n = (f * 4096) as u64;
            let v1 = VmView { mem: wr(alloc_zeroed(v).1.mem, s as int, n | PTE_P_W_U), ..alloc_zeroed(v).1 };
            &&& v.alloc.free.contains(f)
            &&& pt_for(v, s) == Some((n, v1))
            &&& vm_ok(v1)
            &&& free_backed(v1)
            &&& v1.alloc.free == v.alloc.free.remove(f)
            &&& v1.mem.len() == v.mem.len()
            &&& n % 4096 == 0 && n <= PHYS_MASK && n as int / 4096 == f
            &&& backed(v.mem, n as int)
            &&& forall|b: int| 0 <= b && b % 8 == 0 ==> #[trigger] rd(v1.mem, b) == (if b == s && b / 8 < v.mem.len() {
                n | PTE_P_W_U
            } else if n <= b < n + 4096 {
                0u64
            } else {
                rd(v.mem, b)
            })
        }),
{
    lemma_alloc_pick_picks(v.alloc);
    let f = alloc_pick(v.alloc)->0;
    let n = (f * 4096) as u64;
    crate::pmm::lemma_alloc_ok_steps(v.alloc, f, 0);
    lemma_flag_bits(n);
    assert(n % 4096 == 0);
    assert(n <= PHYS_MASK);
    let va1 = alloc_zeroed(v).1;
    let v1 = VmView { mem: wr(va1.mem, s as int, n | PTE_P_W_U), ..va1 };
    assert(pt_for(v, s) == Some((n, v1)));
    assert forall|b: int| 0 <= b && b % 8 == 0 implies #[trigger] rd(v1.mem, b) == (if b == s && b / 8 < v.mem.len() {
        n | PTE_P_W_U
    } else if n <= b < n + 4096 {
        0u64
    } else {
        rd(v.mem, b)
    }) by {
        lemma_rd_zero(v.mem, n as int, b);
        lemma_rd_wr(va1.mem, s as int, n | PTE_P_W_U, b);
        if n <= b < n + 4096 {
            assert(b / 8 < v.mem.len());
        }
    }
    assert forall|g: int| #[trigger] v1.alloc.free.contains(g) implies backed(v1.mem, g * 4096) by {
        assert(v.alloc.free.contains(g));
    }
}

/// The upper tables an mmap links when the page directory for `va` is not
/// reachable: afterwards it is, through sound tables, and its entry for
/// `va` is still absent.
proof fn lemma_upper_tables(v: VmView, root: u64, va: u64)
    requires
        vm_ok(v),
        free_backed(v),
        walk_sound(v, root, va),
        pd_slot(v.mem, root, va) is None,
    ensures
        pt_for(v, slot(root & PHYS_MASK, va, 39)) matches Some((t3, v1)) ==> (pt_for(v1, slot(t3, va, 30)) matches Some((t2, v2)) ==> {
            &&& vm_ok(v2)
            &&& free_backed(v2)
            &&& walk_sound(v2, root, va)
            &&& pd_slot(v2.mem, root, va) == Some(slot(t2, va, 21))
            &&& !present(rd(v2.mem, slot(t2, va, 21) as int))
        }),
{
    lemma_walk_facts(v, root, va);
    let m = v.mem;
    let t4 = root & PHYS_MASK;
    let s4 = slot(t4, va, 39);
    let e4 = rd(m, s4 as int);
    lemma_flag_bits(0);
    if present(e4) {
        // the PDPT is there; the page directory is allocated
        let t3 = e4 & PHYS_MASK;
        let s3 = slot(t3, va, 30);
        assert(pt_for(v, s4) == Some((t3, v)));
        assert(!present(rd(m, s3 as int)));
        if alloc_pick(v.alloc) is Some {
            lemma_fresh_level(v, s3);
            let n2 = (alloc_pick(v.alloc)->0 * 4096) as u64;
            let v2 = (pt_for(v, s3)->0).1;
            lemma_slot_in(n2, va, 21);
            let ps = slot(n2, va, 21);
            assert(rd(v2.mem, s4 as int) == e4);
            assert(rd(v2.mem, s3 as int) == n2 | PTE_P_W_U);
            lemma_flag_bits(n2);
            assert(rd(v2.mem, ps as int) == 0u64);
            assert(pd_slot(v2.mem, root, va) == Some(ps));
            assert(table_ok(v2, n2));
            assert(walk_sound(v2, root, va));
        }
    } else {
        // neither the PDPT nor the page directory is there
        if alloc_pick(v.alloc) is Some {
            lemma_fresh_level(v, s4);
            let n3 = (alloc_pick(v.alloc)->0 * 4096) as u64;
            let v1 = (pt_for(v, s4)->0).1;
            lemma_slot_in(n3, va, 30);
            let s3 = slot(n3, va, 30);
            lemma_flag_bits(n3);
            assert(rd(v1.mem, s3 as int) == 0u64);
            if alloc_pick(v1.alloc) is Some {
                lemma_fresh_level(v1, s3);
                let n2 = (alloc_pick(v1.alloc)->0 * 4096) as u64;
                let v2 = (pt_for(v1, s3)->0).1;
                lemma_slot_in(n2, va, 21);
                let ps = slot(n2, va, 21);
                assert(rd(v2.mem, s4 as int) == n3 | PTE_P_W_U);
                assert(rd(v2.mem, s3 as int) == n2 | PTE_P_W_U);
                lemma_flag_bits(n2);
                assert(rd(v2.mem, ps as int) == 0u64);
                assert(pd_slot(v2.mem, root, va) == Some(ps));
                assert(table_ok(v2, n3));
                assert(table_ok(v2, n2));
                assert(walk_sound(v2, root, va));
            }
        }
    }
}

/// mmap fails only on frame exhaustion: when it returns false, the
/// allocator it leaves has no frame to hand out.
pub proof fn law_map_fails_only_without_frames(v: VmView, root: u64, va: u64, prot: u64)
    ensures
        !map_spec(v, root, va, prot).0 ==> alloc_pick(map_spec(v, root, va, prot).1.alloc) is None,
{
}

/// Mapping a page that is already mapped changes nothing and succeeds, so
/// a second identical mmap of a page after a successful one is a no-op.
pub proof fn law_map_is_idempotent(v: VmView, root: u64, va: u64, prot: u64)
    requires
        vm_ok(v),
        free_backed(v),
        walk_sound(v, root, va),
    ensures
        map_spec(v, root, va, prot).0 ==> map_spec(map_spec(v, root, va, prot).1, root, va, prot) == (true, map_spec(v, root, va, prot).1),
{
    match pd_slot(v.mem, root, va) {
        None => {
            lemma_upper_tables(v, root, va);
            if let Some((t3, v1)) = pt_for(v, slot(root & PHYS_MASK, va, 39)) {
                if let Some((t2, v2)) = pt_for(v1, slot(t3, va, 30)) {
                    assert(map_spec(v, root, va, prot) == map_spec(v2, root, va, prot));
                    lemma_map_idem_pt_absent(v2, root, va, prot);
                }
            }
        },
        Some(ps) => {
            if present(rd(v.mem, ps as int)) {
                lemma_map_idem_pt_present(v, root, va, prot);
            } else {
                lemma_map_idem_pt_absent(v, root, va, prot);
            }
        },
    }
}

/// A user leaf entry for protection `prot` (1 read, 2 write, 4 execute):
/// present and user-accessible, writable exactly when `prot` has the write
/// bit, no-execute (bit 63) exactly when `prot` lacks the execute bit.
pub open spec fn leaf_honours_prot(e: u64, prot: u64) -> bool {
    &&& e & 1u64 != 0
    &&& e & 4u64 != 0
    &&& (e & 2u64 != 0) == (prot & 2u64 != 0)
    &&& (e & 0x8000_0000_0000_0000u64 != 0) == (prot & 4u64 == 0)
}

proof fn lemma_leaf_bits(fa: u64, prot: u64)
    by (bit_vector)
    requires
        fa & 0xFFFu64 == 0,
        fa <= 0x000F_FFFF_FFFF_F000u64,
    ensures
        leaf_honours_prot(fa | prot_flags(prot), prot),
        (fa | prot_flags(prot)) & 0x000F_FFFF_FFFF_F000u64 == fa,
{
}

/// mmap into an existing page table writes a leaf that honours the
/// protection: the page at `va` maps the fresh frame, present and user,
/// writable exactly when `prot & 2`, executable exactly when `prot & 4`.
pub proof fn law_map_leaf_honours_prot(v: VmView, root: u64, va: u64, prot: u64)
    requires
        vm_ok(v),
        free_backed(v),
        walk_sound(v, root, va),
        pt_slot(v.mem, root, va) is Some,
        !present(rd(v.mem, pt_slot(v.mem, root, va).unwrap() as int)),
    ensures
        map_spec(v, root, va, prot).0 ==> {
            let e = rd(map_spec(v, root, va, prot).1.mem, pt_slot(v.mem, root, va).unwrap() as int);
            &&& leaf_honours_prot(e, prot)
            &&& alloc_pick(v.alloc) == Some((e & PHYS_MASK) as int / 4096)
        },
{
    lemma_walk_facts(v, root, va);
    let m = v.mem;
    let ls = pt_slot(m, root, va).unwrap();
    lemma_alloc_pick_picks(v.alloc);
    let flags = prot_flags(prot);
    match alloc_pick(v.alloc) {
        None => {},
        Some(f) => {
            let fa = (f * 4096) as u64;
            let v1 = alloc_zeroed(v).1;
            let v2 = VmView { mem: wr(v1.mem, ls as int, fa | flags), demand: v1.demand + 1, ..v1 };
            assert(map_spec(v, root, va, prot) == (true, v2));
            lemma_flag_bits(fa);
            lemma_leaf_bits(fa, prot);
            lemma_rd_zero(m, fa as int, ls as int);
            lemma_rd_wr(v1.mem, ls as int, fa | flags, ls as int);
            assert(rd(v2.mem, ls as int) == fa | flags);
        },
    }
}

/// mprotect rewrites a mapped page's leaf to honour the new protection,
/// keeping its frame: writable exactly when `prot & 2`, executable exactly
/// when `prot & 4`, independently of each other.
pub proof fn law_protect_leaf_honours_prot(v: VmView, root: u64, va: u64, prot: u64)
    ensures
        protect_spec(v, root, va, prot).0 ==> {
            let s = pt_slot(v.mem, root, va).unwrap();
            let e = rd(protect_spec(v, root, va, prot).1.mem, s as int);
            &&& leaf_honours_prot(e, prot)
            &&& e & PHYS_MASK == rd(v.mem, s as int) & PHYS_MASK
        },
{
    if let Some(s) = pt_slot(v.mem, root, va) {
        let pte = rd(v.mem, s as int);
        if present(pte) {
            let fa = pte & PHYS_MASK;
            lemma_frame_aligned(pte);
            lemma_pt_bits(pte, 0, 0);
            lemma_flag_bits(fa);
            lemma_leaf_bits(fa, prot);
            lemma_flag_bits(0);
            assert(0 <= s && (s as int) / 8 < v.mem.len()) by {
                if !(0 <= s as int && (s as int) / 8 < v.mem.len()) {
                    assert(pte == 0);
                }
            }
            assert(rd(wr(v.mem, s as int, fa | prot_flags(prot)), s as int) == fa | prot_flags(prot));
        }
    }
}

/// Free frames have no other owners.
pub open spec fn free_unshared(v: VmView) -> bool {
    forall|f: int| #[trigger] v.alloc.free.contains(f) ==> v.cow[f] == 0
}

/// Unmapping a page that mmap has just mapped into an existing page table
/// gives its frame back: the allocator's free frames and free count, the
/// demand count and the copy-on-write counts are what they were before the
/// mmap, and the page-table entry is cleared.
#[verifier::rlimit(60)]
pub proof fn law_unmap_undoes_map(v: VmView, root: u64, va: u64, prot: u64)
    requires
        vm_ok(v),
        free_backed(v),
        free_unshared(v),
        walk_sound(v, root, va),
        pt_slot(v.mem, root, va) is Some,
        !present(rd(v.mem, pt_slot(v.mem, root, va).unwrap() as int)),
    ensures
        map_spec(v, root, va, prot).0 ==> {
            let u = unmap_spec(map_spec(v, root, va, prot).1, root, va);
            &&& u.0
            &&& u.1.alloc.free == v.alloc.free
            &&& u.1.alloc.count == v.alloc.count
            &&& u.1.demand == v.demand
            &&& u.1.cow == v.cow
            &&& rd(u.1.mem, pt_slot(v.mem, root, va).unwrap() as int) == 0
        },
{
    lemma_walk_facts(v, root, va);
    let m = v.mem;
    let s4 = slot(root & PHYS_MASK, va, 39);
    let s3 = slot(rd(m, s4 as int) & PHYS_MASK, va, 30);
    let ps = pd_slot(m, root, va).unwrap();
    let ls = pt_slot(m, root, va).unwrap();
    lemma_alloc_pick_picks(v.alloc);
    let flags = prot_flags(prot);
    match alloc_pick(v.alloc) {
        None => {},
        Some(f) => {
            let fa = (f * 4096) as u64;
            let v1 = alloc_zeroed(v).1;
            let v2 = VmView { mem: wr(v1.mem, ls as int, fa | flags), demand: v1.demand + 1, ..v1 };
            assert(map_spec(v, root, va, prot) == (true, v2));
            lemma_flag_bits(fa);
            lemma_rd_zero(m, fa as int, s4 as int);
            lemma_rd_zero(m, fa as int, s3 as int);
            lemma_rd_zero(m, fa as int, ps as int);
            lemma_rd_zero(m, fa as int, ls as int);
            lemma_rd_wr(v1.mem, ls as int, fa | flags, s4 as int);
            lemma_rd_wr(v1.mem, ls as int, fa | flags, s3 as int);
            lemma_rd_wr(v1.mem, ls as int, fa | flags, ps as int);
            lemma_rd_wr(v1.mem, ls as int, fa | flags, ls as int);
            assert(pt_slot(v2.mem, root, va) == Some(ls));
            assert(rd(v2.mem, ls as int) == fa | flags);
            assert((fa | flags) & PHYS_MASK == fa);
            let w = VmView { mem: wr(v2.mem, ls as int, 0), ..v2 };
            assert(unmap_spec(v2, root, va) == (true, release_leaf(w, fa)));
            assert(v.alloc.free.contains(f));
            assert(v.cow[f] == 0);
            assert(fa as int / 4096 == f);
            assert(w.cow[f] == 0);
            assert(release_leaf(w, fa).alloc.free =~= v.alloc.free);
            assert(release_leaf(w, fa).alloc.count == v.alloc.count);
            assert(release_leaf(w, fa).demand == v.demand);
            assert(release_leaf(w, fa).cow == v.cow);
            lemma_rd_wr(v2.mem, ls as int, 0, ls as int);
            assert(rd(release_leaf(w, fa).mem, ls as int) == 0);
        },
    }
}

/// Demand paging keeps to its policy: a fault outside the demand window,
/// in a stack guard zone, past the frame quota or before the allocator is
/// up is refused with nothing changed; and the count of demand frames never
/// passes the quota.
pub proof fn law_demand_policy(v: VmView, root: u64, va: u64)
    requires
        v.demand <= DEMAND_MAX_FRAMES,
    ensures
        !demand_allowed(v, va) ==> demand_spec(v, root, va) == (false, v),
        demand_spec(v, root, va).1.demand <= DEMAND_MAX_FRAMES,
{
}

// ---------------- device MMIO windows ----------------

/// Kernel windows for device registers: the one-page window and the shared
/// transient multi-page window.
pub const MMIO_WINDOW_VA: u64 = 0xFFFF_FF00_0000_0000;
pub const MMIO_REGION_VA: u64 = 0xFFFF_FF10_0000_0000;

/// Leaf flags of a device page: present, writable, write-through,
/// cache-disabled, no-execute.
pub const PTE_MMIO: u64 = 0x8000_0000_0000_001B;

/// The shift of the entries of upper level `level` (0 = PML4).
pub open spec fn level_shift(level: int) -> u64 {
    if level == 0 {
        39
    } else if level == 1 {
        30
    } else {
        21
    }
}

/// Frees the frames of `pend[k..]` in order.
pub open spec fn free_pending(v: VmView, pend: Seq<(u64, u64, u64)>, k: int) -> VmView
    decreases pend.len() - k,
{
    if k < 0 || k >= pend.len() {
        v
    } else {
        free_pending(free_spec(v, pend[k].2), pend, k + 1)
    }
}

/// Links each pending table into its parent: entry `i` of table `t` becomes
/// `new | present | writable`.
pub open spec fn link_pending(m: Seq<u64>, pend: Seq<(u64, u64, u64)>, k: int) -> Seq<u64>
    decreases pend.len() - k,
{
    if k < 0 || k >= pend.len() {
        m
    } else {
        link_pending(wr(m, pend[k].0 + pend[k].1 * 8, pend[k].2 | 3u64), pend, k + 1)
    }
}

/// The walk of the three upper levels for `va` from `table`: a present entry
/// is followed; a missing table is allocated (zeroed) and recorded to be
/// linked once the whole walk has succeeded. When a frame cannot be had,
/// every frame taken so far is freed and nothing is linked.
pub open spec fn mmio_walk(v: VmView, table: u64, va: u64, level: int, pend: Seq<(u64, u64, u64)>) -> (Option<u64>, VmView, Seq<(u64, u64, u64)>)
    decreases 3 - level,
{
    if level < 0 || level >= 3 {
        (Some(table), v, pend)
    } else {
        let i = idx(va, level_shift(level));
        let e = rd(v.mem, table + i * 8);
        if present(e) {
            mmio_walk(v, e & PHYS_MASK, va, level + 1, pend)
        } else {
            match alloc_zeroed(v) {
                (None, v1) => (None, free_pending(v1, pend, 0), pend),
                (Some(n), v1) => mmio_walk(v1, n, va, level + 1, pend.push((table, i, n))),
            }
        }
    }
}

/// Device pages `p..npages` of the region at `page`, from PT entry `base_i`
/// on, as far as the table goes.
pub open spec fn map_leaves(m: Seq<u64>, pt: u64, base_i: u64, page: u64, npages: int, p: int) -> Seq<u64>
    decreases npages - p,
{
    if p < 0 || p >= npages || base_i + p >= 512 {
        m
    } else {
        map_leaves(wr(m, pt + (base_i + p) * 8, ((page + p * 0x1000) as u64) | PTE_MMIO), pt, base_i, page, npages, p + 1)
    }
}

pub open spec fn mmio_spec(v: VmView, cr3: u64, phys: u64, npages: usize, window: u64) -> (Option<u64>, VmView) {
    match mmio_walk(v, cr3 & PHYS_MASK, window, 0, seq![]) {
        (None, v1, _) => (None, v1),
        (Some(pt), v1, pend) => {
            let m2 = link_pending(v1.mem, pend, 0);
            let m3 = map_leaves(m2, pt, idx(window, 12), phys & !0xFFFu64, npages as int, 0);
            (Some((window + phys % 4096) as u64), VmView { mem: m3, ..v1 })
        },
    }
}

impl Vm {
    /// Map `npages` pages of device memory at `phys` into the kernel window
    /// at `window_va` of the address space rooted at `cr3` (uncached,
    /// writable, no-execute), returning the window address of `phys`.
    /// Missing tables on the way are allocated but linked only once the whole
    /// walk has succeeded: when frames run out, the frames taken are freed,
    /// nothing is linked, and None is returned. Pages past the end of the
    /// window's page table are not mapped.
    pub fn mmio_map_region_at(&mut self, cr3: u64, phys: u64, npages: usize, window_va: u64) -> (r: Option<u64>)
        requires
            old(self).wf(),
            phys <= PHYS_MASK,
            window_va + 4096 <= u64::MAX,
        ensures
            final(self).wf(),
            (r, final(self)@) == mmio_spec(old(self)@, cr3, phys, npages, window_va),
    {
        proof {
            lemma_pt_bits(cr3, window_va, 39);
        }
        let mut table = cr3 & PHYS_MASK;
        let mut pending: Vec<(u64, u64, u64)> = Vec::new();
        let mut level: usize = 0;
        while level < 3
            invariant
                self.wf(),
                level <= 3,
                table <= PHYS_MASK,
                phys <= PHYS_MASK,
                window_va + 4096 <= u64::MAX,
                forall|k: int| 0 <= k < pending@.len() ==> #[trigger] pending@[k].0 <= PHYS_MASK && pending@[k].1 < 512,
                mmio_walk(old(self)@, cr3 & PHYS_MASK, window_va, 0, seq![]) == mmio_walk(self@, table, window_va, level as int, pending@),
            decreases 3 - level,
        {
            let shift: u64 = if level == 0 {
                39
            } else if level == 1 {
                30
            } else {
                21
            };
            proof {
                lemma_pt_bits(table, window_va, shift);
            }
            let i = (window_va >> shift) & 0x1FF;
            let e = self.read_word(table + i * 8);
            if e & 1 == 0 {
                let ghost vf = self@;
                let new = match self.alloc_zeroed() {
                    Some(f) => f,
                    None => {
                        assert(mmio_spec(old(self)@, cr3, phys, npages, window_va) == (None::<u64>, free_pending(vf, pending@, 0)));
                        let mut k: usize = 0;
                        while k < pending.len()
                            invariant
                                self.wf(),
                                k <= pending@.len(),
                                mmio_spec(old(self)@, cr3, phys, npages, window_va) == (None::<u64>, free_pending(vf, pending@, 0)),
                                free_pending(vf, pending@, 0) == free_pending(self@, pending@, k as int),
                            decreases pending@.len() - k,
                        {
                            self.free(pending[k].2);
                            k += 1;
                        }
                        return None;
                    },
                };
                pending.push((table, i, new));
                table = new;
            } else {
                proof {
                    lemma_pt_bits(e, window_va, shift);
                }
                table = e & PHYS_MASK;
            }
            level += 1;
        }
        let ghost v1 = self@;
        proof {
            lemma_pt_bits(phys, window_va, 12);
            lemma_pt_bits(0, phys, 0);
        }
        let base_page = phys & !0xFFF;
        let base_i = (window_va >> 12) & 0x1FF;
        let ghost m2 = link_pending(v1.mem, pending@, 0);
        assert(mmio_spec(old(self)@, cr3, phys, npages, window_va) == (Some((window_va + phys % 4096) as u64), VmView {
            mem: map_leaves(m2, table, base_i, base_page, npages as int, 0),
            ..v1
        }));
        let mut k: usize = 0;
        while k < pending.len()
            invariant
                self.wf(),
                k <= pending@.len(),
                forall|j: int| 0 <= j < pending@.len() ==> #[trigger] pending@[j].0 <= PHYS_MASK && pending@[j].1 < 512,
                self@.alloc == v1.alloc && self@.cow == v1.cow && self@.demand == v1.demand,
                m2 == link_pending(self@.mem, pending@, k as int),
            decreases pending@.len() - k,
        {
            let (parent, i, new) = pending[k];
            self.write_word(parent + i * 8, new | 3);
            k += 1;
        }
        let mut p: usize = 0;
        while p < npages && base_i + (p as u64) < 512
            invariant
                self.wf(),
                p <= 512,
                table <= PHYS_MASK,
                base_i < 512,
                base_page <= PHYS_MASK,
                self@.alloc == v1.alloc && self@.cow == v1.cow && self@.demand == v1.demand,
                map_leaves(m2, table, base_i, base_page, npages as int, 0) == map_leaves(self@.mem, table, base_i, base_page, npages as int, p as int),
            decreases npages - p,
        {
            self.write_word(table + (base_i + p as u64) * 8, (base_page + (p as u64) * 0x1000) | PTE_MMIO);
            p += 1;
        }
        Some(window_va + (phys & 0xFFF))
    }

    /// Map the device page holding `phys` into the one-page kernel window.
    pub fn mmio_map_4k(&mut self, cr3: u64, phys: u64) -> (r: Option<u64>)
        requires
            old(self).wf(),
            phys <= PHYS_MASK,
        ensures
            final(self).wf(),
            (r, final(self)@) == mmio_spec(old(self)@, cr3, phys, 1, MMIO_WINDOW_VA),
    {
        self.mmio_map_region_at(cr3, phys, 1, MMIO_WINDOW_VA)
    }

    /// Map `npages` device pages at `phys` into the shared transient window.
    pub fn mmio_map_region(&mut self, cr3: u64, phys: u64, npages: usize) -> (r: Option<u64>)
        requires
            old(self).wf(),
            phys <= PHYS_MASK,
        ensures
            final(self).wf(),
            (r, final(self)@) == mmio_spec(old(self)@, cr3, phys, npages, MMIO_REGION_VA),
    {
        self.mmio_map_region_at(cr3, phys, npages, MMIO_REGION_VA)
    }
}

/// Frame numbers of the tables a walk has allocated.
pub open spec fn pend_frames(pend: Seq<(u64, u64, u64)>, k: int) -> Set<int> {
    Set::new(|f: int| exists|j: int| k <= j < pend.len() && #[trigger] pend[j].2 as int / 4096 == f)
}

/// The tables of `pend` (from `k`) are distinct, page-aligned frames the
/// allocator can free, none of them free in `a`.
pub open spec fn pend_ok(a: AllocState, pend: Seq<(u64, u64, u64)>, k: int) -> bool {
    &&& forall|j: int| k <= j < pend.len() ==> #[trigger] pend[j].2 % 4096 == 0
    &&& forall|j: int| k <= j < pend.len() ==> 1 <= #[trigger] pend[j].2 as int / 4096 < MAX_FRAMES
    &&& forall|j: int| k <= j < pend.len() ==> !a.free.contains(#[trigger] pend[j].2 as int / 4096)
    &&& forall|i: int, j: int| k <= i < j < pend.len() ==> #[trigger] pend[i].2 != #[trigger] pend[j].2
}

proof fn lemma_free_pending(v: VmView, pend: Seq<(u64, u64, u64)>, k: int)
    requires
        0 <= k <= pend.len(),
        pend_ok(v.alloc, pend, k),
    ensures
        free_pending(v, pend, k).alloc.free == v.alloc.free + pend_frames(pend, k),
        free_pending(v, pend, k).alloc.count == v.alloc.count + (pend.len() - k),
        free_pending(v, pend, k).mem == v.mem,
    decreases pend.len() - k,
{
    if k < pend.len() {
        let v1 = free_spec(v, pend[k].2);
        assert forall|i: int, j: int| k + 1 <= i < j < pend.len() implies #[trigger] pend[i].2 != #[trigger] pend[j].2 by {}
        assert forall|j: int| k + 1 <= j < pend.len() implies !v1.alloc.free.contains(#[trigger] pend[j].2 as int / 4096) by {
            assert(pend[j].2 != pend[k].2);
            assert(pend[j].2 as int / 4096 != pend[k].2 as int / 4096);
        }
        lemma_free_pending(v1, pend, k + 1);
        assert(v1.alloc.free + pend_frames(pend, k + 1) =~= v.alloc.free + pend_frames(pend, k));
    } else {
        assert(v.alloc.free + pend_frames(pend, k) =~= v.alloc.free);
    }
}

/// Memory `m1` agrees with `m0` outside the frames of `free`.
pub open spec fn same_outside(m0: Seq<u64>, m1: Seq<u64>, free: Set<int>) -> bool {
    &&& m1.len() == m0.len()
    &&& forall|a: int| 0 <= a && !free.contains(a / 4096) ==> #[trigger] rd(m1, a) == rd(m0, a)
}

#[verifier::rlimit(40)]
proof fn lemma_mmio_walk_fail(v0: VmView, v: VmView, table: u64, va: u64, level: int, pend: Seq<(u64, u64, u64)>)
    requires
        vm_ok(v0),
        alloc_ok(v.alloc),
        0 <= level <= 3,
        pend_ok(v.alloc, pend, 0),
        v.alloc.free + pend_frames(pend, 0) == v0.alloc.free,
        v.alloc.count + pend.len() == v0.alloc.count,
        same_outside(v0.mem, v.mem, v0.alloc.free),
    ensures
        mmio_walk(v, table, va, level, pend).0 is None ==> {
            let v1 = mmio_walk(v, table, va, level, pend).1;
            &&& v1.alloc.free == v0.alloc.free
            &&& v1.alloc.count == v0.alloc.count
            &&& same_outside(v0.mem, v1.mem, v0.alloc.free)
        },
    decreases 3 - level,
{
    if level < 3 {
        let i = idx(va, level_shift(level));
        let e = rd(v.mem, table + i * 8);
        if present(e) {
            lemma_mmio_walk_fail(v0, v, e & PHYS_MASK, va, level + 1, pend);
        } else {
            lemma_alloc_pick_picks(v.alloc);
            match alloc_pick(v.alloc) {
                None => {
                    lemma_free_pending(v, pend, 0);
                },
                Some(f) => {
                    let n = (f * 4096) as u64;
                    let v1 = alloc_zeroed(v).1;
                    let pend1 = pend.push((table, i, n));
                    crate::pmm::lemma_alloc_ok_steps(v.alloc, f, 0);
                    assert(n as int / 4096 == f);
                    assert forall|j: int| 0 <= j < pend.len() implies #[trigger] pend[j].2 != n by {
                        assert(pend_frames(pend, 0).contains(pend[j].2 as int / 4096));
                    }
                    assert(pend_ok(v1.alloc, pend1, 0)) by {
                        assert forall|i2: int, j2: int| 0 <= i2 < j2 < pend1.len() implies #[trigger] pend1[i2].2 != #[trigger] pend1[j2].2 by {
                            if j2 == pend.len() as int {
                                assert(pend1[i2] == pend[i2]);
                            }
                        }
                        assert forall|j: int| 0 <= j < pend1.len() implies !v1.alloc.free.contains(#[trigger] pend1[j].2 as int / 4096) by {
                            if j < pend.len() {
                                assert(pend1[j] == pend[j]);
                            }
                        }
                    }
                    assert(v1.alloc.free + pend_frames(pend1, 0) =~= v0.alloc.free) by {
                        assert forall|g: int| pend_frames(pend1, 0).contains(g) implies v0.alloc.free.contains(g) by {
                            let j = choose|j: int| 0 <= j < pend1.len() && #[trigger] pend1[j].2 as int / 4096 == g;
                            if j < pend.len() {
                                assert(pend1[j] == pend[j]);
                                assert(pend_frames(pend, 0).contains(g));
                            }
                        }
                        assert forall|g: int| pend_frames(pend, 0).contains(g) implies pend_frames(pend1, 0).contains(g) by {
                            let j = choose|j: int| 0 <= j < pend.len() && #[trigger] pend[j].2 as int / 4096 == g;
                            assert(pend1[j] == pend[j]);
                        }
                        assert(pend1[pend.len() as int].2 as int / 4096 == f);
                    }
                    assert(same_outside(v0.mem, v1.mem, v0.alloc.free)) by {
                        assert forall|a: int| 0 <= a && !v0.alloc.free.contains(a / 4096) implies #[trigger] rd(v1.mem, a) == rd(v0.mem, a) by {
                            assert(rd(v.mem, a) == rd(v0.mem, a));
                            assert(a / 4096 != f);
                        }
                    }
                    lemma_mmio_walk_fail(v0, v1, n, va, level + 1, pend1);
                },
            }
        }
    }
}

/// Mapping a device region is all or nothing: when frames run out, the
/// allocator's free frames and count are what they were and no word of
/// memory outside the free frames has changed, so no table was linked.
pub proof fn law_mmio_map_all_or_nothing(v: VmView, cr3: u64, phys: u64, npages: usize, window: u64)
    requires
        vm_ok(v),
    ensures
        mmio_spec(v, cr3, phys, npages, window).0 is None ==> {
            let v1 = mmio_spec(v, cr3, phys, npages, window).1;
            &&& v1.alloc.free == v.alloc.free
            &&& v1.alloc.count == v.alloc.count
            &&& same_outside(v.mem, v1.mem, v.alloc.free)
        },
{
    assert(pend_frames(seq![], 0) =~= Set::<int>::empty());
    assert(v.alloc.free + Set::<int>::empty() =~= v.alloc.free);
    lemma_mmio_walk_fail(v, v, cr3 & PHYS_MASK, window, 0, seq![]);
}

/// Tables the walk of the window `va` from `table` at `level` has to
/// allocate: none past a present entry's own needs, and every level from the
/// first absent entry down (a fresh table is empty).
pub open spec fn missing_levels(m: Seq<u64>, table: u64, va: u64, level: int) -> int
    decreases 3 - level,
{
    if level < 0 || level >= 3 {
        0
    } else {
        let e = rd(m, table + idx(va, level_shift(level)) * 8);
        if present(e) {
            missing_levels(m, e & PHYS_MASK, va, level + 1)
        } else {
            3 - level
        }
    }
}

proof fn lemma_walk_runs_out(v: VmView, table: u64, va: u64, level: int, pend: Seq<(u64, u64, u64)>)
    requires
        vm_ok(v),
        0 <= level <= 3,
        missing_levels(v.mem, table, va, level) > 0,
        !v.alloc.ready || v.alloc.free.len() < missing_levels(v.mem, table, va, level),
    ensures
        mmio_walk(v, table, va, level, pend).0 is None,
    decreases 3 - level,
{
    let i = idx(va, level_shift(level));
    let e = rd(v.mem, table + i * 8);
    if present(e) {
        lemma_walk_runs_out(v, e & PHYS_MASK, va, level + 1, pend);
    } else {
        lemma_alloc_pick_picks(v.alloc);
        if let Some(f) = alloc_pick(v.alloc) {
            let n = (f * 4096) as u64;
            let v1 = alloc_zeroed(v).1;
            crate::pmm::lemma_alloc_ok_steps(v.alloc, f, 0);
            assert(v1.alloc.free.len() == v.alloc.free.len() - 1);
            if level + 1 < 3 {
                let i1 = idx(va, level_shift(level + 1));
                lemma_pt_bits(0, va, level_shift(level + 1));
                lemma_rd_zero(v.mem, n as int, n + i1 * 8);
                lemma_flag_bits(0);
                assert(!present(rd(v1.mem, n + i1 * 8)));
                lemma_walk_runs_out(v1, n, va, level + 1, pend.push((table, i, n)));
            }
        }
    }
}

/// Mapping a device region fails when the frames run out on the way: if the
/// window's walk needs more new tables than the allocator has free frames,
/// the result is None, and (by `law_mmio_map_all_or_nothing`) nothing is
/// linked and every frame taken is given back.
pub proof fn law_mmio_map_fails_without_frames(v: VmView, cr3: u64, phys: u64, npages: usize, window: u64)
    requires
        vm_ok(v),
        missing_levels(v.mem, cr3 & PHYS_MASK, window, 0) > 0,
        !v.alloc.ready || v.alloc.free.len() < missing_levels(v.mem, cr3 & PHYS_MASK, window, 0),
    ensures
        mmio_spec(v, cr3, phys, npages, window).0 is None,
{
    lemma_walk_runs_out(v, cr3 & PHYS_MASK, window, 0, seq![]);
}

/// The copy-on-write form of a leaf entry: write permission dropped, the
/// copy-on-write mark set.
pub open spec fn cow_form(pte: u64) -> u64 {
    (pte & !PTE_W) | PTE_COW
}

#[verifier::rlimit(40)]
proof fn lemma_fork_pt(v: VmView, p: u64, c: u64, j: int)
    requires
        p % 4096 == 0,
        c % 4096 == 0,
        p != c,
        backed(v.mem, p as int),
        backed(v.mem, c as int),
        0 <= j <= 512,
    ensures
        fork_pt_from(v, p, c, j).mem.len() == v.mem.len(),
        forall|k: int| j <= k < 512 ==> {
            let pte = #[trigger] rd(v.mem, p + k * 8);
            let m2 = fork_pt_from(v, p, c, j).mem;
            &&& present(pte) ==> rd(m2, p + k * 8) == cow_form(pte) && rd(m2, c + k * 8) == cow_form(pte)
            &&& !present(pte) ==> rd(m2, p + k * 8) == pte && rd(m2, c + k * 8) == rd(v.mem, c + k * 8)
        },
    decreases 512 - j,
{
    if j < 512 {
        let a = p + j * 8;
        let b = c + j * 8;
        let pte = rd(v.mem, a);
        let v1 = if present(pte) {
            cow_incr_spec(VmView { mem: wr(wr(v.mem, a, cow_form(pte)), b, cow_form(pte)), ..v }, pte & PHYS_MASK)
        } else {
            v
        };
        assert(fork_pt_from(v, p, c, j) == fork_pt_from(v1, p, c, j + 1));
        lemma_fork_pt(v1, p, c, j + 1);
        let m2 = fork_pt_from(v1, p, c, j + 1).mem;
        assert forall|k: int| j + 1 <= k < 512 implies rd(v1.mem, p + k * 8) == #[trigger] rd(v.mem, p + k * 8) && rd(v1.mem, c + k * 8) == rd(v.mem, c + k * 8) by {
            if present(pte) {
                lemma_rd_wr(v.mem, a, cow_form(pte), p + k * 8);
                lemma_rd_wr(wr(v.mem, a, cow_form(pte)), b, cow_form(pte), p + k * 8);
                lemma_rd_wr(v.mem, a, cow_form(pte), c + k * 8);
                lemma_rd_wr(wr(v.mem, a, cow_form(pte)), b, cow_form(pte), c + k * 8);
            }
        }
        // Entry j is settled after step j and left alone by the later steps.
        lemma_fork_pt_rest(v1, p, c, j + 1, j);
        if present(pte) {
            lemma_rd_wr(v.mem, a, cow_form(pte), a);
            lemma_rd_wr(wr(v.mem, a, cow_form(pte)), b, cow_form(pte), a);
            lemma_rd_wr(wr(v.mem, a, cow_form(pte)), b, cow_form(pte), b);
        }
    }
}

/// Steps `j..512` leave entry `k < j` of both tables alone.
proof fn lemma_fork_pt_rest(v: VmView, p: u64, c: u64, j: int, k: int)
    requires
        p % 4096 == 0,
        c % 4096 == 0,
        p != c,
        backed(v.mem, p as int),
        backed(v.mem, c as int),
        0 <= k < j <= 512,
    ensures
        rd(fork_pt_from(v, p, c, j).mem, p + k * 8) == rd(v.mem, p + k * 8),
        rd(fork_pt_from(v, p, c, j).mem, c + k * 8) == rd(v.mem, c + k * 8),
        fork_pt_from(v, p, c, j).mem.len() == v.mem.len(),
    decreases 512 - j,
{
    if j < 512 {
        let a = p + j * 8;
        let b = c + j * 8;
        let pte = rd(v.mem, a);
        let v1 = if present(pte) {
            cow_incr_spec(VmView { mem: wr(wr(v.mem, a, cow_form(pte)), b, cow_form(pte)), ..v }, pte & PHYS_MASK)
        } else {
            v
        };
        assert(fork_pt_from(v, p, c, j) == fork_pt_from(v1, p, c, j + 1));
        lemma_fork_pt_rest(v1, p, c, j + 1, k);
        if present(pte) {
            lemma_rd_wr(v.mem, a, cow_form(pte), p + k * 8);
            lemma_rd_wr(wr(v.mem, a, cow_form(pte)), b, cow_form(pte), p + k * 8);
            lemma_rd_wr(v.mem, a, cow_form(pte), c + k * 8);
            lemma_rd_wr(wr(v.mem, a, cow_form(pte)), b, cow_form(pte), c + k * 8);
        }
    }
}

/// Forking a page table shares its leaves: afterwards every entry that was
/// present in the parent table holds, in the parent table and in the
/// child's, the parent's entry made read-only and copy-on-write, so both
/// map the same frame and either side's first write faults into
/// `cow_break`; absent entries are left as they were.
pub proof fn law_fork_shares_leaves(v: VmView, p_pt: u64, c_pt: u64)
    requires
        p_pt % 4096 == 0,
        c_pt % 4096 == 0,
        p_pt != c_pt,
        backed(v.mem, p_pt as int),
        backed(v.mem, c_pt as int),
    ensures
        forall|k: int| 0 <= k < 512 ==> {
            let pte = #[trigger] rd(v.mem, p_pt + k * 8);
            let m2 = fork_pt_from(v, p_pt, c_pt, 0).mem;
            &&& present(pte) ==> rd(m2, p_pt + k * 8) == cow_form(pte) && rd(m2, c_pt + k * 8) == cow_form(pte)
            &&& !present(pte) ==> rd(m2, p_pt + k * 8) == pte && rd(m2, c_pt + k * 8) == rd(v.mem, c_pt + k * 8)
        },
{
    lemma_fork_pt(v, p_pt, c_pt, 0);
}

proof fn lemma_cow_entry_bits(fresh: u64, pte: u64)
    by (bit_vector)
    requires
        fresh & 0xFFFu64 == 0,
        fresh <= 0x000F_FFFF_FFFF_F000u64,
        pte & 1u64 != 0,
    ensures
        (fresh | (pte & !0x000F_FFFF_FFFF_F000u64 & !0x200u64) | 0x02u64) & 1u64 != 0,
        (fresh | (pte & !0x000F_FFFF_FFFF_F000u64 & !0x200u64) | 0x02u64) & 0x02u64 != 0,
        (fresh | (pte & !0x000F_FFFF_FFFF_F000u64 & !0x200u64) | 0x02u64) & 0x200u64 == 0,
        (fresh | (pte & !0x000F_FFFF_FFFF_F000u64 & !0x200u64) | 0x02u64) & 0x000F_FFFF_FFFF_F000u64 == fresh,
        ((pte & !0x200u64) | 0x02u64) & 1u64 != 0,
        ((pte & !0x200u64) | 0x02u64) & 0x02u64 != 0,
        ((pte & !0x200u64) | 0x02u64) & 0x200u64 == 0,
        ((pte & !0x200u64) | 0x02u64) & 0x000F_FFFF_FFFF_F000u64 == pte & 0x000F_FFFF_FFFF_F000u64,
{
}

/// Breaking copy-on-write gives the writer its own writable page with what
/// the shared page held: after a successful `cow_break`, the entry for `va`
/// is present, writable and no longer copy-on-write, and the frame it maps
/// reads, word for word, as the shared frame did. When other owners remain
/// (a shared frame), that frame is a fresh one and the shared frame is left
/// untouched for them, so a forked parent and child read the same page until
/// one of them writes.
pub proof fn law_cow_break_private_copy(v: VmView, root: u64, va: u64)
    requires
        vm_ok(v),
        free_backed(v),
        pt_slot(v.mem, root, va) is Some,
        ({
            let s = pt_slot(v.mem, root, va)->0;
            let frame = rd(v.mem, s as int) & PHYS_MASK;
            &&& s % 8 == 0
            &&& !v.alloc.free.contains(s as int / 4096)
            &&& !v.alloc.free.contains(frame as int / 4096)
            &&& !(frame <= s < frame + 4096)
        }),
    ensures
        ({
            let s = pt_slot(v.mem, root, va)->0;
            let pte = rd(v.mem, s as int);
            let frame = pte & PHYS_MASK;
            let (ok, v2) = cow_break_spec(v, root, va);
            let e = rd(v2.mem, s as int);
            let nf = e & PHYS_MASK;
            ok ==> {
                &&& present(e) && e & PTE_W != 0 && e & PTE_COW == 0
                &&& ((frame as int / 4096 < MAX_FRAMES && v.cow[frame as int / 4096] == 0) || nf != frame)
                &&& forall|k: int| 0 <= k < 512 ==> #[trigger] rd(v2.mem, nf + k * 8) == rd(v.mem, frame + k * 8)
                &&& forall|k: int| 0 <= k < 512 ==> #[trigger] rd(v2.mem, frame + k * 8) == rd(v.mem, frame + k * 8)
            }
        }),
{
    let s = pt_slot(v.mem, root, va)->0;
    let pte = rd(v.mem, s as int);
    let frame = pte & PHYS_MASK;
    let i = frame as int / 4096;
    lemma_frame_aligned(pte);
    lemma_pt_bits(pte, va, 12);
    if !present(pte) || pte & PTE_COW == 0 {
        return;
    }
    if i < MAX_FRAMES && v.cow[i] == 0 {
        let v2 = VmView { mem: wr(v.mem, s as int, (pte & !PTE_COW) | PTE_W), ..v };
        assert(cow_break_spec(v, root, va) == (true, v2));
        lemma_flag_bits(0);
        lemma_cow_entry_bits(0, pte);
        lemma_rd_wr(v.mem, s as int, (pte & !PTE_COW) | PTE_W, s as int);
        assert forall|k: int| 0 <= k < 512 implies #[trigger] rd(v2.mem, frame + k * 8) == rd(v.mem, frame + k * 8) by {
            lemma_rd_wr(v.mem, s as int, (pte & !PTE_COW) | PTE_W, frame + k * 8);
        }
        if !(s / 8 < v.mem.len()) {
            assert(v2.mem == v.mem);
        }
    } else {
        lemma_alloc_pick_picks(v.alloc);
        if let Some(f) = alloc_pick(v.alloc) {
            let fresh = (f * 4096) as u64;
            let v1 = alloc_zeroed(v).1;
            lemma_flag_bits(fresh);
            let m2 = copy_frame(v1.mem, frame as int, fresh as int);
            let ne = fresh | (pte & !PHYS_MASK & !PTE_COW) | PTE_W;
            let mem3 = wr(m2, s as int, ne);
            lemma_cow_entry_bits(fresh, pte);
            assert(backed(v.mem, fresh as int));
            assert(fresh != frame);
            assert(!(fresh <= s < fresh + 4096));
            assert(rd(mem3, s as int) == ne);
            assert forall|k: int| 0 <= k < 512 implies #[trigger] rd(mem3, fresh + k * 8) == rd(v.mem, frame + k * 8) by {
                lemma_rd_wr(m2, s as int, ne, fresh + k * 8);
                assert((fresh + k * 8) / 8 == fresh / 8 + k);
                lemma_rd_zero(v.mem, fresh as int, frame + k * 8);
            }
            assert forall|k: int| 0 <= k < 512 implies #[trigger] rd(mem3, frame + k * 8) == rd(v.mem, frame + k * 8) by {
                lemma_rd_wr(m2, s as int, ne, frame + k * 8);
                lemma_rd_zero(v.mem, fresh as int, frame + k * 8);
                if 0 <= frame + k * 8 && (frame + k * 8) / 8 < m2.len() {
                    assert(!(fresh / 8 <= (frame + k * 8) / 8 < fresh / 8 + 512));
                }
            }
        }
    }
}

/// "MM: nx on\n".
pub open spec fn nx_msg() -> Seq<u8> {
    seq![0x4Du8, 0x4D, 0x3A, 0x20, 0x6E, 0x78, 0x20, 0x6F, 0x6E, 0x0A]
}

/// Turns on no-execute support: the low dword of EFER (MSR 0xC0000080) to
/// write back, with NXE (bit 11) set so that PTE bit 63 is honoured, and the
/// boot log line.
pub fn enable_nx(out: &mut Vec<u8>, efer_lo: u32) -> (lo: u32)
    ensures
        lo == efer_lo | 0x800u32,
        final(out)@ == old(out)@ + nx_msg(),
{
    let msg: [u8; 10] = [0x4D, 0x4D, 0x3A, 0x20, 0x6E, 0x78, 0x20, 0x6F, 0x6E, 0x0A];
    assert(msg@ =~= nx_msg());
    crate::serial::serial_write(out, &msg);
    efer_lo | 0x800
}

/// "MM: paging=on\n" and "MM: paging=off\n".
pub open spec fn paging_msg(on: bool) -> Seq<u8> {
    if on {
        seq![0x4Du8, 0x4D, 0x3A, 0x20, 0x70, 0x61, 0x67, 0x69, 0x6E, 0x67, 0x3D, 0x6F, 0x6E, 0x0A]
    } else {
        seq![0x4Du8, 0x4D, 0x3A, 0x20, 0x70, 0x61, 0x67, 0x69, 0x6E, 0x67, 0x3D, 0x6F, 0x66, 0x66, 0x0A]
    }
}

/// Reports whether paging is on: CR0.PG, bit 31 of `cr0`.
pub fn check_paging(out: &mut Vec<u8>, cr0: u64)
    ensures
        final(out)@ == old(out)@ + paging_msg((cr0 / 0x8000_0000) % 2 == 1),
{
    assert((cr0 & 0x8000_0000u64) != 0 <==> (cr0 / 0x8000_0000) % 2 == 1) by (bit_vector);
    if cr0 & 0x8000_0000 != 0 {
        let msg: [u8; 14] = [0x4D, 0x4D, 0x3A, 0x20, 0x70, 0x61, 0x67, 0x69, 0x6E, 0x67, 0x3D, 0x6F, 0x6E, 0x0A];
        assert(msg@ =~= paging_msg(true));
        crate::serial::serial_write(out, &msg);
    } else {
        let msg: [u8; 15] = [0x4D, 0x4D, 0x3A, 0x20, 0x70, 0x61, 0x67, 0x69, 0x6E, 0x67, 0x3D, 0x6F, 0x66, 0x66, 0x0A];
        assert(msg@ =~= paging_msg(false));
        crate::serial::serial_write(out, &msg);
    }
}

} // verus!
