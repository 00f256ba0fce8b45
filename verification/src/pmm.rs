//! Physical frame allocator: one bit per 4 KiB frame over the first 4 GiB of
//! physical memory, populated from the bootloader's memory map.

use vstd::prelude::*;

verus! {

pub const FRAME_SIZE: u64 = 4096;
pub const MAX_PHYS: u64 = 0x1_0000_0000;
pub const MAX_FRAMES: usize = 0x10_0000;
pub const BITMAP_WORDS: usize = 0x4000;
pub const LIMINE_MEMMAP_USABLE: u64 = 0;

/// One bootloader memory-map entry.
#[derive(Clone, Copy)]
pub struct MemmapEntry {
    pub base: u64,
    pub length: u64,
    pub typ: u64,
}

/// Bit `b` of word `w` is set.
pub open spec fn word_bit(w: u64, b: int) -> bool {
    (w >> (b as u64)) & 1 == 1
}

/// Frame `f` is marked free in `bitmap`.
pub open spec fn frame_bit(bitmap: Seq<u64>, f: int) -> bool {
    word_bit(bitmap[f / 64], f % 64)
}

proof fn lemma_set_bit(w: u64, b: u64, c: u64)
    by (bit_vector)
    requires
        b < 64,
        c < 64,
    ensures
        ((w | (1u64 << b)) >> c) & 1 == (if c == b { 1u64 } else { (w >> c) & 1 }),
{
}

proof fn lemma_clear_bit(w: u64, b: u64, c: u64)
    by (bit_vector)
    requires
        b < 64,
        c < 64,
    ensures
        ((w & !(1u64 << b)) >> c) & 1 == (if c == b { 0u64 } else { (w >> c) & 1 }),
{
}

proof fn lemma_test_bit(w: u64, b: u64)
    by (bit_vector)
    requires
        b < 64,
    ensures
        ((w & (1u64 << b)) != 0) == ((w >> b) & 1 == 1),
{
}

proof fn lemma_zero_word(w: u64, c: u64)
    by (bit_vector)
    requires
        w == 0,
    ensures
        (w >> c) & 1 == 0,
{
}

/// The frames a usable memory-map entry contributes: those it covers in
/// [1, MAX_FRAMES) (frame 0 is never handed out).
pub open spec fn entry_covers(e: MemmapEntry, f: int) -> bool {
    &&& e.typ == LIMINE_MEMMAP_USABLE
    &&& e.base as int / 4096 <= f < (e.base as int + e.length as int) / 4096
    &&& 1 <= f < MAX_FRAMES
}

/// Number of frames entry `e` contributes.
pub open spec fn entry_count(e: MemmapEntry) -> nat {
    if e.typ != LIMINE_MEMMAP_USABLE {
        0
    } else {
        let lo = if e.base as int / 4096 < 1 { 1 } else { e.base as int / 4096 };
        let end = (e.base as int + e.length as int) / 4096;
        let hi = if end < MAX_FRAMES { end } else { MAX_FRAMES as int };
        if hi > lo {
            (hi - lo) as nat
        } else {
            0
        }
    }
}

/// Total frames the usable entries contribute, counting overlaps twice.
pub open spec fn entries_count(es: Seq<MemmapEntry>) -> nat
    decreases es.len(),
{
    if es.len() == 0 {
        0
    } else {
        entries_count(es.drop_last()) + entry_count(es.last())
    }
}

pub struct Pmm {
    bitmap: Vec<u64>,
    free_frames: u64,
    next_word: usize,
    hhdm: u64,
    ready: bool,
    free: Ghost<Set<int>>,
    overcount: Ghost<nat>,
}

impl Pmm {
    /// The free frames.
    pub closed spec fn free_set(&self) -> Set<int> {
        self.free@
    }

    pub closed spec fn free_count(&self) -> u64 {
        self.free_frames
    }

    /// How far the free counter exceeds the number of free frames (memory-map
    /// entries that overlap count their shared frames twice).
    pub closed spec fn excess(&self) -> nat {
        self.overcount@
    }

    pub closed spec fn is_ready(&self) -> bool {
        self.ready
    }

    pub closed spec fn cursor(&self) -> int {
        self.next_word as int
    }

    pub closed spec fn hhdm_spec(&self) -> u64 {
        self.hhdm
    }

    pub closed spec fn wf(&self) -> bool {
        &&& self.bitmap.len() == BITMAP_WORDS
        &&& self.next_word < BITMAP_WORDS
        &&& self.free@.finite()
        &&& forall|f: int|
            #![trigger self.free@.contains(f)]
            #![trigger frame_bit(self.bitmap@, f)]
            0 <= f < MAX_FRAMES ==> (self.free@.contains(f) <==> frame_bit(self.bitmap@, f))
        &&& forall|f: int| #[trigger] self.free@.contains(f) ==> 1 <= f < MAX_FRAMES
        &&& self.free_frames == self.free@.len() + self.overcount@
        &&& self.overcount@ + MAX_FRAMES <= u64::MAX
    }

    /// Every free frame lies in [1, MAX_FRAMES), so there are fewer than MAX_FRAMES of them.
    pub proof fn lemma_free_bounded(&self)
        requires
            self.wf(),
        ensures
            self.free_set().len() < MAX_FRAMES,
            forall|f: int| #[trigger] self.free_set().contains(f) ==> 1 <= f < MAX_FRAMES,
    {
        let range = Set::new(|f: int| 1 <= f < MAX_FRAMES);
        assert(range =~= vstd::set_lib::set_int_range(1, MAX_FRAMES as int));
        vstd::set_lib::lemma_int_range(1, MAX_FRAMES as int);
        vstd::set_lib::lemma_len_subset(self.free@, range);
    }

    /// An empty allocator (no memory map seen yet).
    pub fn new() -> (p: Pmm)
        ensures
            p.wf(),
            p.free_set() == Set::<int>::empty(),
            p.free_count() == 0,
            !p.is_ready(),
            p.excess() == 0,
            p.hhdm_spec() == 0,
            p.cursor() == 0,
    {
        let p = Pmm {
            bitmap: vec![0u64; BITMAP_WORDS],
            free_frames: 0,
            next_word: 0,
            hhdm: 0,
            ready: false,
            free: Ghost(Set::empty()),
            overcount: Ghost(0),
        };
        assert forall|f: int| 0 <= f < MAX_FRAMES implies (p.free@.contains(f) <==> frame_bit(
            p.bitmap@,
            f,
        )) by {
            lemma_zero_word(p.bitmap@[f / 64], (f % 64) as u64);
        }
        p
    }

    /// The higher-half direct-map offset recorded at initialisation.
    pub fn hhdm_offset(&self) -> (r: u64)
        ensures
            r == self.hhdm_spec(),
    {
        self.hhdm
    }

    /// The direct-map virtual address of physical address `phys`.
    pub fn phys_to_virt(&self, phys: u64) -> (r: u64)
        requires
            phys + self.hhdm_spec() <= u64::MAX,
        ensures
            r == phys + self.hhdm_spec(),
    {
        phys + self.hhdm
    }

    /// Number of free frames the allocator accounts for.
    pub fn free_frames(&self) -> (r: u64)
        ensures
            r == self.free_count(),
    {
        self.free_frames
    }

    /// Whether the allocator has been populated.
    pub fn ready(&self) -> (r: bool)
        ensures
            r == self.is_ready(),
            r == self.alloc_state().ready,
    {
        self.ready
    }

    /// Marks frame `f` free, whether or not it already was, and counts it.
    fn mark_free(&mut self, f: u64)
        requires
            old(self).wf(),
            1 <= f < MAX_FRAMES,
            old(self).free_frames < u64::MAX,
            old(self).free@.contains(f as int) ==> old(self).overcount@ + MAX_FRAMES + 1
                <= u64::MAX,
        ensures
            final(self).wf(),
            final(self).free@ == old(self).free@.insert(f as int),
            final(self).free_frames == old(self).free_frames + 1,
            final(self).overcount@ == old(self).overcount@ + (if old(self).free@.contains(
                f as int,
            ) {
                1nat
            } else {
                0nat
            }),
            final(self).next_word == old(self).next_word,
            final(self).hhdm == old(self).hhdm,
            final(self).ready == old(self).ready,
    {
        let wi = (f / 64) as usize;
        let b = f % 64;
        let old_w = self.bitmap[wi];
        let ghost was = self.free@.contains(f as int);
        self.bitmap.set(wi, old_w | (1u64 << b));
        self.free_frames = self.free_frames + 1;
        proof {
            self.free@ = self.free@.insert(f as int);
            if was {
                self.overcount@ = self.overcount@ + 1;
            }
            assert forall|g: int| 0 <= g < MAX_FRAMES implies (self.free@.contains(g)
                <==> frame_bit(self.bitmap@, g)) by {
                if g / 64 == wi as int {
                    lemma_set_bit(old_w, b, (g % 64) as u64);
                }
            }
        }
    }

    /// Marks the free frame `f` used.
    fn mark_used(&mut self, f: u64)
        requires
            old(self).wf(),
            old(self).free@.contains(f as int),
        ensures
            final(self).wf(),
            final(self).free@ == old(self).free@.remove(f as int),
            final(self).free_frames == old(self).free_frames - 1,
            final(self).overcount == old(self).overcount,
            final(self).next_word == old(self).next_word,
            final(self).hhdm == old(self).hhdm,
            final(self).ready == old(self).ready,
    {
        let wi = (f / 64) as usize;
        let b = f % 64;
        let old_w = self.bitmap[wi];
        self.bitmap.set(wi, old_w & !(1u64 << b));
        self.free_frames = self.free_frames - 1;
        proof {
            self.free@ = self.free@.remove(f as int);
            assert forall|g: int| 0 <= g < MAX_FRAMES implies (self.free@.contains(g)
                <==> frame_bit(self.bitmap@, g)) by {
                if g / 64 == wi as int {
                    lemma_clear_bit(old_w, b, (g % 64) as u64);
                }
            }
        }
    }

    /// Whether frame `f` is free.
    fn is_free(&self, f: u64) -> (r: bool)
        requires
            self.wf(),
            f < MAX_FRAMES,
        ensures
            r == self.free@.contains(f as int),
    {
        let w = self.bitmap[(f / 64) as usize];
        proof {
            lemma_test_bit(w, f % 64);
        }
        w & (1u64 << (f % 64)) != 0
    }

    /// Frees every frame of one usable entry (clamped to [1, MAX_FRAMES)).
    fn add_entry(&mut self, e: MemmapEntry)
        requires
            old(self).wf(),
            e.base + e.length <= u64::MAX,
            old(self).free_frames + entry_count(e) + MAX_FRAMES <= u64::MAX,
        ensures
            final(self).wf(),
            forall|f: int| #[trigger] final(self).free@.contains(f) <==> (old(self).free@.contains(f)
                || entry_covers(e, f)),
            final(self).free_frames == old(self).free_frames + entry_count(e),
            final(self).next_word == old(self).next_word,
            final(self).hhdm == old(self).hhdm,
            final(self).ready == old(self).ready,
    {
        if e.typ != LIMINE_MEMMAP_USABLE {
            return;
        }
        let first = e.base / FRAME_SIZE;
        let end = (e.base + e.length) / FRAME_SIZE;
        let lo: u64 = if first < 1 { 1 } else { first };
        let hi: u64 = if end < MAX_FRAMES as u64 { end } else { MAX_FRAMES as u64 };
        let mut frame = lo;
        let ghost free0 = self.free@;
        let ghost ff0 = self.free_frames;
        while frame < hi
            invariant
                self.wf(),
                lo <= hi ==> lo <= frame <= hi,
                lo > hi ==> frame == lo,
                1 <= lo,
                hi <= MAX_FRAMES,
                lo == (if e.base as int / 4096 < 1 { 1 } else { e.base as int / 4096 }),
                hi == (if (e.base as int + e.length as int) / 4096 < MAX_FRAMES {
                    (e.base as int + e.length as int) / 4096
                } else {
                    MAX_FRAMES as int
                }),
                e.typ == LIMINE_MEMMAP_USABLE,
                forall|f: int| #[trigger] self.free@.contains(f) <==> (free0.contains(f) || (lo <= f
                    < frame)),
                self.free_frames == ff0 + (frame - lo),
                ff0 + entry_count(e) + MAX_FRAMES <= u64::MAX,
                self.next_word == old(self).next_word,
                self.hhdm == old(self).hhdm,
                self.ready == old(self).ready,
            decreases hi - frame,
        {
            proof {
                self.lemma_free_bounded();
            }
            self.mark_free(frame);
            frame += 1;
        }
        assert forall|f: int| #[trigger] self.free@.contains(f) <==> (free0.contains(f)
            || entry_covers(e, f)) by {
        }
    }

    /// Populates the allocator from the bootloader's direct-map offset and
    /// memory map, and reports the result on the console. Without either
    /// response nothing changes and `MM: pmm none` is written.
    pub fn pmm_init(&mut self, out: &mut Vec<u8>, hhdm: Option<u64>, memmap: Option<&[MemmapEntry]>)
        requires
            old(self).wf(),
            memmap matches Some(es) ==> forall|k: int|
                0 <= k < es.len() ==> (#[trigger] es[k]).base + es[k].length <= u64::MAX,
            memmap matches Some(es) ==> old(self).free_count() + entries_count(es@) + MAX_FRAMES
                <= u64::MAX,
        ensures
            final(self).wf(),
            (hhdm is None || memmap is None) ==> {
                &&& *final(self) == *old(self)
                &&& final(out)@ == old(out)@ + pmm_none_msg()
            },
            (hhdm is Some && memmap is Some) ==> {
                let h = hhdm.unwrap();
                let es = memmap.unwrap();
                &&& final(self).hhdm_spec() == h
                &&& forall|f: int| #[trigger] final(self).free_set().contains(f) <==> (old(self).free_set().contains(f)
                    || exists|k: int| 0 <= k < es.len() && entry_covers(#[trigger] es[k], f))
                &&& final(self).free_count() == old(self).free_count() + entries_count(es@)
                &&& final(self).is_ready() == (final(self).free_count() > 0)
                &&& final(self).cursor() == old(self).cursor()
                &&& final(out)@ == old(out)@ + (if final(self).free_count() > 0 {
                    pmm_ok_prefix() + crate::serial::hex16(final(self).free_count()) + seq![0x0Au8]
                } else {
                    pmm_none_msg()
                })
            },
    {
        let (h, es) = match (hhdm, memmap) {
            (Some(h), Some(es)) => (h, es),
            _ => {
                crate::serial::serial_write(out, &pmm_none_bytes());
                return;
            },
        };
        self.hhdm = h;
        let ghost free0 = self.free@;
        let ghost ff0 = self.free_frames;
        let mut i: usize = 0;
        while i < es.len()
            invariant
                self.wf(),
                i <= es.len(),
                forall|k: int| 0 <= k < es.len() ==> (#[trigger] es[k]).base + es[k].length <= u64::MAX,
                ff0 + entries_count(es@) + MAX_FRAMES <= u64::MAX,
                forall|f: int| #[trigger] self.free@.contains(f) <==> (free0.contains(f) || exists|k: int|
                    0 <= k < i && entry_covers(#[trigger] es[k], f)),
                self.free_frames == ff0 + entries_count(es@.subrange(0, i as int)),
                self.next_word == old(self).next_word,
                self.hhdm == h,
                self.ready == old(self).ready,
            decreases es.len() - i,
        {
            let e = es[i];
            proof {
                lemma_entries_count_prefix(es@, (i + 1) as nat);
                assert(es@.subrange(0, i + 1).drop_last() =~= es@.subrange(0, i as int));
            }
            let ghost before = self.free@;
            proof {
                lemma_entries_count_mono(es@, (i + 1) as nat);
            }
            self.add_entry(e);
            assert forall|f: int| #[trigger] self.free@.contains(f) <==> (free0.contains(f) || exists|k: int|
                0 <= k < i + 1 && entry_covers(#[trigger] es[k], f)) by {
                if entry_covers(es[i as int], f) {
                    assert(exists|k: int| 0 <= k < i + 1 && entry_covers(#[trigger] es[k], f));
                }
                if exists|k: int| 0 <= k < i + 1 && entry_covers(#[trigger] es[k], f) {
                    let k = choose|k: int| 0 <= k < i + 1 && entry_covers(#[trigger] es[k], f);
                    if k < i {
                        assert(exists|k: int| 0 <= k < i && entry_covers(#[trigger] es[k], f));
                    }
                }
            }
            i += 1;
        }
        assert(es@.subrange(0, es.len() as int) =~= es@);
        self.ready = self.free_frames > 0;
        if self.ready {
            crate::serial::serial_write(out, &pmm_ok_bytes());
            crate::serial::serial_write_hex(out, self.free_frames);
            crate::serial::serial_write(out, &[0x0Au8]);
            assert(out@ =~= old(out)@ + (pmm_ok_prefix() + crate::serial::hex16(self.free_frames)
                + seq![0x0Au8]));
        } else {
            crate::serial::serial_write(out, &pmm_none_bytes());
        }
    }

    /// Hands out one free frame, returning its physical address, or `None` when
    /// the allocator is not ready or no frame is free. The search starts at the
    /// word that last satisfied an allocation and wraps around; within a word
    /// the lowest free frame is taken.
    pub fn alloc_frame(&mut self) -> (r: Option<u64>)
        requires
            old(self).wf(),
        ensures
            final(self).wf(),
            r is None <==> (!old(self).is_ready() || old(self).free_set().len() == 0),
            r is None ==> *final(self) == *old(self),
            r matches Some(phys) ==> {
                let f = phys as int / 4096;
                &&& phys % 4096 == 0
                &&& old(self).free_set().contains(f)
                &&& final(self).free_set() == old(self).free_set().remove(f)
                &&& final(self).free_count() == old(self).free_count() - 1
                &&& final(self).excess() == old(self).excess()
                &&& final(self).is_ready() == old(self).is_ready()
                &&& final(self).hhdm_spec() == old(self).hhdm_spec()
                &&& final(self).cursor() == f / 64
                &&& forall|g: int| #[trigger] old(self).free_set().contains(g) ==> (word_dist(old(self).cursor(), f / 64) < word_dist(old(self).cursor(), g / 64)
                    || (g / 64 == f / 64 && f <= g))
            },
    {
        if !self.ready {
            return None;
        }
        let mut scanned: usize = 0;
        let mut w = self.next_word;
        while scanned < BITMAP_WORDS
            invariant
                self.wf(),
                *self == *old(self),
                self.ready,
                scanned <= BITMAP_WORDS,
                w < BITMAP_WORDS,
                w == (self.next_word + scanned) % (BITMAP_WORDS as int),
                forall|g: int| #[trigger] self.free@.contains(g) ==> word_dist(self.next_word as int, g / 64) >= scanned,
            decreases BITMAP_WORDS - scanned,
        {
            let word = self.bitmap[w];
            if word != 0 {
                proof {
                    vstd::std_specs::bits::axiom_u64_trailing_zeros(word);
                }
                let bit = word.trailing_zeros() as u64;
                let f = (w as u64) * 64 + bit;
                assert(f as int / 64 == w && f as int % 64 == bit);
                assert(frame_bit(self.bitmap@, f as int));
                proof {
                    assert forall|g: int| #[trigger] self.free@.contains(g) && g / 64 == w as int implies f <= g by {
                        if g < f {
                            let c = (g % 64) as u64;
                            assert(c < bit);
                            assert((word >> c) & 1u64 == 0u64);
                            assert(frame_bit(self.bitmap@, g));
                        }
                    }
                    assert(word_dist(self.next_word as int, w as int) == scanned);
                    assert(self.free@.remove(f as int).len() == self.free@.len() - 1);
                    assert(old(self).free_set().len() > 0);
                }
                self.mark_used(f);
                self.next_word = w;
                return Some(f * FRAME_SIZE);
            }
            proof {
                assert forall|g: int| #[trigger] self.free@.contains(g) implies word_dist(
                    self.next_word as int,
                    g / 64,
                ) >= scanned + 1 by {
                    if word_dist(self.next_word as int, g / 64) == scanned {
                        assert(g / 64 == w);
                        lemma_zero_word(word, (g % 64) as u64);
                        assert(frame_bit(self.bitmap@, g));
                    }
                }
            }
            w = (w + 1) % BITMAP_WORDS;
            scanned += 1;
        }
        proof {
            if self.free@.len() != 0 {
                let g = self.free@.choose();
                assert(self.free@.contains(g));
            }
        }
        None
    }

    /// Returns the frame holding `phys` to the pool. Frame 0, frames beyond
    /// the managed range, and frames already free are ignored.
    pub fn free_frame(&mut self, phys: u64)
        requires
            old(self).wf(),
        ensures
            final(self).wf(),
            ({
                let f = phys as int / 4096;
                if 1 <= f < MAX_FRAMES && !old(self).free_set().contains(f) {
                    &&& final(self).free_set() == old(self).free_set().insert(f)
                    &&& final(self).free_count() == old(self).free_count() + 1
                    &&& final(self).excess() == old(self).excess()
                    &&& final(self).is_ready() == old(self).is_ready()
                    &&& final(self).cursor() == old(self).cursor()
                    &&& final(self).hhdm_spec() == old(self).hhdm_spec()
                } else {
                    *final(self) == *old(self)
                }
            }),
    {
        let frame = phys / FRAME_SIZE;
        if frame == 0 || frame >= MAX_FRAMES as u64 {
            return;
        }
        if !self.is_free(frame) {
            proof {
                self.lemma_free_bounded();
            }
            self.mark_free(frame);
        }
    }

    /// Takes `count` physically contiguous free frames: the lowest run of
    /// `count` consecutive free frames. Returns its physical address, or `None`
    /// when the allocator is not ready, `count` is zero, or no such run exists.
    pub fn alloc_frames_contig(&mut self, count: usize) -> (r: Option<u64>)
        requires
            old(self).wf(),
        ensures
            final(self).wf(),
            r is None <==> (!old(self).is_ready() || count == 0 || !exists|s: int|
                #[trigger] run_free(old(self).free_set(), s, count as int)),
            r is None ==> *final(self) == *old(self),
            r matches Some(phys) ==> {
                let s = phys as int / 4096;
                &&& phys % 4096 == 0
                &&& run_free(old(self).free_set(), s, count as int)
                &&& forall|t: int| #[trigger] run_free(old(self).free_set(), t, count as int) ==> s <= t
                &&& final(self).free_set() == old(self).free_set().difference(frame_range(s, count as int))
                &&& final(self).free_count() == old(self).free_count() - count
                &&& final(self).excess() == old(self).excess()
                &&& final(self).is_ready() == old(self).is_ready()
                &&& final(self).cursor() == old(self).cursor()
                &&& final(self).hhdm_spec() == old(self).hhdm_spec()
            },
    {
        if !self.ready || count == 0 {
            return None;
        }
        let mut run: usize = 0;
        let mut start: u64 = 0;
        let mut frame: u64 = 1;
        proof {
            assert forall|t: int| #[trigger] run_free(self.free@, t, count as int) implies t + count
                > frame by {
                assert(self.free@.contains(t));
            }
        }
        while frame < MAX_FRAMES as u64
            invariant
                self.wf(),
                *self == *old(self),
                self.ready,
                1 <= frame <= MAX_FRAMES,
                count >= 1,
                run < count,
                run > 0 ==> start + run == frame,
                run > 0 ==> start >= 1,
                run > 0 ==> run_free(self.free@, start as int, run as int),
                run < frame ==> !self.free@.contains(frame - run - 1),
                forall|t: int| #[trigger] run_free(self.free@, t, count as int) ==> t + count > frame,
            decreases MAX_FRAMES - frame,
        {
            if self.is_free(frame) {
                if run == 0 {
                    start = frame;
                }
                run += 1;
                if run == count {
                    assert(run_free(self.free@, start as int, count as int));
                    let ghost free0 = self.free@;
                    assert(run_free(old(self).free_set(), start as int, count as int));
                    assert(free0.difference(frame_range(start as int, 0)) =~= free0);
                    let mut f = start;
                    while f < start + count as u64
                        invariant
                            self.wf(),
                            start <= f <= start + count,
                            start + count <= MAX_FRAMES,
                            run_free(free0, start as int, count as int),
                            free0 == old(self).free@,
                            self.free@ == free0.difference(frame_range(start as int, f - start)),
                            self.free_frames == old(self).free_frames - (f - start),
                            self.overcount == old(self).overcount,
                            self.next_word == old(self).next_word,
                            self.hhdm == old(self).hhdm,
                            self.ready == old(self).ready,
                        decreases start + count - f,
                    {
                        assert(free0.contains(f as int));
                        assert(!frame_range(start as int, f - start).contains(f as int));
                        self.mark_used(f);
                        assert(self.free@ =~= free0.difference(frame_range(start as int, f + 1 - start)));
                        f += 1;
                    }
                    assert(run_free(old(self).free_set(), start as int, count as int));
                    return Some(start * FRAME_SIZE);
                }
            } else {
                run = 0;
                start = frame + 1;
            }
            proof {
                // The frame just before the current run is not free, so no run of
                // `count` frames can end at `frame`.
                assert(!self.free@.contains(frame - run));
                assert forall|t: int| #[trigger] run_free(self.free@, t, count as int) implies t
                    + count > frame + 1 by {
                    if t + count == frame + 1 {
                        assert(self.free@.contains(frame - run));
                    }
                }
            }
            frame += 1;
        }
        proof {
            assert forall|t: int| !#[trigger] run_free(self.free@, t, count as int) by {
                if run_free(self.free@, t, count as int) {
                    assert(self.free@.contains(t + count - 1));
                }
            }
        }
        None
    }
}

/// Cyclic distance from word `from` forward to word `to`.
pub open spec fn word_dist(from: int, to: int) -> int {
    (to - from + BITMAP_WORDS) % (BITMAP_WORDS as int)
}

/// The frames `[s, s + n)`.
pub open spec fn frame_range(s: int, n: int) -> Set<int> {
    Set::new(|f: int| s <= f < s + n)
}

/// Frames `[s, s + n)` are all free.
pub open spec fn run_free(free: Set<int>, s: int, n: int) -> bool {
    forall|f: int| s <= f < s + n ==> #[trigger] free.contains(f)
}

proof fn lemma_entries_count_mono(es: Seq<MemmapEntry>, n: nat)
    requires
        n <= es.len(),
    ensures
        entries_count(es.subrange(0, n as int)) <= entries_count(es),
    decreases es.len() - n,
{
    if n < es.len() {
        lemma_entries_count_mono(es, n + 1);
        lemma_entries_count_prefix(es, n + 1);
    } else {
        assert(es.subrange(0, n as int) =~= es);
    }
}

proof fn lemma_entries_count_prefix(es: Seq<MemmapEntry>, n: nat)
    requires
        1 <= n <= es.len(),
    ensures
        entries_count(es.subrange(0, n as int)) == entries_count(es.subrange(0, n - 1)) + entry_count(es[n - 1]),
{
    assert(es.subrange(0, n as int).drop_last() =~= es.subrange(0, n - 1));
}

pub open spec fn pmm_none_msg() -> Seq<u8> {
    seq![0x4Du8, 0x4D, 0x3A, 0x20, 0x70, 0x6D, 0x6D, 0x20, 0x6E, 0x6F, 0x6E, 0x65, 0x0A]
}

pub open spec fn pmm_ok_prefix() -> Seq<u8> {
    seq![0x4Du8, 0x4D, 0x3A, 0x20, 0x70, 0x6D, 0x6D, 0x20, 0x6F, 0x6B, 0x20, 0x66, 0x72, 0x61, 0x6D, 0x65, 0x73, 0x3D, 0x30, 0x78]
}

fn pmm_none_bytes() -> (r: [u8; 13])
    ensures
        r@ == pmm_none_msg(),
{
    let r = [0x4Du8, 0x4D, 0x3A, 0x20, 0x70, 0x6D, 0x6D, 0x20, 0x6E, 0x6F, 0x6E, 0x65, 0x0A];
    assert(r@ =~= pmm_none_msg());
    r
}

fn pmm_ok_bytes() -> (r: [u8; 20])
    ensures
        r@ == pmm_ok_prefix(),
{
    let r = [0x4Du8, 0x4D, 0x3A, 0x20, 0x70, 0x6D, 0x6D, 0x20, 0x6F, 0x6B, 0x20, 0x66, 0x72, 0x61, 0x6D, 0x65, 0x73, 0x3D, 0x30, 0x78];
    assert(r@ =~= pmm_ok_prefix());
    r
}

/// What the page-table code sees of the frame allocator: the free frames,
/// the word the next search starts at, whether it is populated, and its
/// free counter.
pub struct AllocState {
    pub free: Set<int>,
    pub cursor: int,
    pub ready: bool,
    pub count: int,
}

impl Pmm {
    pub closed spec fn alloc_state(&self) -> AllocState {
        AllocState {
            free: self.free@,
            cursor: self.next_word as int,
            ready: self.ready,
            count: self.free_frames as int,
        }
    }
}

/// `f` is the frame `alloc_frame` takes in state `a`: free, in the first
/// word that holds a free frame counting cyclically from the cursor, and the
/// lowest free frame of that word.
pub open spec fn picks(a: AllocState, f: int) -> bool {
    &&& a.free.contains(f)
    &&& forall|g: int| #[trigger] a.free.contains(g) ==> (word_dist(a.cursor, f / 64) < word_dist(a.cursor, g / 64)
        || (g / 64 == f / 64 && f <= g))
}

/// The frame the next allocation takes, or None when it fails.
pub open spec fn alloc_pick(a: AllocState) -> Option<int> {
    if !a.ready || a.free.len() == 0 {
        None
    } else {
        Some(choose|f: int| picks(a, f))
    }
}

/// The allocator after handing out frame `f`.
pub open spec fn alloc_after(a: AllocState, f: int) -> AllocState {
    AllocState { free: a.free.remove(f), cursor: f / 64, ready: a.ready, count: a.count - 1 }
}

/// The allocator after `free_frame(phys)`: the frame becomes free unless it is
/// out of range or already free.
pub open spec fn free_after(a: AllocState, phys: int) -> AllocState {
    let f = phys / 4096;
    if 1 <= f < MAX_FRAMES && !a.free.contains(f) {
        AllocState { free: a.free.insert(f), count: a.count + 1, ..a }
    } else {
        a
    }
}

/// At most one frame is first in the allocator's order.
pub proof fn lemma_picks_unique(a: AllocState, f: int, g: int)
    requires
        picks(a, f),
        picks(a, g),
    ensures
        f == g,
{
}

impl Pmm {
    /// What `alloc_frame` did, read as a function of the allocator state.
    pub proof fn lemma_alloc_functional(p0: Pmm, r: Option<u64>, p1: Pmm)
        requires
            p0.wf(),
            r is None <==> (!p0.is_ready() || p0.free_set().len() == 0),
            r is None ==> p1 == p0,
            r matches Some(phys) ==> {
                let f = phys as int / 4096;
                &&& phys % 4096 == 0
                &&& p0.free_set().contains(f)
                &&& p1.free_set() == p0.free_set().remove(f)
                &&& p1.free_count() == p0.free_count() - 1
                &&& p1.is_ready() == p0.is_ready()
                &&& p1.cursor() == f / 64
                &&& forall|g: int| #[trigger] p0.free_set().contains(g) ==> (word_dist(p0.cursor(), f / 64) < word_dist(p0.cursor(), g / 64)
                    || (g / 64 == f / 64 && f <= g))
            },
        ensures
            r == (match alloc_pick(p0.alloc_state()) {
                Some(f) => Some((f * 4096) as u64),
                None => None,
            }),
            r matches Some(phys) ==> p1.alloc_state() == alloc_after(p0.alloc_state(), phys as int / 4096)
                && 1 <= phys as int / 4096 < MAX_FRAMES && alloc_pick(p0.alloc_state()) == Some(phys as int / 4096)
                && phys % 4096 == 0,
            r is None ==> p1.alloc_state() == p0.alloc_state(),
    {
        if let Some(phys) = r {
            let f = phys as int / 4096;
            let a = p0.alloc_state();
            assert(picks(a, f));
            let c = choose|x: int| picks(a, x);
            lemma_picks_unique(a, f, c);
            p0.lemma_free_bounded();
            assert(p1.alloc_state().free =~= alloc_after(a, f).free);
        }
    }

    /// What `free_frame` did, read as a function of the allocator state.
    pub proof fn lemma_free_functional(p0: Pmm, phys: u64, p1: Pmm)
        requires
            ({
                let f = phys as int / 4096;
                if 1 <= f < MAX_FRAMES && !p0.free_set().contains(f) {
                    &&& p1.free_set() == p0.free_set().insert(f)
                    &&& p1.free_count() == p0.free_count() + 1
                    &&& p1.is_ready() == p0.is_ready()
                    &&& p1.cursor() == p0.cursor()
                } else {
                    p1 == p0
                }
            }),
        ensures
            p1.alloc_state() == free_after(p0.alloc_state(), phys as int),
    {
    }
}

impl Pmm {
    /// The allocator state read through the accessors.
    pub proof fn lemma_state_views(&self)
        ensures
            self.alloc_state().free == self.free_set(),
            self.alloc_state().ready == self.is_ready(),
            self.alloc_state().count == self.free_count(),
            self.alloc_state().cursor == self.cursor(),
    {
    }

    /// What `alloc_frames_contig` did, read as a function of the allocator
    /// state: the run of frames lies in `[1, MAX_FRAMES)` and leaves the free set.
    pub proof fn lemma_contig_functional(p0: Pmm, phys: u64, count: usize, p1: Pmm)
        requires
            p0.wf(),
            count >= 1,
            phys % 4096 == 0,
            run_free(p0.free_set(), phys as int / 4096, count as int),
            p1.free_set() == p0.free_set().difference(frame_range(phys as int / 4096, count as int)),
            p1.free_count() == p0.free_count() - count,
            p1.is_ready() == p0.is_ready(),
            p1.cursor() == p0.cursor(),
        ensures
            1 <= phys as int / 4096,
            phys as int / 4096 + count <= MAX_FRAMES,
            p1.alloc_state() == (AllocState {
                free: p0.alloc_state().free.difference(frame_range(phys as int / 4096, count as int)),
                count: p0.alloc_state().count - count,
                ..p0.alloc_state()
            }),
    {
        let s = phys as int / 4096;
        assert(p0.free@.contains(s));
        assert(p0.free@.contains(s + count - 1));
    }
}

/// What every allocator state satisfies: finitely many free frames, all in
/// `[1, MAX_FRAMES)`, and a cursor inside the bitmap.
pub open spec fn alloc_ok(a: AllocState) -> bool {
    &&& a.free.finite()
    &&& forall|f: int| #[trigger] a.free.contains(f) ==> 1 <= f < MAX_FRAMES
    &&& 0 <= a.cursor < BITMAP_WORDS
}

impl Pmm {
    pub proof fn lemma_alloc_state_ok(&self)
        requires
            self.wf(),
        ensures
            alloc_ok(self.alloc_state()),
    {
    }
}

/// Position of frame `f` in the allocator's search order from `cursor`.
pub open spec fn search_key(cursor: int, f: int) -> int {
    word_dist(cursor, f / 64) * 64 + f % 64
}

/// The allocator's search order, made total by the frame number.
pub open spec fn search_leq(cursor: int) -> spec_fn(int, int) -> bool {
    |x: int, y: int| search_key(cursor, x) < search_key(cursor, y) || (search_key(cursor, x) == search_key(cursor, y) && x <= y)
}

proof fn lemma_search_total(cursor: int)
    ensures
        vstd::relations::total_ordering(search_leq(cursor)),
{
}

proof fn lemma_word_dist_injective(c: int, x: int, y: int)
    requires
        0 <= c < BITMAP_WORDS,
        0 <= x < BITMAP_WORDS,
        0 <= y < BITMAP_WORDS,
        word_dist(c, x) == word_dist(c, y),
    ensures
        x == y,
{
    let n = BITMAP_WORDS as int;
    assert(0 < x - c + n < 2 * n);
    assert(0 < y - c + n < 2 * n);
}

/// Whenever a frame is free, the allocator has one to pick.
pub proof fn lemma_alloc_pick_picks(a: AllocState)
    requires
        alloc_ok(a),
    ensures
        alloc_pick(a) matches Some(f) ==> picks(a, f),
{
    if a.ready && a.free.len() != 0 {
        let r = search_leq(a.cursor);
        lemma_search_total(a.cursor);
        a.free.find_unique_minimal_ensures(r);
        let m = a.free.find_unique_minimal(r);
        a.free.lemma_minimal_equivalent_least(r, m);
        assert forall|g: int| #[trigger] a.free.contains(g) implies (word_dist(a.cursor, m / 64) < word_dist(a.cursor, g / 64)
            || (g / 64 == m / 64 && m <= g)) by {
            assert(r(m, g));
            if word_dist(a.cursor, m / 64) == word_dist(a.cursor, g / 64) {
                lemma_word_dist_injective(a.cursor, m / 64, g / 64);
            }
        }
        assert(picks(a, m));
    }
}

/// Allocating and freeing keep the allocator state well formed.
pub proof fn lemma_alloc_ok_steps(a: AllocState, f: int, phys: int)
    requires
        alloc_ok(a),
        a.free.contains(f),
    ensures
        alloc_ok(alloc_after(a, f)),
        alloc_ok(free_after(a, phys)),
{
}

/// Returning the frame an allocation handed out gives the pool back every
/// frame it had and the count it had; only the search cursor has moved on.
pub proof fn law_free_undoes_alloc(a: AllocState)
    requires
        alloc_ok(a),
        alloc_pick(a) is Some,
    ensures
        ({
            let f = alloc_pick(a)->0;
            free_after(alloc_after(a, f), f * 4096) == AllocState { cursor: f / 64, ..a }
        }),
{
    lemma_alloc_pick_picks(a);
    let f = alloc_pick(a)->0;
    assert((f * 4096) / 4096 == f);
    assert(a.free.remove(f).insert(f) =~= a.free);
}

/// No frame is handed out twice: the next allocation, if any, takes a
/// frame other than the one just handed out.
pub proof fn law_frames_handed_out_once(a: AllocState)
    requires
        alloc_ok(a),
        alloc_pick(a) is Some,
    ensures
        ({
            let f = alloc_pick(a)->0;
            alloc_pick(alloc_after(a, f)) matches Some(g) ==> g != f
        }),
{
    lemma_alloc_pick_picks(a);
    let f = alloc_pick(a)->0;
    lemma_alloc_ok_steps(a, f, 0);
    lemma_alloc_pick_picks(alloc_after(a, f));
}

/// No frame is covered by two entries of the memory map.
pub open spec fn entries_disjoint(es: Seq<MemmapEntry>) -> bool {
    forall|k1: int, k2: int, f: int|
        0 <= k1 < es.len() && 0 <= k2 < es.len() && k1 != k2 && #[trigger] entry_covers(es[k1], f)
            ==> !#[trigger] entry_covers(es[k2], f)
}

/// Frames covered by the first `n` entries.
pub open spec fn covered(es: Seq<MemmapEntry>, n: int) -> Set<int> {
    Set::new(|f: int| exists|k: int| 0 <= k < n && #[trigger] entry_covers(es[k], f))
}

proof fn lemma_entry_set(e: MemmapEntry)
    ensures
        Set::new(|f: int| entry_covers(e, f)).finite(),
        Set::new(|f: int| entry_covers(e, f)).len() == entry_count(e),
{
    let c = Set::new(|f: int| entry_covers(e, f));
    let lo = if e.base as int / 4096 < 1 { 1 } else { e.base as int / 4096 };
    let end = (e.base as int + e.length as int) / 4096;
    let hi = if end < MAX_FRAMES { end } else { MAX_FRAMES as int };
    if e.typ == LIMINE_MEMMAP_USABLE && hi > lo {
        vstd::set_lib::lemma_int_range(lo, hi);
        assert(c =~= vstd::set_lib::set_int_range(lo, hi));
    } else {
        assert(c =~= Set::<int>::empty());
    }
}

proof fn lemma_covered_len(es: Seq<MemmapEntry>, n: int)
    requires
        0 <= n <= es.len(),
        entries_disjoint(es),
    ensures
        covered(es, n).finite(),
        covered(es, n).len() == entries_count(es.subrange(0, n)),
    decreases n,
{
    if n == 0 {
        assert(covered(es, 0) =~= Set::<int>::empty());
    } else {
        lemma_covered_len(es, n - 1);
        let e = es[n - 1];
        let c = Set::new(|f: int| entry_covers(e, f));
        lemma_entry_set(e);
        assert(covered(es, n) =~= covered(es, n - 1) + c) by {
            assert forall|f: int| covered(es, n).contains(f) implies #[trigger] (covered(es, n - 1) + c).contains(f) by {
                let k = choose|k: int| 0 <= k < n && #[trigger] entry_covers(es[k], f);
                if k < n - 1 {
                    assert(covered(es, n - 1).contains(f));
                }
            }
        }
        assert(covered(es, n - 1).disjoint(c)) by {
            assert forall|f: int| covered(es, n - 1).contains(f) implies !#[trigger] c.contains(f) by {
                let k = choose|k: int| 0 <= k < n - 1 && #[trigger] entry_covers(es[k], f);
                assert(entry_covers(es[k], f));
            }
        }
        vstd::set_lib::lemma_set_disjoint_lens(covered(es, n - 1), c);
        let sub = es.subrange(0, n);
        assert(sub.drop_last() =~= es.subrange(0, n - 1));
        assert(sub.last() == e);
    }
}

/// Populating a fresh allocator from a memory map whose entries do not
/// overlap counts every free frame exactly once: the free counter equals
/// the number of free frames (no excess), which the allocations and frees
/// that follow then keep.
pub proof fn law_disjoint_map_counts_exactly(p0: Pmm, es: Seq<MemmapEntry>, p1: Pmm)
    requires
        p0.wf(),
        p0.free_set() == Set::<int>::empty(),
        p0.free_count() == 0,
        entries_disjoint(es),
        p1.wf(),
        forall|f: int| #[trigger] p1.free_set().contains(f) <==> (p0.free_set().contains(f)
            || exists|k: int| 0 <= k < es.len() && entry_covers(#[trigger] es[k], f)),
        p1.free_count() == p0.free_count() + entries_count(es),
    ensures
        p1.excess() == 0,
        p1.free_count() == p1.free_set().len(),
{
    lemma_covered_len(es, es.len() as int);
    assert(p1.free_set() =~= covered(es, es.len() as int));
    assert(es.subrange(0, es.len() as int) =~= es);
}

} // verus!
