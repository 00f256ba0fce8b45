//! ELF64 loader policy: bounds-checked field reads, the image validator that
//! decides whether a user program may be loaded, and the initial auxv.

use vstd::prelude::*;
use crate::bytes::{le16, le32, le64, get_le16, get_le32, get_le64};
use vstd::arithmetic::power2::{pow2, lemma2_to64, lemma_pow2_pos, lemma_pow2_strictly_increases, lemma_pow2_unfold};

verus! {

pub const ELF_V1_MAX_PHNUM: u16 = 32;
pub const ELF_V1_PHDR_SIZE: u16 = 56;
pub const ELF_V1_PT_LOAD: u32 = 1;
pub const ELF_V1_ET_EXEC: u16 = 2;
pub const ELF_V1_USER_LIMIT: u64 = 0x0000_8000_0000_0000;

pub const AUXV_V1_AT_NULL: u64 = 0;
pub const AUXV_V1_AT_PHDR: u64 = 3;
pub const AUXV_V1_AT_PHENT: u64 = 4;
pub const AUXV_V1_AT_PHNUM: u64 = 5;
pub const AUXV_V1_AT_PAGESZ: u64 = 6;
pub const AUXV_V1_AT_ENTRY: u64 = 9;

/// Reads a little-endian `u16` at `off`, or `None` when it does not fit in `buf`.
pub fn elf_v1_read_u16(buf: &[u8], off: usize) -> (r: Option<u16>)
    ensures
        r.is_some() <==> off + 2 <= buf.len(),
        r matches Some(v) ==> v == le16(buf@, off as int),
{
    let end = match off.checked_add(2) {
        Some(e) => e,
        None => return None,
    };
    if end > buf.len() {
        return None;
    }
    Some(get_le16(buf, off))
}

/// Reads a little-endian `u32` at `off`, or `None` when it does not fit in `buf`.
pub fn elf_v1_read_u32(buf: &[u8], off: usize) -> (r: Option<u32>)
    ensures
        r.is_some() <==> off + 4 <= buf.len(),
        r matches Some(v) ==> v == le32(buf@, off as int),
{
    let end = match off.checked_add(4) {
        Some(e) => e,
        None => return None,
    };
    if end > buf.len() {
        return None;
    }
    Some(get_le32(buf, off))
}

/// Reads a little-endian `u64` at `off`, or `None` when it does not fit in `buf`.
pub fn elf_v1_read_u64(buf: &[u8], off: usize) -> (r: Option<u64>)
    ensures
        r.is_some() <==> off + 8 <= buf.len(),
        r matches Some(v) ==> v == le64(buf@, off as int),
{
    let end = match off.checked_add(8) {
        Some(e) => e,
        None => return None,
    };
    if end > buf.len() {
        return None;
    }
    Some(get_le64(buf, off))
}

/// `v` is a power of two: one, or an even number whose half is a power of two.
pub open spec fn is_power_of_two(v: nat) -> bool
    decreases v,
{
    if v <= 1 {
        v == 1
    } else {
        v % 2 == 0 && is_power_of_two(v / 2)
    }
}

proof fn lemma_pow2_bits(v: u64)
    ensures
        (v != 0 && (v & ((v - 1) as u64)) == 0) <==> is_power_of_two(v as nat),
    decreases v,
{
    if v == 0 {
    } else if v == 1 {
        assert((1u64 & 0u64) == 0) by (bit_vector);
    } else if v % 2 == 1 {
        assert((v & ((v - 1) as u64)) != 0) by (bit_vector)
            requires
                v > 1,
                v % 2 == 1,
        ;
    } else {
        let h: u64 = v / 2;
        assert(((v & ((v - 1) as u64)) == 0) <==> ((h & ((h - 1) as u64)) == 0)) by (bit_vector)
            requires
                v > 1,
                v % 2 == 0,
                h == v / 2,
        ;
        lemma_pow2_bits(h);
    }
}

proof fn lemma_power_of_two_is_pow2(v: nat)
    requires
        is_power_of_two(v),
    ensures
        exists|k: nat| pow2(k) == v,
    decreases v,
{
    if v == 1 {
        lemma2_to64();
        assert(pow2(0) == v);
    } else {
        lemma_power_of_two_is_pow2(v / 2);
        let k = choose|k: nat| pow2(k) == v / 2;
        lemma_pow2_unfold(k + 1);
        assert(pow2(k + 1) == v);
    }
}

proof fn lemma_pow2_is_power_of_two(k: nat)
    ensures
        is_power_of_two(pow2(k)),
    decreases k,
{
    if k == 0 {
        lemma2_to64();
    } else {
        lemma_pow2_unfold(k);
        lemma_pow2_pos((k - 1) as nat);
        lemma_pow2_is_power_of_two((k - 1) as nat);
        assert(pow2(k) / 2 == pow2((k - 1) as nat));
    }
}

/// The alignment check accepts exactly the single-bit values: `v` is a
/// power of two if and only if it is `1 << k` for some `k` below 64.
pub proof fn law_pow2_is_one_bit(v: u64)
    ensures
        is_power_of_two(v as nat) <==> exists|k: nat| k < 64 && pow2(k) == v,
{
    if is_power_of_two(v as nat) {
        lemma_power_of_two_is_pow2(v as nat);
        let k = choose|k: nat| pow2(k) == v;
        if k >= 64 {
            lemma2_to64();
            if k > 64 {
                lemma_pow2_strictly_increases(64, k);
            }
        }
        assert(k < 64 && pow2(k) == v);
    }
    if exists|k: nat| k < 64 && pow2(k) == v {
        let k = choose|k: nat| k < 64 && pow2(k) == v;
        lemma_pow2_is_power_of_two(k);
    }
}

/// Whether `v` is a (non-zero) power of two.
pub fn elf_v1_is_pow2(v: u64) -> (r: bool)
    ensures
        r == is_power_of_two(v as nat),
{
    proof {
        lemma_pow2_bits(v);
    }
    v != 0 && (v & (v - 1)) == 0
}

/// The program-header table's location, as the ELF header gives it.
pub open spec fn e_phoff(img: Seq<u8>) -> int {
    le64(img, 32)
}

pub open spec fn e_phentsize(img: Seq<u8>) -> int {
    le16(img, 54)
}

pub open spec fn e_phnum(img: Seq<u8>) -> int {
    le16(img, 56)
}

pub open spec fn e_entry(img: Seq<u8>) -> int {
    le64(img, 24)
}

/// Byte offset of program header `idx`.
pub open spec fn phdr_off(img: Seq<u8>, idx: int) -> int {
    e_phoff(img) + idx * e_phentsize(img)
}

/// The ELF identification and header fields the loader insists on.
pub open spec fn elf_header_ok(img: Seq<u8>) -> bool {
    &&& img.len() >= 64
    &&& img[0] == 0x7F && img[1] == 0x45 && img[2] == 0x4C && img[3] == 0x46
    &&& img[4] == 2 && img[5] == 1 && img[6] == 1
    &&& 0 < e_entry(img) < ELF_V1_USER_LIMIT
    &&& 1 <= e_phnum(img) <= ELF_V1_MAX_PHNUM
    &&& e_phentsize(img) >= ELF_V1_PHDR_SIZE
    &&& e_phoff(img) + e_phentsize(img) * e_phnum(img) <= img.len()
}

/// The program header at `off` is a PT_LOAD entry.
pub open spec fn phdr_is_load(img: Seq<u8>, off: int) -> bool {
    le32(img, off) == ELF_V1_PT_LOAD
}

/// A PT_LOAD entry at `off` describes a segment the loader can honour.
pub open spec fn load_segment_ok(img: Seq<u8>, off: int) -> bool {
    let p_offset = le64(img, off + 8);
    let p_vaddr = le64(img, off + 16);
    let p_filesz = le64(img, off + 32);
    let p_memsz = le64(img, off + 40);
    let p_align = le64(img, off + 48);
    &&& p_memsz >= p_filesz
    &&& (p_align == 0 || is_power_of_two(p_align as nat))
    &&& p_offset + p_filesz <= img.len()
    &&& p_vaddr < ELF_V1_USER_LIMIT
    &&& p_vaddr + p_memsz <= ELF_V1_USER_LIMIT
}

/// A loadable ELF64 user image: a sound header, every PT_LOAD segment inside
/// the file and the user half, and at least one PT_LOAD segment.
pub open spec fn elf_image_valid(img: Seq<u8>) -> bool {
    &&& elf_header_ok(img)
    &&& forall|i: int|
        0 <= i < e_phnum(img) && #[trigger] phdr_is_load(img, phdr_off(img, i)) ==> load_segment_ok(
            img,
            phdr_off(img, i),
        )
    &&& exists|i: int| 0 <= i < e_phnum(img) && #[trigger] phdr_is_load(img, phdr_off(img, i))
}

proof fn lemma_phdr_in_bounds(img: Seq<u8>, i: int)
    requires
        elf_header_ok(img),
        0 <= i < e_phnum(img),
    ensures
        phdr_off(img, i) + ELF_V1_PHDR_SIZE <= img.len(),
        phdr_off(img, i + 1) <= e_phoff(img) + e_phentsize(img) * e_phnum(img),
        phdr_off(img, i + 1) == phdr_off(img, i) + e_phentsize(img),
        0 <= i * e_phentsize(img) <= e_phentsize(img) * e_phnum(img),
{
    let n = e_phnum(img);
    let es = e_phentsize(img);
    assert((i + 1) * es <= es * n) by (nonlinear_arith)
        requires
            i + 1 <= n,
            es >= 0,
    ;
    assert((i + 1) * es == i * es + es) by (nonlinear_arith);
    assert(0 <= i * es) by (nonlinear_arith)
        requires
            i >= 0,
            es >= 0,
    ;
}

/// Decides whether `image` is an ELF64 executable the kernel may load.
pub fn elf_v1_validate_image(image: &[u8]) -> (r: bool)
    ensures
        r == elf_image_valid(image@),
{
    let ghost img = image@;
    if image.len() < 64 {
        return false;
    }
    if image[0] != 0x7F || image[1] != 0x45 || image[2] != 0x4C || image[3] != 0x46 {
        return false;
    }
    if image[4] != 2 || image[5] != 1 || image[6] != 1 {
        return false;
    }
    let e_phoff = match elf_v1_read_u64(image, 32) {
        Some(v) => v,
        None => return false,
    };
    let e_phentsize = match elf_v1_read_u16(image, 54) {
        Some(v) => v,
        None => return false,
    };
    let e_phnum = match elf_v1_read_u16(image, 56) {
        Some(v) => v,
        None => return false,
    };
    let e_entry = match elf_v1_read_u64(image, 24) {
        Some(v) => v,
        None => return false,
    };
    if e_entry == 0 || e_entry >= ELF_V1_USER_LIMIT {
        return false;
    }
    if e_phnum == 0 || e_phnum > ELF_V1_MAX_PHNUM {
        return false;
    }
    if e_phentsize < ELF_V1_PHDR_SIZE {
        return false;
    }
    let phdr_bytes = match (e_phentsize as u64).checked_mul(e_phnum as u64) {
        Some(v) => v,
        None => return false,
    };
    let phdr_end = match e_phoff.checked_add(phdr_bytes) {
        Some(v) => v,
        None => return false,
    };
    if phdr_end > image.len() as u64 {
        assert(!elf_header_ok(img)) by {
            assert(e_phentsize as int * e_phnum as int == phdr_bytes);
        }
        return false;
    }
    assert(elf_header_ok(img)) by {
        assert(e_phentsize as int * e_phnum as int == phdr_bytes);
    }
    let mut load_count: usize = 0;
    let mut idx: usize = 0;
    while idx < e_phnum as usize
        invariant
            elf_header_ok(img),
            img == image@,
            e_phoff == crate::elf::e_phoff(img),
            e_phentsize == crate::elf::e_phentsize(img),
            e_phnum == crate::elf::e_phnum(img),
            0 <= idx <= e_phnum,
            load_count <= idx,
            forall|i: int|
                0 <= i < idx && #[trigger] phdr_is_load(img, phdr_off(img, i)) ==> load_segment_ok(
                    img,
                    phdr_off(img, i),
                ),
            (load_count > 0) <==> exists|i: int|
                0 <= i < idx && #[trigger] phdr_is_load(img, phdr_off(img, i)),
        decreases e_phnum - idx,
    {
        proof {
            lemma_phdr_in_bounds(img, idx as int);
        }
        assert(idx as int * e_phentsize as int <= e_phentsize as int * e_phnum as int);
        assert(e_phoff as int + e_phentsize as int * e_phnum as int <= image.len());
        let off = (e_phoff + (idx as u64) * (e_phentsize as u64)) as usize;
        assert(off == phdr_off(img, idx as int));
        let p_type = match elf_v1_read_u32(image, off) {
            Some(v) => v,
            None => return false,
        };
        if p_type != ELF_V1_PT_LOAD {
            assert(!phdr_is_load(img, phdr_off(img, idx as int)));
            idx += 1;
            continue;
        }
        assert(phdr_is_load(img, phdr_off(img, idx as int)));
        load_count += 1;
        let p_offset = match elf_v1_read_u64(image, off + 8) {
            Some(v) => v,
            None => return false,
        };
        let p_vaddr = match elf_v1_read_u64(image, off + 16) {
            Some(v) => v,
            None => return false,
        };
        let p_filesz = match elf_v1_read_u64(image, off + 32) {
            Some(v) => v,
            None => return false,
        };
        let p_memsz = match elf_v1_read_u64(image, off + 40) {
            Some(v) => v,
            None => return false,
        };
        let p_align = match elf_v1_read_u64(image, off + 48) {
            Some(v) => v,
            None => return false,
        };
        if p_memsz < p_filesz {
            return false;
        }
        if p_align != 0 && !elf_v1_is_pow2(p_align) {
            return false;
        }
        let end_file = match p_offset.checked_add(p_filesz) {
            Some(v) => v,
            None => return false,
        };
        if end_file > image.len() as u64 {
            return false;
        }
        if p_vaddr >= ELF_V1_USER_LIMIT {
            return false;
        }
        let end_vaddr = match p_vaddr.checked_add(p_memsz) {
            Some(v) => v,
            None => return false,
        };
        if end_vaddr > ELF_V1_USER_LIMIT {
            return false;
        }
        idx += 1;
    }
    load_count > 0
}

/// The initial auxiliary vector handed to a freshly loaded program.
pub fn elf_v1_build_auxv(entry: u64, phdr: u64, phent: u64, phnum: u64) -> (r: [(u64, u64); 6])
    ensures
        r@ == seq![
            (AUXV_V1_AT_PHDR, phdr),
            (AUXV_V1_AT_PHENT, phent),
            (AUXV_V1_AT_PHNUM, phnum),
            (AUXV_V1_AT_PAGESZ, 4096u64),
            (AUXV_V1_AT_ENTRY, entry),
            (AUXV_V1_AT_NULL, 0u64),
        ],
{
    [
        (AUXV_V1_AT_PHDR, phdr),
        (AUXV_V1_AT_PHENT, phent),
        (AUXV_V1_AT_PHNUM, phnum),
        (AUXV_V1_AT_PAGESZ, 4096),
        (AUXV_V1_AT_ENTRY, entry),
        (AUXV_V1_AT_NULL, 0),
    ]
}

proof fn lemma_le64_prefix(img: Seq<u8>, tail: Seq<u8>, o: int)
    requires
        0 <= o,
        o + 8 <= img.len(),
    ensures
        le64(img + tail, o) == le64(img, o),
        le32(img + tail, o) == le32(img, o),
        le16(img + tail, o) == le16(img, o),
{
    let j = img + tail;
    assert(j[o] == img[o] && j[o + 1] == img[o + 1] && j[o + 2] == img[o + 2] && j[o + 3] == img[o + 3]);
    assert(j[o + 4] == img[o + 4] && j[o + 5] == img[o + 5] && j[o + 6] == img[o + 6] && j[o + 7] == img[o + 7]);
}

/// Appending bytes to a valid image keeps it valid: every check bounds its
/// offsets by the image length from above and reads only bytes inside the
/// image.
pub proof fn law_append_keeps_image_valid(img: Seq<u8>, tail: Seq<u8>)
    requires
        elf_image_valid(img),
    ensures
        elf_image_valid(img + tail),
{
    let j = img + tail;
    lemma_le64_prefix(img, tail, 24);
    lemma_le64_prefix(img, tail, 32);
    lemma_le64_prefix(img, tail, 48);
    lemma_le64_prefix(img, tail, 54);
    lemma_le64_prefix(img, tail, 56);
    assert(j[0] == img[0] && j[1] == img[1] && j[2] == img[2] && j[3] == img[3]);
    assert(j[4] == img[4] && j[5] == img[5] && j[6] == img[6]);
    assert(elf_header_ok(j));
    assert forall|i: int| 0 <= i < e_phnum(j) implies phdr_off(j, i) == phdr_off(img, i)
        && phdr_is_load(j, phdr_off(j, i)) == phdr_is_load(img, phdr_off(img, i))
        && (phdr_is_load(img, phdr_off(img, i)) ==> load_segment_ok(j, phdr_off(j, i))) by {
        lemma_phdr_in_bounds(img, i);
        let o = phdr_off(img, i);
        assert(0 <= o) by {
            assert(e_phoff(img) >= 0);
        }
        lemma_le64_prefix(img, tail, o);
        lemma_le64_prefix(img, tail, o + 8);
        lemma_le64_prefix(img, tail, o + 16);
        lemma_le64_prefix(img, tail, o + 32);
        lemma_le64_prefix(img, tail, o + 40);
        lemma_le64_prefix(img, tail, o + 48);
    }
    let w = choose|i: int| 0 <= i < e_phnum(img) && #[trigger] phdr_is_load(img, phdr_off(img, i));
    assert(phdr_is_load(j, phdr_off(j, w)));
}

proof fn lemma_le64_same(a: Seq<u8>, b: Seq<u8>, o: int)
    requires
        forall|x: int| o <= x < o + 8 ==> a[x] == b[x],
    ensures
        le64(a, o) == le64(b, o),
        le32(a, o) == le32(b, o),
        le16(a, o) == le16(b, o),
{
    assert(a[o] == b[o] && a[o + 1] == b[o + 1] && a[o + 2] == b[o + 2] && a[o + 3] == b[o + 3]);
    assert(a[o + 4] == b[o + 4] && a[o + 5] == b[o + 5] && a[o + 6] == b[o + 6] && a[o + 7] == b[o + 7]);
}

/// The fields of a program header that is not PT_LOAD, past its type word,
/// are never looked at: changing any of those bytes (outside the ELF header)
/// does not change whether the image is accepted.
pub proof fn law_non_load_header_ignored(img: Seq<u8>, img2: Seq<u8>, i: int)
    requires
        0 <= i < e_phnum(img),
        !phdr_is_load(img, phdr_off(img, i)),
        phdr_off(img, i) + 4 >= 64,
        img2.len() == img.len(),
        forall|b: int| 0 <= b < img.len() && !(phdr_off(img, i) + 4 <= b < phdr_off(img, i) + e_phentsize(img))
            ==> img2[b] == img[b],
    ensures
        elf_image_valid(img2) == elf_image_valid(img),
{
    if img.len() < 64 {
        return;
    }
    lemma_le64_same(img2, img, 24);
    lemma_le64_same(img2, img, 32);
    lemma_le64_same(img2, img, 48);
    lemma_le64_same(img2, img, 54);
    lemma_le64_same(img2, img, 56);
    assert(img2[0] == img[0] && img2[1] == img[1] && img2[2] == img[2] && img2[3] == img[3]);
    assert(img2[4] == img[4] && img2[5] == img[5] && img2[6] == img[6]);
    assert(elf_header_ok(img2) == elf_header_ok(img));
    if !elf_header_ok(img) {
        return;
    }
    let es = e_phentsize(img);
    let oi = phdr_off(img, i);
    assert forall|k: int| 0 <= k < e_phnum(img) implies phdr_off(img2, k) == phdr_off(img, k)
        && phdr_is_load(img2, phdr_off(img2, k)) == phdr_is_load(img, phdr_off(img, k))
        && load_segment_ok(img2, phdr_off(img2, k)) == load_segment_ok(img, phdr_off(img, k)) || k == i by {
        if k != i {
            lemma_phdr_in_bounds(img, k);
            let o = phdr_off(img, k);
            if k < i {
                assert((k + 1) * es <= i * es) by (nonlinear_arith)
                    requires
                        k + 1 <= i,
                        es >= 0,
                ;
                assert((k + 1) * es == k * es + es) by (nonlinear_arith);
            } else {
                assert((i + 1) * es <= k * es) by (nonlinear_arith)
                    requires
                        i + 1 <= k,
                        es >= 0,
                ;
                assert((i + 1) * es == i * es + es) by (nonlinear_arith);
            }
            assert(o >= 0) by {
                assert(0 <= k * es) by (nonlinear_arith)
                    requires
                        k >= 0,
                        es >= 0,
                ;
            }
            lemma_le64_same(img2, img, o);
            lemma_le64_same(img2, img, o + 8);
            lemma_le64_same(img2, img, o + 16);
            lemma_le64_same(img2, img, o + 32);
            lemma_le64_same(img2, img, o + 40);
            lemma_le64_same(img2, img, o + 48);
        }
    }
    lemma_phdr_in_bounds(img, i);
    assert(forall|x: int| oi <= x < oi + 8 ==> x < oi + 4 ==> img2[x] == img[x]);
    assert(le32(img2, oi) == le32(img, oi)) by {
        assert(img2[oi] == img[oi] && img2[oi + 1] == img[oi + 1] && img2[oi + 2] == img[oi + 2] && img2[oi + 3] == img[oi + 3]);
    }
    assert(!phdr_is_load(img2, phdr_off(img2, i)));
    if elf_image_valid(img) {
        let w = choose|k: int| 0 <= k < e_phnum(img) && #[trigger] phdr_is_load(img, phdr_off(img, k));
        assert(phdr_is_load(img2, phdr_off(img2, w)));
    }
    if elf_image_valid(img2) {
        let w = choose|k: int| 0 <= k < e_phnum(img2) && #[trigger] phdr_is_load(img2, phdr_off(img2, k));
        assert(phdr_is_load(img, phdr_off(img, w)));
    }
}

/// Every image the validator accepts keeps each loadable segment inside the
/// image and the user half: for every program header `i` below `e_phnum`
/// (at `e_phoff + i * e_phentsize`) whose type word is PT_LOAD (1), the
/// segment's file bytes `[p_offset, p_offset + p_filesz)` lie within the
/// image, its memory size is at least its file size, and its addresses
/// `[p_vaddr, p_vaddr + p_memsz)` stay below the user limit.
pub proof fn law_accepted_segments_fit(img: Seq<u8>, i: int)
    requires
        elf_image_valid(img),
        0 <= i < img[56] as int + img[57] as int * 256,
        ({
            let off = le64(img, 32) + i * (img[54] as int + img[55] as int * 256);
            img[off] as int + img[off + 1] as int * 256 + img[off + 2] as int * 0x1_0000 + img[off + 3] as int * 0x100_0000 == 1
        }),
    ensures
        ({
            let off = le64(img, 32) + i * (img[54] as int + img[55] as int * 256);
            let p_offset = le64(img, off + 8);
            let p_vaddr = le64(img, off + 16);
            let p_filesz = le64(img, off + 32);
            let p_memsz = le64(img, off + 40);
            &&& p_offset + p_filesz <= img.len()
            &&& p_filesz <= p_memsz
            &&& p_vaddr + p_memsz <= 0x0000_8000_0000_0000
            &&& (le64(img, off + 48) == 0 || exists|k: nat| k < 64 && pow2(k) == le64(img, off + 48))
        }),
{
    assert(phdr_off(img, i) == le64(img, 32) + i * (img[54] as int + img[55] as int * 256));
    assert(phdr_is_load(img, phdr_off(img, i)));
    let a = le64(img, phdr_off(img, i) + 48);
    if a != 0 {
        assert(0 <= a < 0x1_0000_0000_0000_0000);
        law_pow2_is_one_bit(a as u64);
    }
}

/// Every image the validator accepts starts with a 64-bit little-endian ELF
/// identification (0x7F 'E' 'L' 'F', class 2, data 1, version 1), has its
/// entry point inside the user half and above 0, at least one program header
/// of at least 56 bytes, and its program-header table inside the image.
pub proof fn law_accepted_header(img: Seq<u8>)
    requires
        elf_image_valid(img),
    ensures
        img.len() >= 64,
        img[0] == 0x7F && img[1] == 0x45 && img[2] == 0x4C && img[3] == 0x46,
        img[4] == 2 && img[5] == 1 && img[6] == 1,
        0 < le64(img, 24) < 0x0000_8000_0000_0000,
        img[56] as int + img[57] as int * 256 >= 1,
        img[54] as int + img[55] as int * 256 >= 56,
        le64(img, 32) + (img[54] as int + img[55] as int * 256) * (img[56] as int + img[57] as int * 256) <= img.len(),
{
}

} // verus!
