//! IEEE 802.3 CRC-32 (reflected, polynomial 0xEDB88320), the checksum GPT uses
//! for its header and partition array.

use vstd::prelude::*;

verus! {

pub const CRC32_POLY: u32 = 0xEDB8_8320;

/// One bit of the reflected CRC register update.
pub open spec fn crc_shift(c: u32) -> u32 {
    if c & 1 == 1 {
        (c >> 1) ^ CRC32_POLY
    } else {
        c >> 1
    }
}

/// `k` bit steps of the register.
pub open spec fn crc_shifts(c: u32, k: nat) -> u32
    decreases k,
{
    if k == 0 {
        c
    } else {
        crc_shifts(crc_shift(c), (k - 1) as nat)
    }
}

/// The register after absorbing one byte.
pub open spec fn crc_byte(c: u32, b: u8) -> u32 {
    crc_shifts(c ^ (b as u32), 8)
}

/// The register after absorbing `data`, starting from `c`.
pub open spec fn crc_update(c: u32, data: Seq<u8>) -> u32
    decreases data.len(),
{
    if data.len() == 0 {
        c
    } else {
        crc_byte(crc_update(c, data.drop_last()), data.last())
    }
}

/// The CRC-32 of `data`: all-ones initial register, final complement.
pub open spec fn crc32_spec(data: Seq<u8>) -> u32 {
    !crc_update(0xFFFF_FFFF, data)
}

/// Bitwise CRC-32 of `data`.
pub fn crc32(data: &[u8]) -> (r: u32)
    ensures
        r == crc32_spec(data@),
{
    let mut crc: u32 = 0xFFFF_FFFF;
    let mut i: usize = 0;
    while i < data.len()
        invariant
            i <= data.len(),
            crc == crc_update(0xFFFF_FFFF, data@.subrange(0, i as int)),
        decreases data.len() - i,
    {
        let ghost before = crc;
        crc = crc ^ (data[i] as u32);
        let ghost start = crc;
        let mut k: usize = 0;
        while k < 8
            invariant
                k <= 8,
                crc_shifts(crc, (8 - k) as nat) == crc_shifts(start, 8),
            decreases 8 - k,
        {
            let m = 0u32.wrapping_sub(crc & 1);
            let next = (crc >> 1) ^ (CRC32_POLY & m);
            assert(next == crc_shift(crc)) by {
                if crc & 1 == 1 {
                    assert(m == 0xFFFF_FFFFu32);
                    assert(CRC32_POLY & 0xFFFF_FFFFu32 == CRC32_POLY) by (bit_vector);
                } else {
                    assert(crc & 1 == 0) by (bit_vector)
                        requires
                            crc & 1 != 1,
                    ;
                    assert(m == 0u32);
                    assert(CRC32_POLY & 0u32 == 0) by (bit_vector);
                    assert((crc >> 1) ^ 0u32 == crc >> 1) by (bit_vector);
                }
            }
            crc = next;
            k += 1;
        }
        assert(data@.subrange(0, i + 1).drop_last() =~= data@.subrange(0, i as int));
        i += 1;
    }
    assert(data@.subrange(0, data.len() as int) =~= data@);
    !crc
}

proof fn lemma_shift_linear(a: u32, b: u32)
    by (bit_vector)
    ensures
        crc_shift(a) ^ crc_shift(b) == crc_shift(a ^ b),
        a != 0 ==> crc_shift(a) != 0,
{
}

proof fn lemma_shifts_linear(a: u32, b: u32, k: nat)
    ensures
        crc_shifts(a, k) ^ crc_shifts(b, k) == crc_shifts(a ^ b, k),
        a != 0 ==> crc_shifts(a, k) != 0,
    decreases k,
{
    if k > 0 {
        lemma_shift_linear(a, b);
        lemma_shifts_linear(crc_shift(a), crc_shift(b), (k - 1) as nat);
    }
}

proof fn lemma_prefix_diff(data: Seq<u8>, i: int, m: u8, n: int)
    requires
        0 <= i < data.len(),
        m != 0,
        0 <= n <= data.len(),
    ensures
        n <= i ==> crc_update(0xFFFF_FFFF, data.update(i, data[i] ^ m).subrange(0, n)) == crc_update(0xFFFF_FFFF, data.subrange(0, n)),
        n > i ==> crc_update(0xFFFF_FFFF, data.update(i, data[i] ^ m).subrange(0, n)) != crc_update(0xFFFF_FFFF, data.subrange(0, n)),
    decreases n,
{
    let d2 = data.update(i, data[i] ^ m);
    if n <= i {
        assert(d2.subrange(0, n) =~= data.subrange(0, n));
    } else {
        lemma_prefix_diff(data, i, m, n - 1);
        let p1 = data.subrange(0, n);
        let p2 = d2.subrange(0, n);
        assert(p1.drop_last() =~= data.subrange(0, n - 1));
        assert(p2.drop_last() =~= d2.subrange(0, n - 1));
        let c1 = crc_update(0xFFFF_FFFF, data.subrange(0, n - 1));
        let c2 = crc_update(0xFFFF_FFFF, d2.subrange(0, n - 1));
        let b1 = data[n - 1];
        let b2 = d2[n - 1];
        assert(p1.last() == b1 && p2.last() == b2);
        lemma_shifts_linear(c1 ^ (b1 as u32), c2 ^ (b2 as u32), 8);
        if n - 1 == i {
            assert(c1 == c2);
            assert(b2 == b1 ^ m);
            assert((c1 ^ (b1 as u32)) ^ (c1 ^ ((b1 ^ m) as u32)) == m as u32 && m as u32 != 0) by (bit_vector)
                requires
                    m != 0,
            ;
        } else {
            assert(b1 == b2);
            assert(c1 != c2 ==> (c1 ^ (b1 as u32)) ^ (c2 ^ (b1 as u32)) != 0) by (bit_vector);
        }
        let x = crc_shifts(c1 ^ (b1 as u32), 8);
        let y = crc_shifts(c2 ^ (b2 as u32), 8);
        let dd = (c1 ^ (b1 as u32)) ^ (c2 ^ (b2 as u32));
        assert(dd != 0);
        lemma_shifts_linear(dd, 0, 8);
        assert(crc_shifts(dd, 8) != 0);
        assert(x ^ y != 0);
        assert(crc_update(0xFFFF_FFFF, p1) == x);
        assert(crc_update(0xFFFF_FFFF, p2) == y);
        assert(x ^ y != 0 ==> x != y) by (bit_vector);
    }
}

/// CRC-32 detects every single-byte corruption: changing one byte of the
/// data (by any non-zero xor) changes its CRC, so a GPT header damaged in
/// one byte fails its check.
pub proof fn law_crc_detects_byte_change(data: Seq<u8>, i: int, m: u8)
    requires
        0 <= i < data.len(),
        m != 0,
    ensures
        crc32_spec(data.update(i, data[i] ^ m)) != crc32_spec(data),
{
    let n = data.len() as int;
    lemma_prefix_diff(data, i, m, n);
    assert(data.subrange(0, n) =~= data);
    assert(data.update(i, data[i] ^ m).subrange(0, n) =~= data.update(i, data[i] ^ m));
    let x = crc_update(0xFFFF_FFFF, data.update(i, data[i] ^ m));
    let y = crc_update(0xFFFF_FFFF, data);
    assert(x != y ==> !x != !y) by (bit_vector);
}

} // verus!
