//! The serial console transcript: what the kernel writes to COM1, modelled as
//! a byte stream the port driver drains, plus the hex and decimal number
//! formatting every boot marker uses.

use vstd::prelude::*;
use vstd::arithmetic::power2::{pow2, lemma2_to64, lemma_pow2_adds, lemma_pow2_pos};
use vstd::arithmetic::div_mod::lemma_div_denominator;
use vstd::bits::lemma_u64_shr_is_div;

verus! {

/// Upper-case hexadecimal digit for a nibble.
pub open spec fn hex_char(d: nat) -> u8 {
    if d < 10 {
        (0x30 + d) as u8
    } else {
        (0x41 + (d - 10)) as u8
    }
}

/// The `k` low-order hexadecimal digits of `v`, most significant first.
pub open spec fn hex_low(v: nat, k: nat) -> Seq<u8>
    decreases k,
{
    if k == 0 {
        Seq::empty()
    } else {
        hex_low(v / 16, (k - 1) as nat).push(hex_char(v % 16))
    }
}

/// The sixteen-digit, zero-padded, upper-case hexadecimal form of `v`.
pub open spec fn hex16(v: u64) -> Seq<u8> {
    hex_low(v as nat, 16)
}

/// The decimal digits of a positive `v`, most significant first.
pub open spec fn dec_nonzero(v: nat) -> Seq<u8>
    decreases v,
{
    if v == 0 {
        Seq::empty()
    } else {
        dec_nonzero(v / 10).push((0x30 + v % 10) as u8)
    }
}

/// The decimal form of `v` without leading zeros ("0" for zero).
pub open spec fn dec_str(v: u64) -> Seq<u8> {
    if v == 0 {
        seq![0x30u8]
    } else {
        dec_nonzero(v as nat)
    }
}

/// Writes `s` to the console transcript.
pub fn serial_write(out: &mut Vec<u8>, s: &[u8])
    ensures
        final(out)@ == old(out)@ + s@,
{
    let ghost start = out@;
    let mut i: usize = 0;
    while i < s.len()
        invariant
            i <= s.len(),
            out@ == start + s@.subrange(0, i as int),
        decreases s.len() - i,
    {
        out.push(s[i]);
        i += 1;
        assert(out@ =~= start + s@.subrange(0, i as int));
    }
    assert(s@.subrange(0, s.len() as int) =~= s@);
}

/// Upper-case hexadecimal digit for `d` (which is below 16).
fn hex_digit(d: u64) -> (c: u8)
    requires
        d < 16,
    ensures
        c == hex_char(d as nat),
{
    let table: [u8; 16] = [
        0x30, 0x31, 0x32, 0x33, 0x34, 0x35, 0x36, 0x37, 0x38, 0x39, 0x41, 0x42, 0x43, 0x44, 0x45,
        0x46,
    ];
    let c = table[d as usize];
    assert(c == hex_char(d as nat)) by {
        assert(table@ == seq![
            0x30u8, 0x31u8, 0x32u8, 0x33u8, 0x34u8, 0x35u8, 0x36u8, 0x37u8, 0x38u8, 0x39u8,
            0x41u8, 0x42u8, 0x43u8, 0x44u8, 0x45u8, 0x46u8,
        ]);
    }
    c
}

/// Writes `val` as sixteen zero-padded upper-case hexadecimal digits.
pub fn serial_write_hex(out: &mut Vec<u8>, val: u64)
    ensures
        final(out)@ == old(out)@ + hex16(val),
{
    let mut buf: Vec<u8> = vec![0x30u8; 16];
    let mut v: u64 = val;
    let mut i: usize = 16;
    while i > 0
        invariant
            0 <= i <= 16,
            buf.len() == 16,
            hex16(val) == hex_low(v as nat, i as nat) + buf@.subrange(i as int, 16),
        decreases i,
    {
        let ghost old_buf = buf@;
        let ghost old_v = v;
        buf.set(i - 1, hex_digit(v % 16));
        v = v / 16;
        i -= 1;
        assert(hex_low(old_v as nat, (i + 1) as nat) == hex_low(v as nat, i as nat).push(
            hex_char(old_v as nat % 16),
        ));
        assert(buf@.subrange(i as int, 16) =~= seq![hex_char(old_v as nat % 16)]
            + old_buf.subrange(i + 1, 16));
        assert(hex_low(v as nat, i as nat) + buf@.subrange(i as int, 16) =~= hex_low(
            old_v as nat,
            (i + 1) as nat,
        ) + old_buf.subrange(i + 1, 16));
    }
    assert(hex_low(v as nat, 0) =~= Seq::<u8>::empty());
    assert(buf@.subrange(0, 16) =~= buf@);
    assert(hex16(val) =~= buf@);
    serial_write(out, buf.as_slice());
}

/// Writes `val` in decimal, without leading zeros.
pub fn serial_write_u64_dec(out: &mut Vec<u8>, val: u64)
    ensures
        final(out)@ == old(out)@ + dec_str(val),
{
    if val == 0 {
        serial_write(out, &[0x30u8]);
        assert(seq![0x30u8] =~= dec_str(val));
        return;
    }
    let mut buf: Vec<u8> = vec![0u8; 20];
    let mut idx: usize = 20;
    let mut value: u64 = val;
    proof {
        reveal_with_fuel(pow10, 21);
        assert(pow10(20) == 100_000_000_000_000_000_000nat);
    }
    while value != 0
        invariant
            0 <= idx <= 20,
            buf.len() == 20,
            dec_str(val) == dec_nonzero(value as nat) + buf@.subrange(idx as int, 20),
            value < pow10(idx as nat),
        decreases value,
    {
        let ghost old_buf = buf@;
        let ghost old_v = value;
        assert(idx > 0);
        assert(pow10(idx as nat) == 10 * pow10((idx - 1) as nat));
        idx -= 1;
        buf.set(idx, 0x30u8 + (value % 10) as u8);
        value = value / 10;
        assert(buf@.subrange(idx as int, 20) =~= seq![(0x30 + old_v % 10) as u8]
            + old_buf.subrange(idx + 1, 20));
        assert(dec_nonzero(value as nat) + buf@.subrange(idx as int, 20) =~= dec_nonzero(
            old_v as nat,
        ) + old_buf.subrange(idx + 1, 20));
    }
    assert(dec_nonzero(0) =~= Seq::<u8>::empty());
    assert(dec_str(val) =~= buf@.subrange(idx as int, 20));
    serial_write(out, &buf.as_slice()[idx..20]);
}

/// Ten to the power `k`.
pub open spec fn pow10(k: nat) -> nat
    decreases k,
{
    if k == 0 {
        1
    } else {
        10 * pow10((k - 1) as nat)
    }
}

/// Upper-cases an ASCII letter, leaving every other byte unchanged.
pub fn ascii_upper(b: u8) -> (r: u8)
    ensures
        r == (if 0x61 <= b <= 0x7A { (b - 32) as u8 } else { b }),
{
    if 0x61 <= b && b <= 0x7A {
        b - 32
    } else {
        b
    }
}

proof fn lemma_hex_low_len(v: nat, k: nat)
    ensures
        hex_low(v, k).len() == k,
    decreases k,
{
    if k > 0 {
        lemma_hex_low_len(v / 16, (k - 1) as nat);
    }
}

proof fn lemma_hex_low_digit(v: nat, k: nat, i: int)
    requires
        0 <= i < k,
    ensures
        hex_low(v, k)[i] == hex_char((v / pow2((4 * (k - 1 - i)) as nat)) % 16),
    decreases k,
{
    lemma_hex_low_len(v / 16, (k - 1) as nat);
    assert(hex_low(v, k) == hex_low(v / 16, (k - 1) as nat).push(hex_char(v % 16)));
    if i == k - 1 {
        lemma2_to64();
        assert((4 * (k - 1 - i)) as nat == 0);
        assert(v / pow2(0) == v);
    } else {
        let j = (4 * (k - 2 - i)) as nat;
        lemma_hex_low_digit(v / 16, (k - 1) as nat, i);
        lemma2_to64();
        lemma_pow2_adds(4, j);
        lemma_pow2_pos(j);
        lemma_div_denominator(v as int, 16, pow2(j) as int);
        assert((4 * (k - 1 - i)) as nat == 4 + j);
        assert(pow2(4 + j) == 16 * pow2(j));
        assert((v / 16) / pow2(j) == v / pow2((4 * (k - 1 - i)) as nat));
        assert(hex_low(v, k)[i] == hex_low(v / 16, (k - 1) as nat)[i]);
    }
}

/// Digit `i` of the hexadecimal form (0 the most significant) is the nibble
/// `(val >> 4 * (15 - i)) & 0xF`, written as an upper-case hexadecimal digit:
/// sixteen zero-padded digits, most significant first.
pub proof fn law_hex_digits_are_nibbles(val: u64, i: int)
    requires
        0 <= i < 16,
    ensures
        hex16(val).len() == 16,
        hex16(val)[i] == hex_char((((val >> ((4 * (15 - i)) as u64)) & 0xFu64) as nat)),
{
    lemma_hex_low_len(val as nat, 16);
    lemma_hex_low_digit(val as nat, 16, i);
    let sh = (4 * (15 - i)) as u64;
    lemma_u64_shr_is_div(val, sh);
    let x = val >> sh;
    assert(x & 0xFu64 == x % 16) by (bit_vector);
}

} // verus!
