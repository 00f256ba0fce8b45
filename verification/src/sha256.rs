//! SHA-256 (FIPS 180-4): the compression function and the padded digest.

use vstd::prelude::*;
use crate::bytes::be32;

verus! {

/// Rotation of a 32-bit word right by `n` places.
pub open spec fn rotr(x: u32, n: u32) -> u32 {
    (x >> n) | (x << ((32 - n) as u32))
}

/// The sixty-four round constants.
pub open spec fn sha_k() -> Seq<u32> {
    seq![
        0x428a2f98u32, 0x71374491, 0xb5c0fbcf, 0xe9b5dba5, 0x3956c25b, 0x59f111f1, 0x923f82a4,
        0xab1c5ed5, 0xd807aa98, 0x12835b01, 0x243185be, 0x550c7dc3, 0x72be5d74, 0x80deb1fe,
        0x9bdc06a7, 0xc19bf174, 0xe49b69c1, 0xefbe4786, 0x0fc19dc6, 0x240ca1cc, 0x2de92c6f,
        0x4a7484aa, 0x5cb0a9dc, 0x76f988da, 0x983e5152, 0xa831c66d, 0xb00327c8, 0xbf597fc7,
        0xc6e00bf3, 0xd5a79147, 0x06ca6351, 0x14292967, 0x27b70a85, 0x2e1b2138, 0x4d2c6dfc,
        0x53380d13, 0x650a7354, 0x766a0abb, 0x81c2c92e, 0x92722c85, 0xa2bfe8a1, 0xa81a664b,
        0xc24b8b70, 0xc76c51a3, 0xd192e819, 0xd6990624, 0xf40e3585, 0x106aa070, 0x19a4c116,
        0x1e376c08, 0x2748774c, 0x34b0bcb5, 0x391c0cb3, 0x4ed8aa4a, 0x5b9cca4f, 0x682e6ff3,
        0x748f82ee, 0x78a5636f, 0x84c87814, 0x8cc70208, 0x90befffa, 0xa4506ceb, 0xbef9a3f7,
        0xc67178f2,
    ]
}

/// The initial hash value H(0).
pub open spec fn sha_h0() -> Seq<u32> {
    seq![
        0x6a09e667u32, 0xbb67ae85, 0x3c6ef372, 0xa54ff53a, 0x510e527f, 0x9b05688c, 0x1f83d9ab,
        0x5be0cd19,
    ]
}

pub open spec fn small_sigma0(x: u32) -> u32 {
    rotr(x, 7) ^ rotr(x, 18) ^ (x >> 3)
}

pub open spec fn small_sigma1(x: u32) -> u32 {
    rotr(x, 17) ^ rotr(x, 19) ^ (x >> 10)
}

pub open spec fn big_sigma0(x: u32) -> u32 {
    rotr(x, 2) ^ rotr(x, 13) ^ rotr(x, 22)
}

pub open spec fn big_sigma1(x: u32) -> u32 {
    rotr(x, 6) ^ rotr(x, 11) ^ rotr(x, 25)
}

/// Message-schedule word `t` of a 64-byte block.
pub open spec fn schedule(block: Seq<u8>, t: int) -> u32
    decreases t,
{
    if t < 16 {
        be32(block, 4 * t) as u32
    } else {
        schedule(block, t - 16).wrapping_add(small_sigma0(schedule(block, t - 15))).wrapping_add(
            schedule(block, t - 7),
        ).wrapping_add(small_sigma1(schedule(block, t - 2)))
    }
}

/// One compression round on the working variables `a..h`.
pub open spec fn round(s: Seq<u32>, k: u32, w: u32) -> Seq<u32> {
    let ch = (s[4] & s[5]) ^ ((!s[4]) & s[6]);
    let t1 = s[7].wrapping_add(big_sigma1(s[4])).wrapping_add(ch).wrapping_add(k).wrapping_add(w);
    let maj = (s[0] & s[1]) ^ (s[0] & s[2]) ^ (s[1] & s[2]);
    let t2 = big_sigma0(s[0]).wrapping_add(maj);
    seq![t1.wrapping_add(t2), s[0], s[1], s[2], s[3].wrapping_add(t1), s[4], s[5], s[6]]
}

/// The working variables after the first `t` rounds.
pub open spec fn rounds(init: Seq<u32>, block: Seq<u8>, t: int) -> Seq<u32>
    decreases t,
{
    if t <= 0 {
        init
    } else {
        round(rounds(init, block, t - 1), sha_k()[t - 1], schedule(block, t - 1))
    }
}

/// The compression function: the state plus the result of sixty-four rounds.
pub open spec fn compress(st: Seq<u32>, block: Seq<u8>) -> Seq<u32> {
    let r = rounds(st, block, 64);
    Seq::new(8, |i: int| st[i].wrapping_add(r[i]))
}

/// The state after the first `n` 64-byte blocks of `msg`.
pub open spec fn hash_blocks(msg: Seq<u8>, n: nat) -> Seq<u32>
    decreases n,
{
    if n == 0 {
        sha_h0()
    } else {
        compress(hash_blocks(msg, (n - 1) as nat), msg.subrange(64 * (n - 1), 64 * n as int))
    }
}

/// The eight big-endian bytes of `v`.
pub open spec fn be64_bytes(v: u64) -> Seq<u8> {
    seq![
        ((v / 0x0100_0000_0000_0000) % 256) as u8,
        ((v / 0x0001_0000_0000_0000) % 256) as u8,
        ((v / 0x0000_0100_0000_0000) % 256) as u8,
        ((v / 0x0000_0001_0000_0000) % 256) as u8,
        ((v / 0x0000_0000_0100_0000) % 256) as u8,
        ((v / 0x0000_0000_0001_0000) % 256) as u8,
        ((v / 0x0000_0000_0000_0100) % 256) as u8,
        (v % 256) as u8,
    ]
}

/// Number of zero bytes between the 0x80 marker and the length field.
pub open spec fn pad_zeros(len: nat) -> nat {
    let r = len % 64;
    if r < 56 {
        (55 - r) as nat
    } else {
        (119 - r) as nat
    }
}

/// The padded message: data, 0x80, zeros, then the bit length (mod 2^64).
pub open spec fn sha256_pad(data: Seq<u8>) -> Seq<u8> {
    data + seq![0x80u8] + Seq::new(pad_zeros(data.len()), |i: int| 0u8) + be64_bytes(
        ((data.len() * 8) % 0x1_0000_0000_0000_0000) as u64,
    )
}

/// The four big-endian bytes of `v`.
pub open spec fn be32_bytes(v: u32) -> Seq<u8> {
    seq![(v / 0x100_0000) as u8, ((v / 0x1_0000) % 256) as u8, ((v / 0x100) % 256) as u8, (v % 256) as u8]
}

/// The 32-byte digest encoding of a final state.
pub open spec fn state_bytes(st: Seq<u32>) -> Seq<u8> {
    Seq::new(32, |i: int| be32_bytes(st[i / 4])[i % 4])
}

/// SHA-256 of `data`.
pub open spec fn sha256_spec(data: Seq<u8>) -> Seq<u8> {
    let p = sha256_pad(data);
    state_bytes(hash_blocks(p, p.len() / 64))
}

/// Rotates `x` right by `n` places (`n` strictly between 0 and 32).
pub fn sha256_rotr(x: u32, n: u32) -> (r: u32)
    requires
        0 < n < 32,
    ensures
        r == rotr(x, n),
{
    (x >> n) | (x << (32 - n))
}

fn sha256_k_table() -> (r: [u32; 64])
    ensures
        r@ == sha_k(),
{
    let k: [u32; 64] = [
        0x428a2f98, 0x71374491, 0xb5c0fbcf, 0xe9b5dba5, 0x3956c25b, 0x59f111f1, 0x923f82a4,
        0xab1c5ed5, 0xd807aa98, 0x12835b01, 0x243185be, 0x550c7dc3, 0x72be5d74, 0x80deb1fe,
        0x9bdc06a7, 0xc19bf174, 0xe49b69c1, 0xefbe4786, 0x0fc19dc6, 0x240ca1cc, 0x2de92c6f,
        0x4a7484aa, 0x5cb0a9dc, 0x76f988da, 0x983e5152, 0xa831c66d, 0xb00327c8, 0xbf597fc7,
        0xc6e00bf3, 0xd5a79147, 0x06ca6351, 0x14292967, 0x27b70a85, 0x2e1b2138, 0x4d2c6dfc,
        0x53380d13, 0x650a7354, 0x766a0abb, 0x81c2c92e, 0x92722c85, 0xa2bfe8a1, 0xa81a664b,
        0xc24b8b70, 0xc76c51a3, 0xd192e819, 0xd6990624, 0xf40e3585, 0x106aa070, 0x19a4c116,
        0x1e376c08, 0x2748774c, 0x34b0bcb5, 0x391c0cb3, 0x4ed8aa4a, 0x5b9cca4f, 0x682e6ff3,
        0x748f82ee, 0x78a5636f, 0x84c87814, 0x8cc70208, 0x90befffa, 0xa4506ceb, 0xbef9a3f7,
        0xc67178f2,
    ];
    assert(k@ =~= sha_k());
    k
}

/// One application of the SHA-256 compression function to `state`.
pub fn sha256_compress(state: &mut [u32; 8], block: &[u8; 64])
    ensures
        final(state)@ == compress(old(state)@, block@),
{
    let kt = sha256_k_table();
    let mut w: Vec<u32> = Vec::new();
    let mut t: usize = 0;
    while t < 16
        invariant
            t <= 16,
            w.len() == t,
            forall|j: int| 0 <= j < t ==> w@[j] == schedule(block@, j),
        decreases 16 - t,
    {
        let j = t * 4;
        let word = (block[j] as u32) * 0x100_0000 + (block[j + 1] as u32) * 0x1_0000 + (block[j
            + 2] as u32) * 0x100 + (block[j + 3] as u32);
        w.push(word);
        t += 1;
    }
    while t < 64
        invariant
            16 <= t <= 64,
            w.len() == t,
            forall|j: int| 0 <= j < t ==> w@[j] == schedule(block@, j),
        decreases 64 - t,
    {
        let s0 = sha256_rotr(w[t - 15], 7) ^ sha256_rotr(w[t - 15], 18) ^ (w[t - 15] >> 3);
        let s1 = sha256_rotr(w[t - 2], 17) ^ sha256_rotr(w[t - 2], 19) ^ (w[t - 2] >> 10);
        let v = w[t - 16].wrapping_add(s0).wrapping_add(w[t - 7]).wrapping_add(s1);
        assert(v == schedule(block@, t as int));
        w.push(v);
        t += 1;
    }
    let ghost init = state@;
    let mut a = state[0];
    let mut b = state[1];
    let mut c = state[2];
    let mut d = state[3];
    let mut e = state[4];
    let mut f = state[5];
    let mut g = state[6];
    let mut h = state[7];
    t = 0;
    while t < 64
        invariant
            t <= 64,
            w.len() == 64,
            forall|j: int| 0 <= j < 64 ==> w@[j] == schedule(block@, j),
            kt@ == sha_k(),
            rounds(init, block@, t as int) == seq![a, b, c, d, e, f, g, h],
        decreases 64 - t,
    {
        let s1 = sha256_rotr(e, 6) ^ sha256_rotr(e, 11) ^ sha256_rotr(e, 25);
        let ch = (e & f) ^ ((!e) & g);
        let temp1 = h.wrapping_add(s1).wrapping_add(ch).wrapping_add(kt[t]).wrapping_add(w[t]);
        let s0 = sha256_rotr(a, 2) ^ sha256_rotr(a, 13) ^ sha256_rotr(a, 22);
        let maj = (a & b) ^ (a & c) ^ (b & c);
        let temp2 = s0.wrapping_add(maj);
        h = g;
        g = f;
        f = e;
        e = d.wrapping_add(temp1);
        d = c;
        c = b;
        b = a;
        a = temp1.wrapping_add(temp2);
        t += 1;
        assert(rounds(init, block@, t as int) =~= seq![a, b, c, d, e, f, g, h]);
    }
    *state = [
        state[0].wrapping_add(a),
        state[1].wrapping_add(b),
        state[2].wrapping_add(c),
        state[3].wrapping_add(d),
        state[4].wrapping_add(e),
        state[5].wrapping_add(f),
        state[6].wrapping_add(g),
        state[7].wrapping_add(h),
    ];
    assert(state@ =~= compress(init, block@));
}

/// Copies the 64 bytes of `data` at `off` into a block.
fn load_block(data: &[u8], off: usize) -> (b: [u8; 64])
    requires
        off + 64 <= data.len(),
    ensures
        b@ == data@.subrange(off as int, off + 64),
{
    let mut b = [0u8; 64];
    let mut i: usize = 0;
    while i < 64
        invariant
            i <= 64,
            off + 64 <= data.len(),
            forall|j: int| 0 <= j < i ==> b@[j] == data@[off + j],
        decreases 64 - i,
    {
        b[i] = data[off + i];
        i += 1;
    }
    assert(b@ =~= data@.subrange(off as int, off + 64));
    b
}

proof fn lemma_pad_len(len: nat)
    ensures
        (len + 1 + pad_zeros(len) + 8) % 64 == 0,
        len % 64 < 56 ==> len + 1 + pad_zeros(len) + 8 == (len / 64) * 64 + 64,
        len % 64 >= 56 ==> len + 1 + pad_zeros(len) + 8 == (len / 64) * 64 + 128,
{
}

proof fn lemma_hash_blocks_prefix(p: Seq<u8>, q: Seq<u8>, n: nat)
    requires
        64 * n <= p.len(),
        64 * n <= q.len(),
        p.subrange(0, 64 * n as int) == q.subrange(0, 64 * n as int),
    ensures
        hash_blocks(p, n) == hash_blocks(q, n),
    decreases n,
{
    if n > 0 {
        assert(p.subrange(0, 64 * (n - 1)) =~= p.subrange(0, 64 * n as int).subrange(0, 64 * (n - 1)));
        assert(q.subrange(0, 64 * (n - 1)) =~= q.subrange(0, 64 * n as int).subrange(0, 64 * (n - 1)));
        lemma_hash_blocks_prefix(p, q, (n - 1) as nat);
        assert(p.subrange(64 * (n - 1), 64 * n as int) =~= p.subrange(0, 64 * n as int).subrange(
            64 * (n - 1),
            64 * n as int,
        ));
        assert(q.subrange(64 * (n - 1), 64 * n as int) =~= q.subrange(0, 64 * n as int).subrange(
            64 * (n - 1),
            64 * n as int,
        ));
    }
}

/// The eight big-endian bytes of `v`, computed.
fn be64_of(v: u64) -> (r: [u8; 8])
    ensures
        r@ == be64_bytes(v),
{
    let r = [
        ((v / 0x0100_0000_0000_0000) % 256) as u8,
        ((v / 0x0001_0000_0000_0000) % 256) as u8,
        ((v / 0x0000_0100_0000_0000) % 256) as u8,
        ((v / 0x0000_0001_0000_0000) % 256) as u8,
        ((v / 0x0000_0000_0100_0000) % 256) as u8,
        ((v / 0x0000_0000_0001_0000) % 256) as u8,
        ((v / 0x0000_0000_0000_0100) % 256) as u8,
        (v % 256) as u8,
    ];
    assert(r@ =~= be64_bytes(v));
    r
}

/// SHA-256 digest of `data`.
pub fn sha256_digest(data: &[u8]) -> (r: [u8; 32])
    ensures
        r@ == sha256_spec(data@),
{
    let ghost p = sha256_pad(data@);
    proof {
        lemma_pad_len(data.len() as nat);
        assert(p.subrange(0, data.len() as int) =~= data@);
    }
    let mut state: [u32; 8] = [
        0x6a09e667, 0xbb67ae85, 0x3c6ef372, 0xa54ff53a, 0x510e527f, 0x9b05688c, 0x1f83d9ab,
        0x5be0cd19,
    ];
    assert(state@ =~= sha_h0());
    let mut offset: usize = 0;
    while data.len() - offset >= 64
        invariant
            offset <= data.len(),
            offset % 64 == 0,
            p == sha256_pad(data@),
            p.subrange(0, data.len() as int) == data@,
            state@ == hash_blocks(p, (offset / 64) as nat),
        decreases data.len() - offset,
    {
        let block = load_block(data, offset);
        let ghost n = (offset / 64) as nat;
        assert(p.subrange(64 * n as int, 64 * (n + 1) as int) =~= data@.subrange(
            offset as int,
            offset + 64,
        )) by {
            assert forall|j: int| 0 <= j < 64 implies #[trigger] p.subrange(
                64 * n as int,
                64 * (n + 1) as int,
            )[j] == data@.subrange(offset as int, offset + 64)[j] by {
                assert(p.subrange(0, data.len() as int)[offset + j] == p[offset + j]);
            }
        }
        sha256_compress(&mut state, &block);
        offset += 64;
        assert((offset / 64) as nat == n + 1);
    }
    let ghost nb = (offset / 64) as nat;
    let rem = data.len() - offset;
    assert(rem == data.len() % 64);
    let mut block = [0u8; 64];
    let mut i: usize = 0;
    while i < rem
        invariant
            i <= rem,
            rem < 64,
            offset + rem == data.len(),
            forall|j: int| 0 <= j < i ==> block@[j] == data@[offset + j],
            forall|j: int| i <= j < 64 ==> block@[j] == 0,
        decreases rem - i,
    {
        block[i] = data[offset + i];
        i += 1;
    }
    block[rem] = 0x80;
    let bit_len = (data.len() as u64).wrapping_mul(8);
    assert(bit_len == ((data.len() * 8) % 0x1_0000_0000_0000_0000) as u64);
    let len_bytes = be64_of(bit_len);
    let ghost zs = pad_zeros(data.len() as nat);
    assert(p.len() == data.len() + 1 + zs + 8);
    if rem >= 56 {
        assert(p.subrange(64 * nb as int, 64 * (nb + 1) as int) =~= block@) by {
            assert forall|j: int| 0 <= j < 64 implies #[trigger] p.subrange(
                64 * nb as int,
                64 * (nb + 1) as int,
            )[j] == block@[j] by {
                if j < rem {
                    assert(p.subrange(0, data.len() as int)[offset + j] == p[offset + j]);
                }
            }
        }
        sha256_compress(&mut state, &block);
        assert(state@ == hash_blocks(p, nb + 1));
        block = [0u8; 64];
    }
    let ghost last = if rem >= 56 { nb + 1 } else { nb };
    let mut k: usize = 0;
    while k < 8
        invariant
            k <= 8,
            len_bytes@ == be64_bytes(bit_len),
            forall|j: int| 56 <= j < 56 + k ==> block@[j] == len_bytes@[j - 56],
            forall|j: int| 0 <= j < 56 ==> block@[j] == (if rem >= 56 { 0u8 } else if j < rem {
                data@[offset + j]
            } else if j == rem {
                0x80u8
            } else {
                0u8
            }),
        decreases 8 - k,
    {
        block[56 + k] = len_bytes[k];
        k += 1;
    }
    assert(p.subrange(64 * last as int, 64 * (last + 1) as int) =~= block@) by {
        assert forall|j: int| 0 <= j < 64 implies #[trigger] p.subrange(
            64 * last as int,
            64 * (last + 1) as int,
        )[j] == block@[j] by {
            if rem < 56 && j < rem {
                assert(p.subrange(0, data.len() as int)[offset + j] == p[offset + j]);
            }
        }
    }
    assert(state@ == hash_blocks(p, last));
    sha256_compress(&mut state, &block);
    assert(p.len() / 64 == last + 1);
    assert(state@ == hash_blocks(p, last + 1));
    let mut out = [0u8; 32];
    let mut w: usize = 0;
    while w < 8
        invariant
            w <= 8,
            state@ == hash_blocks(p, (p.len() / 64) as nat),
            forall|j: int| 0 <= j < 4 * w ==> out@[j] == state_bytes(state@)[j],
        decreases 8 - w,
    {
        let v = state[w];
        out[4 * w] = (v / 0x100_0000) as u8;
        out[4 * w + 1] = ((v / 0x1_0000) % 256) as u8;
        out[4 * w + 2] = ((v / 0x100) % 256) as u8;
        out[4 * w + 3] = (v % 256) as u8;
        w += 1;
    }
    assert(out@ =~= sha256_spec(data@));
    out
}

/// The digest is FIPS 180-4 SHA-256: it is the compression chain, from the
/// standard initial state, over the message padded as the standard says — the
/// data, one 0x80 byte, zero bytes, and the data's length in bits modulo
/// 2^64 as eight big-endian bytes, to the first multiple of 64 bytes that
/// holds them all. Any `m` laid out that way gives the digest.
pub proof fn law_digest_is_fips_padding(data: Seq<u8>, m: Seq<u8>)
    requires
        m.len() % 64 == 0,
        data.len() + 9 <= m.len() < data.len() + 73,
        forall|i: int| 0 <= i < data.len() ==> m[i] == data[i],
        m[data.len() as int] == 0x80,
        forall|i: int| data.len() < i < m.len() - 8 ==> m[i] == 0,
        ({
            let b = (data.len() * 8) % 0x1_0000_0000_0000_0000;
            let n = m.len() as int;
            &&& m[n - 8] as int == (b / 0x0100_0000_0000_0000) % 256
            &&& m[n - 7] as int == (b / 0x0001_0000_0000_0000) % 256
            &&& m[n - 6] as int == (b / 0x0000_0100_0000_0000) % 256
            &&& m[n - 5] as int == (b / 0x0000_0001_0000_0000) % 256
            &&& m[n - 4] as int == (b / 0x0000_0000_0100_0000) % 256
            &&& m[n - 3] as int == (b / 0x0000_0000_0001_0000) % 256
            &&& m[n - 2] as int == (b / 0x0000_0000_0000_0100) % 256
            &&& m[n - 1] as int == b % 256
        }),
    ensures
        sha256_spec(data) == state_bytes(hash_blocks(m, m.len() / 64)),
{
    let len = data.len();
    let p = sha256_pad(data);
    lemma_pad_len(len);
    let n = m.len() as int;
    let pl = p.len() as int;
    assert(pl == len + 1 + pad_zeros(len) + 8);
    assert(n == pl) by {
        let a = n / 64;
        let c = pl / 64;
        assert(n == a * 64);
        assert(pl == c * 64);
        assert(a == c) by (nonlinear_arith)
            requires
                n == a * 64,
                pl == c * 64,
                n - pl < 64,
                pl - n < 64,
        ;
    }
    let b = (len * 8) % 0x1_0000_0000_0000_0000;
    let v = b as u64;
    assert(v as int == b);
    let z = Seq::new(pad_zeros(len), |i: int| 0u8);
    assert(p == data + seq![0x80u8] + z + be64_bytes(v));
    assert forall|i: int| 0 <= i < n implies m[i] == p[i] by {
        if i < len {
        } else if i == len {
        } else if i < n - 8 {
            assert(p[i] == z[i - len - 1]);
        } else {
            assert(p[i] == be64_bytes(v)[i - (n - 8)]);
        }
    }
    assert(m =~= p);
}

} // verus!
