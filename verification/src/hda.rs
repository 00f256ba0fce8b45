//! Intel HD Audio: controller capability decoding, codec verbs, the walk of
//! the codec's widget list for its DAC and output pin, the output stream
//! descriptor, and the PCM buffer and buffer descriptor list of the playback
//! test. The CORB/RIRB exchanges and register polling stay at the edge; what
//! they read comes here and what is decided goes back.

use vstd::prelude::*;
use crate::bytes::lemma_u32_fields;

verus! {

/// Global capabilities (GCAP, bits 0..16), minor (16..24) and major
/// (24..32) version from the controller's first dword.
pub fn hda_decode_caps(d0: u32) -> (r: (u32, u32, u32))
    ensures
        r == (d0 % 65536, (d0 / 65536) % 256, d0 / 0x100_0000),
{
    proof {
        lemma_u32_fields(d0);
    }
    (d0 & 0xFFFF, (d0 >> 16) & 0xFF, (d0 >> 24) & 0xFF)
}

/// Bit `k` of `v`.
pub open spec fn bit16(v: u16, k: int) -> bool {
    (v as int / pow2_16(k)) % 2 == 1
}

/// 2 to the `k`, for `k` in 0..16.
pub open spec fn pow2_16(k: int) -> int
    decreases k,
{
    if k <= 0 {
        1
    } else {
        2 * pow2_16(k - 1)
    }
}

/// The lowest codec address whose STATESTS bit is set.
pub open spec fn first_codec(statests: u16, k: u32) -> bool {
    k < 16 && bit16(statests, k as int) && forall|j: int| 0 <= j < k ==> !bit16(statests, j)
}

/// The first codec that announced itself in STATESTS, or None when none did.
pub fn hda_first_codec(statests: u16) -> (r: Option<u32>)
    ensures
        statests == 0 <==> r is None,
        r matches Some(k) ==> first_codec(statests, k),
{
    if statests == 0 {
        return None;
    }
    let mut k: u32 = 0;
    let mut v: u16 = statests;
    while k < 16
        invariant
            k <= 16,
            statests != 0,
            v != 0,
            v as int == statests as int / pow2_16(k as int),
            forall|j: int| 0 <= j < k ==> !bit16(statests, j),
            pow2_16(k as int) >= 1,
        decreases 16 - k,
    {
        if v % 2 == 1 {
            return Some(k);
        }
        proof {
            assert(pow2_16(k + 1) == 2 * pow2_16(k as int));
            vstd::arithmetic::div_mod::lemma_div_denominator(statests as int, pow2_16(k as int), 2);
        }
        v = v / 2;
        k += 1;
    }
    proof {
        assert(statests as int / pow2_16(16) == 0) by {
            reveal_with_fuel(pow2_16, 17);
            assert(pow2_16(16) == 65536);
        }
    }
    None
}

/// A codec verb word: codec address (bits 28..32), node id (20..28) and the
/// 20-bit verb with its payload.
pub open spec fn verb_word(codec: u32, nid: u32, verb: u32) -> u32 {
    (codec << 28u32) | (nid << 20u32) | verb
}

/// GET_PARAMETER (verb 0xF00) of `param` on node `nid` of codec `codec`.
pub fn hda_get_parameter(codec: u32, nid: u32, param: u32) -> (w: u32)
    ensures
        w == verb_word(codec, nid, 0x000F_0000u32 | param),
{
    (codec << 28) | (nid << 20) | (0x000F_0000 | param)
}

/// Verb `verb` (with its payload) on node `nid` of codec `codec`.
pub fn hda_verb_word(codec: u32, nid: u32, verb: u32) -> (w: u32)
    ensures
        w == verb_word(codec, nid, verb),
{
    (codec << 28) | (nid << 20) | verb
}

/// First node id (bits 16..24) and node count (bits 0..8) of a
/// SUBORDINATE_NODE_COUNT response.
pub fn hda_node_range(resp: u32) -> (r: (u32, u32))
    ensures
        r == ((resp / 65536) % 256, resp % 256),
{
    proof {
        lemma_u32_fields(resp);
    }
    ((resp >> 16) & 0xFF, resp & 0xFF)
}

/// Widget type (bits 20..24) of an AUDIO_WIDGET_CAPABILITIES response:
/// 0 is an audio output (DAC), 4 a pin complex.
pub open spec fn widget_type(cap: u32) -> u32 {
    (cap / 0x10_0000) % 16
}

/// Widgets the driver inspects: at most 16.
pub fn hda_widget_scan_len(count: u32) -> (n: u32)
    ensures
        n == (if count > 16 { 16 } else { count }),
{
    if count > 16 {
        16
    } else {
        count
    }
}

/// Node id of the first inspected widget of type `want`, where `caps[i]` is
/// the capability word of node `start + i`; 0 when there is none.
pub open spec fn find_widget(caps: Seq<u32>, start: u32, want: u32, i: int) -> u32
    decreases caps.len() - i,
{
    if i < 0 || i >= caps.len() {
        0
    } else if widget_type(caps[i]) == want {
        (start + i) as u32
    } else {
        find_widget(caps, start, want, i + 1)
    }
}

/// Scans the widgets' capability words for the first of type `want`.
pub fn hda_find_widget(caps: &[u32], start: u32, want: u32) -> (nid: u32)
    requires
        start + caps.len() <= 0xFF + 16,
    ensures
        nid == find_widget(caps@, start, want, 0),
{
    let mut i: usize = 0;
    while i < caps.len()
        invariant
            i <= caps.len(),
            start + caps.len() <= 0xFF + 16,
            find_widget(caps@, start, want, 0) == find_widget(caps@, start, want, i as int),
        decreases caps.len() - i,
    {
        let cap = caps[i];
        proof {
            lemma_u32_fields(cap);
        }
        if (cap >> 20) & 0xF == want {
            return start + i as u32;
        }
        i += 1;
    }
    0
}

/// Register offset of output stream descriptor 0: output streams follow the
/// input ones, whose count is GCAP bits 8..12, at 0x20 bytes each.
pub fn hda_output_stream_offset(gcap: u16) -> (off: u64)
    ensures
        off == 0x80 + ((gcap / 256) % 16) * 0x20,
{
    assert(((gcap >> 8u16) & 0xFu16) == (gcap / 256) % 16) by (bit_vector);
    let iss = ((gcap >> 8) & 0xF) as u64;
    0x80 + iss * 0x20
}

/// The codec has answered verb number `idx`: the RIRB write pointer's low
/// byte has reached it.
pub fn hda_verb_answered(rirbwp: u16, idx: u16) -> (r: bool)
    ensures
        r == (rirbwp % 256 >= idx),
{
    assert((rirbwp & 0xFFu16) == rirbwp % 256) by (bit_vector);
    (rirbwp & 0xFF) >= idx
}

/// Stream tag used for playback and the stream format (48 kHz, 16-bit, 2
/// channels).
pub const HDA_STREAM: u32 = 1;
pub const HDA_FMT: u32 = 0x0011;

/// The converter setup verbs for DAC `dac` of codec `codec`, in the order
/// sent: power state D0, converter format, stream/channel binding, and
/// output amplifier unmute.
pub open spec fn dac_setup_verbs(codec: u32, dac: u32) -> Seq<u32> {
    let base = (codec << 28u32) | (dac << 20u32);
    seq![base | 0x70500u32, base | 0x20000u32 | HDA_FMT, base | 0x70600u32 | 0x10u32, base | 0x30000u32 | 0xB000u32]
}

/// Builds the converter setup verbs.
pub fn hda_dac_setup_verbs(codec: u32, dac: u32) -> (v: Vec<u32>)
    ensures
        v@ == dac_setup_verbs(codec, dac),
{
    let base = (codec << 28) | (dac << 20);
    let v = vec![base | (0x705 << 8), base | (0x2 << 16) | HDA_FMT, base | (0x706 << 8) | (HDA_STREAM << 4), base | (0x3 << 16) | 0xB000];
    assert(0x705u32 << 8u32 == 0x70500u32 && 2u32 << 16u32 == 0x20000u32 && 0x706u32 << 8u32 == 0x70600u32
        && 1u32 << 4u32 == 0x10u32 && 3u32 << 16u32 == 0x30000u32) by (bit_vector);
    assert(v@ =~= dac_setup_verbs(codec, dac));
    v
}

/// Bytes of the PCM test buffer.
pub const PCM_BYTES: usize = 4096;

/// The PCM test buffer: 16-bit little-endian samples of a square wave that
/// alternates between 0x2000 and 0xE000 every 64 samples.
pub open spec fn pcm_square_wave() -> Seq<u8> {
    Seq::new(
        PCM_BYTES as nat,
        |b: int|
            if b % 2 == 0 {
                0u8
            } else if ((b / 2) / 64) % 2 == 0 {
                0x20u8
            } else {
                0xE0u8
            },
    )
}

/// Builds the PCM test buffer.
pub fn hda_pcm_buffer() -> (buf: Vec<u8>)
    ensures
        buf@ == pcm_square_wave(),
{
    let mut buf: Vec<u8> = Vec::new();
    let mut i: usize = 0;
    while i < PCM_BYTES / 2
        invariant
            i <= PCM_BYTES / 2,
            buf@ == pcm_square_wave().subrange(0, 2 * i as int),
        decreases PCM_BYTES / 2 - i,
    {
        let sample: u16 = if (i / 64) % 2 == 0 { 0x2000 } else { 0xE000 };
        buf.push((sample % 256) as u8);
        buf.push((sample / 256) as u8);
        assert(buf@ =~= pcm_square_wave().subrange(0, 2 * (i + 1)));
        i += 1;
    }
    buf
}

/// One buffer descriptor list entry: a buffer's address, its length, and
/// whether the controller interrupts when it has played it.
#[derive(Clone, Copy, Debug, PartialEq, Eq, Structural)]
pub struct BdlEntry {
    pub addr: u64,
    pub len: u32,
    pub ioc: bool,
}

/// The two-entry list (the minimum the controller takes) for a PCM buffer at
/// `buf`: each entry covers one half, with interrupt on completion.
pub fn hda_bdl(buf: u64) -> (l: [BdlEntry; 2])
    requires
        buf + PCM_BYTES <= u64::MAX,
    ensures
        l@ == seq![BdlEntry { addr: buf, len: 2048, ioc: true }, BdlEntry { addr: (buf + 2048) as u64, len: 2048, ioc: true }],
{
    let half = (PCM_BYTES / 2) as u64;
    let l = [BdlEntry { addr: buf, len: half as u32, ioc: true }, BdlEntry { addr: buf + half, len: half as u32, ioc: true }];
    assert(l@ =~= seq![BdlEntry { addr: buf, len: 2048, ioc: true }, BdlEntry { addr: (buf + 2048) as u64, len: 2048, ioc: true }]);
    l
}

/// Stream descriptor control byte 2: the stream tag in its high nibble.
pub fn hda_stream_tag_byte(stream: u32) -> (b: u8)
    requires
        stream < 16,
    ensures
        b == stream * 16,
{
    (stream * 16) as u8
}

/// The playback test passed: the link position in the buffer moved.
pub fn hda_pcm_progressed(lpib0: u32, lpib: u32) -> (r: bool)
    ensures
        r == (lpib != lpib0),
{
    lpib != lpib0
}

/// Bytes of the persistent playback buffer.
pub const AUDIO_BUF_BYTES: usize = 4096;

/// The playback buffer for `samples`: as much of them as fits, the rest
/// silence. Returns the buffer and how many sample bytes it took.
pub fn hda_audio_fill(samples: &[u8]) -> (r: (Vec<u8>, usize))
    ensures
        r.1 == (if samples.len() > AUDIO_BUF_BYTES { AUDIO_BUF_BYTES } else { samples.len() }),
        r.0@.len() == AUDIO_BUF_BYTES,
        r.0@.subrange(0, r.1 as int) == samples@.subrange(0, r.1 as int),
        forall|i: int| r.1 <= i < AUDIO_BUF_BYTES ==> r.0@[i] == 0,
{
    let n = if samples.len() > AUDIO_BUF_BYTES { AUDIO_BUF_BYTES } else { samples.len() };
    let mut buf: Vec<u8> = Vec::new();
    let mut i: usize = 0;
    while i < AUDIO_BUF_BYTES
        invariant
            i <= AUDIO_BUF_BYTES,
            n <= samples.len(),
            n <= AUDIO_BUF_BYTES,
            buf@.len() == i,
            forall|j: int| 0 <= j < i ==> #[trigger] buf@[j] == (if j < n { samples@[j] } else { 0u8 }),
        decreases AUDIO_BUF_BYTES - i,
    {
        if i < n {
            buf.push(samples[i]);
        } else {
            buf.push(0);
        }
        i += 1;
    }
    assert(buf@.subrange(0, n as int) =~= samples@.subrange(0, n as int));
    (buf, n)
}

/// The block the userspace-audio self-check plays: 512 bytes of 16-bit
/// little-endian samples alternating between 0x3000 and 0xD000 every 32
/// samples.
pub open spec fn audio_test_block() -> Seq<u8> {
    Seq::new(512, |b: int| if b % 2 == 0 { 0u8 } else if ((b - 1) / 64) % 2 == 0 { 0x30u8 } else { 0xD0u8 })
}

/// Builds the self-check's PCM block.
pub fn hda_audio_test_block() -> (pcm: Vec<u8>)
    ensures
        pcm@ == audio_test_block(),
{
    let mut pcm: Vec<u8> = vec![0u8; 512];
    let mut i: usize = 0;
    while i + 1 < 512
        invariant
            i % 2 == 0,
            i <= 512,
            pcm@.len() == 512,
            forall|j: int| 0 <= j < 512 ==> #[trigger] pcm@[j] == (if j < i { audio_test_block()[j] } else { 0u8 }),
        decreases 512 - i,
    {
        let v: u16 = if (i / 64) % 2 == 0 { 0x3000 } else { 0xD000 };
        pcm.set(i, (v % 256) as u8);
        pcm.set(i + 1, (v / 256) as u8);
        assert(((i + 1 - 1) / 64) as int == (i / 64) as int);
        i += 2;
    }
    assert(pcm@ =~= audio_test_block());
    pcm
}

} // verus!
