//! GUID partition tables: the header at LBA 1, the walk over the first
//! entries of the partition array, and the header CRC that GPT consumers
//! check (computed with the CRC field zeroed, stored little-endian at 16).

use vstd::prelude::*;
use crate::bytes::{le32, le64, get_le32, get_le64};
use crate::crc32::{crc32, crc32_spec};
use crate::fat16::{sec_ok, sector_readable, sector_base};
use crate::serial::{hex16, serial_write, serial_write_hex};

verus! {

/// Byte offset of the GPT header (LBA 1).
pub const GPT_HDR: usize = 512;

/// Entries the walk inspects at most.
pub const GPT_MAX_ENTRIES: u64 = 16;

/// Size of the header the CRC covers.
pub const GPT_HDR_SIZE: usize = 92;

/// "EFI PART".
pub open spec fn efi_part() -> Seq<u8> {
    seq![0x45u8, 0x46, 0x49, 0x20, 0x50, 0x41, 0x52, 0x54]
}

pub open spec fn gpt_entry_lba(d: Seq<u8>) -> int {
    le64(d, GPT_HDR + 72)
}

pub open spec fn gpt_num_entries(d: Seq<u8>) -> int {
    le32(d, GPT_HDR + 80)
}

pub open spec fn gpt_entry_size(d: Seq<u8>) -> int {
    le32(d, GPT_HDR + 84)
}

/// LBA 1 reads and carries the GPT signature.
pub open spec fn gpt_present(d: Seq<u8>) -> bool {
    sec_ok(d, 1) && d.subrange(512, 520) == efi_part()
}

/// The header's entry geometry is one the walk accepts: entries of 128 to
/// 512 bytes, in an array that does not start at LBA 0.
pub open spec fn gpt_header_ok(d: Seq<u8>) -> bool {
    128 <= gpt_entry_size(d) <= 512 && gpt_entry_lba(d) != 0
}

/// Byte position of entry `e` of an array at `lba` with `per` entries of
/// `esize` bytes per sector.
pub open spec fn entry_pos(lba: int, per: int, esize: int, e: int) -> int {
    (lba + e / per) * 512 + (e % per) * esize
}

/// The entry at `p` is in use: its type GUID (first 16 bytes) is not zero.
pub open spec fn entry_used(d: Seq<u8>, p: int) -> bool {
    exists|k: int| 0 <= k < 16 && #[trigger] d.subrange(p, p + 16)[k] != 0
}

/// First and last LBA of the used entries from `e` on, stopping at the first
/// entry whose sector cannot be read.
pub open spec fn gpt_walk(d: Seq<u8>, lba: int, per: int, esize: int, max: int, e: int) -> Seq<(u64, u64)>
    decreases max - e,
{
    if e < 0 || e >= max || per <= 0 {
        seq![]
    } else if !sec_ok(d, lba + e / per) {
        seq![]
    } else {
        let p = entry_pos(lba, per, esize, e);
        let rest = gpt_walk(d, lba, per, esize, max, e + 1);
        if entry_used(d, p) {
            seq![(le64(d, p + 32) as u64, le64(d, p + 40) as u64)] + rest
        } else {
            rest
        }
    }
}

/// The partitions the walk reports for a present, well-formed header.
pub open spec fn gpt_partitions(d: Seq<u8>) -> Seq<(u64, u64)> {
    let esize = gpt_entry_size(d);
    let max = if gpt_num_entries(d) < GPT_MAX_ENTRIES { gpt_num_entries(d) } else { GPT_MAX_ENTRIES as int };
    gpt_walk(d, gpt_entry_lba(d), 512int / esize, esize, max, 0)
}

/// What the parse found.
pub enum GptParse {
    /// LBA 1 is missing or not a GPT header.
    NoGpt,
    /// A GPT header whose entry geometry is refused.
    BadHeader,
    /// First and last LBA of each used entry, in table order.
    Parsed(Vec<(u64, u64)>),
}

fn efi_part_bytes() -> (r: [u8; 8])
    ensures
        r@ == efi_part(),
{
    let r = [0x45u8, 0x46, 0x49, 0x20, 0x50, 0x41, 0x52, 0x54];
    assert(r@ =~= efi_part());
    r
}

/// Whether any of the 16 bytes at `p` is non-zero.
fn guid_nonzero(disk: &[u8], p: usize) -> (r: bool)
    requires
        p + 16 <= disk.len(),
    ensures
        r == entry_used(disk@, p as int),
{
    let mut k: usize = 0;
    while k < 16
        invariant
            k <= 16,
            p + 16 <= disk.len(),
            forall|j: int| 0 <= j < k ==> #[trigger] disk@.subrange(p as int, p + 16)[j] == 0,
        decreases 16 - k,
    {
        if disk[p + k] != 0 {
            assert(disk@.subrange(p as int, p + 16)[k as int] != 0);
            return true;
        }
        k += 1;
    }
    false
}

/// Reads the GPT header at LBA 1 of `disk` and walks the first (at most 16)
/// entries of its partition array, collecting the used ones.
pub fn gpt_parse(disk: &[u8]) -> (r: GptParse)
    ensures
        !gpt_present(disk@) <==> r is NoGpt,
        gpt_present(disk@) && !gpt_header_ok(disk@) <==> r is BadHeader,
        r matches GptParse::Parsed(v) ==> gpt_present(disk@) && gpt_header_ok(disk@) && v@
            == gpt_partitions(disk@),
{
    if !sector_readable(disk, 1) {
        return GptParse::NoGpt;
    }
    let sig = efi_part_bytes();
    let mut i: usize = 0;
    while i < 8
        invariant
            i <= 8,
            1024 <= disk.len(),
            sig@ == efi_part(),
            forall|j: int| 0 <= j < i ==> disk@[512 + j] == sig@[j],
        decreases 8 - i,
    {
        if disk[GPT_HDR + i] != sig[i] {
            assert(disk@.subrange(512, 520)[i as int] != efi_part()[i as int]);
            return GptParse::NoGpt;
        }
        i += 1;
    }
    assert(disk@.subrange(512, 520) =~= efi_part());
    let entry_lba = get_le64(disk, GPT_HDR + 72);
    let num_entries = get_le32(disk, GPT_HDR + 80) as u64;
    let entry_size = get_le32(disk, GPT_HDR + 84) as u64;
    if entry_size < 128 || entry_size > 512 || entry_lba == 0 {
        return GptParse::BadHeader;
    }
    let per_sector = 512 / entry_size;
    let max_entries = if num_entries < GPT_MAX_ENTRIES { num_entries } else { GPT_MAX_ENTRIES };
    let ghost d = disk@;
    let ghost lba = entry_lba as int;
    let ghost per = per_sector as int;
    let ghost es = entry_size as int;
    let ghost max = max_entries as int;
    assert(1 <= per <= 4 && per * es <= 512) by (nonlinear_arith)
        requires
            per == 512int / es,
            128 <= es <= 512,
    ;
    let mut parts: Vec<(u64, u64)> = Vec::new();
    let mut e: u64 = 0;
    while e < max_entries
        invariant
            d == disk@,
            lba == entry_lba,
            per == per_sector,
            es == entry_size,
            max == max_entries,
            max <= GPT_MAX_ENTRIES,
            1 <= per <= 4,
            128 <= es <= 512,
            per * es <= 512,
            e <= max,
            (e as int) % per == 0 || e == max,
            gpt_walk(d, lba, per, es, max, 0) == parts@ + gpt_walk(d, lba, per, es, max, e as int),
        ensures
            gpt_walk(d, lba, per, es, max, 0) == parts@,
        decreases max - e,
    {
        let sector = match entry_lba.checked_add(e / per_sector) {
            Some(s) => s,
            None => {
                assert(e / per_sector == (e as int) / per);
                assert(d.len() == disk.len());
                assert(!sec_ok(d, lba + (e as int) / per));
                assert(gpt_walk(d, lba, per, es, max, e as int) =~= seq![]);
                assert(parts@ + seq![] =~= parts@);
                break;
            },
        };
        if !sector_readable(disk, sector) {
            assert(gpt_walk(d, lba, per, es, max, e as int) =~= seq![]);
            assert(parts@ + seq![] =~= parts@);
            break;
        }
        let base = sector_base(disk, sector);
        let ghost e0 = e as int;
        let mut j: u64 = 0;
        while j < per_sector && e < max_entries
            invariant
                d == disk@,
                lba == entry_lba,
                per == per_sector,
                es == entry_size,
                max == max_entries,
                max <= GPT_MAX_ENTRIES,
                1 <= per <= 4,
                128 <= es <= 512,
                per * es <= 512,
                e0 % per == 0,
                0 <= e0,
                e == e0 + j,
                j <= per,
                e <= max,
                sector == lba + e0 / per,
                base == sector * 512,
                base + 512 <= disk.len(),
                sec_ok(d, sector as int),
                gpt_walk(d, lba, per, es, max, 0) == parts@ + gpt_walk(d, lba, per, es, max, e as int),
            decreases per - j,
        {
            assert((j as int) * es <= 384) by (nonlinear_arith)
                requires
                    j < per,
                    per * es <= 512,
                    128 <= es,
            ;
            let off = (j * entry_size) as usize;
            assert((e as int) / per == e0 / per && (e as int) % per == j) by (nonlinear_arith)
                requires
                    e == e0 + j,
                    e0 % per == 0,
                    0 <= j < per,
                    1 <= per,
                    0 <= e0,
            ;
            let p = base + off;
            assert(p == entry_pos(lba, per, es, e as int));
            let ghost rest = gpt_walk(d, lba, per, es, max, e + 1);
            if guid_nonzero(disk, p) {
                let first = get_le64(disk, p + 32);
                let last = get_le64(disk, p + 40);
                let ghost pre = parts@;
                parts.push((first, last));
                assert(gpt_walk(d, lba, per, es, max, e as int) == seq![(first, last)] + rest);
                assert(pre + (seq![(first, last)] + rest) =~= parts@ + rest);
            } else {
                assert(gpt_walk(d, lba, per, es, max, e as int) == rest);
            }
            j += 1;
            e += 1;
        }
        assert((e as int) % per == 0 || e == max) by (nonlinear_arith)
            requires
                e == e0 + j,
                e0 % per == 0,
                j == per || e == max,
                1 <= per,
                0 <= e0,
                e <= max,
        ;
    }
    GptParse::Parsed(parts)
}

// ---------------- header CRC ----------------

/// The 92 header bytes of `h` with the CRC field (bytes 16..20) zeroed.
pub open spec fn crc_zeroed(h: Seq<u8>) -> Seq<u8> {
    Seq::new(GPT_HDR_SIZE as nat, |i: int| if 16 <= i < 20 { 0u8 } else { h[i] })
}

/// The CRC a GPT header should carry: CRC-32 of its 92 bytes, CRC field zeroed.
pub open spec fn header_crc(h: Seq<u8>) -> u32 {
    crc32_spec(crc_zeroed(h))
}

/// The CRC stored in the header matches its contents.
pub open spec fn header_crc_valid(h: Seq<u8>) -> bool {
    le32(h, 16) == header_crc(h)
}

/// `h` with `v` stored little-endian at bytes 16..20.
pub open spec fn put_le32(h: Seq<u8>, v: u32) -> Seq<u8> {
    h.update(16, (v % 256) as u8).update(17, ((v / 256) % 256) as u8).update(
        18,
        ((v / 65536) % 256) as u8,
    ).update(19, (v / 16777216) as u8)
}

/// `h` with its CRC field set to the CRC of its contents.
pub open spec fn stamped(h: Seq<u8>) -> Seq<u8> {
    put_le32(h, header_crc(h))
}

/// CRC-32 of the 92-byte header in `hdr`, computed with its CRC field zeroed.
pub fn gpt_header_crc(hdr: &[u8]) -> (c: u32)
    requires
        hdr.len() >= GPT_HDR_SIZE,
    ensures
        c == header_crc(hdr@),
{
    let mut tmp: Vec<u8> = Vec::new();
    let mut i: usize = 0;
    while i < GPT_HDR_SIZE
        invariant
            i <= GPT_HDR_SIZE,
            hdr.len() >= GPT_HDR_SIZE,
            tmp@ == crc_zeroed(hdr@).subrange(0, i as int),
        decreases GPT_HDR_SIZE - i,
    {
        if 16 <= i && i < 20 {
            tmp.push(0u8);
        } else {
            tmp.push(hdr[i]);
        }
        assert(tmp@ =~= crc_zeroed(hdr@).subrange(0, i + 1));
        i += 1;
    }
    assert(tmp@ =~= crc_zeroed(hdr@));
    crc32(tmp.as_slice())
}

/// Whether the CRC stored in the header matches its contents.
pub fn gpt_header_crc_valid(hdr: &[u8]) -> (r: bool)
    requires
        hdr.len() >= GPT_HDR_SIZE,
    ensures
        r == header_crc_valid(hdr@),
{
    get_le32(hdr, 16) as u32 == gpt_header_crc(hdr)
}

/// Stores the header's CRC in its CRC field.
pub fn gpt_stamp_header_crc(hdr: &mut Vec<u8>)
    requires
        old(hdr).len() >= GPT_HDR_SIZE,
    ensures
        final(hdr)@ == stamped(old(hdr)@),
{
    let c = gpt_header_crc(hdr.as_slice());
    hdr.set(16, (c % 256) as u8);
    hdr.set(17, ((c / 256) % 256) as u8);
    hdr.set(18, ((c / 65536) % 256) as u8);
    hdr.set(19, (c / 16777216) as u8);
}

proof fn lemma_le32_put(h: Seq<u8>, v: u32)
    requires
        h.len() >= 20,
    ensures
        le32(put_le32(h, v), 16) == v,
{
    let t = put_le32(h, v);
    assert(t[16] == v % 256 && t[17] == (v / 256) % 256 && t[18] == (v / 65536) % 256 && t[19] == v
        / 16777216);
    assert((v % 256) + ((v / 256) % 256) * 256 + ((v / 65536) % 256) * 65536 + (v / 16777216)
        * 16777216 == v) by (nonlinear_arith);
}

/// A header whose CRC field was stamped with its own CRC validates, whatever
/// the rest of it holds.
pub proof fn law_stamped_header_validates(h: Seq<u8>)
    requires
        h.len() >= GPT_HDR_SIZE,
    ensures
        header_crc_valid(stamped(h)),
{
    let s = stamped(h);
    assert(crc_zeroed(s) =~= crc_zeroed(h));
    lemma_le32_put(h, header_crc(h));
}

/// "123456789", the standard CRC check input.
pub open spec fn crc_check_input() -> Seq<u8> {
    seq![0x31u8, 0x32, 0x33, 0x34, 0x35, 0x36, 0x37, 0x38, 0x39]
}

/// A minimal 92-byte header: signature, revision 1.0, header size 92, MyLBA 1,
/// CRC field zero.
pub open spec fn synthetic_header() -> Seq<u8> {
    Seq::new(
        92,
        |i: int|
            if i < 8 {
                efi_part()[i]
            } else if i == 10 {
                1u8
            } else if i == 12 {
                92u8
            } else if i == 24 {
                1u8
            } else {
                0u8
            },
    )
}

/// Builds the synthetic header.
pub fn gpt_synthetic_header() -> (h: Vec<u8>)
    ensures
        h@ == synthetic_header(),
{
    let mut h: Vec<u8> = vec![0u8; 92];
    let sig = efi_part_bytes();
    let mut i: usize = 0;
    while i < 8
        invariant
            i <= 8,
            h@.len() == 92,
            sig@ == efi_part(),
            forall|j: int| 0 <= j < 92 ==> #[trigger] h@[j] == (if j < i { efi_part()[j] } else { 0u8 }),
        decreases 8 - i,
    {
        h.set(i, sig[i]);
        i += 1;
    }
    h.set(10, 1);
    h.set(12, 92);
    h.set(24, 1);
    assert(h@ =~= synthetic_header());
    h
}

/// The CRC self-check: CRC-32 gives the standard check value, a stamped
/// synthetic header validates, and flipping its MyLBA byte breaks the match.
pub fn gpt_crc_selftest() -> (ok: bool)
    ensures
        ok == (crc32_spec(crc_check_input()) == 0xCBF4_3926u32 && header_crc_valid(
            stamped(synthetic_header()),
        ) && header_crc(stamped(synthetic_header()).update(24, stamped(synthetic_header())[24] ^ 0xFFu8))
            != le32(stamped(synthetic_header()), 16)),
{
    let kat_in: [u8; 9] = [0x31u8, 0x32, 0x33, 0x34, 0x35, 0x36, 0x37, 0x38, 0x39];
    assert(kat_in@ =~= crc_check_input());
    let kat = crc32(&kat_in) == 0xCBF4_3926;
    let mut hdr = gpt_synthetic_header();
    gpt_stamp_header_crc(&mut hdr);
    let read_crc = get_le32(hdr.as_slice(), 16);
    let valid = gpt_header_crc(hdr.as_slice()) == read_crc;
    let mut bad = hdr.clone();
    let b = bad[24] ^ 0xFF;
    bad.set(24, b);
    let rejects = gpt_header_crc(bad.as_slice()) != read_crc;
    kat && valid && rejects
}


// ---------------- the boot report ----------------

pub open spec fn gpt_none_msg() -> Seq<u8> {
    seq![0x47u8, 0x50, 0x54, 0x3A, 0x20, 0x6E, 0x6F, 0x6E, 0x65, 0x0A]
}

pub open spec fn gpt_bad_msg() -> Seq<u8> {
    seq![0x47u8, 0x50, 0x54, 0x3A, 0x20, 0x62, 0x61, 0x64, 0x20, 0x68, 0x65, 0x61, 0x64, 0x65, 0x72, 0x0A]
}

pub open spec fn gpt_part_first() -> Seq<u8> {
    seq![0x47u8, 0x50, 0x54, 0x3A, 0x20, 0x70, 0x61, 0x72, 0x74, 0x20, 0x66, 0x69, 0x72, 0x73, 0x74, 0x3D, 0x30, 0x78]
}

pub open spec fn gpt_part_last() -> Seq<u8> {
    seq![0x20u8, 0x6C, 0x61, 0x73, 0x74, 0x3D, 0x30, 0x78]
}

pub open spec fn gpt_parsed_msg() -> Seq<u8> {
    seq![0x47u8, 0x50, 0x54, 0x3A, 0x20, 0x70, 0x61, 0x72, 0x73, 0x65, 0x64, 0x20, 0x6E, 0x3D, 0x30, 0x78]
}

/// One line per partition: its first and last LBA.
pub open spec fn parts_text(v: Seq<(u64, u64)>) -> Seq<u8>
    decreases v.len(),
{
    if v.len() == 0 {
        Seq::empty()
    } else {
        parts_text(v.drop_last()) + gpt_part_first() + hex16(v.last().0) + gpt_part_last() + hex16(v.last().1) + seq![0x0Au8]
    }
}

/// What the boot self-test reports for a parse outcome.
pub open spec fn gpt_report(r: GptParse) -> Seq<u8> {
    match r {
        GptParse::NoGpt => gpt_none_msg(),
        GptParse::BadHeader => gpt_bad_msg(),
        GptParse::Parsed(v) => parts_text(v@) + gpt_parsed_msg() + hex16(v@.len() as u64) + seq![0x0Au8],
    }
}

fn write_gpt_none_msg(out: &mut Vec<u8>)
    ensures
        final(out)@ == old(out)@ + gpt_none_msg(),
{
    let m: [u8; 10] = [0x47, 0x50, 0x54, 0x3A, 0x20, 0x6E, 0x6F, 0x6E, 0x65, 0x0A];
    assert(m@ =~= gpt_none_msg());
    serial_write(out, &m);
}

fn write_gpt_bad_msg(out: &mut Vec<u8>)
    ensures
        final(out)@ == old(out)@ + gpt_bad_msg(),
{
    let m: [u8; 16] = [0x47, 0x50, 0x54, 0x3A, 0x20, 0x62, 0x61, 0x64, 0x20, 0x68, 0x65, 0x61, 0x64, 0x65, 0x72, 0x0A];
    assert(m@ =~= gpt_bad_msg());
    serial_write(out, &m);
}

fn write_gpt_part_first(out: &mut Vec<u8>)
    ensures
        final(out)@ == old(out)@ + gpt_part_first(),
{
    let m: [u8; 18] = [0x47, 0x50, 0x54, 0x3A, 0x20, 0x70, 0x61, 0x72, 0x74, 0x20, 0x66, 0x69, 0x72, 0x73, 0x74, 0x3D, 0x30, 0x78];
    assert(m@ =~= gpt_part_first());
    serial_write(out, &m);
}

fn write_gpt_part_last(out: &mut Vec<u8>)
    ensures
        final(out)@ == old(out)@ + gpt_part_last(),
{
    let m: [u8; 8] = [0x20, 0x6C, 0x61, 0x73, 0x74, 0x3D, 0x30, 0x78];
    assert(m@ =~= gpt_part_last());
    serial_write(out, &m);
}

fn write_gpt_parsed_msg(out: &mut Vec<u8>)
    ensures
        final(out)@ == old(out)@ + gpt_parsed_msg(),
{
    let m: [u8; 16] = [0x47, 0x50, 0x54, 0x3A, 0x20, 0x70, 0x61, 0x72, 0x73, 0x65, 0x64, 0x20, 0x6E, 0x3D, 0x30, 0x78];
    assert(m@ =~= gpt_parsed_msg());
    serial_write(out, &m);
}

fn write_nl(out: &mut Vec<u8>)
    ensures
        final(out)@ == old(out)@ + seq![0x0Au8],
{
    let m: [u8; 1] = [0x0A];
    assert(m@ =~= seq![0x0Au8]);
    serial_write(out, &m);
}

/// The boot self-test: parses the table of `disk` and reports it, one line
/// per used entry and then their number, or that there is no table or that
/// its header is refused.
pub fn gpt_parse_selftest(out: &mut Vec<u8>, disk: &[u8]) -> (r: GptParse)
    ensures
        !gpt_present(disk@) <==> r is NoGpt,
        gpt_present(disk@) && !gpt_header_ok(disk@) <==> r is BadHeader,
        r matches GptParse::Parsed(v) ==> gpt_present(disk@) && gpt_header_ok(disk@) && v@
            == gpt_partitions(disk@),
        final(out)@ == old(out)@ + gpt_report(r),
{
    let r = gpt_parse(disk);
    match &r {
        GptParse::NoGpt => write_gpt_none_msg(out),
        GptParse::BadHeader => write_gpt_bad_msg(out),
        GptParse::Parsed(v) => {
            let ghost start = out@;
            let mut i: usize = 0;
            while i < v.len()
                invariant
                    i <= v.len(),
                    out@ == start + parts_text(v@.subrange(0, i as int)),
                decreases v.len() - i,
            {
                let (first, last) = v[i];
                write_gpt_part_first(out);
                serial_write_hex(out, first);
                write_gpt_part_last(out);
                serial_write_hex(out, last);
                write_nl(out);
                i += 1;
                let ghost s = v@.subrange(0, i as int);
                assert(s.drop_last() =~= v@.subrange(0, i - 1));
                assert(out@ =~= start + parts_text(s));
            }
            assert(v@.subrange(0, v.len() as int) =~= v@);
            write_gpt_parsed_msg(out);
            serial_write_hex(out, v.len() as u64);
            write_nl(out);
            assert(out@ =~= start + gpt_report(r));
        },
    }
    r
}

} // verus!
