//! The installer: provision a blank (or previously installed) target disk
//! with a boot record holding one bootable primary partition, then write the
//! partition's payload sectors, reading each write back to confirm it landed.
//! The target is a byte image, laid out in 512-byte sectors as in `fat16`.

use vstd::prelude::*;
use crate::fat16::{sec_ok, write_sec, sector_of, write_sector, sector_readable, sector_base};

verus! {

pub const INSTALL_PART_LBA: u32 = 64;

pub const INSTALL_PART_SECTORS: u32 = 8;

/// Partition type of the installed image (a Linux-type primary partition).
pub const INSTALL_PART_TYPE: u8 = 0x83;

/// "RUGOINST": the boot-record magic.
pub open spec fn install_magic() -> Seq<u8> {
    seq![0x52u8, 0x55, 0x47, 0x4F, 0x49, 0x4E, 0x53, 0x54]
}

/// "RUGOPART": the magic of the partition's first sector.
pub open spec fn part_magic() -> Seq<u8> {
    seq![0x52u8, 0x55, 0x47, 0x4F, 0x50, 0x41, 0x52, 0x54]
}

/// Fill byte at offset `off` of payload sector `sector`, so that a missing,
/// repeated or misplaced sector shows on read-back.
pub open spec fn fill_byte(sector: u64, off: usize) -> u8 {
    (((sector % 256) * 31 + off % 256 + 0x5A) % 256) as u8
}

/// Fill byte for payload sector `sector` at offset `off` (wrapping arithmetic
/// on the low bytes of both).
pub fn install_fill(sector: u64, off: usize) -> (b: u8)
    ensures
        b == fill_byte(sector, off),
{
    let s = (sector % 256) as u8;
    let o = (off % 256) as u8;
    let r = s.wrapping_mul(31).wrapping_add(o).wrapping_add(0x5A);
    assert(r == ((((s as int * 31) % 256 + o as int) % 256 + 0x5A) % 256)) by {
        assert(s.wrapping_mul(31) == (s as int * 31) % 256);
    }
    assert(((((s as int * 31) % 256 + o as int) % 256 + 0x5A) % 256) == (s as int * 31 + o as int
        + 0x5A) % 256) by (nonlinear_arith)
        requires
            0 <= s < 256,
            0 <= o < 256,
    ;
    r
}

/// The boot record: magic, image version 1, partition entry 0 (bootable,
/// type 0x83, start LBA 64, 8 sectors) and the 0x55AA signature.
pub open spec fn install_mbr() -> Seq<u8> {
    Seq::new(
        512,
        |i: int|
            if i < 8 {
                install_magic()[i]
            } else if i == 8 {
                1u8
            } else if i == 446 {
                0x80u8
            } else if i == 450 {
                INSTALL_PART_TYPE
            } else if i == 454 {
                64u8
            } else if i == 458 {
                8u8
            } else if i == 510 {
                0x55u8
            } else if i == 511 {
                0xAAu8
            } else {
                0u8
            },
    )
}

/// Payload sector `s` of the partition: fill bytes at 16..504, and on the
/// first sector the partition magic, version 1 and the 0x55AA signature.
pub open spec fn payload_sector(s: u64) -> Seq<u8> {
    Seq::new(
        512,
        |i: int|
            if 16 <= i < 504 {
                fill_byte(s, i as usize)
            } else if s == 0 && i < 8 {
                part_magic()[i]
            } else if s == 0 && i == 8 {
                1u8
            } else if s == 0 && i == 510 {
                0x55u8
            } else if s == 0 && i == 511 {
                0xAAu8
            } else {
                0u8
            },
    )
}

/// Sector 0 may be provisioned: it reads, and it is all zero (a fresh disk)
/// or already starts with the boot-record magic (a re-install).
pub open spec fn provisionable(d: Seq<u8>) -> bool {
    &&& sec_ok(d, 0)
    &&& ((forall|i: int| 0 <= i < 512 ==> d[i] == 0) || d.subrange(0, 8) == install_magic())
}

fn magic_bytes() -> (r: [u8; 8])
    ensures
        r@ == install_magic(),
{
    let r = [0x52u8, 0x55, 0x47, 0x4F, 0x49, 0x4E, 0x53, 0x54];
    assert(r@ =~= install_magic());
    r
}

fn part_magic_bytes() -> (r: [u8; 8])
    ensures
        r@ == part_magic(),
{
    let r = [0x52u8, 0x55, 0x47, 0x4F, 0x50, 0x41, 0x52, 0x54];
    assert(r@ =~= part_magic());
    r
}

/// Whether the target may be written: never clobber a disk that holds data
/// other than an earlier install.
pub fn install_target_provisionable(disk: &[u8]) -> (ok: bool)
    ensures
        ok == provisionable(disk@),
{
    if !sector_readable(disk, 0) {
        return false;
    }
    let mut i: usize = 0;
    let mut blank = true;
    while i < 512
        invariant
            i <= 512,
            512 <= disk.len(),
            blank == (forall|j: int| 0 <= j < i ==> disk@[j] == 0),
        decreases 512 - i,
    {
        if disk[i] != 0 {
            blank = false;
        }
        i += 1;
    }
    if blank {
        return true;
    }
    let magic = magic_bytes();
    i = 0;
    while i < 8
        invariant
            i <= 8,
            512 <= disk.len(),
            magic@ == install_magic(),
            !(forall|j: int| 0 <= j < 512 ==> disk@[j] == 0),
            forall|j: int| 0 <= j < i ==> disk@[j] == magic@[j],
        decreases 8 - i,
    {
        if disk[i] != magic[i] {
            assert(disk@.subrange(0, 8)[i as int] != install_magic()[i as int]);
            return false;
        }
        i += 1;
    }
    assert(disk@.subrange(0, 8) =~= install_magic());
    true
}

/// Builds the boot record.
pub fn install_mbr_bytes() -> (buf: Vec<u8>)
    ensures
        buf@ == install_mbr(),
{
    let mut buf: Vec<u8> = vec![0u8; 512];
    let magic = magic_bytes();
    let mut i: usize = 0;
    while i < 8
        invariant
            i <= 8,
            buf@.len() == 512,
            magic@ == install_magic(),
            forall|j: int| 0 <= j < 512 ==> #[trigger] buf@[j] == (if j < i { install_magic()[j] } else { 0u8 }),
        decreases 8 - i,
    {
        buf.set(i, magic[i]);
        i += 1;
    }
    buf.set(8, 0x01);
    buf.set(446, 0x80);
    buf.set(450, INSTALL_PART_TYPE);
    buf.set(454, 64);
    buf.set(458, 8);
    buf.set(510, 0x55);
    buf.set(511, 0xAA);
    assert(buf@ =~= install_mbr());
    buf
}

/// Builds payload sector `s` of the partition.
pub fn payload_sector_bytes(s: u64) -> (buf: Vec<u8>)
    ensures
        buf@ == payload_sector(s),
{
    let mut buf: Vec<u8> = vec![0u8; 512];
    let mut i: usize = 16;
    while i < 504
        invariant
            16 <= i <= 504,
            buf@.len() == 512,
            forall|j: int| 0 <= j < 512 ==> #[trigger] buf@[j] == (if 16 <= j < i { fill_byte(s, j as usize) } else { 0u8 }),
        decreases 504 - i,
    {
        let b = install_fill(s, i);
        buf.set(i, b);
        i += 1;
    }
    if s == 0 {
        let m = part_magic_bytes();
        let mut k: usize = 0;
        while k < 8
            invariant
                k <= 8,
                s == 0,
                buf@.len() == 512,
                m@ == part_magic(),
                forall|j: int| 0 <= j < 512 ==> #[trigger] buf@[j] == (if 16 <= j < 504 { fill_byte(s, j as usize) } else if j < k { part_magic()[j] } else { 0u8 }),
            decreases 8 - k,
        {
            buf.set(k, m[k]);
            k += 1;
        }
        buf.set(8, 0x01);
        buf.set(510, 0x55);
        buf.set(511, 0xAA);
    }
    assert(buf@ =~= payload_sector(s));
    buf
}

/// Whether the 512 bytes at `base` in `disk` equal `expect`.
fn sector_matches(disk: &[u8], base: usize, expect: &[u8]) -> (r: bool)
    requires
        base + 512 <= disk.len(),
        expect.len() == 512,
    ensures
        r == (disk@.subrange(base as int, base + 512) == expect@),
{
    let mut i: usize = 0;
    while i < 512
        invariant
            i <= 512,
            base + 512 <= disk.len(),
            expect.len() == 512,
            forall|j: int| 0 <= j < i ==> disk@[base + j] == expect@[j],
        decreases 512 - i,
    {
        if disk[base + i] != expect[i] {
            assert(disk@.subrange(base as int, base + 512)[i as int] != expect@[i as int]);
            return false;
        }
        i += 1;
    }
    assert(disk@.subrange(base as int, base + 512) =~= expect@);
    true
}

/// Writes `buf` to sector `lba` and reads it back; true when both the write
/// and the comparison succeed.
fn write_and_check(disk: &mut Vec<u8>, lba: u64, buf: &[u8]) -> (ok: bool)
    requires
        buf.len() == 512,
    ensures
        ok == sec_ok(old(disk)@, lba as int),
        ok ==> final(disk)@ == write_sec(old(disk)@, lba as int, buf@),
        !ok ==> final(disk)@ == old(disk)@,
{
    if !write_sector(disk, lba, buf) {
        return false;
    }
    let base = sector_base(disk.as_slice(), lba);
    assert(disk@.subrange(base as int, base + 512) =~= buf@);
    sector_matches(disk.as_slice(), base, buf)
}

/// Writes the boot record to sector 0 and confirms it on read-back. False,
/// with the disk unchanged, when sector 0 cannot be written.
pub fn install_write_and_verify(disk: &mut Vec<u8>) -> (ok: bool)
    ensures
        ok == sec_ok(old(disk)@, 0),
        ok ==> final(disk)@ == write_sec(old(disk)@, 0, install_mbr()),
        !ok ==> final(disk)@ == old(disk)@,
{
    let mbr = install_mbr_bytes();
    write_and_check(disk, 0, mbr.as_slice())
}

/// `d` with the first `n` payload sectors written at LBA 64 on.
pub open spec fn payload_written(d: Seq<u8>, n: nat) -> Seq<u8>
    decreases n,
{
    if n == 0 {
        d
    } else {
        write_sec(
            payload_written(d, (n - 1) as nat),
            INSTALL_PART_LBA + n - 1,
            payload_sector((n - 1) as u64),
        )
    }
}

/// Payload sectors of `d` that can be written before the first one past the
/// end of the image.
pub open spec fn payload_room(d: Seq<u8>) -> nat {
    let avail = d.len() as int / 512 - INSTALL_PART_LBA;
    if avail <= 0 {
        0
    } else if avail >= INSTALL_PART_SECTORS {
        INSTALL_PART_SECTORS as nat
    } else {
        avail as nat
    }
}

/// Writes the partition's payload sectors in order, each confirmed on
/// read-back; stops at the first sector that cannot be written. True when
/// all of them landed.
pub fn install_payload_and_verify(disk: &mut Vec<u8>) -> (ok: bool)
    ensures
        ok == (payload_room(old(disk)@) == INSTALL_PART_SECTORS),
        final(disk)@ == payload_written(old(disk)@, payload_room(old(disk)@)),
{
    let ghost d0 = disk@;
    let mut s: u64 = 0;
    while s < INSTALL_PART_SECTORS as u64
        invariant
            s <= INSTALL_PART_SECTORS,
            s <= payload_room(d0),
            d0 == old(disk)@,
            disk@ == payload_written(d0, s as nat),
            disk@.len() == d0.len(),
        decreases INSTALL_PART_SECTORS - s,
    {
        let buf = payload_sector_bytes(s);
        let lba = INSTALL_PART_LBA as u64 + s;
        if !write_and_check(disk, lba, buf.as_slice()) {
            assert(payload_room(d0) == s);
            return false;
        }
        s += 1;
    }
    true
}

/// How an install attempt ended.
#[derive(Clone, Copy, Debug, PartialEq, Eq, Structural)]
pub enum InstallOutcome {
    /// Sector 0 holds foreign data (or cannot be read): nothing written.
    NotProvisionable,
    /// The boot record could not be written and read back.
    VerifyFail,
    /// The boot record landed but the payload did not.
    PayloadFail,
    /// Boot record and payload written and verified.
    Installed,
}

/// Provisions `disk`: the boot record, then the payload, each only if the
/// step before it succeeded.
pub fn install_image(disk: &mut Vec<u8>) -> (r: InstallOutcome)
    ensures
        !provisionable(old(disk)@) ==> r == InstallOutcome::NotProvisionable && final(disk)@
            == old(disk)@,
        provisionable(old(disk)@) ==> {
            let d1 = write_sec(old(disk)@, 0, install_mbr());
            &&& final(disk)@ == payload_written(d1, payload_room(d1))
            &&& r == (if payload_room(d1) == INSTALL_PART_SECTORS {
                InstallOutcome::Installed
            } else {
                InstallOutcome::PayloadFail
            })
        },
{
    if !install_target_provisionable(disk.as_slice()) {
        return InstallOutcome::NotProvisionable;
    }
    if !install_write_and_verify(disk) {
        return InstallOutcome::VerifyFail;
    }
    if install_payload_and_verify(disk) {
        InstallOutcome::Installed
    } else {
        InstallOutcome::PayloadFail
    }
}

proof fn lemma_payload_keeps_low(d: Seq<u8>, n: nat)
    requires
        n <= INSTALL_PART_SECTORS,
    ensures
        payload_written(d, n).len() == d.len(),
        forall|i: int| 0 <= i < INSTALL_PART_LBA * 512 && i < d.len() ==> #[trigger] payload_written(d, n)[i] == d[i],
    decreases n,
{
    if n > 0 {
        lemma_payload_keeps_low(d, (n - 1) as nat);
    }
}

/// An install can be repeated: whatever the payload step did, a disk that
/// received the boot record is provisionable again, since its first sector
/// now carries the installer's magic.
pub proof fn law_install_is_repeatable(d: Seq<u8>)
    requires
        provisionable(d),
    ensures
        ({
            let d1 = write_sec(d, 0, install_mbr());
            provisionable(payload_written(d1, payload_room(d1)))
        }),
{
    let d1 = write_sec(d, 0, install_mbr());
    let d2 = payload_written(d1, payload_room(d1));
    lemma_payload_keeps_low(d1, payload_room(d1));
    assert(d2.subrange(0, 8) =~= install_magic());
}

} // verus!
