//! The block layer above the drivers: which driver serves the disk, and
//! the page-sized transfers of the swap path, eight sectors each through the
//! one-sector bounce buffer. The disk is a byte image as in `fat16`.

use vstd::prelude::*;
use crate::fat16::{sec_ok, write_sec, sector_readable, sector_base, write_sector};

verus! {

/// The driver that serves block I/O.
#[derive(Clone, Copy, Debug, PartialEq, Eq, Structural)]
pub enum BlockDriver {
    Absent,
    VirtioLegacy,
    Nvme,
}

/// The outcome of probing for a block device: NVMe first when preferred or
/// required (a required NVMe that fails ends the probe), then the legacy
/// virtio disk. `nvme_ok` is the NVMe probe's result and `virtio_ok` whether
/// a virtio disk was found and initialised.
pub open spec fn probe_outcome(prefer_native: bool, require_native: bool, nvme_ok: bool, virtio_ok: bool) -> (BlockDriver, bool) {
    if (prefer_native || require_native) && nvme_ok {
        (BlockDriver::Nvme, true)
    } else if require_native {
        (BlockDriver::Absent, false)
    } else if virtio_ok {
        (BlockDriver::VirtioLegacy, true)
    } else {
        (BlockDriver::Absent, false)
    }
}

/// Which driver the probe settles on, and whether one was found.
pub fn block_driver_probe(prefer_native: bool, require_native: bool, nvme_ok: bool, virtio_ok: bool) -> (r: (BlockDriver, bool))
    ensures
        r == probe_outcome(prefer_native, require_native, nvme_ok, virtio_ok),
{
    if prefer_native || require_native {
        if nvme_ok {
            return (BlockDriver::Nvme, true);
        }
        if require_native {
            return (BlockDriver::Absent, false);
        }
    }
    if virtio_ok {
        return (BlockDriver::VirtioLegacy, true);
    }
    (BlockDriver::Absent, false)
}

/// The driver's class name as the storage report prints it.
pub open spec fn driver_class(d: BlockDriver) -> Seq<u8> {
    match d {
        BlockDriver::Nvme => seq![0x6Eu8, 0x76, 0x6D, 0x65],
        BlockDriver::VirtioLegacy => seq![0x76u8, 0x69, 0x72, 0x74, 0x69, 0x6F, 0x2D, 0x62, 0x6C, 0x6B, 0x2D, 0x70, 0x63, 0x69],
        BlockDriver::Absent => seq![0x6Eu8, 0x6F, 0x6E, 0x65],
    }
}

pub fn block_driver_class(d: BlockDriver) -> (name: Vec<u8>)
    ensures
        name@ == driver_class(d),
{
    let v = match d {
        BlockDriver::Nvme => vec![0x6Eu8, 0x76, 0x6D, 0x65],
        BlockDriver::VirtioLegacy => vec![0x76u8, 0x69, 0x72, 0x74, 0x69, 0x6F, 0x2D, 0x62, 0x6C, 0x6B, 0x2D, 0x70, 0x63, 0x69],
        BlockDriver::Absent => vec![0x6Eu8, 0x6F, 0x6E, 0x65],
    };
    assert(v@ =~= driver_class(d));
    v
}

/// `d` with the eight sectors of `page` written from `lba` on, as far as
/// `n` of them.
pub open spec fn page_written(d: Seq<u8>, lba: int, page: Seq<u8>, n: nat) -> Seq<u8>
    decreases n,
{
    if n == 0 {
        d
    } else {
        write_sec(page_written(d, lba, page, (n - 1) as nat), lba + n - 1, page.subrange(512 * (n - 1), 512 * (n as int)))
    }
}

/// Sectors of the page that fit before the end of the image.
pub open spec fn page_room(d: Seq<u8>, lba: int) -> nat {
    let avail = d.len() as int / 512 - lba;
    if avail <= 0 {
        0
    } else if avail >= 8 {
        8
    } else {
        avail as nat
    }
}

/// Writes a 4 KiB page to the eight sectors from `lba`, one sector at a
/// time; stops, false, at the first sector that cannot be written.
pub fn blk_write_page(disk: &mut Vec<u8>, lba: u64, page: &[u8]) -> (ok: bool)
    requires
        page.len() == 4096,
        lba + 8 <= u64::MAX,
    ensures
        ok == (page_room(old(disk)@, lba as int) == 8),
        final(disk)@ == page_written(old(disk)@, lba as int, page@, page_room(old(disk)@, lba as int)),
{
    let ghost d0 = disk@;
    let mut s: u64 = 0;
    while s < 8
        invariant
            s <= 8,
            page.len() == 4096,
            lba + 8 <= u64::MAX,
            s <= page_room(d0, lba as int),
            d0 == old(disk)@,
            disk@ == page_written(d0, lba as int, page@, s as nat),
            disk@.len() == d0.len(),
        decreases 8 - s,
    {
        let buf = page_slice(page, (s * 512) as usize);
        if !write_sector(disk, lba + s, buf.as_slice()) {
            assert(page_room(d0, lba as int) == s);
            return false;
        }
        s += 1;
    }
    true
}

/// Bytes `[start, start + 512)` of `page`.
fn page_slice(page: &[u8], start: usize) -> (v: Vec<u8>)
    requires
        start + 512 <= page.len(),
    ensures
        v@ == page@.subrange(start as int, start + 512),
{
    let mut v: Vec<u8> = Vec::new();
    let mut i: usize = 0;
    while i < 512
        invariant
            i <= 512,
            start + 512 <= page.len(),
            v@ == page@.subrange(start as int, start + i),
        decreases 512 - i,
    {
        v.push(page[start + i]);
        assert(v@ =~= page@.subrange(start as int, start + i + 1));
        i += 1;
    }
    v
}

/// Reads the eight sectors from `lba` into a 4 KiB page; None when one of
/// them cannot be read.
pub fn blk_read_page(disk: &[u8], lba: u64) -> (r: Option<Vec<u8>>)
    requires
        lba + 8 <= u64::MAX,
    ensures
        r is Some <==> sec_ok(disk@, lba + 7),
        r matches Some(p) ==> p@ == disk@.subrange(lba * 512, lba * 512 + 4096),
{
    let mut page: Vec<u8> = Vec::new();
    let mut s: u64 = 0;
    while s < 8
        invariant
            s <= 8,
            lba + 8 <= u64::MAX,
            s > 0 ==> sec_ok(disk@, lba + s - 1),
            page@.len() == 512 * s,
            forall|j: int| 0 <= j < 512 * s ==> #[trigger] page@[j] == disk@[lba * 512 + j],
        decreases 8 - s,
    {
        if !sector_readable(disk, lba + s) {
            return None;
        }
        let base = sector_base(disk, lba + s);
        let mut i: usize = 0;
        while i < 512
            invariant
                i <= 512,
                s < 8,
                base == (lba + s) * 512,
                base + 512 <= disk.len(),
                page@.len() == 512 * s + i,
                forall|j: int| 0 <= j < 512 * s + i ==> #[trigger] page@[j] == disk@[lba * 512 + j],
            decreases 512 - i,
        {
            page.push(disk[base + i]);
            i += 1;
        }
        s += 1;
    }
    assert(page@ =~= disk@.subrange(lba * 512, lba * 512 + 4096));
    Some(page)
}

proof fn lemma_page_written(d: Seq<u8>, lba: int, page: Seq<u8>, n: nat)
    requires
        page.len() == 4096,
        0 <= lba,
        n <= page_room(d, lba),
    ensures
        page_written(d, lba, page, n).len() == d.len(),
        forall|i: int| 0 <= i < d.len() ==> #[trigger] page_written(d, lba, page, n)[i] == (if lba * 512 <= i < (lba + n) * 512 {
            page[i - lba * 512]
        } else {
            d[i]
        }),
    decreases n,
{
    if n > 0 {
        lemma_page_written(d, lba, page, (n - 1) as nat);
    }
}

/// Reading back a page just written to eight sectors that all exist gives
/// the page: what the swap path stores, it gets back.
pub proof fn law_page_read_after_write(d: Seq<u8>, lba: int, page: Seq<u8>)
    requires
        page.len() == 4096,
        0 <= lba,
        page_room(d, lba) == 8,
    ensures
        sec_ok(page_written(d, lba, page, 8), lba + 7),
        page_written(d, lba, page, 8).subrange(lba * 512, lba * 512 + 4096) == page,
{
    lemma_page_written(d, lba, page, 8);
    assert(page_written(d, lba, page, 8).subrange(lba * 512, lba * 512 + 4096) =~= page);
}

} // verus!
