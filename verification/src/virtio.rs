//! Legacy virtio block device: the split-virtqueue layout inside the static
//! queue buffer, the three-descriptor request chain, the available-ring
//! update and the completion check. Port I/O and the shared DMA pages stay
//! at the edge.

use vstd::prelude::*;

verus! {

/// Bytes of the static virtqueue buffer.
pub const VQ_MEM_BYTES: usize = 16384;

/// Largest queue the driver takes.
pub const BLK_MAX_QUEUE_SIZE: u16 = 256;

pub const VRING_DESC_F_NEXT: u16 = 1;
pub const VRING_DESC_F_WRITE: u16 = 2;

pub const VIRTIO_BLK_T_IN: u32 = 0;
pub const VIRTIO_BLK_T_OUT: u32 = 1;

/// Offsets of the available and used rings in the queue buffer (the
/// descriptor table starts at 0).
#[derive(Clone, Copy, Debug, PartialEq, Eq, Structural)]
pub struct VqLayout {
    pub avail: usize,
    pub used: usize,
}

/// The legacy layout for a queue of `qsz` entries: descriptors (16 bytes
/// each), the available ring (6 + 2 qsz bytes), then the used ring (6 + 8 qsz
/// bytes) on the next 4 KiB boundary.
pub open spec fn used_offset(qsz: int) -> int {
    (qsz * 16 + 6 + 2 * qsz + 4095) / 4096 * 4096
}

/// Layout of a queue of `qsz` entries in the buffer; None (the device is
/// failed) for an empty queue, one larger than the driver takes, or one whose
/// used ring would not fit.
pub fn virtio_queue_layout(qsz: u16) -> (r: Option<VqLayout>)
    ensures
        r == (if qsz == 0 || qsz > BLK_MAX_QUEUE_SIZE || used_offset(qsz as int) + 6 + 8 * qsz
            > VQ_MEM_BYTES {
            None
        } else {
            Some(VqLayout { avail: (qsz * 16) as usize, used: used_offset(qsz as int) as usize })
        }),
{
    if qsz == 0 || qsz > BLK_MAX_QUEUE_SIZE {
        return None;
    }
    let q = qsz as usize;
    let desc_end = q * 16;
    let avail_end = desc_end + 6 + 2 * q;
    let used_off = (avail_end + 4095) / 4096 * 4096;
    let used_end = used_off + 6 + 8 * q;
    if used_end > VQ_MEM_BYTES {
        return None;
    }
    Some(VqLayout { avail: desc_end, used: used_off })
}

/// A block request header: type (read or write), reserved, start sector.
#[derive(Clone, Copy, Debug, PartialEq, Eq, Structural)]
pub struct BlkReq {
    pub typ: u32,
    pub reserved: u32,
    pub sector: u64,
}

pub fn virtio_blk_request(write: bool, sector: u64) -> (r: BlkReq)
    ensures
        r == (BlkReq { typ: if write { VIRTIO_BLK_T_OUT } else { VIRTIO_BLK_T_IN }, reserved: 0, sector }),
{
    BlkReq { typ: if write { VIRTIO_BLK_T_OUT } else { VIRTIO_BLK_T_IN }, reserved: 0, sector }
}

/// One descriptor of a split virtqueue.
#[derive(Clone, Copy, Debug, PartialEq, Eq, Structural)]
pub struct VringDesc {
    pub addr: u64,
    pub len: u32,
    pub flags: u16,
    pub next: u16,
}

/// The request chain: the header the device reads, the data buffer (which
/// the device writes on a read), and the status byte the device writes.
pub open spec fn blk_chain(write: bool, hdr: u64, data: u64, status: u64, len: u32) -> Seq<VringDesc> {
    seq![
        VringDesc { addr: hdr, len: 16, flags: VRING_DESC_F_NEXT, next: 1 },
        VringDesc { addr: data, len, flags: if write { VRING_DESC_F_NEXT } else { 3u16 }, next: 2 },
        VringDesc { addr: status, len: 1, flags: VRING_DESC_F_WRITE, next: 0 }
    ]
}

pub fn virtio_blk_chain(write: bool, hdr: u64, data: u64, status: u64, len: u32) -> (c: [VringDesc; 3])
    ensures
        c@ == blk_chain(write, hdr, data, status, len),
{
    let data_flags: u16 = if !write { VRING_DESC_F_NEXT | VRING_DESC_F_WRITE } else { VRING_DESC_F_NEXT };
    assert(1u16 | 2u16 == 3u16) by (bit_vector);
    let c = [
        VringDesc { addr: hdr, len: 16, flags: VRING_DESC_F_NEXT, next: 1 },
        VringDesc { addr: data, len, flags: data_flags, next: 2 },
        VringDesc { addr: status, len: 1, flags: VRING_DESC_F_WRITE, next: 0 },
    ];
    assert(c@ =~= blk_chain(write, hdr, data, status, len));
    c
}

/// Publishing a chain at head 0: the ring entry (as an index of 16-bit words
/// into the available ring, past its flags and index) and the new index.
pub fn virtio_avail_push(avail_idx: u16, qsz: u16) -> (r: (usize, u16))
    requires
        qsz > 0,
    ensures
        r == ((2 + avail_idx % qsz) as usize, ((avail_idx + 1) % 65536) as u16),
{
    let slot = 2 + (avail_idx as usize % qsz as usize);
    (slot, avail_idx.wrapping_add(1))
}

/// The device has completed a request: the used index moved past the last
/// one seen. Returns the new last-seen index when it has.
pub fn virtio_used_advance(used_idx: u16, last_used: u16) -> (r: Option<u16>)
    ensures
        r == (if used_idx != last_used { Some(((last_used + 1) % 65536) as u16) } else { None }),
{
    if used_idx != last_used {
        Some(last_used.wrapping_add(1))
    } else {
        None
    }
}

/// The status byte the device wrote reports success.
pub fn virtio_blk_status_ok(st: u8) -> (ok: bool)
    ensures
        ok == (st == 0),
{
    st == 0
}

/// The queue's physical page frame number for the QUEUE_PFN register.
pub fn virtio_queue_pfn(queue_phys: u64) -> (pfn: u32)
    ensures
        pfn == ((queue_phys / 4096) % 0x1_0000_0000) as u32,
{
    let p = queue_phys >> 12;
    assert(queue_phys >> 12u64 == queue_phys / 4096 && (p as u32) == (p % 0x1_0000_0000) as u32) by (bit_vector)
        requires
            p == queue_phys >> 12u64,
    ;
    p as u32
}

} // verus!
