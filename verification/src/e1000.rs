//! Intel e1000 NIC: the frames its self-tests put on the wire (an ARP
//! request for the slirp gateway, a padded broadcast), the check of the ARP
//! reply that comes back, the MAC address from the EEPROM words, and the
//! bookkeeping of the persistent TX and RX descriptor rings.

use vstd::prelude::*;

verus! {

/// Descriptors in each persistent ring.
pub const E1000_NTXD: u32 = 8;
pub const E1000_NRXD: u32 = 8;

/// Shortest Ethernet frame the NIC is given (without CRC).
pub const ETH_MIN_FRAME: usize = 60;

/// Largest frame the transmit buffer takes.
pub const E1000_TX_MAX: usize = 2048;

/// The device is the QEMU 82540EM: vendor 0x8086, device 0x100E.
pub fn e1000_is_device(id: u32) -> (r: bool)
    ensures
        r == (id % 65536 == 0x8086 && id / 65536 == 0x100E),
{
    proof {
        crate::bytes::lemma_u32_fields(id);
    }
    (id & 0xFFFF) as u16 == 0x8086 && ((id >> 16) & 0xFFFF) as u16 == 0x100E
}

/// The MAC held in EEPROM words 0..2: word `n` holds bytes `2n` (low byte)
/// and `2n + 1`.
pub open spec fn mac_of(w0: u16, w1: u16, w2: u16) -> Seq<u8> {
    seq![(w0 % 256) as u8, (w0 / 256) as u8, (w1 % 256) as u8, (w1 / 256) as u8, (w2 % 256) as u8, (w2 / 256) as u8]
}

/// MAC address from EEPROM words 0, 1 and 2.
pub fn e1000_mac_from_eeprom(w0: u16, w1: u16, w2: u16) -> (mac: [u8; 6])
    ensures
        mac@ == mac_of(w0, w1, w2),
{
    let mac = [(w0 % 256) as u8, (w0 / 256) as u8, (w1 % 256) as u8, (w1 / 256) as u8, (w2 % 256) as u8, (w2 / 256) as u8];
    assert(mac@ =~= mac_of(w0, w1, w2));
    mac
}

/// The MAC as one 48-bit value, byte 0 lowest, as the detection report logs it.
pub fn e1000_mac_value(w0: u16, w1: u16, w2: u16) -> (v: u64)
    ensures
        v == w0 + w1 * 0x1_0000 + w2 * 0x1_0000_0000,
{
    (w0 as u64) + (w1 as u64) * 0x1_0000 + (w2 as u64) * 0x1_0000_0000
}

/// Our IPv4 address 10.0.2.15 and the gateway's 10.0.2.2.
pub open spec fn our_ip() -> Seq<u8> {
    seq![10u8, 0, 2, 15]
}

pub open spec fn gateway_ip() -> Seq<u8> {
    seq![10u8, 0, 2, 2]
}

/// ARP request "who has 10.0.2.2, tell 10.0.2.15" from `mac`, broadcast and
/// zero-padded to the 60-byte minimum.
pub open spec fn arp_request_frame(mac: Seq<u8>) -> Seq<u8> {
    Seq::new(
        60,
        |i: int|
            if i < 6 {
                0xFFu8
            } else if i < 12 {
                mac[i - 6]
            } else if i == 12 || i == 16 {
                0x08u8
            } else if i == 13 {
                0x06u8
            } else if i == 15 || i == 21 {
                0x01u8
            } else if i == 18 {
                6u8
            } else if i == 19 {
                4u8
            } else if 22 <= i < 28 {
                mac[i - 22]
            } else if 28 <= i < 32 {
                our_ip()[i - 28]
            } else if 38 <= i < 42 {
                gateway_ip()[i - 38]
            } else {
                0u8
            },
    )
}

/// Builds the ARP request for the gateway.
pub fn e1000_arp_request(mac: [u8; 6]) -> (f: Vec<u8>)
    ensures
        f@ == arp_request_frame(mac@),
{
    let mut f: Vec<u8> = vec![0u8; 60];
    let mut i: usize = 0;
    while i < 6
        invariant
            i <= 6,
            f@.len() == 60,
            forall|j: int| 0 <= j < 60 ==> #[trigger] f@[j] == (if j < i { 0xFFu8 } else if 6 <= j < 6 + i { mac@[j - 6] } else if 22 <= j < 22 + i { mac@[j - 22] } else { 0u8 }),
        decreases 6 - i,
    {
        f.set(i, 0xFF);
        f.set(6 + i, mac[i]);
        f.set(22 + i, mac[i]);
        i += 1;
    }
    f.set(12, 0x08);
    f.set(13, 0x06);
    f.set(15, 0x01);
    f.set(16, 0x08);
    f.set(18, 6);
    f.set(19, 4);
    f.set(21, 0x01);
    f.set(28, 10);
    f.set(30, 2);
    f.set(31, 15);
    f.set(38, 10);
    f.set(40, 2);
    f.set(41, 2);
    assert(f@ =~= arp_request_frame(mac@));
    f
}

/// A received frame is the gateway's ARP reply: ethertype ARP, opcode
/// reply, sender IP 10.0.2.2.
pub open spec fn is_gateway_arp_reply(f: Seq<u8>) -> bool {
    &&& f[12] == 0x08 && f[13] == 0x06
    &&& f[20] == 0x00 && f[21] == 0x02
    &&& f.subrange(28, 32) == gateway_ip()
}

/// Checks a received frame (at least 32 bytes of it) for the gateway's reply.
pub fn e1000_arp_reply_ok(frame: &[u8]) -> (ok: bool)
    requires
        frame.len() >= 32,
    ensures
        ok == is_gateway_arp_reply(frame@),
{
    let ip_ok = frame[28] == 10 && frame[29] == 0 && frame[30] == 2 && frame[31] == 2;
    assert(ip_ok == (frame@.subrange(28, 32) == gateway_ip())) by {
        if ip_ok {
            assert(frame@.subrange(28, 32) =~= gateway_ip());
        } else if frame@.subrange(28, 32) == gateway_ip() {
            assert(frame@.subrange(28, 32)[0] == 10);
            assert(frame@.subrange(28, 32)[1] == 0);
            assert(frame@.subrange(28, 32)[2] == 2);
            assert(frame@.subrange(28, 32)[3] == 2);
        }
    }
    frame[12] == 0x08 && frame[13] == 0x06 && frame[20] == 0x00 && frame[21] == 0x02 && ip_ok
}

/// The request we send is never taken for the reply we wait for.
pub proof fn law_request_is_not_a_reply(mac: Seq<u8>)
    requires
        mac.len() == 6,
    ensures
        !is_gateway_arp_reply(arp_request_frame(mac)),
{
    assert(arp_request_frame(mac)[21] == 1);
}

/// The transmit self-test frame: broadcast from `mac`, ethertype 0x88B5
/// (local experimental), zero-padded to 60 bytes.
pub open spec fn tx_test_frame(mac: Seq<u8>) -> Seq<u8> {
    Seq::new(
        60,
        |i: int|
            if i < 6 {
                0xFFu8
            } else if i < 12 {
                mac[i - 6]
            } else if i == 12 {
                0x88u8
            } else if i == 13 {
                0xB5u8
            } else {
                0u8
            },
    )
}

/// Builds the transmit self-test frame.
pub fn e1000_tx_test_frame(mac: [u8; 6]) -> (f: Vec<u8>)
    ensures
        f@ == tx_test_frame(mac@),
{
    let mut f: Vec<u8> = vec![0u8; 60];
    let mut i: usize = 0;
    while i < 6
        invariant
            i <= 6,
            f@.len() == 60,
            forall|j: int| 0 <= j < 60 ==> #[trigger] f@[j] == (if j < i { 0xFFu8 } else if 6 <= j < 6 + i { mac@[j - 6] } else { 0u8 }),
        decreases 6 - i,
    {
        f.set(i, 0xFF);
        f.set(6 + i, mac[i]);
        i += 1;
    }
    f.set(12, 0x88);
    f.set(13, 0xB5);
    assert(f@ =~= tx_test_frame(mac@));
    f
}

/// Length handed to the NIC for a frame of `n` bytes: runts are padded.
pub open spec fn tx_len(n: int) -> int {
    if n < ETH_MIN_FRAME {
        ETH_MIN_FRAME as int
    } else {
        n
    }
}

/// `frame` zero-padded to the length the NIC is given.
pub fn e1000_pad_frame(frame: &[u8]) -> (buf: Vec<u8>)
    requires
        frame.len() <= E1000_TX_MAX,
    ensures
        buf@.len() == tx_len(frame.len() as int),
        buf@.subrange(0, frame.len() as int) == frame@,
        forall|i: int| frame.len() <= i < buf@.len() ==> buf@[i] == 0,
{
    let len = if frame.len() < ETH_MIN_FRAME { ETH_MIN_FRAME } else { frame.len() };
    let mut buf: Vec<u8> = Vec::new();
    let mut i: usize = 0;
    while i < len
        invariant
            i <= len,
            len == tx_len(frame.len() as int),
            frame.len() <= len,
            buf@.len() == i,
            forall|j: int| 0 <= j < i ==> #[trigger] buf@[j] == (if j < frame.len() { frame@[j] } else { 0u8 }),
        decreases len - i,
    {
        if i < frame.len() {
            buf.push(frame[i]);
        } else {
            buf.push(0);
        }
        i += 1;
    }
    assert(buf@.subrange(0, frame.len() as int) =~= frame@);
    buf
}

/// Where the next transmit goes: descriptor `desc` with length `len`, and
/// the tail register value that hands it to the device.
#[derive(Clone, Copy, Debug, PartialEq, Eq, Structural)]
pub struct TxSlot {
    pub desc: u32,
    pub len: u16,
    pub tdt: u32,
}

/// What the driver read out of a completed receive descriptor.
#[derive(Clone, Copy, Debug, PartialEq, Eq, Structural)]
pub struct RxSlot {
    pub desc: u32,
    /// Bytes to copy out: the frame length, cut to the caller's buffer.
    pub len: usize,
    /// Tail register value that recycles the descriptor to the device.
    pub rdt: u32,
}

/// Ring positions of the active NIC.
pub struct E1000Rings {
    pub tx_idx: u32,
    pub rx_idx: u32,
}

impl E1000Rings {
    pub fn new() -> (r: Self)
        ensures
            r.tx_idx == 0,
            r.rx_idx == 0,
    {
        E1000Rings { tx_idx: 0, rx_idx: 0 }
    }

    /// Claims the next TX descriptor for a frame of `frame_len` bytes; None
    /// (nothing changed) for a frame larger than the transmit buffer.
    pub fn e1000_tx_next(&mut self, frame_len: usize) -> (r: Option<TxSlot>)
        ensures
            frame_len > E1000_TX_MAX ==> r is None && final(self).tx_idx == old(self).tx_idx,
            frame_len <= E1000_TX_MAX ==> {
                let i = old(self).tx_idx % E1000_NTXD;
                &&& r == Some(TxSlot { desc: i, len: tx_len(frame_len as int) as u16, tdt: ((i + 1) % 8) as u32 })
                &&& final(self).tx_idx == (i + 1) % 8
            },
            final(self).rx_idx == old(self).rx_idx,
    {
        if frame_len > E1000_TX_MAX {
            return None;
        }
        let len = if frame_len < ETH_MIN_FRAME { ETH_MIN_FRAME } else { frame_len };
        let i = self.tx_idx % E1000_NTXD;
        let next = (i + 1) % E1000_NTXD;
        self.tx_idx = next;
        Some(TxSlot { desc: i, len: len as u16, tdt: next })
    }

    /// Takes the current RX descriptor if the device marked it done (status
    /// bit 0): the bytes to copy (frame length cut to `buf_len`) and the tail
    /// value that recycles it; the ring moves on. None, nothing changed, when
    /// no frame is ready.
    pub fn e1000_rx_take(&mut self, status: u8, desc_len: u16, buf_len: usize) -> (r: Option<RxSlot>)
        ensures
            status % 2 == 0 ==> r is None && final(self).rx_idx == old(self).rx_idx,
            status % 2 == 1 ==> {
                let i = old(self).rx_idx % E1000_NRXD;
                &&& r == Some(RxSlot { desc: i, len: if desc_len < buf_len { desc_len as usize } else { buf_len }, rdt: i })
                &&& final(self).rx_idx == (i + 1) % 8
            },
            final(self).tx_idx == old(self).tx_idx,
    {
        assert((status & 1u8) == status % 2) by (bit_vector);
        if status & 0x01 == 0 {
            return None;
        }
        let mut len = desc_len as usize;
        if len > buf_len {
            len = buf_len;
        }
        let i = self.rx_idx % E1000_NRXD;
        self.rx_idx = (i + 1) % E1000_NRXD;
        Some(RxSlot { desc: i, len, rdt: i })
    }
}

/// EERD command word that starts a read of EEPROM word `addr`.
pub fn e1000_eerd_command(addr: u16) -> (w: u32)
    ensures
        w == addr * 256 + 1,
{
    (addr as u32) * 256 + 1
}

/// The word an EERD read returned, once the DONE bit (4) is set.
pub fn e1000_eerd_data(v: u32) -> (r: Option<u16>)
    ensures
        r == (if (v / 16) % 2 == 1 { Some((v / 65536) as u16) } else { None }),
{
    assert((v & 0x10u32) != 0 <==> (v / 16) % 2 == 1) by (bit_vector);
    proof {
        crate::bytes::lemma_u32_fields(v);
    }
    if v & 0x10 != 0 {
        Some((v >> 16) as u16)
    } else {
        None
    }
}

/// Traffic flowed both ways: the good-packets received and transmitted
/// counters are both non-zero.
pub fn e1000_stats_ok(gprc: u32, gptc: u32) -> (ok: bool)
    ensures
        ok == (gprc > 0 && gptc > 0),
{
    gprc > 0 && gptc > 0
}

/// A legacy transmit descriptor as the driver fills it.
#[derive(Clone, Copy, Debug, PartialEq, Eq, Structural)]
pub struct TxDesc {
    pub addr: u64,
    pub len: u16,
    /// End of packet | insert FCS | report status.
    pub cmd: u8,
    pub status: u8,
}

/// The descriptor that sends `len` bytes from `buf`.
pub fn e1000_tx_descriptor(buf: u64, len: u16) -> (d: TxDesc)
    ensures
        d == (TxDesc { addr: buf, len, cmd: 0x0B, status: 0 }),
{
    TxDesc { addr: buf, len, cmd: 0x0B, status: 0 }
}

/// The device has written the descriptor back (Descriptor Done, status bit 0).
pub fn e1000_desc_done(status: u8) -> (r: bool)
    ensures
        r == (status % 2 == 1),
{
    assert((status & 1u8) == status % 2) by (bit_vector);
    status & 0x01 != 0
}

/// Buffer address of each of `n` receive descriptors: consecutive buffers of
/// `stride` bytes from `base`.
pub fn e1000_rx_buffers(base: u64, stride: u64, n: usize) -> (v: Vec<u64>)
    requires
        base + stride * n <= u64::MAX,
    ensures
        v@.len() == n,
        forall|i: int| 0 <= i < n ==> #[trigger] v@[i] == base + stride * i,
{
    let mut v: Vec<u64> = Vec::new();
    let mut i: usize = 0;
    while i < n
        invariant
            i <= n,
            base + stride * n <= u64::MAX,
            v@.len() == i,
            forall|j: int| 0 <= j < i ==> #[trigger] v@[j] == base + stride * j,
        decreases n - i,
    {
        assert(stride * i <= stride * n) by (nonlinear_arith)
            requires
                i <= n,
        ;
        v.push(base + stride * (i as u64));
        i += 1;
    }
    v
}

} // verus!
