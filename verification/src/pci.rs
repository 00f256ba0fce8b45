//! PCI configuration space: the CF8 address word, bus/device/function keys,
//! the one-driver-per-function claim table, BAR decoding and the capability
//! list walk. Config space is read as a snapshot of its 64 dwords; reading it
//! has no side effects, so a walk over the snapshot is the walk over the device.

use vstd::prelude::*;

verus! {

/// Bus / device / function address of a PCI function.
#[derive(Clone, Copy, Debug, PartialEq, Eq, Structural)]
pub struct PciBdf {
    pub bus: u8,
    pub dev: u8,
    pub func: u8,
}

/// A well-formed address: 32 devices per bus, 8 functions per device.
pub open spec fn bdf_valid(b: PciBdf) -> bool {
    b.dev < 32 && b.func < 8
}

/// The 16-bit key of a function: bus in the high byte, then device and function.
pub open spec fn bdf_key(b: PciBdf) -> u16 {
    ((b.bus as u16) << 8u16) | ((b.dev as u16) << 3u16) | (b.func as u16)
}

/// The configuration-address word written to port 0xCF8 to reach the dword
/// at `offset` of function `bus:dev.func`.
pub open spec fn config_address(bus: u8, dev: u8, func: u8, offset: u8) -> u32 {
    0x8000_0000u32 | ((bus as u32) << 16u32) | ((dev as u32) << 11u32) | ((func as u32) << 8u32)
        | ((offset as u32) & 0xFCu32)
}

proof fn lemma_key_arith(bus: u8, dev: u8, func: u8)
    by (bit_vector)
    requires
        dev < 32,
        func < 8,
    ensures
        ((bus as u16) << 8u16) | ((dev as u16) << 3u16) | (func as u16) == bus * 256 + dev * 8 + func,
{
}

/// Key of `bdf` for the claim table. For a valid address it is
/// `bus * 256 + dev * 8 + func`, so distinct functions get distinct keys.
pub fn pci_bdf_key(bdf: PciBdf) -> (k: u16)
    ensures
        k == bdf_key(bdf),
        bdf_valid(bdf) ==> k == bdf.bus * 256 + bdf.dev * 8 + bdf.func,
{
    proof {
        if bdf_valid(bdf) {
            lemma_key_arith(bdf.bus, bdf.dev, bdf.func);
        }
    }
    ((bdf.bus as u16) << 8) | ((bdf.dev as u16) << 3) | (bdf.func as u16)
}

/// Two valid functions with the same key are the same function.
pub proof fn law_bdf_key_injective(a: PciBdf, b: PciBdf)
    requires
        bdf_valid(a),
        bdf_valid(b),
        bdf_key(a) == bdf_key(b),
    ensures
        a == b,
{
    lemma_key_arith(a.bus, a.dev, a.func);
    lemma_key_arith(b.bus, b.dev, b.func);
}

/// The configuration-address word for the dword at `offset` (the low two bits
/// of `offset` are dropped).
pub fn pci_config_address(bus: u8, dev: u8, func: u8, offset: u8) -> (a: u32)
    ensures
        a == config_address(bus, dev, func, offset),
{
    0x8000_0000u32 | ((bus as u32) << 16) | ((dev as u32) << 11) | ((func as u32) << 8) | ((
    offset as u32) & 0xFC)
}

// ---------------- claim table ----------------

pub const PCI_CLAIM_NONE: u16 = 0xFFFF;

pub const PCI_CLAIM_SLOTS: usize = 4;

/// Where a claim of key `k` stops scanning `s` from slot `i`: the first slot
/// holding `k` or free, or `s.len()` when there is none.
pub open spec fn claim_stop(s: Seq<u16>, k: u16, i: int) -> int
    decreases s.len() - i,
{
    if i < 0 || i >= s.len() {
        s.len() as int
    } else if s[i] == k || s[i] == PCI_CLAIM_NONE {
        i
    } else {
        claim_stop(s, k, i + 1)
    }
}

/// Outcome of claiming key `k` in table `s`: whether the claim succeeds, and
/// the table after it. The key goes into the first free slot unless the key
/// already sits before it; a full table refuses.
pub open spec fn claim_result(s: Seq<u16>, k: u16) -> (bool, Seq<u16>) {
    let i = claim_stop(s, k, 0);
    if i < s.len() && s[i] != k {
        (true, s.update(i, k))
    } else {
        (false, s)
    }
}

proof fn lemma_claim_stop_props(s: Seq<u16>, k: u16, i: int)
    requires
        0 <= i <= s.len(),
    ensures
        i <= claim_stop(s, k, i) <= s.len(),
        forall|j: int| i <= j < claim_stop(s, k, i) ==> s[j] != k && s[j] != PCI_CLAIM_NONE,
        claim_stop(s, k, i) < s.len() ==> (s[claim_stop(s, k, i)] == k || s[claim_stop(s, k, i)]
            == PCI_CLAIM_NONE),
    decreases s.len() - i,
{
    if i < s.len() && !(s[i] == k || s[i] == PCI_CLAIM_NONE) {
        lemma_claim_stop_props(s, k, i + 1);
    }
}

proof fn lemma_claim_stop_at(s: Seq<u16>, k: u16, i: int, p: int)
    requires
        0 <= i <= p < s.len(),
        s[p] == k || s[p] == PCI_CLAIM_NONE,
        forall|j: int| i <= j < p ==> s[j] != k && s[j] != PCI_CLAIM_NONE,
    ensures
        claim_stop(s, k, i) == p,
    decreases p - i,
{
    if i < p {
        lemma_claim_stop_at(s, k, i + 1, p);
    }
}

/// The table of claimed functions: slots hold keys, `PCI_CLAIM_NONE` is free.
pub struct PciClaims {
    slots: Vec<u16>,
}

impl PciClaims {
    pub closed spec fn view(&self) -> Seq<u16> {
        self.slots@
    }

    pub closed spec fn wf(&self) -> bool {
        self.slots@.len() == PCI_CLAIM_SLOTS
    }

    /// An empty table.
    pub fn new() -> (c: Self)
        ensures
            c.wf(),
            c@ == seq![PCI_CLAIM_NONE; 4],
    {
        let c = PciClaims { slots: vec![PCI_CLAIM_NONE, PCI_CLAIM_NONE, PCI_CLAIM_NONE, PCI_CLAIM_NONE] };
        assert(c.slots@ =~= seq![PCI_CLAIM_NONE; 4]);
        c
    }

    /// Claim `bdf` for one driver: true the first time, false if it is
    /// already claimed or the table is full.
    pub fn pci_claim_device(&mut self, bdf: PciBdf) -> (ok: bool)
        requires
            old(self).wf(),
        ensures
            final(self).wf(),
            (ok, final(self)@) == claim_result(old(self)@, bdf_key(bdf)),
    {
        let key = pci_bdf_key(bdf);
        let ghost s = self.slots@;
        let mut i: usize = 0;
        while i < PCI_CLAIM_SLOTS
            invariant
                i <= PCI_CLAIM_SLOTS,
                self.slots@ == s,
                s == old(self)@,
                s.len() == PCI_CLAIM_SLOTS,
                key == bdf_key(bdf),
                forall|j: int| 0 <= j < i ==> s[j] != key && s[j] != PCI_CLAIM_NONE,
            decreases PCI_CLAIM_SLOTS - i,
        {
            let slot = self.slots[i];
            if slot == key {
                proof {
                    lemma_claim_stop_at(s, key, 0, i as int);
                    assert(claim_result(s, key) == (false, s));
                }
                return false;
            }
            if slot == PCI_CLAIM_NONE {
                proof {
                    lemma_claim_stop_at(s, key, 0, i as int);
                }
                self.slots.set(i, key);
                assert(claim_result(s, key).1 =~= self.slots@);
                return true;
            }
            i += 1;
        }
        proof {
            lemma_claim_stop_props(s, key, 0);
        }
        false
    }
}

/// A claim that succeeded makes every later claim of the same key fail.
pub proof fn law_claim_is_exclusive(s: Seq<u16>, k: u16)
    requires
        claim_result(s, k).0,
    ensures
        !claim_result(claim_result(s, k).1, k).0,
        claim_result(claim_result(s, k).1, k).1 == claim_result(s, k).1,
{
    let i = claim_stop(s, k, 0);
    lemma_claim_stop_props(s, k, 0);
    let t = s.update(i, k);
    assert forall|j: int| 0 <= j < i implies t[j] != k && t[j] != PCI_CLAIM_NONE by {}
    lemma_claim_stop_at(t, k, 0, i);
}

// ---------------- BARs and header ----------------

/// I/O port base of an I/O BAR: None for a memory BAR or an unassigned one.
pub fn pci_bar0_iobase(bar0_raw: u32) -> (r: Option<u16>)
    ensures
        r == (if bar0_raw % 2 == 1 && (bar0_raw % 65536) / 4 * 4 != 0 {
            Some(((bar0_raw % 65536) / 4 * 4) as u16)
        } else {
            None
        }),
{
    if (bar0_raw & 1) == 0 {
        assert((bar0_raw & 1u32) == bar0_raw % 2) by (bit_vector);
        return None;
    }
    let iobase = (bar0_raw & !3u32) as u16;
    assert((bar0_raw & 1u32) == bar0_raw % 2 && ((bar0_raw & !3u32) as u16) == (bar0_raw % 65536)
        / 4 * 4) by (bit_vector);
    if iobase == 0 {
        return None;
    }
    Some(iobase)
}

/// Base address of a memory BAR: the low dword with its flag bits cleared,
/// plus the next BAR as the high dword when the BAR is 64-bit (type 2).
pub fn pci_bar_mem_base(bar_lo: u32, bar_hi: u32) -> (base: u64)
    ensures
        base == bar_lo / 16 * 16 + (if (bar_lo / 2) % 4 == 2 {
            bar_hi * 0x1_0000_0000
        } else {
            0
        }),
{
    let mut base = (bar_lo & 0xFFFF_FFF0) as u64;
    assert((bar_lo & 0xFFFF_FFF0u32) == bar_lo / 16 * 16 && (bar_lo >> 1u32) & 3u32 == (bar_lo / 2)
        % 4) by (bit_vector);
    if (bar_lo >> 1) & 0x3 == 0x2 {
        let hi = (bar_hi as u64) << 32;
        let lo = base;
        assert(lo < 0x1_0000_0000 ==> (((bar_hi as u64) << 32u64) | lo) == bar_hi
            * 0x1_0000_0000 + lo && ((bar_hi as u64) << 32u64) == bar_hi * 0x1_0000_0000)
            by (bit_vector);
        base = hi | lo;
    }
    base
}

/// Functions to probe on a device: 8 for a multi-function device (header
/// type bit 7, bit 23 of the dword at 0x0C), else 1.
pub fn pci_function_count(hdr_dword: u32) -> (n: u8)
    ensures
        n == (if (hdr_dword / 0x80_0000) % 2 == 1 {
            8u8
        } else {
            1u8
        }),
{
    let hdr = (hdr_dword >> 16) & 0xFF;
    assert(((hdr_dword >> 16u32) & 0xFFu32) & 0x80u32 == 0 <==> (hdr_dword / 0x80_0000) % 2 == 0)
        by (bit_vector);
    if hdr & 0x80 != 0 {
        8
    } else {
        1
    }
}

/// Command register with I/O space and bus mastering enabled.
pub fn pci_io_bus_master_cmd(cmd_reg: u32) -> (r: u32)
    ensures
        r == cmd_reg | 5u32,
{
    let cmd = ((cmd_reg & 0xFFFF) as u16) | 0x0005;
    assert((cmd_reg & 0xFFFF_0000u32) | ((((cmd_reg & 0xFFFFu32) as u16) | 5u16) as u32) == cmd_reg
        | 5u32) by (bit_vector);
    (cmd_reg & 0xFFFF_0000) | (cmd as u32)
}

// ---------------- capability list ----------------

/// Follow the capability chain from `ptr` for id `id`, at most 48 hops from
/// `hops` on; each capability's dword holds its id and the next pointer.
pub open spec fn cap_walk(cfg: Seq<u32>, ptr: u8, hops: nat, id: u8) -> Option<u8>
    decreases 48 - hops,
{
    if ptr == 0 || hops >= 48 {
        None
    } else {
        let dw = cfg[ptr as int / 4];
        if (dw & 0xFFu32) as u8 == id {
            Some(ptr)
        } else {
            cap_walk(cfg, ((dw >> 8u32) & 0xFCu32) as u8, hops + 1, id)
        }
    }
}

/// Offset of capability `id` in config space `cfg`, if the status register
/// advertises a capability list and the chain reaches it.
pub open spec fn find_cap_spec(cfg: Seq<u32>, id: u8) -> Option<u8> {
    if (cfg[1] >> 16u32) & 0x10u32 == 0 {
        None
    } else {
        cap_walk(cfg, (cfg[13] & 0xFCu32) as u8, 0, id)
    }
}

/// Config-space offset of capability `cap_id` in the 64-dword snapshot `cfg`.
pub fn pci_find_cap(cfg: &[u32], cap_id: u8) -> (r: Option<u8>)
    requires
        cfg.len() == 64,
    ensures
        r == find_cap_spec(cfg@, cap_id),
{
    let c1 = cfg[1];
    let status = (c1 >> 16) as u16;
    assert(((c1 >> 16u32) as u16) & 16u16 == 0 <==> (c1 >> 16u32) & 0x10u32 == 0) by (bit_vector);
    if status & 0x10 == 0 {
        return None;
    }
    let mut ptr = (cfg[13] & 0xFC) as u8;
    let mut guard: u32 = 0;
    while ptr != 0 && guard < 48
        invariant
            cfg.len() == 64,
            guard <= 48,
            find_cap_spec(cfg@, cap_id) == cap_walk(cfg@, ptr, guard as nat, cap_id),
        decreases 48 - guard,
    {
        assert(ptr / 4 < 64);
        let dw = cfg[(ptr / 4) as usize];
        let id = (dw & 0xFF) as u8;
        let next = ((dw >> 8) & 0xFC) as u8;
        if id == cap_id {
            return Some(ptr);
        }
        ptr = next;
        guard += 1;
    }
    None
}

/// MSI-X table size from the capability's first dword (Message Control is its
/// high half; the size field holds N - 1).
pub fn msix_table_size(cap_dword: u32) -> (n: u16)
    ensures
        n == (cap_dword / 65536) % 2048 + 1,
{
    let msgctl = (cap_dword >> 16) as u16;
    assert(((cap_dword >> 16u32) as u16) & 0x7FFu16 == (cap_dword / 65536) % 2048) by (bit_vector);
    (msgctl & 0x7FF) + 1
}

/// The capability's first dword with the MSI-X Enable bit (bit 31) set.
pub fn msix_enable_dword(cap_dword: u32) -> (r: u32)
    ensures
        r == cap_dword | 0x8000_0000u32,
{
    let msgctl = (cap_dword >> 16) as u16;
    assert((cap_dword & 0xFFFFu32) | ((((cap_dword >> 16u32) as u16) | 0x8000u16) as u32) << 16u32
        == cap_dword | 0x8000_0000u32) by (bit_vector);
    (cap_dword & 0x0000_FFFF) | (((msgctl | 0x8000) as u32) << 16)
}

/// First device on bus 0 whose function 0 has `vendor:device`, from the id
/// dwords (offset 0) of devices `start..32`.
pub open spec fn find_device_from(ids: Seq<u32>, start: int, vendor: u16, device: u16) -> Option<u8>
    decreases 32 - start,
{
    if start < 0 || start >= 32 {
        None
    } else if ids[start] % 65536 == vendor && ids[start] / 65536 == device {
        Some(start as u8)
    } else {
        find_device_from(ids, start + 1, vendor, device)
    }
}

/// A device the search reports is one of the 32 on the bus.
pub proof fn lemma_find_device_in_range(ids: Seq<u32>, start: int, vendor: u16, device: u16)
    ensures
        find_device_from(ids, start, vendor, device) matches Some(d) ==> start <= d < 32,
    decreases 32 - start,
{
    if 0 <= start < 32 {
        lemma_find_device_in_range(ids, start + 1, vendor, device);
    }
}

/// Scans the 32 id dwords `ids` of bus 0 from device `start` for
/// `vendor:device`; returns the device number.
pub fn pci_find_device(ids: &[u32], start: u8, vendor: u16, device: u16) -> (r: Option<u8>)
    requires
        ids.len() == 32,
    ensures
        r == find_device_from(ids@, start as int, vendor, device),
{
    let mut dev: u8 = start;
    while dev < 32
        invariant
            ids.len() == 32,
            start <= dev,
            find_device_from(ids@, start as int, vendor, device) == find_device_from(
                ids@,
                dev as int,
                vendor,
                device,
            ),
        decreases 32 - dev,
    {
        let id = ids[dev as usize];
        let v = (id & 0xFFFF) as u16;
        let d = ((id >> 16) & 0xFFFF) as u16;
        assert(((id & 0xFFFFu32) as u16) == id % 65536 && (((id >> 16u32) & 0xFFFFu32) as u16) == id
            / 65536) by (bit_vector);
        if v == vendor && d == device {
            return Some(dev);
        }
        dev += 1;
    }
    None
}

/// Class, subclass and programming interface from the class dword (0x08).
pub fn pci_class_triplet(class_reg: u32) -> (r: (u8, u8, u8))
    ensures
        r == ((class_reg / 0x100_0000) as u8, ((class_reg / 0x1_0000) % 256) as u8, ((class_reg / 256) % 256) as u8),
{
    proof {
        crate::bytes::lemma_u32_fields(class_reg);
    }
    ((class_reg >> 24) as u8, ((class_reg >> 16) & 0xFF) as u8, ((class_reg >> 8) & 0xFF) as u8)
}

/// An xHCI controller: serial bus (0x0C), USB (0x03), xHCI interface (0x30).
pub fn pci_is_xhci(class_reg: u32) -> (r: bool)
    ensures
        r == (class_reg / 256 == 0x0C_0330),
{
    let (c, s, p) = pci_class_triplet(class_reg);
    c == 0x0C && s == 0x03 && p == 0x30
}

/// An HD Audio controller: multimedia (0x04), HD Audio (0x03).
pub fn pci_is_hda(class_reg: u32) -> (r: bool)
    ensures
        r == (class_reg / 0x1_0000 == 0x0403),
{
    let (c, s, p) = pci_class_triplet(class_reg);
    c == 0x04 && s == 0x03
}

/// ECAM base from PCIEXBAR (dword 0x60 of 0:0.0): None when decoding is
/// disabled (bit 0), else the 256 MiB-aligned base (bits 28..32).
pub fn ecam_base(bar: u32) -> (r: Option<u64>)
    ensures
        r == (if bar % 2 == 0 { None } else { Some((bar / 0x1000_0000 * 0x1000_0000) as u64) }),
{
    assert((bar & 1u32) == bar % 2 && (bar & 0xF000_0000u32) == bar / 0x1000_0000 * 0x1000_0000) by (bit_vector);
    if bar & 1 == 0 {
        return None;
    }
    Some((bar & 0xF000_0000) as u64)
}

/// ECAM address of the configuration space of `bus:dev.func`.
pub fn ecam_function_address(base: u64, bus: u8, dev: u8, func: u8) -> (a: u64)
    requires
        base <= 0xFFFF_FFFF,
    ensures
        a == base + bus * 0x10_0000 + dev * 0x8000 + func * 0x1000,
{
    base + (bus as u64) * 0x10_0000 + (dev as u64) * 0x8000 + (func as u64) * 0x1000
}

/// Where the MSI-X table lives, from the capability's second dword: the BAR
/// index (bits 0..3), the offset into that BAR, and the config offset of the
/// BAR register.
pub fn msix_table_location(tdw: u32) -> (r: (u8, u64, u8))
    ensures
        r == ((tdw % 8) as u8, (tdw / 8 * 8) as u64, (0x10 + (tdw % 8) * 4) as u8),
{
    assert((tdw & 7u32) == tdw % 8 && (tdw & 0xFFFF_FFF8u32) == tdw / 8 * 8) by (bit_vector);
    let bir = (tdw & 0x7) as u8;
    (bir, (tdw & 0xFFFF_FFF8) as u64, 0x10 + bir * 4)
}

/// Table entry 0 read back what was written: the LAPIC message address, data
/// 0x41 and the mask bit.
pub fn msix_entry_latched(addr: u32, data: u32, ctrl: u32) -> (ok: bool)
    ensures
        ok == (addr == 0xFEE0_0000 && data % 65536 == 0x41 && ctrl % 2 == 1),
{
    proof {
        crate::bytes::lemma_u32_fields(data);
        crate::bytes::lemma_u32_fields(ctrl);
    }
    addr == 0xFEE0_0000 && (data & 0xFFFF) == 0x41 && (ctrl & 1) == 1
}

} // verus!
