//! The boot-time PCI scan of bus 0: one PROBE line per present function and
//! an ATTACH line for each function a driver of the kernel recognises, then the
//! number of functions found; and the search the device probes make for the
//! controller they drive. Configuration space is taken as a snapshot (its
//! reads have no side effects): the dwords at 0x00, 0x04, 0x08 and 0x0C of
//! function `dev.func` stand at `(dev * 8 + func) * 4` onwards.

use vstd::prelude::*;
use crate::pci::{pci_bar0_iobase, pci_find_device, pci_function_count, PciBdf, PciClaims};
use crate::serial::{hex16, serial_write, serial_write_hex};

verus! {

/// Dwords in the bus-0 snapshot: 32 devices, 8 functions, 4 dwords each.
pub const SCAN_DWORDS: usize = 1024;

pub open spec fn scan_header() -> Seq<u8> {
    seq![0x50u8, 0x43, 0x49, 0x3A, 0x20, 0x65, 0x6E, 0x75, 0x6D, 0x65, 0x72, 0x61, 0x74, 0x65, 0x20, 0x62, 0x75, 0x73, 0x30, 0x0A]
}

pub open spec fn probe_dev() -> Seq<u8> {
    seq![0x50u8, 0x52, 0x4F, 0x42, 0x45, 0x3A, 0x20, 0x64, 0x65, 0x76, 0x3D, 0x30, 0x78]
}

pub open spec fn probe_func() -> Seq<u8> {
    seq![0x20u8, 0x66, 0x75, 0x6E, 0x63, 0x3D, 0x30, 0x78]
}

pub open spec fn probe_vendor() -> Seq<u8> {
    seq![0x20u8, 0x76, 0x65, 0x6E, 0x64, 0x6F, 0x72, 0x3D, 0x30, 0x78]
}

pub open spec fn probe_device() -> Seq<u8> {
    seq![0x20u8, 0x64, 0x65, 0x76, 0x69, 0x63, 0x65, 0x3D, 0x30, 0x78]
}

pub open spec fn probe_class() -> Seq<u8> {
    seq![0x20u8, 0x63, 0x6C, 0x61, 0x73, 0x73, 0x3D, 0x30, 0x78]
}

pub open spec fn attach_prefix() -> Seq<u8> {
    seq![0x41u8, 0x54, 0x54, 0x41, 0x43, 0x48, 0x3A, 0x20]
}

pub open spec fn scan_footer() -> Seq<u8> {
    seq![0x50u8, 0x43, 0x49, 0x3A, 0x20, 0x64, 0x65, 0x76, 0x69, 0x63, 0x65, 0x73, 0x3D, 0x30, 0x78]
}

pub open spec fn name_virtio_blk() -> Seq<u8> {
    seq![0x76u8, 0x69, 0x72, 0x74, 0x69, 0x6F, 0x2D, 0x62, 0x6C, 0x6B, 0x2D, 0x70, 0x63, 0x69]
}

pub open spec fn name_virtio_net() -> Seq<u8> {
    seq![0x76u8, 0x69, 0x72, 0x74, 0x69, 0x6F, 0x2D, 0x6E, 0x65, 0x74, 0x2D, 0x70, 0x63, 0x69]
}

pub open spec fn name_nvme() -> Seq<u8> {
    seq![0x6Eu8, 0x76, 0x6D, 0x65]
}

pub open spec fn name_e1000() -> Seq<u8> {
    seq![0x65u8, 0x31, 0x30, 0x30, 0x30]
}

pub open spec fn newline() -> Seq<u8> {
    seq![0x0Au8]
}

/// The driver that claims `vendor:device`, by name; empty when none does.
pub open spec fn driver_name(vendor: u16, device: u16) -> Seq<u8> {
    if vendor == 0x1AF4 && device == 0x1001 {
        name_virtio_blk()
    } else if vendor == 0x1AF4 && device == 0x1000 {
        name_virtio_net()
    } else if (vendor == 0x1B36 && device == 0x0010) || (vendor == 0x8086 && device == 0x5845) {
        name_nvme()
    } else if vendor == 0x8086 && device == 0x100E {
        name_e1000()
    } else {
        Seq::empty()
    }
}

/// What the scan writes for function `dev.func` with identifier dword `id`
/// and class dword `class_reg`: nothing when no function answers (vendor
/// 0xFFFF), else its PROBE line and, for a known device, its ATTACH line.
pub open spec fn probe_text(dev: u8, func: u8, id: u32, class_reg: u32) -> Seq<u8> {
    let vendor = (id % 0x1_0000) as u16;
    let device = (id / 0x1_0000) as u16;
    if vendor == 0xFFFF {
        Seq::empty()
    } else {
        probe_dev() + hex16(dev as u64) + probe_func() + hex16(func as u64) + probe_vendor() + hex16(vendor as u64)
            + probe_device() + hex16(device as u64) + probe_class() + hex16((class_reg / 0x1_0000) as u64) + newline()
            + if driver_name(vendor, device).len() > 0 {
            attach_prefix() + driver_name(vendor, device) + newline()
        } else {
            Seq::empty()
        }
    }
}

/// Dword `reg` (0 to 3) of function `dev.func` in the snapshot.
pub open spec fn cfg_at(cfg: Seq<u32>, dev: int, func: int, reg: int) -> u32 {
    cfg[(dev * 8 + func) * 4 + reg]
}

/// Functions to probe on device `dev`: 8 when its header type marks it
/// multi-function, else 1.
pub open spec fn func_count(cfg: Seq<u32>, dev: int) -> int {
    if (cfg_at(cfg, dev, 0, 3) / 0x80_0000) % 2 == 1 {
        8
    } else {
        1
    }
}

/// A function answers when its vendor id is not 0xFFFF.
pub open spec fn present(cfg: Seq<u32>, dev: int, func: int) -> bool {
    cfg_at(cfg, dev, func, 0) % 0x1_0000 != 0xFFFF
}

/// Text for the first `n` functions of device `dev`.
pub open spec fn funcs_text(cfg: Seq<u32>, dev: int, n: nat) -> Seq<u8>
    decreases n,
{
    if n == 0 {
        Seq::empty()
    } else {
        funcs_text(cfg, dev, (n - 1) as nat) + probe_text(dev as u8, (n - 1) as u8, cfg_at(cfg, dev, n - 1, 0), cfg_at(cfg, dev, n - 1, 2))
    }
}

/// Present functions among the first `n` of device `dev`.
pub open spec fn funcs_found(cfg: Seq<u32>, dev: int, n: nat) -> nat
    decreases n,
{
    if n == 0 {
        0
    } else {
        funcs_found(cfg, dev, (n - 1) as nat) + if present(cfg, dev, n - 1) { 1nat } else { 0nat }
    }
}

/// Text for device `dev`: nothing when its function 0 does not answer.
pub open spec fn dev_text(cfg: Seq<u32>, dev: int) -> Seq<u8> {
    if present(cfg, dev, 0) {
        funcs_text(cfg, dev, func_count(cfg, dev) as nat)
    } else {
        Seq::empty()
    }
}

pub open spec fn dev_found(cfg: Seq<u32>, dev: int) -> nat {
    if present(cfg, dev, 0) {
        funcs_found(cfg, dev, func_count(cfg, dev) as nat)
    } else {
        0
    }
}

/// Text for devices `0..n`.
pub open spec fn devs_text(cfg: Seq<u32>, n: nat) -> Seq<u8>
    decreases n,
{
    if n == 0 {
        Seq::empty()
    } else {
        devs_text(cfg, (n - 1) as nat) + dev_text(cfg, n - 1)
    }
}

/// Functions found on devices `0..n`.
pub open spec fn devs_found(cfg: Seq<u32>, n: nat) -> nat
    decreases n,
{
    if n == 0 {
        0
    } else {
        devs_found(cfg, (n - 1) as nat) + dev_found(cfg, n - 1)
    }
}

/// The whole report of a scan of bus 0.
pub open spec fn scan_text(cfg: Seq<u32>) -> Seq<u8> {
    scan_header() + devs_text(cfg, 32) + scan_footer() + hex16(devs_found(cfg, 32) as u64) + newline()
}

fn write_scan_header(out: &mut Vec<u8>)
    ensures
        final(out)@ == old(out)@ + scan_header(),
{
    let m: [u8; 20] = [0x50, 0x43, 0x49, 0x3A, 0x20, 0x65, 0x6E, 0x75, 0x6D, 0x65, 0x72, 0x61, 0x74, 0x65, 0x20, 0x62, 0x75, 0x73, 0x30, 0x0A];
    assert(m@ =~= scan_header());
    serial_write(out, &m);
}

fn write_probe_dev(out: &mut Vec<u8>)
    ensures
        final(out)@ == old(out)@ + probe_dev(),
{
    let m: [u8; 13] = [0x50, 0x52, 0x4F, 0x42, 0x45, 0x3A, 0x20, 0x64, 0x65, 0x76, 0x3D, 0x30, 0x78];
    assert(m@ =~= probe_dev());
    serial_write(out, &m);
}

fn write_probe_func(out: &mut Vec<u8>)
    ensures
        final(out)@ == old(out)@ + probe_func(),
{
    let m: [u8; 8] = [0x20, 0x66, 0x75, 0x6E, 0x63, 0x3D, 0x30, 0x78];
    assert(m@ =~= probe_func());
    serial_write(out, &m);
}

fn write_probe_vendor(out: &mut Vec<u8>)
    ensures
        final(out)@ == old(out)@ + probe_vendor(),
{
    let m: [u8; 10] = [0x20, 0x76, 0x65, 0x6E, 0x64, 0x6F, 0x72, 0x3D, 0x30, 0x78];
    assert(m@ =~= probe_vendor());
    serial_write(out, &m);
}

fn write_probe_device(out: &mut Vec<u8>)
    ensures
        final(out)@ == old(out)@ + probe_device(),
{
    let m: [u8; 10] = [0x20, 0x64, 0x65, 0x76, 0x69, 0x63, 0x65, 0x3D, 0x30, 0x78];
    assert(m@ =~= probe_device());
    serial_write(out, &m);
}

fn write_probe_class(out: &mut Vec<u8>)
    ensures
        final(out)@ == old(out)@ + probe_class(),
{
    let m: [u8; 9] = [0x20, 0x63, 0x6C, 0x61, 0x73, 0x73, 0x3D, 0x30, 0x78];
    assert(m@ =~= probe_class());
    serial_write(out, &m);
}

fn write_attach_prefix(out: &mut Vec<u8>)
    ensures
        final(out)@ == old(out)@ + attach_prefix(),
{
    let m: [u8; 8] = [0x41, 0x54, 0x54, 0x41, 0x43, 0x48, 0x3A, 0x20];
    assert(m@ =~= attach_prefix());
    serial_write(out, &m);
}

fn write_scan_footer(out: &mut Vec<u8>)
    ensures
        final(out)@ == old(out)@ + scan_footer(),
{
    let m: [u8; 15] = [0x50, 0x43, 0x49, 0x3A, 0x20, 0x64, 0x65, 0x76, 0x69, 0x63, 0x65, 0x73, 0x3D, 0x30, 0x78];
    assert(m@ =~= scan_footer());
    serial_write(out, &m);
}

fn write_name_virtio_blk(out: &mut Vec<u8>)
    ensures
        final(out)@ == old(out)@ + name_virtio_blk(),
{
    let m: [u8; 14] = [0x76, 0x69, 0x72, 0x74, 0x69, 0x6F, 0x2D, 0x62, 0x6C, 0x6B, 0x2D, 0x70, 0x63, 0x69];
    assert(m@ =~= name_virtio_blk());
    serial_write(out, &m);
}

fn write_name_virtio_net(out: &mut Vec<u8>)
    ensures
        final(out)@ == old(out)@ + name_virtio_net(),
{
    let m: [u8; 14] = [0x76, 0x69, 0x72, 0x74, 0x69, 0x6F, 0x2D, 0x6E, 0x65, 0x74, 0x2D, 0x70, 0x63, 0x69];
    assert(m@ =~= name_virtio_net());
    serial_write(out, &m);
}

fn write_name_nvme(out: &mut Vec<u8>)
    ensures
        final(out)@ == old(out)@ + name_nvme(),
{
    let m: [u8; 4] = [0x6E, 0x76, 0x6D, 0x65];
    assert(m@ =~= name_nvme());
    serial_write(out, &m);
}

fn write_name_e1000(out: &mut Vec<u8>)
    ensures
        final(out)@ == old(out)@ + name_e1000(),
{
    let m: [u8; 5] = [0x65, 0x31, 0x30, 0x30, 0x30];
    assert(m@ =~= name_e1000());
    serial_write(out, &m);
}

fn write_newline(out: &mut Vec<u8>)
    ensures
        final(out)@ == old(out)@ + newline(),
{
    let m: [u8; 1] = [0x0A];
    assert(m@ =~= newline());
    serial_write(out, &m);
}

/// Name of the driver that claims `vendor:device` (empty when none does).
pub fn pci_driver_name(vendor: u16, device: u16) -> (r: Vec<u8>)
    ensures
        r@ == driver_name(vendor, device),
{
    let mut r: Vec<u8> = Vec::new();
    if vendor == 0x1AF4 && device == 0x1001 {
        write_name_virtio_blk(&mut r);
    } else if vendor == 0x1AF4 && device == 0x1000 {
        write_name_virtio_net(&mut r);
    } else if (vendor == 0x1B36 && device == 0x0010) || (vendor == 0x8086 && device == 0x5845) {
        write_name_nvme(&mut r);
    } else if vendor == 0x8086 && device == 0x100E {
        write_name_e1000(&mut r);
    }
    assert(r@ =~= driver_name(vendor, device));
    r
}

/// Writes what the scan reports for function `dev.func` and tells whether a
/// function answered there.
pub fn pci_probe_line(out: &mut Vec<u8>, dev: u8, func: u8, id: u32, class_reg: u32) -> (found: bool)
    ensures
        final(out)@ == old(out)@ + probe_text(dev, func, id, class_reg),
        found == (id % 0x1_0000 != 0xFFFF),
{
    proof {
        crate::bytes::lemma_u32_fields(id);
        crate::bytes::lemma_u32_fields(class_reg);
    }
    let vendor = (id & 0xFFFF) as u16;
    let device = ((id >> 16) & 0xFFFF) as u16;
    if vendor == 0xFFFF {
        assert(old(out)@ + probe_text(dev, func, id, class_reg) =~= old(out)@);
        return false;
    }
    let class = class_reg >> 16;
    let ghost start = out@;
    write_probe_dev(out);
    serial_write_hex(out, dev as u64);
    write_probe_func(out);
    serial_write_hex(out, func as u64);
    write_probe_vendor(out);
    serial_write_hex(out, vendor as u64);
    write_probe_device(out);
    serial_write_hex(out, device as u64);
    write_probe_class(out);
    serial_write_hex(out, class as u64);
    write_newline(out);
    let ghost line = probe_dev() + hex16(dev as u64) + probe_func() + hex16(func as u64) + probe_vendor() + hex16(vendor as u64)
        + probe_device() + hex16(device as u64) + probe_class() + hex16((class_reg / 0x1_0000) as u64) + newline();
    assert(out@ =~= start + line);
    let name = pci_driver_name(vendor, device);
    if name.len() > 0 {
        write_attach_prefix(out);
        serial_write(out, name.as_slice());
        write_newline(out);
        assert(out@ =~= start + (line + (attach_prefix() + driver_name(vendor, device) + newline())));
    } else {
        assert(out@ =~= start + (line + Seq::<u8>::empty()));
    }
    true
}

/// Scans bus 0 from its configuration snapshot: writes the report and
/// returns how many functions answered.
pub fn pci_enumerate_log(out: &mut Vec<u8>, cfg: &[u32]) -> (count: u32)
    requires
        cfg.len() == SCAN_DWORDS,
    ensures
        final(out)@ == old(out)@ + scan_text(cfg@),
        count == devs_found(cfg@, 32),
{
    let ghost start = out@;
    write_scan_header(out);
    let mut count: u32 = 0;
    let mut dev: u8 = 0;
    while dev < 32
        invariant
            cfg.len() == SCAN_DWORDS,
            dev <= 32,
            out@ == start + scan_header() + devs_text(cfg@, dev as nat),
            count == devs_found(cfg@, dev as nat),
            count <= dev as int * 8,
        decreases 32 - dev,
    {
        let base = dev as usize * 32;
        let ghost before = out@;
        let ghost c0 = count;
        let id0 = cfg[base];
        if (id0 & 0xFFFF) as u16 != 0xFFFF {
            proof {
                crate::bytes::lemma_u32_fields(id0);
            }
            let funcs = pci_function_count(cfg[base + 3]);
            let mut func: u8 = 0;
            while func < funcs
                invariant
                    cfg.len() == SCAN_DWORDS,
                    dev < 32,
                    base == dev as int * 32,
                    funcs as int == func_count(cfg@, dev as int),
                    func <= funcs,
                    out@ == before + funcs_text(cfg@, dev as int, func as nat),
                    count == c0 + funcs_found(cfg@, dev as int, func as nat),
                    c0 <= dev as int * 8,
                    funcs_found(cfg@, dev as int, func as nat) <= func,
                decreases funcs - func,
            {
                let idx = base + func as usize * 4;
                let ghost mid = out@;
                let found = pci_probe_line(out, dev, func, cfg[idx], cfg[idx + 2]);
                if found {
                    count += 1;
                }
                func += 1;
                assert(out@ =~= before + funcs_text(cfg@, dev as int, func as nat));
            }
            assert(present(cfg@, dev as int, 0));
        } else {
            proof {
                crate::bytes::lemma_u32_fields(id0);
            }
            assert(!present(cfg@, dev as int, 0));
        }
        dev += 1;
        assert(out@ =~= start + scan_header() + devs_text(cfg@, dev as nat));
    }
    write_scan_footer(out);
    serial_write_hex(out, count as u64);
    write_newline(out);
    assert(out@ =~= old(out)@ + scan_text(cfg@));
    count
}

/// The controllers the boot probes look for on bus 0.
#[derive(Clone, Copy, Debug, PartialEq, Eq, Structural)]
pub enum ScanTarget {
    /// Intel 82540EM NIC (8086:100E).
    E1000,
    /// HD Audio controller (class 04, subclass 03).
    Hda,
    /// USB xHCI controller (class 0C, subclass 03, interface 30).
    Xhci,
}

/// Function with identifier dword `id` and class dword `class_reg` is the
/// controller `t` looks for.
pub open spec fn target_matches(t: ScanTarget, id: u32, class_reg: u32) -> bool {
    match t {
        ScanTarget::E1000 => id % 0x1_0000 == 0x8086 && id / 0x1_0000 == 0x100E,
        ScanTarget::Hda => id % 0x1_0000 != 0xFFFF && class_reg / 0x1_0000 == 0x0403,
        ScanTarget::Xhci => id % 0x1_0000 != 0xFFFF && class_reg / 256 == 0x0C_0330,
    }
}

/// First matching function of device `dev` from function `f` on.
pub open spec fn find_from_funcs(cfg: Seq<u32>, t: ScanTarget, dev: int, f: int) -> Option<u8>
    decreases 8 - f,
{
    if f < 0 || f >= func_count(cfg, dev) || f >= 8 {
        None
    } else if target_matches(t, cfg_at(cfg, dev, f, 0), cfg_at(cfg, dev, f, 2)) {
        Some(f as u8)
    } else {
        find_from_funcs(cfg, t, dev, f + 1)
    }
}

/// First matching function, in scan order, on devices `d..32` of bus 0; a
/// device whose function 0 does not answer is skipped whole.
pub open spec fn find_from_devs(cfg: Seq<u32>, t: ScanTarget, d: int) -> Option<(u8, u8)>
    decreases 32 - d,
{
    if d < 0 || d >= 32 {
        None
    } else {
        let here = if present(cfg, d, 0) { find_from_funcs(cfg, t, d, 0) } else { None };
        match here {
            Some(f) => Some((d as u8, f)),
            None => find_from_devs(cfg, t, d + 1),
        }
    }
}

fn target_matches_exec(t: ScanTarget, id: u32, class_reg: u32) -> (r: bool)
    ensures
        r == target_matches(t, id, class_reg),
{
    proof {
        crate::bytes::lemma_u32_fields(id);
    }
    match t {
        ScanTarget::E1000 => crate::e1000::e1000_is_device(id),
        ScanTarget::Hda => (id & 0xFFFF) as u16 != 0xFFFF && crate::pci::pci_is_hda(class_reg),
        ScanTarget::Xhci => (id & 0xFFFF) as u16 != 0xFFFF && crate::pci::pci_is_xhci(class_reg),
    }
}

/// Finds the controller `t` on bus 0 from the configuration snapshot: the
/// first matching function in device order, functions in order within a
/// device (all eight only on a multi-function device).
pub fn pci_scan_find(cfg: &[u32], t: ScanTarget) -> (r: Option<PciBdf>)
    requires
        cfg.len() == SCAN_DWORDS,
    ensures
        r == (match find_from_devs(cfg@, t, 0) {
            Some((d, f)) => Some(PciBdf { bus: 0, dev: d, func: f }),
            None => None,
        }),
{
    let mut dev: u8 = 0;
    while dev < 32
        invariant
            cfg.len() == SCAN_DWORDS,
            dev <= 32,
            find_from_devs(cfg@, t, 0) == find_from_devs(cfg@, t, dev as int),
        decreases 32 - dev,
    {
        let base = dev as usize * 32;
        let id0 = cfg[base];
        proof {
            crate::bytes::lemma_u32_fields(id0);
        }
        if (id0 & 0xFFFF) as u16 != 0xFFFF {
            let funcs = pci_function_count(cfg[base + 3]);
            let mut func: u8 = 0;
            while func < funcs
                invariant
                    cfg.len() == SCAN_DWORDS,
                    dev < 32,
                    base == dev as int * 32,
                    funcs as int == func_count(cfg@, dev as int),
                    func <= funcs,
                    find_from_funcs(cfg@, t, dev as int, 0) == find_from_funcs(cfg@, t, dev as int, func as int),
                    present(cfg@, dev as int, 0),
                    find_from_devs(cfg@, t, 0) == find_from_devs(cfg@, t, dev as int),
                decreases funcs - func,
            {
                let idx = base + func as usize * 4;
                if target_matches_exec(t, cfg[idx], cfg[idx + 2]) {
                    assert(find_from_funcs(cfg@, t, dev as int, func as int) == Some(func));
                    assert(find_from_devs(cfg@, t, dev as int) == Some((dev, func)));
                    return Some(PciBdf { bus: 0, dev, func });
                }
                func += 1;
            }
        }
        dev += 1;
    }
    None
}

/// I/O port base of BAR0, as `pci_bar0_iobase` decodes it.
pub open spec fn io_bar(raw: u32) -> Option<u16> {
    if raw % 2 == 1 && (raw % 65536) / 4 * 4 != 0 {
        Some(((raw % 65536) / 4 * 4) as u16)
    } else {
        None
    }
}

/// What binding a legacy virtio function does: the first device on bus 0
/// (function 0) with vendor 0x1AF4 and `device`, its I/O base from BAR0, and
/// the claim of the function; the claim table after it.
pub open spec fn virtio_bind(claims: Seq<u16>, ids: Seq<u32>, bar0s: Seq<u32>, device: u16) -> (Option<(PciBdf, u16)>, Seq<u16>) {
    match crate::pci::find_device_from(ids, 0, 0x1AF4, device) {
        None => (None, claims),
        Some(d) => match io_bar(bar0s[d as int]) {
            None => (None, claims),
            Some(io) => {
                let bdf = PciBdf { bus: 0, dev: d, func: 0 };
                let (ok, after) = crate::pci::claim_result(claims, crate::pci::bdf_key(bdf));
                (if ok { Some((bdf, io)) } else { None }, after)
            },
        },
    }
}

/// Finds a legacy virtio function `0x1AF4:device` on bus 0 from the id dwords
/// and BAR0 dwords of its 32 devices, and claims it: its address and I/O base,
/// or None when there is none, its BAR0 is not a usable I/O BAR, or another
/// driver holds it. The caller then turns on I/O decoding and bus mastering.
pub fn pci_find_virtio_legacy_iobase(claims: &mut PciClaims, ids: &[u32], bar0s: &[u32], device: u16) -> (r: Option<(PciBdf, u16)>)
    requires
        old(claims).wf(),
        ids.len() == 32,
        bar0s.len() == 32,
    ensures
        final(claims).wf(),
        (r, final(claims)@) == virtio_bind(old(claims)@, ids@, bar0s@, device),
{
    let d = match pci_find_device(ids, 0, 0x1AF4, device) {
        Some(d) => d,
        None => return None,
    };
    proof {
        crate::pci::lemma_find_device_in_range(ids@, 0, 0x1AF4, device);
    }
    let io = match pci_bar0_iobase(bar0s[d as usize]) {
        Some(io) => io,
        None => return None,
    };
    let bdf = PciBdf { bus: 0, dev: d, func: 0 };
    if !claims.pci_claim_device(bdf) {
        return None;
    }
    Some((bdf, io))
}

/// The virtio block device (`0x1AF4:0x1001`), found and claimed.
pub fn pci_find_virtio_blk(claims: &mut PciClaims, ids: &[u32], bar0s: &[u32]) -> (r: Option<(PciBdf, u16)>)
    requires
        old(claims).wf(),
        ids.len() == 32,
        bar0s.len() == 32,
    ensures
        final(claims).wf(),
        (r, final(claims)@) == virtio_bind(old(claims)@, ids@, bar0s@, 0x1001),
{
    pci_find_virtio_legacy_iobase(claims, ids, bar0s, 0x1001)
}

} // verus!
