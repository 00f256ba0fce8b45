//! xHCI (USB 3) host controller: capability decoding, the register-window
//! check, TRB and context encodings, the event-ring consumer (dequeue index
//! and consumer cycle state) and the parsing of what a device sends back.
//! The controller bring-up itself alternates MMIO with these decisions; each
//! decision is a function here from what was read to what is written next.

use vstd::prelude::*;
use crate::bytes::lemma_u32_fields;

verus! {

/// TRBs in the event-ring segment.
pub const EVENT_RING_TRBS: u64 = 16;

/// Bytes of BAR mapped for the controller's registers.
pub const XHCI_WINDOW: u64 = 0x8000;

/// TRB types used by the driver.
pub const TRB_NORMAL: u32 = 1;
pub const TRB_SETUP: u32 = 2;
pub const TRB_DATA: u32 = 3;
pub const TRB_STATUS: u32 = 4;
pub const TRB_ENABLE_SLOT: u32 = 9;
pub const TRB_ADDRESS_DEVICE: u32 = 11;
pub const TRB_CONFIGURE_EP: u32 = 12;
pub const TRB_NOOP_CMD: u32 = 23;
pub const TRB_TRANSFER_EVENT: u32 = 32;
pub const TRB_CMD_COMPLETION: u32 = 33;

/// Completion codes.
pub const CC_SUCCESS: u32 = 1;
pub const CC_SHORT_PACKET: u32 = 13;

/// What the capability registers say.
#[derive(Clone, Copy, Debug, PartialEq, Eq, Structural)]
pub struct XhciCaps {
    /// Offset of the operational registers.
    pub caplength: u64,
    pub max_slots: u32,
    pub max_ports: u64,
    /// Doorbell array offset.
    pub dboff: u64,
    /// Runtime register offset.
    pub rtsoff: u64,
}

/// Decodes CAPLENGTH (dword 0x00), HCSPARAMS1 (0x04), DBOFF (0x14) and
/// RTSOFF (0x18).
pub fn xhci_decode_caps(cap0: u32, hcs1: u32, dboff: u32, rtsoff: u32) -> (c: XhciCaps)
    ensures
        c.caplength == cap0 % 256,
        c.max_slots == hcs1 % 256,
        c.max_ports == hcs1 / 0x100_0000,
        c.dboff == dboff / 4 * 4,
        c.rtsoff == rtsoff / 32 * 32,
{
    proof {
        lemma_u32_fields(cap0);
        lemma_u32_fields(hcs1);
        lemma_u32_fields(dboff);
        lemma_u32_fields(rtsoff);
    }
    XhciCaps {
        caplength: (cap0 & 0xFF) as u64,
        max_slots: hcs1 & 0xFF,
        max_ports: ((hcs1 >> 24) & 0xFF) as u64,
        dboff: (dboff & !0x3) as u64,
        rtsoff: (rtsoff & !0x1F) as u64,
    }
}

/// Every register the driver touches lies inside the mapped window, and the
/// BAR is page aligned: the operational block up to CONFIG (op + 0x3C),
/// interrupter 0 (rtsoff + 0x20 .. + 0x40), the PORTSC array and one
/// doorbell per slot plus the command doorbell.
pub open spec fn regs_fit(base: u64, c: XhciCaps) -> bool {
    &&& base % 4096 == 0
    &&& c.caplength + 0x3C <= XHCI_WINDOW
    &&& c.rtsoff + 0x40 <= XHCI_WINDOW
    &&& c.dboff + (c.max_slots + 1) * 4 <= XHCI_WINDOW
    &&& c.caplength + 0x400 + c.max_ports * 0x10 <= XHCI_WINDOW
}

/// Whether the register layout fits the mapped window.
pub fn xhci_regs_fit(base: u64, c: XhciCaps) -> (ok: bool)
    requires
        c.caplength < 256,
        c.max_ports < 256,
        c.max_slots < 256,
        c.dboff < 0x1_0000_0000,
        c.rtsoff < 0x1_0000_0000,
    ensures
        ok == regs_fit(base, c),
{
    !(base % 4096 != 0 || c.caplength + 0x3C > XHCI_WINDOW || c.rtsoff + 0x40 > XHCI_WINDOW
        || c.dboff + (c.max_slots as u64 + 1) * 4 > XHCI_WINDOW || c.caplength + 0x400
        + c.max_ports * 0x10 > XHCI_WINDOW)
}

/// Dword 3 of a command TRB: type, slot id, cycle bit 1.
pub open spec fn cmd_trb_dword3(ty: u32, slot: u32) -> u32 {
    (ty << 10u32) | (slot << 24u32) | 1u32
}

/// Dword 3 of a command TRB of type `ty` for slot `slot` (0 for none).
pub fn xhci_cmd_trb_dword3(ty: u32, slot: u32) -> (d: u32)
    requires
        ty < 64,
        slot < 256,
    ensures
        d == cmd_trb_dword3(ty, slot),
{
    (ty << 10) | (slot << 24) | 1
}

/// Completion code of an event (bits 24..32 of dword 2).
pub open spec fn completion_code(d2: u32) -> u32 {
    d2 / 0x100_0000
}

/// The event reports success.
pub fn xhci_event_ok(d2: u32) -> (ok: bool)
    ensures
        ok == (completion_code(d2) == CC_SUCCESS),
{
    proof {
        lemma_u32_fields(d2);
    }
    (d2 >> 24) == 1
}

/// A transfer event that delivered data: success or a short packet.
pub fn xhci_transfer_ok(d2: u32) -> (ok: bool)
    ensures
        ok == (completion_code(d2) == CC_SUCCESS || completion_code(d2) == CC_SHORT_PACKET),
{
    proof {
        lemma_u32_fields(d2);
    }
    let c = d2 >> 24;
    c == 1 || c == 13
}

/// Slot id of a command completion event (bits 24..32 of dword 3).
pub fn xhci_event_slot(d3: u32) -> (slot: u64)
    ensures
        slot == d3 / 0x100_0000,
{
    proof {
        lemma_u32_fields(d3);
    }
    ((d3 >> 24) & 0xFF) as u64
}

/// Event-ring consumer position: the next TRB to read and the cycle bit
/// that marks a TRB as written by the controller.
#[derive(Clone, Copy, Debug, PartialEq, Eq, Structural)]
pub struct EventCursor {
    pub idx: u64,
    pub ccs: u32,
}

/// A cursor the consumer can be in.
pub open spec fn cursor_ok(c: EventCursor) -> bool {
    c.idx < EVENT_RING_TRBS && c.ccs <= 1
}

/// The cursor after consuming one TRB: the next slot, wrapping to slot 0 and
/// flipping the cycle state at the end of the segment.
pub open spec fn cursor_next(c: EventCursor) -> EventCursor {
    if c.idx + 1 >= EVENT_RING_TRBS {
        EventCursor { idx: 0, ccs: (1 - c.ccs) as u32 }
    } else {
        EventCursor { idx: (c.idx + 1) as u64, ccs: c.ccs }
    }
}

/// What the consumer does with the TRB under the cursor.
#[derive(Clone, Copy, Debug, PartialEq, Eq, Structural)]
pub enum EventAction {
    /// The TRB's cycle bit differs from the consumer's: nothing new yet.
    Wait,
    /// Consume it, write ERDP = `erdp` (with the Event Handler Busy bit), and
    /// keep looking: it is an event of another type.
    Skip { next: EventCursor, erdp: u64 },
    /// Consume it, write ERDP = `erdp`: the awaited event.
    Found { next: EventCursor, erdp: u64 },
}

/// The dequeue pointer for cursor `c` of the ring at `ring`.
pub open spec fn erdp_of(ring: u64, c: EventCursor) -> u64 {
    (ring + c.idx * 16) as u64
}

/// TRB type of an event (bits 10..16 of dword 3).
pub open spec fn trb_type(d3: u32) -> u32 {
    (d3 / 1024) % 64
}

/// The consumer's decision for TRB dword 3 `d3` under cursor `c`, waiting
/// for an event of type `want` on the ring at `ring`.
pub open spec fn event_decision(c: EventCursor, ring: u64, d3: u32, want: u32) -> EventAction {
    if d3 % 2 != c.ccs {
        EventAction::Wait
    } else if trb_type(d3) == want {
        EventAction::Found { next: cursor_next(c), erdp: erdp_of(ring, cursor_next(c)) }
    } else {
        EventAction::Skip { next: cursor_next(c), erdp: erdp_of(ring, cursor_next(c)) }
    }
}

/// One step of the event-ring consumer.
pub fn xhci_event_step(c: EventCursor, ring: u64, d3: u32, want: u32) -> (a: EventAction)
    requires
        cursor_ok(c),
        ring + EVENT_RING_TRBS * 16 <= u64::MAX,
    ensures
        a == event_decision(c, ring, d3, want),
        a matches EventAction::Skip { next, .. } ==> cursor_ok(next),
        a matches EventAction::Found { next, .. } ==> cursor_ok(next),
{
    proof {
        lemma_u32_fields(d3);
        lemma_u32_fields(c.ccs);
    }
    if (d3 & 1) != c.ccs {
        return EventAction::Wait;
    }
    let ttype = (d3 >> 10) & 0x3F;
    let mut idx = c.idx + 1;
    let mut ccs = c.ccs;
    if idx >= EVENT_RING_TRBS {
        idx = 0;
        ccs = c.ccs ^ 1;
    }
    let next = EventCursor { idx, ccs };
    let erdp = ring + idx * 16;
    if ttype == want {
        EventAction::Found { next, erdp }
    } else {
        EventAction::Skip { next, erdp }
    }
}

/// The cursor after consuming `n` TRBs.
pub open spec fn cursor_after(c: EventCursor, n: nat) -> EventCursor
    decreases n,
{
    if n == 0 {
        c
    } else {
        cursor_next(cursor_after(c, (n - 1) as nat))
    }
}

proof fn lemma_cursor_after(c: EventCursor, n: nat)
    requires
        c.idx == 0,
        c.ccs <= 1,
        n < EVENT_RING_TRBS,
    ensures
        cursor_after(c, n) == (EventCursor { idx: n as u64, ccs: c.ccs }),
    decreases n,
{
    if n > 0 {
        lemma_cursor_after(c, (n - 1) as nat);
    }
}

/// Consuming a whole segment from slot 0 brings the consumer back to slot 0
/// with its cycle state flipped, so it reads the controller's next lap.
pub proof fn law_segment_lap_flips_cycle(c: EventCursor)
    requires
        c.idx == 0,
        c.ccs <= 1,
    ensures
        cursor_after(c, EVENT_RING_TRBS as nat) == (EventCursor { idx: 0, ccs: (1 - c.ccs) as u32 }),
{
    lemma_cursor_after(c, 15);
}

/// The consumer never leaves the segment: every step keeps a valid cursor.
pub proof fn law_cursor_stays_in_segment(c: EventCursor, n: nat)
    requires
        cursor_ok(c),
    ensures
        cursor_ok(cursor_after(c, n)),
    decreases n,
{
    if n > 0 {
        law_cursor_stays_in_segment(c, (n - 1) as nat);
    }
}

/// ERDP low dword as written: the pointer's low half with Event Handler Busy.
pub fn xhci_erdp_lo(erdp: u64) -> (lo: u32)
    ensures
        lo == (erdp as u32) | 8u32,
{
    (erdp as u32) | 0x8
}

/// First root port (1-based) whose PORTSC reports a connected device
/// (Current Connect Status, bit 0), or 0 when none does.
pub open spec fn first_connected(portsc: Seq<u32>, from: int, max_ports: int) -> u64
    decreases max_ports + 1 - from,
{
    if from < 1 || from > max_ports || from > portsc.len() {
        0
    } else if portsc[from - 1] % 2 == 1 {
        from as u64
    } else {
        first_connected(portsc, from + 1, max_ports)
    }
}

/// Scans PORTSC of ports `1..=max_ports` (`portsc[p - 1]` for port `p`).
pub fn xhci_find_connected_port(portsc: &[u32], max_ports: u64) -> (port: u64)
    requires
        max_ports < 256,
    ensures
        port == first_connected(portsc@, 1, max_ports as int),
{
    let mut port: u64 = 1;
    while port <= max_ports
        invariant
            1 <= port <= max_ports + 1,
            max_ports < 256,
            first_connected(portsc@, 1, max_ports as int) == first_connected(
                portsc@,
                port as int,
                max_ports as int,
            ),
        decreases max_ports + 1 - port,
    {
        if port as usize > portsc.len() {
            return 0;
        }
        let p = portsc[(port - 1) as usize];
        proof {
            lemma_u32_fields(p);
        }
        if p & 1 != 0 {
            return port;
        }
        port += 1;
    }
    0
}

/// Port speed field of PORTSC (bits 10..14).
pub fn xhci_port_speed(portsc: u32) -> (s: u32)
    ensures
        s == (portsc / 1024) % 16,
{
    proof {
        lemma_u32_fields(portsc);
    }
    (portsc >> 10) & 0xF
}

/// PORTSC value that starts a port reset: keep the port's state but drop the
/// write-1-to-clear change bits (17..24) and Port Enabled (bit 1, which a
/// write of 1 would disable), and set Port Reset (bit 4).
pub fn xhci_port_reset_value(portsc: u32) -> (v: u32)
    ensures
        v == (portsc & !0x00FE_0002u32) | 0x10u32,
{
    (portsc & !0x00FE_0002) | 0x10
}

/// Default control-endpoint max packet size for a port speed: 512 bytes at
/// SuperSpeed (4), 64 at High speed (3), 8 at Full and Low speed.
pub fn xhci_ep0_max_packet(speed: u32) -> (mps: u32)
    ensures
        mps == (if speed == 4 { 512u32 } else if speed == 3 { 64u32 } else { 8u32 }),
{
    match speed {
        4 => 512,
        3 => 64,
        _ => 8,
    }
}

/// Context size from HCCPARAMS1: 64 bytes when CSZ (bit 2) is set, else 32.
pub fn xhci_context_size(hcc1: u32) -> (sz: u64)
    ensures
        sz == (if (hcc1 / 4) % 2 == 1 { 64u64 } else { 32u64 }),
{
    proof {
        lemma_u32_fields(hcc1);
    }
    if (hcc1 >> 2) & 1 != 0 {
        64
    } else {
        32
    }
}

/// Slot context dword 0: route speed (bits 20..24) and context entries
/// (bits 27..32).
pub fn xhci_slot_ctx_dword0(speed: u32, entries: u32) -> (d: u32)
    ensures
        d == (speed << 20u32) | (entries << 27u32),
{
    (speed << 20) | (entries << 27)
}

/// Endpoint context dword 1: error count 3, endpoint type, max packet size.
pub fn xhci_ep_ctx_dword1(ep_type: u32, mps: u32) -> (d: u32)
    ensures
        d == 6u32 | (ep_type << 3u32) | (mps << 16u32),
{
    6 | (ep_type << 3) | (mps << 16)
}

/// Vendor and product id of an 18-byte USB device descriptor, or None when
/// the bytes are not one (bLength 18, bDescriptorType 1).
pub open spec fn device_ids(b: Seq<u8>) -> Option<(u32, u32)> {
    if b[0] == 18 && b[1] == 1 {
        Some(((b[8] + b[9] * 256) as u32, (b[10] + b[11] * 256) as u32))
    } else {
        None
    }
}

/// Parses a device descriptor read by GET_DESCRIPTOR(device).
pub fn xhci_parse_device_descriptor(buf: &[u8]) -> (r: Option<(u32, u32)>)
    requires
        buf.len() >= 18,
    ensures
        r == device_ids(buf@),
{
    if buf[0] == 18 && buf[1] == 1 {
        let vid = buf[8] as u32 + (buf[9] as u32) * 256;
        let pid = buf[10] as u32 + (buf[11] as u32) * 256;
        Some((vid, pid))
    } else {
        None
    }
}

/// Modifier byte and first key code of an 8-byte boot-keyboard report.
pub fn xhci_hid_boot_report(buf: &[u8]) -> (r: (u8, u8))
    requires
        buf.len() >= 8,
    ensures
        r == (buf@[0], buf@[2]),
{
    (buf[0], buf[2])
}

// ---------------- device enumeration ----------------

/// Where the enumeration of a device on a root port stands: which
/// completion it waits for.
#[derive(Clone, Copy, Debug, PartialEq, Eq, Structural)]
pub enum XhciPhase {
    /// The No-Op command's completion.
    NoOp,
    /// The Enable Slot command's completion (it carries the slot id).
    EnableSlot,
    /// The Address Device command's completion.
    AddressDevice,
    /// The GET_DESCRIPTOR(device) control transfer's event.
    GetDescriptor,
    /// The SET_CONFIGURATION(1) control transfer's event.
    SetConfiguration,
    /// The Configure Endpoint command's completion (interrupt-IN endpoint).
    ConfigureEndpoint,
    /// The SET_PROTOCOL(boot) control transfer's event.
    SetProtocol,
    /// Nothing more to issue.
    Done,
}

/// The enumeration's state: the phase, the slot the controller assigned,
/// and what has been learnt so far.
#[derive(Clone, Copy, Debug, PartialEq, Eq, Structural)]
pub struct XhciEnum {
    pub phase: XhciPhase,
    pub slot: u64,
    pub noop_ok: bool,
    pub enum_ok: bool,
    pub vid: u32,
    pub pid: u32,
    pub setcfg_ok: bool,
    pub cfgep_ok: bool,
    pub hid_ok: bool,
}

/// What the driver does next.
#[derive(Clone, Copy, Debug, PartialEq, Eq, Structural)]
pub enum XhciAction {
    /// Put a command TRB of type `ty` (for `slot`) on the command ring and
    /// ring doorbell 0.
    Command { ty: u32, slot: u64 },
    /// Queue the control transfer for `phase` on EP0 of `slot` and ring its
    /// doorbell.
    Control { slot: u64, phase: XhciPhase },
    /// Start polling the interrupt-IN endpoint of `slot` for a report.
    PollHid { slot: u64 },
    /// Stop.
    Stop,
}

/// The state before the No-Op command is issued.
pub open spec fn enum_start() -> XhciEnum {
    XhciEnum { phase: XhciPhase::NoOp, slot: 0, noop_ok: false, enum_ok: false, vid: 0, pid: 0, setcfg_ok: false, cfgep_ok: false, hid_ok: false }
}

/// Success of an awaited event (None is a timeout).
pub open spec fn ev_ok(ev: Option<(u32, u32)>) -> bool {
    ev matches Some((d2, _)) && completion_code(d2) == CC_SUCCESS
}

/// A transfer that delivered data (success or short packet).
pub open spec fn xfer_ok(ev: Option<(u32, u32)>) -> bool {
    ev matches Some((d2, _)) && (completion_code(d2) == CC_SUCCESS || completion_code(d2) == CC_SHORT_PACKET)
}

/// The enumeration step: given the state, the awaited event (`ev`, None on
/// timeout), whether a device sits on a root port with its DMA buffers in
/// hand (`device`), and the ids parsed from the descriptor buffer (`ids`),
/// the next state and action.
pub open spec fn enum_step(st: XhciEnum, ev: Option<(u32, u32)>, device: bool, ids: Option<(u32, u32)>) -> (XhciEnum, XhciAction) {
    match st.phase {
        XhciPhase::NoOp => {
            let s1 = XhciEnum { noop_ok: ev_ok(ev), ..st };
            if device {
                (XhciEnum { phase: XhciPhase::EnableSlot, ..s1 }, XhciAction::Command { ty: TRB_ENABLE_SLOT, slot: 0 })
            } else {
                (XhciEnum { phase: XhciPhase::Done, ..s1 }, XhciAction::Stop)
            }
        },
        XhciPhase::EnableSlot => {
            let slot: u64 = match ev {
                Some((d2, d3)) => if completion_code(d2) == CC_SUCCESS { (d3 / 0x100_0000) as u64 } else { 0 },
                None => 0,
            };
            if slot != 0 {
                (XhciEnum { phase: XhciPhase::AddressDevice, slot, ..st }, XhciAction::Command { ty: TRB_ADDRESS_DEVICE, slot })
            } else {
                (XhciEnum { phase: XhciPhase::Done, ..st }, XhciAction::Stop)
            }
        },
        XhciPhase::AddressDevice => {
            if ev_ok(ev) {
                (XhciEnum { phase: XhciPhase::GetDescriptor, ..st }, XhciAction::Control { slot: st.slot, phase: XhciPhase::GetDescriptor })
            } else {
                (XhciEnum { phase: XhciPhase::Done, ..st }, XhciAction::Stop)
            }
        },
        XhciPhase::GetDescriptor => {
            if xfer_ok(ev) && ids is Some {
                (XhciEnum { phase: XhciPhase::SetConfiguration, enum_ok: true, vid: ids.unwrap().0, pid: ids.unwrap().1, ..st },
                    XhciAction::Control { slot: st.slot, phase: XhciPhase::SetConfiguration })
            } else {
                (XhciEnum { phase: XhciPhase::Done, ..st }, XhciAction::Stop)
            }
        },
        XhciPhase::SetConfiguration => {
            (XhciEnum { phase: XhciPhase::ConfigureEndpoint, setcfg_ok: ev_ok(ev), ..st }, XhciAction::Command { ty: TRB_CONFIGURE_EP, slot: st.slot })
        },
        XhciPhase::ConfigureEndpoint => {
            (XhciEnum { phase: XhciPhase::SetProtocol, cfgep_ok: ev_ok(ev), ..st }, XhciAction::Control { slot: st.slot, phase: XhciPhase::SetProtocol })
        },
        XhciPhase::SetProtocol => {
            let hid = st.setcfg_ok && st.cfgep_ok && ev_ok(ev);
            if hid {
                (XhciEnum { phase: XhciPhase::Done, hid_ok: true, ..st }, XhciAction::PollHid { slot: st.slot })
            } else {
                (XhciEnum { phase: XhciPhase::Done, ..st }, XhciAction::Stop)
            }
        },
        XhciPhase::Done => (st, XhciAction::Stop),
    }
}

impl XhciEnum {
    /// The state before the No-Op command.
    pub fn new() -> (st: XhciEnum)
        ensures
            st == enum_start(),
    {
        XhciEnum { phase: XhciPhase::NoOp, slot: 0, noop_ok: false, enum_ok: false, vid: 0, pid: 0, setcfg_ok: false, cfgep_ok: false, hid_ok: false }
    }

    /// Takes the awaited event and decides what to issue next.
    pub fn xhci_enum_step(&mut self, ev: Option<(u32, u32)>, device: bool, ids: Option<(u32, u32)>) -> (a: XhciAction)
        ensures
            (*final(self), a) == enum_step(*old(self), ev, device, ids),
    {
        let ok = match ev {
            Some((d2, _)) => xhci_event_ok(d2),
            None => false,
        };
        match self.phase {
            XhciPhase::NoOp => {
                self.noop_ok = ok;
                if device {
                    self.phase = XhciPhase::EnableSlot;
                    XhciAction::Command { ty: TRB_ENABLE_SLOT, slot: 0 }
                } else {
                    self.phase = XhciPhase::Done;
                    XhciAction::Stop
                }
            },
            XhciPhase::EnableSlot => {
                let slot: u64 = match ev {
                    Some((d2, d3)) => if xhci_event_ok(d2) { xhci_event_slot(d3) } else { 0 },
                    None => 0,
                };
                if slot != 0 {
                    self.phase = XhciPhase::AddressDevice;
                    self.slot = slot;
                    XhciAction::Command { ty: TRB_ADDRESS_DEVICE, slot }
                } else {
                    self.phase = XhciPhase::Done;
                    XhciAction::Stop
                }
            },
            XhciPhase::AddressDevice => {
                if ok {
                    self.phase = XhciPhase::GetDescriptor;
                    XhciAction::Control { slot: self.slot, phase: XhciPhase::GetDescriptor }
                } else {
                    self.phase = XhciPhase::Done;
                    XhciAction::Stop
                }
            },
            XhciPhase::GetDescriptor => {
                let delivered = match ev {
                    Some((d2, _)) => xhci_transfer_ok(d2),
                    None => false,
                };
                match ids {
                    Some((vid, pid)) => {
                        if delivered {
                            self.phase = XhciPhase::SetConfiguration;
                            self.enum_ok = true;
                            self.vid = vid;
                            self.pid = pid;
                            return XhciAction::Control { slot: self.slot, phase: XhciPhase::SetConfiguration };
                        }
                    },
                    None => {},
                }
                self.phase = XhciPhase::Done;
                XhciAction::Stop
            },
            XhciPhase::SetConfiguration => {
                self.phase = XhciPhase::ConfigureEndpoint;
                self.setcfg_ok = ok;
                XhciAction::Command { ty: TRB_CONFIGURE_EP, slot: self.slot }
            },
            XhciPhase::ConfigureEndpoint => {
                self.phase = XhciPhase::SetProtocol;
                self.cfgep_ok = ok;
                XhciAction::Control { slot: self.slot, phase: XhciPhase::SetProtocol }
            },
            XhciPhase::SetProtocol => {
                self.phase = XhciPhase::Done;
                if self.setcfg_ok && self.cfgep_ok && ok {
                    self.hid_ok = true;
                    XhciAction::PollHid { slot: self.slot }
                } else {
                    XhciAction::Stop
                }
            },
            XhciPhase::Done => XhciAction::Stop,
        }
    }
}

/// What every reachable enumeration state satisfies: once past Enable Slot
/// the device has a non-zero slot, once past GET_DESCRIPTOR it has a valid
/// device descriptor, and HID reports are polled only after all three
/// configuration steps succeeded.
pub open spec fn enum_inv(st: XhciEnum) -> bool {
    &&& (st.phase == XhciPhase::NoOp || st.phase == XhciPhase::EnableSlot) ==> st.slot == 0 && !st.enum_ok
    &&& (st.phase == XhciPhase::AddressDevice || st.phase == XhciPhase::GetDescriptor) ==> st.slot != 0 && !st.enum_ok
    &&& (st.phase == XhciPhase::SetConfiguration || st.phase == XhciPhase::ConfigureEndpoint || st.phase == XhciPhase::SetProtocol) ==> st.slot != 0 && st.enum_ok
    &&& st.hid_ok ==> st.phase == XhciPhase::Done && st.enum_ok && st.setcfg_ok && st.cfgep_ok && st.slot != 0
}

/// The enumeration keeps its order whatever the controller answers: every
/// step from a reachable state leads to one, and every command or transfer
/// it issues for a device goes to the slot the controller assigned, with
/// configuration requests only for a device whose descriptor was read.
pub proof fn law_enumeration_order(st: XhciEnum, ev: Option<(u32, u32)>, device: bool, ids: Option<(u32, u32)>)
    requires
        enum_inv(st),
    ensures
        enum_inv(enum_step(st, ev, device, ids).0),
        enum_step(st, ev, device, ids).1 matches XhciAction::Command { ty, slot } ==> (ty != TRB_ENABLE_SLOT ==> slot != 0 && slot == enum_step(st, ev, device, ids).0.slot),
        enum_step(st, ev, device, ids).1 matches XhciAction::Control { slot, phase } ==> slot != 0 && (phase != XhciPhase::GetDescriptor ==> enum_step(st, ev, device, ids).0.enum_ok),
        enum_step(st, ev, device, ids).1 matches XhciAction::PollHid { slot } ==> enum_step(st, ev, device, ids).0.hid_ok,
{
}

/// Enumeration starts in a state that satisfies the invariant.
pub proof fn law_enumeration_starts_sound()
    ensures
        enum_inv(enum_start()),
{
}

} // verus!
