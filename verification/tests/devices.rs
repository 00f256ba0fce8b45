use kernel_rs::pci_scan::{
    pci_driver_name, pci_enumerate_log, pci_find_virtio_blk, pci_find_virtio_legacy_iobase, pci_probe_line, pci_scan_find,
    ScanTarget,
};
use kernel_rs::clock::tsc_hz_from_ticks;
use kernel_rs::e1000::{e1000_desc_done, e1000_rx_buffers, e1000_tx_descriptor, TxDesc};
use kernel_rs::hda::{hda_audio_fill, hda_audio_test_block};
use kernel_rs::pci::{ecam_base, ecam_function_address, msix_entry_latched, msix_table_location, pci_class_triplet, pci_is_hda, pci_is_xhci};
use kernel_rs::e1000::{e1000_eerd_command, e1000_eerd_data, e1000_stats_ok};
use kernel_rs::virtio::{
        virtio_avail_push, virtio_blk_chain, virtio_blk_request, virtio_blk_status_ok,
        virtio_queue_layout, virtio_queue_pfn, virtio_used_advance, BlkReq, VqLayout, VringDesc,
    };
use kernel_rs::e1000::{
    e1000_arp_reply_ok, e1000_arp_request, e1000_is_device, e1000_mac_from_eeprom, e1000_mac_value,
    e1000_pad_frame, e1000_tx_test_frame, E1000Rings, RxSlot, TxSlot,
};
use kernel_rs::hda::{
    hda_bdl, hda_dac_setup_verbs, hda_decode_caps, hda_find_widget, hda_first_codec, hda_get_parameter,
    hda_node_range, hda_output_stream_offset, hda_pcm_buffer, hda_pcm_progressed, hda_stream_tag_byte,
    hda_verb_answered, hda_widget_scan_len, BdlEntry,
};
use kernel_rs::pci::{
    msix_enable_dword, msix_table_size, pci_bar0_iobase, pci_bar_mem_base, pci_bdf_key, pci_config_address,
    pci_find_cap, pci_find_device, pci_function_count, pci_io_bus_master_cmd, PciBdf, PciClaims,
};
use kernel_rs::xhci::{
    xhci_cmd_trb_dword3, xhci_context_size, xhci_decode_caps, xhci_ep0_max_packet, xhci_ep_ctx_dword1,
    xhci_erdp_lo, xhci_event_ok, xhci_event_slot, xhci_event_step, xhci_find_connected_port,
    xhci_hid_boot_report, xhci_parse_device_descriptor, xhci_port_reset_value, xhci_port_speed, xhci_regs_fit,
    xhci_slot_ctx_dword0, xhci_transfer_ok, EventAction, EventCursor, XhciAction, XhciCaps, XhciEnum,
    XhciPhase,
};

#[test]
fn bdf_key_packs_bus_device_function() {
    assert_eq!(pci_bdf_key(PciBdf { bus: 1, dev: 2, func: 3 }), 0x113);
    assert_eq!(pci_bdf_key(PciBdf { bus: 0, dev: 31, func: 7 }), 0xFF);
}

#[test]
fn config_address_word() {
    assert_eq!(pci_config_address(0, 3, 0, 0x10), 0x8000_1810);
    assert_eq!(pci_config_address(1, 0, 2, 0x0F), 0x8001_020C);
}

#[test]
fn claim_once_then_refuse_and_fill_up() {
    let mut c = PciClaims::new();
    let a = PciBdf { bus: 0, dev: 3, func: 0 };
    assert!(c.pci_claim_device(a));
    assert!(!c.pci_claim_device(a));
    assert!(c.pci_claim_device(PciBdf { bus: 0, dev: 4, func: 0 }));
    assert!(c.pci_claim_device(PciBdf { bus: 0, dev: 5, func: 0 }));
    assert!(c.pci_claim_device(PciBdf { bus: 0, dev: 6, func: 0 }));
    assert!(!c.pci_claim_device(PciBdf { bus: 0, dev: 7, func: 0 }));
    assert!(!c.pci_claim_device(a));
}

#[test]
fn bar_decoding() {
    assert_eq!(pci_bar0_iobase(0xC001), Some(0xC000));
    assert_eq!(pci_bar0_iobase(0xC000), None);
    assert_eq!(pci_bar0_iobase(0x0001), None);
    assert_eq!(pci_bar_mem_base(0xFEBC_0004, 0x1), 0x1_FEBC_0000);
    assert_eq!(pci_bar_mem_base(0xFEBC_0008, 0x1), 0xFEBC_0000);
}

#[test]
fn header_and_command_bits() {
    assert_eq!(pci_function_count(0x0080_0000), 8);
    assert_eq!(pci_function_count(0x0000_0000), 1);
    assert_eq!(pci_io_bus_master_cmd(0x0010_0002), 0x0010_0007);
}

#[test]
fn capability_walk_finds_msix() {
    let mut cfg = [0u32; 64];
    cfg[1] = 0x0010_0000;
    cfg[13] = 0x40;
    cfg[16] = 0x0000_5005;
    cfg[20] = 0x0003_0011;
    assert_eq!(pci_find_cap(&cfg, 0x11), Some(0x50));
    assert_eq!(pci_find_cap(&cfg, 0x05), Some(0x40));
    assert_eq!(pci_find_cap(&cfg, 0x09), None);
    cfg[1] = 0;
    assert_eq!(pci_find_cap(&cfg, 0x11), None);
    assert_eq!(msix_table_size(0x0003_0011), 4);
    assert_eq!(msix_enable_dword(0x0003_0011), 0x8003_0011);
}

#[test]
fn device_scan_from_a_start_slot() {
    let mut ids = [0xFFFF_FFFFu32; 32];
    ids[3] = 0x1001_1AF4;
    ids[9] = 0x1001_1AF4;
    assert_eq!(pci_find_device(&ids, 0, 0x1AF4, 0x1001), Some(3));
    assert_eq!(pci_find_device(&ids, 4, 0x1AF4, 0x1001), Some(9));
    assert_eq!(pci_find_device(&ids, 10, 0x1AF4, 0x1001), None);
}

#[test]
fn xhci_caps_and_window() {
    let c = xhci_decode_caps(0x0100_0040, 0x0400_0040, 0x2003, 0x103F);
    assert_eq!(c, XhciCaps { caplength: 0x40, max_slots: 0x40, max_ports: 4, dboff: 0x2000, rtsoff: 0x1020 });
    assert!(xhci_regs_fit(0xFEBF_0000, c));
    assert!(!xhci_regs_fit(0xFEBF_0800, c));
    let big = XhciCaps { dboff: 0x7F00, ..c };
    assert!(!xhci_regs_fit(0xFEBF_0000, big));
}

#[test]
fn xhci_trbs_and_events() {
    assert_eq!(xhci_cmd_trb_dword3(23, 0), (23 << 10) | 1);
    assert_eq!(xhci_cmd_trb_dword3(11, 2), (11 << 10) | (2 << 24) | 1);
    assert!(xhci_event_ok(0x0100_0000));
    assert!(!xhci_event_ok(0x0D00_0000));
    assert!(xhci_transfer_ok(0x0D00_0000));
    assert!(!xhci_transfer_ok(0x0400_0000));
    assert_eq!(xhci_event_slot(0x0300_8401), 3);
    assert_eq!(xhci_erdp_lo(0x1_2345_6010), 0x2345_6018);
}

#[test]
fn event_ring_consumer_steps_and_wraps() {
    let ring = 0x10_0000;
    let c = EventCursor { idx: 0, ccs: 1 };
    // cycle bit 0 while the consumer expects 1: nothing yet
    assert_eq!(xhci_event_step(c, ring, 33 << 10, 33), EventAction::Wait);
    let found = xhci_event_step(c, ring, (33 << 10) | 1, 33);
    assert_eq!(found, EventAction::Found { next: EventCursor { idx: 1, ccs: 1 }, erdp: ring + 16 });
    let skip = xhci_event_step(c, ring, (34 << 10) | 1, 33);
    assert_eq!(skip, EventAction::Skip { next: EventCursor { idx: 1, ccs: 1 }, erdp: ring + 16 });
    let last = EventCursor { idx: 15, ccs: 1 };
    assert_eq!(
        xhci_event_step(last, ring, (33 << 10) | 1, 33),
        EventAction::Found { next: EventCursor { idx: 0, ccs: 0 }, erdp: ring }
    );
    // a full lap from slot 0 flips the cycle state
    let mut cur = EventCursor { idx: 0, ccs: 1 };
    for _ in 0..16 {
        match xhci_event_step(cur, ring, (32 << 10) | cur.ccs, 33) {
            EventAction::Skip { next, .. } => cur = next,
            other => panic!("unexpected {:?}", other),
        }
    }
    assert_eq!(cur, EventCursor { idx: 0, ccs: 0 });
}

#[test]
fn xhci_ports_and_contexts() {
    assert_eq!(xhci_find_connected_port(&[0x2A0, 0x2A0, 0x6E1, 0x2A0], 4), 3);
    assert_eq!(xhci_find_connected_port(&[0x2A0, 0x2A0], 2), 0);
    assert_eq!(xhci_port_speed(0x0000_1203), 4);
    assert_eq!(xhci_port_reset_value(0x00FE_02A3), 0x0000_02B1);
    assert_eq!(xhci_ep0_max_packet(4), 512);
    assert_eq!(xhci_ep0_max_packet(3), 64);
    assert_eq!(xhci_ep0_max_packet(1), 8);
    assert_eq!(xhci_context_size(0x4), 64);
    assert_eq!(xhci_context_size(0x0), 32);
    assert_eq!(xhci_slot_ctx_dword0(4, 1), (4 << 20) | (1 << 27));
    assert_eq!(xhci_ep_ctx_dword1(4, 512), (3 << 1) | (4 << 3) | (512 << 16));
}

#[test]
fn xhci_descriptor_and_hid_report() {
    let mut d = [0u8; 18];
    d[0] = 18;
    d[1] = 1;
    d[8] = 0x27;
    d[9] = 0x06;
    d[10] = 0x01;
    d[11] = 0x00;
    assert_eq!(xhci_parse_device_descriptor(&d), Some((0x0627, 0x0001)));
    d[1] = 2;
    assert_eq!(xhci_parse_device_descriptor(&d), None);
    assert_eq!(xhci_hid_boot_report(&[0x02, 0, 0x04, 0, 0, 0, 0, 0]), (0x02, 0x04));
}

#[test]
fn e1000_identity_and_mac() {
    assert!(e1000_is_device(0x100E_8086));
    assert!(!e1000_is_device(0x100F_8086));
    assert_eq!(e1000_mac_from_eeprom(0x5452, 0x1200, 0x5634), [0x52, 0x54, 0x00, 0x12, 0x34, 0x56]);
    assert_eq!(e1000_mac_value(0x5452, 0x1200, 0x5634), 0x5634_1200_5452);
}

#[test]
fn arp_request_frame_layout() {
    let mac = [0x52, 0x54, 0x00, 0x12, 0x34, 0x56];
    let f = e1000_arp_request(mac);
    assert_eq!(f.len(), 60);
    assert_eq!(&f[0..6], &[0xFF; 6]);
    assert_eq!(&f[6..12], &mac);
    assert_eq!(&f[12..22], &[0x08, 0x06, 0x00, 0x01, 0x08, 0x00, 6, 4, 0x00, 0x01]);
    assert_eq!(&f[22..28], &mac);
    assert_eq!(&f[28..32], &[10, 0, 2, 15]);
    assert_eq!(&f[32..38], &[0; 6]);
    assert_eq!(&f[38..42], &[10, 0, 2, 2]);
    assert!(f[42..].iter().all(|&b| b == 0));
    // our own request is never taken for the reply
    assert!(!e1000_arp_reply_ok(&f));
}

#[test]
fn arp_reply_check() {
    let mut r = vec![0u8; 60];
    r[12] = 0x08;
    r[13] = 0x06;
    r[21] = 0x02;
    r[28..32].copy_from_slice(&[10, 0, 2, 2]);
    assert!(e1000_arp_reply_ok(&r));
    r[31] = 3;
    assert!(!e1000_arp_reply_ok(&r));
}

#[test]
fn tx_frames_and_padding() {
    let f = e1000_tx_test_frame([1, 2, 3, 4, 5, 6]);
    assert_eq!(f.len(), 60);
    assert_eq!(&f[12..14], &[0x88, 0xB5]);
    let p = e1000_pad_frame(&[9, 9, 9]);
    assert_eq!(p.len(), 60);
    assert_eq!(&p[0..3], &[9, 9, 9]);
    assert!(p[3..].iter().all(|&b| b == 0));
    assert_eq!(e1000_pad_frame(&[7u8; 100]).len(), 100);
}

#[test]
fn tx_and_rx_rings_rotate() {
    let mut r = E1000Rings::new();
    assert_eq!(r.e1000_tx_next(3000), None);
    assert_eq!(r.e1000_tx_next(42), Some(TxSlot { desc: 0, len: 60, tdt: 1 }));
    for _ in 0..6 {
        r.e1000_tx_next(100);
    }
    assert_eq!(r.e1000_tx_next(100), Some(TxSlot { desc: 7, len: 100, tdt: 0 }));
    assert_eq!(r.tx_idx, 0);
    assert_eq!(r.e1000_rx_take(0, 64, 2048), None);
    assert_eq!(r.e1000_rx_take(1, 64, 2048), Some(RxSlot { desc: 0, len: 64, rdt: 0 }));
    assert_eq!(r.e1000_rx_take(3, 1514, 1000), Some(RxSlot { desc: 1, len: 1000, rdt: 1 }));
    assert_eq!(r.rx_idx, 2);
}

#[test]
fn hda_caps_codecs_and_verbs() {
    assert_eq!(hda_decode_caps(0x0100_4401), (0x4401, 0x00, 0x01));
    assert_eq!(hda_first_codec(0b0100), Some(2));
    assert_eq!(hda_first_codec(0b0101), Some(0));
    assert_eq!(hda_first_codec(0), None);
    assert_eq!(hda_get_parameter(0, 0, 0x00), 0x000F_0000);
    assert_eq!(hda_get_parameter(2, 1, 0x04), 0x201F_0004);
    assert_eq!(hda_node_range(0x0001_0001), (1, 1));
    assert_eq!(hda_widget_scan_len(40), 16);
    assert_eq!(hda_widget_scan_len(5), 5);
    assert_eq!(hda_find_widget(&[0x0040_0000, 0x0000_0011, 0x0040_0000], 2, 0), 3);
    assert_eq!(hda_find_widget(&[0x0040_0000, 0x0000_0011], 2, 4), 2);
    assert_eq!(hda_find_widget(&[0x0010_0000], 2, 4), 0);
    assert_eq!(hda_output_stream_offset(0x4401), 0x80 + 4 * 0x20);
    assert!(hda_verb_answered(0x0105, 5));
    assert!(!hda_verb_answered(0x0104, 5));
    assert_eq!(hda_dac_setup_verbs(0, 2), vec![0x0027_0500, 0x0022_0011, 0x0027_0610, 0x0023_B000]);
}

#[test]
fn hda_pcm_buffer_and_bdl() {
    let b = hda_pcm_buffer();
    assert_eq!(b.len(), 4096);
    assert_eq!(&b[0..2], &[0x00, 0x20]);
    assert_eq!(&b[128..130], &[0x00, 0xE0]);
    assert_eq!(&b[256..258], &[0x00, 0x20]);
    let l = hda_bdl(0x8000);
    assert_eq!(l[0], BdlEntry { addr: 0x8000, len: 2048, ioc: true });
    assert_eq!(l[1], BdlEntry { addr: 0x8800, len: 2048, ioc: true });
    assert_eq!(hda_stream_tag_byte(1), 0x10);
    assert!(hda_pcm_progressed(0, 0x40));
    assert!(!hda_pcm_progressed(0x40, 0x40));
}

#[test]
fn pci_class_ecam_and_msix_table() {
    assert_eq!(pci_class_triplet(0x0C03_3001), (0x0C, 0x03, 0x30));
    assert!(pci_is_xhci(0x0C03_3001));
    assert!(!pci_is_xhci(0x0C03_2001));
    assert!(pci_is_hda(0x0403_0001));
    assert!(!pci_is_hda(0x0401_0001));
    assert_eq!(ecam_base(0xB000_0001), Some(0xB000_0000));
    assert_eq!(ecam_base(0xB000_0000), None);
    assert_eq!(ecam_function_address(0xB000_0000, 0, 0x1F, 0), 0xB00F_8000);
    assert_eq!(msix_table_location(0x0000_2003), (3, 0x2000, 0x1C));
    assert!(msix_entry_latched(0xFEE0_0000, 0x0001_0041, 1));
    assert!(!msix_entry_latched(0xFEE0_0000, 0x42, 1));
}

#[test]
fn e1000_eeprom_protocol_and_stats() {
    assert_eq!(e1000_eerd_command(2), 0x201);
    assert_eq!(e1000_eerd_data(0x5634_0012), Some(0x5634));
    assert_eq!(e1000_eerd_data(0x5634_0002), None);
    assert!(e1000_stats_ok(3, 4));
    assert!(!e1000_stats_ok(0, 4));
}

#[test]
fn virtio_queue_layout_and_requests() {
    assert_eq!(virtio_queue_layout(128), Some(VqLayout { avail: 2048, used: 4096 }));
    assert_eq!(virtio_queue_layout(256), Some(VqLayout { avail: 4096, used: 8192 }));
    assert_eq!(virtio_queue_layout(0), None);
    assert_eq!(virtio_queue_layout(512), None);
    assert_eq!(virtio_blk_request(true, 7), BlkReq { typ: 1, reserved: 0, sector: 7 });
    assert_eq!(virtio_blk_request(false, 7).typ, 0);
    let c = virtio_blk_chain(false, 0x1000, 0x2000, 0x1010, 512);
    assert_eq!(c[0], VringDesc { addr: 0x1000, len: 16, flags: 1, next: 1 });
    assert_eq!(c[1], VringDesc { addr: 0x2000, len: 512, flags: 3, next: 2 });
    assert_eq!(c[2], VringDesc { addr: 0x1010, len: 1, flags: 2, next: 0 });
    assert_eq!(virtio_blk_chain(true, 0x1000, 0x2000, 0x1010, 512)[1].flags, 1);
    assert_eq!(virtio_avail_push(130, 128), (4, 131));
    assert_eq!(virtio_avail_push(0xFFFF, 128), (2 + 127, 0));
    assert_eq!(virtio_used_advance(5, 5), None);
    assert_eq!(virtio_used_advance(6, 5), Some(6));
    assert!(virtio_blk_status_ok(0));
    assert!(!virtio_blk_status_ok(0xFF));
    assert_eq!(virtio_queue_pfn(0x0012_3000), 0x123);
    // 10 ms at 3 GHz
    assert_eq!(tsc_hz_from_ticks(1000, 1000 + 30_000_000), 30_000_000 * 1_193_182 / 11_932);
    assert_eq!(tsc_hz_from_ticks(1000, 1100), 0);
    assert_eq!(tsc_hz_from_ticks(5, 4), 0);
}

#[test]
fn e1000_descriptors_and_rx_buffers() {
    assert_eq!(e1000_tx_descriptor(0x9000, 60), TxDesc { addr: 0x9000, len: 60, cmd: 0x0B, status: 0 });
    assert!(e1000_desc_done(0x03));
    assert!(!e1000_desc_done(0x02));
    assert_eq!(e1000_rx_buffers(0x4000_0000, 2048, 3), vec![0x4000_0000, 0x4000_0800, 0x4000_1000]);
}

#[test]
fn hda_audio_buffer_fill_and_test_block() {
    let (buf, n) = hda_audio_fill(&[1, 2, 3]);
    assert_eq!(n, 3);
    assert_eq!(buf.len(), 4096);
    assert_eq!(&buf[0..4], &[1, 2, 3, 0]);
    let (big, m) = hda_audio_fill(&vec![7u8; 5000]);
    assert_eq!(m, 4096);
    assert!(big.iter().all(|&b| b == 7));
    let pcm = hda_audio_test_block();
    assert_eq!(pcm.len(), 512);
    assert_eq!(&pcm[0..2], &[0x00, 0x30]);
    assert_eq!(&pcm[64..66], &[0x00, 0xD0]);
    assert_eq!(&pcm[128..130], &[0x00, 0x30]);
}

#[test]
fn xhci_enumeration_walks_every_phase() {
    let ok: u32 = 0x0100_0000;
    let short: u32 = 0x0D00_0000;
    let mut st = XhciEnum::new();
    assert_eq!(st.phase, XhciPhase::NoOp);
    assert_eq!(st.xhci_enum_step(Some((ok, 0)), true, None), XhciAction::Command { ty: 9, slot: 0 });
    assert!(st.noop_ok);
    assert_eq!(st.phase, XhciPhase::EnableSlot);
    assert_eq!(st.xhci_enum_step(Some((ok, 0x0300_0000)), true, None), XhciAction::Command { ty: 11, slot: 3 });
    assert_eq!(st.slot, 3);
    assert_eq!(st.xhci_enum_step(Some((ok, 0)), true, None), XhciAction::Control { slot: 3, phase: XhciPhase::GetDescriptor });
    assert_eq!(
        st.xhci_enum_step(Some((short, 0)), true, Some((0x8086, 0x1234))),
        XhciAction::Control { slot: 3, phase: XhciPhase::SetConfiguration }
    );
    assert!(st.enum_ok);
    assert_eq!((st.vid, st.pid), (0x8086, 0x1234));
    assert_eq!(st.xhci_enum_step(Some((ok, 0)), true, None), XhciAction::Command { ty: 12, slot: 3 });
    assert_eq!(st.xhci_enum_step(Some((ok, 0)), true, None), XhciAction::Control { slot: 3, phase: XhciPhase::SetProtocol });
    assert_eq!(st.xhci_enum_step(Some((ok, 0)), true, None), XhciAction::PollHid { slot: 3 });
    assert!(st.hid_ok);
    assert_eq!(st.phase, XhciPhase::Done);
    assert_eq!(st.xhci_enum_step(Some((ok, 0)), true, None), XhciAction::Stop);
}

#[test]
fn xhci_enumeration_stops_on_failures() {
    let ok: u32 = 0x0100_0000;
    let mut st = XhciEnum::new();
    assert_eq!(st.xhci_enum_step(None, false, None), XhciAction::Stop);
    assert!(!st.noop_ok);
    assert_eq!(st.phase, XhciPhase::Done);

    let mut st = XhciEnum::new();
    st.xhci_enum_step(Some((ok, 0)), true, None);
    assert_eq!(st.xhci_enum_step(Some((ok, 0)), true, None), XhciAction::Stop);
    assert_eq!(st.slot, 0);

    let mut st = XhciEnum::new();
    st.xhci_enum_step(Some((ok, 0)), true, None);
    st.xhci_enum_step(Some((ok, 0x0100_0000)), true, None);
    st.xhci_enum_step(Some((ok, 0)), true, None);
    assert_eq!(st.xhci_enum_step(Some((ok, 0)), true, None), XhciAction::Stop);
    assert!(!st.enum_ok);

    let mut st = XhciEnum::new();
    st.xhci_enum_step(Some((ok, 0)), true, None);
    st.xhci_enum_step(Some((ok, 0x0200_0000)), true, None);
    st.xhci_enum_step(Some((ok, 0)), true, None);
    st.xhci_enum_step(Some((ok, 0)), true, Some((1, 2)));
    st.xhci_enum_step(Some((0x0400_0000, 0)), true, None);
    assert!(!st.setcfg_ok);
    st.xhci_enum_step(Some((ok, 0)), true, None);
    assert_eq!(st.xhci_enum_step(Some((ok, 0)), true, None), XhciAction::Stop);
    assert!(!st.hid_ok);
}

fn snapshot_slot(dev: usize, func: usize) -> usize {
    (dev * 8 + func) * 4
}

#[test]
fn pci_scan_reports_probes_and_attaches() {
    let mut cfg = vec![0xFFFF_FFFFu32; 1024];
    let s = snapshot_slot(0, 0);
    cfg[s] = 0x1237_8086;
    cfg[s + 2] = 0x0600_0000;
    cfg[s + 3] = 0;
    let s = snapshot_slot(3, 0);
    cfg[s] = 0x100E_8086;
    cfg[s + 2] = 0x0200_0000;
    cfg[s + 3] = 0x0080_0000;
    let s = snapshot_slot(3, 1);
    cfg[s] = 0x1001_1AF4;
    cfg[s + 2] = 0x0100_0000;
    let mut out = Vec::new();
    let n = pci_enumerate_log(&mut out, &cfg);
    assert_eq!(n, 3);
    let want = "PCI: enumerate bus0\n\
PROBE: dev=0x0000000000000000 func=0x0000000000000000 vendor=0x0000000000008086 device=0x0000000000001237 class=0x0000000000000600\n\
PROBE: dev=0x0000000000000003 func=0x0000000000000000 vendor=0x0000000000008086 device=0x000000000000100E class=0x0000000000000200\n\
ATTACH: e1000\n\
PROBE: dev=0x0000000000000003 func=0x0000000000000001 vendor=0x0000000000001AF4 device=0x0000000000001001 class=0x0000000000000100\n\
ATTACH: virtio-blk-pci\n\
PCI: devices=0x0000000000000003\n";
    assert_eq!(String::from_utf8(out).unwrap(), want);
}

#[test]
fn pci_scan_of_empty_bus_and_driver_names() {
    let cfg = vec![0xFFFF_FFFFu32; 1024];
    let mut out = Vec::new();
    assert_eq!(pci_enumerate_log(&mut out, &cfg), 0);
    assert_eq!(out, b"PCI: enumerate bus0\nPCI: devices=0x0000000000000000\n".to_vec());
    assert_eq!(pci_driver_name(0x1AF4, 0x1000), b"virtio-net-pci".to_vec());
    assert_eq!(pci_driver_name(0x1B36, 0x0010), b"nvme".to_vec());
    assert_eq!(pci_driver_name(0x8086, 0x5845), b"nvme".to_vec());
    assert_eq!(pci_driver_name(0x8086, 0x1237), Vec::<u8>::new());
    let mut line = Vec::new();
    assert!(!pci_probe_line(&mut line, 1, 0, 0xFFFF_FFFF, 0));
    assert!(line.is_empty());
}

#[test]
fn pci_scan_finds_controllers_in_scan_order() {
    let mut cfg = vec![0xFFFF_FFFFu32; 1024];
    // dev 2: single-function host bridge; its function 5 slot holds an xHCI
    // that the scan must not see.
    let s = snapshot_slot(2, 0);
    cfg[s] = 0x1237_8086;
    cfg[s + 2] = 0x0600_0000;
    cfg[s + 3] = 0;
    let s = snapshot_slot(2, 5);
    cfg[s] = 0x1234_1B36;
    cfg[s + 2] = 0x0C03_3000;
    // dev 4: multi-function, HDA at function 2, e1000 at function 3
    let s = snapshot_slot(4, 0);
    cfg[s] = 0x2922_8086;
    cfg[s + 2] = 0x0106_0100;
    cfg[s + 3] = 0x0080_0000;
    let s = snapshot_slot(4, 2);
    cfg[s] = 0x293E_8086;
    cfg[s + 2] = 0x0403_0001;
    let s = snapshot_slot(4, 3);
    cfg[s] = 0x100E_8086;
    cfg[s + 2] = 0x0200_0000;
    // dev 6: xHCI at function 0
    let s = snapshot_slot(6, 0);
    cfg[s] = 0x000D_1B36;
    cfg[s + 2] = 0x0C03_3001;
    cfg[s + 3] = 0;
    assert_eq!(pci_scan_find(&cfg, ScanTarget::Hda), Some(PciBdf { bus: 0, dev: 4, func: 2 }));
    assert_eq!(pci_scan_find(&cfg, ScanTarget::E1000), Some(PciBdf { bus: 0, dev: 4, func: 3 }));
    assert_eq!(pci_scan_find(&cfg, ScanTarget::Xhci), Some(PciBdf { bus: 0, dev: 6, func: 0 }));
    let empty = vec![0xFFFF_FFFFu32; 1024];
    assert_eq!(pci_scan_find(&empty, ScanTarget::E1000), None);
}

#[test]
fn virtio_lookup_finds_decodes_and_claims_once() {
    let mut ids = vec![0xFFFF_FFFFu32; 32];
    let mut bars = vec![0u32; 32];
    ids[3] = 0x1000_1AF4; // virtio-net
    bars[3] = 0xC041;
    ids[5] = 0x1001_1AF4; // virtio-blk
    bars[5] = 0xC081;
    ids[7] = 0x1001_1AF4; // a second disk with a memory BAR0
    bars[7] = 0xFEB0_0000;
    let mut claims = PciClaims::new();
    assert_eq!(pci_find_virtio_blk(&mut claims, &ids, &bars), Some((PciBdf { bus: 0, dev: 5, func: 0 }, 0xC080)));
    // claimed already: a second bind is refused
    assert_eq!(pci_find_virtio_blk(&mut claims, &ids, &bars), None);
    assert_eq!(
        pci_find_virtio_legacy_iobase(&mut claims, &ids, &bars, 0x1000),
        Some((PciBdf { bus: 0, dev: 3, func: 0 }, 0xC040))
    );
    let mut fresh = PciClaims::new();
    let mut only_mem = vec![0xFFFF_FFFFu32; 32];
    only_mem[7] = 0x1001_1AF4;
    assert_eq!(pci_find_virtio_blk(&mut fresh, &only_mem, &bars), None);
    assert_eq!(pci_find_virtio_legacy_iobase(&mut fresh, &only_mem, &bars, 0x1052), None);
    // nothing was claimed on the failed lookups
    assert!(fresh.pci_claim_device(PciBdf { bus: 0, dev: 7, func: 0 }));
}
