use kernel_rs::block::{blk_read_page, blk_write_page, block_driver_class, block_driver_probe, BlockDriver};
use kernel_rs::gpt::{
    gpt_crc_selftest, gpt_header_crc, gpt_header_crc_valid, gpt_parse, gpt_parse_selftest, gpt_stamp_header_crc,
    gpt_synthetic_header, GptParse,
};
use kernel_rs::install::{
    install_fill, install_image, install_mbr_bytes, install_payload_and_verify, install_target_provisionable,
    install_write_and_verify, payload_sector_bytes, InstallOutcome,
};

fn sector(disk: &[u8], lba: usize) -> &[u8] {
    &disk[lba * 512..lba * 512 + 512]
}

#[test]
fn fill_byte_pattern() {
    assert_eq!(install_fill(0, 0), 0x5A);
    assert_eq!(install_fill(1, 16), (31u8).wrapping_add(16).wrapping_add(0x5A));
    assert_eq!(install_fill(9, 300), (9u8).wrapping_mul(31).wrapping_add(44).wrapping_add(0x5A));
    assert_eq!(install_fill(256 + 2, 0), install_fill(2, 0));
}

#[test]
fn boot_record_layout() {
    let m = install_mbr_bytes();
    assert_eq!(m.len(), 512);
    assert_eq!(&m[0..8], b"RUGOINST");
    assert_eq!(m[8], 1);
    assert_eq!(m[446], 0x80);
    assert_eq!(m[450], 0x83);
    assert_eq!(&m[454..458], &64u32.to_le_bytes());
    assert_eq!(&m[458..462], &8u32.to_le_bytes());
    assert_eq!(&m[510..512], &[0x55, 0xAA]);
}

#[test]
fn payload_sectors() {
    let s0 = payload_sector_bytes(0);
    assert_eq!(&s0[0..8], b"RUGOPART");
    assert_eq!(s0[8], 1);
    assert_eq!(&s0[510..512], &[0x55, 0xAA]);
    assert_eq!(s0[16], install_fill(0, 16));
    let s3 = payload_sector_bytes(3);
    assert!(s3[0..16].iter().all(|&b| b == 0));
    assert_eq!(s3[503], install_fill(3, 503));
    assert_eq!(s3[504], 0);
}

#[test]
fn provisionable_only_blank_or_ours() {
    let blank = vec![0u8; 4096];
    assert!(install_target_provisionable(&blank));
    let mut ours = blank.clone();
    ours[0..8].copy_from_slice(b"RUGOINST");
    ours[100] = 7;
    assert!(install_target_provisionable(&ours));
    let mut foreign = blank.clone();
    foreign[300] = 1;
    assert!(!install_target_provisionable(&foreign));
    assert!(!install_target_provisionable(&[0u8; 100]));
}

#[test]
fn install_writes_record_and_payload() {
    let mut disk = vec![0u8; 80 * 512];
    assert_eq!(install_image(&mut disk), InstallOutcome::Installed);
    assert_eq!(sector(&disk, 0), &install_mbr_bytes()[..]);
    for s in 0..8 {
        assert_eq!(sector(&disk, 64 + s), &payload_sector_bytes(s as u64)[..]);
    }
    assert!(sector(&disk, 72).iter().all(|&b| b == 0));
    // a re-install over our own image is allowed
    assert_eq!(install_image(&mut disk), InstallOutcome::Installed);
}

#[test]
fn install_refuses_foreign_disk() {
    let mut disk = vec![0u8; 80 * 512];
    disk[5] = 0xEE;
    let before = disk.clone();
    assert_eq!(install_image(&mut disk), InstallOutcome::NotProvisionable);
    assert_eq!(disk, before);
}

#[test]
fn install_on_short_disk_fails_payload() {
    let mut disk = vec![0u8; 66 * 512];
    assert_eq!(install_image(&mut disk), InstallOutcome::PayloadFail);
    assert_eq!(sector(&disk, 0), &install_mbr_bytes()[..]);
    assert_eq!(sector(&disk, 64), &payload_sector_bytes(0)[..]);
    assert_eq!(sector(&disk, 65), &payload_sector_bytes(1)[..]);
    let mut tiny = vec![0u8; 10];
    assert!(!install_write_and_verify(&mut tiny));
    assert!(!install_payload_and_verify(&mut tiny));
    assert_eq!(tiny, vec![0u8; 10]);
}

fn gpt_disk(entry_size: u32, num: u32) -> Vec<u8> {
    let mut d = vec![0u8; 8 * 512];
    d[512..520].copy_from_slice(b"EFI PART");
    d[512 + 72..512 + 80].copy_from_slice(&2u64.to_le_bytes());
    d[512 + 80..512 + 84].copy_from_slice(&num.to_le_bytes());
    d[512 + 84..512 + 88].copy_from_slice(&entry_size.to_le_bytes());
    d
}

fn put_entry(d: &mut [u8], pos: usize, first: u64, last: u64) {
    d[pos] = 0xAF;
    d[pos + 32..pos + 40].copy_from_slice(&first.to_le_bytes());
    d[pos + 40..pos + 48].copy_from_slice(&last.to_le_bytes());
}

#[test]
fn gpt_walks_used_entries() {
    let mut d = gpt_disk(128, 6);
    put_entry(&mut d, 1024, 0x800, 0xFFFF);
    put_entry(&mut d, 1024 + 256, 0x1_0000, 0x1_FFFF);
    // entry 4 is in the next sector
    put_entry(&mut d, 1536, 0x2_0000, 0x2_0FFF);
    match gpt_parse(&d) {
        GptParse::Parsed(v) => assert_eq!(v, vec![(0x800, 0xFFFF), (0x1_0000, 0x1_FFFF), (0x2_0000, 0x2_0FFF)]),
        _ => panic!("expected a parse"),
    }
}

#[test]
fn gpt_stops_at_unreadable_sector_and_caps_entries() {
    let mut d = gpt_disk(512, 40);
    put_entry(&mut d, 1024, 1, 2);
    d.truncate(3 * 512);
    match gpt_parse(&d) {
        GptParse::Parsed(v) => assert_eq!(v, vec![(1, 2)]),
        _ => panic!("expected a parse"),
    }
}

#[test]
fn gpt_rejects_bad_or_missing_header() {
    match gpt_parse(&gpt_disk(64, 4)) {
        GptParse::BadHeader => {},
        _ => panic!("expected a bad header"),
    }
    let mut d = gpt_disk(128, 4);
    d[512] = b'X';
    match gpt_parse(&d) {
        GptParse::NoGpt => {},
        _ => panic!("expected no GPT"),
    }
    match gpt_parse(&[0u8; 600]) {
        GptParse::NoGpt => {},
        _ => panic!("expected no GPT"),
    }
}

#[test]
fn gpt_header_crc_stamp_and_validate() {
    let mut h = gpt_synthetic_header();
    assert_eq!(&h[0..8], b"EFI PART");
    assert_eq!(&h[8..16], &[0, 0, 1, 0, 92, 0, 0, 0]);
    gpt_stamp_header_crc(&mut h);
    assert!(gpt_header_crc_valid(&h));
    assert_eq!(u32::from_le_bytes([h[16], h[17], h[18], h[19]]), gpt_header_crc(&h));
    h[24] ^= 0xFF;
    assert!(!gpt_header_crc_valid(&h));
    assert!(gpt_crc_selftest());
}

#[test]
fn block_driver_choice() {
    assert_eq!(block_driver_probe(true, false, true, true), (BlockDriver::Nvme, true));
    assert_eq!(block_driver_probe(true, false, false, true), (BlockDriver::VirtioLegacy, true));
    assert_eq!(block_driver_probe(false, true, false, true), (BlockDriver::Absent, false));
    assert_eq!(block_driver_probe(false, false, true, true), (BlockDriver::VirtioLegacy, true));
    assert_eq!(block_driver_probe(false, false, true, false), (BlockDriver::Absent, false));
    assert_eq!(block_driver_class(BlockDriver::VirtioLegacy), b"virtio-blk-pci".to_vec());
    assert_eq!(block_driver_class(BlockDriver::Nvme), b"nvme".to_vec());
    assert_eq!(block_driver_class(BlockDriver::Absent), b"none".to_vec());
}

#[test]
fn page_write_then_read_back() {
    let mut disk = vec![0u8; 20 * 512];
    let page: Vec<u8> = (0..4096u32).map(|i| (i % 251) as u8).collect();
    assert!(blk_write_page(&mut disk, 4, &page));
    assert_eq!(blk_read_page(&disk, 4).unwrap(), page);
    assert!(disk[..4 * 512].iter().all(|&b| b == 0));
    assert!(disk[12 * 512..].iter().all(|&b| b == 0));
}

#[test]
fn page_io_past_the_end() {
    let mut disk = vec![0u8; 10 * 512];
    let page = vec![0xAB; 4096];
    assert!(!blk_write_page(&mut disk, 5, &page));
    // the five sectors that exist were written
    assert!(disk[5 * 512..].iter().all(|&b| b == 0xAB));
    assert!(blk_read_page(&disk, 5).is_none());
    assert!(blk_read_page(&disk, 2).is_some());
}

#[test]
fn gpt_selftest_reports_each_partition() {
    let mut d = gpt_disk(128, 6);
    put_entry(&mut d, 1024, 0x800, 0xFFFF);
    put_entry(&mut d, 1024 + 128, 0x1_0000, 0x1_FFFF);
    let mut out = Vec::new();
    match gpt_parse_selftest(&mut out, &d) {
        GptParse::Parsed(v) => assert_eq!(v.len(), 2),
        _ => panic!("expected a parse"),
    }
    let want = "GPT: part first=0x0000000000000800 last=0x000000000000FFFF\n\
GPT: part first=0x0000000000010000 last=0x000000000001FFFF\n\
GPT: parsed n=0x0000000000000002\n";
    assert_eq!(String::from_utf8(out).unwrap(), want);

    let mut out = Vec::new();
    gpt_parse_selftest(&mut out, &[0u8; 600]);
    assert_eq!(out, b"GPT: none\n".to_vec());
    let mut out = Vec::new();
    gpt_parse_selftest(&mut out, &gpt_disk(600, 4));
    assert_eq!(out, b"GPT: bad header\n".to_vec());
}
