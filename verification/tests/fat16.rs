use kernel_rs::fat16::{fat16_list, fat16_read_bpb, fat16_read_chain, fat16_read_named, fat16_write_named, VOL_LBA};

const FAT_LBA: usize = VOL_LBA as usize + 1;
const ROOT_LBA: usize = FAT_LBA + 2;
const DATA_LBA: usize = ROOT_LBA + 1;

/// A small FAT16 volume: 512-byte sectors, 1 sector per cluster, 1 reserved
/// sector, 2 FATs of 1 sector, 16 root entries, 8 data clusters.
fn blank_volume() -> Vec<u8> {
    let mut d = vec![0u8; (DATA_LBA + 8) * 512];
    let b = VOL_LBA as usize * 512;
    d[b + 11] = 0x00;
    d[b + 12] = 0x02; // 512 bytes per sector
    d[b + 13] = 1; // sectors per cluster
    d[b + 14] = 1; // reserved sectors
    d[b + 16] = 2; // FATs
    d[b + 17] = 16; // root entries
    d[b + 22] = 1; // sectors per FAT
    // clusters 0 and 1 are reserved
    for f in 0..2 {
        let fb = (FAT_LBA + f) * 512;
        d[fb] = 0xF8;
        d[fb + 1] = 0xFF;
        d[fb + 2] = 0xFF;
        d[fb + 3] = 0xFF;
    }
    d
}

fn put_entry(d: &mut [u8], idx: usize, name: &[u8; 11], cluster: u16, size: u32) {
    let p = ROOT_LBA * 512 + idx * 32;
    d[p..p + 11].copy_from_slice(name);
    d[p + 11] = 0x20;
    d[p + 26..p + 28].copy_from_slice(&cluster.to_le_bytes());
    d[p + 28..p + 32].copy_from_slice(&size.to_le_bytes());
}

#[test]
fn bpb_geometry_is_read() {
    let d = blank_volume();
    let g = fat16_read_bpb(&d).unwrap();
    assert_eq!((g.bps, g.spc, g.reserved, g.nfats, g.root_entries, g.spf), (512, 1, 1, 2, 16, 1));
}

#[test]
fn write_then_read_round_trips() {
    let mut d = blank_volume();
    assert!(fat16_write_named(&mut d, b"HELLO   TXT", b"hello, fat"));
    assert_eq!(fat16_read_named(&d, b"HELLO   TXT", 512).unwrap(), b"hello, fat".to_vec());
    assert_eq!(fat16_read_chain(&d, b"HELLO   TXT", 512).unwrap(), b"hello, fat".to_vec());
    // cluster 2 went to the file and is end-of-chain in both FATs
    assert_eq!(&d[FAT_LBA * 512 + 4..FAT_LBA * 512 + 6], &[0xFF, 0xFF]);
    assert_eq!(&d[(FAT_LBA + 1) * 512 + 4..(FAT_LBA + 1) * 512 + 6], &[0xFF, 0xFF]);
    assert_eq!(&d[DATA_LBA * 512..DATA_LBA * 512 + 10], b"hello, fat");
}

#[test]
fn duplicate_name_is_refused_without_writing() {
    let mut d = blank_volume();
    assert!(fat16_write_named(&mut d, b"A       TXT", b"one"));
    let before = d.clone();
    assert!(!fat16_write_named(&mut d, b"A       TXT", b"two"));
    assert_eq!(d, before);
}

#[test]
fn oversized_or_empty_data_is_refused() {
    let mut d = blank_volume();
    let before = d.clone();
    assert!(!fat16_write_named(&mut d, b"B       TXT", b""));
    assert!(!fat16_write_named(&mut d, b"B       TXT", &[7u8; 513]));
    assert_eq!(d, before);
}

#[test]
fn read_is_capped_by_out_len_and_one_sector() {
    let mut d = blank_volume();
    put_entry(&mut d, 0, b"BIG     BIN", 2, 700);
    for i in 0..512 {
        d[DATA_LBA * 512 + i] = (i % 251) as u8;
    }
    assert_eq!(fat16_read_named(&d, b"BIG     BIN", 10).unwrap().len(), 10);
    assert_eq!(fat16_read_named(&d, b"BIG     BIN", 4096).unwrap().len(), 512);
}

#[test]
fn chain_read_follows_clusters() {
    let mut d = blank_volume();
    put_entry(&mut d, 0, b"CHAIN   BIN", 2, 700);
    // cluster 2 -> 3 -> end of chain
    d[FAT_LBA * 512 + 4] = 3;
    d[FAT_LBA * 512 + 5] = 0;
    d[FAT_LBA * 512 + 6] = 0xFF;
    d[FAT_LBA * 512 + 7] = 0xFF;
    for i in 0..512 {
        d[DATA_LBA * 512 + i] = 1;
        d[(DATA_LBA + 1) * 512 + i] = 2;
    }
    let v = fat16_read_chain(&d, b"CHAIN   BIN", 4096).unwrap();
    assert_eq!(v.len(), 700);
    assert!(v[..512].iter().all(|&b| b == 1));
    assert!(v[512..].iter().all(|&b| b == 2));
    // the single-cluster reader only sees the first sector
    assert_eq!(fat16_read_named(&d, b"CHAIN   BIN", 4096).unwrap().len(), 512);
}

#[test]
fn looping_chain_is_refused() {
    let mut d = blank_volume();
    put_entry(&mut d, 0, b"LOOP    BIN", 2, 100_000);
    d[FAT_LBA * 512 + 4] = 2; // cluster 2 -> 2
    d[FAT_LBA * 512 + 5] = 0;
    d[DATA_LBA * 512] = 0xAB;
    assert!(fat16_read_chain(&d, b"LOOP    BIN", 2048).is_none());
    // a read that needs only the first cluster never meets the loop
    assert_eq!(fat16_read_chain(&d, b"LOOP    BIN", 512).unwrap()[0], 0xAB);
    // 2 -> 3 -> 2
    put_entry(&mut d, 1, b"LOOP2   BIN", 2, 4000);
    d[FAT_LBA * 512 + 4] = 3;
    d[FAT_LBA * 512 + 6] = 2;
    d[FAT_LBA * 512 + 7] = 0;
    assert!(fat16_read_chain(&d, b"LOOP2   BIN", 4096).is_none());
}

#[test]
fn reserved_fat_value_ends_the_chain() {
    let mut d = blank_volume();
    put_entry(&mut d, 0, b"BAD     BIN", 2, 2000);
    d[FAT_LBA * 512 + 4] = 0xF7; // bad-cluster marker
    d[FAT_LBA * 512 + 5] = 0xFF;
    assert_eq!(fat16_read_chain(&d, b"BAD     BIN", 4096).unwrap().len(), 512);
}

#[test]
fn absent_file_and_bad_volume() {
    let d = blank_volume();
    assert!(fat16_read_named(&d, b"NOPE    TXT", 512).is_none());
    let mut bad = blank_volume();
    bad[VOL_LBA as usize * 512 + 12] = 0x04; // 1024-byte sectors
    assert!(fat16_read_named(&bad, b"NOPE    TXT", 512).is_none());
    let tiny = vec![0u8; 512];
    assert!(fat16_read_bpb(&tiny).is_none());
    let mut out = Vec::new();
    assert_eq!(fat16_list(&tiny, &mut out), u64::MAX);
    assert!(out.is_empty());
}

#[test]
fn listing_skips_deleted_and_long_name_entries() {
    let mut d = blank_volume();
    put_entry(&mut d, 0, b"KEEP    TXT", 2, 0x12);
    put_entry(&mut d, 1, b"GONE    TXT", 3, 5);
    d[ROOT_LBA * 512 + 32] = 0xE5;
    put_entry(&mut d, 2, b"LONGNAME   ", 0, 0);
    d[ROOT_LBA * 512 + 64 + 11] = 0x0F;
    let mut out = Vec::new();
    assert_eq!(fat16_list(&d, &mut out), 1);
    assert_eq!(out, b"FATLS: KEEP    TXT size=0x0000000000000012\n".to_vec());
}

#[test]
fn deleted_slot_is_reused() {
    let mut d = blank_volume();
    put_entry(&mut d, 0, b"OLD     TXT", 0, 0);
    d[ROOT_LBA * 512] = 0xE5;
    put_entry(&mut d, 1, b"LIVE    TXT", 0, 0);
    assert!(fat16_write_named(&mut d, b"NEW     TXT", b"x"));
    assert_eq!(&d[ROOT_LBA * 512..ROOT_LBA * 512 + 11], b"NEW     TXT");
}
