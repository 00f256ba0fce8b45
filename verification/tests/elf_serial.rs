use kernel_rs::elf::{elf_v1_build_auxv, elf_v1_is_pow2, elf_v1_read_u16, elf_v1_read_u32, elf_v1_read_u64, elf_v1_validate_image};
use kernel_rs::serial::{ascii_upper, serial_write, serial_write_hex, serial_write_u64_dec};

/// A minimal valid ELF64 executable: header + one PT_LOAD program header.
fn tiny_elf() -> Vec<u8> {
    let mut img = vec![0u8; 64 + 56 + 16];
    img[0..4].copy_from_slice(&[0x7F, b'E', b'L', b'F']);
    img[4] = 2;
    img[5] = 1;
    img[6] = 1;
    img[16..18].copy_from_slice(&2u16.to_le_bytes()); // ET_EXEC
    img[24..32].copy_from_slice(&0x40_0000u64.to_le_bytes()); // entry
    img[32..40].copy_from_slice(&64u64.to_le_bytes()); // phoff
    img[54..56].copy_from_slice(&56u16.to_le_bytes()); // phentsize
    img[56..58].copy_from_slice(&1u16.to_le_bytes()); // phnum
    let ph = 64;
    img[ph..ph + 4].copy_from_slice(&1u32.to_le_bytes()); // PT_LOAD
    img[ph + 8..ph + 16].copy_from_slice(&0u64.to_le_bytes()); // offset
    img[ph + 16..ph + 24].copy_from_slice(&0x40_0000u64.to_le_bytes()); // vaddr
    let n = img.len() as u64;
    img[ph + 32..ph + 40].copy_from_slice(&n.to_le_bytes()); // filesz
    img[ph + 40..ph + 48].copy_from_slice(&0x2000u64.to_le_bytes()); // memsz
    img[ph + 48..ph + 56].copy_from_slice(&0x1000u64.to_le_bytes()); // align
    img
}

#[test]
fn reads_are_little_endian_and_bounded() {
    let b = [1u8, 2, 3, 4, 5, 6, 7, 8, 9];
    assert_eq!(elf_v1_read_u16(&b, 0), Some(0x0201));
    assert_eq!(elf_v1_read_u32(&b, 1), Some(0x0504_0302));
    assert_eq!(elf_v1_read_u64(&b, 1), Some(0x0908_0706_0504_0302));
    assert_eq!(elf_v1_read_u64(&b, 2), None);
    assert_eq!(elf_v1_read_u16(&b, 8), None);
    assert_eq!(elf_v1_read_u16(&b, usize::MAX), None);
}

#[test]
fn pow2_detection() {
    assert!(elf_v1_is_pow2(1));
    assert!(elf_v1_is_pow2(4096));
    assert!(elf_v1_is_pow2(1 << 63));
    assert!(!elf_v1_is_pow2(0));
    assert!(!elf_v1_is_pow2(6));
    assert!(!elf_v1_is_pow2(u64::MAX));
}

#[test]
fn valid_image_is_accepted() {
    assert!(elf_v1_validate_image(&tiny_elf()));
}

#[test]
fn corrupt_images_are_rejected() {
    let good = tiny_elf();
    let mut bad = good.clone();
    bad[1] = b'X';
    assert!(!elf_v1_validate_image(&bad));
    let mut bad = good.clone();
    bad[24..32].copy_from_slice(&0u64.to_le_bytes()); // entry 0
    assert!(!elf_v1_validate_image(&bad));
    let mut bad = good.clone();
    bad[64 + 48..64 + 56].copy_from_slice(&3u64.to_le_bytes()); // align 3
    assert!(!elf_v1_validate_image(&bad));
    let mut bad = good.clone();
    bad[64 + 40..64 + 48].copy_from_slice(&1u64.to_le_bytes()); // memsz < filesz
    assert!(!elf_v1_validate_image(&bad));
    let mut bad = good.clone();
    bad[64..68].copy_from_slice(&2u32.to_le_bytes()); // no PT_LOAD left
    assert!(!elf_v1_validate_image(&bad));
    let mut bad = good.clone();
    bad[64 + 16..64 + 24].copy_from_slice(&0x0000_7FFF_FFFF_F000u64.to_le_bytes()); // crosses user limit
    assert!(!elf_v1_validate_image(&bad));
    assert!(!elf_v1_validate_image(&good[..63]));
    let mut bad = good.clone();
    bad[56..58].copy_from_slice(&33u16.to_le_bytes()); // too many headers
    assert!(!elf_v1_validate_image(&bad));
}

#[test]
fn auxv_layout() {
    let a = elf_v1_build_auxv(0x40_1000, 0x40_0040, 56, 3);
    assert_eq!(a, [(3, 0x40_0040), (4, 56), (5, 3), (6, 4096), (9, 0x40_1000), (0, 0)]);
}

#[test]
fn hex_and_decimal_formatting() {
    let mut out = Vec::new();
    serial_write(&mut out, b"v=");
    serial_write_hex(&mut out, 0xDEAD_BEEF);
    assert_eq!(out, b"v=00000000DEADBEEF".to_vec());
    let mut out = Vec::new();
    serial_write_u64_dec(&mut out, 0);
    serial_write(&mut out, b",");
    serial_write_u64_dec(&mut out, 1234567890);
    serial_write(&mut out, b",");
    serial_write_u64_dec(&mut out, u64::MAX);
    assert_eq!(out, b"0,1234567890,18446744073709551615".to_vec());
}

#[test]
fn ascii_upper_only_touches_lowercase() {
    assert_eq!(ascii_upper(b'a'), b'A');
    assert_eq!(ascii_upper(b'z'), b'Z');
    assert_eq!(ascii_upper(b'A'), b'A');
    assert_eq!(ascii_upper(b'{'), b'{');
    assert_eq!(ascii_upper(0xE9), 0xE9);
}

#[test]
fn appending_bytes_keeps_an_image_valid() {
    let mut img = tiny_elf();
    assert!(elf_v1_validate_image(&img));
    img.extend_from_slice(&[0xAA; 100]);
    assert!(elf_v1_validate_image(&img));
}

#[test]
fn non_load_header_fields_are_ignored() {
    // two program headers: a PT_NOTE with garbage fields, then the PT_LOAD
    let base = tiny_elf();
    let mut img = vec![0u8; 64 + 2 * 56 + 16];
    img[..64].copy_from_slice(&base[..64]);
    img[56..58].copy_from_slice(&2u16.to_le_bytes());
    img[64..68].copy_from_slice(&4u32.to_le_bytes()); // PT_NOTE
    img[120..176].copy_from_slice(&base[64..120]);
    let n = img.len() as u64;
    img[120 + 32..120 + 40].copy_from_slice(&n.to_le_bytes());
    assert!(elf_v1_validate_image(&img));
    for b in &mut img[68..120] {
        *b = 0xFF;
    }
    assert!(elf_v1_validate_image(&img));
}
