use kernel_rs::crc32::crc32;
use kernel_rs::sha256::{sha256_digest, sha256_rotr};

#[test]
fn crc32_check_value() {
    assert_eq!(crc32(b"123456789"), 0xCBF4_3926);
}

#[test]
fn crc32_empty() {
    assert_eq!(crc32(b""), 0);
}

#[test]
fn sha256_abc() {
    let d = sha256_digest(b"abc");
    let want: [u8; 32] = [
        0xba, 0x78, 0x16, 0xbf, 0x8f, 0x01, 0xcf, 0xea, 0x41, 0x41, 0x40, 0xde, 0x5d, 0xae, 0x22, 0x23,
        0xb0, 0x03, 0x61, 0xa3, 0x96, 0x17, 0x7a, 0x9c, 0xb4, 0x10, 0xff, 0x61, 0xf2, 0x00, 0x15, 0xad,
    ];
    assert_eq!(d, want);
}

#[test]
fn sha256_empty() {
    let d = sha256_digest(b"");
    let want: [u8; 32] = [
        0xe3, 0xb0, 0xc4, 0x42, 0x98, 0xfc, 0x1c, 0x14, 0x9a, 0xfb, 0xf4, 0xc8, 0x99, 0x6f, 0xb9, 0x24,
        0x27, 0xae, 0x41, 0xe4, 0x64, 0x9b, 0x93, 0x4c, 0xa4, 0x95, 0x99, 0x1b, 0x78, 0x52, 0xb8, 0x55,
    ];
    assert_eq!(d, want);
}

#[test]
fn sha256_two_blocks() {
    // "abcdbcdecdefdefgefghfghighijhijkijkljklmklmnlmnomnopnopq" (56 bytes: padding spills)
    let d = sha256_digest(b"abcdbcdecdefdefgefghfghighijhijkijkljklmklmnlmnomnopnopq");
    let want: [u8; 32] = [
        0x24, 0x8d, 0x6a, 0x61, 0xd2, 0x06, 0x38, 0xb8, 0xe5, 0xc0, 0x26, 0x93, 0x0c, 0x3e, 0x60, 0x39,
        0xa3, 0x3c, 0xe4, 0x59, 0x64, 0xff, 0x21, 0x67, 0xf6, 0xec, 0xed, 0xd4, 0x19, 0xdb, 0x06, 0xc1,
    ];
    assert_eq!(d, want);
}

#[test]
fn sha256_rotr_values() {
    assert_eq!(sha256_rotr(1, 1), 0x8000_0000);
    assert_eq!(sha256_rotr(0x1234_5678, 8), 0x7812_3456);
}

#[test]
fn crc32_changes_with_any_single_byte() {
    let data = b"EFI PART header bytes".to_vec();
    let base = crc32(&data);
    for i in 0..data.len() {
        for m in [1u8, 0x80, 0xFF, 0x5A] {
            let mut d = data.clone();
            d[i] ^= m;
            assert_ne!(crc32(&d), base);
        }
    }
}
