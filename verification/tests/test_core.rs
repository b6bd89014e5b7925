use flips::IpsBuilder;
use flips::crc32;
use flips::crc32_update;

#[test]
fn test_crc32_check_value() {
    // the standard IEEE 802.3 check value
    assert_eq!(crc32(b"123456789"), 0xCBF43926);
    assert_eq!(crc32(b""), 0);
}

#[test]
fn test_crc32_update_seeded() {
    assert_eq!(crc32_update(b"123456789", 0), crc32(b"123456789"));
    // the seeded form continues a running checksum, so it depends on the seed
    assert_ne!(crc32_update(b"123456789", 1), crc32(b"123456789"));
}

#[test]
fn test_memory_views() {
    let patch = IpsBuilder::new()
        .source(vec![1u8, 2, 3, 4])
        .target(vec![1u8, 9, 3, 4])
        .build()
        .unwrap();
    let out = patch.apply(&[1u8, 2, 3, 4]).unwrap();
    let copied: Vec<u8> = out.to_bytes();
    assert_eq!(out.as_bytes(), copied.as_slice());
    assert_eq!(copied, vec![1u8, 9, 3, 4]);
}
