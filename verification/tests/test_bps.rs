use flips::BpsDeltaBuilder;
use flips::BpsLinearBuilder;
use flips::BpsPatch;
use flips::Error;

fn data1() -> Vec<u8> {
    let mut v = Vec::new();
    let mut x: u32 = 7;
    for _ in 0..240 {
        x = (x * 31 + 11) % 251;
        v.push(x as u8);
    }
    v
}

fn data2() -> Vec<u8> {
    let mut v = data1();
    for k in 20..28 {
        v[k] ^= 0x5A;
    }
    for k in 100..117 {
        v[k] = v[k].wrapping_add(3);
    }
    v[200] = 0xFF;
    v
}

fn data3() -> Vec<u8> {
    let mut v = Vec::new();
    let mut x: u32 = 13;
    for _ in 0..240 {
        x = (x * 37 + 5) % 241;
        v.push(x as u8);
    }
    v
}

fn patch_1to2() -> BpsPatch {
    BpsLinearBuilder::new()
        .source(data1())
        .target(data2())
        .build()
        .unwrap()
}

fn patch_2to1() -> BpsPatch {
    BpsLinearBuilder::new()
        .source(data2())
        .target(data1())
        .build()
        .unwrap()
}

#[test]
fn test_bps_test_apply_correct() {
    let output = patch_1to2().apply(&data1()).unwrap();
    assert_eq!(output.as_bytes(), data2().as_slice());
    let output = patch_2to1().apply(&data2()).unwrap();
    assert_eq!(output.as_bytes(), data1().as_slice());
}

#[test]
fn test_bps_test_apply_to_output() {
    let result = patch_1to2().apply(&data2());
    assert_eq!(result.unwrap_err(), Error::ToOutput);
    let result = patch_2to1().apply(&data1());
    assert_eq!(result.unwrap_err(), Error::ToOutput);
}

#[test]
fn test_bps_test_apply_not_this() {
    let result = patch_1to2().apply(&data3());
    assert_eq!(result.unwrap_err(), Error::NotThis);
    let result = patch_2to1().apply(&data3());
    assert_eq!(result.unwrap_err(), Error::NotThis);
}

#[test]
fn test_bps_test_apply_invalid() {
    let study = BpsPatch::new(data1()).apply(&data2());
    assert_eq!(study.unwrap_err(), Error::Invalid);
}

#[test]
fn test_create_apply_with_moremem() {
    let patch = BpsDeltaBuilder::new()
        .source(data1())
        .target(data2())
        .more_memory(true)
        .build()
        .unwrap();
    let output = patch.apply(&data1()).unwrap();
    assert_eq!(output.as_bytes(), data2().as_slice());
}

#[test]
fn test_bps_linear_create_apply() {
    let patch = BpsLinearBuilder::new()
        .source(data1())
        .target(data2())
        .build()
        .unwrap();
    let output = patch.apply(&data1()).unwrap();
    assert_eq!(output.as_bytes(), data2().as_slice());
}

#[test]
fn test_bps_delta_create_apply() {
    let patch = BpsDeltaBuilder::new()
        .source(data1())
        .target(data2())
        .build()
        .unwrap();
    let output = patch.apply(&data1()).unwrap();
    assert_eq!(output.as_bytes(), data2().as_slice());
}

#[test]
fn test_bps_delta_unequal_lengths() {
    let short: Vec<u8> = data1()[..150].to_vec();
    let patch = BpsDeltaBuilder::new()
        .source(short.clone())
        .target(data2())
        .build()
        .unwrap();
    let output = patch.apply(&short).unwrap();
    assert_eq!(output.as_bytes(), data2().as_slice());
}

#[test]
fn test_bps_linear_create_identical() {
    let result = BpsLinearBuilder::new().source(data1()).target(data1()).build();
    assert_eq!(result.unwrap_err(), Error::Identical);
    let result = BpsLinearBuilder::new().source(data2()).target(data2()).build();
    assert_eq!(result.unwrap_err(), Error::Identical);
}

#[test]
fn test_bps_delta_create_identical() {
    let result = BpsDeltaBuilder::new().source(data1()).target(data1()).build();
    assert_eq!(result.unwrap_err(), Error::Identical);
}

#[test]
fn test_bps_linear_create_missing_arguments() {
    let result = BpsLinearBuilder::new().build();
    assert_eq!(result.unwrap_err(), Error::Canceled);
    let result = BpsLinearBuilder::new().source(data1()).build();
    assert_eq!(result.unwrap_err(), Error::Canceled);
    let result = BpsLinearBuilder::new().target(data1()).build();
    assert_eq!(result.unwrap_err(), Error::Canceled);
}

#[test]
fn test_bps_delta_create_missing_arguments() {
    let result = BpsDeltaBuilder::new().build();
    assert_eq!(result.unwrap_err(), Error::Canceled);
    let result = BpsDeltaBuilder::new().source(data1()).build();
    assert_eq!(result.unwrap_err(), Error::Canceled);
    let result = BpsDeltaBuilder::new().target(data1()).build();
    assert_eq!(result.unwrap_err(), Error::Canceled);
}

#[test]
fn test_bps_metadata_round_trip() {
    let meta: Vec<u8> = b"made by a test".to_vec();
    let patch = BpsLinearBuilder::new()
        .source(data1())
        .target(data2())
        .metadata(meta.clone())
        .build()
        .unwrap();
    let output = patch.apply(&data1()).unwrap();
    assert_eq!(output.as_bytes(), data2().as_slice());
    assert_eq!(output.metadata(), meta.as_slice());
}

#[test]
fn test_bps_flipped_source_byte_not_this() {
    // flipping any byte of the source changes its CRC: NotThis
    let patch = patch_1to2();
    for k in [0usize, 100, 239] {
        let mut src = data1();
        src[k] ^= 0x01;
        let result = patch.apply(&src);
        assert_eq!(result.unwrap_err(), Error::NotThis);
    }
}

#[test]
fn test_bps_flipped_crc_invalid() {
    // flipping a byte of the declared target CRC breaks the patch CRC
    let patch = patch_1to2();
    let bytes = patch.as_bytes();
    for k in 0..4 {
        let mut broken = bytes.to_vec();
        let at = broken.len() - 8 + k;
        broken[at] ^= 0x01;
        let result = BpsPatch::new(broken).apply(&data1());
        assert_eq!(result.unwrap_err(), Error::Invalid);
    }
}

#[test]
fn test_bps_linear_deterministic() {
    assert_eq!(patch_1to2().as_bytes(), patch_1to2().as_bytes());
}
