use flips::Error;
use flips::IpsBuilder;
use flips::IpsPatch;
use flips::UpsPatch;

fn data1() -> Vec<u8> {
    let mut v = Vec::new();
    let mut x: u32 = 7;
    for _ in 0..240 {
        x = (x * 31 + 11) % 251;
        v.push(x as u8);
    }
    v
}

fn data2() -> Vec<u8> {
    let mut v = data1();
    for k in 20..28 {
        v[k] ^= 0x5A;
    }
    for k in 100..117 {
        v[k] = v[k].wrapping_add(3);
    }
    v[200] = 0xFF;
    v
}

fn patch_1to2() -> IpsPatch {
    IpsBuilder::new()
        .source(data1())
        .target(data2())
        .build()
        .unwrap()
}

fn patch_2to1() -> IpsPatch {
    IpsBuilder::new()
        .source(data2())
        .target(data1())
        .build()
        .unwrap()
}

#[test]
fn test_ips_test_apply_correct() {
    let output = patch_1to2().apply(&data1()).unwrap();
    assert_eq!(output.as_bytes(), data2().as_slice());
    let output = patch_2to1().apply(&data2()).unwrap();
    assert_eq!(output.as_bytes(), data1().as_slice());
}

#[test]
fn test_ips_test_apply_to_output() {
    let result = patch_1to2().apply(&data2());
    assert_eq!(result.unwrap_err(), Error::ToOutput);
    let result = patch_2to1().apply(&data1());
    assert_eq!(result.unwrap_err(), Error::ToOutput);
}

#[test]
fn test_ips_test_apply_invalid() {
    let study = UpsPatch::new(data1()).apply(&data2());
    assert_eq!(study.unwrap_err(), Error::Invalid);
}

#[test]
fn test_create_identical() {
    let result = IpsBuilder::new().source(data1()).target(data1()).build();
    assert_eq!(result.unwrap_err(), Error::Identical);
    let result = IpsBuilder::new().source(data2()).target(data2()).build();
    assert_eq!(result.unwrap_err(), Error::Identical);
}

#[test]
fn test_study_apply_correct() {
    let study = patch_1to2().study().unwrap();
    let output = study.apply(&data1()).unwrap();
    assert_eq!(output.as_bytes(), data2().as_slice());
}

#[test]
fn test_study_apply_to_output() {
    let study = patch_1to2().study().unwrap();
    let result = study.apply(&data2());
    assert_eq!(result.unwrap_err(), Error::ToOutput);
    let study = patch_2to1().study().unwrap();
    let result = study.apply(&data1());
    assert_eq!(result.unwrap_err(), Error::ToOutput);
}

#[test]
fn test_study_invalid() {
    let study = IpsPatch::new(data1()).study();
    assert_eq!(study.unwrap_err(), Error::Invalid);
}

#[test]
fn test_ips_study_reused_across_sources() {
    // one study, two sources, interleaved: verdicts stay independent
    let study = patch_1to2().study().unwrap();
    let out_a = study.apply(&data1()).unwrap();
    let err_b = study.apply(&data2()).unwrap_err();
    let out_a2 = study.apply(&data1()).unwrap();
    assert_eq!(out_a.as_bytes(), data2().as_slice());
    assert_eq!(err_b, Error::ToOutput);
    assert_eq!(out_a2.as_bytes(), data2().as_slice());
}

#[test]
fn test_ips_create_missing_arguments() {
    let result = IpsBuilder::new().build();
    assert_eq!(result.unwrap_err(), Error::Canceled);
    let result = IpsBuilder::new().source(data1()).build();
    assert_eq!(result.unwrap_err(), Error::Canceled);
    let result = IpsBuilder::new().target(data1()).build();
    assert_eq!(result.unwrap_err(), Error::Canceled);
}

#[test]
fn test_ips_create_deterministic() {
    let a = patch_1to2();
    let b = patch_1to2();
    assert_eq!(a.as_bytes(), b.as_bytes());
}

#[test]
fn test_ips_truncating_patch() {
    // a target that is a strict prefix of the source: no hunks, only a
    // truncation extent
    let mut long = data1();
    long.extend_from_slice(&data2());
    let patch = IpsBuilder::new()
        .source(long.clone())
        .target(data1())
        .build()
        .unwrap();
    let output = patch.apply(&long).unwrap();
    assert_eq!(output.as_bytes(), data1().as_slice());
}

#[test]
fn test_ips_extending_patch() {
    // target longer than source
    let short: Vec<u8> = data1()[..100].to_vec();
    let patch = IpsBuilder::new()
        .source(short.clone())
        .target(data2())
        .build()
        .unwrap();
    let output = patch.apply(&short).unwrap();
    assert_eq!(output.as_bytes(), data2().as_slice());
}

#[test]
fn test_ips_scrambled() {
    // two hunks out of order: offset 5 after a hunk ending at 12
    let mut p: Vec<u8> = b"PATCH".to_vec();
    p.extend_from_slice(&[0, 0, 10]); // offset 10
    p.extend_from_slice(&[0, 2]); // length 2
    p.extend_from_slice(&[1, 2]);
    p.extend_from_slice(&[0, 0, 5]); // offset 5: before the previous end
    p.extend_from_slice(&[0, 2]);
    p.extend_from_slice(&[3, 4]);
    p.extend_from_slice(b"EOF");
    let result = IpsPatch::new(p).apply(&data1());
    assert_eq!(result.unwrap_err(), Error::Scrambled);
}

#[test]
fn test_ips_create_too_big() {
    let big: Vec<u8> = vec![0u8; 0x1000001];
    let result = IpsBuilder::new().source(big).target(vec![1u8, 2, 3]).build();
    assert_eq!(result.unwrap_err(), Error::OutOfMem);
}

#[test]
fn test_ips_rle_hunk() {
    // a long constant run becomes an RLE hunk and still applies
    let src = vec![9u8; 64];
    let mut tgt = src.clone();
    for k in 8..40 {
        tgt[k] = 0x77;
    }
    let patch = IpsBuilder::new()
        .source(src.clone())
        .target(tgt.clone())
        .build()
        .unwrap();
    // RLE saves bytes: header 8 instead of 5 + 32
    assert!(patch.as_bytes().len() < 5 + 5 + 32 + 3);
    let output = patch.apply(&src).unwrap();
    assert_eq!(output.as_bytes(), tgt.as_slice());
}
