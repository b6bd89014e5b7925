use flips::Error;
use flips::UpsPatch;
use flips::crc32;

fn data1() -> Vec<u8> {
    let mut v = Vec::new();
    let mut x: u32 = 7;
    for _ in 0..240 {
        x = (x * 31 + 11) % 251;
        v.push(x as u8);
    }
    v
}

fn data2() -> Vec<u8> {
    let mut v = data1();
    for k in 20..28 {
        v[k] ^= 0x5A;
    }
    for k in 100..117 {
        v[k] = v[k].wrapping_add(3);
    }
    v[200] = 0xFF;
    v
}

fn data3() -> Vec<u8> {
    let mut v = Vec::new();
    let mut x: u32 = 13;
    for _ in 0..240 {
        x = (x * 37 + 5) % 241;
        v.push(x as u8);
    }
    v
}

fn push_vli(mut v: u64, out: &mut Vec<u8>) {
    loop {
        let low = (v & 0x7F) as u8;
        if v < 128 {
            out.push(low | 0x80);
            return;
        }
        out.push(low);
        v = v / 128 - 1;
    }
}

/// Handcraft a UPS patch from `src` to `tgt` (the codec has no creator).
fn ups_patch(src: &[u8], tgt: &[u8]) -> Vec<u8> {
    let mut p: Vec<u8> = b"UPS1".to_vec();
    push_vli(src.len() as u64, &mut p);
    push_vli(tgt.len() as u64, &mut p);
    let n = src.len().max(tgt.len());
    let mut xor: Vec<u8> = Vec::new();
    for i in 0..n {
        let a = if i < src.len() { src[i] } else { 0 };
        let b = if i < tgt.len() { tgt[i] } else { 0 };
        xor.push(a ^ b);
    }
    let mut cursor = 0usize;
    let mut i = 0usize;
    while i < n {
        if xor[i] != 0 {
            push_vli((i - cursor) as u64, &mut p);
            while i < n && xor[i] != 0 {
                p.push(xor[i]);
                i += 1;
            }
            p.push(0);
            cursor = i + 1;
        }
        i += 1;
    }
    p.extend_from_slice(&crc32(src).to_le_bytes());
    p.extend_from_slice(&crc32(tgt).to_le_bytes());
    let pc = crc32(&p);
    p.extend_from_slice(&pc.to_le_bytes());
    p
}

#[test]
fn test_ups_test_apply_correct() {
    let output = UpsPatch::new(ups_patch(&data1(), &data2())).apply(&data1()).unwrap();
    assert_eq!(output.as_bytes(), data2().as_slice());
    let output = UpsPatch::new(ups_patch(&data2(), &data1())).apply(&data2()).unwrap();
    assert_eq!(output.as_bytes(), data1().as_slice());
}

#[test]
fn test_ups_test_apply_to_output() {
    let output = UpsPatch::new(ups_patch(&data1(), &data2())).apply(&data2()).unwrap();
    assert_eq!(output.as_bytes(), data1().as_slice());
    let output = UpsPatch::new(ups_patch(&data2(), &data1())).apply(&data1()).unwrap();
    assert_eq!(output.as_bytes(), data2().as_slice());
}

#[test]
fn test_ups_test_apply_not_this() {
    let result = UpsPatch::new(ups_patch(&data1(), &data2())).apply(&data3());
    assert_eq!(result.unwrap_err(), Error::NotThis);
    let result = UpsPatch::new(ups_patch(&data2(), &data1())).apply(&data3());
    assert_eq!(result.unwrap_err(), Error::NotThis);
}

#[test]
fn test_ups_test_apply_invalid() {
    let study = UpsPatch::new(data1()).apply(&data2());
    assert_eq!(study.unwrap_err(), Error::Invalid);
}

#[test]
fn test_ups_growing_symmetry() {
    // a patch that grows the file applies backward as well
    let short: Vec<u8> = data1()[..100].to_vec();
    let long = data2();
    let patch = ups_patch(&short, &long);
    let forward = UpsPatch::new(patch.clone()).apply(&short).unwrap();
    assert_eq!(forward.as_bytes(), long.as_slice());
    let backward = UpsPatch::new(patch).apply(&long).unwrap();
    assert_eq!(backward.as_bytes(), short.as_slice());
}

#[test]
fn test_ups_corrupt_patch_crc_invalid() {
    let mut patch = ups_patch(&data1(), &data2());
    let at = patch.len() - 10;
    patch[at] ^= 0x40;
    let result = UpsPatch::new(patch).apply(&data1());
    assert_eq!(result.unwrap_err(), Error::Invalid);
}

#[test]
fn test_ups_huge_size_too_big() {
    // a size VLI whose value cannot fit in the machine word
    let mut p: Vec<u8> = b"UPS1".to_vec();
    for _ in 0..10 {
        p.push(0x00);
    }
    p.push(0x80);
    let result = UpsPatch::new(p).apply(&data1());
    assert_eq!(result.unwrap_err(), Error::TooBig);
}
