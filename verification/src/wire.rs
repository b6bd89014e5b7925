//! Byte-level primitives shared by the UPS and BPS wire formats: the
//! variable-length integer (VLI) encoding and little-endian 32-bit reads and
//! writes.
//!
//! The VLI encoding stores 7 data bits per byte, low bits first; bit 7 marks
//! the final byte. The value is biased: each non-terminal byte adds one extra
//! step of its weight, so every value has exactly one encoding.

use vstd::prelude::*;
use vstd::arithmetic::div_mod::lemma_fundamental_div_mod;

verus! {

/// Decode the VLI starting at position `i`; `None` when the bytes run out
/// before a terminating byte. On success, the value and the position just
/// after the final byte.
pub open spec fn vli_decode(data: Seq<u8>, i: int) -> Option<(nat, int)>
    decreases data.len() - i,
{
    if i < 0 || i >= data.len() {
        None
    } else {
        let b = data[i];
        let low = (b & 0x7f) as nat;
        if b & 0x80 != 0 {
            Some((low, i + 1))
        } else {
            match vli_decode(data, i + 1) {
                Some(p) => Some(((low + 128 * (p.0 + 1)) as nat, p.1)),
                None => None,
            }
        }
    }
}

/// The unique VLI encoding of `v`.
pub open spec fn vli_encode(v: nat) -> Seq<u8>
    decreases v,
{
    if v < 128 {
        seq![(v + 128) as u8]
    } else {
        seq![(v % 128) as u8] + vli_encode((v / 128 - 1) as nat)
    }
}

/// Decoding an encoded value out of any surrounding buffer returns that value
/// and stops just after its final byte.
pub proof fn lemma_vli_decode_encode(data: Seq<u8>, i: int, v: nat)
    requires
        0 <= i,
        i + vli_encode(v).len() <= data.len(),
        data.subrange(i, i + vli_encode(v).len() as int) == vli_encode(v),
    ensures
        vli_decode(data, i) == Some((v, i + vli_encode(v).len() as int)),
    decreases v,
{
    let enc = vli_encode(v);
    if v < 128 {
        let b: u8 = (v + 128) as u8;
        let c: u8 = v as u8;
        assert(data[i] == enc[0]);
        assert(b & 0x80 != 0 && (b & 0x7f) == c) by (bit_vector)
            requires b == c + 128 && c < 128,
        ;
    } else {
        let rest = (v / 128 - 1) as nat;
        let b: u8 = (v % 128) as u8;
        assert(data[i] == enc[0]);
        assert(b & 0x80 == 0 && (b & 0x7f) == b) by (bit_vector)
            requires b < 128,
        ;
        assert(data.subrange(i + 1, i + 1 + vli_encode(rest).len() as int)
            == vli_encode(rest)) by {
            assert(enc.subrange(1, enc.len() as int) == vli_encode(rest));
            assert(data.subrange(i + 1, i + 1 + vli_encode(rest).len() as int)
                =~= enc.subrange(1, enc.len() as int));
        }
        lemma_vli_decode_encode(data, i + 1, rest);
        assert(v % 128 + 128 * (rest + 1) == v) by {
            lemma_fundamental_div_mod(v as int, 128);
        }
    }
}

/// Decoding depends only on the bytes the decode reads.
pub proof fn lemma_vli_decode_agree(d1: Seq<u8>, d2: Seq<u8>, i: int)
    requires
        vli_decode(d1, i) is Some,
        vli_decode(d1, i)->Some_0.1 <= d2.len(),
        forall|k: int| i <= k < vli_decode(d1, i)->Some_0.1 ==> #[trigger] d2[k] == d1[k],
    ensures
        vli_decode(d2, i) == vli_decode(d1, i),
    decreases d1.len() - i,
{
    lemma_vli_decode_bounds(d1, i);
    let b = d1[i];
    assert(d2[i] == b);
    if b & 0x80 == 0 {
        lemma_vli_decode_bounds(d1, i + 1);
        lemma_vli_decode_agree(d1, d2, i + 1);
    }
}

/// A successful decode consumes at least one byte and stays inside the data.
pub proof fn lemma_vli_decode_bounds(data: Seq<u8>, i: int)
    requires
        vli_decode(data, i) is Some,
    ensures
        i + 1 <= vli_decode(data, i)->Some_0.1 <= data.len(),
    decreases data.len() - i,
{
    if !(i < 0 || i >= data.len()) {
        let b = data[i];
        if b & 0x80 == 0 {
            if vli_decode(data, i + 1) is Some {
                lemma_vli_decode_bounds(data, i + 1);
            }
        }
    }
}

/// Decode a VLI from `data` at `pos`.
///
/// Returns the value and the position just past it; `Invalid` when the bytes
/// run out before a terminating byte, `TooBig` when the encoded value does
/// not fit in a `u64`.
pub fn decode_vli(data: &[u8], pos: usize) -> (r: crate::Result<(u64, usize)>)
    requires
        pos <= data@.len(),
    ensures
        match r {
            Ok(p) => vli_decode(data@, pos as int) == Some((p.0 as nat, p.1 as int))
                && pos < p.1 <= data@.len(),
            Err(e) => {
                let d = vli_decode(data@, pos as int);
                (e == crate::Error::Invalid && d is None)
                || (e == crate::Error::TooBig && match d {
                    Some(p) => p.0 > u64::MAX,
                    None => false,
                })
            },
        },
{
    let ghost whole = vli_decode(data@, pos as int);
    let mut k: usize = pos;
    let mut acc: u64 = 0;
    let mut shift: u64 = 1;
    let mut overflowed: bool = false;
    loop
        invariant
            pos <= k <= data@.len(),
            !overflowed ==> shift >= 1 && acc as nat + 1 >= shift as nat,
            !overflowed ==> (match vli_decode(data@, k as int) {
                Some(p) => whole == Some(((acc as nat + shift as nat * p.0) as nat, p.1)),
                None => whole is None,
            }),
            overflowed ==> (match vli_decode(data@, k as int) {
                Some(p) => match whole {
                    Some(q) => q.0 > u64::MAX,
                    None => false,
                },
                None => whole is None,
            }),
            whole == vli_decode(data@, pos as int),
        decreases data@.len() - k,
    {
        if k == data.len() {
            return Err(crate::Error::Invalid);
        }
        let b: u8 = data[k];
        let low: u64 = (b & 0x7f) as u64;
        let terminal: bool = b & 0x80 != 0;
        proof {
            assert(b & 0x7f < 128) by (bit_vector);
        }
        if terminal {
            proof {
                assert(vli_decode(data@, k as int)
                    == Some(((b & 0x7f) as nat, k as int + 1)));
            }
            if overflowed {
                return Err(crate::Error::TooBig);
            }
            match low.checked_mul(shift) {
                Some(m) => match acc.checked_add(m) {
                    Some(v) => {
                        proof {
                            let p = vli_decode(data@, k as int)->Some_0;
                            assert(p.0 == low as nat && p.1 == k as int + 1);
                            assert(v as nat == acc as nat + shift as nat * p.0)
                                by (nonlinear_arith)
                                requires
                                    m == low * shift,
                                    v == acc + m,
                                    p.0 == low as nat,
                            ;
                        }
                        return Ok((v, k + 1));
                    },
                    None => {
                        proof {
                            let p = vli_decode(data@, k as int)->Some_0;
                            assert(acc as nat + shift as nat * p.0 > u64::MAX)
                                by (nonlinear_arith)
                                requires
                                    m == low * shift,
                                    acc + m > u64::MAX,
                                    p.0 == low as nat,
                            ;
                        }
                        return Err(crate::Error::TooBig);
                    },
                },
                None => {
                    proof {
                        let p = vli_decode(data@, k as int)->Some_0;
                        assert(acc as nat + shift as nat * p.0 > u64::MAX)
                            by (nonlinear_arith)
                            requires
                                low * shift > u64::MAX,
                                p.0 == low as nat,
                                acc >= 0,
                        ;
                    }
                    return Err(crate::Error::TooBig);
                },
            }
        } else {
            let ghost next = vli_decode(data@, k as int + 1);
            proof {
                assert(vli_decode(data@, k as int) == (match next {
                    Some(p) => Some::<(nat, int)>(((low as nat + 128 * (p.0 + 1)) as nat, p.1)),
                    None => None::<(nat, int)>,
                }));
            }
            if !overflowed {
                let mut ok: bool = false;
                match low.checked_mul(shift) {
                    Some(m) => match acc.checked_add(m) {
                        Some(a1) => match shift.checked_mul(128) {
                            Some(s1) => match a1.checked_add(s1) {
                                Some(a2) => {
                                    proof {
                                        let sh = shift as nat;
                                        if next is Some {
                                            let p = next->Some_0;
                                            assert(acc as nat + sh * ((low as nat + 128 * (p.0 + 1)) as nat)
                                                == (a2 as nat) + (s1 as nat) * p.0) by (nonlinear_arith)
                                                requires
                                                    a1 == acc + low as nat * sh,
                                                    a2 == a1 + s1,
                                                    s1 == sh * 128,
                                            ;
                                        }
                                    }
                                    acc = a2;
                                    shift = s1;
                                    ok = true;
                                },
                                None => {},
                            },
                            None => {},
                        },
                        None => {},
                    },
                    None => {},
                }
                if !ok {
                    proof {
                        let sh = shift as nat;
                        if next is Some {
                            let p = next->Some_0;
                            assert(acc as nat + sh * ((low as nat + 128 * (p.0 + 1)) as nat)
                                >= acc as nat + sh * low as nat + sh * 128) by (nonlinear_arith)
                                requires sh >= 1,
                            ;
                            assert(acc as nat + sh * low as nat + sh * 128 > u64::MAX) by (nonlinear_arith)
                                requires
                                    sh >= 1,
                                    acc as nat + 1 >= sh,
                                    acc <= u64::MAX,
                                    low < 128,
                                    (low as nat * sh > u64::MAX)
                                        || (acc as nat + low as nat * sh > u64::MAX)
                                        || (sh * 128 > u64::MAX)
                                        || (acc as nat + low as nat * sh + sh * 128 > u64::MAX),
                            ;
                        }
                    }
                    overflowed = true;
                }
            }
            k = k + 1;
        }
    }
}

/// Append the VLI encoding of `v` to `out`.
pub fn encode_vli(v: u64, out: &mut Vec<u8>)
    ensures
        final(out)@ == old(out)@ + vli_encode(v as nat),
{
    let mut x: u64 = v;
    while x >= 128
        invariant
            old(out)@ + vli_encode(v as nat) == out@ + vli_encode(x as nat),
        decreases x,
    {
        let ghost before = out@;
        out.push((x % 128) as u8);
        proof {
            assert(before + vli_encode(x as nat)
                =~= out@ + vli_encode((x as nat / 128 - 1) as nat));
        }
        x = x / 128 - 1;
    }
    let ghost before = out@;
    out.push((x + 128) as u8);
    proof {
        assert(before + vli_encode(x as nat) =~= out@);
    }
}

/// The 32-bit little-endian value stored at position `i`.
pub open spec fn le32(data: Seq<u8>, i: int) -> u32
    recommends
        0 <= i,
        i + 4 <= data.len(),
{
    (data[i] as u32)
        | ((data[i + 1] as u32) << 8)
        | ((data[i + 2] as u32) << 16)
        | ((data[i + 3] as u32) << 24)
}

/// Read the 32-bit little-endian value at `pos`.
pub fn read_le32(data: &[u8], pos: usize) -> (r: u32)
    requires
        pos + 4 <= data@.len(),
    ensures
        r == le32(data@, pos as int),
{
    let b0: u8 = data[pos];
    let b1: u8 = data[pos + 1];
    let b2: u8 = data[pos + 2];
    let b3: u8 = data[pos + 3];
    (b0 as u32) | ((b1 as u32) << 8) | ((b2 as u32) << 16) | ((b3 as u32) << 24)
}

/// The four little-endian bytes of `x`.
pub open spec fn le32_bytes(x: u32) -> Seq<u8> {
    seq![
        (x & 0xff) as u8,
        ((x >> 8) & 0xff) as u8,
        ((x >> 16) & 0xff) as u8,
        ((x >> 24) & 0xff) as u8,
    ]
}

/// Reading four little-endian bytes back gives the value they encode.
pub proof fn lemma_le32_roundtrip(data: Seq<u8>, i: int, x: u32)
    requires
        0 <= i,
        i + 4 <= data.len(),
        data.subrange(i, i + 4) == le32_bytes(x),
    ensures
        le32(data, i) == x,
{
    let b0 = data[i];
    let b1 = data[i + 1];
    let b2 = data[i + 2];
    let b3 = data[i + 3];
    assert(b0 == le32_bytes(x)[0]);
    assert(b1 == le32_bytes(x)[1]);
    assert(b2 == le32_bytes(x)[2]);
    assert(b3 == le32_bytes(x)[3]);
    assert((b0 as u32) | ((b1 as u32) << 8) | ((b2 as u32) << 16) | ((b3 as u32) << 24) == x)
        by (bit_vector)
        requires
            b0 == (x & 0xff) as u8,
            b1 == ((x >> 8) & 0xff) as u8,
            b2 == ((x >> 16) & 0xff) as u8,
            b3 == ((x >> 24) & 0xff) as u8,
    ;
}

/// Append `x` to `out` as four little-endian bytes.
pub fn write_le32(x: u32, out: &mut Vec<u8>)
    ensures
        final(out)@ == old(out)@ + le32_bytes(x),
        final(out)@.len() == old(out)@.len() + 4,
        final(out)@.subrange(0, old(out)@.len() as int) == old(out)@,
        le32(final(out)@, old(out)@.len() as int) == x,
{
    let b0: u8 = (x & 0xff) as u8;
    let b1: u8 = ((x >> 8) & 0xff) as u8;
    let b2: u8 = ((x >> 16) & 0xff) as u8;
    let b3: u8 = ((x >> 24) & 0xff) as u8;
    out.push(b0);
    out.push(b1);
    out.push(b2);
    out.push(b3);
    proof {
        assert(final(out)@ =~= old(out)@ + le32_bytes(x));
        assert(final(out)@.subrange(0, old(out)@.len() as int) =~= old(out)@);
        assert((b0 as u32) | ((b1 as u32) << 8) | ((b2 as u32) << 16) | ((b3 as u32) << 24) == x)
            by (bit_vector)
            requires
                b0 == (x & 0xff) as u8,
                b1 == ((x >> 8) & 0xff) as u8,
                b2 == ((x >> 16) & 0xff) as u8,
                b3 == ((x >> 24) & 0xff) as u8,
        ;
    }
}

} // verus!
