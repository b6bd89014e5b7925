//! The UPS codec: apply only.
//!
//! A UPS patch stores the XOR of source and target (both zero-extended to the
//! longer size) as a sequence of records, together with the two sizes and
//! three CRC-32 values. Because XOR is an involution the format is symmetric:
//! applying a patch to the target it declares yields the source back.

use vstd::prelude::*;
use vstd::pervasive::VecAdditionalExecFns;

use crate::Error;
use crate::FlipsMemory;
use crate::crc::crc32;
use crate::crc::crc32_of;
use crate::wire::decode_vli;
use crate::wire::le32;
use crate::wire::lemma_vli_decode_bounds;
use crate::wire::read_le32;
use crate::wire::vli_decode;

verus! {

/// `s` zero-extended to length `m`.
pub open spec fn zero_ext(s: Seq<u8>, m: nat) -> Seq<u8>
    recommends
        s.len() <= m,
{
    s + Seq::new((m - s.len()) as nat, |k: int| 0u8)
}

/// One record's run of XOR bytes: starting at `i`, XOR each byte into `buf`
/// at the moving cursor `c` until a zero byte, which also advances the
/// cursor. `None` when the bytes reach `stop` without a terminator or a
/// nonzero byte falls outside the buffer. On success: the new buffer, the
/// position after the terminator, and the cursor after it.
pub open spec fn ups_xor_run(p: Seq<u8>, i: int, stop: int, buf: Seq<u8>, c: int) -> Option<
    (Seq<u8>, int, int),
>
    decreases stop - i,
{
    if i < 0 || i >= stop || stop > p.len() {
        None
    } else if p[i] == 0 {
        Some((buf, i + 1, c + 1))
    } else if 0 <= c < buf.len() {
        ups_xor_run(p, i + 1, stop, buf.update(c, buf[c] ^ p[i]), c + 1)
    } else {
        None
    }
}

pub proof fn lemma_ups_xor_run_bounds(p: Seq<u8>, i: int, stop: int, buf: Seq<u8>, c: int)
    requires
        ups_xor_run(p, i, stop, buf, c) is Some,
    ensures
        ({
            let r = ups_xor_run(p, i, stop, buf, c)->Some_0;
            &&& i < r.1 <= stop
            &&& r.0.len() == buf.len()
            &&& r.2 == c + (r.1 - i)
        }),
    decreases stop - i,
{
    if !(i < 0 || i >= stop || stop > p.len()) && p[i] != 0 && 0 <= c < buf.len() {
        lemma_ups_xor_run_bounds(p, i + 1, stop, buf.update(c, buf[c] ^ p[i]), c + 1);
    }
}

/// The records section of a UPS patch, from `i` up to `stop`: each record is
/// a VLI relative offset followed by an XOR run. `None` when any record is
/// malformed, a record starts past the buffer end, or a nonzero byte falls
/// outside the buffer.
pub open spec fn ups_records(p: Seq<u8>, i: int, stop: int, buf: Seq<u8>, c: int) -> Option<
    Seq<u8>,
>
    decreases stop - i,
        when 0 <= i <= stop <= p.len()
        via ups_records_decreases
{
    if i == stop {
        Some(buf)
    } else {
        match vli_decode(p, i) {
            None => None,
            Some(rel) => {
                if rel.1 > stop {
                    None
                } else if c + rel.0 > buf.len() {
                    None
                } else {
                    match ups_xor_run(p, rel.1, stop, buf, c + rel.0) {
                        None => None,
                        Some(run) => ups_records(p, run.1, stop, run.0, run.2),
                    }
                }
            },
        }
    }
}

#[via_fn]
proof fn ups_records_decreases(p: Seq<u8>, i: int, stop: int, buf: Seq<u8>, c: int) {
    if i != stop {
        match vli_decode(p, i) {
            None => {},
            Some(rel) => {
                lemma_vli_decode_bounds(p, i);
                if !(rel.1 > stop) && !(c + rel.0 > buf.len()) {
                    match ups_xor_run(p, rel.1, stop, buf, c + rel.0) {
                        None => {},
                        Some(run) => {
                            lemma_ups_xor_run_bounds(p, rel.1, stop, buf, c + rel.0);
                        },
                    }
                }
            },
        }
    }
}

/// The header of a UPS patch: the declared source and target sizes and the
/// position just after them. `None` when the magic or a VLI is unreadable.
pub open spec fn ups_header(p: Seq<u8>) -> Option<(nat, nat, int)> {
    if p.len() < 4 || p[0] != 0x55 || p[1] != 0x50 || p[2] != 0x53 || p[3] != 0x31 {
        None
    } else {
        match vli_decode(p, 4) {
            None => None,
            Some(s) => match vli_decode(p, s.1) {
                None => None,
                Some(t) => Some((s.0, t.0, t.1)),
            },
        }
    }
}

/// What applying the UPS patch `p` to the buffer `s` returns.
///
/// After the header, the patch must leave twelve trailer bytes: the declared
/// source, target and patch CRC-32s, little-endian; the patch CRC covers all
/// but its own four bytes, and a mismatch is `Invalid`. The input must match
/// one declared (size, CRC) pair: the source pair selects forward
/// application, the target pair backward application; neither is `NotThis`.
/// The records are XORed into the zero-extended input, the result is cut to
/// the declared output size, and its CRC must match the declared one, else
/// `Invalid`.
pub open spec fn ups_apply_spec(p: Seq<u8>, s: Seq<u8>) -> core::result::Result<Seq<u8>, Error> {
    if p.len() < 4 || p[0] != 0x55 || p[1] != 0x50 || p[2] != 0x53 || p[3] != 0x31 {
        Err(Error::Invalid)
    } else {
        match vli_decode(p, 4) {
            None => Err(Error::Invalid),
            Some(sv) => {
                if sv.0 > usize::MAX {
                    Err(Error::TooBig)
                } else {
                    match vli_decode(p, sv.1) {
                        None => Err(Error::Invalid),
                        Some(tv) => ups_apply_sized(p, s, sv.0, tv.0, tv.1),
                    }
                }
            },
        }
    }
}

/// The rest of `ups_apply_spec` once the header has been read.
pub open spec fn ups_apply_sized(p: Seq<u8>, s: Seq<u8>, ssz: nat, tsz: nat, i2: int)
    -> core::result::Result<Seq<u8>, Error> {
    if tsz > usize::MAX {
                Err(Error::TooBig)
            } else if i2 + 12 > p.len() {
                Err(Error::Invalid)
            } else {
                let stop = p.len() - 12;
                let src_crc = le32(p, stop);
                let tgt_crc = le32(p, stop + 4);
                let pat_crc = le32(p, p.len() - 4);
                if crc32_of(p.take(p.len() - 4)) != pat_crc {
                    Err(Error::Invalid)
                } else {
                    let fwd = s.len() == ssz && crc32_of(s) == src_crc;
                    let bwd = s.len() == tsz && crc32_of(s) == tgt_crc;
                    if !fwd && !bwd {
                        Err(Error::NotThis)
                    } else {
                        let out_sz: nat = if fwd { tsz } else { ssz };
                        let out_crc: u32 = if fwd { tgt_crc } else { src_crc };
                        let m: nat = if ssz >= tsz { ssz } else { tsz };
                        match ups_records(p, i2, stop, zero_ext(s, m), 0) {
                            None => Err(Error::Invalid),
                            Some(buf) => {
                                let out = buf.take(out_sz as int);
                                if crc32_of(out) == out_crc {
                                    Ok(out)
                                } else {
                                    Err(Error::Invalid)
                                }
                            },
                        }
                    }
                }
            }
}

proof fn lemma_u8_xor_assoc(a: u8, b: u8, x: u8)
    ensures
        a ^ (b ^ x) == (a ^ b) ^ x,
{
    assert(a ^ (b ^ x) == (a ^ b) ^ x) by (bit_vector);
}

proof fn lemma_u8_xor_cancel(a: u8, b: u8)
    ensures
        (a ^ b) ^ b == a,
        a ^ a == 0,
        a ^ 0 == a,
{
    assert((a ^ b) ^ b == a && a ^ a == 0 && a ^ 0 == a) by (bit_vector);
}

/// An XOR run changes two equal-length buffers in the same way: positions,
/// cursor and success agree, and the XOR of a cell with its initial value
/// does not depend on the buffer.
proof fn lemma_ups_xor_run_mask(p: Seq<u8>, i: int, stop: int, b1: Seq<u8>, b2: Seq<u8>, c: int)
    requires
        b1.len() == b2.len(),
    ensures
        ({
            let r1 = ups_xor_run(p, i, stop, b1, c);
            let r2 = ups_xor_run(p, i, stop, b2, c);
            &&& (r1 is Some <==> r2 is Some)
            &&& (r1 is Some ==> {
                let x1 = r1->Some_0;
                let x2 = r2->Some_0;
                &&& x1.1 == x2.1
                &&& x1.2 == x2.2
                &&& x1.0.len() == b1.len()
                &&& x2.0.len() == b2.len()
                &&& forall|k: int|
                    0 <= k < b1.len() ==> (x1.0[k] ^ b1[k]) == (x2.0[k] ^ b2[k])
            })
        }),
    decreases stop - i,
{
    if i < 0 || i >= stop || stop > p.len() {
    } else if p[i] == 0 {
        assert forall|k: int| 0 <= k < b1.len() implies (b1[k] ^ b1[k]) == (b2[k] ^ b2[k]) by {
            lemma_u8_xor_cancel(b1[k], b1[k]);
            lemma_u8_xor_cancel(b2[k], b2[k]);
        }
    } else if 0 <= c < b1.len() {
        let z = p[i];
        let b1n = b1.update(c, b1[c] ^ z);
        let b2n = b2.update(c, b2[c] ^ z);
        lemma_ups_xor_run_mask(p, i + 1, stop, b1n, b2n, c + 1);
        let r1 = ups_xor_run(p, i, stop, b1, c);
        let r2 = ups_xor_run(p, i, stop, b2, c);
        if r1 is Some {
            let x1 = r1->Some_0;
            let x2 = r2->Some_0;
            assert forall|k: int|
                0 <= k < b1.len() implies (x1.0[k] ^ b1[k]) == (x2.0[k] ^ b2[k]) by {
                if k == c {
                    // peel the shared XOR byte off both sides
                    lemma_u8_xor_assoc(x1.0[c], b1n[c], z);
                    lemma_u8_xor_assoc(x2.0[c], b2n[c], z);
                    lemma_u8_xor_cancel(b1[c], z);
                    lemma_u8_xor_cancel(b2[c], z);
                    assert((x1.0[c] ^ b1n[c]) == (x2.0[c] ^ b2n[c]));
                    assert((x1.0[c] ^ b1n[c]) ^ z == (x2.0[c] ^ b2n[c]) ^ z);
                } else {
                    assert(b1n[k] == b1[k] && b2n[k] == b2[k]);
                }
            }
        }
    }
}

/// The record section changes two equal-length buffers in the same way.
proof fn lemma_ups_records_mask(p: Seq<u8>, i: int, stop: int, b1: Seq<u8>, b2: Seq<u8>, c: int)
    requires
        b1.len() == b2.len(),
        0 <= i <= stop <= p.len(),
    ensures
        ({
            let r1 = ups_records(p, i, stop, b1, c);
            let r2 = ups_records(p, i, stop, b2, c);
            &&& (r1 is Some <==> r2 is Some)
            &&& (r1 is Some ==> {
                let x1 = r1->Some_0;
                let x2 = r2->Some_0;
                &&& x1.len() == b1.len()
                &&& x2.len() == b2.len()
                &&& forall|k: int| 0 <= k < b1.len() ==> (x1[k] ^ b1[k]) == (x2[k] ^ b2[k])
            })
        }),
    decreases stop - i,
{
    if i == stop {
        assert forall|k: int| 0 <= k < b1.len() implies (b1[k] ^ b1[k]) == (b2[k] ^ b2[k]) by {
            lemma_u8_xor_cancel(b1[k], b1[k]);
            lemma_u8_xor_cancel(b2[k], b2[k]);
        }
    } else {
        match vli_decode(p, i) {
            None => {},
            Some(rel) => {
                lemma_vli_decode_bounds(p, i);
                if !(rel.1 > stop) && !(c + rel.0 > b1.len()) {
                    lemma_ups_xor_run_mask(p, rel.1, stop, b1, b2, c + rel.0);
                    let r1 = ups_xor_run(p, rel.1, stop, b1, c + rel.0);
                    let r2 = ups_xor_run(p, rel.1, stop, b2, c + rel.0);
                    match r1 {
                        None => {},
                        Some(run1) => {
                            let run2 = r2->Some_0;
                            lemma_ups_xor_run_bounds(p, rel.1, stop, b1, c + rel.0);
                            lemma_ups_records_mask(p, run1.1, stop, run1.0, run2.0, run1.2);
                            let q1 = ups_records(p, run1.1, stop, run1.0, run1.2);
                            if q1 is Some {
                                let y1 = q1->Some_0;
                                let y2 = ups_records(p, run2.1, stop, run2.0, run2.2)->Some_0;
                                assert forall|k: int|
                                    0 <= k < b1.len() implies (y1[k] ^ b1[k]) == (y2[k]
                                    ^ b2[k]) by {
                                    // chain the two mask equalities through the
                                    // intermediate buffers
                                    lemma_u8_xor_assoc(y1[k], run1.0[k], b1[k]);
                                    lemma_u8_xor_assoc(y2[k], run2.0[k], b2[k]);
                                    assert((y1[k] ^ run1.0[k]) == (y2[k] ^ run2.0[k]));
                                    assert((run1.0[k] ^ b1[k]) == (run2.0[k] ^ b2[k]));
                                    assert(((y1[k] ^ run1.0[k]) ^ (run1.0[k] ^ b1[k]))
                                        == ((y2[k] ^ run2.0[k]) ^ (run2.0[k] ^ b2[k])));
                                    lemma_u8_xor_chain(y1[k], run1.0[k], b1[k]);
                                    lemma_u8_xor_chain(y2[k], run2.0[k], b2[k]);
                                }
                            }
                        },
                    }
                }
            },
        }
    }
}

proof fn lemma_u8_xor_chain(a: u8, b: u8, x: u8)
    ensures
        (a ^ b) ^ (b ^ x) == a ^ x,
{
    assert((a ^ b) ^ (b ^ x) == a ^ x) by (bit_vector);
}

/// `s` matches the patch's declared source size and CRC, so applying the
/// patch to `s` runs in the forward direction.
pub open spec fn ups_matches_source(p: Seq<u8>, s: Seq<u8>) -> bool {
    match ups_header(p) {
        None => false,
        Some(h) => s.len() == h.0 && crc32_of(s) == le32(p, p.len() - 12),
    }
}

/// The patch declares a source no longer than its target.
pub open spec fn ups_source_fits(p: Seq<u8>) -> bool {
    match ups_header(p) {
        None => false,
        Some(h) => h.0 <= h.1,
    }
}

/// UPS symmetry: when forward application of a patch to its declared source
/// yields `t`, applying the same patch to `t` yields the source back,
/// provided the declared source is no longer than the declared target (a
/// patch that truncates may carry surplus XOR bytes that backward
/// application cannot check).
pub proof fn lemma_ups_symmetry(p: Seq<u8>, s: Seq<u8>, t: Seq<u8>)
    requires
        ups_apply_spec(p, s) == Ok::<Seq<u8>, Error>(t),
        ups_matches_source(p, s),
        ups_source_fits(p),
    ensures
        ups_apply_spec(p, t) == Ok::<Seq<u8>, Error>(s),
{
    // the forward run succeeded, so every guard along the way held
    assert(!(p.len() < 4 || p[0] != 0x55 || p[1] != 0x50 || p[2] != 0x53 || p[3] != 0x31));
    assert(vli_decode(p, 4) is Some);
    let sv = vli_decode(p, 4)->Some_0;
    assert(sv.0 <= usize::MAX);
    assert(vli_decode(p, sv.1) is Some);
    let tv = vli_decode(p, sv.1)->Some_0;
    assert(ups_header(p) == Some((sv.0, tv.0, tv.1)));
    let h = ups_header(p)->Some_0;
    let ssz = h.0;
    let tsz = h.1;
    let i2 = h.2;
    assert(tsz <= usize::MAX);
    assert(!(i2 + 12 > p.len()));
    lemma_vli_decode_bounds(p, 4);
    lemma_vli_decode_bounds(p, sv.1);
    let stop = p.len() - 12;
    assert(0 <= i2 <= stop <= p.len());
    let src_crc = le32(p, stop);
    let tgt_crc = le32(p, stop + 4);
    let m: nat = if ssz >= tsz { ssz } else { tsz };
    let buf0 = zero_ext(s, m);
    assert(m == tsz);
    assert(buf0.len() == m);
    let rec = ups_records(p, i2, stop, buf0, 0);
    assert(rec is Some);
    let buf = rec->Some_0;
    lemma_ups_records_mask(p, i2, stop, buf0, buf0, 0);
    assert(buf.len() == m);
    assert(t == buf.take(tsz as int));
    assert(t =~= buf);
    assert(crc32_of(t) == tgt_crc);
    assert(t.len() == tsz);
    let buft = zero_ext(t, m);
    assert(buft =~= t);
    lemma_ups_records_mask(p, i2, stop, buft, buf0, 0);
    let rect = ups_records(p, i2, stop, buft, 0);
    assert(rect is Some);
    let bufb = rect->Some_0;
    assert(bufb.len() == m);
    assert forall|k: int| 0 <= k < m implies bufb[k] == buf0[k] by {
        assert((bufb[k] ^ buft[k]) == (buf[k] ^ buf0[k]));
        assert(buft[k] == buf[k]);
        lemma_u8_xor_chain(bufb[k], buf[k], buf0[k]);
        assert((bufb[k] ^ buf[k]) ^ (buf[k] ^ buf0[k]) == bufb[k] ^ buf0[k]);
        lemma_u8_xor_cancel(bufb[k], buf[k]);
        lemma_u8_xor_cancel(buf0[k], bufb[k]);
        assert((bufb[k] ^ buf0[k]) == (buf[k] ^ buf0[k]) ^ (buf[k] ^ buf0[k]));
        lemma_u8_xor_cancel(buf[k] ^ buf0[k], buf[k] ^ buf0[k]);
        assert(bufb[k] ^ buf0[k] == 0);
        lemma_u8_xor_zero(bufb[k], buf0[k]);
    }
    assert(bufb =~= buf0);
    let fwd_t = t.len() == ssz && crc32_of(t) == src_crc;
    if fwd_t {
        assert(ssz == tsz);
        assert(src_crc == tgt_crc);
        let outp = bufb.take(tsz as int);
        assert(outp =~= s) by {
            assert(bufb == buf0);
            assert(buf0 =~= s);
        }
        assert(crc32_of(s) == src_crc);
    } else {
        let outp = bufb.take(ssz as int);
        assert(outp =~= s) by {
            assert(bufb == buf0);
            assert(forall|k: int| 0 <= k < ssz ==> buf0[k] == s[k]);
        }
        assert(crc32_of(s) == src_crc);
    }
}

proof fn lemma_u8_xor_zero(a: u8, b: u8)
    ensures
        a ^ b == 0 ==> a == b,
{
    assert(a ^ b == 0 ==> a == b) by (bit_vector);
}

/// A patch in the UPS format.
#[derive(Clone, Debug, PartialEq)]
pub struct UpsPatch {
    buffer: Vec<u8>,
}

impl View for UpsPatch {
    type V = Seq<u8>;

    closed spec fn view(&self) -> Seq<u8> {
        self.buffer@
    }
}

/// The output created by the application of a UPS patch.
#[derive(Debug)]
pub struct UpsOutput {
    mem: FlipsMemory,
}

impl View for UpsOutput {
    type V = Seq<u8>;

    closed spec fn view(&self) -> Seq<u8> {
        self.mem@
    }
}

impl UpsOutput {
    /// View the output as a slice of bytes.
    pub fn as_bytes(&self) -> (r: &[u8])
        ensures
            r@ == self@,
    {
        self.mem.as_bytes()
    }

    /// Copy the output into a fresh buffer.
    pub fn to_bytes(&self) -> (r: Vec<u8>)
        ensures
            r@ == self@,
    {
        self.mem.to_bytes()
    }
}

/// Extend `buf` with zero bytes up to length `n`; a longer buffer is kept.
pub(crate) fn zero_extend(buf: &mut Vec<u8>, n: usize)
    ensures
        final(buf)@.len() == if old(buf)@.len() >= n { old(buf)@.len() } else { n as nat },
        final(buf)@.subrange(0, old(buf)@.len() as int) == old(buf)@,
        forall|k: int| old(buf)@.len() <= k < final(buf)@.len() ==> final(buf)@[k] == 0u8,
{
    while buf.len() < n
        invariant
            buf@.len() >= old(buf)@.len(),
            buf@.len() <= if old(buf)@.len() >= n { old(buf)@.len() } else { n as nat },
            buf@.subrange(0, old(buf)@.len() as int) =~= old(buf)@,
            forall|k: int| old(buf)@.len() <= k < buf@.len() ==> buf@[k] == 0u8,
        decreases n - buf@.len(),
    {
        buf.push(0u8);
        proof {
            assert(buf@.subrange(0, old(buf)@.len() as int) =~= old(buf)@);
        }
    }
}

impl UpsPatch {
    /// Load a new UPS patch from an arbitrary sequence of bytes.
    pub fn new(buffer: Vec<u8>) -> (r: Self)
        ensures
            r@ == buffer@,
    {
        Self { buffer }
    }

    /// View the patch as a slice of bytes.
    pub fn as_bytes(&self) -> (r: &[u8])
        ensures
            r@ == self@,
    {
        self.buffer.as_slice()
    }

    /// Apply the patch to a source.
    ///
    /// Applying a UPS patch to the target it declares does not return an
    /// error: it yields the declared source back (backward application).
    #[verifier::loop_isolation(false)]
    pub fn apply(&self, source: &[u8]) -> (r: crate::Result<UpsOutput>)
        ensures
            match r {
                Ok(o) => ups_apply_spec(self@, source@) == Ok::<Seq<u8>, Error>(o@),
                Err(e) => ups_apply_spec(self@, source@) == Err::<Seq<u8>, Error>(e),
            },
    {
        let p: &[u8] = self.buffer.as_slice();
        if p.len() < 4 || p[0] != 0x55 || p[1] != 0x50 || p[2] != 0x53 || p[3] != 0x31 {
            return Err(Error::Invalid);
        }
        let (ssz64, i1) = match decode_vli(p, 4) {
            Ok(x) => x,
            Err(e) => {
                return Err(
                    if matches!(e, Error::Invalid) {
                        Error::Invalid
                    } else {
                        Error::TooBig
                    },
                );
            },
        };
        if ssz64 > usize::MAX as u64 {
            return Err(Error::TooBig);
        }
        let (tsz64, i2) = match decode_vli(p, i1) {
            Ok(x) => x,
            Err(e) => {
                return Err(
                    if matches!(e, Error::Invalid) {
                        Error::Invalid
                    } else {
                        Error::TooBig
                    },
                );
            },
        };
        if tsz64 > usize::MAX as u64 {
            return Err(Error::TooBig);
        }
        let ssz: usize = ssz64 as usize;
        let tsz: usize = tsz64 as usize;
        if p.len() - i2 < 12 {
            return Err(Error::Invalid);
        }
        let stop: usize = p.len() - 12;
        let src_crc: u32 = read_le32(p, stop);
        let tgt_crc: u32 = read_le32(p, stop + 4);
        let pat_crc: u32 = read_le32(p, p.len() - 4);
        let body: &[u8] = vstd::slice::slice_subrange(p, 0, p.len() - 4);
        proof {
            assert(p@.subrange(0, p@.len() - 4) =~= p@.take(p@.len() - 4));
        }
        if crc32(body) != pat_crc {
            return Err(Error::Invalid);
        }
        let in_crc: u32 = crc32(source);
        let fwd: bool = source.len() == ssz && in_crc == src_crc;
        let bwd: bool = source.len() == tsz && in_crc == tgt_crc;
        if !fwd && !bwd {
            return Err(Error::NotThis);
        }
        let out_sz: usize = if fwd { tsz } else { ssz };
        let out_crc: u32 = if fwd { tgt_crc } else { src_crc };
        let m: usize = if ssz >= tsz { ssz } else { tsz };
        let mut out: Vec<u8> = vstd::slice::slice_to_vec(source);
        zero_extend(&mut out, m);
        proof {
            assert(out@ =~= zero_ext(source@, m as nat));
        }
        let ghost buf0 = out@;
        let ghost whole = ups_records(p@, i2 as int, stop as int, buf0, 0);
        let mut i: usize = i2;
        let mut c: usize = 0;
        let ghost mut c_spec: int = 0;
        while i < stop
            invariant
                i2 <= i <= stop <= p@.len(),
                p@ == self.buffer@,
                out@.len() == m,
                c_spec == c as int || (i == stop),
                whole == ups_records(p@, i as int, stop as int, out@, c_spec),
                whole == ups_records(p@, i2 as int, stop as int, buf0, 0),
            decreases stop - i,
        {
            let ghost i_entry = i as int;
            let ghost out_entry = out@;
            let (rel, j) = match decode_vli(p, i) {
                Ok(x) => x,
                Err(e) => {
                    if matches!(e, Error::Invalid) {
                        proof {
                            assert(ups_records(p@, i as int, stop as int, out@, c_spec)
                                is None);
                        }
                        return Err(Error::Invalid);
                    } else {
                        // the offset does not fit in a u64, so the record
                        // starts past any buffer this host can hold
                        proof {
                            let d = vli_decode(p@, i as int);
                            assert(c_spec + d->Some_0.0 > out@.len());
                            assert(ups_records(p@, i as int, stop as int, out@, c_spec)
                                is None);
                        }
                        return Err(Error::Invalid);
                    }
                },
            };
            if j > stop {
                proof {
                    assert(ups_records(p@, i as int, stop as int, out@, c_spec) is None);
                }
                return Err(Error::Invalid);
            }
            let c1u: u64 = match (c as u64).checked_add(rel) {
                Some(x) => x,
                None => {
                    proof {
                        assert(c_spec + rel as nat > out@.len());
                        assert(ups_records(p@, i as int, stop as int, out@, c_spec) is None);
                    }
                    return Err(Error::Invalid);
                },
            };
            if c1u > out.len() as u64 {
                proof {
                    assert(c_spec + rel as nat > out@.len());
                    assert(ups_records(p@, i as int, stop as int, out@, c_spec) is None);
                }
                return Err(Error::Invalid);
            }
            let mut cc: usize = c1u as usize;
            let mut sat: bool = false;
            let ghost mut cc_spec: int = cc as int;
            let ghost run0 = ups_xor_run(p@, j as int, stop as int, out@, cc as int);
            let mut ii: usize = j;
            let mut done: bool = false;
            while !done
                invariant
                    j <= ii <= stop <= p@.len(),
                    out@.len() == m,
                    !done ==> !sat,
                    !done ==> cc <= out@.len(),
                    !done ==> cc as int == cc_spec,
                    !done ==> run0 == ups_xor_run(p@, ii as int, stop as int, out@, cc as int),
                    done ==> run0 == Some((out@, ii as int, cc_spec)),
                    done ==> j < ii,
                    done && !sat ==> cc_spec == cc as int,
                    done && sat ==> cc_spec == (usize::MAX as int) + 1,
                decreases stop - ii,
            {
                if ii == stop {
                    proof {
                        assert(run0 is None);
                        assert(ups_records(p@, i_entry, stop as int, out_entry, c_spec)
                            is None);
                    }
                    return Err(Error::Invalid);
                }
                let b: u8 = p[ii];
                if b == 0 {
                    proof {
                        assert(run0 == Some((out@, ii as int + 1, cc as int + 1)));
                        cc_spec = cc as int + 1;
                    }
                    ii = ii + 1;
                    if cc == usize::MAX {
                        sat = true;
                        proof {
                            cc_spec = (usize::MAX as int) + 1;
                        }
                    } else {
                        cc = cc + 1;
                    }
                    done = true;
                } else if cc < out.len() {
                    let old_b: u8 = out[cc];
                    out.set(cc, old_b ^ b);
                    cc = cc + 1;
                    ii = ii + 1;
                    proof {
                        cc_spec = cc as int;
                    }
                } else {
                    proof {
                        assert(run0 is None);
                        assert(ups_records(p@, i_entry, stop as int, out_entry, c_spec)
                            is None);
                    }
                    return Err(Error::Invalid);
                }
            }
            proof {
                assert(ups_records(p@, i_entry, stop as int, out_entry, c_spec)
                    == ups_records(p@, ii as int, stop as int, out@, cc_spec));
            }
            if sat {
                if ii == stop {
                    i = ii;
                    proof {
                        c_spec = cc_spec;
                    }
                } else {
                    proof {
                        assert(ups_records(p@, ii as int, stop as int, out@, cc_spec) is None);
                    }
                    return Err(Error::Invalid);
                }
            } else {
                i = ii;
                c = cc;
                proof {
                    c_spec = cc_spec;
                }
            }
        }
        proof {
            assert(whole == Some(out@));
        }
        out.truncate(out_sz);
        let final_crc: u32 = crc32(out.as_slice());
        if final_crc != out_crc {
            return Err(Error::Invalid);
        }
        Ok(UpsOutput { mem: FlipsMemory::new(out) })
    }
}



} // verus!
