//! The IPS codec: apply, create, and the two-phase study.
//!
//! An IPS patch is the five-byte magic "PATCH", a run of hunks, the
//! terminator "EOF", and an optional truncation extent. Each hunk writes
//! literal bytes or a run of one repeated byte at a 24-bit big-endian
//! offset, growing the output (zero-filled) when it writes past the end.

use vstd::prelude::*;
use vstd::pervasive::VecAdditionalExecFns;

use crate::Error;
use crate::FlipsMemory;
use crate::ups::zero_extend;

verus! {

/// The 24-bit big-endian value at position `i`.
pub open spec fn be24(p: Seq<u8>, i: int) -> nat
    recommends
        0 <= i,
        i + 3 <= p.len(),
{
    (p[i] as nat) * 0x10000 + (p[i + 1] as nat) * 0x100 + (p[i + 2] as nat)
}

/// The 16-bit big-endian value at position `i`.
pub open spec fn be16(p: Seq<u8>, i: int) -> nat
    recommends
        0 <= i,
        i + 2 <= p.len(),
{
    (p[i] as nat) * 0x100 + (p[i + 1] as nat)
}

/// The byte of `buf` at `i`, reading zero past the end.
pub open spec fn ips_at(buf: Seq<u8>, i: int) -> u8 {
    if 0 <= i < buf.len() {
        buf[i]
    } else {
        0
    }
}

/// Write `data` into `buf` at `off`, zero-filling any gap before it.
pub open spec fn ips_write(buf: Seq<u8>, off: nat, data: Seq<u8>) -> Seq<u8> {
    let end = off + data.len();
    let n = if buf.len() >= end {
        buf.len()
    } else {
        end
    };
    Seq::new(
        n,
        |k: int|
            if off <= k < end {
                data[k - off]
            } else {
                ips_at(buf, k)
            },
    )
}

/// The hunk would write exactly what the buffer already holds.
pub open spec fn ips_region_unchanged(buf: Seq<u8>, off: nat, data: Seq<u8>) -> bool {
    forall|k: int| 0 <= k < data.len() ==> #[trigger] ips_at(buf, off + k) == data[k]
}


/// The interpreter state while the hunks of a patch are applied.
pub struct IpsState {
    /// The output buffer built so far.
    pub buf: Seq<u8>,
    /// The length of the original source buffer.
    pub src_len: nat,
    /// Every hunk so far wrote only bytes already in place.
    pub all_unchanged: bool,
    /// Some hunk so far started within the source extent.
    pub any_match: bool,
    /// Some hunk started before the end of its predecessor.
    pub scrambled: bool,
    /// The largest end position of any hunk.
    pub extent: nat,
    /// The end of the previous hunk.
    pub last_end: nat,
    /// How many hunks have been applied.
    pub hunks: nat,
}

/// The starting state: the source buffer, nothing written yet.
pub open spec fn ips_init(s: Seq<u8>) -> IpsState {
    IpsState {
        buf: s,
        src_len: s.len(),
        all_unchanged: true,
        any_match: false,
        scrambled: false,
        extent: 0,
        last_end: 0,
        hunks: 0,
    }
}

/// Apply one hunk to the state.
pub open spec fn ips_step(st: IpsState, off: nat, data: Seq<u8>) -> IpsState {
    IpsState {
        buf: ips_write(st.buf, off, data),
        src_len: st.src_len,
        all_unchanged: st.all_unchanged && ips_region_unchanged(st.buf, off, data),
        any_match: st.any_match || off < st.src_len,
        scrambled: st.scrambled || off < st.last_end,
        extent: if off + data.len() > st.extent {
            (off + data.len()) as nat
        } else {
            st.extent
        },
        last_end: (off + data.len()) as nat,
        hunks: st.hunks + 1,
    }
}

/// Parse and apply the hunks of `p` from position `i` until the "EOF"
/// terminator; `None` when the patch is malformed. On success, the final
/// state and the optional truncation extent.
pub open spec fn ips_hunks(p: Seq<u8>, i: int, st: IpsState) -> Option<(IpsState, Option<nat>)>
    decreases p.len() - i,
{
    if i < 0 || i + 3 > p.len() {
        None
    } else {
        let off = be24(p, i);
        if off == 0x454F46 {
            if i + 3 == p.len() {
                Some((st, None))
            } else if p.len() - i == 6 {
                Some((st, Some(be24(p, i + 3))))
            } else {
                None
            }
        } else if i + 5 > p.len() {
            None
        } else {
            let len = be16(p, i + 3);
            if len > 0 {
                if i + 5 + len > p.len() {
                    None
                } else {
                    let data = p.subrange(i + 5, i + 5 + len);
                    ips_hunks(p, i + 5 + len, ips_step(st, off, data))
                }
            } else {
                if p.len() - i < 8 {
                    None
                } else {
                    let rlen = be16(p, i + 5);
                    if rlen == 0 {
                        None
                    } else {
                        let data = Seq::new(rlen as nat, |k: int| p[i + 7]);
                        ips_hunks(p, i + 8, ips_step(st, off, data))
                    }
                }
            }
        }
    }
}

/// Whether the finished state, with the truncation extent, counts as
/// scrambled: an out-of-order hunk, or a truncation below a hunk's end.
pub open spec fn ips_scrambled_total(st: IpsState, trunc: Option<nat>) -> bool {
    st.scrambled || (match trunc {
        Some(tv) => tv < st.extent,
        None => false,
    })
}

/// The output after the optional truncation: shrink only when the extent is
/// within the buffer.
pub open spec fn ips_truncated(buf: Seq<u8>, trunc: Option<nat>) -> Seq<u8> {
    match trunc {
        Some(tv) => if tv <= buf.len() {
            buf.take(tv as int)
        } else {
            buf
        },
        None => buf,
    }
}

/// What applying the IPS patch `p` to the buffer `s` returns.
///
/// A bad magic or any malformed hunk is `Invalid`. When every hunk wrote
/// only bytes already in place the input was already patched: `ToOutput`.
/// When no hunk even starts within the source, the input belongs to a patch
/// made for something larger: `NotThis` (both are best-effort heuristics and
/// need at least one hunk). Hunks out of order, or a truncation below a
/// hunk's end, are `Scrambled`.
pub open spec fn ips_apply_spec(p: Seq<u8>, s: Seq<u8>) -> core::result::Result<Seq<u8>, Error> {
    if p.len() < 8 || p[0] != 0x50 || p[1] != 0x41 || p[2] != 0x54 || p[3] != 0x43 || p[4]
        != 0x48 {
        Err(Error::Invalid)
    } else {
        match ips_hunks(p, 5, ips_init(s)) {
            None => Err(Error::Invalid),
            Some(r) => {
                let st = r.0;
                if st.hunks > 0 && st.all_unchanged {
                    Err(Error::ToOutput)
                } else if st.hunks > 0 && !st.any_match {
                    Err(Error::NotThis)
                } else if ips_scrambled_total(st, r.1) {
                    Err(Error::Scrambled)
                } else {
                    Ok(ips_truncated(st.buf, r.1))
                }
            },
        }
    }
}

/// What studying the IPS patch `p` returns: `Invalid` or `Scrambled` as in
/// application, which never depend on the source.
pub open spec fn ips_study_spec(p: Seq<u8>) -> core::result::Result<(), Error> {
    if p.len() < 8 || p[0] != 0x50 || p[1] != 0x41 || p[2] != 0x54 || p[3] != 0x43 || p[4]
        != 0x48 {
        Err(Error::Invalid)
    } else {
        match ips_hunks(p, 5, ips_init(Seq::empty())) {
            None => Err(Error::Invalid),
            Some(r) => {
                if ips_scrambled_total(r.0, r.1) {
                    Err(Error::Scrambled)
                } else {
                    Ok(())
                }
            },
        }
    }
}

/// Read the 24-bit big-endian value at `pos`.
fn read_be24(p: &[u8], pos: usize) -> (r: u32)
    requires
        pos + 3 <= p@.len(),
    ensures
        r == be24(p@, pos as int),
        r < 0x1000000,
{
    let b0: u8 = p[pos];
    let b1: u8 = p[pos + 1];
    let b2: u8 = p[pos + 2];
    (b0 as u32) * 0x10000 + (b1 as u32) * 0x100 + (b2 as u32)
}

/// Read the 16-bit big-endian value at `pos`.
fn read_be16(p: &[u8], pos: usize) -> (r: u16)
    requires
        pos + 2 <= p@.len(),
    ensures
        r == be16(p@, pos as int),
{
    let b0: u8 = p[pos];
    let b1: u8 = p[pos + 1];
    (b0 as u16) * 0x100 + (b1 as u16)
}

/// Write `data` at `off`, growing the buffer as needed; report whether the
/// region was unchanged and whether any byte matched.
#[verifier::loop_isolation(false)]
fn ips_write_hunk(buf: &mut Vec<u8>, off: usize, data: &[u8]) -> (r: bool)
    requires
        off + data@.len() <= usize::MAX,
        data@.len() >= 1,
    ensures
        final(buf)@ == ips_write(old(buf)@, off as nat, data@),
        r == ips_region_unchanged(old(buf)@, off as nat, data@),
{
    let end: usize = off + data.len();
    zero_extend(buf, end);
    let ghost base = buf@;
    proof {
        assert(forall|j: int| 0 <= j < base.len() ==> base[j] == ips_at(old(buf)@, j));
    }
    let mut k: usize = 0;
    let mut all_eq: bool = true;
    while k < data.len()
        invariant
            k <= data@.len(),
            buf@.len() == base.len(),
            off + data@.len() <= base.len(),
            forall|j: int| 0 <= j < buf@.len() && !(off <= j < off + k) ==> buf@[j] == base[j],
            forall|j: int| off <= j < off + k ==> buf@[j] == data@[j - off],
            all_eq <==> (forall|j: int|
                0 <= j < k ==> #[trigger] ips_at(old(buf)@, off + j) == data@[j]),
        decreases data@.len() - k,
    {
        let b_old: u8 = buf[off + k];
        let b_new: u8 = data[k];
        proof {
            let j: int = off + k as int;
            assert(buf@[j] == base[j]);
            assert(base[j] == ips_at(old(buf)@, j));
            assert(b_old == ips_at(old(buf)@, j));
        }
        if b_old != b_new {
            all_eq = false;
        }
        buf.set(off + k, b_new);
        k = k + 1;
    }
    proof {
        let w = ips_write(old(buf)@, off as nat, data@);
        assert(w.len() == base.len());
        assert forall|j: int| 0 <= j < buf@.len() implies buf@[j] == w[j] by {
            if off <= j < off + data@.len() {
                assert(buf@[j] == data@[j - off]);
            } else {
                assert(buf@[j] == base[j]);
                assert(base[j] == ips_at(old(buf)@, j));
            }
        }
        assert(buf@ =~= w);
    }
    all_eq
}


/// A vector of `n` copies of `b`.
fn byte_run(b: u8, n: usize) -> (r: Vec<u8>)
    ensures
        r@ == Seq::new(n as nat, |k: int| b),
{
    let mut out: Vec<u8> = Vec::new();
    let mut k: usize = 0;
    while k < n
        invariant
            k <= n,
            out@.len() == k,
            forall|j: int| 0 <= j < k ==> out@[j] == b,
        decreases n - k,
    {
        out.push(b);
        k = k + 1;
    }
    proof {
        assert(out@ =~= Seq::new(n as nat, |k: int| b));
    }
    out
}

/// Walk the hunks of `p` over a copy of `source` and classify the result.
#[verifier::loop_isolation(false)]
#[verifier::rlimit(100)]
fn ips_apply_inner(p: &[u8], source: &[u8]) -> (r: crate::Result<Vec<u8>>)
    ensures
        match r {
            Ok(o) => ips_apply_spec(p@, source@) == Ok::<Seq<u8>, Error>(o@),
            Err(e) => ips_apply_spec(p@, source@) == Err::<Seq<u8>, Error>(e),
        },
{
    if p.len() < 8 || p[0] != 0x50 || p[1] != 0x41 || p[2] != 0x54 || p[3] != 0x43 || p[4]
        != 0x48 {
        return Err(Error::Invalid);
    }
    let slen: usize = source.len();
    let mut buf: Vec<u8> = vstd::slice::slice_to_vec(source);
    let mut i: usize = 5;
    let mut all_u: bool = true;
    let mut any_m: bool = false;
    let mut scram: bool = false;
    let mut extent: usize = 0;
    let mut last_end: usize = 0;
    let mut hunks: usize = 0;
    let mut has_trunc: bool = false;
    let mut trunc_val: usize = 0;
    let ghost whole = ips_hunks(p@, 5, ips_init(source@));
    let ghost mut trunc: Option<nat> = None;
    let mut done: bool = false;
    while !done
        invariant
            5 <= i <= p@.len(),
            extent < 0x1000000 + 0x10000,
            last_end <= extent,
            hunks <= i,
            !done ==> trunc is None && !has_trunc,
            done ==> (trunc == if has_trunc {
                Some(trunc_val as nat)
            } else {
                None::<nat>
            }),
            !done ==> whole == ips_hunks(
                p@,
                i as int,
                IpsState {
                    buf: buf@,
                    src_len: slen as nat,
                    all_unchanged: all_u,
                    any_match: any_m,
                    scrambled: scram,
                    extent: extent as nat,
                    last_end: last_end as nat,
                    hunks: hunks as nat,
                },
            ),
            done ==> whole == Some(
                (
                    IpsState {
                        buf: buf@,
                        src_len: slen as nat,
                        all_unchanged: all_u,
                        any_match: any_m,
                        scrambled: scram,
                        extent: extent as nat,
                        last_end: last_end as nat,
                        hunks: hunks as nat,
                    },
                    trunc,
                ),
            ),
        decreases p@.len() - i + (if done {
            0int
        } else {
            1int
        }),
    {
        let ghost st_entry = IpsState {
            buf: buf@,
            src_len: slen as nat,
            all_unchanged: all_u,
            any_match: any_m,
            scrambled: scram,
            extent: extent as nat,
            last_end: last_end as nat,
            hunks: hunks as nat,
        };
        let ghost i_entry = i as int;
        if p.len() - i < 3 {
            proof {
                assert(whole is None);
            }
            return Err(Error::Invalid);
        }
        let off32: u32 = read_be24(p, i);
        let off: usize = off32 as usize;
        if off32 == 0x454F46 {
            if p.len() - i == 3 {
                i = i + 3;
                done = true;
            } else if p.len() - i == 6 {
                let tv: u32 = read_be24(p, i + 3);
                has_trunc = true;
                trunc_val = tv as usize;
                proof {
                    trunc = Some(tv as nat);
                }
                i = i + 6;
                done = true;
            } else {
                proof {
                    assert(whole is None);
                }
                return Err(Error::Invalid);
            }
        } else {
            if p.len() - i < 5 {
                proof {
                    assert(whole is None);
                }
                return Err(Error::Invalid);
            }
            let len: u16 = read_be16(p, i + 3);
            if len > 0 {
                if len as usize > p.len() - (i + 5) {
                    proof {
                        assert(i_entry + 5 + be16(p@, i_entry + 3) > p@.len());
                        assert(whole is None);
                    }
                    return Err(Error::Invalid);
                }
                let data: &[u8] = vstd::slice::slice_subrange(p, i + 5, i + 5 + len as usize);
                let end: usize = off + len as usize;
                let hunk_r: bool = ips_write_hunk(&mut buf, off, data);
                all_u = all_u && hunk_r;
                any_m = any_m || off < slen;
                if off < last_end {
                    scram = true;
                }
                if end > extent {
                    extent = end;
                }
                last_end = end;
                hunks = hunks + 1;
                i = i + 5 + len as usize;
                proof {
                    let st_next = ips_step(st_entry, off as nat, data@);
                    assert(IpsState {
                        buf: buf@,
                        src_len: slen as nat,
                        all_unchanged: all_u,
                        any_match: any_m,
                        scrambled: scram,
                        extent: extent as nat,
                        last_end: last_end as nat,
                        hunks: hunks as nat,
                    } == st_next);
                    assert(whole == ips_hunks(p@, i as int, st_next));
                }
            } else {
                if p.len() - i < 8 {
                    proof {
                        assert(whole is None);
                    }
                    return Err(Error::Invalid);
                }
                let rlen: u16 = read_be16(p, i + 5);
                if rlen == 0 {
                    proof {
                        assert(whole is None);
                    }
                    return Err(Error::Invalid);
                }
                let b: u8 = p[i + 7];
                let run: Vec<u8> = byte_run(b, rlen as usize);
                proof {
                    assert(run@ =~= Seq::new(be16(p@, i_entry + 5) as nat, |k: int| p@[i_entry + 7]));
                }
                let end: usize = off + rlen as usize;
                let hunk_r: bool = ips_write_hunk(&mut buf, off, run.as_slice());
                all_u = all_u && hunk_r;
                any_m = any_m || off < slen;
                if off < last_end {
                    scram = true;
                }
                if end > extent {
                    extent = end;
                }
                last_end = end;
                hunks = hunks + 1;
                i = i + 8;
                proof {
                    let st_next = ips_step(st_entry, off as nat, run@);
                    assert(IpsState {
                        buf: buf@,
                        src_len: slen as nat,
                        all_unchanged: all_u,
                        any_match: any_m,
                        scrambled: scram,
                        extent: extent as nat,
                        last_end: last_end as nat,
                        hunks: hunks as nat,
                    } == st_next);
                    assert(whole == ips_hunks(p@, i as int, st_next));
                }
            }
        }
    }
    let trunc_scram: bool = has_trunc && trunc_val < extent;
    if all_u && hunks > 0 {
        return Err(Error::ToOutput);
    }
    if !any_m && hunks > 0 {
        return Err(Error::NotThis);
    }
    if scram || trunc_scram {
        return Err(Error::Scrambled);
    }
    if has_trunc && trunc_val <= buf.len() {
        buf.truncate(trunc_val);
        proof {
            assert(buf@ =~= ips_truncated(whole->Some_0.0.buf, trunc));
        }
    }
    Ok(buf)
}


/// The largest hunk end a well-formed patch declares.
pub open spec fn ips_extent_of(p: Seq<u8>) -> nat {
    match ips_hunks(p, 5, ips_init(Seq::empty())) {
        Some(r) => r.0.extent,
        None => 0,
    }
}

/// Parse the hunks of `p` without any source, tracking only the structure.
#[verifier::loop_isolation(false)]
#[verifier::rlimit(100)]
fn ips_study_inner(p: &[u8]) -> (r: crate::Result<usize>)
    ensures
        match r {
            Ok(e) => ips_study_spec(p@) == Ok::<(), Error>(()) && e as nat == ips_extent_of(p@),
            Err(err) => ips_study_spec(p@) == Err::<(), Error>(err),
        },
{
    if p.len() < 8 || p[0] != 0x50 || p[1] != 0x41 || p[2] != 0x54 || p[3] != 0x43 || p[4]
        != 0x48 {
        return Err(Error::Invalid);
    }
    let mut i: usize = 5;
    let mut scram: bool = false;
    let mut extent: usize = 0;
    let mut last_end: usize = 0;
    let ghost whole = ips_hunks(p@, 5, ips_init(Seq::empty()));
    let ghost mut st: IpsState = ips_init(Seq::empty());
    let ghost mut trunc: Option<nat> = None;
    let mut has_trunc: bool = false;
    let mut trunc_val: usize = 0;
    let mut done: bool = false;
    while !done
        invariant
            5 <= i <= p@.len(),
            extent < 0x1000000 + 0x10000,
            last_end <= extent,
            st.scrambled == scram,
            st.extent == extent as nat,
            st.last_end == last_end as nat,
            !done ==> trunc is None && !has_trunc,
            done ==> (trunc == if has_trunc {
                Some(trunc_val as nat)
            } else {
                None::<nat>
            }),
            !done ==> whole == ips_hunks(p@, i as int, st),
            done ==> whole == Some((st, trunc)),
        decreases p@.len() - i + (if done {
            0int
        } else {
            1int
        }),
    {
        let ghost i_entry = i as int;
        if p.len() - i < 3 {
            proof {
                assert(whole is None);
            }
            return Err(Error::Invalid);
        }
        let off32: u32 = read_be24(p, i);
        let off: usize = off32 as usize;
        if off32 == 0x454F46 {
            if p.len() - i == 3 {
                i = i + 3;
                done = true;
            } else if p.len() - i == 6 {
                let tv: u32 = read_be24(p, i + 3);
                has_trunc = true;
                trunc_val = tv as usize;
                proof {
                    trunc = Some(tv as nat);
                }
                i = i + 6;
                done = true;
            } else {
                proof {
                    assert(whole is None);
                }
                return Err(Error::Invalid);
            }
        } else {
            if p.len() - i < 5 {
                proof {
                    assert(whole is None);
                }
                return Err(Error::Invalid);
            }
            let len: u16 = read_be16(p, i + 3);
            if len > 0 {
                if len as usize > p.len() - (i + 5) {
                    proof {
                        assert(i_entry + 5 + be16(p@, i_entry + 3) > p@.len());
                        assert(whole is None);
                    }
                    return Err(Error::Invalid);
                }
                let end: usize = off + len as usize;
                if off < last_end {
                    scram = true;
                }
                if end > extent {
                    extent = end;
                }
                last_end = end;
                i = i + 5 + len as usize;
                proof {
                    st = ips_step(st, off as nat, p@.subrange(i_entry + 5, i_entry + 5 + len as int));
                    assert(whole == ips_hunks(p@, i as int, st));
                }
            } else {
                if p.len() - i < 8 {
                    proof {
                        assert(whole is None);
                    }
                    return Err(Error::Invalid);
                }
                let rlen: u16 = read_be16(p, i + 5);
                if rlen == 0 {
                    proof {
                        assert(whole is None);
                    }
                    return Err(Error::Invalid);
                }
                let end: usize = off + rlen as usize;
                if off < last_end {
                    scram = true;
                }
                if end > extent {
                    extent = end;
                }
                last_end = end;
                i = i + 8;
                proof {
                    st = ips_step(st, off as nat, Seq::new(rlen as nat, |k: int| p@[i_entry + 7]));
                    assert(whole == ips_hunks(p@, i as int, st));
                }
            }
        }
    }
    if scram || (has_trunc && trunc_val < extent) {
        return Err(Error::Scrambled);
    }
    Ok(extent)
}

/// A patch in the IPS format.
#[derive(Clone, Debug, PartialEq)]
pub struct IpsPatch {
    buffer: Vec<u8>,
}

impl View for IpsPatch {
    type V = Seq<u8>;

    closed spec fn view(&self) -> Seq<u8> {
        self.buffer@
    }
}

/// The output created by the application of an IPS patch.
#[derive(Debug)]
pub struct IpsOutput {
    mem: FlipsMemory,
}

impl View for IpsOutput {
    type V = Seq<u8>;

    closed spec fn view(&self) -> Seq<u8> {
        self.mem@
    }
}

impl IpsOutput {
    /// View the output as a slice of bytes.
    pub fn as_bytes(&self) -> (r: &[u8])
        ensures
            r@ == self@,
    {
        self.mem.as_bytes()
    }

    /// Copy the output into a fresh buffer.
    pub fn to_bytes(&self) -> (r: Vec<u8>)
        ensures
            r@ == self@,
    {
        self.mem.to_bytes()
    }
}

impl IpsPatch {
    /// Load a new IPS patch from an arbitrary sequence of bytes.
    ///
    /// The patch format is not checked, so this method always succeeds, but
    /// then [`apply`](Self::apply) or [`study`](Self::study) may fail if the
    /// patch cannot be read.
    pub fn new(buffer: Vec<u8>) -> (r: Self)
        ensures
            r@ == buffer@,
    {
        Self { buffer }
    }

    /// View the patch as a slice of bytes.
    pub fn as_bytes(&self) -> (r: &[u8])
        ensures
            r@ == self@,
    {
        self.buffer.as_slice()
    }

    /// Apply the patch to a source.
    pub fn apply(&self, source: &[u8]) -> (r: crate::Result<IpsOutput>)
        ensures
            match r {
                Ok(o) => ips_apply_spec(self@, source@) == Ok::<Seq<u8>, Error>(o@),
                Err(e) => ips_apply_spec(self@, source@) == Err::<Seq<u8>, Error>(e),
            },
    {
        match ips_apply_inner(self.buffer.as_slice(), source) {
            Ok(out) => Ok(IpsOutput { mem: FlipsMemory::new(out) }),
            Err(e) => Err(e),
        }
    }

    /// Create a study: validate the patch without touching any source.
    pub fn study(self) -> (r: crate::Result<IpsStudy>)
        ensures
            match r {
                Ok(st) => ips_study_spec(self@) == Ok::<(), Error>(()) && st@ == self@,
                Err(e) => ips_study_spec(self@) == Err::<(), Error>(e),
            },
    {
        match ips_study_inner(self.buffer.as_slice()) {
            Ok(extent) => Ok(IpsStudy { patch: self, extent }),
            Err(e) => Err(e),
        }
    }
}

/// The result of a study over an IPS patch: the patch together with its
/// structural summary. A study exists only for a patch that parsed cleanly,
/// and applying it does not consume or alter it.
#[derive(Clone, Debug)]
pub struct IpsStudy {
    patch: IpsPatch,
    extent: usize,
}

impl View for IpsStudy {
    type V = Seq<u8>;

    closed spec fn view(&self) -> Seq<u8> {
        self.patch@
    }
}

impl IpsStudy {
    /// Apply the studied patch to a source. The verdict is a pure function
    /// of the patch bytes and the source, so one study can be applied to any
    /// number of sources, in any order.
    pub fn apply(&self, source: &[u8]) -> (r: crate::Result<IpsOutput>)
        ensures
            match r {
                Ok(o) => ips_apply_spec(self@, source@) == Ok::<Seq<u8>, Error>(o@),
                Err(e) => ips_apply_spec(self@, source@) == Err::<Seq<u8>, Error>(e),
            },
    {
        match ips_apply_inner(self.patch.buffer.as_slice(), source) {
            Ok(out) => Ok(IpsOutput { mem: FlipsMemory::new(out) }),
            Err(e) => Err(e),
        }
    }
}


/// Position `i` of the target must be rewritten: the byte differs from the
/// source there, or the target extends past the source.
pub open spec fn ips_needs(s: Seq<u8>, t: Seq<u8>, i: int) -> bool {
    (0 <= i < s.len() && i < t.len() && s[i] != t[i]) || (s.len() <= i < t.len())
}

/// The first position at or after `i` that must be rewritten (or the end).
pub open spec fn ips_skip(s: Seq<u8>, t: Seq<u8>, i: int) -> int
    decreases t.len() - i,
{
    if i >= t.len() {
        i
    } else if ips_needs(s, t, i) {
        i
    } else {
        ips_skip(s, t, i + 1)
    }
}

/// The end of the rewrite run starting at `i`.
pub open spec fn ips_run_end(s: Seq<u8>, t: Seq<u8>, i: int) -> int
    decreases t.len() - i,
{
    if !ips_needs(s, t, i) {
        i
    } else {
        ips_run_end(s, t, i + 1)
    }
}

pub proof fn lemma_ips_skip_char(s: Seq<u8>, t: Seq<u8>, i: int)
    requires
        i <= t.len(),
    ensures
        i <= ips_skip(s, t, i) <= t.len(),
        forall|k: int| i <= k < ips_skip(s, t, i) ==> !ips_needs(s, t, k),
        ips_skip(s, t, i) < t.len() ==> ips_needs(s, t, ips_skip(s, t, i)),
    decreases t.len() - i,
{
    if i < t.len() && !ips_needs(s, t, i) {
        lemma_ips_skip_char(s, t, i + 1);
    }
}

pub proof fn lemma_ips_skip_is(s: Seq<u8>, t: Seq<u8>, i: int, j: int)
    requires
        i <= j <= t.len(),
        forall|k: int| i <= k < j ==> !ips_needs(s, t, k),
        j < t.len() ==> ips_needs(s, t, j),
    ensures
        ips_skip(s, t, i) == j,
    decreases j - i,
{
    if i < j {
        assert(!ips_needs(s, t, i));
        lemma_ips_skip_is(s, t, i + 1, j);
    }
}

pub proof fn lemma_ips_run_end_char(s: Seq<u8>, t: Seq<u8>, i: int)
    ensures
        i <= ips_run_end(s, t, i),
        forall|k: int| i <= k < ips_run_end(s, t, i) ==> ips_needs(s, t, k),
        !ips_needs(s, t, ips_run_end(s, t, i)),
        ips_needs(s, t, i) ==> i < ips_run_end(s, t, i) <= t.len(),
    decreases t.len() - i,
{
    if ips_needs(s, t, i) {
        lemma_ips_run_end_char(s, t, i + 1);
    }
}

pub proof fn lemma_ips_run_end_is(s: Seq<u8>, t: Seq<u8>, i: int, e: int)
    requires
        i <= e,
        forall|k: int| i <= k < e ==> ips_needs(s, t, k),
        !ips_needs(s, t, e),
    ensures
        ips_run_end(s, t, i) == e,
    decreases e - i,
{
    if i < e {
        assert(ips_needs(s, t, i));
        lemma_ips_run_end_is(s, t, i + 1, e);
    }
}

/// The three big-endian bytes of `v`.
pub open spec fn be24_bytes(v: nat) -> Seq<u8>
    recommends
        v < 0x1000000,
{
    seq![(v / 0x10000) as u8, ((v / 0x100) % 0x100) as u8, (v % 0x100) as u8]
}

/// The two big-endian bytes of `v`.
pub open spec fn be16_bytes(v: nat) -> Seq<u8>
    recommends
        v < 0x10000,
{
    seq![(v / 0x100) as u8, (v % 0x100) as u8]
}

/// The hunk list a creator emits: maximal rewrite runs, shifted one byte
/// left when one would start at the forbidden "EOF" offset, and cut to the
/// 16-bit length limit (never cutting exactly at the forbidden offset).
pub open spec fn ips_chunks(s: Seq<u8>, t: Seq<u8>, i: int) -> Seq<(nat, Seq<u8>)>
    decreases t.len() - i,
        when i >= 0
        via ips_chunks_decreases
{
    let j = ips_skip(s, t, i);
    if j >= t.len() {
        Seq::empty()
    } else {
        let e = ips_run_end(s, t, j);
        let a = if j == 0x454F46 {
            j - 1
        } else {
            j
        };
        let c0 = if e - a > 0xFFFF {
            0xFFFF
        } else {
            e - a
        };
        let c = if a + c0 == 0x454F46 && a + c0 < e {
            c0 - 1
        } else {
            c0
        };
        seq![((a as nat), t.subrange(a, a + c))] + ips_chunks(s, t, a + c)
    }
}

#[via_fn]
proof fn ips_chunks_decreases(s: Seq<u8>, t: Seq<u8>, i: int) {
    lemma_ips_skip_char(s, t, if i <= t.len() {
        i
    } else {
        t.len() as int
    });
    let j = ips_skip(s, t, i);
    if i <= t.len() && j < t.len() {
        lemma_ips_run_end_char(s, t, j);
    }
    if i > t.len() {
        assert(ips_skip(s, t, i) == i);
    }
}

/// The bytes of one hunk: a run of four or more equal bytes becomes an RLE
/// hunk, anything else a copy hunk.
pub open spec fn ips_hunk_bytes(h: (nat, Seq<u8>)) -> Seq<u8> {
    let a = h.0;
    let d = h.1;
    if d.len() >= 4 && (forall|k: int| 0 <= k < d.len() ==> #[trigger] d[k] == d[0]) {
        be24_bytes(a) + seq![0u8, 0u8] + be16_bytes(d.len()) + seq![d[0]]
    } else {
        be24_bytes(a) + be16_bytes(d.len()) + d
    }
}

/// The bytes of a hunk list.
pub open spec fn ips_hunks_bytes(l: Seq<(nat, Seq<u8>)>) -> Seq<u8>
    decreases l.len(),
{
    if l.len() == 0 {
        Seq::empty()
    } else {
        ips_hunk_bytes(l[0]) + ips_hunks_bytes(l.drop_first())
    }
}

pub proof fn lemma_ips_hunks_bytes_snoc(l: Seq<(nat, Seq<u8>)>, h: (nat, Seq<u8>))
    ensures
        ips_hunks_bytes(l.push(h)) == ips_hunks_bytes(l) + ips_hunk_bytes(h),
    decreases l.len(),
{
    if l.len() == 0 {
        assert(l.push(h)[0] == h);
        assert(l.push(h).drop_first() =~= Seq::<(nat, Seq<u8>)>::empty());
        assert(l =~= Seq::<(nat, Seq<u8>)>::empty());
        assert(ips_hunks_bytes(l.push(h).drop_first()) == ips_hunks_bytes(l));
        assert(ips_hunks_bytes(l) =~= Seq::<u8>::empty());
        assert(ips_hunks_bytes(l.push(h)) == ips_hunk_bytes(h) + ips_hunks_bytes(l));
        assert(ips_hunk_bytes(h) + ips_hunks_bytes(l) =~= ips_hunks_bytes(l) + ips_hunk_bytes(
            h,
        ));
    } else {
        assert(l.push(h)[0] == l[0]);
        assert(l.push(h).drop_first() =~= l.drop_first().push(h));
        lemma_ips_hunks_bytes_snoc(l.drop_first(), h);
        assert(ips_hunks_bytes(l.push(h)) =~= ips_hunks_bytes(l) + ips_hunk_bytes(h));
    }
}

/// What the IPS creator emits for `s` to `t`: `Identical` for equal
/// buffers, `OutOfMem` past the 16 MiB format bound, else the serialized
/// patch with a trailing truncation extent when the target is shorter.
pub open spec fn ips_create_spec(s: Seq<u8>, t: Seq<u8>) -> core::result::Result<Seq<u8>, Error> {
    if s == t {
        Err(Error::Identical)
    } else if s.len() > 0x1000000 || t.len() > 0x1000000 {
        Err(Error::OutOfMem)
    } else {
        Ok(
            seq![0x50u8, 0x41u8, 0x54u8, 0x43u8, 0x48u8] + ips_hunks_bytes(ips_chunks(s, t, 0))
                + seq![0x45u8, 0x4Fu8, 0x46u8] + (if t.len() < s.len() {
                be24_bytes(t.len())
            } else {
                Seq::empty()
            }),
        )
    }
}

/// What the IPS builder returns: `Canceled` without both buffers, else as
/// the creator.
pub open spec fn ips_build_spec(src: Option<Seq<u8>>, tgt: Option<Seq<u8>>)
    -> core::result::Result<Seq<u8>, Error> {
    match (src, tgt) {
        (Some(s), Some(t)) => ips_create_spec(s, t),
        _ => Err(Error::Canceled),
    }
}


/// Append `v` as three big-endian bytes.
fn write_be24(out: &mut Vec<u8>, v: u32)
    requires
        v < 0x1000000,
    ensures
        final(out)@ == old(out)@ + be24_bytes(v as nat),
{
    out.push((v / 0x10000) as u8);
    out.push(((v / 0x100) % 0x100) as u8);
    out.push((v % 0x100) as u8);
    proof {
        assert(final(out)@ =~= old(out)@ + be24_bytes(v as nat));
    }
}

/// Append `v` as two big-endian bytes.
fn write_be16(out: &mut Vec<u8>, v: u16)
    ensures
        final(out)@ == old(out)@ + be16_bytes(v as nat),
{
    out.push((v / 0x100) as u8);
    out.push((v % 0x100) as u8);
    proof {
        assert(final(out)@ =~= old(out)@ + be16_bytes(v as nat));
    }
}

/// Every byte of `d` equals its first byte.
fn is_const_run(d: &[u8]) -> (r: bool)
    requires
        d@.len() >= 1,
    ensures
        r <==> (forall|k: int| 0 <= k < d@.len() ==> #[trigger] d@[k] == d@[0]),
{
    let b0: u8 = d[0];
    let mut k: usize = 1;
    while k < d.len()
        invariant
            1 <= k <= d@.len(),
            b0 == d@[0],
            forall|j: int| 0 <= j < k ==> #[trigger] d@[j] == d@[0],
        decreases d@.len() - k,
    {
        if d[k] != b0 {
            proof {
                assert(d@[k as int] != d@[0]);
            }
            return false;
        }
        k = k + 1;
    }
    true
}

/// Whether target position `k` must be rewritten.
fn ips_needs_at(s: &[u8], t: &[u8], k: usize) -> (r: bool)
    requires
        k < t@.len(),
    ensures
        r == ips_needs(s@, t@, k as int),
{
    if k < s.len() {
        s[k] != t[k]
    } else {
        true
    }
}

/// Serialize the hunk list for `s` to `t`.
#[verifier::loop_isolation(false)]
#[verifier::rlimit(100)]
fn ips_emit_hunks(s: &[u8], t: &[u8]) -> (out: Vec<u8>)
    requires
        s@.len() <= 0x1000000,
        t@.len() <= 0x1000000,
    ensures
        out@ == ips_hunks_bytes(ips_chunks(s@, t@, 0)),
{
    let mut out: Vec<u8> = Vec::new();
    proof {
        assert(out@ =~= ips_hunks_bytes(Seq::<(nat, Seq<u8>)>::empty()));
    }
    let ghost mut chunks: Seq<(nat, Seq<u8>)> = Seq::empty();
    let mut i: usize = 0;
    while i < t.len()
        invariant
            i <= t@.len(),
            out@ == ips_hunks_bytes(chunks),
            ips_chunks(s@, t@, 0) == chunks + ips_chunks(s@, t@, i as int),
        decreases t@.len() - i,
    {
        let ghost i_entry = i as int;
        // find the next rewrite position
        let mut j: usize = i;
        let mut found: bool = false;
        while !found && j < t.len()
            invariant
                i <= j <= t@.len(),
                forall|k: int| i <= k < j ==> !ips_needs(s@, t@, k),
                found ==> j < t@.len() && ips_needs(s@, t@, j as int),
            decreases t@.len() - j + (if found {
                0int
            } else {
                1int
            }),
        {
            if ips_needs_at(s, t, j) {
                found = true;
            } else {
                j = j + 1;
            }
        }
        proof {
            lemma_ips_skip_is(s@, t@, i as int, j as int);
        }
        if !found {
            proof {
                assert(ips_chunks(s@, t@, i_entry) =~= Seq::<(nat, Seq<u8>)>::empty());
                assert(chunks + ips_chunks(s@, t@, i_entry) =~= chunks);
                assert(chunks + ips_chunks(s@, t@, t@.len() as int) =~= chunks + ips_chunks(
                    s@,
                    t@,
                    i_entry,
                ));
            }
            i = t.len();
        } else {
            // find the end of the run
            let mut e: usize = j;
            let mut run_on: bool = true;
            while run_on && e < t.len()
                invariant
                    j <= e <= t@.len(),
                    forall|k: int| j <= k < e ==> ips_needs(s@, t@, k),
                    !run_on ==> e < t@.len() && !ips_needs(s@, t@, e as int),
                decreases t@.len() - e + (if run_on {
                    1int
                } else {
                    0int
                }),
            {
                if ips_needs_at(s, t, e) {
                    e = e + 1;
                } else {
                    run_on = false;
                }
            }
            proof {
                if run_on {
                    assert(e == t@.len());
                    assert(!ips_needs(s@, t@, e as int));
                }
                lemma_ips_run_end_is(s@, t@, j as int, e as int);
            }
            let a: usize = if j == 0x454F46 {
                j - 1
            } else {
                j
            };
            let c0: usize = if e - a > 0xFFFF {
                0xFFFF
            } else {
                e - a
            };
            let c: usize = if a + c0 == 0x454F46 && a + c0 < e {
                c0 - 1
            } else {
                c0
            };
            let data: &[u8] = vstd::slice::slice_subrange(t, a, a + c);
            let const_run: bool = is_const_run(data);
            let ghost out_entry = out@;
            if const_run && c >= 4 {
                write_be24(&mut out, a as u32);
                out.push(0);
                out.push(0);
                write_be16(&mut out, c as u16);
                let b0: u8 = data[0];
                out.push(b0);
            } else {
                write_be24(&mut out, a as u32);
                write_be16(&mut out, c as u16);
                out.extend_from_slice(data);
            }
            proof {
                let h = ((a as nat), t@.subrange(a as int, a as int + c as int));
                assert(out@ =~= out_entry + ips_hunk_bytes(h));
                lemma_ips_hunks_bytes_snoc(chunks, h);
                assert(out@ =~= ips_hunks_bytes(chunks.push(h)));
                assert(ips_chunks(s@, t@, i_entry) == seq![h] + ips_chunks(
                    s@,
                    t@,
                    a + c as int,
                ));
                assert(chunks + ips_chunks(s@, t@, i_entry) =~= chunks.push(h) + ips_chunks(
                    s@,
                    t@,
                    a + c as int,
                ));
                chunks = chunks.push(h);
            }
            i = a + c;
        }
    }
    proof {
        assert(ips_chunks(s@, t@, t@.len() as int) =~= Seq::<(nat, Seq<u8>)>::empty());
        assert(chunks =~= ips_chunks(s@, t@, 0));
    }
    out
}

/// A builder to create an IPS patch.
///
/// ```
/// let patch = flips::IpsBuilder::new()
///     .source(b"some source bytes".to_vec())
///     .target(b"some target bytes".to_vec())
///     .build()
///     .expect("could not create patch");
/// ```
#[derive(Debug)]
pub struct IpsBuilder {
    source: Option<Vec<u8>>,
    target: Option<Vec<u8>>,
}

impl IpsBuilder {
    pub closed spec fn source_view(&self) -> Option<Seq<u8>> {
        match self.source {
            Some(ref v) => Some(v@),
            None => None,
        }
    }

    pub closed spec fn target_view(&self) -> Option<Seq<u8>> {
        match self.target {
            Some(ref v) => Some(v@),
            None => None,
        }
    }

    /// Create a new builder for an IPS patch.
    pub fn new() -> (r: Self)
        ensures
            r.source_view() is None,
            r.target_view() is None,
    {
        Self { source: None, target: None }
    }

    /// Set the source buffer for the patch.
    pub fn source(self, source: Vec<u8>) -> (r: Self)
        ensures
            r.source_view() == Some(source@),
            r.target_view() == self.target_view(),
    {
        Self { source: Some(source), ..self }
    }

    /// Set the target buffer for the patch.
    pub fn target(self, target: Vec<u8>) -> (r: Self)
        ensures
            r.target_view() == Some(target@),
            r.source_view() == self.source_view(),
    {
        Self { target: Some(target), ..self }
    }

    /// Build an IPS patch from `source` to `target`.
    ///
    /// Without both buffers this returns `Canceled`; equal buffers are
    /// `Identical`, and buffers past the 16 MiB format bound `OutOfMem`.
    #[verifier::loop_isolation(false)]
    #[verifier::rlimit(100)]
    pub fn build(&mut self) -> (r: crate::Result<IpsPatch>)
        ensures
            ({
                let spec_r = ips_build_spec(old(self).source_view(), old(self).target_view());
                match r {
                    Ok(patch) => spec_r == Ok::<Seq<u8>, Error>(patch@),
                    Err(e) => spec_r == Err::<Seq<u8>, Error>(e),
                }
            }),
            r == Err::<IpsPatch, Error>(Error::Canceled) ==> *final(self) == *old(self),
    {
        if self.source.is_none() || self.target.is_none() {
            return Err(Error::Canceled);
        }
        let s_vec: Vec<u8> = self.source.take().unwrap();
        let t_vec: Vec<u8> = self.target.take().unwrap();
        let s: &[u8] = s_vec.as_slice();
        let t: &[u8] = t_vec.as_slice();
        if crate::bps_create::bytes_eq(s, t) {
            return Err(Error::Identical);
        }
        if s.len() > 0x1000000 || t.len() > 0x1000000 {
            return Err(Error::OutOfMem);
        }
        let hunks_bytes: Vec<u8> = ips_emit_hunks(s, t);
        let mut out: Vec<u8> = Vec::new();
        out.push(0x50);
        out.push(0x41);
        out.push(0x54);
        out.push(0x43);
        out.push(0x48);
        let ghost magic = seq![0x50u8, 0x41u8, 0x54u8, 0x43u8, 0x48u8];
        out.extend_from_slice(hunks_bytes.as_slice());
        proof {
            assert(out@ =~= magic + ips_hunks_bytes(ips_chunks(s@, t@, 0)));
        }
        out.push(0x45);
        out.push(0x4F);
        out.push(0x46);
        if t.len() < s.len() {
            write_be24(&mut out, t.len() as u32);
            proof {
                assert(out@ =~= magic + ips_hunks_bytes(ips_chunks(s@, t@, 0)) + seq![
                    0x45u8,
                    0x4Fu8,
                    0x46u8,
                ] + be24_bytes(t@.len()));
            }
        } else {
            proof {
                assert(out@ =~= magic + ips_hunks_bytes(ips_chunks(s@, t@, 0)) + seq![
                    0x45u8,
                    0x4Fu8,
                    0x46u8,
                ] + Seq::<u8>::empty());
            }
        }
        Ok(IpsPatch::new(out))
    }
}


/// A hunk the wire format can carry: a positive length within the 16-bit
/// limit, a 24-bit offset, and never the forbidden "EOF" offset.
pub open spec fn ips_wf_hunk(h: (nat, Seq<u8>)) -> bool {
    1 <= h.1.len() <= 0xFFFF && h.0 < 0x1000000 && h.0 != 0x454F46
}

/// The state after applying a hunk list in order.
pub open spec fn ips_run_chunks(st: IpsState, l: Seq<(nat, Seq<u8>)>) -> IpsState
    decreases l.len(),
{
    if l.len() == 0 {
        st
    } else {
        ips_run_chunks(ips_step(st, l[0].0, l[0].1), l.drop_first())
    }
}

proof fn lemma_be24_roundtrip(p: Seq<u8>, i: int, v: nat)
    requires
        0 <= i,
        i + 3 <= p.len(),
        v < 0x1000000,
        p.subrange(i, i + 3) == be24_bytes(v),
    ensures
        be24(p, i) == v,
{
    assert(p[i] == be24_bytes(v)[0]);
    assert(p[i + 1] == be24_bytes(v)[1]);
    assert(p[i + 2] == be24_bytes(v)[2]);
    assert(v / 0x10000 < 0x100) by (nonlinear_arith)
        requires
            v < 0x1000000,
    ;
    assert((v / 0x10000) * 0x10000 + ((v / 0x100) % 0x100) * 0x100 + v % 0x100 == v)
        by (nonlinear_arith)
        requires
            v < 0x1000000,
    ;
}

proof fn lemma_be16_roundtrip(p: Seq<u8>, i: int, v: nat)
    requires
        0 <= i,
        i + 2 <= p.len(),
        v < 0x10000,
        p.subrange(i, i + 2) == be16_bytes(v),
    ensures
        be16(p, i) == v,
{
    assert(p[i] == be16_bytes(v)[0]);
    assert(p[i + 1] == be16_bytes(v)[1]);
    assert((v / 0x100) * 0x100 + v % 0x100 == v) by (nonlinear_arith)
        requires
            v < 0x10000,
    ;
}

/// One well-formed hunk, encoded at position `i`, makes the interpreter take
/// exactly one step.
#[verifier::rlimit(100)]
proof fn lemma_ips_parse_step(p: Seq<u8>, i: int, st: IpsState, h: (nat, Seq<u8>))
    requires
        ips_wf_hunk(h),
        0 <= i,
        i + ips_hunk_bytes(h).len() <= p.len(),
        p.subrange(i, i + ips_hunk_bytes(h).len() as int) == ips_hunk_bytes(h),
    ensures
        ips_hunks(p, i, st) == ips_hunks(
            p,
            i + ips_hunk_bytes(h).len() as int,
            ips_step(st, h.0, h.1),
        ),
{
    let a = h.0;
    let d = h.1;
    let hb = ips_hunk_bytes(h);
    if d.len() >= 4 && (forall|k: int| 0 <= k < d.len() ==> #[trigger] d[k] == d[0]) {
        assert(hb == ((be24_bytes(a) + seq![0u8, 0u8]) + be16_bytes(d.len())) + seq![d[0]]);
        assert(hb.len() == 8);
        crate::bps_create::lemma_subrange_concat(
            p,
            i,
            (be24_bytes(a) + seq![0u8, 0u8]) + be16_bytes(d.len()),
            seq![d[0]],
        );
        crate::bps_create::lemma_subrange_concat(
            p,
            i,
            be24_bytes(a) + seq![0u8, 0u8],
            be16_bytes(d.len()),
        );
        crate::bps_create::lemma_subrange_concat(p, i, be24_bytes(a), seq![0u8, 0u8]);
        lemma_be24_roundtrip(p, i, a);
        assert(p.subrange(i + 3, i + 5)[0] == 0 && p.subrange(i + 3, i + 5)[1] == 0);
        assert(p[i + 3] == 0 && p[i + 4] == 0);
        assert(be16(p, i + 3) == 0);
        lemma_be16_roundtrip(p, i + 5, d.len());
        assert(p.subrange(i + 7, i + 8)[0] == d[0]);
        assert(p[i + 7] == d[0]);
        assert(Seq::new(d.len(), |k: int| p[i + 7]) =~= d);
        assert(ips_hunks(p, i, st) == ips_hunks(p, i + 8, ips_step(st, a, d)));
    } else {
        assert(hb == (be24_bytes(a) + be16_bytes(d.len())) + d);
        assert(hb.len() == 5 + d.len());
        crate::bps_create::lemma_subrange_concat(
            p,
            i,
            be24_bytes(a) + be16_bytes(d.len()),
            d,
        );
        crate::bps_create::lemma_subrange_concat(p, i, be24_bytes(a), be16_bytes(d.len()));
        lemma_be24_roundtrip(p, i, a);
        lemma_be16_roundtrip(p, i + 3, d.len());
        assert(be16(p, i + 3) > 0);
        assert(ips_hunks(p, i, st) == ips_hunks(p, i + 5 + d.len(), ips_step(st, a, d)));
    }
}

/// The interpreter, fed the bytes of a well-formed hunk list, folds the list
/// over its state.
proof fn lemma_ips_parse_chunks(p: Seq<u8>, i: int, st: IpsState, l: Seq<(nat, Seq<u8>)>)
    requires
        0 <= i,
        i + ips_hunks_bytes(l).len() <= p.len(),
        p.subrange(i, i + ips_hunks_bytes(l).len() as int) == ips_hunks_bytes(l),
        forall|k: int| 0 <= k < l.len() ==> ips_wf_hunk(#[trigger] l[k]),
    ensures
        ips_hunks(p, i, st) == ips_hunks(
            p,
            i + ips_hunks_bytes(l).len() as int,
            ips_run_chunks(st, l),
        ),
    decreases l.len(),
{
    if l.len() > 0 {
        let h = l[0];
        let rest = l.drop_first();
        assert(ips_hunks_bytes(l) == ips_hunk_bytes(h) + ips_hunks_bytes(rest));
        crate::bps_create::lemma_subrange_concat(
            p,
            i,
            ips_hunk_bytes(h),
            ips_hunks_bytes(rest),
        );
        lemma_ips_parse_step(p, i, st, h);
        assert(forall|k: int| 0 <= k < rest.len() ==> ips_wf_hunk(#[trigger] rest[k])) by {
            assert(forall|k: int| 0 <= k < rest.len() ==> rest[k] == l[k + 1]);
        }
        lemma_ips_parse_chunks(
            p,
            i + ips_hunk_bytes(h).len(),
            ips_step(st, h.0, h.1),
            rest,
        );
    }
}


/// What the output buffer holds while creation has rewritten everything
/// before position `i`: the target there, the source (or nothing) beyond.
pub open spec fn ips_mix(s: Seq<u8>, t: Seq<u8>, i: int, k: int) -> u8 {
    if k < i && k < t.len() {
        t[k]
    } else if 0 <= k < s.len() {
        s[k]
    } else {
        0
    }
}

/// Folding the creator's hunk list from position `i` over a state that has
/// everything before `i` rewritten yields the fully rewritten buffer, keeps
/// the hunks well formed and in order, and flags the heuristics truthfully.
#[verifier::rlimit(100)]
proof fn lemma_ips_chunks_fold(s: Seq<u8>, t: Seq<u8>, i: int, st: IpsState)
    requires
        t.len() <= 0x1000000,
        0 <= i <= t.len(),
        st.src_len == s.len(),
        st.buf.len() == (if st.extent > s.len() {
            st.extent
        } else {
            s.len()
        }),
        forall|k: int| 0 <= k < st.buf.len() ==> #[trigger] st.buf[k] == ips_mix(s, t, i, k),
        st.extent <= i,
        st.last_end <= i,
        !st.scrambled,
        ips_needs(s, t, i) && st.last_end == i ==> i != 0x454F46,
        s.len() < i ==> st.extent >= i,
    ensures
        ({
            let l = ips_chunks(s, t, i);
            let fin = ips_run_chunks(st, l);
            &&& forall|k: int| 0 <= k < l.len() ==> ips_wf_hunk(#[trigger] l[k])
            &&& fin.src_len == s.len()
            &&& fin.buf.len() == (if fin.extent > s.len() {
                fin.extent
            } else {
                s.len()
            })
            &&& forall|k: int|
                0 <= k < fin.buf.len() ==> #[trigger] fin.buf[k] == ips_mix(
                    s,
                    t,
                    t.len() as int,
                    k,
                )
            &&& fin.extent <= t.len()
            &&& st.extent <= fin.extent
            &&& !fin.scrambled
            &&& (st.any_match ==> fin.any_match)
            &&& (!st.all_unchanged ==> !fin.all_unchanged)
            &&& forall|w: int|
                i <= w < t.len() && #[trigger] ips_needs(s, t, w) ==> fin.extent > w
            &&& ((exists|w: int|
                i <= w < s.len() && w < t.len() && s[w] != t[w]) ==> (fin.any_match
                && !fin.all_unchanged))
        }),
    decreases t.len() - i,
{
    lemma_ips_skip_char(s, t, i);
    let j = ips_skip(s, t, i);
    let l = ips_chunks(s, t, i);
    if j >= t.len() {
        assert(l =~= Seq::<(nat, Seq<u8>)>::empty());
        assert(ips_run_chunks(st, l) == st);
        assert forall|k: int|
            0 <= k < st.buf.len() implies #[trigger] st.buf[k] == ips_mix(
            s,
            t,
            t.len() as int,
            k,
        ) by {
            if i <= k < t.len() {
                assert(!ips_needs(s, t, k));
            }
        }
        assert forall|w: int|
            i <= w < t.len() && #[trigger] ips_needs(s, t, w) implies st.extent > w by {
            assert(!ips_needs(s, t, w));
        }
        if exists|w: int| i <= w < s.len() && w < t.len() && s[w] != t[w] {
            let w = choose|w: int| i <= w < s.len() && w < t.len() && s[w] != t[w];
            assert(ips_needs(s, t, w));
            assert(false);
        }
    } else {
        lemma_ips_run_end_char(s, t, j);
        let e = ips_run_end(s, t, j);
        let a: int = if j == 0x454F46 {
            j - 1
        } else {
            j
        };
        let c0: int = if e - a > 0xFFFF {
            0xFFFF
        } else {
            e - a
        };
        let c: int = if a + c0 == 0x454F46 && a + c0 < e {
            c0 - 1
        } else {
            c0
        };
        let d = t.subrange(a, a + c);
        let h = ((a as nat), d);
        let st1 = ips_step(st, a as nat, d);
        let rest = ips_chunks(s, t, a + c);
        assert(l == seq![h] + rest);
        // the chunk makes progress and stays inside the target
        assert(ips_needs(s, t, j));
        assert(j < e <= t.len());
        if j == 0x454F46 {
            if i == j {
                assert(ips_needs(s, t, i));
                assert(st.last_end < i);
            } else {
                assert(!ips_needs(s, t, j - 1));
            }
        }
        assert(i - 1 <= a && a < e);
        assert(1 <= c && c <= 0xFFFF);
        assert(a + c <= e);
        assert(i < a + c);
        // the new hunk starts at or after the previous end
        assert(st.last_end <= a);
        // the buffer grows without any zero-filled gap
        let old_len = st.buf.len() as int;
        assert(a <= old_len) by {
            if old_len < a {
                assert(old_len >= i);
                assert(old_len >= s.len());
                assert(old_len < t.len());
                assert(ips_needs(s, t, old_len));
                assert(!ips_needs(s, t, old_len));
            }
        }
        // the state after this hunk satisfies the invariants at its end
        assert(st1.buf.len() == (if st1.extent > s.len() {
            st1.extent
        } else {
            s.len()
        }));
        assert forall|k: int|
            0 <= k < st1.buf.len() implies #[trigger] st1.buf[k] == ips_mix(
            s,
            t,
            a + c,
            k,
        ) by {
            if a <= k < a + c {
                assert(st1.buf[k] == d[k - a]);
            } else if k < old_len {
                assert(st1.buf[k] == ips_at(st.buf, k));
                assert(st.buf[k] == ips_mix(s, t, i, k));
                if i <= k < a {
                    assert(!ips_needs(s, t, k));
                }
            } else {
                assert(k >= a + c);
            }
        }
        if ips_needs(s, t, a + c) && st1.last_end == a + c {
            assert(a + c != 0x454F46) by {
                if a + c == 0x454F46 {
                    assert(!(a + c0 < e) || c == c0 - 1);
                    if c == c0 {
                        assert(a + c == e);
                        assert(!ips_needs(s, t, e));
                    }
                }
            }
        }
        lemma_ips_chunks_fold(s, t, a + c, st1);
        let fin = ips_run_chunks(st1, rest);
        assert(l[0] == h);
        assert(l.drop_first() =~= rest);
        assert(ips_run_chunks(st, l) == fin);
        assert(ips_wf_hunk(h));
        assert forall|k: int| 0 <= k < l.len() implies ips_wf_hunk(#[trigger] l[k]) by {
            if k > 0 {
                assert(l[k] == rest[k - 1]);
            }
        }
        assert forall|w: int|
            i <= w < t.len() && #[trigger] ips_needs(s, t, w) implies fin.extent > w by {
            if w < a + c {
                assert(fin.extent >= st1.extent);
                assert(st1.extent >= a + c);
            }
        }
        if exists|w: int| i <= w < s.len() && w < t.len() && s[w] != t[w] {
            let w = choose|w: int| i <= w < s.len() && w < t.len() && s[w] != t[w];
            assert(ips_needs(s, t, w));
            if w < a + c {
                assert(a <= w) by {
                    if w < a {
                        assert(w < j);
                        assert(!ips_needs(s, t, w));
                    }
                }
                assert(st1.any_match) by {
                    assert(a <= w < s.len());
                }
                assert(!st1.all_unchanged) by {
                    assert(st.buf[w] == ips_mix(s, t, i, w));
                    assert(st.buf[w] == s[w]);
                    assert(d[w - a] == t[w]);
                    assert(ips_at(st.buf, a + (w - a)) == s[w]);
                    assert(!ips_region_unchanged(st.buf, a as nat, d));
                }
            } else {
                assert(exists|w2: int|
                    a + c <= w2 < s.len() && w2 < t.len() && s[w2] != t[w2]);
            }
        }
    }
}


/// Round-trip, apply after create: an IPS patch built from `s` to `t`
/// rebuilds `t` from `s`. The pair must differ somewhere within the source
/// extent: a pair that only appends bytes can trip the best-effort
/// heuristics of application.
#[verifier::rlimit(100)]
pub proof fn lemma_ips_round_trip(s: Seq<u8>, t: Seq<u8>)
    requires
        s.len() <= 0x1000000,
        t.len() <= 0x1000000,
        exists|w: int| 0 <= w < s.len() && w < t.len() && s[w] != t[w],
    ensures
        ips_create_spec(s, t) is Ok,
        ips_apply_spec(ips_create_spec(s, t)->Ok_0, s) == Ok::<Seq<u8>, Error>(t),
{
    let w0 = choose|w: int| 0 <= w < s.len() && w < t.len() && s[w] != t[w];
    assert(s != t) by {
        if s == t {
            assert(s[w0] == t[w0]);
        }
    }
    let chunks = ips_chunks(s, t, 0);
    let hb = ips_hunks_bytes(chunks);
    let magic = seq![0x50u8, 0x41u8, 0x54u8, 0x43u8, 0x48u8];
    let eof = seq![0x45u8, 0x4Fu8, 0x46u8];
    let tr: Seq<u8> = if t.len() < s.len() {
        be24_bytes(t.len())
    } else {
        Seq::empty()
    };
    let p = magic + hb + eof + tr;
    assert(ips_create_spec(s, t) == Ok::<Seq<u8>, Error>(p));
    let st0 = ips_init(s);
    assert forall|k: int| 0 <= k < st0.buf.len() implies #[trigger] st0.buf[k] == ips_mix(
        s,
        t,
        0,
        k,
    ) by {}
    lemma_ips_chunks_fold(s, t, 0, st0);
    let fin = ips_run_chunks(st0, chunks);
    assert(p.subrange(0, p.len() as int) =~= ((magic + hb) + eof) + tr);
    crate::bps_create::lemma_subrange_concat(p, 0, (magic + hb) + eof, tr);
    crate::bps_create::lemma_subrange_concat(p, 0, magic + hb, eof);
    crate::bps_create::lemma_subrange_concat(p, 0, magic, hb);
    assert(p.subrange(0, 5)[0] == 0x50 && p.subrange(0, 5)[1] == 0x41 && p.subrange(0, 5)[2]
        == 0x54 && p.subrange(0, 5)[3] == 0x43 && p.subrange(0, 5)[4] == 0x48);
    assert(p[0] == 0x50 && p[1] == 0x41 && p[2] == 0x54 && p[3] == 0x43 && p[4] == 0x48);
    assert(p.len() >= 8);
    lemma_ips_parse_chunks(p, 5, st0, chunks);
    let q = 5 + hb.len() as int;
    assert(p.subrange(q, q + 3) == eof);
    assert(p.subrange(q, q + 3)[0] == 0x45 && p.subrange(q, q + 3)[1] == 0x4F && p.subrange(
        q,
        q + 3,
    )[2] == 0x46);
    assert(p[q] == 0x45 && p[q + 1] == 0x4F && p[q + 2] == 0x46);
    assert(be24(p, q) == 0x454F46);
    let parsed = ips_hunks(p, 5, st0);
    if t.len() < s.len() {
        assert(p.len() - q == 6);
        assert(p.subrange(q + 3, q + 6) == tr);
        lemma_be24_roundtrip(p, q + 3, t.len());
        assert(parsed == Some((fin, Some(t.len()))));
    } else {
        assert(q + 3 == p.len());
        assert(parsed == Some((fin, None::<nat>)));
    }
    // the heuristics cannot fire: the witness pins both flags
    assert(fin.any_match && !fin.all_unchanged);
    assert(!fin.scrambled);
    // the rewritten buffer is the target
    if t.len() < s.len() {
        assert(fin.buf.len() >= s.len());
        let out = fin.buf.take(t.len() as int);
        assert(out =~= t);
        assert(ips_apply_spec(p, s) == Ok::<Seq<u8>, Error>(out));
    } else {
        assert(fin.buf.len() == t.len()) by {
            if t.len() > s.len() {
                assert(ips_needs(s, t, t.len() - 1));
                assert(fin.extent > t.len() - 1);
                assert(fin.extent == t.len());
            }
        }
        assert(fin.buf =~= t);
        assert(ips_apply_spec(p, s) == Ok::<Seq<u8>, Error>(fin.buf));
    }
}

} // verus!