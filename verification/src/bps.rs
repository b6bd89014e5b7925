//! The BPS codec: the apply engine.
//!
//! A BPS patch carries a header with the declared source, target and
//! metadata sizes, a stream of four kinds of actions that build the output,
//! and three trailing CRC-32 values. The interpreter runs the actions until
//! the output reaches the declared target size and then checks the CRCs.

use vstd::prelude::*;
use vstd::pervasive::VecAdditionalExecFns;

use crate::Error;
use crate::FlipsMemory;
use crate::crc::crc32;
use crate::crc::crc32_of;
use crate::wire::decode_vli;
use crate::wire::le32;
use crate::wire::lemma_vli_decode_bounds;
use crate::wire::read_le32;
use crate::wire::vli_decode;

verus! {

/// Append `len` bytes to `out`, each read at the moving cursor `tc` of the
/// buffer as grown so far: a later byte of one action can read an earlier
/// byte of the same action.
pub open spec fn bps_self_copy(out: Seq<u8>, tc: int, len: nat) -> Seq<u8>
    recommends
        0 <= tc < out.len(),
    decreases len,
{
    if len == 0 {
        out
    } else {
        bps_self_copy(out.push(out[tc]), tc + 1, (len - 1) as nat)
    }
}

pub proof fn lemma_bps_self_copy_len(out: Seq<u8>, tc: int, len: nat)
    ensures
        bps_self_copy(out, tc, len).len() == out.len() + len,
    decreases len,
{
    if len != 0 {
        lemma_bps_self_copy_len(out.push(out[tc]), tc + 1, (len - 1) as nat);
    }
}

/// Run the action stream of a BPS patch from position `i` until the output
/// holds `tsz` bytes. `sc` and `tc` are the source and target copy cursors.
/// `None` when an action is malformed, reads out of bounds, or overshoots
/// the target size. On success: the output and the position after the last
/// action.
pub open spec fn bps_actions(
    p: Seq<u8>,
    i: int,
    stop: int,
    src: Seq<u8>,
    out: Seq<u8>,
    sc: int,
    tc: int,
    tsz: nat,
) -> Option<(Seq<u8>, int)>
    decreases tsz - out.len(),
        when out.len() <= tsz && stop <= p.len()
        via bps_actions_decreases
{
    if out.len() == tsz {
        Some((out, i))
    } else {
        match vli_decode(p, i) {
            None => None,
            Some(av) => {
                if av.1 > stop {
                    None
                } else if av.0 > usize::MAX {
                    None
                } else {
                    let len = (av.0 / 4 + 1) as nat;
                    let op = av.0 % 4;
                    if out.len() + len > tsz {
                        None
                    } else if op == 0 {
                        if out.len() + len <= src.len() {
                            bps_actions(
                                p,
                                av.1,
                                stop,
                                src,
                                out + src.subrange(out.len() as int, out.len() + len as int),
                                sc,
                                tc,
                                tsz,
                            )
                        } else {
                            None
                        }
                    } else if op == 1 {
                        if 0 <= av.1 && av.1 + len <= stop {
                            bps_actions(
                                p,
                                av.1 + len,
                                stop,
                                src,
                                out + p.subrange(av.1, av.1 + len as int),
                                sc,
                                tc,
                                tsz,
                            )
                        } else {
                            None
                        }
                    } else {
                        match vli_decode(p, av.1) {
                            None => None,
                            Some(rv) => {
                                if rv.1 > stop {
                                    None
                                } else if rv.0 > usize::MAX {
                                    None
                                } else if rv.0 % 2 == 1 && rv.0 / 2 == 0 {
                                    None
                                } else {
                                    let delta: int = if rv.0 % 2 == 1 {
                                        -((rv.0 / 2) as int)
                                    } else {
                                        (rv.0 / 2) as int
                                    };
                                    if op == 2 {
                                        let sc1 = sc + delta;
                                        if 0 <= sc1 && sc1 + len <= src.len() {
                                            bps_actions(
                                                p,
                                                rv.1,
                                                stop,
                                                src,
                                                out + src.subrange(sc1, sc1 + len as int),
                                                sc1 + len,
                                                tc,
                                                tsz,
                                            )
                                        } else {
                                            None
                                        }
                                    } else {
                                        let tc1 = tc + delta;
                                        if 0 <= tc1 < out.len() {
                                            bps_actions(
                                                p,
                                                rv.1,
                                                stop,
                                                src,
                                                bps_self_copy(out, tc1, len),
                                                sc,
                                                tc1 + len,
                                                tsz,
                                            )
                                        } else {
                                            None
                                        }
                                    }
                                }
                            },
                        }
                    }
                }
            },
        }
    }
}

#[via_fn]
proof fn bps_actions_decreases(
    p: Seq<u8>,
    i: int,
    stop: int,
    src: Seq<u8>,
    out: Seq<u8>,
    sc: int,
    tc: int,
    tsz: nat,
) {
    if out.len() != tsz {
        match vli_decode(p, i) {
            None => {},
            Some(av) => {
                let len = (av.0 / 4 + 1) as nat;
                let op = av.0 % 4;
                if op == 3 {
                    match vli_decode(p, av.1) {
                        None => {},
                        Some(rv) => {
                            let delta: int = if rv.0 % 2 == 1 {
                                -((rv.0 / 2) as int)
                            } else {
                                (rv.0 / 2) as int
                            };
                            let tc1 = tc + delta;
                            if 0 <= tc1 < out.len() {
                                lemma_bps_self_copy_len(out, tc1, len);
                            }
                        },
                    }
                }
            },
        }
    }
}

/// What applying the BPS patch `p` to the buffer `s` returns: the output and
/// the metadata carried by the patch.
///
/// The patch must parse: magic, three size VLIs, metadata, an action stream
/// that fills exactly the declared target size and ends exactly at the
/// twelve-byte CRC trailer, whose patch CRC covers all but its own four
/// bytes; any violation is `Invalid`, a size beyond the host `TooBig`. An
/// input whose CRC matches the declared target CRC is `ToOutput` (the patch
/// was already applied); one matching neither declared CRC is `NotThis`.
/// The output's CRC must match the declared target CRC, else `Invalid`.
pub open spec fn bps_apply_spec(p: Seq<u8>, s: Seq<u8>) -> core::result::Result<
    (Seq<u8>, Seq<u8>),
    Error,
> {
    if p.len() < 4 || p[0] != 0x42 || p[1] != 0x50 || p[2] != 0x53 || p[3] != 0x31 {
        Err(Error::Invalid)
    } else {
        match vli_decode(p, 4) {
            None => Err(Error::Invalid),
            Some(sv) => {
                if sv.0 > usize::MAX {
                    Err(Error::TooBig)
                } else {
                    match vli_decode(p, sv.1) {
                        None => Err(Error::Invalid),
                        Some(tv) => {
                            if tv.0 > usize::MAX {
                                Err(Error::TooBig)
                            } else {
                                match vli_decode(p, tv.1) {
                                    None => Err(Error::Invalid),
                                    Some(mv) => {
                                        if mv.0 > usize::MAX {
                                            Err(Error::TooBig)
                                        } else {
                                            bps_apply_body(p, s, tv.0, mv.0, mv.1)
                                        }
                                    },
                                }
                            }
                        },
                    }
                }
            },
        }
    }
}

/// The rest of `bps_apply_spec` once the header sizes have been read.
pub open spec fn bps_apply_body(p: Seq<u8>, s: Seq<u8>, tsz: nat, msz: nat, i3: int)
    -> core::result::Result<(Seq<u8>, Seq<u8>), Error> {
    if i3 + msz + 12 > p.len() {
        Err(Error::Invalid)
    } else {
        let meta = p.subrange(i3, i3 + msz);
        let start = i3 + msz;
        let stop = p.len() - 12;
        let src_crc = le32(p, stop);
        let tgt_crc = le32(p, stop + 4);
        let pat_crc = le32(p, p.len() - 4);
        if crc32_of(p.take(p.len() - 4)) != pat_crc {
            Err(Error::Invalid)
        } else if crc32_of(s) == src_crc {
            match bps_actions(p, start, stop, s, Seq::empty(), 0, 0, tsz) {
                None => Err(Error::Invalid),
                Some(r) => {
                    if r.1 != stop {
                        Err(Error::Invalid)
                    } else if crc32_of(r.0) == tgt_crc {
                        Ok((r.0, meta))
                    } else {
                        Err(Error::Invalid)
                    }
                },
            }
        } else if crc32_of(s) == tgt_crc {
            Err(Error::ToOutput)
        } else {
            Err(Error::NotThis)
        }
    }
}

/// Run the action stream of a parsed patch; on success, the output built
/// and the position just after the last action.
#[verifier::loop_isolation(false)]
#[verifier::rlimit(100)]
fn run_actions(p: &[u8], start: usize, stop: usize, source: &[u8], tsz: usize) -> (r:
    crate::Result<(Vec<u8>, usize)>)
    requires
        start <= stop <= p@.len(),
    ensures
        match r {
            Ok(o) => bps_actions(
                p@,
                start as int,
                stop as int,
                source@,
                Seq::empty(),
                0,
                0,
                tsz as nat,
            ) == Some((o.0@, o.1 as int)),
            Err(e) => e == Error::Invalid && bps_actions(
                p@,
                start as int,
                stop as int,
                source@,
                Seq::empty(),
                0,
                0,
                tsz as nat,
            ) is None,
        },
{
    let slen: usize = source.len();
    let mut out: Vec<u8> = Vec::new();
    let mut i: usize = start;
    let mut sc: usize = 0;
    let mut tc: usize = 0;
    let ghost whole = bps_actions(
        p@,
        start as int,
        stop as int,
        source@,
        Seq::empty(),
        0,
        0,
        tsz as nat,
    );
    while out.len() < tsz
        invariant
            start <= i <= stop <= p@.len(),
            out@.len() <= tsz,
            sc <= source@.len(),
            tc <= out@.len(),
            whole == bps_actions(
                p@,
                i as int,
                stop as int,
                source@,
                out@,
                sc as int,
                tc as int,
                tsz as nat,
            ),
        decreases tsz - out@.len(),
    {
        let ghost i_entry = i as int;
        let ghost out_entry = out@;
        let (av, j) = match decode_vli(p, i) {
            Ok(x) => x,
            Err(e) => {
                proof {
                    assert(whole is None);
                }
                return Err(Error::Invalid);
            },
        };
        if j > stop {
            proof {
                assert(whole is None);
            }
            return Err(Error::Invalid);
        }
        if av > usize::MAX as u64 {
            proof {
                assert(whole is None);
            }
            return Err(Error::Invalid);
        }
        let len64: u64 = av / 4 + 1;
        let op: u64 = av % 4;
        let grown: u64 = match (out.len() as u64).checked_add(len64) {
            Some(x) => x,
            None => {
                proof {
                    assert(out_entry.len() + (av as nat / 4 + 1) > tsz);
                    assert(whole is None);
                }
                return Err(Error::Invalid);
            },
        };
        if grown > tsz as u64 {
            proof {
                assert(whole is None);
            }
            return Err(Error::Invalid);
        }
        let len: usize = len64 as usize;
        if op == 0 {
            if out.len() + len <= source.len() {
                let piece: &[u8] = vstd::slice::slice_subrange(
                    source,
                    out.len(),
                    out.len() + len,
                );
                out.extend_from_slice(piece);
                i = j;
                proof {
                    assert(out@ == out_entry + source@.subrange(
                        out_entry.len() as int,
                        out_entry.len() + len as int,
                    ));
                    assert(whole == bps_actions(
                        p@,
                        i as int,
                        stop as int,
                        source@,
                        out@,
                        sc as int,
                        tc as int,
                        tsz as nat,
                    ));
                }
            } else {
                proof {
                    assert(whole is None);
                }
                return Err(Error::Invalid);
            }
        } else if op == 1 {
            if len <= stop - j {
                let piece: &[u8] = vstd::slice::slice_subrange(p, j, j + len);
                out.extend_from_slice(piece);
                i = j + len;
                proof {
                    assert(out@ == out_entry + p@.subrange(j as int, j as int + len as int));
                    assert(whole == bps_actions(
                        p@,
                        i as int,
                        stop as int,
                        source@,
                        out@,
                        sc as int,
                        tc as int,
                        tsz as nat,
                    ));
                }
            } else {
                proof {
                    assert(j as int + len as int > stop as int);
                    assert(whole is None);
                }
                return Err(Error::Invalid);
            }
        } else {
            let (rv, j2) = match decode_vli(p, j) {
                Ok(x) => x,
                Err(e) => {
                    proof {
                        assert(whole is None);
                    }
                    return Err(Error::Invalid);
                },
            };
            if j2 > stop {
                proof {
                    assert(whole is None);
                }
                return Err(Error::Invalid);
            }
            if rv > usize::MAX as u64 {
                proof {
                    assert(whole is None);
                }
                return Err(Error::Invalid);
            }
            let neg: bool = rv % 2 == 1;
            let mag64: u64 = rv / 2;
            if neg && mag64 == 0 {
                proof {
                    assert(whole is None);
                }
                return Err(Error::Invalid);
            }
            if op == 2 {
                let sc1: u64 = if neg {
                    if mag64 > sc as u64 {
                        proof {
                            assert((sc as int) - (mag64 as int) < 0);
                            assert(whole is None);
                        }
                        return Err(Error::Invalid);
                    }
                    sc as u64 - mag64
                } else {
                    match (sc as u64).checked_add(mag64) {
                        Some(x) => x,
                        None => {
                            proof {
                                assert((sc as int) + (mag64 as int) + (len as int)
                                    > source@.len());
                                assert(whole is None);
                            }
                            return Err(Error::Invalid);
                        },
                    }
                };
                let fits: bool = match sc1.checked_add(len as u64) {
                    Some(e) => e <= source.len() as u64,
                    None => false,
                };
                if !fits {
                    proof {
                        assert(whole is None);
                    }
                    return Err(Error::Invalid);
                }
                let sc1: usize = sc1 as usize;
                let piece: &[u8] = vstd::slice::slice_subrange(source, sc1, sc1 + len);
                out.extend_from_slice(piece);
                sc = sc1 + len;
                i = j2;
                proof {
                    assert(out@ == out_entry + source@.subrange(
                        sc1 as int,
                        sc1 as int + len as int,
                    ));
                    assert(whole == bps_actions(
                        p@,
                        i as int,
                        stop as int,
                        source@,
                        out@,
                        sc as int,
                        tc as int,
                        tsz as nat,
                    ));
                }
            } else {
                let tc1: u64 = if neg {
                    if mag64 > tc as u64 {
                        proof {
                            assert((tc as int) - (mag64 as int) < 0);
                            assert(whole is None);
                        }
                        return Err(Error::Invalid);
                    }
                    tc as u64 - mag64
                } else {
                    match (tc as u64).checked_add(mag64) {
                        Some(x) => x,
                        None => {
                            proof {
                                assert((tc as int) + (mag64 as int) >= out@.len());
                                assert(whole is None);
                            }
                            return Err(Error::Invalid);
                        },
                    }
                };
                if tc1 >= out.len() as u64 {
                    proof {
                        assert(whole is None);
                    }
                    return Err(Error::Invalid);
                }
                let mut tcx: usize = tc1 as usize;
                let ghost copied = bps_self_copy(out@, tcx as int, len as nat);
                proof {
                    lemma_bps_self_copy_len(out@, tcx as int, len as nat);
                }
                let mut rem: usize = len;
                while rem > 0
                    invariant
                        rem <= len,
                        tcx == tc1 + (len - rem),
                        out@.len() == out_entry.len() + (len - rem),
                        tcx < out@.len(),
                        copied == bps_self_copy(out@, tcx as int, rem as nat),
                    decreases rem,
                {
                    let b: u8 = out[tcx];
                    out.push(b);
                    tcx = tcx + 1;
                    rem = rem - 1;
                }
                tc = tcx;
                i = j2;
                proof {
                    assert(out@ == copied);
                    assert(whole == bps_actions(
                        p@,
                        i as int,
                        stop as int,
                        source@,
                        out@,
                        sc as int,
                        tc as int,
                        tsz as nat,
                    ));
                }
            }
        }
    }
    proof {
        assert(whole == Some((out@, i as int)));
    }
    Ok((out, i))
}

/// A patch in the BPS format.
#[derive(Clone, Debug, PartialEq)]
pub struct BpsPatch {
    buffer: Vec<u8>,
}

impl View for BpsPatch {
    type V = Seq<u8>;

    closed spec fn view(&self) -> Seq<u8> {
        self.buffer@
    }
}

/// The output created by the application of a BPS patch, together with the
/// metadata the patch carried (empty when the patch has none).
#[derive(Debug)]
pub struct BpsOutput {
    mem: FlipsMemory,
    metadata: FlipsMemory,
}

impl View for BpsOutput {
    type V = Seq<u8>;

    closed spec fn view(&self) -> Seq<u8> {
        self.mem@
    }
}

impl BpsOutput {
    /// The metadata bytes the patch carried.
    pub closed spec fn metadata_view(&self) -> Seq<u8> {
        self.metadata@
    }

    /// View the output as a slice of bytes.
    pub fn as_bytes(&self) -> (r: &[u8])
        ensures
            r@ == self@,
    {
        self.mem.as_bytes()
    }

    /// Copy the output into a fresh buffer.
    pub fn to_bytes(&self) -> (r: Vec<u8>)
        ensures
            r@ == self@,
    {
        self.mem.to_bytes()
    }

    /// The patch's metadata as a slice of bytes; empty when it had none.
    pub fn metadata(&self) -> (r: &[u8])
        ensures
            r@ == self.metadata_view(),
    {
        self.metadata.as_bytes()
    }
}

impl BpsPatch {
    /// Load a new BPS patch from an arbitrary sequence of bytes.
    ///
    /// The patch format is not checked, so this method always succeeds, but
    /// then [`apply`](Self::apply) may fail if the patch cannot be read.
    pub fn new(buffer: Vec<u8>) -> (r: Self)
        ensures
            r@ == buffer@,
    {
        Self { buffer }
    }

    /// View the patch as a slice of bytes.
    pub fn as_bytes(&self) -> (r: &[u8])
        ensures
            r@ == self@,
    {
        self.buffer.as_slice()
    }

    /// Apply the patch to a source.
    #[verifier::loop_isolation(false)]
    #[verifier::rlimit(100)]
    pub fn apply(&self, source: &[u8]) -> (r: crate::Result<BpsOutput>)
        ensures
            match r {
                Ok(o) => bps_apply_spec(self@, source@) == Ok::<(Seq<u8>, Seq<u8>), Error>(
                    (o@, o.metadata_view()),
                ),
                Err(e) => bps_apply_spec(self@, source@) == Err::<(Seq<u8>, Seq<u8>), Error>(e),
            },
    {
        let p: &[u8] = self.buffer.as_slice();
        if p.len() < 4 || p[0] != 0x42 || p[1] != 0x50 || p[2] != 0x53 || p[3] != 0x31 {
            return Err(Error::Invalid);
        }
        let (ssz64, i1) = match decode_vli(p, 4) {
            Ok(x) => x,
            Err(e) => {
                return Err(
                    if matches!(e, Error::Invalid) {
                        Error::Invalid
                    } else {
                        Error::TooBig
                    },
                );
            },
        };
        if ssz64 > usize::MAX as u64 {
            return Err(Error::TooBig);
        }
        let (tsz64, i2) = match decode_vli(p, i1) {
            Ok(x) => x,
            Err(e) => {
                return Err(
                    if matches!(e, Error::Invalid) {
                        Error::Invalid
                    } else {
                        Error::TooBig
                    },
                );
            },
        };
        if tsz64 > usize::MAX as u64 {
            return Err(Error::TooBig);
        }
        let (msz64, i3) = match decode_vli(p, i2) {
            Ok(x) => x,
            Err(e) => {
                return Err(
                    if matches!(e, Error::Invalid) {
                        Error::Invalid
                    } else {
                        Error::TooBig
                    },
                );
            },
        };
        if msz64 > usize::MAX as u64 {
            return Err(Error::TooBig);
        }
        let tsz: usize = tsz64 as usize;
        let msz: usize = msz64 as usize;
        let avail: usize = p.len() - i3;
        if msz > avail || avail - msz < 12 {
            return Err(Error::Invalid);
        }
        let start: usize = i3 + msz;
        let stop: usize = p.len() - 12;
        let meta: Vec<u8> = vstd::slice::slice_to_vec(
            vstd::slice::slice_subrange(p, i3, start),
        );
        let src_crc: u32 = read_le32(p, stop);
        let tgt_crc: u32 = read_le32(p, stop + 4);
        let pat_crc: u32 = read_le32(p, p.len() - 4);
        let body: &[u8] = vstd::slice::slice_subrange(p, 0, p.len() - 4);
        proof {
            assert(p@.subrange(0, p@.len() - 4) =~= p@.take(p@.len() - 4));
        }
        if crc32(body) != pat_crc {
            return Err(Error::Invalid);
        }
        let in_crc: u32 = crc32(source);
        if in_crc != src_crc {
            if in_crc == tgt_crc {
                return Err(Error::ToOutput);
            } else {
                return Err(Error::NotThis);
            }
        }
        let run = run_actions(p, start, stop, source, tsz);
        let (out, endpos) = match run {
            Ok(x) => x,
            Err(_) => {
                return Err(Error::Invalid);
            },
        };
        if endpos != stop {
            return Err(Error::Invalid);
        }

        let out_crc: u32 = crc32(out.as_slice());
        if out_crc != tgt_crc {
            return Err(Error::Invalid);
        }
        Ok(BpsOutput { mem: FlipsMemory::new(out), metadata: FlipsMemory::new(meta) })
    }
}


/// BPS wrong-input enforcement: a source whose CRC matches neither CRC the
/// patch declares is rejected as `NotThis`, whatever its content. The
/// hypotheses compare CRC-32 values: a corruption the checksum cannot see is
/// beyond any integrity check.
pub proof fn lemma_bps_wrong_input(p: Seq<u8>, s: Seq<u8>, t: Seq<u8>, m: Seq<u8>, s2: Seq<u8>)
    requires
        bps_apply_spec(p, s) == Ok::<(Seq<u8>, Seq<u8>), Error>((t, m)),
        crc32_of(s2) != crc32_of(s),
        crc32_of(s2) != crc32_of(t),
    ensures
        bps_apply_spec(p, s2) == Err::<(Seq<u8>, Seq<u8>), Error>(Error::NotThis),
{
    let sv = vli_decode(p, 4)->Some_0;
    let tv = vli_decode(p, sv.1)->Some_0;
    let mv = vli_decode(p, tv.1)->Some_0;
    let i3 = mv.1;
    let msz = mv.0;
    let stop = p.len() - 12;
    let start = i3 + msz;
    assert(crc32_of(s) == le32(p, stop));
    let run = bps_actions(p, start, stop, s, Seq::empty(), 0, 0, tv.0);
    assert(run is Some);
    assert(t == run->Some_0.0);
    assert(crc32_of(t) == le32(p, stop + 4));
}

/// BPS patch-integrity enforcement: changing the declared target CRC (or any
/// bytes outside the header and final CRC field) in a way CRC-32 can see
/// makes the patch `Invalid` before anything is applied.
pub proof fn lemma_bps_patch_flip(p: Seq<u8>, p2: Seq<u8>, s: Seq<u8>, t: Seq<u8>, m: Seq<u8>)
    requires
        bps_apply_spec(p, s) == Ok::<(Seq<u8>, Seq<u8>), Error>((t, m)),
        p2.len() == p.len(),
        forall|k: int| 0 <= k < p.len() - 8 ==> #[trigger] p2[k] == p[k],
        forall|k: int| p.len() - 4 <= k < p.len() ==> #[trigger] p2[k] == p[k],
        crc32_of(p2.take(p2.len() - 4)) != crc32_of(p.take(p.len() - 4)),
    ensures
        bps_apply_spec(p2, s) == Err::<(Seq<u8>, Seq<u8>), Error>(Error::Invalid),
{
    assert(vli_decode(p, 4) is Some);
    let sv = vli_decode(p, 4)->Some_0;
    assert(vli_decode(p, sv.1) is Some);
    let tv = vli_decode(p, sv.1)->Some_0;
    assert(vli_decode(p, tv.1) is Some);
    let mv = vli_decode(p, tv.1)->Some_0;
    let i3 = mv.1;
    let msz = mv.0;
    assert(i3 + msz + 12 <= p.len());
    crate::wire::lemma_vli_decode_bounds(p, 4);
    crate::wire::lemma_vli_decode_bounds(p, sv.1);
    crate::wire::lemma_vli_decode_bounds(p, tv.1);
    crate::wire::lemma_vli_decode_agree(p, p2, 4);
    crate::wire::lemma_vli_decode_agree(p, p2, sv.1);
    crate::wire::lemma_vli_decode_agree(p, p2, tv.1);
    assert(p2[0] == 0x42 && p2[1] == 0x50 && p2[2] == 0x53 && p2[3] == 0x31);
    let stop = p.len() - 12;
    assert(le32(p2, p2.len() - 4) == le32(p, p.len() - 4));
    assert(crc32_of(p.take(p.len() - 4)) == le32(p, p.len() - 4));
    assert(crc32_of(p2.take(p2.len() - 4)) != le32(p2, p2.len() - 4));
}

} // verus!
