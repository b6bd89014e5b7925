//! The BPS delta builder: patch construction over a suffix-array index of
//! source ∥ target. The index only proposes candidate matches; every match
//! taken is re-checked byte by byte, so a weak candidate can only cost patch
//! size, never correctness.

use vstd::prelude::*;

use crate::Error;
use crate::bps::BpsPatch;
use crate::bps::bps_apply_spec;
use crate::bps_create::BpsActionS;
use crate::bps_create::bps_assemble;
use crate::bps_create::bytes_eq;
use crate::bps_create::emit_source_copy;
use crate::bps_create::emit_source_read;
use crate::bps_create::emit_target_copy;
use crate::bps_create::emit_target_read;
use crate::bps_create::enc_actions;
use crate::bps_create::lemma_enc_actions_snoc;
use crate::bps_create::lemma_run_list_snoc;
use crate::bps_create::lemma_self_copy_within;
use crate::bps_create::run_list;
use crate::bps_create::svli_of;
use crate::bps_create::wf_action;
use crate::bps_linear::meta_or_empty;
use crate::suffix::build_symbols;
use crate::suffix::lcp_table;
use crate::suffix::rank_of;
use crate::suffix::suffix_array;

verus! {

/// How far the bytes of `s` from `soff` match the bytes of `t` from `pos`.
fn extend_source(s: &[u8], t: &[u8], soff: usize, pos: usize) -> (len: usize)
    requires
        soff <= s@.len(),
        pos <= t@.len(),
    ensures
        soff + len <= s@.len(),
        pos + len <= t@.len(),
        forall|k: int| 0 <= k < len ==> #[trigger] s@[soff + k] == t@[pos + k],
{
    let slen: usize = s.len();
    let tlen: usize = t.len();
    let mut len: usize = 0;
    let mut done: bool = false;
    while !done
        invariant
            slen == s@.len(),
            tlen == t@.len(),
            soff + len <= s@.len(),
            pos + len <= t@.len(),
            forall|k: int| 0 <= k < len ==> #[trigger] s@[soff + k] == t@[pos + k],
        decreases s@.len() - soff - len + (if done {
            0int
        } else {
            1int
        }),
    {
        if soff + len >= s.len() || pos + len >= t.len() {
            done = true;
        } else if s[soff + len] != t[pos + len] {
            done = true;
        } else {
            len = len + 1;
        }
    }
    len
}

/// How far the bytes of `t` from `toff` match the bytes of `t` from `pos`,
/// stopping before the regions would overlap.
fn extend_target(t: &[u8], toff: usize, pos: usize) -> (len: usize)
    requires
        toff <= pos <= t@.len(),
    ensures
        toff + len <= pos,
        pos + len <= t@.len(),
        forall|k: int| 0 <= k < len ==> #[trigger] t@[toff + k] == t@[pos + k],
{
    let tlen: usize = t.len();
    let mut len: usize = 0;
    let mut done: bool = false;
    while !done
        invariant
            tlen == t@.len(),
            toff + len <= pos,
            pos + len <= t@.len(),
            forall|k: int| 0 <= k < len ==> #[trigger] t@[toff + k] == t@[pos + k],
        decreases pos - toff - len + (if done {
            0int
        } else {
            1int
        }),
    {
        if toff + len >= pos || pos + len >= t.len() {
            done = true;
        } else if t[toff + len] != t[pos + len] {
            done = true;
        } else {
            len = len + 1;
        }
    }
    len
}

/// A candidate copy for target position `pos`: from the source when the
/// first component holds, else from the already-emitted target, checked byte
/// by byte.
fn best_candidate(
    c: &[u16],
    sa: &Vec<usize>,
    rank: &Vec<usize>,
    lcp: &Vec<usize>,
    s: &[u8],
    t: &[u8],
    pos: usize,
    window: usize,
) -> (r: Option<(bool, usize, usize)>)
    requires
        c@.len() == s@.len() + 1 + t@.len(),
        sa@.len() == c@.len(),
        rank@.len() == c@.len(),
        lcp@.len() == c@.len(),
        forall|k: int| 0 <= k < sa@.len() ==> #[trigger] sa@[k] < c@.len(),
        forall|k: int| 0 <= k < rank@.len() ==> #[trigger] rank@[k] < c@.len(),
        pos < t@.len(),
    ensures
        match r {
            Some(m) => {
                &&& m.2 >= 1
                &&& pos + m.2 <= t@.len()
                &&& (m.0 ==> m.1 + m.2 <= s@.len() && forall|k: int|
                    0 <= k < m.2 ==> #[trigger] s@[m.1 + k] == t@[pos + k])
                &&& (!m.0 ==> m.1 + m.2 <= pos && forall|k: int|
                    0 <= k < m.2 ==> #[trigger] t@[m.1 + k] == t@[pos + k])
            },
            None => true,
        },
{
    let slen: usize = s.len();
    let n: usize = c.len();
    let q: usize = slen + 1 + pos;
    let rq: usize = rank[q];
    let mut best_len: usize = 0;
    let mut best_src: bool = false;
    let mut best_off: usize = 0;
    // scan downward through the suffix array
    let mut step: usize = 0;
    let mut bound: usize = usize::MAX;
    while step < window && step < rq
        invariant
            rq < n,
            n == c@.len(),
            slen == s@.len(),
            n == s@.len() + 1 + t@.len(),
            sa@.len() == n,
            lcp@.len() == n,
            forall|k: int| 0 <= k < n ==> #[trigger] sa@[k] < n,
            pos < t@.len(),
            best_len >= 1 ==> ({
                &&& pos + best_len <= t@.len()
                &&& (best_src ==> best_off + best_len <= s@.len() && forall|k: int|
                    0 <= k < best_len ==> #[trigger] s@[best_off + k] == t@[pos + k])
                &&& (!best_src ==> best_off + best_len <= pos && forall|k: int|
                    0 <= k < best_len ==> #[trigger] t@[best_off + k] == t@[pos + k])
            }),
        decreases window - step,
    {
        let k: usize = rq - 1 - step;
        let g: usize = lcp[k + 1];
        bound = if g < bound {
            g
        } else {
            bound
        };
        if bound <= best_len {
            step = window;
        } else {
            let pc: usize = sa[k];
            if pc < slen {
                let len: usize = extend_source(s, t, pc, pos);
                if len > best_len {
                    best_len = len;
                    best_src = true;
                    best_off = pc;
                }
            } else if pc > slen {
                let toff: usize = pc - slen - 1;
                if toff < pos {
                    let len: usize = extend_target(t, toff, pos);
                    if len > best_len {
                        best_len = len;
                        best_src = false;
                        best_off = toff;
                    }
                }
            }
            step = step + 1;
        }
    }
    // scan upward through the suffix array
    let mut step2: usize = 0;
    let mut bound2: usize = usize::MAX;
    while step2 < window && step2 < n - (rq + 1)
        invariant
            rq < n,
            n == c@.len(),
            slen == s@.len(),
            n == s@.len() + 1 + t@.len(),
            sa@.len() == n,
            lcp@.len() == n,
            forall|k: int| 0 <= k < n ==> #[trigger] sa@[k] < n,
            pos < t@.len(),
            best_len >= 1 ==> ({
                &&& pos + best_len <= t@.len()
                &&& (best_src ==> best_off + best_len <= s@.len() && forall|k: int|
                    0 <= k < best_len ==> #[trigger] s@[best_off + k] == t@[pos + k])
                &&& (!best_src ==> best_off + best_len <= pos && forall|k: int|
                    0 <= k < best_len ==> #[trigger] t@[best_off + k] == t@[pos + k])
            }),
        decreases window - step2,
    {
        let k: usize = rq + 1 + step2;
        let g: usize = lcp[k];
        bound2 = if g < bound2 {
            g
        } else {
            bound2
        };
        if bound2 <= best_len {
            step2 = window;
        } else {
            let pc: usize = sa[k];
            if pc < slen {
                let len: usize = extend_source(s, t, pc, pos);
                if len > best_len {
                    best_len = len;
                    best_src = true;
                    best_off = pc;
                }
            } else if pc > slen {
                let toff: usize = pc - slen - 1;
                if toff < pos {
                    let len: usize = extend_target(t, toff, pos);
                    if len > best_len {
                        best_len = len;
                        best_src = false;
                        best_off = toff;
                    }
                }
            }
            step2 = step2 + 1;
        }
    }
    if best_len >= 1 {
        Some((best_src, best_off, best_len))
    } else {
        None
    }
}


/// Why a delta build fails, if it does: `Canceled` without both buffers,
/// `Identical` for equal buffers, `TooBig` past the index bound.
pub open spec fn bps_delta_build_err(src: Option<Seq<u8>>, tgt: Option<Seq<u8>>) -> Option<
    Error,
> {
    match (src, tgt) {
        (Some(s), Some(t)) => {
            if s == t {
                Some(Error::Identical)
            } else if s.len() >= usize::MAX / 8 || t.len() >= usize::MAX / 8 {
                Some(Error::TooBig)
            } else {
                None
            }
        },
        _ => Some(Error::Canceled),
    }
}

/// A builder to create a BPS patch with the suffix-array matcher.
///
/// ```
/// let patch = flips::BpsDeltaBuilder::new()
///     .source(b"some source bytes".to_vec())
///     .target(b"some target bytes".to_vec())
///     .build()
///     .expect("could not create patch");
/// ```
#[derive(Debug)]
pub struct BpsDeltaBuilder {
    source: Option<Vec<u8>>,
    target: Option<Vec<u8>>,
    metadata: Option<Vec<u8>>,
    more_memory: bool,
}

impl BpsDeltaBuilder {
    pub closed spec fn source_view(&self) -> Option<Seq<u8>> {
        match self.source {
            Some(ref v) => Some(v@),
            None => None,
        }
    }

    pub closed spec fn target_view(&self) -> Option<Seq<u8>> {
        match self.target {
            Some(ref v) => Some(v@),
            None => None,
        }
    }

    pub closed spec fn metadata_view(&self) -> Option<Seq<u8>> {
        match self.metadata {
            Some(ref v) => Some(v@),
            None => None,
        }
    }

    pub closed spec fn more_memory_view(&self) -> bool {
        self.more_memory
    }

    /// Create a new builder for a BPS patch.
    pub fn new() -> (r: Self)
        ensures
            r.source_view() is None,
            r.target_view() is None,
            r.metadata_view() is None,
            !r.more_memory_view(),
    {
        Self { source: None, target: None, metadata: None, more_memory: false }
    }

    /// Set the metadata buffer for the patch.
    pub fn metadata(self, buffer: Vec<u8>) -> (r: Self)
        ensures
            r.metadata_view() == Some(buffer@),
            r.source_view() == self.source_view(),
            r.target_view() == self.target_view(),
            r.more_memory_view() == self.more_memory_view(),
    {
        Self { metadata: Some(buffer), ..self }
    }

    /// Set the source buffer for the patch.
    pub fn source(self, source: Vec<u8>) -> (r: Self)
        ensures
            r.source_view() == Some(source@),
            r.target_view() == self.target_view(),
            r.metadata_view() == self.metadata_view(),
            r.more_memory_view() == self.more_memory_view(),
    {
        Self { source: Some(source), ..self }
    }

    /// Set the target buffer for the patch.
    pub fn target(self, target: Vec<u8>) -> (r: Self)
        ensures
            r.target_view() == Some(target@),
            r.source_view() == self.source_view(),
            r.metadata_view() == self.metadata_view(),
            r.more_memory_view() == self.more_memory_view(),
    {
        Self { target: Some(target), ..self }
    }

    /// Let the matcher spend more memory on a wider candidate scan.
    pub fn more_memory(self, flag: bool) -> (r: Self)
        ensures
            r.more_memory_view() == flag,
            r.source_view() == self.source_view(),
            r.target_view() == self.target_view(),
            r.metadata_view() == self.metadata_view(),
    {
        Self { more_memory: flag, ..self }
    }

    /// Build a BPS patch from `source` to `target` with `metadata` if any.
    ///
    /// Without both `source` and `target` this returns `Canceled`. The patch
    /// it returns applies to `source` and rebuilds `target`.
    #[verifier::loop_isolation(false)]
    #[verifier::rlimit(100)]
    pub fn build(&mut self) -> (r: crate::Result<BpsPatch>)
        ensures
            ({
                let err = bps_delta_build_err(old(self).source_view(), old(self).target_view());
                match r {
                    Ok(patch) => err is None && bps_apply_spec(
                        patch@,
                        old(self).source_view()->Some_0,
                    ) == Ok::<(Seq<u8>, Seq<u8>), Error>(
                        (
                            old(self).target_view()->Some_0,
                            meta_or_empty(old(self).metadata_view()),
                        ),
                    ),
                    Err(e) => err == Some(e),
                }
            }),
            r == Err::<BpsPatch, Error>(Error::Canceled) ==> *final(self) == *old(self),
    {
        if self.source.is_none() || self.target.is_none() {
            return Err(Error::Canceled);
        }
        let s_vec: Vec<u8> = self.source.take().unwrap();
        let t_vec: Vec<u8> = self.target.take().unwrap();
        let m_vec: Vec<u8> = match self.metadata.take() {
            Some(m) => m,
            None => Vec::new(),
        };
        let window: usize = if self.more_memory {
            64
        } else {
            32
        };
        let s: &[u8] = s_vec.as_slice();
        let t: &[u8] = t_vec.as_slice();
        if bytes_eq(s, t) {
            return Err(Error::Identical);
        }
        if s.len() >= usize::MAX / 8 || t.len() >= usize::MAX / 8 {
            return Err(Error::TooBig);
        }
        proof {
            assert(2 * (usize::MAX as int / 8) + 1 <= usize::MAX) by (nonlinear_arith);
            assert(4 * (usize::MAX as int / 8) + 3 <= usize::MAX) by (nonlinear_arith);
        }
        let c: Vec<u16> = build_symbols(s, t);
        let sa: Vec<usize> = suffix_array(c.as_slice());
        let rank: Vec<usize> = rank_of(&sa, c.len());
        let lcp: Vec<usize> = lcp_table(c.as_slice(), &sa);
        let mut body: Vec<u8> = Vec::new();
        let ghost mut acts: Seq<BpsActionS> = Seq::empty();
        let ghost st0: (Seq<u8>, int, int) = (Seq::empty(), 0, 0);
        let mut lit: Vec<u8> = Vec::new();
        let mut lit_start: usize = 0;
        let mut pos: usize = 0;
        let mut sc: usize = 0;
        let mut tc: usize = 0;
        proof {
            assert(t@.take(0) =~= Seq::<u8>::empty());
        }
        while pos < t.len()
            invariant
                lit_start <= pos <= t@.len(),
                lit@ == t@.subrange(lit_start as int, pos as int),
                sc <= s@.len(),
                tc <= lit_start,
                body@ == enc_actions(acts),
                forall|k: int| 0 <= k < acts.len() ==> wf_action(#[trigger] acts[k]),
                run_list(s@, acts, st0) == Some(
                    (t@.take(lit_start as int), sc as int, tc as int),
                ),
            decreases t@.len() - pos,
        {
            let mut sr_len: usize = 0;
            if pos <= s.len() {
                sr_len = extend_source(s, t, pos, pos);
            }
            let cand: Option<(bool, usize, usize)> = best_candidate(
                c.as_slice(),
                &sa,
                &rank,
                &lcp,
                s,
                t,
                pos,
                window,
            );
            let cand_len: usize = match cand {
                Some(m) => m.2,
                None => 0,
            };
            let use_sr: bool = sr_len >= 4 && sr_len >= cand_len;
            let use_copy: bool = !use_sr && cand_len >= 6;
            if (use_sr || use_copy) && lit.len() > 0 {
                emit_target_read(&mut body, lit.as_slice());
                proof {
                    let a = BpsActionS::TargetRead { data: lit@ };
                    lemma_enc_actions_snoc(acts, a);
                    lemma_run_list_snoc(s@, acts, st0, a);
                    let prev = acts;
                    acts = acts.push(a);
                    assert(wf_action(a));
                    assert forall|k: int| 0 <= k < acts.len() implies wf_action(
                        #[trigger] acts[k],
                    ) by {
                        if k < prev.len() {
                            assert(acts[k] == prev[k]);
                        }
                    }
                    assert(t@.take(lit_start as int) + lit@ =~= t@.take(pos as int));
                    assert(run_list(s@, acts, st0) == Some(
                        (t@.take(pos as int), sc as int, tc as int),
                    ));
                }
                lit.clear();
                lit_start = pos;
                proof {
                    assert(lit@ =~= t@.subrange(lit_start as int, pos as int));
                }
            }
            if use_sr {
                emit_source_read(&mut body, sr_len);
                proof {
                    let a = BpsActionS::SourceRead { len: sr_len as nat };
                    lemma_enc_actions_snoc(acts, a);
                    lemma_run_list_snoc(s@, acts, st0, a);
                    let prev = acts;
                    acts = acts.push(a);
                    assert(wf_action(a));
                    assert forall|k: int| 0 <= k < acts.len() implies wf_action(
                        #[trigger] acts[k],
                    ) by {
                        if k < prev.len() {
                            assert(acts[k] == prev[k]);
                        }
                    }
                    assert forall|m: int|
                        0 <= m < sr_len implies #[trigger] s@.subrange(
                        pos as int,
                        pos + sr_len as int,
                    )[m] == t@.subrange(pos as int, pos + sr_len as int)[m] by {
                        assert(s@[pos + m] == t@[pos + m]);
                    }
                    assert(s@.subrange(pos as int, pos + sr_len as int) =~= t@.subrange(
                        pos as int,
                        pos + sr_len as int,
                    ));
                    assert(t@.take(pos as int) + t@.subrange(pos as int, pos + sr_len as int)
                        =~= t@.take(pos + sr_len as int));
                    assert(run_list(s@, acts, st0) == Some(
                        (t@.take(pos + sr_len as int), sc as int, tc as int),
                    ));
                }
                pos = pos + sr_len;
                lit_start = pos;
                proof {
                    assert(lit@ =~= t@.subrange(lit_start as int, pos as int));
                }
            } else if use_copy {
                let m: (bool, usize, usize) = match cand {
                    Some(mm) => mm,
                    None => {
                        proof {
                            assert(false);
                        }
                        (false, 0, 0)
                    },
                };
                let mlen: usize = m.2;
                if m.0 {
                    let rel: i64 = m.1 as i64 - sc as i64;
                    proof {
                        assert(svli_of(rel as int) <= usize::MAX);
                    }
                    emit_source_copy(&mut body, mlen, rel);
                    proof {
                        let a = BpsActionS::SourceCopy { len: mlen as nat, rel: rel as int };
                        lemma_enc_actions_snoc(acts, a);
                        lemma_run_list_snoc(s@, acts, st0, a);
                        let prev = acts;
                        acts = acts.push(a);
                        assert(wf_action(a));
                        assert forall|k: int| 0 <= k < acts.len() implies wf_action(
                            #[trigger] acts[k],
                        ) by {
                            if k < prev.len() {
                                assert(acts[k] == prev[k]);
                            }
                        }
                        assert forall|j: int|
                            0 <= j < mlen implies #[trigger] s@.subrange(
                            m.1 as int,
                            m.1 + mlen as int,
                        )[j] == t@.subrange(pos as int, pos + mlen as int)[j] by {
                            assert(s@[m.1 + j] == t@[pos + j]);
                        }
                        assert(s@.subrange(m.1 as int, m.1 + mlen as int) =~= t@.subrange(
                            pos as int,
                            pos + mlen as int,
                        ));
                        assert(t@.take(pos as int) + t@.subrange(pos as int, pos + mlen as int)
                            =~= t@.take(pos + mlen as int));
                        assert(run_list(s@, acts, st0) == Some(
                            (t@.take(pos + mlen as int), m.1 + mlen as int, tc as int),
                        ));
                    }
                    sc = m.1 + mlen;
                } else {
                    let rel: i64 = m.1 as i64 - tc as i64;
                    proof {
                        assert(svli_of(rel as int) <= usize::MAX);
                    }
                    emit_target_copy(&mut body, mlen, rel);
                    proof {
                        let a = BpsActionS::TargetCopy { len: mlen as nat, rel: rel as int };
                        lemma_enc_actions_snoc(acts, a);
                        lemma_run_list_snoc(s@, acts, st0, a);
                        let prev = acts;
                        acts = acts.push(a);
                        assert(wf_action(a));
                        assert forall|k: int| 0 <= k < acts.len() implies wf_action(
                            #[trigger] acts[k],
                        ) by {
                            if k < prev.len() {
                                assert(acts[k] == prev[k]);
                            }
                        }
                        let out = t@.take(pos as int);
                        lemma_self_copy_within(out, m.1 as int, mlen as nat);
                        assert(out.subrange(m.1 as int, m.1 + mlen as int) =~= t@.subrange(
                            m.1 as int,
                            m.1 + mlen as int,
                        ));
                        assert forall|j: int|
                            0 <= j < mlen implies #[trigger] t@.subrange(
                            m.1 as int,
                            m.1 + mlen as int,
                        )[j] == t@.subrange(pos as int, pos + mlen as int)[j] by {
                            assert(t@[m.1 + j] == t@[pos + j]);
                        }
                        assert(t@.subrange(m.1 as int, m.1 + mlen as int) =~= t@.subrange(
                            pos as int,
                            pos + mlen as int,
                        ));
                        assert(out + out.subrange(m.1 as int, m.1 + mlen as int) =~= t@.take(
                            pos + mlen as int,
                        ));
                        assert(run_list(s@, acts, st0) == Some(
                            (t@.take(pos + mlen as int), sc as int, m.1 + mlen as int),
                        ));
                    }
                    tc = m.1 + mlen;
                }
                pos = pos + mlen;
                lit_start = pos;
                proof {
                    assert(lit@ =~= t@.subrange(lit_start as int, pos as int));
                }
            } else {
                let b: u8 = t[pos];
                lit.push(b);
                pos = pos + 1;
                proof {
                    assert(lit@ =~= t@.subrange(lit_start as int, pos as int));
                }
            }
        }
        if lit.len() > 0 {
            emit_target_read(&mut body, lit.as_slice());
            proof {
                let a = BpsActionS::TargetRead { data: lit@ };
                lemma_enc_actions_snoc(acts, a);
                lemma_run_list_snoc(s@, acts, st0, a);
                let prev = acts;
                acts = acts.push(a);
                assert(wf_action(a));
                assert forall|k: int| 0 <= k < acts.len() implies wf_action(
                    #[trigger] acts[k],
                ) by {
                    if k < prev.len() {
                        assert(acts[k] == prev[k]);
                    }
                }
                assert(t@.take(lit_start as int) + lit@ =~= t@.take(pos as int));
                assert(run_list(s@, acts, st0) == Some(
                    (t@.take(pos as int), sc as int, tc as int),
                ));
            }
            lit_start = pos;
        }
        proof {
            assert(t@.take(t@.len() as int) =~= t@);
            assert(run_list(s@, acts, st0) is Some && run_list(s@, acts, st0)->Some_0.0 == t@);
        }
        let patch_bytes: Vec<u8> = bps_assemble(s, t, m_vec.as_slice(), &body, Ghost(acts));
        Ok(BpsPatch::new(patch_bytes))
    }
}

} // verus!
