//! The BPS linear builder: a single-pass patch from the common prefix, a
//! literal middle, and (when the sizes agree) the common suffix.

use vstd::prelude::*;

use crate::Error;
use crate::bps::BpsPatch;
use crate::bps::bps_apply_spec;
use crate::bps_create::BpsActionS;
use crate::bps_create::bps_assemble;
use crate::bps_create::bps_patch_bytes;
use crate::bps_create::bytes_eq;
use crate::bps_create::emit_source_read;
use crate::bps_create::emit_target_read;
use crate::bps_create::enc_actions;
use crate::bps_create::lemma_enc_actions_snoc;
use crate::bps_create::lemma_run_list_snoc;
use crate::bps_create::run_list;
use crate::bps_create::wf_action;

verus! {

/// The length of the longest common prefix of `s` and `t`.
pub open spec fn prefix_len(s: Seq<u8>, t: Seq<u8>) -> nat
    decreases s.len(),
{
    if s.len() == 0 || t.len() == 0 || s[0] != t[0] {
        0
    } else {
        1 + prefix_len(s.drop_first(), t.drop_first())
    }
}

/// The length of the longest common suffix of `s` and `t`.
pub open spec fn suffix_len(s: Seq<u8>, t: Seq<u8>) -> nat
    decreases s.len(),
{
    if s.len() == 0 || t.len() == 0 || s[s.len() - 1] != t[t.len() - 1] {
        0
    } else {
        1 + suffix_len(s.drop_last(), t.drop_last())
    }
}

pub proof fn lemma_prefix_len_char(s: Seq<u8>, t: Seq<u8>)
    ensures
        ({
            let k = prefix_len(s, t);
            &&& k <= s.len()
            &&& k <= t.len()
            &&& forall|i: int| 0 <= i < k ==> s[i] == t[i]
            &&& (k < s.len() && k < t.len() ==> s[k as int] != t[k as int])
        }),
    decreases s.len(),
{
    if !(s.len() == 0 || t.len() == 0 || s[0] != t[0]) {
        lemma_prefix_len_char(s.drop_first(), t.drop_first());
        let k = prefix_len(s, t);
        let k1 = prefix_len(s.drop_first(), t.drop_first());
        assert(k == k1 + 1);
        assert forall|i: int| 0 <= i < k implies s[i] == t[i] by {
            if i > 0 {
                assert(s.drop_first()[i - 1] == s[i]);
                assert(t.drop_first()[i - 1] == t[i]);
            }
        }
        if k < s.len() && k < t.len() {
            assert(s.drop_first()[k1 as int] == s[k as int]);
            assert(t.drop_first()[k1 as int] == t[k as int]);
        }
    }
}

/// Any cut that matches up to a mismatch (or an end) is the prefix length.
pub proof fn lemma_prefix_len_is(s: Seq<u8>, t: Seq<u8>, k: nat)
    requires
        k <= s.len(),
        k <= t.len(),
        forall|i: int| 0 <= i < k ==> s[i] == t[i],
        k < s.len() && k < t.len() ==> s[k as int] != t[k as int],
    ensures
        prefix_len(s, t) == k,
{
    lemma_prefix_len_char(s, t);
    let pl = prefix_len(s, t);
    if pl < k {
        assert(s[pl as int] == t[pl as int]);
    } else if pl > k {
        assert(s[k as int] == t[k as int]);
    }
}

pub proof fn lemma_suffix_len_char(s: Seq<u8>, t: Seq<u8>)
    ensures
        ({
            let k = suffix_len(s, t);
            &&& k <= s.len()
            &&& k <= t.len()
            &&& forall|i: int| 0 <= i < k ==> #[trigger] s[s.len() - 1 - i] == t[t.len() - 1 - i]
            &&& (k < s.len() && k < t.len() ==> s[s.len() - 1 - k as int] != t[t.len() - 1
                - k as int])
        }),
    decreases s.len(),
{
    if !(s.len() == 0 || t.len() == 0 || s[s.len() - 1] != t[t.len() - 1]) {
        lemma_suffix_len_char(s.drop_last(), t.drop_last());
        let k = suffix_len(s, t);
        let k1 = suffix_len(s.drop_last(), t.drop_last());
        assert(k == k1 + 1);
        assert forall|i: int| 0 <= i < k implies #[trigger] s[s.len() - 1 - i] == t[t.len() - 1
            - i] by {
            if i > 0 {
                assert(s.drop_last()[s.len() - 2 - (i - 1)] == s[s.len() - 1 - i]);
                assert(t.drop_last()[t.len() - 2 - (i - 1)] == t[t.len() - 1 - i]);
            }
        }
        if k < s.len() && k < t.len() {
            assert(s.drop_last()[s.len() - 2 - k1 as int] == s[s.len() - 1 - k as int]);
            assert(t.drop_last()[t.len() - 2 - k1 as int] == t[t.len() - 1 - k as int]);
        }
    }
}

/// Any cut that matches from the back up to a mismatch (or an end) is the
/// suffix length.
pub proof fn lemma_suffix_len_is(s: Seq<u8>, t: Seq<u8>, k: nat)
    requires
        k <= s.len(),
        k <= t.len(),
        forall|i: int| 0 <= i < k ==> #[trigger] s[s.len() - 1 - i] == t[t.len() - 1 - i],
        k < s.len() && k < t.len() ==> s[s.len() - 1 - k as int] != t[t.len() - 1 - k as int],
    ensures
        suffix_len(s, t) == k,
{
    lemma_suffix_len_char(s, t);
    let sl = suffix_len(s, t);
    if sl < k {
        assert(s[s.len() - 1 - sl as int] == t[t.len() - 1 - sl as int]);
    } else if sl > k {
        assert(s[s.len() - 1 - k as int] == t[t.len() - 1 - k as int]);
    }
}

/// The actions of a linear patch: the common prefix and (when the sizes
/// agree) the common suffix come from the source, the middle is literal.
pub open spec fn bps_linear_actions(s: Seq<u8>, t: Seq<u8>) -> Seq<BpsActionS> {
    let p = prefix_len(s, t);
    let pre: Seq<BpsActionS> = if p > 0 {
        seq![BpsActionS::SourceRead { len: p }]
    } else {
        Seq::empty()
    };
    if s.len() == t.len() {
        let sfx = suffix_len(s.skip(p as int), t.skip(p as int));
        let mid = seq![
            BpsActionS::TargetRead { data: t.subrange(p as int, t.len() - sfx) },
        ];
        let post: Seq<BpsActionS> = if sfx > 0 {
            seq![BpsActionS::SourceRead { len: sfx }]
        } else {
            Seq::empty()
        };
        pre + mid + post
    } else {
        let mid: Seq<BpsActionS> = if p < t.len() {
            seq![BpsActionS::TargetRead { data: t.skip(p as int) }]
        } else {
            Seq::empty()
        };
        pre + mid
    }
}

/// What the linear builder returns: `Canceled` without both buffers,
/// `Identical` for equal buffers, `TooBig` when an action length cannot be
/// encoded on this host, else exactly the assembled patch bytes.
pub open spec fn bps_linear_build_spec(
    src: Option<Seq<u8>>,
    tgt: Option<Seq<u8>>,
    meta: Seq<u8>,
) -> core::result::Result<Seq<u8>, Error> {
    match (src, tgt) {
        (Some(s), Some(t)) => {
            if s == t {
                Err(Error::Identical)
            } else if t.len() > 0 && 4 * (t.len() - 1) + 3 > usize::MAX {
                Err(Error::TooBig)
            } else {
                Ok(bps_patch_bytes(s, t, meta, enc_actions(bps_linear_actions(s, t))))
            }
        },
        _ => Err(Error::Canceled),
    }
}

/// The metadata a builder will write: the buffer it was given, or none.
pub open spec fn meta_or_empty(m: Option<Seq<u8>>) -> Seq<u8> {
    match m {
        Some(v) => v,
        None => Seq::empty(),
    }
}

/// A builder to create a BPS patch in a single pass.
///
/// ```
/// let patch = flips::BpsLinearBuilder::new()
///     .source(b"some source bytes".to_vec())
///     .target(b"some target bytes".to_vec())
///     .build()
///     .expect("could not create patch");
/// ```
#[derive(Debug)]
pub struct BpsLinearBuilder {
    source: Option<Vec<u8>>,
    target: Option<Vec<u8>>,
    metadata: Option<Vec<u8>>,
}

impl BpsLinearBuilder {
    pub closed spec fn source_view(&self) -> Option<Seq<u8>> {
        match self.source {
            Some(ref v) => Some(v@),
            None => None,
        }
    }

    pub closed spec fn target_view(&self) -> Option<Seq<u8>> {
        match self.target {
            Some(ref v) => Some(v@),
            None => None,
        }
    }

    pub closed spec fn metadata_view(&self) -> Option<Seq<u8>> {
        match self.metadata {
            Some(ref v) => Some(v@),
            None => None,
        }
    }

    /// Create a new builder for a BPS patch.
    pub fn new() -> (r: Self)
        ensures
            r.source_view() is None,
            r.target_view() is None,
            r.metadata_view() is None,
    {
        Self { source: None, target: None, metadata: None }
    }

    /// Set the metadata buffer for the patch.
    pub fn metadata(self, buffer: Vec<u8>) -> (r: Self)
        ensures
            r.metadata_view() == Some(buffer@),
            r.source_view() == self.source_view(),
            r.target_view() == self.target_view(),
    {
        Self { metadata: Some(buffer), ..self }
    }

    /// Set the source buffer for the patch.
    pub fn source(self, source: Vec<u8>) -> (r: Self)
        ensures
            r.source_view() == Some(source@),
            r.target_view() == self.target_view(),
            r.metadata_view() == self.metadata_view(),
    {
        Self { source: Some(source), ..self }
    }

    /// Set the target buffer for the patch.
    pub fn target(self, target: Vec<u8>) -> (r: Self)
        ensures
            r.target_view() == Some(target@),
            r.source_view() == self.source_view(),
            r.metadata_view() == self.metadata_view(),
    {
        Self { target: Some(target), ..self }
    }

    /// Build a BPS patch from `source` to `target` with `metadata` if any.
    ///
    /// Without both `source` and `target` this returns `Canceled`; on any
    /// other outcome the builder's buffers are consumed. The patch it returns
    /// applies to `source` and rebuilds `target`.
    #[verifier::loop_isolation(false)]
    #[verifier::rlimit(100)]
    pub fn build(&mut self) -> (r: crate::Result<BpsPatch>)
        ensures
            ({
                let spec_r = bps_linear_build_spec(
                    old(self).source_view(),
                    old(self).target_view(),
                    meta_or_empty(old(self).metadata_view()),
                );
                match r {
                    Ok(patch) => spec_r == Ok::<Seq<u8>, Error>(patch@) && bps_apply_spec(
                        patch@,
                        old(self).source_view()->Some_0,
                    ) == Ok::<(Seq<u8>, Seq<u8>), Error>(
                        (
                            old(self).target_view()->Some_0,
                            meta_or_empty(old(self).metadata_view()),
                        ),
                    ),
                    Err(e) => spec_r == Err::<Seq<u8>, Error>(e),
                }
            }),
            r == Err::<BpsPatch, Error>(Error::Canceled) ==> *final(self) == *old(self),
    {
        if self.source.is_none() || self.target.is_none() {
            return Err(Error::Canceled);
        }
        let s_vec: Vec<u8> = self.source.take().unwrap();
        let t_vec: Vec<u8> = self.target.take().unwrap();
        let m_vec: Vec<u8> = match self.metadata.take() {
            Some(m) => m,
            None => Vec::new(),
        };
        let s: &[u8] = s_vec.as_slice();
        let t: &[u8] = t_vec.as_slice();
        if bytes_eq(s, t) {
            return Err(Error::Identical);
        }
        if t.len() > 0 && (t.len() - 1) > (usize::MAX - 3) / 4 {
            proof {
                lemma_size_bound((t@.len() - 1) as nat);
            }
            return Err(Error::TooBig);
        }
        proof {
            if t@.len() > 0 {
                lemma_size_bound((t@.len() - 1) as nat);
            }
        }
        let minlen: usize = if s.len() <= t.len() {
            s.len()
        } else {
            t.len()
        };
        // longest common prefix
        let mut pl: usize = 0;
        let mut done: bool = false;
        while !done && pl < minlen
            invariant
                pl <= minlen,
                forall|i: int| 0 <= i < pl ==> s@[i] == t@[i],
                done ==> pl < minlen && s@[pl as int] != t@[pl as int],
            decreases minlen - pl + (if done {
                0int
            } else {
                1int
            }),
        {
            if s[pl] == t[pl] {
                pl = pl + 1;
            } else {
                done = true;
            }
        }
        proof {
            lemma_prefix_len_is(s@, t@, pl as nat);
        }
        // longest common suffix of the remainders
        let mut sfx: usize = 0;
        let mut done2: bool = false;
        while !done2 && sfx < minlen - pl
            invariant
                sfx <= minlen - pl,
                forall|i: int| 0 <= i < sfx ==> #[trigger] s@[s@.len() - 1 - i] == t@[t@.len() - 1 - i],
                done2 ==> sfx < minlen - pl && s@[s@.len() - 1 - sfx as int] != t@[t@.len() - 1
                    - sfx as int],
            decreases minlen - pl - sfx + (if done2 {
                0int
            } else {
                1int
            }),
        {
            if s[s.len() - 1 - sfx] == t[t.len() - 1 - sfx] {
                sfx = sfx + 1;
            } else {
                done2 = true;
            }
        }
        let ghost srem = s@.skip(pl as int);
        let ghost trem = t@.skip(pl as int);
        proof {
            assert forall|i: int|
                0 <= i < sfx implies #[trigger] srem[srem.len() - 1 - i] == trem[trem.len() - 1
                - i] by {
                assert(srem[srem.len() - 1 - i] == s@[s@.len() - 1 - i]);
                assert(trem[trem.len() - 1 - i] == t@[t@.len() - 1 - i]);
                assert(s@[s@.len() - 1 - i] == t@[t@.len() - 1 - i]);
            }
            if sfx < srem.len() && sfx < trem.len() {
                assert(srem[srem.len() - 1 - sfx as int] == s@[s@.len() - 1 - sfx as int]);
                assert(trem[trem.len() - 1 - sfx as int] == t@[t@.len() - 1 - sfx as int]);
            }
            lemma_suffix_len_is(srem, trem, sfx as nat);
        }
        let (body, acts_g) = linear_emit(s, t, pl, sfx);
        let ghost acts = acts_g@;
        let patch_bytes: Vec<u8> = bps_assemble(s, t, m_vec.as_slice(), &body, Ghost(acts));
        Ok(BpsPatch::new(patch_bytes))
    }
}

/// Emit the linear action list for `s` to `t` given the computed common
/// prefix and suffix lengths.
#[verifier::loop_isolation(false)]
#[verifier::rlimit(100)]
fn linear_emit(s: &[u8], t: &[u8], pl: usize, sfx: usize) -> (r: (Vec<u8>, Ghost<
    Seq<BpsActionS>,
>))
    requires
        s@ != t@,
        pl as nat == prefix_len(s@, t@),
        sfx as nat == suffix_len(s@.skip(pl as int), t@.skip(pl as int)),
        pl <= s@.len(),
        pl <= t@.len(),
        sfx <= s@.len() - pl,
        sfx <= t@.len() - pl,
        t@.len() > 0 ==> 4 * (t@.len() - 1) + 3 <= usize::MAX,
        forall|i: int| 0 <= i < pl ==> s@[i] == t@[i],
        forall|i: int| 0 <= i < sfx ==> #[trigger] s@[s@.len() - 1 - i] == t@[t@.len() - 1 - i],
    ensures
        ({
            let acts = r.1@;
            &&& r.0@ == enc_actions(acts)
            &&& acts == bps_linear_actions(s@, t@)
            &&& forall|k: int| 0 <= k < acts.len() ==> wf_action(#[trigger] acts[k])
            &&& run_list(s@, acts, (Seq::empty(), 0, 0)) is Some
            &&& run_list(s@, acts, (Seq::empty(), 0, 0))->Some_0.0 == t@
        }),
{
    // emit the actions
    let mut body: Vec<u8> = Vec::new();
    let ghost mut acts: Seq<BpsActionS> = Seq::empty();
    let ghost st0: (Seq<u8>, int, int) = (Seq::empty(), 0, 0);
    if pl > 0 {
        proof {
            assert(pl as nat - 1 <= t@.len() - 1);
            assert(4 * (pl as nat - 1) + 3 <= usize::MAX);
        }
        emit_source_read(&mut body, pl);
        proof {
            lemma_enc_actions_snoc(acts, BpsActionS::SourceRead { len: pl as nat });
            lemma_run_list_snoc(s@, acts, st0, BpsActionS::SourceRead { len: pl as nat });
            let prev = acts;
            acts = acts.push(BpsActionS::SourceRead { len: pl as nat });
            assert(wf_action(BpsActionS::SourceRead { len: pl as nat }));
            assert forall|k: int| 0 <= k < acts.len() implies wf_action(
                #[trigger] acts[k],
            ) by {
                if k < prev.len() {
                    assert(acts[k] == prev[k]);
                }
            }
            assert(s@.subrange(0, pl as int) =~= t@.subrange(0, pl as int));
            assert(Seq::<u8>::empty() + s@.subrange(0, pl as int) =~= t@.subrange(0, pl as int));
            assert(run_list(s@, acts, st0) == Some(
                (t@.subrange(0, pl as int), 0int, 0int),
            ));
        }
    }
    proof {
        if pl == 0 {
            assert(t@.subrange(0, 0) =~= Seq::<u8>::empty());
            assert(run_list(s@, acts, st0) == Some(
                (t@.subrange(0, pl as int), 0int, 0int),
            ));
        }
    }
    if s.len() == t.len() {
        proof {
            if pl + sfx == t@.len() {
                assert forall|i: int| 0 <= i < t@.len() implies s@[i] == t@[i] by {
                    if i >= pl {
                        let j: int = t@.len() - 1 - i;
                        assert(0 <= j < sfx);
                        assert(s@[s@.len() - 1 - j] == t@[t@.len() - 1 - j]);
                    }
                }
                assert(s@ =~= t@);
            }
            assert(pl + sfx < t@.len());
        }
        let mid: &[u8] = vstd::slice::slice_subrange(t, pl, t.len() - sfx);
        emit_target_read(&mut body, mid);
        proof {
            let a = BpsActionS::TargetRead { data: mid@ };
            lemma_enc_actions_snoc(acts, a);
            lemma_run_list_snoc(s@, acts, st0, a);
            let prev = acts;
            acts = acts.push(a);
            assert(wf_action(a));
            assert forall|k: int| 0 <= k < acts.len() implies wf_action(#[trigger] acts[k]) by {
                if k < prev.len() {
                    assert(acts[k] == prev[k]);
                }
            }
            assert(t@.subrange(0, pl as int) + mid@ =~= t@.subrange(0, t@.len() - sfx));
            assert(run_list(s@, acts, st0) == Some(
                (t@.subrange(0, t@.len() - sfx), 0int, 0int),
            ));
        }
        if sfx > 0 {
            emit_source_read(&mut body, sfx);
            proof {
                let a = BpsActionS::SourceRead { len: sfx as nat };
                lemma_enc_actions_snoc(acts, a);
                lemma_run_list_snoc(s@, acts, st0, a);
                let prev = acts;
                acts = acts.push(a);
                assert(wf_action(a));
                assert forall|k: int| 0 <= k < acts.len() implies wf_action(
                    #[trigger] acts[k],
                ) by {
                    if k < prev.len() {
                        assert(acts[k] == prev[k]);
                    }
                }
                assert forall|i: int|
                    0 <= i < sfx implies #[trigger] s@[t@.len() - sfx + i] == t@[t@.len() - sfx
                    + i] by {
                    let j: int = sfx - 1 - i;
                    assert(0 <= j < sfx);
                    assert(s@[s@.len() - 1 - j] == t@[t@.len() - 1 - j]);
                }
                assert forall|m: int|
                    0 <= m < sfx implies #[trigger] s@.subrange(
                    t@.len() - sfx,
                    t@.len() as int,
                )[m] == t@.subrange(t@.len() - sfx, t@.len() as int)[m] by {
                    assert(s@[t@.len() - sfx + m] == t@[t@.len() - sfx + m]);
                }
                assert(s@.subrange(t@.len() - sfx, t@.len() as int) =~= t@.subrange(
                    t@.len() - sfx,
                    t@.len() as int,
                ));
                assert(t@.subrange(0, t@.len() - sfx) + t@.subrange(
                    t@.len() - sfx,
                    t@.len() as int,
                ) =~= t@);
                assert(run_list(s@, acts, st0) == Some((t@, 0int, 0int)));
            }
        } else {
            proof {
                assert(t@.subrange(0, t@.len() - sfx) =~= t@);
            }
        }
    } else {
        if pl < t.len() {
            let mid: &[u8] = vstd::slice::slice_subrange(t, pl, t.len());
            emit_target_read(&mut body, mid);
            proof {
                let a = BpsActionS::TargetRead { data: mid@ };
                lemma_enc_actions_snoc(acts, a);
                lemma_run_list_snoc(s@, acts, st0, a);
                let prev = acts;
                acts = acts.push(a);
                assert(wf_action(a));
                assert forall|k: int| 0 <= k < acts.len() implies wf_action(
                    #[trigger] acts[k],
                ) by {
                    if k < prev.len() {
                        assert(acts[k] == prev[k]);
                    }
                }
                assert(t@.subrange(0, pl as int) + mid@ =~= t@);
                assert(run_list(s@, acts, st0) == Some((t@, 0int, 0int)));
            }
        } else {
            proof {
                assert(pl == t@.len());
                assert(t@.subrange(0, pl as int) =~= t@);
            }
        }
    }
    proof {
        assert(acts =~= bps_linear_actions(s@, t@));
        assert(run_list(s@, acts, st0) is Some && run_list(s@, acts, st0)->Some_0.0 == t@);
    }
    (body, Ghost(acts))
}

proof fn lemma_size_bound(a: nat)
    ensures
        4 * a + 3 <= usize::MAX <==> a <= (usize::MAX - 3) / 4,
{
    assert(4 * a + 3 <= usize::MAX <==> a <= (usize::MAX - 3) / 4) by (nonlinear_arith);
}

} // verus!
