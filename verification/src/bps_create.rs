//! Construction of BPS patches: the action model shared by the linear and
//! delta builders, its serialization, and the proof that a serialized action
//! list is read back by the apply engine.

use vstd::prelude::*;

use crate::Error;
use crate::bps::bps_actions;
use crate::bps::bps_apply_spec;
use crate::bps::bps_self_copy;
use crate::crc::crc32;
use crate::crc::crc32_of;
use crate::wire::encode_vli;
use crate::wire::le32_bytes;
use crate::wire::lemma_le32_roundtrip;
use crate::wire::lemma_vli_decode_encode;
use crate::wire::vli_encode;
use crate::wire::write_le32;

verus! {

/// A single BPS action, as a builder chooses it.
pub enum BpsActionS {
    /// Copy `len` source bytes at the current output position.
    SourceRead { len: nat },
    /// Emit the bytes of `data` literally.
    TargetRead { data: Seq<u8> },
    /// Move the source cursor by `rel` and copy `len` bytes from it.
    SourceCopy { len: nat, rel: int },
    /// Move the target cursor by `rel` and copy `len` bytes of the output
    /// produced so far, byte by byte.
    TargetCopy { len: nat, rel: int },
}

/// The unsigned value that encodes the signed offset `rel`.
pub open spec fn svli_of(rel: int) -> nat {
    if rel < 0 {
        (2 * (-rel) + 1) as nat
    } else {
        (2 * rel) as nat
    }
}

/// An action the wire format can carry on this host: a positive length and
/// header values within the addressable range.
pub open spec fn wf_action(a: BpsActionS) -> bool {
    match a {
        BpsActionS::SourceRead { len } => 1 <= len && 4 * (len - 1) + 3 <= usize::MAX,
        BpsActionS::TargetRead { data } => 1 <= data.len() && 4 * (data.len() - 1) + 3
            <= usize::MAX,
        BpsActionS::SourceCopy { len, rel } => 1 <= len && 4 * (len - 1) + 3 <= usize::MAX
            && svli_of(rel) <= usize::MAX,
        BpsActionS::TargetCopy { len, rel } => 1 <= len && 4 * (len - 1) + 3 <= usize::MAX
            && svli_of(rel) <= usize::MAX,
    }
}

/// The bytes that encode one action.
pub open spec fn enc_action(a: BpsActionS) -> Seq<u8> {
    match a {
        BpsActionS::SourceRead { len } => vli_encode((4 * (len - 1) + 0) as nat),
        BpsActionS::TargetRead { data } => vli_encode((4 * (data.len() - 1) + 1) as nat) + data,
        BpsActionS::SourceCopy { len, rel } => vli_encode((4 * (len - 1) + 2) as nat)
            + vli_encode(svli_of(rel)),
        BpsActionS::TargetCopy { len, rel } => vli_encode((4 * (len - 1) + 3) as nat)
            + vli_encode(svli_of(rel)),
    }
}

/// The bytes that encode an action list.
pub open spec fn enc_actions(l: Seq<BpsActionS>) -> Seq<u8>
    decreases l.len(),
{
    if l.len() == 0 {
        Seq::empty()
    } else {
        enc_action(l[0]) + enc_actions(l.drop_first())
    }
}

/// What one action does to the interpreter state, or `None` when it reads
/// out of bounds.
pub open spec fn step_action(src: Seq<u8>, st: (Seq<u8>, int, int), a: BpsActionS) -> Option<
    (Seq<u8>, int, int),
> {
    let out = st.0;
    let sc = st.1;
    let tc = st.2;
    match a {
        BpsActionS::SourceRead { len } => {
            if out.len() + len <= src.len() {
                Some((out + src.subrange(out.len() as int, out.len() + len as int), sc, tc))
            } else {
                None
            }
        },
        BpsActionS::TargetRead { data } => Some((out + data, sc, tc)),
        BpsActionS::SourceCopy { len, rel } => {
            let sc1 = sc + rel;
            if 0 <= sc1 && sc1 + len <= src.len() {
                Some((out + src.subrange(sc1, sc1 + len as int), sc1 + len, tc))
            } else {
                None
            }
        },
        BpsActionS::TargetCopy { len, rel } => {
            let tc1 = tc + rel;
            if 0 <= tc1 < out.len() {
                Some((bps_self_copy(out, tc1, len), sc, tc1 + len))
            } else {
                None
            }
        },
    }
}

/// Run an action list over the interpreter state.
pub open spec fn run_list(src: Seq<u8>, l: Seq<BpsActionS>, st: (Seq<u8>, int, int)) -> Option<
    (Seq<u8>, int, int),
>
    decreases l.len(),
{
    if l.len() == 0 {
        Some(st)
    } else {
        match step_action(src, st, l[0]) {
            None => None,
            Some(st1) => run_list(src, l.drop_first(), st1),
        }
    }
}

/// Running one more action first steps the state once.
pub proof fn lemma_run_list_snoc(
    src: Seq<u8>,
    l: Seq<BpsActionS>,
    st: (Seq<u8>, int, int),
    a: BpsActionS,
)
    ensures
        run_list(src, l, st) is None ==> run_list(src, l.push(a), st) is None,
        run_list(src, l, st) is Some ==> run_list(src, l.push(a), st) == step_action(
            src,
            run_list(src, l, st)->Some_0,
            a,
        ),
    decreases l.len(),
{
    if l.len() == 0 {
        assert(l.push(a)[0] == a);
        assert(l.push(a).drop_first() =~= Seq::<BpsActionS>::empty());
        match step_action(src, st, a) {
            None => {},
            Some(st1) => {
                assert(run_list(src, l.push(a), st) == run_list(
                    src,
                    l.push(a).drop_first(),
                    st1,
                ));
            },
        }
    } else {
        assert(l.push(a)[0] == l[0]);
        assert(l.push(a).drop_first() =~= l.drop_first().push(a));
        match step_action(src, st, l[0]) {
            None => {},
            Some(st1) => {
                lemma_run_list_snoc(src, l.drop_first(), st1, a);
            },
        }
    }
}

/// Encoding one more action appends its bytes.
pub proof fn lemma_enc_actions_snoc(l: Seq<BpsActionS>, a: BpsActionS)
    ensures
        enc_actions(l.push(a)) == enc_actions(l) + enc_action(a),
    decreases l.len(),
{
    if l.len() == 0 {
        assert(l.push(a)[0] == a);
        assert(l.push(a).drop_first() =~= Seq::<BpsActionS>::empty());
        assert(l =~= Seq::<BpsActionS>::empty());
        assert(enc_actions(l.push(a).drop_first()) == enc_actions(l));
        assert(enc_actions(l) =~= Seq::<u8>::empty());
        assert(enc_actions(l.push(a)) == enc_action(a) + enc_actions(l));
        assert(enc_action(a) + enc_actions(l) =~= enc_actions(l) + enc_action(a));
    } else {
        assert(l.push(a)[0] == l[0]);
        assert(l.push(a).drop_first() =~= l.drop_first().push(a));
        lemma_enc_actions_snoc(l.drop_first(), a);
        assert(enc_actions(l.push(a)) =~= enc_actions(l) + enc_action(a));
    }
}

/// A run never shrinks the output.
pub proof fn lemma_run_list_grows(src: Seq<u8>, l: Seq<BpsActionS>, st: (Seq<u8>, int, int))
    requires
        run_list(src, l, st) is Some,
    ensures
        run_list(src, l, st)->Some_0.0.len() >= st.0.len(),
    decreases l.len(),
{
    if l.len() != 0 {
        match step_action(src, st, l[0]) {
            None => {},
            Some(st1) => {
                match l[0] {
                    BpsActionS::TargetCopy { len, rel } => {
                        crate::bps::lemma_bps_self_copy_len(st.0, st.2 + rel, len);
                    },
                    _ => {},
                }
                lemma_run_list_grows(src, l.drop_first(), st1);
            },
        }
    }
}

/// A target-copy that stays behind the write cursor appends a plain copy of
/// an earlier region.
pub proof fn lemma_self_copy_within(out: Seq<u8>, tc: int, len: nat)
    requires
        0 <= tc,
        tc + len <= out.len(),
    ensures
        bps_self_copy(out, tc, len) == out + out.subrange(tc, tc + len as int),
    decreases len,
{
    if len == 0 {
        assert(out + out.subrange(tc, tc) =~= out);
    } else {
        let out1 = out.push(out[tc]);
        lemma_self_copy_within(out1, tc + 1, (len - 1) as nat);
        assert(out1 + out1.subrange(tc + 1, tc + 1 + (len - 1)) =~= out + out.subrange(
            tc,
            tc + len as int,
        ));
    }
}

proof fn lemma_quad(a: nat, op: nat)
    requires
        op < 4,
    ensures
        ((4 * a + op) as nat) % 4 == op,
        ((4 * a + op) as nat) / 4 == a,
{
    assert((4 * a + op) % 4 == op && (4 * a + op) / 4 == a) by (nonlinear_arith)
        requires
            op < 4,
    ;
}

/// A subrange that equals a concatenation splits into the two halves.
pub(crate) proof fn lemma_subrange_concat(p: Seq<u8>, i: int, x: Seq<u8>, y: Seq<u8>)
    requires
        0 <= i,
        i + x.len() + y.len() <= p.len(),
        p.subrange(i, i + x.len() + y.len()) == x + y,
    ensures
        p.subrange(i, i + x.len() as int) == x,
        p.subrange(i + x.len(), i + x.len() + y.len()) == y,
{
    assert forall|k: int|
        0 <= k < x.len() implies p.subrange(i, i + x.len() as int)[k] == x[k] by {
        assert((x + y)[k] == x[k]);
        assert(p.subrange(i, i + x.len() + y.len())[k] == p[i + k]);
    }
    assert(p.subrange(i, i + x.len() as int) =~= x);
    assert forall|k: int|
        0 <= k < y.len() implies p.subrange(i + x.len(), i + x.len() + y.len())[k] == y[k] by {
        assert((x + y)[x.len() + k] == y[k]);
        assert(p.subrange(i, i + x.len() + y.len())[x.len() + k] == p[i + x.len() + k]);
    }
    assert(p.subrange(i + x.len(), i + x.len() + y.len()) =~= y);
}

proof fn lemma_svli_parity(rel: int)
    ensures
        svli_of(rel) % 2 == 1 <==> rel < 0,
        svli_of(rel) / 2 == if rel < 0 { -rel } else { rel },
{
    let rv = svli_of(rel);
    if rel < 0 {
        assert(rv == 2 * (-rel) + 1);
        assert(rv % 2 == 1 && rv / 2 == -rel) by (nonlinear_arith)
            requires
                rv == 2 * (-rel) + 1 && rel < 0,
        ;
    } else {
        assert(rv == 2 * rel);
        assert(rv % 2 == 0 && rv / 2 == rel) by (nonlinear_arith)
            requires
                rv == 2 * rel && rel >= 0,
        ;
    }
}

/// One well-formed action, encoded at position `i`, makes the apply engine
/// take exactly one step of the list semantics.
#[verifier::rlimit(100)]
proof fn lemma_step_encoded(
    p: Seq<u8>,
    i: int,
    stop: int,
    src: Seq<u8>,
    out: Seq<u8>,
    sc: int,
    tc: int,
    tsz: nat,
    a: BpsActionS,
)
    requires
        wf_action(a),
        0 <= i,
        i + enc_action(a).len() <= stop <= p.len(),
        p.subrange(i, i + enc_action(a).len() as int) == enc_action(a),
        step_action(src, (out, sc, tc), a) is Some,
        out.len() < tsz,
        step_action(src, (out, sc, tc), a)->Some_0.0.len() <= tsz,
    ensures
        ({
            let st1 = step_action(src, (out, sc, tc), a)->Some_0;
            bps_actions(p, i, stop, src, out, sc, tc, tsz) == bps_actions(
                p,
                i + enc_action(a).len() as int,
                stop,
                src,
                st1.0,
                st1.1,
                st1.2,
                tsz,
            )
        }),
{
    let st1 = step_action(src, (out, sc, tc), a)->Some_0;
    match a {
        BpsActionS::SourceRead { len } => {
            let av = (4 * (len - 1) + 0) as nat;
            lemma_quad((len - 1) as nat, 0);
            lemma_vli_decode_encode(p, i, av);
            assert(st1.0 == out + src.subrange(out.len() as int, out.len() + len as int));
        },
        BpsActionS::TargetRead { data } => {
            let av = (4 * (data.len() - 1) + 1) as nat;
            lemma_quad((data.len() - 1) as nat, 1);
            lemma_subrange_concat(p, i, vli_encode(av), data);
            lemma_vli_decode_encode(p, i, av);
            let j = i + vli_encode(av).len() as int;
            assert(st1.0 == out + data);
            assert(st1.0 == out + p.subrange(j, j + data.len() as int));
        },
        BpsActionS::SourceCopy { len, rel } => {
            let av = (4 * (len - 1) + 2) as nat;
            let rv = svli_of(rel);
            lemma_quad((len - 1) as nat, 2);
            lemma_subrange_concat(p, i, vli_encode(av), vli_encode(rv));
            lemma_vli_decode_encode(p, i, av);
            let j = i + vli_encode(av).len() as int;
            lemma_vli_decode_encode(p, j, rv);
            lemma_svli_parity(rel);
        },
        BpsActionS::TargetCopy { len, rel } => {
            let av = (4 * (len - 1) + 3) as nat;
            let rv = svli_of(rel);
            lemma_quad((len - 1) as nat, 3);
            lemma_subrange_concat(p, i, vli_encode(av), vli_encode(rv));
            lemma_vli_decode_encode(p, i, av);
            let j = i + vli_encode(av).len() as int;
            lemma_vli_decode_encode(p, j, rv);
            lemma_svli_parity(rel);
            crate::bps::lemma_bps_self_copy_len(out, tc + rel, len);
        },
    }
}

/// The apply engine, fed the bytes of a well-formed action list whose run
/// fills the output to exactly `tsz` bytes, reproduces that run.
pub proof fn lemma_parse_encoded(
    p: Seq<u8>,
    i: int,
    stop: int,
    src: Seq<u8>,
    l: Seq<BpsActionS>,
    st: (Seq<u8>, int, int),
    tsz: nat,
)
    requires
        0 <= i,
        i + enc_actions(l).len() <= stop <= p.len(),
        p.subrange(i, i + enc_actions(l).len() as int) == enc_actions(l),
        forall|k: int| 0 <= k < l.len() ==> wf_action(#[trigger] l[k]),
        run_list(src, l, st) is Some,
        run_list(src, l, st)->Some_0.0.len() == tsz,
        st.0.len() <= tsz,
    ensures
        bps_actions(p, i, stop, src, st.0, st.1, st.2, tsz) == Some(
            (run_list(src, l, st)->Some_0.0, i + enc_actions(l).len() as int),
        ),
    decreases l.len(),
{
    if l.len() == 0 {
        assert(run_list(src, l, st) == Some(st));
        assert(st.0.len() == tsz);
    } else {
        let a = l[0];
        let rest = l.drop_first();
        assert(step_action(src, st, a) is Some);
        let st1 = step_action(src, st, a)->Some_0;
        assert(run_list(src, l, st) == run_list(src, rest, st1));
        lemma_run_list_grows(src, rest, st1);
        let ea = enc_action(a);
        let erest = enc_actions(rest);
        assert(enc_actions(l) == ea + erest);
        lemma_subrange_concat(p, i, ea, erest);
        assert(st1.0.len() <= tsz);
        assert(st.0.len() < tsz) by {
            match a {
                BpsActionS::SourceRead { len } => {},
                BpsActionS::TargetRead { data } => {},
                BpsActionS::SourceCopy { len, rel } => {},
                BpsActionS::TargetCopy { len, rel } => {
                    crate::bps::lemma_bps_self_copy_len(st.0, st.2 + rel, len);
                },
            }
        }
        assert((st.0, st.1, st.2) == st);
        lemma_step_encoded(p, i, stop, src, st.0, st.1, st.2, tsz, a);
        assert(forall|k: int| 0 <= k < rest.len() ==> wf_action(#[trigger] rest[k])) by {
            assert(forall|k: int| 0 <= k < rest.len() ==> rest[k] == l[k + 1]);
        }
        lemma_parse_encoded(p, i + ea.len(), stop, src, rest, st1, tsz);
    }
}

/// Compare two byte slices.
pub(crate) fn bytes_eq(a: &[u8], b: &[u8]) -> (r: bool)
    ensures
        r <==> a@ == b@,
{
    if a.len() != b.len() {
        proof {
            assert(a@ != b@);
        }
        return false;
    }
    let n: usize = a.len();
    let mut k: usize = 0;
    while k < n
        invariant
            k <= n,
            n == a@.len() == b@.len(),
            forall|j: int| 0 <= j < k ==> a@[j] == b@[j],
        decreases n - k,
    {
        if a[k] != b[k] {
            proof {
                assert(a@[k as int] != b@[k as int]);
            }
            return false;
        }
        k = k + 1;
    }
    proof {
        assert(a@ =~= b@);
    }
    true
}

/// Append the encoding of a source-read action.
pub(crate) fn emit_source_read(body: &mut Vec<u8>, len: usize)
    requires
        1 <= len,
        4 * (len as nat - 1) + 3 <= usize::MAX,
    ensures
        final(body)@ == old(body)@ + enc_action(BpsActionS::SourceRead { len: len as nat }),
{
    proof {
        assert(4 * (len as nat - 1) <= usize::MAX);
    }
    encode_vli(4 * (len as u64 - 1), body);
}

/// Append the encoding of a target-read action.
pub(crate) fn emit_target_read(body: &mut Vec<u8>, data: &[u8])
    requires
        1 <= data@.len(),
        4 * (data@.len() - 1) + 3 <= usize::MAX,
    ensures
        final(body)@ == old(body)@ + enc_action(BpsActionS::TargetRead { data: data@ }),
{
    proof {
        assert(4 * (data@.len() - 1) <= usize::MAX);
    }
    let n: u64 = data.len() as u64;
    encode_vli(4 * (n - 1) + 1, body);
    let ghost mid = body@;
    body.extend_from_slice(data);
    proof {
        assert(final(body)@ =~= old(body)@ + enc_action(
            BpsActionS::TargetRead { data: data@ },
        ));
    }
}

/// The unsigned value encoding the signed offset `rel`, as a machine word.
fn svli_word(rel: i64) -> (r: u64)
    requires
        svli_of(rel as int) <= usize::MAX,
    ensures
        r == svli_of(rel as int),
{
    if rel < 0 {
        proof {
            assert(rel > i64::MIN);
        }
        2 * ((-rel) as u64) + 1
    } else {
        2 * (rel as u64)
    }
}

/// Append the encoding of a source-copy action.
pub(crate) fn emit_source_copy(body: &mut Vec<u8>, len: usize, rel: i64)
    requires
        1 <= len,
        4 * (len as nat - 1) + 3 <= usize::MAX,
        svli_of(rel as int) <= usize::MAX,
    ensures
        final(body)@ == old(body)@ + enc_action(
            BpsActionS::SourceCopy { len: len as nat, rel: rel as int },
        ),
{
    proof {
        assert(4 * (len as nat - 1) <= usize::MAX);
    }
    encode_vli(4 * (len as u64 - 1) + 2, body);
    let w: u64 = svli_word(rel);
    let ghost mid = body@;
    encode_vli(w, body);
    proof {
        assert(final(body)@ =~= old(body)@ + enc_action(
            BpsActionS::SourceCopy { len: len as nat, rel: rel as int },
        ));
    }
}

/// Append the encoding of a target-copy action.
pub(crate) fn emit_target_copy(body: &mut Vec<u8>, len: usize, rel: i64)
    requires
        1 <= len,
        4 * (len as nat - 1) + 3 <= usize::MAX,
        svli_of(rel as int) <= usize::MAX,
    ensures
        final(body)@ == old(body)@ + enc_action(
            BpsActionS::TargetCopy { len: len as nat, rel: rel as int },
        ),
{
    proof {
        assert(4 * (len as nat - 1) <= usize::MAX);
    }
    encode_vli(4 * (len as u64 - 1) + 3, body);
    let w: u64 = svli_word(rel);
    let ghost mid = body@;
    encode_vli(w, body);
    proof {
        assert(final(body)@ =~= old(body)@ + enc_action(
            BpsActionS::TargetCopy { len: len as nat, rel: rel as int },
        ));
    }
}

/// The bytes of a whole BPS patch: magic, the three sizes, the metadata, the
/// action stream, and the three CRC-32 values.
pub open spec fn bps_patch_bytes(s: Seq<u8>, t: Seq<u8>, m: Seq<u8>, body: Seq<u8>) -> Seq<u8> {
    let head = seq![0x42u8, 0x50u8, 0x53u8, 0x31u8] + vli_encode(s.len()) + vli_encode(t.len())
        + vli_encode(m.len()) + m + body;
    let head2 = head + le32_bytes(crc32_of(s)) + le32_bytes(crc32_of(t));
    head2 + le32_bytes(crc32_of(head2))
}

/// Write out a patch from a serialized action list whose run rebuilds
/// `target` from `source`.
#[verifier::loop_isolation(false)]
#[verifier::rlimit(100)]
pub(crate) fn bps_assemble(
    source: &[u8],
    target: &[u8],
    metadata: &[u8],
    body: &Vec<u8>,
    Ghost(acts): Ghost<Seq<BpsActionS>>,
) -> (r: Vec<u8>)
    requires
        enc_actions(acts) == body@,
        forall|k: int| 0 <= k < acts.len() ==> wf_action(#[trigger] acts[k]),
        ({
            let run = run_list(source@, acts, (Seq::empty(), 0, 0));
            run is Some && run->Some_0.0 == target@
        }),
    ensures
        r@ == bps_patch_bytes(source@, target@, metadata@, body@),
        bps_apply_spec(r@, source@) == Ok::<(Seq<u8>, Seq<u8>), Error>((target@, metadata@)),
{
    let mut p: Vec<u8> = Vec::new();
    p.push(0x42);
    p.push(0x50);
    p.push(0x53);
    p.push(0x31);
    proof {
        assert(p@ =~= seq![0x42u8, 0x50u8, 0x53u8, 0x31u8]);
    }
    encode_vli(source.len() as u64, &mut p);
    let ghost after_s = p@;
    encode_vli(target.len() as u64, &mut p);
    let ghost after_t = p@;
    encode_vli(metadata.len() as u64, &mut p);
    let ghost after_m = p@;
    p.extend_from_slice(metadata);
    let ghost after_meta = p@;
    p.extend_from_slice(body.as_slice());
    let ghost head = p@;
    let src_crc: u32 = crc32(source);
    let tgt_crc: u32 = crc32(target);
    write_le32(src_crc, &mut p);
    write_le32(tgt_crc, &mut p);
    let ghost head2 = p@;
    let pat_crc: u32 = crc32(p.as_slice());
    write_le32(pat_crc, &mut p);
    proof {
        let magic = seq![0x42u8, 0x50u8, 0x53u8, 0x31u8];
        let e1 = vli_encode(source@.len());
        let e2 = vli_encode(target@.len());
        let e3 = vli_encode(metadata@.len());
        assert(head =~= magic + e1 + e2 + e3 + metadata@ + body@);
        assert(head2 =~= head + le32_bytes(src_crc) + le32_bytes(tgt_crc));
        assert(p@ =~= head2 + le32_bytes(pat_crc));
        assert(p@ =~= bps_patch_bytes(source@, target@, metadata@, body@));
        lemma_bps_assembled_applies(
            p@,
            source@,
            target@,
            metadata@,
            body@,
            acts,
        );
    }
    p
}

/// A patch assembled from a good action list applies to its source and
/// rebuilds its target.
#[verifier::rlimit(100)]
proof fn lemma_bps_assembled_applies(
    p: Seq<u8>,
    s: Seq<u8>,
    t: Seq<u8>,
    m: Seq<u8>,
    body: Seq<u8>,
    acts: Seq<BpsActionS>,
)
    requires
        p == bps_patch_bytes(s, t, m, body),
        enc_actions(acts) == body,
        forall|k: int| 0 <= k < acts.len() ==> wf_action(#[trigger] acts[k]),
        ({
            let run = run_list(s, acts, (Seq::empty(), 0, 0));
            run is Some && run->Some_0.0 == t
        }),
        s.len() <= usize::MAX,
        t.len() <= usize::MAX,
        m.len() <= usize::MAX,
    ensures
        bps_apply_spec(p, s) == Ok::<(Seq<u8>, Seq<u8>), Error>((t, m)),
{
    let magic = seq![0x42u8, 0x50u8, 0x53u8, 0x31u8];
    let e1 = vli_encode(s.len());
    let e2 = vli_encode(t.len());
    let e3 = vli_encode(m.len());
    let head = magic + e1 + e2 + e3 + m + body;
    let head2 = head + le32_bytes(crc32_of(s)) + le32_bytes(crc32_of(t));
    assert(p == head2 + le32_bytes(crc32_of(head2)));
    assert(p.len() == head.len() + 12);
    assert(p[0] == 0x42 && p[1] == 0x50 && p[2] == 0x53 && p[3] == 0x31);
    let i1 = 4 + e1.len() as int;
    let i2 = i1 + e2.len() as int;
    let i3 = i2 + e3.len() as int;
    let start = i3 + m.len() as int;
    let stop = start + body.len() as int;
    assert(stop == p.len() - 12);
    // locate each header piece inside the byte string
    assert(p.subrange(4, i1) =~= e1);
    assert(p.subrange(i1, i2) =~= e2);
    assert(p.subrange(i2, i3) =~= e3);
    assert(p.subrange(i3, start) =~= m);
    assert(p.subrange(start, stop) =~= body);
    assert(p.subrange(stop, stop + 4) =~= le32_bytes(crc32_of(s)));
    assert(p.subrange(stop + 4, stop + 8) =~= le32_bytes(crc32_of(t)));
    assert(p.subrange(p.len() - 4, p.len() as int) =~= le32_bytes(crc32_of(head2)));
    lemma_vli_decode_encode(p, 4, s.len());
    lemma_vli_decode_encode(p, i1, t.len());
    lemma_vli_decode_encode(p, i2, m.len());
    lemma_le32_roundtrip(p, stop, crc32_of(s));
    lemma_le32_roundtrip(p, stop + 4, crc32_of(t));
    lemma_le32_roundtrip(p, p.len() - 4, crc32_of(head2));
    assert(p.take(p.len() - 4) =~= head2);
    assert(p.subrange(i3, i3 + m.len() as int) == m);
    let run = run_list(s, acts, (Seq::empty(), 0, 0));
    lemma_parse_encoded(p, start, stop, s, acts, (Seq::empty(), 0, 0), t.len());
    assert(bps_actions(p, start, stop, s, Seq::empty(), 0, 0, t.len()) == Some(
        (t, stop),
    ));
}

} // verus!
