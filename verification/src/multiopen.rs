//! The multi-point opening argument: batches every (polynomial, point)
//! claim into a single-point opening through two layers of
//! random-linear-combination folding, with every challenge derived from the
//! transcript in strict sequence.

use vstd::prelude::*;

use crate::Error;
use crate::commitment::OpeningProof;
use crate::commitment::scalars_bytes;
use crate::curve::Point;
use crate::curve::id_enc;
use crate::curve::pt_add_of;
use crate::curve::pt_mul_of;
use crate::curve::px_of;
use crate::curve::py_of;
use crate::field::Scalar;
use crate::field::q;
use crate::limbs::le_bytes;
use crate::limbs::le_val;
use crate::limbs::lemma_le_bytes_take;
use crate::limbs::lemma_le_bytes_val_mod;
use crate::limbs::lemma_le_val_bytes_id;
use crate::limbs::pow256;
use crate::params::Params;
use crate::params::commit_spec;
use crate::params::h_enc;
use crate::poly::Blind;
use crate::poly::eval_polynomial;
use crate::poly::eval_spec;
use crate::poly::kate_at;
use crate::poly::kate_division;
use crate::poly::scalar_seq;
use crate::poly::wf_scalars;
use crate::transcript::Blake2bRead;
use crate::transcript::Blake2bWrite;
use crate::transcript::Challenge128;
use crate::transcript::EncodedChallenge;
use crate::transcript::ScalarTranscript;
use crate::transcript::Transcript;
use crate::transcript::blake2b_of;
use crate::transcript::challenge_of;
use crate::transcript::endo_val;

verus! {

/// The low 128 bits of a challenge value.
pub open spec fn lower128_of(v: nat) -> u128 {
    (v % 0x1_0000_0000_0000_0000_0000_0000_0000_0000nat) as u128
}

/// The scalar obtained by squeezing a transcript that has absorbed
/// `absorbed` and recombining the low 128 bits of the digest's reduction
/// through the endoscaling recurrence.
pub open spec fn endo_challenge_of(absorbed: Seq<u8>) -> nat {
    endo_val(lower128_of(challenge_of(absorbed)))
}

/// Squeeze a challenge and recombine its low 128 bits into a scalar via the
/// endoscaling recurrence.
pub fn squeeze_endo<T: Transcript>(transcript: &mut T) -> (r: Scalar)
    ensures
        final(transcript).absorbed() == old(transcript).absorbed() + blake2b_of(
            old(transcript).absorbed(),
        ),
        final(transcript).stream() == old(transcript).stream(),
        r@ == endo_challenge_of(old(transcript).absorbed()),
        r.wf(),
{
    let c = transcript.squeeze_challenge();
    let lo = c.get_lower_128();
    proof {
        let v = challenge_of(old(transcript).absorbed());
        lemma_le_val_bytes_id(c@);
        assert(c@ == le_bytes(v, 32));
        lemma_le_bytes_take(v, 32, 16);
        assert(c@.take(16) == le_bytes(v, 16));
        lemma_le_bytes_val_mod(v, 16);
        reveal_with_fuel(pow256, 17);
        assert(pow256(16) == 0x1_0000_0000_0000_0000_0000_0000_0000_0000nat);
        assert(lo == lower128_of(v));
    }
    Challenge128::new(&lo).get_scalar()
}

/// One coefficient-wise folding step: each accumulator entry is scaled by
/// the challenge and the matching entry of the new polynomial is added.
pub open spec fn fold_step(acc: Seq<nat>, x: nat, p: Seq<nat>) -> Seq<nat> {
    Seq::new(acc.len(), |i: int| (((acc[i] * x) % q()) + p[i]) % q())
}

/// One scalar folding step: the accumulator scaled by the challenge plus
/// the new value.
pub open spec fn fold_val(acc: nat, x: nat, v: nat) -> nat {
    (((acc * x) % q()) + v) % q()
}

/// Fold the first `n` values into `init` left to right.
pub open spec fn fold_vals(init: nat, vals: Seq<nat>, x: nat, n: int) -> nat
    decreases n,
{
    if n <= 0 {
        init
    } else {
        fold_val(fold_vals(init, vals, x, n - 1), x, vals[n - 1])
    }
}

/// Fold a polynomial into the accumulator coefficient-wise.
fn fold_into(acc: &mut Vec<Scalar>, x: &Scalar, p: &Vec<Scalar>)
    requires
        old(acc)@.len() == p@.len(),
        wf_scalars(old(acc)@),
        wf_scalars(p@),
        x.wf(),
    ensures
        scalar_seq(final(acc)@) == fold_step(scalar_seq(old(acc)@), x@, scalar_seq(p@)),
        final(acc)@.len() == old(acc)@.len(),
        wf_scalars(final(acc)@),
{
    let ghost init = acc@;
    let mut i: usize = 0;
    while i < p.len()
        invariant
            i <= p@.len(),
            init.len() == p@.len(),
            acc@.len() == p@.len(),
            wf_scalars(p@),
            wf_scalars(acc@),
            wf_scalars(init),
            x.wf(),
            forall|j: int| i <= j < p@.len() ==> (#[trigger] acc@[j]) == init[j],
            forall|j: int|
                0 <= j < i ==> (#[trigger] acc@[j])@ == fold_step(
                    scalar_seq(init),
                    x@,
                    scalar_seq(p@),
                )[j],
        decreases p@.len() - i,
    {
        let v = acc[i].mul(x).add(&p[i]);
        acc[i] = v;
        i = i + 1;
    }
    proof {
        assert(scalar_seq(acc@) =~= fold_step(scalar_seq(init), x@, scalar_seq(p@)));
    }
}

/// One instance handed to the prover: the index of the point being opened
/// at, the polynomial, its commitment blind, and the claimed evaluation.
pub struct ProverInstance {
    pub point_index: usize,
    pub poly: Vec<Scalar>,
    pub blind: Blind,
    pub eval: Scalar,
}

/// Every instance points at a real point index, carries a polynomial of
/// exactly `n` coefficients, and holds well-formed scalars.
pub open spec fn wf_instances(insts: Seq<ProverInstance>, npts: int, n: nat) -> bool {
    forall|j: int|
        0 <= j < insts.len() ==> (#[trigger] insts[j]).point_index < npts && insts[j].poly@.len()
            == n && wf_scalars(insts[j].poly@) && insts[j].blind.0.wf() && insts[j].eval.wf()
}

/// Some instance points at point index `pi`.
pub open spec fn point_covered(insts: Seq<ProverInstance>, pi: int) -> bool {
    exists|j: int| 0 <= j < insts.len() && (#[trigger] insts[j]).point_index == pi
}

/// Every point index is hit by at least one instance.
pub open spec fn covers(insts: Seq<ProverInstance>, npts: int) -> bool {
    forall|pi: int| 0 <= pi < npts ==> #[trigger] point_covered(insts, pi)
}

/// The per-point aggregate polynomials after folding the instances in
/// order with the challenge `x4`: the first polynomial at a point starts
/// the accumulator, later ones fold in by scale-and-add.
pub open spec fn q_polys_spec(insts: Seq<ProverInstance>, npts: int, x4: nat) -> Seq<
    Option<Seq<nat>>,
>
    decreases insts.len(),
{
    if insts.len() == 0 {
        Seq::new(npts as nat, |i: int| None)
    } else {
        let rest = q_polys_spec(insts.drop_last(), npts, x4);
        let l = insts.last();
        let pi = l.point_index as int;
        rest.update(
            pi,
            Some(
                match rest[pi] {
                    None => scalar_seq(l.poly@),
                    Some(acc) => fold_step(acc, x4, scalar_seq(l.poly@)),
                },
            ),
        )
    }
}

/// The per-point aggregate blinds, folded like the polynomials but from
/// zero.
pub open spec fn q_blinds_spec(insts: Seq<ProverInstance>, npts: int, x4: nat) -> Seq<nat>
    decreases insts.len(),
{
    if insts.len() == 0 {
        Seq::new(npts as nat, |i: int| 0nat)
    } else {
        let rest = q_blinds_spec(insts.drop_last(), npts, x4);
        let l = insts.last();
        let pi = l.point_index as int;
        rest.update(pi, fold_val(rest[pi], x4, l.blind.0@))
    }
}

/// The per-point aggregate claimed evaluations, folded like the blinds.
pub open spec fn q_evals_spec(insts: Seq<ProverInstance>, npts: int, x4: nat) -> Seq<nat>
    decreases insts.len(),
{
    if insts.len() == 0 {
        Seq::new(npts as nat, |i: int| 0nat)
    } else {
        let rest = q_evals_spec(insts.drop_last(), npts, x4);
        let l = insts.last();
        let pi = l.point_index as int;
        rest.update(pi, fold_val(rest[pi], x4, l.eval@))
    }
}

/// Every instance's point index is a real one.
pub open spec fn insts_in_range(insts: Seq<ProverInstance>, npts: int) -> bool {
    forall|j: int| 0 <= j < insts.len() ==> (#[trigger] insts[j]).point_index < npts
}

/// The folded structures keep one entry per point.
pub proof fn lemma_qspec_len(insts: Seq<ProverInstance>, npts: int, x4: nat)
    requires
        npts >= 0,
        insts_in_range(insts, npts),
    ensures
        q_polys_spec(insts, npts, x4).len() == npts,
        q_blinds_spec(insts, npts, x4).len() == npts,
        q_evals_spec(insts, npts, x4).len() == npts,
    decreases insts.len(),
{
    if insts.len() > 0 {
        assert(insts_in_range(insts.drop_last(), npts)) by {
            assert(forall|j: int|
                0 <= j < insts.len() - 1 ==> insts.drop_last()[j] == #[trigger] insts[j]);
        }
        lemma_qspec_len(insts.drop_last(), npts, x4);
    }
}

/// A point index hit by some instance has an aggregate polynomial.
pub proof fn lemma_qpolys_covered(insts: Seq<ProverInstance>, npts: int, x4: nat, pi: int)
    requires
        point_covered(insts, pi),
        0 <= pi < npts,
        insts_in_range(insts, npts),
    ensures
        q_polys_spec(insts, npts, x4)[pi] is Some,
    decreases insts.len(),
{
    lemma_qspec_len(insts, npts, x4);
    let j = choose|j: int| 0 <= j < insts.len() && (#[trigger] insts[j]).point_index == pi;
    assert(insts_in_range(insts.drop_last(), npts)) by {
        assert(forall|w: int|
            0 <= w < insts.len() - 1 ==> insts.drop_last()[w] == #[trigger] insts[w]);
    }
    if j == insts.len() - 1 {
        lemma_qspec_len(insts.drop_last(), npts, x4);
    } else {
        assert(insts.drop_last()[j] == insts[j]);
        assert(point_covered(insts.drop_last(), pi));
        lemma_qpolys_covered(insts.drop_last(), npts, x4, pi);
        lemma_qspec_len(insts.drop_last(), npts, x4);
    }
}

/// The witness polynomial of a per-point aggregate: its Kate quotient by
/// `X - z` after subtracting the claimed evaluation from the constant
/// term, padded back to full length with a zero.
pub open spec fn witness_of(p: Seq<nat>, ev: nat, z: nat) -> Seq<nat> {
    let m = p.update(0, (((p[0] + q() - ev) % (q() as int)) as nat));
    Seq::new(
        p.len(),
        |i: int|
            if i < p.len() - 1 {
                kate_at(m, z, i)
            } else {
                0nat
            },
    )
}

/// The witness polynomials of the first `n` points, folded left to right
/// with the challenge `x5`.
pub open spec fn f_poly_spec(
    insts: Seq<ProverInstance>,
    pts: Seq<nat>,
    x4: nat,
    x5: nat,
    n: int,
) -> Seq<nat>
    decreases n,
{
    let npts = pts.len() as int;
    let w = witness_of(
        q_polys_spec(insts, npts, x4)[n - 1].unwrap(),
        q_evals_spec(insts, npts, x4)[n - 1],
        pts[n - 1],
    );
    if n <= 1 {
        w
    } else {
        fold_step(f_poly_spec(insts, pts, x4, x5, n - 1), x5, w)
    }
}

/// The per-point aggregate polynomial values, unwrapped.
pub open spec fn qpolys_vals(insts: Seq<ProverInstance>, npts: int, x4: nat) -> Seq<Seq<nat>> {
    Seq::new(npts as nat, |i: int| q_polys_spec(insts, npts, x4)[i].unwrap())
}

/// The first `n` polynomials folded into `fp` left to right with the
/// challenge `x`: the final single polynomial to be opened.
pub open spec fn fold_polys(fp: Seq<nat>, qps: Seq<Seq<nat>>, x: nat, n: int) -> Seq<nat>
    decreases n,
{
    if n <= 0 {
        fp
    } else {
        fold_step(fold_polys(fp, qps, x, n - 1), x, qps[n - 1])
    }
}

/// The commitment shifted `k` times by the blinding generator: what the
/// retry loop does to the aggregate commitment instead of recommitting.
pub open spec fn shift_fc(fc0: Seq<u8>, k: nat) -> Seq<u8>
    decreases k,
{
    if k == 0 {
        fc0
    } else {
        pt_add_of(shift_fc(fc0, (k - 1) as nat), h_enc())
    }
}

/// An exec per-point accumulator entry matches its model: absent together,
/// or present with the modelled coefficient values at full length.
pub open spec fn opt_poly_rel(o: Option<Vec<Scalar>>, s: Option<Seq<nat>>, n: nat) -> bool {
    match o {
        None => s is None,
        Some(v) => s == Some(scalar_seq(v@)) && v@.len() == n && wf_scalars(v@),
    }
}

/// The defensive cap on opening retries. A retry is needed only when the
/// freshly blinded aggregate commitment collides with the blinding
/// generator, so reaching the cap has negligible probability.
pub const RETRY_LIMIT: usize = 64;

/// A multi-opening proof: the per-point aggregate evaluations at the final
/// challenge point, the aggregate witness commitment, and the single-point
/// opening everything reduces to.
pub struct Proof {
    pub q_evals: Vec<Scalar>,
    pub f_commitment: Point,
    pub opening: OpeningProof,
}

/// What one successful finalization attempt is, from the pre-attempt
/// transcript states `a2` and `s0`, the per-point aggregates `qps`/`qbs`,
/// the folded witness `fp` with blind `fb`, and its commitment `fc`: every
/// challenge, the final folded polynomial and blind, the proof fields, and
/// the transcript states after the attempt.
#[verifier::opaque]
pub open spec fn attempt_ok(
    a2: Seq<u8>,
    s0: Seq<u8>,
    npts: int,
    qps: Seq<Seq<nat>>,
    qbs: Seq<nat>,
    fp: Seq<nat>,
    fb: nat,
    fc: Seq<u8>,
    proof: Proof,
    a_fin: Seq<u8>,
    s_fin: Seq<u8>,
) -> bool {
    let a3 = a2 + px_of(fc) + py_of(fc);
    let x6 = endo_challenge_of(a3);
    let a4 = a3 + blake2b_of(a3);
    let evs = Seq::new(npts as nat, |i: int| eval_spec(qps[i], x6));
    let s1 = s0 + scalars_bytes(evs);
    let sqv = challenge_of(s1);
    let s2 = s1 + blake2b_of(s1);
    let a5 = a4 + le_bytes(sqv, 32);
    let x7 = endo_challenge_of(a5);
    let a6 = a5 + blake2b_of(a5);
    let finp = fold_polys(fp, qps, x7, npts);
    let finb = fold_vals(fb, qbs, x7, npts);
    &&& fc != id_enc()
    &&& sqv < crate::field::p()
    &&& commit_spec(finp, finb) != h_enc()
    &&& proof.f_commitment@ == fc
    &&& scalar_seq(proof.q_evals@) == evs
    &&& scalar_seq(proof.opening.poly@) == finp
    &&& proof.opening.blind.0@ == finb
    &&& a_fin == a6 + scalars_bytes(finp) + le_bytes(finb, 32)
    &&& s_fin == s2
}

/// What a returned proof is, given the starting transcript states, the
/// points and instances, the value `fb0` of the freshly sampled blind, and
/// the number `kr` of opening retries taken: the two batching challenges
/// come first, the per-point aggregates and folded witness are functions of
/// them, and the successful attempt ran on the blind shifted `kr` times.
#[verifier::opaque]
pub open spec fn create_ok(
    a0: Seq<u8>,
    s0: Seq<u8>,
    pts: Seq<nat>,
    insts: Seq<ProverInstance>,
    proof: Proof,
    a_fin: Seq<u8>,
    s_fin: Seq<u8>,
    fb0: nat,
    kr: nat,
) -> bool {
    let npts = pts.len() as int;
    let x4 = endo_challenge_of(a0);
    let a1 = a0 + blake2b_of(a0);
    let x5 = endo_challenge_of(a1);
    let a2 = a1 + blake2b_of(a1);
    let fp = f_poly_spec(insts, pts, x4, x5, npts);
    &&& fb0 < q()
    &&& attempt_ok(
        a2,
        s0,
        npts,
        qpolys_vals(insts, npts, x4),
        q_blinds_spec(insts, npts, x4),
        fp,
        (fb0 + kr) % q(),
        shift_fc(commit_spec(fp, fb0), kr),
        proof,
        a_fin,
        s_fin,
    )
}

/// One speculative finalization attempt, on forked transcripts: absorb the
/// aggregate commitment, derive the final point `x6`, evaluate every
/// aggregate there, bind the evaluations through the scalar-field
/// transcript back into the main transcript, derive `x7`, fold everything
/// into one polynomial and blind, and open it. On success hand back the
/// proof with the forked transcripts to commit; the live session is never
/// touched.
fn attempt_open(
    params: &Params,
    transcript: &Blake2bWrite,
    transcript_scalar: &ScalarTranscript,
    npts: usize,
    q_polys: &Vec<Option<Vec<Scalar>>>,
    q_blinds: &Vec<Blind>,
    f_poly: &Vec<Scalar>,
    f_blind: &Blind,
    f_commitment: &Point,
) -> (r: Result<(Proof, Blake2bWrite, ScalarTranscript), Error>)
    requires
        params.wf(),
        params.spec_n() >= 1,
        1 <= npts,
        q_polys@.len() == npts,
        forall|w: int|
            0 <= w < npts ==> ((#[trigger] q_polys@[w]) matches Some(v) && v@.len()
                == params.spec_n() && wf_scalars(v@)),
        q_blinds@.len() == npts,
        forall|w: int| 0 <= w < npts ==> (#[trigger] q_blinds@[w]).0.wf(),
        f_poly@.len() == params.spec_n(),
        wf_scalars(f_poly@),
        f_blind.0.wf(),
        f_commitment.wf(),
    ensures
        r matches Ok(out) ==> {
            &&& attempt_ok(
                transcript.absorbed(),
                transcript_scalar.absorbed(),
                npts as int,
                Seq::new(npts as nat, |i: int| scalar_seq(q_polys@[i].unwrap()@)),
                Seq::new(npts as nat, |i: int| q_blinds@[i].0@),
                scalar_seq(f_poly@),
                f_blind.0@,
                f_commitment@,
                out.0,
                out.1.absorbed(),
                out.2.absorbed(),
            )
            &&& out.1.stream() == transcript.stream()
            &&& out.0.q_evals@.len() == npts
            &&& wf_scalars(out.0.q_evals@)
            &&& out.0.f_commitment.wf()
            &&& out.0.opening.wf()
            &&& out.0.opening.poly@.len() == params.spec_n()
        },
{
    proof {
        reveal(attempt_ok);
    }
    let ghost a2 = transcript.absorbed();
    let ghost s0 = transcript_scalar.absorbed();
    let ghost qpsv = Seq::new(npts as nat, |i: int| scalar_seq(q_polys@[i].unwrap()@));
    let ghost qbsv = Seq::new(npts as nat, |i: int| q_blinds@[i].0@);
    let mut t2 = transcript.fork();
    let mut ts2 = transcript_scalar.fork();
    match t2.common_point(*f_commitment) {
        Err(e) => {
            return Err(e);
        },
        Ok(()) => {},
    }
    let ghost a3 = a2 + px_of(f_commitment@) + py_of(f_commitment@);
    let x6s = squeeze_endo(&mut t2);
    let ghost x6 = x6s@;
    let ghost a4 = a3 + blake2b_of(a3);
    let ghost evspec = Seq::new(npts as nat, |i: int| eval_spec(qpsv[i], x6));
    // Evaluate every per-point aggregate at x6.
    let mut evs: Vec<Scalar> = Vec::new();
    let mut pi2: usize = 0;
    while pi2 < npts
        invariant
            pi2 <= npts,
            q_polys@.len() == npts,
            forall|w: int|
                0 <= w < npts ==> ((#[trigger] q_polys@[w]) matches Some(v) && v@.len()
                    == params.spec_n() && wf_scalars(v@)),
            x6s.wf(),
            x6 == x6s@,
            qpsv == Seq::new(npts as nat, |i: int| scalar_seq(q_polys@[i].unwrap()@)),
            evspec == Seq::new(npts as nat, |i: int| eval_spec(qpsv[i], x6)),
            evs@.len() == pi2,
            forall|w: int| 0 <= w < pi2 ==> (#[trigger] evs@[w])@ == evspec[w] && evs@[w].wf(),
        decreases npts - pi2,
    {
        let qp_ref = match &q_polys[pi2] {
            Some(v) => v,
            None => {
                proof {
                    assert(q_polys@[pi2 as int] matches Some(v));
                    assert(false);
                }
                return Err(Error::Synthesis);
            },
        };
        evs.push(eval_polynomial(qp_ref, &x6s));
        pi2 = pi2 + 1;
    }
    // Bind those evaluations through the scalar-field transcript back into
    // the main transcript.
    let mut pi3: usize = 0;
    proof {
        assert(evspec.take(0) =~= Seq::<nat>::empty());
        assert(s0 + scalars_bytes(evspec.take(0)) =~= s0);
    }
    while pi3 < npts
        invariant
            pi3 <= npts,
            evspec.len() == npts,
            evs@.len() == npts,
            forall|w: int| 0 <= w < npts ==> (#[trigger] evs@[w])@ == evspec[w] && evs@[w].wf(),
            ts2.absorbed() == s0 + scalars_bytes(evspec.take(pi3 as int)),
        decreases npts - pi3,
    {
        ts2.absorb(evs[pi3]);
        proof {
            assert(evspec.take(pi3 as int).push(evspec[pi3 as int]) =~= evspec.take(
                pi3 as int + 1,
            ));
            crate::commitment::lemma_scalars_bytes_snoc(
                evspec.take(pi3 as int),
                evspec[pi3 as int],
            );
            assert(s0 + scalars_bytes(evspec.take(pi3 as int)) + le_bytes(evspec[pi3 as int], 32)
                =~= s0 + scalars_bytes(evspec.take(pi3 as int + 1)));
        }
        pi3 = pi3 + 1;
    }
    proof {
        assert(evspec.take(npts as int) =~= evspec);
    }
    let ghost s1 = s0 + scalars_bytes(evspec);
    let sq = ts2.squeeze();
    let sqb = sq.to_bytes();
    if !crate::field::base_accepts(&sqb) {
        return Err(Error::Encoding);
    }
    proof {
        lemma_le_val_bytes_id(sqb@);
    }
    t2.common_base_encoding(&sqb);
    let ghost a5 = a4 + le_bytes(challenge_of(s1), 32);
    let x7s = squeeze_endo(&mut t2);
    let ghost x7 = x7s@;
    let ghost a6 = a5 + blake2b_of(a5);
    // Fold the per-point aggregates and blinds into the final polynomial
    // and blind.
    let mut fbd = f_blind.0;
    let mut fpd = copy_scalars(f_poly);
    let mut pi4: usize = 0;
    while pi4 < npts
        invariant
            pi4 <= npts,
            params.spec_n() >= 1,
            x7s.wf(),
            x7 == x7s@,
            q_polys@.len() == npts,
            forall|w: int|
                0 <= w < npts ==> ((#[trigger] q_polys@[w]) matches Some(v) && v@.len()
                    == params.spec_n() && wf_scalars(v@)),
            q_blinds@.len() == npts,
            forall|w: int| 0 <= w < npts ==> (#[trigger] q_blinds@[w]).0.wf(),
            qpsv == Seq::new(npts as nat, |i: int| scalar_seq(q_polys@[i].unwrap()@)),
            qbsv == Seq::new(npts as nat, |i: int| q_blinds@[i].0@),
            f_blind.0.wf(),
            fbd@ == fold_vals(f_blind.0@, qbsv, x7, pi4 as int),
            fbd.wf(),
            scalar_seq(fpd@) == fold_polys(scalar_seq(f_poly@), qpsv, x7, pi4 as int),
            fpd@.len() == params.spec_n(),
            wf_scalars(fpd@),
            f_poly@.len() == params.spec_n(),
            wf_scalars(f_poly@),
        decreases npts - pi4,
    {
        fbd = fbd.mul(&x7s).add(&q_blinds[pi4].0);
        let qp_ref = match &q_polys[pi4] {
            Some(v) => v,
            None => {
                proof {
                    assert(q_polys@[pi4 as int] matches Some(v));
                    assert(false);
                }
                return Err(Error::Synthesis);
            },
        };
        fold_into(&mut fpd, &x7s, qp_ref);
        pi4 = pi4 + 1;
    }
    let ghost finp = fold_polys(scalar_seq(f_poly@), qpsv, x7, npts as int);
    let ghost finb = fold_vals(f_blind.0@, qbsv, x7, npts as int);
    let ghost fpdv = scalar_seq(fpd@);
    let ghost fbdv = fbd@;
    // Attempt the single-point opening.
    match OpeningProof::create(params, &mut t2, fpd, Blind(fbd)) {
        Ok(op) => {
            let out = Proof {
                q_evals: evs,
                f_commitment: *f_commitment,
                opening: op,
            };
            proof {
                assert(scalar_seq(out.q_evals@) =~= evspec);
                assert(commit_spec(fpdv, fbdv) != h_enc());
            }
            Ok((out, t2, ts2))
        },
        Err(e) => Err(e),
    }
}

/// A copy of a scalar vector.
fn copy_scalars(v: &Vec<Scalar>) -> (r: Vec<Scalar>)
    ensures
        r@ == v@,
{
    let mut out: Vec<Scalar> = Vec::new();
    let mut i: usize = 0;
    while i < v.len()
        invariant
            i <= v@.len(),
            out@ == v@.subrange(0, i as int),
        decreases v@.len() - i,
    {
        out.push(v[i]);
        proof {
            assert(v@.subrange(0, i as int).push(v@[i as int]) =~= v@.subrange(0, i as int + 1));
        }
        i = i + 1;
    }
    proof {
        assert(v@.subrange(0, v@.len() as int) =~= v@);
    }
    out
}

/// Stitch a successful attempt back into the whole-protocol statement:
/// with the batching challenges, aggregates, folded witness, blind, and
/// shifted commitment being what the protocol derives from the starting
/// states, a successful attempt is exactly a successful creation.
proof fn lemma_create_glue(
    a0: Seq<u8>,
    s0: Seq<u8>,
    pts: Seq<nat>,
    insts: Seq<ProverInstance>,
    prf: Proof,
    a_fin: Seq<u8>,
    s_fin: Seq<u8>,
    fb0: nat,
    kr: nat,
    qps: Seq<Seq<nat>>,
    qbs: Seq<nat>,
    fp: Seq<nat>,
    fb: nat,
    fc: Seq<u8>,
)
    requires
        fb0 < q(),
        qps == qpolys_vals(insts, pts.len() as int, endo_challenge_of(a0)),
        qbs == q_blinds_spec(insts, pts.len() as int, endo_challenge_of(a0)),
        fp == f_poly_spec(
            insts,
            pts,
            endo_challenge_of(a0),
            endo_challenge_of(a0 + blake2b_of(a0)),
            pts.len() as int,
        ),
        fb == (fb0 + kr) % q(),
        fc == shift_fc(commit_spec(fp, fb0), kr),
        attempt_ok(
            a0 + blake2b_of(a0) + blake2b_of(a0 + blake2b_of(a0)),
            s0,
            pts.len() as int,
            qps,
            qbs,
            fp,
            fb,
            fc,
            prf,
            a_fin,
            s_fin,
        ),
    ensures
        create_ok(a0, s0, pts, insts, prf, a_fin, s_fin, fb0, kr),
{
    reveal(attempt_ok);
    reveal(create_ok);
}

impl Proof {
    /// Create a multi-opening proof.
    ///
    /// The protocol is strictly sequential: fold everything queried at the
    /// same point into one aggregate per point with the challenge `x4`;
    /// divide each aggregate by `X - point` and fold the witnesses with
    /// `x5`; commit to that under a fresh blind; then run speculative
    /// finalization attempts, each on an independent copy of both
    /// transcripts. An attempt fails only on the degenerate opening; the
    /// blind and its commitment are then shifted by one step and the
    /// attempt retried, up to a defensive cap.
    #[verifier::rlimit(100)]
    #[verifier::spinoff_prover]
    pub fn create(
        params: &Params,
        transcript: &mut Blake2bWrite,
        transcript_scalar: &mut ScalarTranscript,
        points: &Vec<Scalar>,
        instances: &Vec<ProverInstance>,
    ) -> (r: Result<Proof, Error>)
        requires
            params.wf(),
            1 <= points@.len(),
            wf_scalars(points@),
            wf_instances(instances@, points@.len() as int, params.spec_n()),
            covers(instances@, points@.len() as int),
        ensures
            r matches Ok(proof) ==> {
                &&& proof.q_evals@.len() == points@.len()
                &&& wf_scalars(proof.q_evals@)
                &&& proof.f_commitment.wf()
                &&& proof.opening.wf()
                &&& proof.opening.poly@.len() == params.spec_n()
                &&& final(transcript).stream() == old(transcript).stream()
                &&& exists|fb0: nat, kr: nat|
                    #[trigger] create_ok(
                        old(transcript).absorbed(),
                        old(transcript_scalar).absorbed(),
                        scalar_seq(points@),
                        instances@,
                        proof,
                        final(transcript).absorbed(),
                        final(transcript_scalar).absorbed(),
                        fb0,
                        kr,
                    )
            },
            r is Err ==> final(transcript).stream() == old(transcript).stream(),
    {
        let ghost a0 = transcript.absorbed();
        let ghost s0 = transcript_scalar.absorbed();
        let ghost ptsv = scalar_seq(points@);
        let ghost insts = instances@;
        let npts = points.len();
        proof {
            params.lemma_n_pos();
            assert(insts_in_range(insts, npts as int));
            lemma_qspec_len(insts, npts as int, endo_challenge_of(a0));
        }
        // Challenge x4, then collapse openings at the same point into one
        // aggregate polynomial, blind, and evaluation per point.
        let x4s = squeeze_endo(transcript);
        let ghost x4 = x4s@;
        let mut q_polys: Vec<Option<Vec<Scalar>>> = Vec::new();
        let mut q_blinds: Vec<Blind> = Vec::new();
        let mut q_evals: Vec<Scalar> = Vec::new();
        let mut z: usize = 0;
        while z < npts
            invariant
                z <= npts,
                q_polys@.len() == z,
                q_blinds@.len() == z,
                q_evals@.len() == z,
                forall|pi: int| 0 <= pi < z ==> (#[trigger] q_polys@[pi]) is None,
                forall|pi: int|
                    0 <= pi < z ==> (#[trigger] q_blinds@[pi]).0@ == 0 && q_blinds@[pi].0.wf(),
                forall|pi: int|
                    0 <= pi < z ==> (#[trigger] q_evals@[pi])@ == 0 && q_evals@[pi].wf(),
            decreases npts - z,
        {
            q_polys.push(None);
            q_blinds.push(Blind(Scalar::zero()));
            q_evals.push(Scalar::zero());
            z = z + 1;
        }
        proof {
            assert(insts.take(0) =~= Seq::<ProverInstance>::empty());
            assert(forall|pi: int|
                0 <= pi < npts ==> opt_poly_rel(
                    #[trigger] q_polys@[pi],
                    q_polys_spec(insts.take(0), npts as int, x4)[pi],
                    params.spec_n(),
                ));
            assert(forall|pi: int|
                0 <= pi < npts ==> (#[trigger] q_blinds@[pi]).0@ == q_blinds_spec(
                    insts.take(0),
                    npts as int,
                    x4,
                )[pi]);
            assert(forall|pi: int|
                0 <= pi < npts ==> (#[trigger] q_evals@[pi])@ == q_evals_spec(
                    insts.take(0),
                    npts as int,
                    x4,
                )[pi]);
        }
        let mut j: usize = 0;
        while j < instances.len()
            invariant
                j <= insts.len(),
                insts == instances@,
                npts == points@.len(),
                wf_instances(insts, npts as int, params.spec_n()),
                x4s.wf(),
                x4 == x4s@,
                q_polys@.len() == npts,
                q_blinds@.len() == npts,
                q_evals@.len() == npts,
                forall|pi: int|
                    0 <= pi < npts ==> opt_poly_rel(
                        #[trigger] q_polys@[pi],
                        q_polys_spec(insts.take(j as int), npts as int, x4)[pi],
                        params.spec_n(),
                    ),
                forall|pi: int|
                    0 <= pi < npts ==> (#[trigger] q_blinds@[pi]).0@ == q_blinds_spec(
                        insts.take(j as int),
                        npts as int,
                        x4,
                    )[pi] && q_blinds@[pi].0.wf(),
                forall|pi: int|
                    0 <= pi < npts ==> (#[trigger] q_evals@[pi])@ == q_evals_spec(
                        insts.take(j as int),
                        npts as int,
                        x4,
                    )[pi] && q_evals@[pi].wf(),
            decreases insts.len() - j,
        {
            let ghost pref = insts.take(j as int);
            let ghost prefn = insts.take(j as int + 1);
            proof {
                assert(prefn.drop_last() =~= pref);
                assert(prefn.last() == insts[j as int]);
                assert(insts_in_range(pref, npts as int)) by {
                    assert(forall|w: int| 0 <= w < j ==> pref[w] == #[trigger] insts[w]);
                }
                lemma_qspec_len(pref, npts as int, x4);
            }
            let pi = instances[j].point_index;
            let slot = vstd::std_specs::vec::vec_index_mut(&mut q_polys, pi);
            match slot {
                None => {
                    *slot = Some(copy_scalars(&instances[j].poly));
                },
                Some(accv) => {
                    fold_into(accv, &x4s, &instances[j].poly);
                },
            }
            let nb = q_blinds[pi].0.mul(&x4s).add(&instances[j].blind.0);
            q_blinds[pi] = Blind(nb);
            let ne = q_evals[pi].mul(&x4s).add(&instances[j].eval);
            q_evals[pi] = ne;
            j = j + 1;
        }
        proof {
            assert(insts.take(insts.len() as int) =~= insts);
        }
        // Challenge x5, then fold the per-point Kate witnesses into one
        // polynomial.
        let x5s = squeeze_endo(transcript);
        let ghost x5 = x5s@;
        let mut f_poly: Vec<Scalar> = Vec::new();
        let mut pi: usize = 0;
        while pi < npts
            invariant
                pi <= npts,
                insts == instances@,
                npts == points@.len(),
                ptsv == scalar_seq(points@),
                wf_scalars(points@),
                wf_instances(insts, npts as int, params.spec_n()),
                covers(insts, npts as int),
                params.wf(),
                params.spec_n() >= 1,
                x4s.wf(),
                x4 == x4s@,
                x5s.wf(),
                x5 == x5s@,
                q_polys@.len() == npts,
                forall|pi2: int|
                    0 <= pi2 < npts ==> opt_poly_rel(
                        #[trigger] q_polys@[pi2],
                        q_polys_spec(insts, npts as int, x4)[pi2],
                        params.spec_n(),
                    ),
                q_evals@.len() == npts,
                forall|pi2: int|
                    0 <= pi2 < npts ==> (#[trigger] q_evals@[pi2])@ == q_evals_spec(
                        insts,
                        npts as int,
                        x4,
                    )[pi2] && q_evals@[pi2].wf(),
                pi >= 1 ==> scalar_seq(f_poly@) == f_poly_spec(insts, ptsv, x4, x5, pi as int)
                    && f_poly@.len() == params.spec_n() && wf_scalars(f_poly@),
            decreases npts - pi,
        {
            proof {
                assert(point_covered(insts, pi as int));
                assert(insts_in_range(insts, npts as int));
                lemma_qpolys_covered(insts, npts as int, x4, pi as int);
            }
            let qp_ref = match &q_polys[pi] {
                Some(v) => v,
                None => {
                    proof {
                        assert(false);
                    }
                    return Err(Error::Synthesis);
                },
            };
            let mut w = copy_scalars(qp_ref);
            let w0 = w[0].sub(&q_evals[pi]);
            w[0] = w0;
            let ghost qpv = q_polys_spec(insts, npts as int, x4)[pi as int].unwrap();
            let ghost evv = q_evals_spec(insts, npts as int, x4)[pi as int];
            let ghost m = qpv.update(0, (((qpv[0] + q() - evv) % (q() as int)) as nat));
            proof {
                assert(scalar_seq(w@) =~= m);
            }
            let mut kd = kate_division(&w, &points[pi]);
            let ghost kdv = kd@;
            kd.push(Scalar::zero());
            proof {
                let wv = witness_of(qpv, evv, ptsv[pi as int]);
                assert forall|i2: int| 0 <= i2 < kd@.len() implies scalar_seq(kd@)[i2] == wv[i2]
                    && kd@[i2].wf() by {
                    if i2 < kdv.len() {
                        assert(kd@[i2] == kdv[i2]);
                        assert(scalar_seq(kdv)[i2] == kate_at(
                            scalar_seq(w@),
                            points@[pi as int]@,
                            i2,
                        ));
                        assert(points@[pi as int]@ == ptsv[pi as int]);
                    } else {
                        assert(kd@[i2]@ == 0);
                    }
                }
                assert(scalar_seq(kd@) =~= wv);
            }
            if pi == 0 {
                f_poly = kd;
            } else {
                fold_into(&mut f_poly, &x5s, &kd);
            }
            pi = pi + 1;
        }
        let ghost fpv = f_poly_spec(insts, ptsv, x4, x5, npts as int);
        // Commit to the folded witness under a fresh blind.
        let mut f_blind = Blind(Scalar::random());
        let ghost fb0 = f_blind.0@;
        let mut f_commitment = params.commit(&f_poly, &f_blind);
        let ghost a2 = transcript.absorbed();
        let ghost w_pre = transcript.stream();
        let ghost qpsv = qpolys_vals(insts, npts as int, x4);
        let ghost qbsv = q_blinds_spec(insts, npts as int, x4);
        proof {
            assert forall|w: int| 0 <= w < npts implies ((#[trigger] q_polys@[w]) matches Some(v)
                && v@.len() == params.spec_n() && wf_scalars(v@)) by {
                assert(point_covered(insts, w));
                assert(insts_in_range(insts, npts as int));
                lemma_qpolys_covered(insts, npts as int, x4, w);
                assert(opt_poly_rel(
                    q_polys@[w],
                    q_polys_spec(insts, npts as int, x4)[w],
                    params.spec_n(),
                ));
            }
            lemma_qspec_len(insts, npts as int, x4);
            assert(Seq::new(npts as nat, |i: int| scalar_seq(q_polys@[i].unwrap()@)) =~= qpsv);
            assert(Seq::new(npts as nat, |i: int| q_blinds@[i].0@) =~= qbsv);
        }
        // Speculative finalization attempts.
        let mut attempt: usize = 0;
        while attempt < RETRY_LIMIT
            invariant
                attempt <= RETRY_LIMIT,
                insts == instances@,
                npts == points@.len(),
                1 <= npts,
                ptsv == scalar_seq(points@),
                a0 == old(transcript).absorbed(),
                s0 == old(transcript_scalar).absorbed(),
                wf_instances(insts, npts as int, params.spec_n()),
                covers(insts, npts as int),
                params.wf(),
                params.spec_n() >= 1,
                x4 == endo_challenge_of(a0),
                x5 == endo_challenge_of(a0 + blake2b_of(a0)),
                a2 == a0 + blake2b_of(a0) + blake2b_of(a0 + blake2b_of(a0)),
                transcript.absorbed() == a2,
                transcript.stream() == w_pre,
                w_pre == old(transcript).stream(),
                transcript_scalar.absorbed() == s0,
                q_polys@.len() == npts,
                forall|pi2: int|
                    0 <= pi2 < npts ==> opt_poly_rel(
                        #[trigger] q_polys@[pi2],
                        q_polys_spec(insts, npts as int, x4)[pi2],
                        params.spec_n(),
                    ),
                q_blinds@.len() == npts,
                forall|pi2: int|
                    0 <= pi2 < npts ==> (#[trigger] q_blinds@[pi2]).0@ == q_blinds_spec(
                        insts,
                        npts as int,
                        x4,
                    )[pi2] && q_blinds@[pi2].0.wf(),
                scalar_seq(f_poly@) == fpv,
                fpv == f_poly_spec(insts, ptsv, x4, x5, npts as int),
                f_poly@.len() == params.spec_n(),
                wf_scalars(f_poly@),
                fb0 < q(),
                f_blind.0@ == (fb0 + attempt as nat) % q(),
                f_blind.0.wf(),
                f_commitment@ == shift_fc(commit_spec(fpv, fb0), attempt as nat),
                f_commitment.wf(),
                forall|w: int|
                    0 <= w < npts ==> ((#[trigger] q_polys@[w]) matches Some(v) && v@.len()
                        == params.spec_n() && wf_scalars(v@)),
                qpsv == qpolys_vals(insts, npts as int, x4),
                qbsv == q_blinds_spec(insts, npts as int, x4),
                Seq::new(npts as nat, |i: int| scalar_seq(q_polys@[i].unwrap()@)) == qpsv,
                Seq::new(npts as nat, |i: int| q_blinds@[i].0@) == qbsv,
            decreases RETRY_LIMIT - attempt,
        {
            match attempt_open(
                params,
                transcript,
                transcript_scalar,
                npts,
                &q_polys,
                &q_blinds,
                &f_poly,
                &f_blind,
                &f_commitment,
            ) {
                Ok((out, t2, ts2)) => {
                    proof {
                        lemma_create_glue(
                            a0,
                            s0,
                            ptsv,
                            insts,
                            out,
                            t2.absorbed(),
                            ts2.absorbed(),
                            fb0,
                            attempt as nat,
                            qpsv,
                            qbsv,
                            fpv,
                            f_blind.0@,
                            f_commitment@,
                        );
                    }
                    let ghost kr = attempt as nat;
                    let ghost t2a = t2.absorbed();
                    let ghost ts2a = ts2.absorbed();
                    *transcript = t2;
                    *transcript_scalar = ts2;
                    proof {
                        assert(create_ok(a0, s0, ptsv, insts, out, t2a, ts2a, fb0, kr));
                    }
                    return Ok(out);
                },
                Err(e) => {
                    match e {
                        Error::OpeningConstruction => {
                            let nb = f_blind.0.add(&Scalar::one());
                            proof {
                                vstd::arithmetic::div_mod::lemma_small_mod(1nat, q());
                                vstd::arithmetic::div_mod::lemma_add_mod_noop(
                                    (fb0 + attempt as nat) as int,
                                    1,
                                    q() as int,
                                );
                            }
                            f_blind = Blind(nb);
                            f_commitment = f_commitment.add(&params.blinding_generator());
                        },
                        _ => {
                            return Err(e);
                        },
                    }
                },
            }
            attempt = attempt + 1;
        }
        Err(Error::RetryLimit)
    }
}

} // verus!
