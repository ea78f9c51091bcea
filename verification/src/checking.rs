//! The multi-point opening verifier: replays the prover's transcript
//! absorptions, folds the claimed commitments and evaluations with the same
//! challenges, and checks the single-point opening against the folded
//! commitment and expected value.

use vstd::prelude::*;

use crate::Error;
use crate::commitment::scalars_bytes;
use crate::curve::Point;
use crate::curve::id_enc;
use crate::curve::pt_add_of;
use crate::curve::pt_mul_of;
use crate::curve::px_of;
use crate::curve::py_of;
use crate::field::Scalar;
use crate::field::q;
use crate::limbs::le_bytes;
use crate::limbs::le_val;
use crate::limbs::lemma_le_val_bytes_id;
use crate::multiopen::Proof;
use crate::multiopen::endo_challenge_of;
use crate::multiopen::fold_val;
use crate::multiopen::fold_vals;
use crate::multiopen::squeeze_endo;
use crate::params::Params;
use crate::params::commit_spec;
use crate::poly::eval_spec;
use crate::poly::scalar_seq;
use crate::poly::wf_scalars;
use crate::transcript::Blake2bRead;
use crate::transcript::ScalarTranscript;
use crate::transcript::Transcript;
use crate::transcript::blake2b_of;
use crate::transcript::challenge_of;

verus! {

/// One instance handed to the verifier: the index of the point opened at,
/// the commitment to the polynomial, and the claimed evaluation.
pub struct VerifierInstance {
    pub point_index: usize,
    pub commitment: Point,
    pub eval: Scalar,
}

/// Every instance points at a real point index and is well formed.
pub open spec fn wf_vinstances(vinsts: Seq<VerifierInstance>, npts: int) -> bool {
    forall|j: int|
        0 <= j < vinsts.len() ==> (#[trigger] vinsts[j]).point_index < npts
            && vinsts[j].commitment.wf() && vinsts[j].eval.wf()
}

/// Some instance points at point index `pi`.
pub open spec fn vpoint_covered(vinsts: Seq<VerifierInstance>, pi: int) -> bool {
    exists|j: int| 0 <= j < vinsts.len() && (#[trigger] vinsts[j]).point_index == pi
}

/// Every point index is hit by at least one instance.
pub open spec fn vcovers(vinsts: Seq<VerifierInstance>, npts: int) -> bool {
    forall|pi: int| 0 <= pi < npts ==> #[trigger] vpoint_covered(vinsts, pi)
}

/// The per-point aggregate commitments after folding the instances in order
/// with `x4`: the commitment-side mirror of the prover's polynomial fold.
pub open spec fn v_comms_spec(vinsts: Seq<VerifierInstance>, npts: int, x4: nat) -> Seq<
    Option<Seq<u8>>,
>
    decreases vinsts.len(),
{
    if vinsts.len() == 0 {
        Seq::new(npts as nat, |i: int| None)
    } else {
        let rest = v_comms_spec(vinsts.drop_last(), npts, x4);
        let l = vinsts.last();
        let pi = l.point_index as int;
        rest.update(
            pi,
            Some(
                match rest[pi] {
                    None => l.commitment@,
                    Some(acc) => pt_add_of(pt_mul_of(x4, acc), l.commitment@),
                },
            ),
        )
    }
}

/// The per-point aggregate claimed evaluations, folded from zero.
pub open spec fn v_evals_spec(vinsts: Seq<VerifierInstance>, npts: int, x4: nat) -> Seq<nat>
    decreases vinsts.len(),
{
    if vinsts.len() == 0 {
        Seq::new(npts as nat, |i: int| 0nat)
    } else {
        let rest = v_evals_spec(vinsts.drop_last(), npts, x4);
        let l = vinsts.last();
        let pi = l.point_index as int;
        rest.update(pi, fold_val(rest[pi], x4, l.eval@))
    }
}

/// The folded structures keep one entry per point.
pub proof fn lemma_vspec_len(vinsts: Seq<VerifierInstance>, npts: int, x4: nat)
    requires
        npts >= 0,
        wf_vinstances(vinsts, npts),
    ensures
        v_comms_spec(vinsts, npts, x4).len() == npts,
        v_evals_spec(vinsts, npts, x4).len() == npts,
    decreases vinsts.len(),
{
    if vinsts.len() > 0 {
        assert(wf_vinstances(vinsts.drop_last(), npts)) by {
            assert(forall|j: int|
                0 <= j < vinsts.len() - 1 ==> vinsts.drop_last()[j] == #[trigger] vinsts[j]);
        }
        lemma_vspec_len(vinsts.drop_last(), npts, x4);
    }
}

/// A point index hit by some instance has an aggregate commitment.
pub proof fn lemma_vcomms_covered(vinsts: Seq<VerifierInstance>, npts: int, x4: nat, pi: int)
    requires
        vpoint_covered(vinsts, pi),
        0 <= pi < npts,
        wf_vinstances(vinsts, npts),
    ensures
        v_comms_spec(vinsts, npts, x4)[pi] is Some,
    decreases vinsts.len(),
{
    lemma_vspec_len(vinsts, npts, x4);
    let j = choose|j: int| 0 <= j < vinsts.len() && (#[trigger] vinsts[j]).point_index == pi;
    assert(wf_vinstances(vinsts.drop_last(), npts)) by {
        assert(forall|w: int|
            0 <= w < vinsts.len() - 1 ==> vinsts.drop_last()[w] == #[trigger] vinsts[w]);
    }
    if j == vinsts.len() - 1 {
        lemma_vspec_len(vinsts.drop_last(), npts, x4);
    } else {
        assert(vinsts.drop_last()[j] == vinsts[j]);
        assert(vpoint_covered(vinsts.drop_last(), pi));
        lemma_vcomms_covered(vinsts.drop_last(), npts, x4, pi);
        lemma_vspec_len(vinsts.drop_last(), npts, x4);
    }
}

/// The multiplicative inverse of `d` in the scalar field, when one exists.
pub open spec fn inv_mod(d: nat) -> nat {
    choose|w: nat| w < q() && #[trigger] ((w * d) % q()) == 1
}

/// Inverses are unique, so whatever the field library returns as an inverse
/// is the inverse.
pub proof fn lemma_invert_is_inv_mod(d: nat, w: nat)
    requires
        w < q(),
        (w * d) % q() == 1,
    ensures
        inv_mod(d) == w,
{
    assert(exists|x: nat| x < q() && #[trigger] ((x * d) % q()) == 1) by {
        assert(w < q() && (w * d) % q() == 1);
    }
    let w2 = inv_mod(d);
    assert(w2 < q() && (w2 * d) % q() == 1);
    // w == w * ((w2 * d) % q) % q == (w * w2 * d) % q == w2 * ((w * d) % q) % q == w2.
    vstd::arithmetic::div_mod::lemma_small_mod(w, q());
    vstd::arithmetic::div_mod::lemma_small_mod(w2, q());
    assert((w * ((w2 * d) % q())) % q() == (w * (w2 * d)) % q()) by {
        vstd::arithmetic::div_mod::lemma_mul_mod_noop_general(
            w as int,
            (w2 * d) as int,
            q() as int,
        );
    }
    assert((w2 * ((w * d) % q())) % q() == (w2 * (w * d)) % q()) by {
        vstd::arithmetic::div_mod::lemma_mul_mod_noop_general(
            w2 as int,
            (w * d) as int,
            q() as int,
        );
    }
    assert(w * (w2 * d) == w2 * (w * d)) by (nonlinear_arith);
    assert((w * 1nat) % q() == w % q());
    assert((w2 * 1nat) % q() == w2 % q());
}

/// The expected evaluation at `x6` of the folded witness polynomial: the
/// per-point difference between the proof's evaluation and the claimed one,
/// divided by `x6 - point`, folded with `x5`.
pub open spec fn f_eval_spec(
    evs_p: Seq<nat>,
    evs_c: Seq<nat>,
    pts: Seq<nat>,
    x5: nat,
    x6: nat,
    n: int,
) -> nat
    decreases n,
{
    let d = ((evs_p[n - 1] + q() - evs_c[n - 1]) % (q() as int)) as nat;
    let dz = ((x6 + q() - pts[n - 1]) % (q() as int)) as nat;
    let term = (d * inv_mod(dz)) % q();
    if n <= 1 {
        term
    } else {
        fold_val(f_eval_spec(evs_p, evs_c, pts, x5, x6, n - 1), x5, term)
    }
}

/// The per-point aggregate commitments of the first `n` points folded into
/// `fc` with `x7`: the commitment the final opening is checked against.
pub open spec fn fold_comms(fc: Seq<u8>, comms: Seq<Seq<u8>>, x7: nat, n: int) -> Seq<u8>
    decreases n,
{
    if n <= 0 {
        fc
    } else {
        pt_add_of(pt_mul_of(x7, fold_comms(fc, comms, x7, n - 1)), comms[n - 1])
    }
}

/// Whether the verifier accepts: with every challenge derived exactly as the
/// prover derives it, no queried point may collide with `x6`, and the
/// revealed opening must commit to the folded aggregate commitment and
/// evaluate to the folded expected value.
#[verifier::opaque]
pub open spec fn verify_decision(
    a0: Seq<u8>,
    s0: Seq<u8>,
    pts: Seq<nat>,
    vinsts: Seq<VerifierInstance>,
    prf: Proof,
) -> bool {
    let npts = pts.len() as int;
    let x4 = endo_challenge_of(a0);
    let a1 = a0 + blake2b_of(a0);
    let x5 = endo_challenge_of(a1);
    let a2 = a1 + blake2b_of(a1);
    let fc = prf.f_commitment@;
    let a3 = a2 + px_of(fc) + py_of(fc);
    let x6 = endo_challenge_of(a3);
    let a4 = a3 + blake2b_of(a3);
    let evs_p = scalar_seq(prf.q_evals@);
    let s1 = s0 + scalars_bytes(evs_p);
    let sqv = challenge_of(s1);
    let a5 = a4 + le_bytes(sqv, 32);
    let x7 = endo_challenge_of(a5);
    let evs_c = v_evals_spec(vinsts, npts, x4);
    let f_ev = f_eval_spec(evs_p, evs_c, pts, x5, x6, npts);
    let v_fin = fold_vals(f_ev, evs_p, x7, npts);
    let c_fin = fold_comms(
        fc,
        Seq::new(pts.len(), |i: int| v_comms_spec(vinsts, npts, x4)[i].unwrap()),
        x7,
        npts,
    );
    &&& (forall|i: int| 0 <= i < npts ==> (x6 + q() - pts[i]) % (q() as int) != 0)
    &&& commit_spec(scalar_seq(prf.opening.poly@), prf.opening.blind.0@) == c_fin
    &&& eval_spec(scalar_seq(prf.opening.poly@), x6) == v_fin
}

impl Proof {
    /// Check a multi-opening proof against the claimed per-point
    /// commitments and evaluations, replaying the prover's transcript
    /// sequence exactly. Yields the pass/fail outcome of the algebraic
    /// check; fails with an error only on the malformed structures the
    /// prover also rejects: an identity aggregate commitment, or a
    /// scalar-transcript binding outside the base field.
    #[verifier::rlimit(100)]
    pub fn verify(
        &self,
        params: &Params,
        transcript: &mut Blake2bRead,
        transcript_scalar: &mut ScalarTranscript,
        points: &Vec<Scalar>,
        instances: &Vec<VerifierInstance>,
    ) -> (r: Result<bool, Error>)
        requires
            params.wf(),
            1 <= points@.len(),
            wf_scalars(points@),
            wf_vinstances(instances@, points@.len() as int),
            vcovers(instances@, points@.len() as int),
            self.q_evals@.len() == points@.len(),
            wf_scalars(self.q_evals@),
            self.f_commitment.wf(),
            self.opening.wf(),
            self.opening.poly@.len() <= params.spec_n(),
        ensures
            r matches Ok(b) ==> b == verify_decision(
                old(transcript).absorbed(),
                old(transcript_scalar).absorbed(),
                scalar_seq(points@),
                instances@,
                *self,
            ),
            r is Err ==> (r == Err::<bool, Error>(Error::IdentityPoint) && self.f_commitment@
                == id_enc()) || r == Err::<bool, Error>(Error::Encoding),
            self.f_commitment@ != id_enc() && challenge_of(
                old(transcript_scalar).absorbed() + scalars_bytes(scalar_seq(self.q_evals@)),
            ) < crate::field::p() ==> r is Ok,
    {
        proof {
            reveal(verify_decision);
        }
        let ghost a0 = transcript.absorbed();
        let ghost s0 = transcript_scalar.absorbed();
        let ghost ptsv = scalar_seq(points@);
        let ghost vinsts = instances@;
        let npts = points.len();
        // Challenge x4, then fold the claimed commitments and evaluations
        // per point, mirroring the prover's polynomial fold.
        let x4s = squeeze_endo(transcript);
        let ghost x4 = x4s@;
        let mut q_comms: Vec<Option<Point>> = Vec::new();
        let mut evs_c: Vec<Scalar> = Vec::new();
        let mut z: usize = 0;
        while z < npts
            invariant
                z <= npts,
                q_comms@.len() == z,
                evs_c@.len() == z,
                forall|pi: int| 0 <= pi < z ==> (#[trigger] q_comms@[pi]) is None,
                forall|pi: int|
                    0 <= pi < z ==> (#[trigger] evs_c@[pi])@ == 0 && evs_c@[pi].wf(),
            decreases npts - z,
        {
            q_comms.push(None);
            evs_c.push(Scalar::zero());
            z = z + 1;
        }
        proof {
            assert(vinsts.take(0) =~= Seq::<VerifierInstance>::empty());
            assert(forall|pi: int|
                0 <= pi < npts ==> (#[trigger] v_comms_spec(vinsts.take(0), npts as int, x4)[pi])
                    is None);
        }
        let mut j: usize = 0;
        while j < instances.len()
            invariant
                j <= vinsts.len(),
                vinsts == instances@,
                npts == points@.len(),
                wf_vinstances(vinsts, npts as int),
                x4s.wf(),
                x4 == x4s@,
                q_comms@.len() == npts,
                evs_c@.len() == npts,
                forall|pi: int|
                    0 <= pi < npts ==> (match #[trigger] q_comms@[pi] {
                        None => v_comms_spec(vinsts.take(j as int), npts as int, x4)[pi] is None,
                        Some(c) => v_comms_spec(vinsts.take(j as int), npts as int, x4)[pi]
                            == Some(c@) && c.wf(),
                    }),
                forall|pi: int|
                    0 <= pi < npts ==> (#[trigger] evs_c@[pi])@ == v_evals_spec(
                        vinsts.take(j as int),
                        npts as int,
                        x4,
                    )[pi] && evs_c@[pi].wf(),
            decreases vinsts.len() - j,
        {
            let ghost pref = vinsts.take(j as int);
            let ghost prefn = vinsts.take(j as int + 1);
            proof {
                assert(prefn.drop_last() =~= pref);
                assert(prefn.last() == vinsts[j as int]);
                assert(wf_vinstances(pref, npts as int)) by {
                    assert(forall|w: int| 0 <= w < j ==> pref[w] == #[trigger] vinsts[w]);
                }
                lemma_vspec_len(pref, npts as int, x4);
            }
            let pi = instances[j].point_index;
            let cur = match &q_comms[pi] {
                None => instances[j].commitment,
                Some(acc) => acc.mul(&x4s).add(&instances[j].commitment),
            };
            q_comms[pi] = Some(cur);
            let ne = evs_c[pi].mul(&x4s).add(&instances[j].eval);
            evs_c[pi] = ne;
            j = j + 1;
        }
        proof {
            assert(vinsts.take(vinsts.len() as int) =~= vinsts);
        }
        // Challenge x5, then absorb the aggregate witness commitment and
        // derive the final evaluation point x6.
        let x5s = squeeze_endo(transcript);
        let ghost x5 = x5s@;
        match transcript.common_point(self.f_commitment) {
            Err(e) => {
                return Err(e);
            },
            Ok(()) => {},
        }
        let x6s = squeeze_endo(transcript);
        let ghost x6 = x6s@;
        // Bind the proof's evaluations through the scalar-field transcript
        // back into the main transcript, exactly as the prover did.
        let ghost evs_p = scalar_seq(self.q_evals@);
        let mut pi3: usize = 0;
        proof {
            assert(evs_p.take(0) =~= Seq::<nat>::empty());
            assert(s0 + scalars_bytes(evs_p.take(0)) =~= s0);
        }
        while pi3 < npts
            invariant
                pi3 <= npts,
                npts == self.q_evals@.len(),
                wf_scalars(self.q_evals@),
                evs_p == scalar_seq(self.q_evals@),
                transcript_scalar.absorbed() == s0 + scalars_bytes(evs_p.take(pi3 as int)),
            decreases npts - pi3,
        {
            transcript_scalar.absorb(self.q_evals[pi3]);
            proof {
                assert(evs_p.take(pi3 as int).push(evs_p[pi3 as int]) =~= evs_p.take(
                    pi3 as int + 1,
                ));
                crate::commitment::lemma_scalars_bytes_snoc(
                    evs_p.take(pi3 as int),
                    evs_p[pi3 as int],
                );
                assert(s0 + scalars_bytes(evs_p.take(pi3 as int)) + le_bytes(
                    evs_p[pi3 as int],
                    32,
                ) =~= s0 + scalars_bytes(evs_p.take(pi3 as int + 1)));
            }
            pi3 = pi3 + 1;
        }
        proof {
            assert(evs_p.take(npts as int) =~= evs_p);
        }
        let sq = transcript_scalar.squeeze();
        let sqb = sq.to_bytes();
        if !crate::field::base_accepts(&sqb) {
            return Err(Error::Encoding);
        }
        proof {
            lemma_le_val_bytes_id(sqb@);
        }
        transcript.common_base_encoding(&sqb);
        let x7s = squeeze_endo(transcript);
        let ghost x7 = x7s@;
        // The expected evaluation of the folded witness at x6.
        let ghost evcspec = v_evals_spec(vinsts, npts as int, x4);
        let mut f_ev = Scalar::zero();
        let mut i: usize = 0;
        while i < npts
            invariant
                i <= npts,
                npts == points@.len(),
                ptsv == scalar_seq(points@),
                wf_scalars(points@),
                npts == self.q_evals@.len(),
                wf_scalars(self.q_evals@),
                evs_p == scalar_seq(self.q_evals@),
                evs_c@.len() == npts,
                forall|pi: int|
                    0 <= pi < npts ==> (#[trigger] evs_c@[pi])@ == evcspec[pi] && evs_c@[pi].wf(),
                x5s.wf(),
                x5 == x5s@,
                x6s.wf(),
                x6 == x6s@,
                a0 == old(transcript).absorbed(),
                s0 == old(transcript_scalar).absorbed(),
                vinsts == instances@,
                x6 == endo_challenge_of(
                    a0 + blake2b_of(a0) + blake2b_of(a0 + blake2b_of(a0)) + px_of(
                        self.f_commitment@,
                    ) + py_of(self.f_commitment@),
                ),
                f_ev.wf(),
                i >= 1 ==> f_ev@ == f_eval_spec(evs_p, evcspec, ptsv, x5, x6, i as int),
                forall|w: int|
                    0 <= w < i ==> (x6 + q() - ptsv[w]) % (q() as int) != 0,
            decreases npts - i,
        {
            let d = self.q_evals[i].sub(&evs_c[i]);
            let dz = x6s.sub(&points[i]);
            let inv = match dz.invert() {
                None => {
                    proof {
                        reveal(verify_decision);
                        assert((x6 + q() - ptsv[i as int]) % (q() as int) == 0);
                        assert(!verify_decision(a0, s0, ptsv, vinsts, *self));
                    }
                    return Ok(false);
                },
                Some(inv) => inv,
            };
            proof {
                lemma_invert_is_inv_mod(dz@, inv@);
            }
            let term = d.mul(&inv);
            if i == 0 {
                f_ev = term;
            } else {
                f_ev = f_ev.mul(&x5s).add(&term);
            }
            i = i + 1;
        }
        // Fold the aggregates into the final expected value and commitment.
        let ghost ccspec = Seq::new(
            ptsv.len(),
            |w: int| v_comms_spec(vinsts, npts as int, x4)[w].unwrap(),
        );
        let mut v_fin = f_ev;
        let mut c_fin = self.f_commitment;
        let mut i2: usize = 0;
        while i2 < npts
            invariant
                i2 <= npts,
                npts == points@.len(),
                npts == self.q_evals@.len(),
                wf_scalars(self.q_evals@),
                evs_p == scalar_seq(self.q_evals@),
                q_comms@.len() == npts,
                forall|pi: int|
                    0 <= pi < npts ==> (match #[trigger] q_comms@[pi] {
                        None => v_comms_spec(vinsts, npts as int, x4)[pi] is None,
                        Some(c) => v_comms_spec(vinsts, npts as int, x4)[pi] == Some(c@)
                            && c.wf(),
                    }),
                ccspec == Seq::new(
                    ptsv.len(),
                    |w: int| v_comms_spec(vinsts, npts as int, x4)[w].unwrap(),
                ),
                npts == ptsv.len(),
                wf_vinstances(vinsts, npts as int),
                vcovers(vinsts, npts as int),
                x7s.wf(),
                x7 == x7s@,
                f_ev.wf(),
                v_fin.wf(),
                v_fin@ == fold_vals(f_ev@, evs_p, x7, i2 as int),
                c_fin.wf(),
                c_fin@ == fold_comms(self.f_commitment@, ccspec, x7, i2 as int),
            decreases npts - i2,
        {
            v_fin = v_fin.mul(&x7s).add(&self.q_evals[i2]);
            let qc = match &q_comms[i2] {
                Some(c) => c,
                None => {
                    proof {
                        assert(vpoint_covered(vinsts, i2 as int));
                        lemma_vcomms_covered(vinsts, npts as int, x4, i2 as int);
                        assert(false);
                    }
                    return Err(Error::Encoding);
                },
            };
            c_fin = c_fin.mul(&x7s).add(qc);
            i2 = i2 + 1;
        }
        // Check the single-point opening against the folded commitment and
        // expected value, replaying its transcript binding.
        let ok = self.opening.verify(params, transcript, &c_fin, &x6s, &v_fin);
        Ok(ok)
    }
}

} // verus!
