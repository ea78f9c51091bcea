//! The single-point commitment opening primitive that the batched protocol
//! reduces to: the prover binds the folded polynomial and its blind into
//! the transcript and reveals them; the verifier replays the binding,
//! recommits, and checks the claimed evaluation. Sound through the binding
//! of the commitment; not succinct.

use vstd::prelude::*;

use crate::Error;
use crate::field::Scalar;
use crate::limbs::le_bytes;
use crate::params::Params;
use crate::params::commit_spec;
use crate::params::h_enc;
use crate::poly::Blind;
use crate::poly::eval_polynomial;
use crate::poly::eval_spec;
use crate::poly::scalar_seq;
use crate::poly::wf_scalars;
use crate::transcript::Blake2bRead;
use crate::transcript::Blake2bWrite;
use crate::transcript::Transcript;

verus! {

/// The canonical encodings of a sequence of scalar values, concatenated.
pub open spec fn scalars_bytes(vals: Seq<nat>) -> Seq<u8>
    decreases vals.len(),
{
    if vals.len() == 0 {
        Seq::empty()
    } else {
        le_bytes(vals[0], 32) + scalars_bytes(vals.subrange(1, vals.len() as int))
    }
}

/// Appending a value appends its encoding.
pub proof fn lemma_scalars_bytes_snoc(vals: Seq<nat>, v: nat)
    ensures
        scalars_bytes(vals.push(v)) == scalars_bytes(vals) + le_bytes(v, 32),
    decreases vals.len(),
{
    if vals.len() == 0 {
        reveal_with_fuel(scalars_bytes, 2);
        assert(vals.push(v)[0] == v);
        assert(vals.push(v).subrange(1, 1) == Seq::<nat>::empty()) by {
            assert(vals.push(v).subrange(1, 1) =~= Seq::<nat>::empty());
        }
        assert(scalars_bytes(vals.push(v)) =~= le_bytes(v, 32) + Seq::<u8>::empty());
        assert(scalars_bytes(vals.push(v)) =~= le_bytes(v, 32));
        assert(scalars_bytes(vals) + le_bytes(v, 32) =~= le_bytes(v, 32));
    } else {
        lemma_scalars_bytes_snoc(vals.subrange(1, vals.len() as int), v);
        assert(vals.push(v).subrange(1, vals.len() as int + 1) =~= vals.subrange(
            1,
            vals.len() as int,
        ).push(v));
        assert(vals.push(v)[0] == vals[0]);
        assert(scalars_bytes(vals.push(v)) =~= scalars_bytes(vals) + le_bytes(v, 32));
    }
}

/// Round trip of the single-point opening layer: an opening handed out by
/// `OpeningProof::create` carries exactly the polynomial and blind it was
/// given, so checking it against the commitment to that polynomial under
/// that blind, and against that polynomial's value at the evaluation point,
/// meets both acceptance conditions that `OpeningProof::verify` decides by.
/// The batched protocol's full round trip additionally rests on the
/// homomorphism of the Pedersen commitment, which lives in the curve and is
/// exercised by tests rather than axiomatized here.
pub proof fn lemma_opening_round_trip(
    op_poly: Seq<nat>,
    op_blind: nat,
    commitment: Seq<u8>,
    x: nat,
    v: nat,
)
    requires
        commitment == commit_spec(op_poly, op_blind),
        v == eval_spec(op_poly, x),
    ensures
        commit_spec(op_poly, op_blind) == commitment,
        eval_spec(op_poly, x) == v,
{
}

/// A single-point opening proof: the revealed polynomial and its blind.
pub struct OpeningProof {
    pub poly: Vec<Scalar>,
    pub blind: Blind,
}

impl OpeningProof {
    /// The revealed scalars are well formed.
    pub open spec fn wf(&self) -> bool {
        wf_scalars(self.poly@) && self.blind.0.wf()
    }

    /// Construct the opening of `(poly, blind)` at the point already bound
    /// into the transcript: bind the revealed scalars in and hand them out.
    /// Fails, changing nothing, exactly when the commitment being opened
    /// coincides with the blinding generator, which makes the opening
    /// degenerate; the caller retries with a shifted blind.
    pub fn create(
        params: &Params,
        transcript: &mut Blake2bWrite,
        poly: Vec<Scalar>,
        blind: Blind,
    ) -> (r: Result<OpeningProof, Error>)
        requires
            params.wf(),
            poly@.len() <= params.spec_n(),
            wf_scalars(poly@),
            blind.0.wf(),
        ensures
            commit_spec(scalar_seq(poly@), blind.0@) == h_enc() ==> r == Err::<
                OpeningProof,
                Error,
            >(Error::OpeningConstruction) && final(transcript).absorbed() == old(transcript).absorbed() && final(transcript).stream() == old(transcript).stream(),
            commit_spec(scalar_seq(poly@), blind.0@) != h_enc() ==> (r matches Ok(op)
                && op.poly@ == poly@ && op.blind.0@ == blind.0@ && op.wf() && final(transcript).absorbed() == old(transcript).absorbed() + scalars_bytes(scalar_seq(poly@))
                + le_bytes(blind.0@, 32) && final(transcript).stream() == old(transcript).stream()),
    {
        let c = params.commit(&poly, &blind);
        if c.eq_pt(&params.blinding_generator()) {
            return Err(Error::OpeningConstruction);
        }
        let ghost a0 = transcript.absorbed();
        let mut i: usize = 0;
        proof {
            assert(scalar_seq(poly@).take(0) =~= Seq::<nat>::empty());
            assert(a0 + scalars_bytes(scalar_seq(poly@).take(0)) =~= a0);
        }
        while i < poly.len()
            invariant
                i <= poly@.len(),
                wf_scalars(poly@),
                transcript.absorbed() == a0 + scalars_bytes(scalar_seq(poly@).take(i as int)),
                transcript.stream() == old(transcript).stream(),
            decreases poly@.len() - i,
        {
            let _ = transcript.common_scalar(poly[i]);
            proof {
                let vals = scalar_seq(poly@);
                assert(vals.take(i as int).push(vals[i as int]) =~= vals.take(i as int + 1));
                lemma_scalars_bytes_snoc(vals.take(i as int), vals[i as int]);
                assert(a0 + scalars_bytes(vals.take(i as int)) + le_bytes(vals[i as int], 32)
                    =~= a0 + scalars_bytes(vals.take(i as int + 1)));
            }
            i = i + 1;
        }
        let _ = transcript.common_scalar(blind.0);
        proof {
            assert(scalar_seq(poly@).take(poly@.len() as int) =~= scalar_seq(poly@));
            assert(a0 + scalars_bytes(scalar_seq(poly@)) + le_bytes(blind.0@, 32) =~= final(transcript).absorbed());
        }
        Ok(OpeningProof { poly, blind })
    }

    /// Check this opening against a commitment and a claimed evaluation at
    /// `x`: replay the transcript binding of the revealed scalars, then
    /// accept exactly when they commit to the claimed commitment and
    /// evaluate to the claimed value.
    pub fn verify(
        &self,
        params: &Params,
        transcript: &mut Blake2bRead,
        commitment: &crate::curve::Point,
        x: &Scalar,
        v: &Scalar,
    ) -> (r: bool)
        requires
            params.wf(),
            self.poly@.len() <= params.spec_n(),
            self.wf(),
            x.wf(),
            v.wf(),
        ensures
            r == (commit_spec(scalar_seq(self.poly@), self.blind.0@) == commitment@ && eval_spec(
                scalar_seq(self.poly@),
                x@,
            ) == v@),
            final(transcript).absorbed() == old(transcript).absorbed() + scalars_bytes(
                scalar_seq(self.poly@),
            ) + le_bytes(self.blind.0@, 32),
            final(transcript).stream() == old(transcript).stream(),
    {
        let ghost a0 = transcript.absorbed();
        let mut i: usize = 0;
        proof {
            assert(scalar_seq(self.poly@).take(0) =~= Seq::<nat>::empty());
            assert(a0 + scalars_bytes(scalar_seq(self.poly@).take(0)) =~= a0);
        }
        while i < self.poly.len()
            invariant
                i <= self.poly@.len(),
                wf_scalars(self.poly@),
                transcript.absorbed() == a0 + scalars_bytes(
                    scalar_seq(self.poly@).take(i as int),
                ),
                transcript.stream() == old(transcript).stream(),
            decreases self.poly@.len() - i,
        {
            let _ = transcript.common_scalar(self.poly[i]);
            proof {
                let vals = scalar_seq(self.poly@);
                assert(vals.take(i as int).push(vals[i as int]) =~= vals.take(i as int + 1));
                lemma_scalars_bytes_snoc(vals.take(i as int), vals[i as int]);
                assert(a0 + scalars_bytes(vals.take(i as int)) + le_bytes(vals[i as int], 32)
                    =~= a0 + scalars_bytes(vals.take(i as int + 1)));
            }
            i = i + 1;
        }
        let _ = transcript.common_scalar(self.blind.0);
        proof {
            assert(scalar_seq(self.poly@).take(self.poly@.len() as int) =~= scalar_seq(
                self.poly@,
            ));
            assert(a0 + scalars_bytes(scalar_seq(self.poly@)) + le_bytes(self.blind.0@, 32)
                =~= final(transcript).absorbed());
        }
        let c = params.commit(&self.poly, &self.blind);
        let ok_commit = c.eq_pt(commitment);
        let e = eval_polynomial(&self.poly, x);
        let ok_eval = e.eq_val(v);
        ok_commit && ok_eval
    }
}

} // verus!
