//! The scalar field of the Pallas curve.
//!
//! A [`Scalar`] wraps an element of `pasta_curves::Fq`. The wrapper struct is
//! opaque to the verifier; its model is [`scalar_val`], the canonical integer
//! value of the element, a natural number below the field modulus. Every
//! arithmetic operation goes through a trusted declaration whose contract
//! states the exact effect on that value, so all protocol logic above this
//! module is verified against ordinary modular arithmetic.

use vstd::prelude::*;

use crate::limbs::le_val;

verus! {

#[verifier::external_type_specification]
#[verifier::external_body]
pub struct ExFq(pasta_curves::Fq);

/// The modulus of the Pallas scalar field.
pub open spec fn q() -> nat {
    0x40000000000000000000000000000000224698fc0994a8dd8c46eb2100000001nat
}

/// The modulus of the Pallas base field.
pub open spec fn p() -> nat {
    0x40000000000000000000000000000000224698fc094cf91b992d30ed00000001nat
}

/// Relies on `ff::PrimeField::from_repr` for `pasta_curves::Fp`: it accepts
/// exactly the 32-byte little-endian encodings whose value is below the base
/// field modulus. Tells whether 32 bytes are a canonical base field element.
#[verifier::external_body]
pub fn base_accepts(bytes: &[u8; 32]) -> (r: bool)
    ensures
        r == (le_val(bytes@) < p()),
{
    Option::<pasta_curves::Fp>::from(<pasta_curves::Fp as ff::PrimeField>::from_repr(
        *bytes,
    )).is_some()
}

/// The canonical value of `ZETA`, the element of multiplicative order three
/// used by the curve endomorphism.
pub open spec fn zeta_val() -> nat {
    0x06819a58283e528e511db4d81cf70f5a0fed467d47c033af2aa9d2e050aa0e4fnat
}

/// An element of the Pallas scalar field, modelled by its canonical value.
#[verifier::external_body]
#[derive(Clone, Copy, Debug, PartialEq)]
pub struct Scalar {
    pub(crate) el: pasta_curves::Fq,
}

/// The canonical integer value held by a [`Scalar`].
pub uninterp spec fn scalar_val(s: Scalar) -> nat;

impl Scalar {
    /// The canonical integer value of this element.
    pub open spec fn view(&self) -> nat {
        scalar_val(*self)
    }

    /// The model value lies below the field modulus.
    pub open spec fn wf(&self) -> bool {
        self@ < q()
    }

    /// Relies on `ff::Field::ZERO` for `pasta_curves::Fq`: the additive
    /// identity, canonical value zero.
    #[verifier::external_body]
    pub fn zero() -> (r: Scalar)
        ensures
            r@ == 0,
            r.wf(),
    {
        Scalar { el: <pasta_curves::Fq as ff::Field>::ZERO }
    }

    /// Relies on `ff::Field::ONE` for `pasta_curves::Fq`: the multiplicative
    /// identity, canonical value one.
    #[verifier::external_body]
    pub fn one() -> (r: Scalar)
        ensures
            r@ == 1,
            r.wf(),
    {
        Scalar { el: <pasta_curves::Fq as ff::Field>::ONE }
    }

    /// Relies on `ff::WithSmallOrderMulGroup::ZETA` for `pasta_curves::Fq`:
    /// the fixed cube root of unity, whose canonical value is spelled out in
    /// the crate's source as four 64-bit limbs.
    #[verifier::external_body]
    pub fn zeta() -> (r: Scalar)
        ensures
            r@ == zeta_val(),
            r.wf(),
    {
        Scalar { el: <pasta_curves::Fq as ff::WithSmallOrderMulGroup<3>>::ZETA }
    }

    /// Relies on `From<u64> for pasta_curves::Fq`: embeds an integer that is
    /// already below the modulus.
    #[verifier::external_body]
    pub fn from_u64(v: u64) -> (r: Scalar)
        ensures
            r@ == v as nat,
            r.wf(),
    {
        Scalar { el: pasta_curves::Fq::from(v) }
    }

    /// Relies on `ff::Field::random` for `pasta_curves::Fq` with the system
    /// randomness source: some field element; nothing can be promised of
    /// which one.
    #[verifier::external_body]
    pub fn random() -> (r: Scalar)
        ensures
            r.wf(),
    {
        Scalar { el: <pasta_curves::Fq as ff::Field>::random(rand::rngs::OsRng) }
    }

    /// Relies on `ff::PrimeField::from_repr` for `pasta_curves::Fq`: accepts
    /// exactly the 32-byte little-endian encodings whose value is below the
    /// modulus, and returns the element with that value.
    #[verifier::external_body]
    pub fn from_bytes(bytes: &[u8; 32]) -> (r: Option<Scalar>)
        ensures
            r.is_some() == (le_val(bytes@) < q()),
            r.is_some() ==> scalar_val(r.unwrap()) == le_val(bytes@) && r.unwrap().wf(),
    {
        match Option::from(<pasta_curves::Fq as ff::PrimeField>::from_repr(*bytes)) {
            Some(el) => Some(Scalar { el }),
            None => None,
        }
    }

    /// Relies on `ff::FromUniformBytes::<64>::from_uniform_bytes` for
    /// `pasta_curves::Fq`: interprets 64 little-endian bytes as an integer
    /// and reduces it by the modulus.
    #[verifier::external_body]
    pub fn from_bytes_wide(bytes: &[u8; 64]) -> (r: Scalar)
        ensures
            r@ == le_val(bytes@) % q(),
            r.wf(),
    {
        Scalar { el: <pasta_curves::Fq as ff::FromUniformBytes<64>>::from_uniform_bytes(bytes) }
    }

    /// Relies on `ff::PrimeField::to_repr` for `pasta_curves::Fq`: the
    /// canonical 32-byte little-endian encoding of the element's value.
    #[verifier::external_body]
    pub fn to_bytes(&self) -> (r: [u8; 32])
        ensures
            le_val(r@) == self@,
            r@.len() == 32,
    {
        <pasta_curves::Fq as ff::PrimeField>::to_repr(&self.el)
    }

    /// Relies on `core::ops::Add for pasta_curves::Fq`: field addition.
    #[verifier::external_body]
    pub fn add(&self, other: &Scalar) -> (r: Scalar)
        ensures
            r@ == (self@ + other@) % q(),
            r.wf(),
    {
        Scalar { el: self.el + other.el }
    }

    /// Relies on `core::ops::Sub for pasta_curves::Fq`: field subtraction.
    #[verifier::external_body]
    pub fn sub(&self, other: &Scalar) -> (r: Scalar)
        ensures
            r@ == (self@ + q() - other@) % (q() as int),
            r.wf(),
    {
        Scalar { el: self.el - other.el }
    }

    /// Relies on `core::ops::Mul for pasta_curves::Fq`: field multiplication.
    #[verifier::external_body]
    pub fn mul(&self, other: &Scalar) -> (r: Scalar)
        ensures
            r@ == (self@ * other@) % q(),
            r.wf(),
    {
        Scalar { el: self.el * other.el }
    }

    /// Relies on `core::ops::Neg for pasta_curves::Fq`: field negation.
    #[verifier::external_body]
    pub fn neg(&self) -> (r: Scalar)
        ensures
            r@ == (q() - self@) % (q() as int),
            r.wf(),
    {
        Scalar { el: -self.el }
    }

    /// Relies on `ff::Field::invert` for `pasta_curves::Fq`: the
    /// multiplicative inverse of every element but zero.
    #[verifier::external_body]
    pub fn invert(&self) -> (r: Option<Scalar>)
        ensures
            r.is_some() == (self@ != 0),
            r.is_some() ==> (scalar_val(r.unwrap()) * self@) % q() == 1 && r.unwrap().wf(),
    {
        match Option::from(<pasta_curves::Fq as ff::Field>::invert(&self.el)) {
            Some(el) => Some(Scalar { el }),
            None => None,
        }
    }

    /// Relies on `PartialEq for pasta_curves::Fq`, which compares canonical
    /// encodings: equality of the modelled values.
    #[verifier::external_body]
    pub fn eq_val(&self, other: &Scalar) -> (r: bool)
        ensures
            r == (self@ == other@),
    {
        self.el == other.el
    }
}

} // verus!
