//! Points of the Pallas curve.
//!
//! A [`Point`] wraps an affine `pasta_curves` point. Its model is
//! [`point_enc`], the point's canonical 32-byte compressed encoding: the
//! little-endian bytes of the x coordinate with the sign of y folded into the
//! top bit, and all zeroes for the identity. The encoding determines the
//! point, so the group operations are modelled by named functions over
//! encodings, and everything above this module reasons about those names.

use vstd::prelude::*;

use crate::field::Scalar;
use crate::field::scalar_val;

verus! {

#[verifier::external_type_specification]
#[verifier::external_body]
pub struct ExEpAffine(pasta_curves::EpAffine);

/// The compressed encoding of the identity point: all zeroes.
pub open spec fn id_enc() -> Seq<u8> {
    Seq::new(32, |i: int| 0u8)
}

/// A point of the Pallas curve, modelled by its compressed encoding.
#[verifier::external_body]
#[derive(Clone, Copy, Debug, PartialEq)]
pub struct Point {
    pub(crate) p: pasta_curves::EpAffine,
}

/// The canonical compressed encoding of a [`Point`].
pub uninterp spec fn point_enc(p: Point) -> Seq<u8>;

/// Whether 32 bytes are the canonical encoding of some curve point.
pub uninterp spec fn valid_point_enc(bytes: Seq<u8>) -> bool;

/// The canonical bytes of the x coordinate of the point with this encoding.
pub uninterp spec fn px_of(enc: Seq<u8>) -> Seq<u8>;

/// The canonical bytes of the y coordinate of the point with this encoding.
pub uninterp spec fn py_of(enc: Seq<u8>) -> Seq<u8>;

/// The encoding of the sum of the points with these two encodings.
pub uninterp spec fn pt_add_of(a: Seq<u8>, b: Seq<u8>) -> Seq<u8>;

/// The encoding of the scalar multiple, by the scalar with value `k`, of the
/// point with encoding `p`.
pub uninterp spec fn pt_mul_of(k: nat, p: Seq<u8>) -> Seq<u8>;

/// The encoding of the point derived by hashing `msg` to the curve under a
/// domain prefix.
pub uninterp spec fn hash_pt_of(domain: Seq<char>, msg: Seq<u8>) -> Seq<u8>;

impl Point {
    /// The canonical compressed encoding of this point.
    pub open spec fn view(&self) -> Seq<u8> {
        point_enc(*self)
    }

    /// The model encoding is a canonical 32-byte point encoding.
    pub open spec fn wf(&self) -> bool {
        self@.len() == 32 && valid_point_enc(self@)
    }

    /// Relies on `group::Group::identity` for `pasta_curves::Ep`, whose
    /// affine form encodes as 32 zero bytes.
    #[verifier::external_body]
    pub fn identity() -> (r: Point)
        ensures
            r@ == id_enc(),
            r.wf(),
    {
        Point { p: <pasta_curves::EpAffine as group::prime::PrimeCurveAffine>::identity() }
    }

    /// Relies on `group::GroupEncoding::from_bytes` for
    /// `pasta_curves::EpAffine`: accepts exactly the canonical encodings, and
    /// returns the point so encoded.
    #[verifier::external_body]
    pub fn from_bytes(bytes: &[u8; 32]) -> (r: Option<Point>)
        ensures
            r.is_some() == valid_point_enc(bytes@),
            r.is_some() ==> point_enc(r.unwrap()) == bytes@ && r.unwrap().wf(),
    {
        match Option::from(<pasta_curves::EpAffine as group::GroupEncoding>::from_bytes(bytes)) {
            Some(p) => Some(Point { p }),
            None => None,
        }
    }

    /// Relies on `group::GroupEncoding::to_bytes` for
    /// `pasta_curves::EpAffine`: the canonical compressed encoding.
    #[verifier::external_body]
    pub fn to_bytes(&self) -> (r: [u8; 32])
        ensures
            r@ == self@,
    {
        <pasta_curves::EpAffine as group::GroupEncoding>::to_bytes(&self.p)
    }

    /// Relies on `pasta_curves::arithmetic::CurveAffine::coordinates`: the
    /// affine coordinates of every point but the identity, for which it
    /// fails; the coordinate bytes come from `ff::PrimeField::to_repr`.
    #[verifier::external_body]
    pub fn coordinates(&self) -> (r: Option<([u8; 32], [u8; 32])>)
        ensures
            r.is_some() == (self@ != id_enc()),
            r.is_some() ==> r.unwrap().0@ == px_of(self@) && r.unwrap().1@ == py_of(self@),
    {
        let coords: Option<pasta_curves::arithmetic::Coordinates<pasta_curves::EpAffine>> =
            Option::from(pasta_curves::arithmetic::CurveAffine::coordinates(&self.p));
        match coords {
            Some(c) => Some((
                <pasta_curves::Fp as ff::PrimeField>::to_repr(c.x()),
                <pasta_curves::Fp as ff::PrimeField>::to_repr(c.y()),
            )),
            None => None,
        }
    }

    /// Relies on the group law of `pasta_curves::Ep` through
    /// `core::ops::Add` and `group::Curve::to_affine`: the sum of the two
    /// points, a function of the two encodings alone.
    #[verifier::external_body]
    pub fn add(&self, other: &Point) -> (r: Point)
        ensures
            r@ == pt_add_of(self@, other@),
            r.wf(),
    {
        Point { p: group::Curve::to_affine(&(group::prime::PrimeCurveAffine::to_curve(&self.p) + other.p)) }
    }

    /// Relies on scalar multiplication of `pasta_curves::Ep` through
    /// `core::ops::Mul`: the scalar multiple, a function of the scalar's
    /// value and the point's encoding alone.
    #[verifier::external_body]
    pub fn mul(&self, k: &Scalar) -> (r: Point)
        ensures
            r@ == pt_mul_of(scalar_val(*k), self@),
            r.wf(),
    {
        Point { p: group::Curve::to_affine(&(group::prime::PrimeCurveAffine::to_curve(&self.p) * k.el)) }
    }

    /// Relies on `PartialEq for pasta_curves::EpAffine`, which compares
    /// coordinates: equality of points, hence of canonical encodings.
    #[verifier::external_body]
    pub fn eq_pt(&self, other: &Point) -> (r: bool)
        ensures
            r == (self@ == other@),
    {
        self.p == other.p
    }
}

/// Relies on `pasta_curves::arithmetic::CurveExt::hash_to_curve` for
/// `pasta_curves::Ep`: a point derived deterministically from the domain
/// prefix and the message.
#[verifier::external_body]
pub fn hash_to_curve(domain: &str, msg: &[u8]) -> (r: Point)
    ensures
        r@ == hash_pt_of(domain@, msg@),
        r.wf(),
{
    let hasher = <pasta_curves::Ep as pasta_curves::arithmetic::CurveExt>::hash_to_curve(domain);
    Point { p: group::Curve::to_affine(&hasher(msg)) }
}

} // verus!
