//! Public parameters of the commitment scheme: a deterministically derived
//! generator per coefficient and one blinding generator, with the Pedersen
//! commitment itself: a multi-scalar multiplication over those generators.

use vstd::prelude::*;

use crate::curve::Point;
use crate::curve::hash_pt_of;
use crate::curve::hash_to_curve;
use crate::curve::pt_add_of;
use crate::curve::pt_mul_of;
use crate::curve::id_enc;
use crate::field::Scalar;
use crate::limbs::le_bytes;
use crate::poly::Blind;
use crate::poly::scalar_seq;
use crate::poly::wf_scalars;

verus! {

/// The domain prefix under which the coefficient generators are derived.
pub open spec fn g_domain() -> Seq<char> {
    "multiopen:G"@
}

/// The domain prefix under which the blinding generator is derived.
pub open spec fn h_domain() -> Seq<char> {
    "multiopen:H"@
}

/// The encoding of coefficient generator `i`.
pub open spec fn g_enc(i: int) -> Seq<u8> {
    hash_pt_of(g_domain(), le_bytes(i as nat, 4))
}

/// The encoding of the blinding generator.
pub open spec fn h_enc() -> Seq<u8> {
    hash_pt_of(h_domain(), Seq::empty())
}

/// The multi-scalar multiplication of the first `n` coefficient generators
/// by `coeffs`, folded left to right from the identity.
pub open spec fn msm_spec(coeffs: Seq<nat>, n: int) -> Seq<u8>
    decreases n,
{
    if n <= 0 {
        id_enc()
    } else {
        pt_add_of(msm_spec(coeffs, n - 1), pt_mul_of(coeffs[n - 1], g_enc(n - 1)))
    }
}

/// The commitment to a polynomial under a blind: the coefficient
/// multi-scalar multiplication plus `blind` times the blinding generator.
pub open spec fn commit_spec(coeffs: Seq<nat>, blind: nat) -> Seq<u8> {
    pt_add_of(msm_spec(coeffs, coeffs.len() as int), pt_mul_of(blind, h_enc()))
}

/// Public parameters: the maximum polynomial size, one generator per
/// coefficient, and the blinding generator.
pub struct Params {
    pub k: u32,
    n: usize,
    g: Vec<Point>,
    h: Point,
}

impl Params {
    /// The number of coefficients committed to.
    pub closed spec fn spec_n(&self) -> nat {
        self.n as nat
    }

    /// The parameters are the ones derived for their size.
    pub closed spec fn wf(&self) -> bool {
        &&& self.k < 16
        &&& self.n == (1usize << (self.k as usize))
        &&& self.g@.len() == self.n
        &&& (forall|i: int| 0 <= i < self.g@.len() ==> (#[trigger] self.g@[i])@ == g_enc(i))
        &&& (forall|i: int| 0 <= i < self.g@.len() ==> (#[trigger] self.g@[i]).wf())
        &&& self.h@ == h_enc()
        &&& self.h.wf()
    }

    /// Well-formed parameters admit at least one coefficient.
    pub proof fn lemma_n_pos(&self)
        requires
            self.wf(),
        ensures
            self.spec_n() >= 1,
    {
        let kk = self.k as usize;
        assert(1usize << kk >= 1usize) by (bit_vector)
            requires
                kk < 16usize,
        ;
    }

    /// The maximum polynomial size.
    pub fn n(&self) -> (r: usize)
        ensures
            r == self.spec_n(),
    {
        self.n
    }

    /// The blinding generator.
    pub fn blinding_generator(&self) -> (r: Point)
        requires
            self.wf(),
        ensures
            r@ == h_enc(),
            r.wf(),
    {
        self.h
    }

    /// Derive the parameters for polynomials of `2^k` coefficients, hashing
    /// each generator index to the curve.
    pub fn new(k: u32) -> (r: Params)
        requires
            k < 16,
        ensures
            r.wf(),
            r.spec_n() == (1usize << (k as usize)),
    {
        let n: usize = 1usize << (k as usize);
        let mut g: Vec<Point> = Vec::new();
        let mut i: usize = 0;
        proof {
            assert(1usize << (k as usize) <= 0x8000usize) by (bit_vector)
                requires
                    k < 16u32,
            ;
        }
        while i < n
            invariant
                i <= n,
                n <= 0x8000,
                g@.len() == i,
                forall|j: int| 0 <= j < i ==> (#[trigger] g@[j])@ == g_enc(j) && g@[j].wf(),
            decreases n - i,
        {
            let idx: [u8; 4] = [
                i as u8,
                (i >> 8) as u8,
                (i >> 16) as u8,
                (i >> 24) as u8,
            ];
            proof {
                let iv = i as usize;
                assert(iv as u8 == iv % 0x100 && (iv >> 8) as u8 == (iv / 0x100) % 0x100 && (iv
                    >> 16) as u8 == 0 && (iv >> 24) as u8 == 0) by (bit_vector)
                    requires
                        iv <= 0x8000usize,
                ;
                reveal_with_fuel(le_bytes, 5);
                assert(idx@ =~= le_bytes(i as nat, 4));
            }
            let p = hash_to_curve("multiopen:G", idx.as_slice());
            g.push(p);
            i = i + 1;
        }
        let empty: [u8; 0] = [];
        proof {
            assert(empty@ =~= Seq::<u8>::empty());
        }
        let h = hash_to_curve("multiopen:H", empty.as_slice());
        Params { k, n, g, h }
    }

    /// Commit to a polynomial: multiply each coefficient into its generator,
    /// sum, and add the blind times the blinding generator.
    pub fn commit(&self, poly: &Vec<Scalar>, blind: &Blind) -> (r: Point)
        requires
            self.wf(),
            poly@.len() <= self.spec_n(),
            wf_scalars(poly@),
            blind.0.wf(),
        ensures
            r@ == commit_spec(scalar_seq(poly@), blind.0@),
            r.wf(),
    {
        let mut acc = Point::identity();
        let mut i: usize = 0;
        while i < poly.len()
            invariant
                i <= poly@.len(),
                poly@.len() <= self.g@.len(),
                self.wf(),
                wf_scalars(poly@),
                acc@ == msm_spec(scalar_seq(poly@), i as int),
                acc.wf(),
            decreases poly@.len() - i,
        {
            acc = acc.add(&self.g[i].mul(&poly[i]));
            i = i + 1;
        }
        acc.add(&self.h.mul(&blind.0))
    }
}

} // verus!
