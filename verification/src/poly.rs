//! Polynomials in coefficient form over the Pallas scalar field, their
//! evaluation, and the synthetic (Kate) division that the multi-open
//! protocol folds its witnesses from.

use vstd::prelude::*;

use crate::field::Scalar;
use crate::field::q;

verus! {

/// The values of a sequence of scalars.
pub open spec fn scalar_seq(s: Seq<Scalar>) -> Seq<nat> {
    s.map_values(|x: Scalar| x@)
}

/// Every scalar of the sequence is well formed.
pub open spec fn wf_scalars(s: Seq<Scalar>) -> bool {
    forall|i: int| 0 <= i < s.len() ==> (#[trigger] s[i]).wf()
}

/// The value at `x` of the polynomial with coefficient values `c`, lowest
/// degree first: the Horner evaluation `c[0] + x * (c[1] + x * (...))`, one
/// reduction per step.
pub open spec fn eval_spec(c: Seq<nat>, x: nat) -> nat
    decreases c.len(),
{
    if c.len() == 0 {
        0
    } else {
        (c[0] + (x * eval_spec(c.subrange(1, c.len() as int), x)) % q()) % q()
    }
}

/// A blinding factor for a polynomial commitment.
#[derive(Clone, Copy)]
pub struct Blind(pub Scalar);

/// Evaluate a polynomial, lowest-degree coefficient first, at a point, by
/// Horner's rule from the highest coefficient down.
pub fn eval_polynomial(poly: &Vec<Scalar>, point: &Scalar) -> (r: Scalar)
    requires
        wf_scalars(poly@),
        point.wf(),
    ensures
        r@ == eval_spec(scalar_seq(poly@), point@),
        r.wf(),
{
    let mut acc = Scalar::zero();
    let mut i: usize = poly.len();
    proof {
        assert(scalar_seq(poly@).subrange(poly@.len() as int, poly@.len() as int)
            =~= Seq::<nat>::empty());
    }
    while i > 0
        invariant
            i <= poly@.len(),
            wf_scalars(poly@),
            point.wf(),
            acc.wf(),
            acc@ == eval_spec(scalar_seq(poly@).subrange(i as int, poly@.len() as int), point@),
        decreases i,
    {
        i = i - 1;
        acc = acc.mul(point).add(&poly[i]);
        proof {
            let c = scalar_seq(poly@);
            assert(c.subrange(i as int, poly@.len() as int).subrange(
                1,
                c.subrange(i as int, poly@.len() as int).len() as int,
            ) =~= c.subrange(i as int + 1, poly@.len() as int));
        }
    }
    proof {
        assert(scalar_seq(poly@).subrange(0, poly@.len() as int) =~= scalar_seq(poly@));
    }
    acc
}

/// Coefficient `i` of the quotient, by `X - z`, of the polynomial with
/// coefficient values `a`: from the top, `q[n-2] = a[n-1]` and
/// `q[i] = a[i+1] + z * q[i+1]`, one reduction per step.
pub open spec fn kate_at(a: Seq<nat>, z: nat, i: int) -> nat
    decreases a.len() - i,
{
    if i >= a.len() - 2 {
        a[a.len() - 1] % q()
    } else {
        (a[i + 1] + (z * kate_at(a, z, i + 1)) % q()) % q()
    }
}

/// Divide `a - a(z)` by `X - z`: synthetic division, dropping the remainder,
/// so that `r(X) * (X - z) + a(z)` has the coefficients of `a`.
pub fn kate_division(a: &Vec<Scalar>, z: &Scalar) -> (r: Vec<Scalar>)
    requires
        a@.len() >= 1,
        wf_scalars(a@),
        z.wf(),
    ensures
        r@.len() == a@.len() - 1,
        wf_scalars(r@),
        forall|i: int|
            0 <= i < r@.len() ==> scalar_seq(r@)[i] == kate_at(scalar_seq(a@), z@, i),
{
    let n = a.len();
    // Quotient coefficients from the highest degree down: rev[k] = q[n-2-k].
    let mut rev: Vec<Scalar> = Vec::new();
    let mut prev = Scalar::zero();
    let mut k: usize = 0;
    while k < n - 1
        invariant
            k <= n - 1,
            n == a@.len(),
            1 <= n,
            wf_scalars(a@),
            z.wf(),
            prev.wf(),
            rev@.len() == k,
            k > 0 ==> prev@ == kate_at(scalar_seq(a@), z@, n - 1 - k as int),
            k == 0 ==> prev@ == 0,
            forall|j: int|
                0 <= j < k ==> (#[trigger] rev@[j])@ == kate_at(scalar_seq(a@), z@, n - 2 - j)
                    && rev@[j].wf(),
        decreases n - 1 - k,
    {
        let coeff = a[n - 1 - k].add(&z.mul(&prev));
        proof {
            let c = scalar_seq(a@);
            let i: int = n - 2 - k as int;
            if k == 0 {
                assert(coeff@ == (c[n - 1] + (z@ * 0) % q()) % q());
                assert((z@ * 0) % q() == 0);
                assert(coeff@ == kate_at(c, z@, i));
            } else {
                assert(coeff@ == kate_at(c, z@, i));
            }
        }
        rev.push(coeff);
        prev = coeff;
        k = k + 1;
    }
    // Reverse into lowest-degree-first order.
    let mut out: Vec<Scalar> = Vec::new();
    let mut i: usize = 0;
    while i < n - 1
        invariant
            i <= n - 1,
            n == a@.len(),
            1 <= n,
            rev@.len() == n - 1,
            wf_scalars(a@),
            z.wf(),
            forall|j: int|
                0 <= j < n - 1 ==> (#[trigger] rev@[j])@ == kate_at(scalar_seq(a@), z@, n - 2 - j)
                    && rev@[j].wf(),
            out@.len() == i,
            forall|j: int|
                0 <= j < i ==> (#[trigger] out@[j])@ == kate_at(scalar_seq(a@), z@, j)
                    && out@[j].wf(),
        decreases n - 1 - i,
    {
        out.push(rev[n - 2 - i]);
        i = i + 1;
    }
    out
}

} // verus!
