//! Polynomial evaluation, synthetic division, commitment homomorphism for
//! the retry shift, and the 64-bit limb helpers.

use multiopen::field::Scalar;
use multiopen::limbs::adc;
use multiopen::limbs::mac;
use multiopen::limbs::sbb;
use multiopen::limbs::u32_from_u8;
use multiopen::params::Params;
use multiopen::poly::Blind;
use multiopen::poly::eval_polynomial;
use multiopen::poly::kate_division;

#[test]
fn eval_horner() {
    // 3 + 2x + x^2 at x = 10 is 123.
    let poly = vec![
        Scalar::from_u64(3),
        Scalar::from_u64(2),
        Scalar::from_u64(1),
    ];
    let v = eval_polynomial(&poly, &Scalar::from_u64(10));
    assert!(v.eq_val(&Scalar::from_u64(123)));
}

#[test]
fn kate_division_reconstructs() {
    // For w = (p - p(z)) / (X - z): p(x) == w(x) * (x - z) + p(z).
    let poly = vec![
        Scalar::from_u64(3),
        Scalar::from_u64(1),
        Scalar::from_u64(4),
        Scalar::from_u64(1),
        Scalar::from_u64(5),
    ];
    let z = Scalar::from_u64(17);
    let pz = eval_polynomial(&poly, &z);
    let mut shifted = poly.clone();
    shifted[0] = shifted[0].sub(&pz);
    let w = kate_division(&shifted, &z);
    assert_eq!(w.len(), poly.len() - 1);
    for xv in [0u64, 1, 2, 17, 1000] {
        let x = Scalar::from_u64(xv);
        let left = eval_polynomial(&poly, &x);
        let right = eval_polynomial(&w, &x).mul(&x.sub(&z)).add(&pz);
        assert!(left.eq_val(&right), "mismatch at x = {}", xv);
    }
}

#[test]
fn kate_division_concrete() {
    // (x^2 - 1) / (x - 1) == x + 1.
    let poly = vec![Scalar::one().neg(), Scalar::zero(), Scalar::one()];
    let w = kate_division(&poly, &Scalar::one());
    assert_eq!(w.len(), 2);
    assert!(w[0].eq_val(&Scalar::one()));
    assert!(w[1].eq_val(&Scalar::one()));
}

#[test]
fn commit_shift_matches_blind_increment() {
    // The retry loop shifts the commitment by the blinding generator
    // instead of recommitting: commit(p, b + 1) == commit(p, b) + h.
    let params = Params::new(2);
    let poly = vec![
        Scalar::from_u64(6),
        Scalar::from_u64(2),
        Scalar::from_u64(8),
        Scalar::from_u64(5),
    ];
    let b = Blind(Scalar::from_u64(777));
    let b1 = Blind(b.0.add(&Scalar::one()));
    let shifted = params.commit(&poly, &b).add(&params.blinding_generator());
    let direct = params.commit(&poly, &b1);
    assert!(shifted.eq_pt(&direct));
}

#[test]
fn limb_helpers() {
    assert_eq!(adc(u64::MAX, 1, 0), (0, 1));
    assert_eq!(adc(5, 7, 1), (13, 0));
    assert_eq!(sbb(5, 3, 0), (2, 0));
    // A set borrow flag is all ones, and borrowing wraps.
    assert_eq!(sbb(3, 5, 0), (u64::MAX - 1, u64::MAX));
    assert_eq!(sbb(5, 3, u64::MAX), (1, 0));
    assert_eq!(mac(1, 2, 3, 4), (11, 0));
    assert_eq!(mac(0, u64::MAX, u64::MAX, 0), (1, u64::MAX - 1));

    let mut bytes = [0u8; 32];
    bytes[0] = 0x78;
    bytes[1] = 0x56;
    bytes[2] = 0x34;
    bytes[3] = 0x12;
    bytes[31] = 0xff;
    let limbs = u32_from_u8(&bytes);
    assert_eq!(limbs[0], 0x12345678);
    assert_eq!(limbs[7], 0xff000000);
}
