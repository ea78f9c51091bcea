//! Transcript behaviour: determinism, identity rejection, codec round
//! trips, and agreement of the trusted hash and field wrappers with direct
//! computation through the underlying crates.

use multiopen::Error;
use multiopen::curve::Point;
use multiopen::curve::hash_to_curve;
use multiopen::field::Scalar;
use multiopen::transcript::Blake2bRead;
use multiopen::transcript::Blake2bWrite;
use multiopen::transcript::Challenge128;
use multiopen::transcript::Challenge255;
use multiopen::transcript::EncodedChallenge;
use multiopen::transcript::Transcript;
use multiopen::transcript::TranscriptRead;
use multiopen::transcript::TranscriptWrite;

use ff::Field;
use ff::FromUniformBytes;
use ff::PrimeField;
use ff::WithSmallOrderMulGroup;

fn sample_point(tag: u8) -> Point {
    hash_to_curve("multiopen:G", &[tag, 0, 0, 0])
}

#[test]
fn transcript_determinism() {
    let mut t1 = Blake2bWrite::init(Vec::new());
    let mut t2 = Blake2bWrite::init(Vec::new());
    let p = sample_point(1);
    let s = Scalar::from_u64(42);
    t1.common_point(p).unwrap();
    t1.common_scalar(s).unwrap();
    t2.common_point(p).unwrap();
    t2.common_scalar(s).unwrap();
    let c1 = t1.squeeze_challenge();
    let c2 = t2.squeeze_challenge();
    assert_eq!(c1.as_bytes(), c2.as_bytes());
    // A second squeeze without new absorbs still diverges from the first.
    let c1b = t1.squeeze_challenge();
    assert_ne!(c1.as_bytes(), c1b.as_bytes());
}

#[test]
fn transcript_reorder_changes_challenge() {
    let mut t1 = Blake2bWrite::init(Vec::new());
    let mut t2 = Blake2bWrite::init(Vec::new());
    let a = Scalar::from_u64(7);
    let b = Scalar::from_u64(11);
    t1.common_scalar(a).unwrap();
    t1.common_scalar(b).unwrap();
    t2.common_scalar(b).unwrap();
    t2.common_scalar(a).unwrap();
    assert_ne!(
        t1.squeeze_challenge().as_bytes(),
        t2.squeeze_challenge().as_bytes()
    );
}

#[test]
fn identity_rejection() {
    let id = Point::identity();
    let mut tw = Blake2bWrite::init(Vec::new());
    assert_eq!(tw.common_point(id), Err(Error::IdentityPoint));
    assert_eq!(tw.write_point(id), Err(Error::IdentityPoint));
    // The failed absorb leaves the state unchanged: a good absorb after the
    // failure behaves as if the identity had never been offered.
    let mut fresh = Blake2bWrite::init(Vec::new());
    let p = sample_point(2);
    tw.common_point(p).unwrap();
    fresh.common_point(p).unwrap();
    assert_eq!(
        tw.squeeze_challenge().as_bytes(),
        fresh.squeeze_challenge().as_bytes()
    );
    // Reading the identity encoding decodes, then fails deterministically.
    let mut tr = Blake2bRead::init(vec![0u8; 32]);
    assert_eq!(tr.read_point(), Err(Error::IdentityPoint));
}

#[test]
fn point_scalar_roundtrip() {
    let p = sample_point(3);
    let s = Scalar::from_u64(123456789);
    let mut tw = Blake2bWrite::init(Vec::new());
    tw.write_point(p).unwrap();
    tw.write_scalar(s).unwrap();
    let c_w = tw.squeeze_challenge();
    let proof_bytes = tw.finalize();
    assert_eq!(proof_bytes.len(), 64);

    let mut tr = Blake2bRead::init(proof_bytes);
    let p2 = tr.read_point().unwrap();
    let s2 = tr.read_scalar().unwrap();
    assert!(p2.eq_pt(&p));
    assert!(s2.eq_val(&s));
    // Reader and writer agree on the derived challenge.
    let c_r = tr.squeeze_challenge();
    assert_eq!(c_w.as_bytes(), c_r.as_bytes());
}

#[test]
fn read_rejects_bad_encodings() {
    // Too few bytes.
    let mut tr = Blake2bRead::init(vec![1u8; 31]);
    assert_eq!(tr.read_scalar(), Err(Error::Io));
    // A value at least the modulus is not canonical.
    let mut tr2 = Blake2bRead::init(vec![0xffu8; 32]);
    assert_eq!(tr2.read_scalar(), Err(Error::Encoding));
    // Bytes whose x coordinate is not canonical decode to no curve point.
    let mut tr3 = Blake2bRead::init(vec![0xffu8; 32]);
    assert!(matches!(tr3.read_point(), Err(Error::Encoding)));
}

#[test]
fn squeeze_matches_direct_blake2b() {
    // The library's challenge must equal a direct computation through
    // blake2b_simd and the wide reduction of pasta_curves.
    let s = Scalar::from_u64(99);
    let mut tw = Blake2bWrite::init(Vec::new());
    tw.common_scalar(s).unwrap();
    let c = tw.squeeze_challenge();

    let mut state = blake2b_simd::Params::new()
        .hash_length(64)
        .personal(b"Halo2-Transcript")
        .to_state();
    state.update(&pasta_curves::Fq::from(99u64).to_repr());
    let digest = state.finalize();
    let mut wide = [0u8; 64];
    wide.copy_from_slice(digest.as_bytes());
    let expected = pasta_curves::Fq::from_uniform_bytes(&wide).to_repr();
    assert_eq!(c.as_bytes(), expected);
}

#[test]
fn challenge255_get_lower_128() {
    let mut input = [0u8; 64];
    input[0] = 0x21;
    input[1] = 0x43;
    let c = Challenge255::new(&input);
    let bytes = c.as_bytes();
    let mut expected: u128 = 0;
    for i in (0..16).rev() {
        expected = expected * 256 + bytes[i] as u128;
    }
    assert_eq!(c.get_lower_128(), expected);
    assert_eq!(c.get_lower_128(), 0x4321);
}

#[test]
fn endoscaling_exactness() {
    // For a fixed 128-bit input the derived scalar must match a direct
    // recomputation of the doubling/sign/endomorphism recurrence, bit for
    // bit.
    let v: u128 = 0x1234_5678_9abc_def0_0fed_cba9_8765_4321;
    let derived = Challenge128::new(&v).get_scalar();

    let zeta = Scalar::zeta();
    let one = Scalar::one();
    let t = zeta.add(&one);
    let mut acc = t.add(&t);
    for i in (0..64).rev() {
        let should_negate = ((v >> (2 * i + 1)) & 1) == 1;
        let should_endo = ((v >> (2 * i)) & 1) == 1;
        let q = if should_negate { one.neg() } else { one };
        let q = if should_endo { q.mul(&zeta) } else { q };
        acc = acc.add(&q).add(&acc);
    }
    assert!(derived.eq_val(&acc));

    // And against a recomputation through pasta_curves directly.
    let mut acc2 = (pasta_curves::Fq::ZETA + pasta_curves::Fq::ONE).double();
    for i in (0..64).rev() {
        let should_negate = ((v >> (2 * i + 1)) & 1) == 1;
        let should_endo = ((v >> (2 * i)) & 1) == 1;
        let q = if should_negate {
            -pasta_curves::Fq::ONE
        } else {
            pasta_curves::Fq::ONE
        };
        let q = if should_endo { q * pasta_curves::Fq::ZETA } else { q };
        acc2 = acc2 + q + acc2;
    }
    assert_eq!(derived.to_bytes(), acc2.to_repr());
}

#[test]
fn typed_challenge_matches_raw_squeeze() {
    struct BatchingTag;
    let mut t1 = Blake2bWrite::init(Vec::new());
    let mut t2 = Blake2bWrite::init(Vec::new());
    t1.common_scalar(Scalar::from_u64(5)).unwrap();
    t2.common_scalar(Scalar::from_u64(5)).unwrap();
    let typed = t1.squeeze_challenge_scalar::<BatchingTag>();
    let raw = t2.squeeze_challenge().get_scalar();
    assert!(typed.value().eq_val(&raw));
}

#[test]
fn scalar_ops_match_pasta() {
    let a = Scalar::from_u64(0xdead_beef);
    let b = Scalar::from_u64(0x1234_5678);
    let fa = pasta_curves::Fq::from(0xdead_beefu64);
    let fb = pasta_curves::Fq::from(0x1234_5678u64);
    assert_eq!(a.add(&b).to_bytes(), (fa + fb).to_repr());
    assert_eq!(a.sub(&b).to_bytes(), (fa - fb).to_repr());
    assert_eq!(a.mul(&b).to_bytes(), (fa * fb).to_repr());
    assert_eq!(a.neg().to_bytes(), (-fa).to_repr());
    assert_eq!(
        a.invert().unwrap().to_bytes(),
        fa.invert().unwrap().to_repr()
    );
    assert!(Scalar::zero().invert().is_none());
    let wide = [0xabu8; 64];
    assert_eq!(
        Scalar::from_bytes_wide(&wide).to_bytes(),
        pasta_curves::Fq::from_uniform_bytes(&wide).to_repr()
    );
}
