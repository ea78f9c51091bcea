//! End to end: a proof created for a set of queries verifies; any wrong
//! claimed evaluation makes verification fail; and flipping any single byte
//! of the serialized proof makes it fail to decode or to verify.

use multiopen::checking::VerifierInstance;
use multiopen::curve::Point;
use multiopen::field::Scalar;
use multiopen::multiopen::Proof;
use multiopen::multiopen::ProverInstance;
use multiopen::params::Params;
use multiopen::poly::Blind;
use multiopen::poly::eval_polynomial;
use multiopen::transcript::Blake2bRead;
use multiopen::transcript::Blake2bWrite;
use multiopen::transcript::ScalarTranscript;

const K: u32 = 3;

fn poly_from(coeffs: &[u64], n: usize) -> Vec<Scalar> {
    let mut out: Vec<Scalar> = Vec::new();
    for c in coeffs {
        out.push(Scalar::from_u64(*c));
    }
    while out.len() < n {
        out.push(Scalar::zero());
    }
    out
}

struct Setup {
    params: Params,
    points: Vec<Scalar>,
    instances: Vec<ProverInstance>,
    vinstances: Vec<VerifierInstance>,
}

/// Polynomial P (blind b1) queried at z1 and z2; polynomial Q (blind b2)
/// queried only at z1.
fn setup() -> Setup {
    let params = Params::new(K);
    let n = params.n();
    let p_poly = poly_from(&[3, 1, 4, 1, 5, 9, 2, 6], n);
    let q_poly = poly_from(&[2, 7, 1, 8, 2, 8, 1, 8], n);
    let b1 = Blind(Scalar::from_u64(1111));
    let b2 = Blind(Scalar::from_u64(2222));
    let z1 = Scalar::from_u64(41);
    let z2 = Scalar::from_u64(42);
    let points = vec![z1, z2];

    let p_at_z1 = eval_polynomial(&p_poly, &z1);
    let p_at_z2 = eval_polynomial(&p_poly, &z2);
    let q_at_z1 = eval_polynomial(&q_poly, &z1);

    let p_commit = params.commit(&p_poly, &b1);
    let q_commit = params.commit(&q_poly, &b2);

    let instances = vec![
        ProverInstance { point_index: 0, poly: p_poly.clone(), blind: b1, eval: p_at_z1 },
        ProverInstance { point_index: 1, poly: p_poly, blind: b1, eval: p_at_z2 },
        ProverInstance { point_index: 0, poly: q_poly, blind: b2, eval: q_at_z1 },
    ];
    let vinstances = vec![
        VerifierInstance { point_index: 0, commitment: p_commit, eval: p_at_z1 },
        VerifierInstance { point_index: 1, commitment: p_commit, eval: p_at_z2 },
        VerifierInstance { point_index: 0, commitment: q_commit, eval: q_at_z1 },
    ];
    Setup { params, points, instances, vinstances }
}

fn prove(setup: &Setup) -> Proof {
    let mut tw = Blake2bWrite::init(Vec::new());
    let mut ts = ScalarTranscript::init();
    Proof::create(&setup.params, &mut tw, &mut ts, &setup.points, &setup.instances).unwrap()
}

fn check(setup: &Setup, proof: &Proof, vinstances: &Vec<VerifierInstance>) -> Result<bool, multiopen::Error> {
    let mut tr = Blake2bRead::init(Vec::new());
    let mut ts = ScalarTranscript::init();
    proof.verify(&setup.params, &mut tr, &mut ts, &setup.points, vinstances)
}

#[test]
fn round_trip() {
    let s = setup();
    let proof = prove(&s);
    assert_eq!(check(&s, &proof, &s.vinstances), Ok(true));
}

#[test]
fn wrong_evaluation_fails() {
    let s = setup();
    let proof = prove(&s);
    // Substitute Q(z1) + 1 for Q(z1).
    let mut bad = Vec::new();
    for (i, vi) in s.vinstances.iter().enumerate() {
        let eval = if i == 2 { vi.eval.add(&Scalar::one()) } else { vi.eval };
        bad.push(VerifierInstance { point_index: vi.point_index, commitment: vi.commitment, eval });
    }
    assert_eq!(check(&s, &proof, &bad), Ok(false));
}

#[test]
fn wrong_commitment_fails() {
    let s = setup();
    let proof = prove(&s);
    let other = s.params.commit(&poly_from(&[1, 2, 3], s.params.n()), &Blind(Scalar::zero()));
    let mut bad = Vec::new();
    for (i, vi) in s.vinstances.iter().enumerate() {
        let commitment = if i == 0 { other } else { vi.commitment };
        bad.push(VerifierInstance { point_index: vi.point_index, commitment, eval: vi.eval });
    }
    assert_eq!(check(&s, &proof, &bad), Ok(false));
}

fn serialize(proof: &Proof) -> Vec<u8> {
    let mut out: Vec<u8> = Vec::new();
    for e in proof.q_evals.iter() {
        out.extend_from_slice(&e.to_bytes());
    }
    out.extend_from_slice(&proof.f_commitment.to_bytes());
    for c in proof.opening.poly.iter() {
        out.extend_from_slice(&c.to_bytes());
    }
    out.extend_from_slice(&proof.opening.blind.0.to_bytes());
    out
}

fn deserialize(bytes: &[u8], n_evals: usize, n: usize) -> Option<Proof> {
    let mut q_evals: Vec<Scalar> = Vec::new();
    let mut pos = 0;
    let take = |pos: &mut usize| -> [u8; 32] {
        let mut b = [0u8; 32];
        b.copy_from_slice(&bytes[*pos..*pos + 32]);
        *pos += 32;
        b
    };
    for _ in 0..n_evals {
        q_evals.push(Scalar::from_bytes(&take(&mut pos))?);
    }
    let f_commitment = Point::from_bytes(&take(&mut pos))?;
    let mut poly: Vec<Scalar> = Vec::new();
    for _ in 0..n {
        poly.push(Scalar::from_bytes(&take(&mut pos))?);
    }
    let blind = Blind(Scalar::from_bytes(&take(&mut pos))?);
    Some(Proof {
        q_evals,
        f_commitment,
        opening: multiopen::commitment::OpeningProof { poly, blind },
    })
}

#[test]
fn tamper_sensitivity() {
    let s = setup();
    let proof = prove(&s);
    let bytes = serialize(&proof);
    let n = s.params.n();
    // Unchanged bytes round-trip and verify.
    let same = deserialize(&bytes, 2, n).unwrap();
    assert_eq!(check(&s, &same, &s.vinstances), Ok(true));
    // Flipping any single byte must make the proof fail to decode, or fail
    // to verify.
    for i in 0..bytes.len() {
        let mut tampered = bytes.clone();
        tampered[i] ^= 1;
        match deserialize(&tampered, 2, n) {
            None => {},
            Some(p) => {
                let r = check(&s, &p, &s.vinstances);
                assert_ne!(r, Ok(true), "byte {} flipped but proof verified", i);
            },
        }
    }
}

#[test]
fn identity_commitment_is_rejected() {
    // A proof whose aggregate commitment is the identity cannot be absorbed
    // and is rejected with the identity error, not a verdict.
    let s = setup();
    let good = prove(&s);
    let bad = Proof {
        q_evals: good.q_evals,
        f_commitment: Point::identity(),
        opening: good.opening,
    };
    assert_eq!(
        check(&s, &bad, &s.vinstances),
        Err(multiopen::Error::IdentityPoint)
    );
}

#[test]
fn round_trip_three_polynomials() {
    // Three polynomials over three points with overlapping point sets.
    let params = Params::new(2);
    let n = params.n();
    let polys = [
        poly_from(&[1, 6, 1, 8], n),
        poly_from(&[0, 5, 7, 7], n),
        poly_from(&[9, 0, 4, 5], n),
    ];
    let blinds = [
        Blind(Scalar::from_u64(11)),
        Blind(Scalar::from_u64(22)),
        Blind(Scalar::from_u64(33)),
    ];
    let points = vec![
        Scalar::from_u64(101),
        Scalar::from_u64(102),
        Scalar::from_u64(103),
    ];
    // (polynomial, point) pairs: 0 at {0,1,2}, 1 at {1}, 2 at {0,2}.
    let pairs: [(usize, usize); 6] = [(0, 0), (0, 1), (0, 2), (1, 1), (2, 0), (2, 2)];
    let mut instances = Vec::new();
    let mut vinstances = Vec::new();
    for (h, pi) in pairs {
        let eval = eval_polynomial(&polys[h], &points[pi]);
        instances.push(ProverInstance {
            point_index: pi,
            poly: polys[h].clone(),
            blind: blinds[h],
            eval,
        });
        vinstances.push(VerifierInstance {
            point_index: pi,
            commitment: params.commit(&polys[h], &blinds[h]),
            eval,
        });
    }
    let mut tw = Blake2bWrite::init(Vec::new());
    let mut ts = ScalarTranscript::init();
    let proof = Proof::create(&params, &mut tw, &mut ts, &points, &instances).unwrap();
    let mut tr = Blake2bRead::init(Vec::new());
    let mut ts2 = ScalarTranscript::init();
    assert_eq!(
        proof.verify(&params, &mut tr, &mut ts2, &points, &vinstances),
        Ok(true)
    );
}

#[test]
fn proof_stream_is_not_written() {
    // This protocol binds everything through the hash state; the proof
    // bytes travel in the proof structure, and the transcript's write
    // stream stays as it was handed in.
    let s = setup();
    let mut tw = Blake2bWrite::init(Vec::new());
    let mut ts = ScalarTranscript::init();
    let _proof =
        Proof::create(&s.params, &mut tw, &mut ts, &s.points, &s.instances).unwrap();
    assert_eq!(tw.finalize().len(), 0);
}
