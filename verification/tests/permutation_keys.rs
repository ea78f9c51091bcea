//! Column bookkeeping of the permutation argument and the round trip of its
//! verifying key, plus batch reads from a proof stream.

use multiopen::Error;
use multiopen::curve::hash_to_curve;
use multiopen::field::Scalar;
use multiopen::permutation::Any;
use multiopen::permutation::Argument;
use multiopen::permutation::Column;
use multiopen::permutation::VerifyingKey;
use multiopen::transcript::Blake2bRead;
use multiopen::transcript::Blake2bWrite;
use multiopen::transcript::TranscriptWrite;
use multiopen::transcript::read_n_points;
use multiopen::transcript::read_n_scalars;

#[test]
fn argument_deduplicates_columns() {
    let mut arg = Argument::new();
    let a = Column { index: 0, column_type: Any::Advice };
    let b = Column { index: 1, column_type: Any::Advice };
    let c = Column { index: 0, column_type: Any::Fixed };
    arg.add_column(a);
    arg.add_column(b);
    arg.add_column(a);
    arg.add_column(c);
    assert_eq!(arg.get_columns(), vec![a, b, c]);
    assert_eq!(arg.required_degree(), 3);
}

#[test]
fn verifying_key_roundtrip() {
    let mut arg = Argument::new();
    arg.add_column(Column { index: 0, column_type: Any::Advice });
    arg.add_column(Column { index: 1, column_type: Any::Instance });
    let commitments = vec![hash_to_curve("multiopen:G", &[1]), hash_to_curve("multiopen:G", &[2])];
    let vk = VerifyingKey { commitments };
    let bytes = vk.write();
    assert_eq!(bytes.len(), 64);
    let vk2 = VerifyingKey::read(&bytes, &arg).unwrap();
    assert_eq!(vk2.commitments.len(), 2);
    assert!(vk2.commitments[0].eq_pt(&vk.commitments[0]));
    assert!(vk2.commitments[1].eq_pt(&vk.commitments[1]));
    // Truncated input is refused.
    let short = bytes[..63].to_vec();
    assert!(matches!(VerifyingKey::read(&short, &arg), Err(Error::Io)));
}

#[test]
fn batch_reads() {
    let p1 = hash_to_curve("multiopen:G", &[7]);
    let p2 = hash_to_curve("multiopen:G", &[8]);
    let s1 = Scalar::from_u64(1001);
    let s2 = Scalar::from_u64(1002);
    let mut tw = Blake2bWrite::init(Vec::new());
    tw.write_point(p1).unwrap();
    tw.write_point(p2).unwrap();
    tw.write_scalar(s1).unwrap();
    tw.write_scalar(s2).unwrap();
    let stream = tw.finalize();

    let mut tr = Blake2bRead::init(stream);
    let pts = read_n_points(&mut tr, 2).unwrap();
    assert!(pts[0].eq_pt(&p1));
    assert!(pts[1].eq_pt(&p2));
    let scs = read_n_scalars(&mut tr, 2).unwrap();
    assert!(scs[0].eq_val(&s1));
    assert!(scs[1].eq_val(&s2));
    // The stream is exhausted: another read fails.
    assert!(matches!(read_n_scalars(&mut tr, 1), Err(Error::Io)));
}
