//! The Fiat-Shamir transcript: a sequential hash state binding every message
//! exchanged between prover and verifier, from which all verifier challenges
//! are derived.
//!
//! The hash state is BLAKE2b with a fixed personalization. Its model is the
//! byte stream absorbed so far (personalization first); the digest is the
//! named function [`blake2b_of`] of that stream alone, so every challenge is
//! a function of the absorbed history, and prover and verifier derive equal
//! challenges exactly when they absorb equal streams.

use vstd::prelude::*;

use core::marker::PhantomData;
use crate::Error;
use crate::curve::Point;
use crate::curve::id_enc;
use crate::curve::px_of;
use crate::curve::py_of;
use crate::field::Scalar;
use crate::field::q;
use crate::field::zeta_val;
use crate::limbs::le_bytes;
use crate::limbs::le_val;
use crate::limbs::lemma_le_val_bound;
use crate::limbs::lemma_le_val_bytes_id;
use crate::limbs::pow256;

verus! {

#[verifier::external_type_specification]
#[verifier::external_body]
pub struct ExBlake2bState(blake2b_simd::State);

/// A BLAKE2b hash state, modelled by the byte stream absorbed into it, with
/// the 16-byte personalization as its head.
#[verifier::external_body]
pub struct HashState {
    state: blake2b_simd::State,
}

/// The byte stream a [`HashState`] has absorbed, personalization first.
pub uninterp spec fn hash_absorbed(h: HashState) -> Seq<u8>;

/// The 64-byte BLAKE2b digest of an absorbed byte stream.
pub uninterp spec fn blake2b_of(absorbed: Seq<u8>) -> Seq<u8>;

/// The personalization of the transcript hasher over base-field inputs.
pub open spec fn transcript_personal() -> Seq<u8> {
    // The ASCII bytes of "Halo2-Transcript".
    seq![72u8, 97u8, 108u8, 111u8, 50u8, 45u8, 84u8, 114u8, 97u8, 110u8, 115u8, 99u8, 114u8, 105u8, 112u8, 116u8]
}

/// The personalization of the scalar-field transcript hasher; distinct from
/// [`transcript_personal`] so that the two hashing domains are separated.
pub open spec fn scalar_personal() -> Seq<u8> {
    // The ASCII bytes of "Halo2-Scalar-Tsc".
    seq![72u8, 97u8, 108u8, 111u8, 50u8, 45u8, 83u8, 99u8, 97u8, 108u8, 97u8, 114u8, 45u8, 84u8, 115u8, 99u8]
}

/// The value of the challenge squeezed from a hash state that has absorbed
/// `absorbed`: the 512-bit digest reduced into the scalar field.
pub open spec fn challenge_of(absorbed: Seq<u8>) -> nat {
    le_val(blake2b_of(absorbed)) % q()
}

/// Relies on `blake2b_simd::Params`: a fresh BLAKE2b state with 64-byte
/// output and the given 16-byte personalization, which has absorbed nothing.
#[verifier::external_body]
fn hash_init(personal: &[u8; 16]) -> (r: HashState)
    ensures
        hash_absorbed(r) == personal@,
{
    HashState {
        state: blake2b_simd::Params::new().hash_length(64).personal(personal).to_state(),
    }
}

/// Relies on `blake2b_simd::State::update`: appends bytes to the absorbed
/// stream.
#[verifier::external_body]
fn hash_update(h: &mut HashState, data: &[u8])
    ensures
        hash_absorbed(*final(h)) == hash_absorbed(*old(h)) + data@,
{
    h.state.update(data);
}

/// Relies on `blake2b_simd::State::finalize`: the 64-byte digest, a function
/// of the personalization and the absorbed stream alone; the state itself is
/// not changed.
#[verifier::external_body]
fn hash_finalize64(h: &HashState) -> (r: [u8; 64])
    ensures
        r@ == blake2b_of(hash_absorbed(*h)),
        r@.len() == 64,
{
    let digest = h.state.finalize();
    let mut out = [0u8; 64];
    out.copy_from_slice(digest.as_bytes());
    out
}

/// Relies on `Clone for blake2b_simd::State`: an independent copy with the
/// same absorbed stream.
#[verifier::external_body]
fn hash_clone(h: &HashState) -> (r: HashState)
    ensures
        hash_absorbed(r) == hash_absorbed(*h),
{
    HashState { state: h.state.clone() }
}

/// Append the bytes of a 32-byte array to a byte vector.
fn push_bytes32(v: &mut Vec<u8>, bytes: &[u8; 32])
    ensures
        final(v)@ == old(v)@ + bytes@,
{
    let mut i: usize = 0;
    while i < 32
        invariant
            i <= 32,
            v@ == old(v)@ + bytes@.subrange(0, i as int),
        decreases 32 - i,
    {
        v.push(bytes[i]);
        proof {
            assert(bytes@.subrange(0, i as int).push(bytes@[i as int]) =~= bytes@.subrange(
                0,
                i as int + 1,
            ));
        }
        i = i + 1;
    }
    proof {
        assert(bytes@.subrange(0, 32) =~= bytes@);
    }
}

/// `Challenge` is implemented by challenges of different lengths.
pub trait Challenge: Sized + Clone + Copy {
    /// Create a challenge of the appropriate length from raw bytes.
    fn new(challenge: &[u8]) -> Self;
}

/// The scalar representation of a verifier challenge, tagged with the
/// purpose `T` for which it was derived so that a challenge minted for one
/// role cannot be confused with another.
pub struct ChallengeScalar<T> {
    inner: Scalar,
    _marker: PhantomData<T>,
}

impl<T> ChallengeScalar<T> {
    /// The value of the underlying scalar.
    pub closed spec fn view(&self) -> nat {
        self.inner@
    }

    /// The underlying scalar.
    pub fn value(&self) -> (r: Scalar)
        ensures
            r@ == self@,
    {
        self.inner
    }
}

/// A challenge encoding together with the scalar it represents.
pub trait EncodedChallenge: Sized {
    /// The input type used to derive the challenge encoding.
    type Input;

    /// The scalar-field value this challenge encoding represents.
    spec fn scalar_value(&self) -> nat;

    /// The scalar-field value represented by a challenge derived from `i`.
    spec fn input_value(i: &Self::Input) -> nat;

    /// The encoding is internally consistent.
    spec fn wf(&self) -> bool;

    /// Derive a challenge encoding from an input.
    fn new(challenge_input: &Self::Input) -> (r: Self)
        ensures
            r.scalar_value() == Self::input_value(challenge_input),
            r.wf(),
    ;

    /// The scalar field element this challenge represents.
    fn get_scalar(&self) -> (r: Scalar)
        requires
            self.wf(),
        ensures
            r@ == self.scalar_value(),
            r.wf(),
    ;

    /// Cast this challenge to a typed `ChallengeScalar`.
    fn as_challenge_scalar<T>(&self) -> (r: ChallengeScalar<T>)
        requires
            self.wf(),
        ensures
            r@ == self.scalar_value(),
    {
        ChallengeScalar { inner: self.get_scalar(), _marker: PhantomData }
    }
}

/// A 255-bit challenge: the canonical encoding of the 512-bit transcript
/// digest reduced into the scalar field.
#[derive(Clone, Copy)]
pub struct Challenge255 {
    bytes: [u8; 32],
}

impl Challenge255 {
    /// The canonical 32-byte encoding this challenge stores.
    pub closed spec fn view(&self) -> Seq<u8> {
        self.bytes@
    }

    /// The stored bytes are a canonical scalar encoding.
    pub open spec fn wf255(&self) -> bool {
        le_val(self@) < q() && self@.len() == 32
    }

    /// The stored canonical encoding.
    pub fn as_bytes(&self) -> (r: [u8; 32])
        ensures
            r@ == self@,
    {
        self.bytes
    }

    /// The low 128 bits of the challenge's value: the value of its first 16
    /// encoding bytes.
    pub fn get_lower_128(&self) -> (r: u128)
        ensures
            r == le_val(self@.take(16)),
    {
        let mut acc: u128 = 0;
        let mut i: usize = 16;
        proof {
            assert(self.bytes@.subrange(16, 16) =~= Seq::<u8>::empty());
        }
        while i > 0
            invariant
                i <= 16,
                acc == le_val(self.bytes@.subrange(i as int, 16)),
            decreases i,
        {
            proof {
                lemma_le_val_bound(self.bytes@.subrange(i as int, 16));
                assert(pow256((16 - i) as nat) <= pow256(15)) by {
                    lemma_pow256_increases((16 - i) as nat, 15);
                }
                reveal_with_fuel(pow256, 16);
            }
            i = i - 1;
            acc = acc * 256 + (self.bytes[i] as u128);
            proof {
                let s = self.bytes@.subrange(i as int, 16);
                assert(s.subrange(1, s.len() as int) =~= self.bytes@.subrange(i as int + 1, 16));
            }
        }
        proof {
            assert(self.bytes@.subrange(0, 16) =~= self.bytes@.take(16));
        }
        acc
    }
}

impl EncodedChallenge for Challenge255 {
    type Input = [u8; 64];

    open spec fn scalar_value(&self) -> nat {
        le_val(self@)
    }

    open spec fn input_value(i: &[u8; 64]) -> nat {
        le_val(i@) % q()
    }

    open spec fn wf(&self) -> bool {
        self.wf255()
    }

    fn new(challenge_input: &[u8; 64]) -> (r: Self) {
        let s = Scalar::from_bytes_wide(challenge_input);
        Challenge255 { bytes: s.to_bytes() }
    }

    fn get_scalar(&self) -> (r: Scalar) {
        Scalar::from_bytes(&self.bytes).unwrap()
    }
}

/// Generic transcript view, from either the prover's or the verifier's
/// perspective.
pub trait Transcript: Sized {
    /// The byte stream absorbed into the hash state, personalization first.
    spec fn absorbed(&self) -> Seq<u8>;

    /// The proof byte stream this transcript carries: for a prover the bytes
    /// written so far, for a verifier the bytes not yet read.
    spec fn stream(&self) -> Seq<u8>;

    /// Squeeze an encoded verifier challenge from the transcript: finalize
    /// the digest over everything absorbed, then ratchet the state by
    /// absorbing that digest.
    fn squeeze_challenge(&mut self) -> (r: Challenge255)
        ensures
            final(self).absorbed() == old(self).absorbed() + blake2b_of(old(self).absorbed()),
            final(self).stream() == old(self).stream(),
            le_val(r@) == challenge_of(old(self).absorbed()),
            r.wf255(),
    ;

    /// Absorb a curve point as a common input, without writing it to the
    /// proof. Fails on the identity point, which has no coordinates, and
    /// absorbs nothing in that case.
    fn common_point(&mut self, point: Point) -> (r: Result<(), Error>)
        ensures
            point@ == id_enc() ==> r == Err::<(), Error>(Error::IdentityPoint) && final(self).absorbed() == old(self).absorbed(),
            point@ != id_enc() ==> r == Ok::<(), Error>(()) && final(self).absorbed() == old(self).absorbed() + px_of(point@) + py_of(point@),
            final(self).stream() == old(self).stream(),
    ;

    /// Absorb a scalar as a common input, without writing it to the proof:
    /// its canonical little-endian encoding enters the hash stream.
    fn common_scalar(&mut self, scalar: Scalar) -> (r: Result<(), Error>)
        requires
            scalar.wf(),
        ensures
            r == Ok::<(), Error>(()),
            final(self).absorbed() == old(self).absorbed() + le_bytes(scalar@, 32),
            final(self).stream() == old(self).stream(),
    ;

    /// Squeeze a challenge and tag it with the purpose `T`.
    fn squeeze_challenge_scalar<T>(&mut self) -> (r: ChallengeScalar<T>)
        ensures
            final(self).absorbed() == old(self).absorbed() + blake2b_of(old(self).absorbed()),
            final(self).stream() == old(self).stream(),
            r@ == challenge_of(old(self).absorbed()),
    {
        let c = self.squeeze_challenge();
        c.as_challenge_scalar()
    }
}

/// Transcript view of a verifier reading the proof stream the prover wrote.
pub trait TranscriptRead: Transcript {
    /// Read a curve point from the prover: decode the next 32 bytes, then
    /// absorb the point exactly as the writing side did.
    fn read_point(&mut self) -> (r: Result<Point, Error>)
        ensures
            old(self).stream().len() < 32 ==> r == Err::<Point, Error>(Error::Io) && final(self).absorbed() == old(self).absorbed(),
            old(self).stream().len() >= 32 && !crate::curve::valid_point_enc(
                old(self).stream().take(32),
            ) ==> r == Err::<Point, Error>(Error::Encoding) && final(self).absorbed() == old(self).absorbed(),
            old(self).stream().len() >= 32 && crate::curve::valid_point_enc(
                old(self).stream().take(32),
            ) && old(self).stream().take(32) == id_enc() ==> r == Err::<Point, Error>(
                Error::IdentityPoint,
            ),
            old(self).stream().len() >= 32 && crate::curve::valid_point_enc(
                old(self).stream().take(32),
            ) && old(self).stream().take(32) != id_enc() ==> (r matches Ok(p) && p@ == old(self).stream().take(32) && p.wf() && final(self).absorbed() == old(self).absorbed()
                + px_of(p@) + py_of(p@) && final(self).stream() == old(self).stream().skip(32)),
    ;

    /// Read a scalar from the prover: decode the next 32 bytes as a
    /// canonical scalar encoding, then absorb it exactly as the writing side
    /// did.
    fn read_scalar(&mut self) -> (r: Result<Scalar, Error>)
        ensures
            old(self).stream().len() < 32 ==> r == Err::<Scalar, Error>(Error::Io) && final(self).absorbed() == old(self).absorbed(),
            old(self).stream().len() >= 32 && le_val(old(self).stream().take(32)) >= q() ==> r
                == Err::<Scalar, Error>(Error::Encoding) && final(self).absorbed() == old(self).absorbed(),
            old(self).stream().len() >= 32 && le_val(old(self).stream().take(32)) < q() ==> (
            r matches Ok(s) && s@ == le_val(old(self).stream().take(32)) && s.wf() && final(self).absorbed() == old(self).absorbed() + old(self).stream().take(32) && final(self).stream() == old(self).stream().skip(32)),
    ;
}

/// Transcript view of a prover writing the proof stream.
pub trait TranscriptWrite: Transcript {
    /// Write a curve point to the proof and absorb it: the point enters the
    /// hash stream by its coordinates and the proof stream by its compressed
    /// encoding. Fails on the identity point, writing nothing.
    fn write_point(&mut self, point: Point) -> (r: Result<(), Error>)
        requires
            point.wf(),
        ensures
            point@ == id_enc() ==> r == Err::<(), Error>(Error::IdentityPoint) && final(self).absorbed() == old(self).absorbed() && final(self).stream() == old(self).stream(),
            point@ != id_enc() ==> r == Ok::<(), Error>(()) && final(self).absorbed() == old(self).absorbed() + px_of(point@) + py_of(point@) && final(self).stream() == old(self).stream() + point@,
    ;

    /// Write a scalar to the proof and absorb it: its canonical encoding
    /// enters both the hash stream and the proof stream.
    fn write_scalar(&mut self, scalar: Scalar) -> (r: Result<(), Error>)
        requires
            scalar.wf(),
        ensures
            r == Ok::<(), Error>(()),
            final(self).absorbed() == old(self).absorbed() + le_bytes(scalar@, 32),
            final(self).stream() == old(self).stream() + le_bytes(scalar@, 32),
    ;
}

/// A prover-side transcript: a BLAKE2b state and the proof bytes written.
pub struct Blake2bWrite {
    state: HashState,
    writer: Vec<u8>,
}

impl Blake2bWrite {
    /// Initialize a prover transcript that appends to the given buffer.
    pub fn init(writer: Vec<u8>) -> (r: Blake2bWrite)
        ensures
            r.absorbed() == transcript_personal(),
            r.stream() == writer@,
    {
        let personal: [u8; 16] = [
            72u8,
            97u8,
            108u8,
            111u8,
            50u8,
            45u8,
            84u8,
            114u8,
            97u8,
            110u8,
            115u8,
            99u8,
            114u8,
            105u8,
            112u8,
            116u8,
        ];
        let state = hash_init(&personal);
        proof {
            assert(personal@ =~= transcript_personal());
        }
        Blake2bWrite { state, writer }
    }

    /// Conclude the interaction and return the proof bytes.
    pub fn finalize(self) -> (r: Vec<u8>)
        ensures
            r@ == self.stream(),
    {
        self.writer
    }

    /// An independent deep copy: same absorbed stream, same proof bytes,
    /// and no mutable state shared with the transcript it was forked from.
    pub fn fork(&self) -> (r: Blake2bWrite)
        ensures
            r.absorbed() == self.absorbed(),
            r.stream() == self.stream(),
    {
        let mut w: Vec<u8> = Vec::new();
        let mut i: usize = 0;
        while i < self.writer.len()
            invariant
                i <= self.writer.len(),
                w@ == self.writer@.subrange(0, i as int),
            decreases self.writer.len() - i,
        {
            w.push(self.writer[i]);
            proof {
                assert(self.writer@.subrange(0, i as int).push(self.writer@[i as int])
                    =~= self.writer@.subrange(0, i as int + 1));
            }
            i = i + 1;
        }
        proof {
            assert(self.writer@.subrange(0, self.writer@.len() as int) =~= self.writer@);
        }
        Blake2bWrite { state: hash_clone(&self.state), writer: w }
    }
}

impl Transcript for Blake2bWrite {
    closed spec fn absorbed(&self) -> Seq<u8> {
        hash_absorbed(self.state)
    }

    closed spec fn stream(&self) -> Seq<u8> {
        self.writer@
    }

    fn squeeze_challenge(&mut self) -> (r: Challenge255) {
        let digest = hash_finalize64(&self.state);
        hash_update(&mut self.state, digest.as_slice());
        Challenge255::new(&digest)
    }

    fn common_point(&mut self, point: Point) -> (r: Result<(), Error>) {
        match point.coordinates() {
            None => Err(Error::IdentityPoint),
            Some((x, y)) => {
                hash_update(&mut self.state, x.as_slice());
                hash_update(&mut self.state, y.as_slice());
                Ok(())
            },
        }
    }

    fn common_scalar(&mut self, scalar: Scalar) -> (r: Result<(), Error>) {
        let bytes = scalar.to_bytes();
        hash_update(&mut self.state, bytes.as_slice());
        proof {
            lemma_le_val_bytes_id(bytes@);
        }
        Ok(())
    }
}

impl TranscriptWrite for Blake2bWrite {
    fn write_point(&mut self, point: Point) -> (r: Result<(), Error>) {
        match self.common_point(point) {
            Err(e) => Err(e),
            Ok(()) => {
                let compressed = point.to_bytes();
                push_bytes32(&mut self.writer, &compressed);
                Ok(())
            },
        }
    }

    fn write_scalar(&mut self, scalar: Scalar) -> (r: Result<(), Error>) {
        match self.common_scalar(scalar) {
            Err(e) => Err(e),
            Ok(()) => {
                let bytes = scalar.to_bytes();
                push_bytes32(&mut self.writer, &bytes);
                proof {
                    lemma_le_val_bytes_id(bytes@);
                }
                Ok(())
            },
        }
    }
}

/// A verifier-side transcript: a BLAKE2b state and a cursor over the proof
/// bytes received from the prover.
pub struct Blake2bRead {
    state: HashState,
    reader: Vec<u8>,
    pos: usize,
}

impl Blake2bRead {
    /// Initialize a verifier transcript over the given proof bytes.
    pub fn init(reader: Vec<u8>) -> (r: Blake2bRead)
        ensures
            r.absorbed() == transcript_personal(),
            r.stream() == reader@,
    {
        let personal: [u8; 16] = [
            72u8,
            97u8,
            108u8,
            111u8,
            50u8,
            45u8,
            84u8,
            114u8,
            97u8,
            110u8,
            115u8,
            99u8,
            114u8,
            105u8,
            112u8,
            116u8,
        ];
        let state = hash_init(&personal);
        proof {
            assert(personal@ =~= transcript_personal());
        }
        Blake2bRead { state, reader, pos: 0 }
    }

    /// Take the next 32 bytes of the proof stream, advancing the cursor.
    fn take32(&mut self) -> (r: Result<[u8; 32], Error>)
        ensures
            old(self).stream().len() < 32 ==> r == Err::<[u8; 32], Error>(Error::Io) && *final(
                self) == *old(self),
            old(self).stream().len() >= 32 ==> (r matches Ok(bytes) && bytes@ == old(self).stream().take(32) && final(self).stream() == old(self).stream().skip(32) && final(self).absorbed() == old(self).absorbed()),
    {
        if self.pos >= self.reader.len() || self.reader.len() - self.pos < 32 {
            return Err(Error::Io);
        }
        let mut bytes = [0u8; 32];
        let mut i: usize = 0;
        while i < 32
            invariant
                i <= 32,
                self == old(self),
                old(self).stream().len() >= 32,
                self.pos + 32 <= self.reader.len(),
                forall|j: int| 0 <= j < i ==> bytes@[j] == self.reader@[self.pos + j],
            decreases 32 - i,
        {
            bytes[i] = self.reader[self.pos + i];
            i = i + 1;
        }
        proof {
            assert(bytes@ =~= old(self).stream().take(32));
        }
        self.pos = self.pos + 32;
        proof {
            assert(self.stream() =~= old(self).stream().skip(32));
        }
        Ok(bytes)
    }
}

impl Transcript for Blake2bRead {
    closed spec fn absorbed(&self) -> Seq<u8> {
        hash_absorbed(self.state)
    }

    closed spec fn stream(&self) -> Seq<u8> {
        if self.pos <= self.reader@.len() {
            self.reader@.skip(self.pos as int)
        } else {
            Seq::empty()
        }
    }

    fn squeeze_challenge(&mut self) -> (r: Challenge255) {
        let digest = hash_finalize64(&self.state);
        hash_update(&mut self.state, digest.as_slice());
        Challenge255::new(&digest)
    }

    fn common_point(&mut self, point: Point) -> (r: Result<(), Error>) {
        match point.coordinates() {
            None => Err(Error::IdentityPoint),
            Some((x, y)) => {
                hash_update(&mut self.state, x.as_slice());
                hash_update(&mut self.state, y.as_slice());
                Ok(())
            },
        }
    }

    fn common_scalar(&mut self, scalar: Scalar) -> (r: Result<(), Error>) {
        let bytes = scalar.to_bytes();
        hash_update(&mut self.state, bytes.as_slice());
        proof {
            lemma_le_val_bytes_id(bytes@);
        }
        Ok(())
    }
}

impl TranscriptRead for Blake2bRead {
    fn read_point(&mut self) -> (r: Result<Point, Error>) {
        let bytes = match self.take32() {
            Err(e) => {
                return Err(e);
            },
            Ok(bytes) => bytes,
        };
        let point = match Point::from_bytes(&bytes) {
            None => {
                return Err(Error::Encoding);
            },
            Some(point) => point,
        };
        match self.common_point(point) {
            Err(e) => Err(e),
            Ok(()) => Ok(point),
        }
    }

    fn read_scalar(&mut self) -> (r: Result<Scalar, Error>) {
        let bytes = match self.take32() {
            Err(e) => {
                return Err(e);
            },
            Ok(bytes) => bytes,
        };
        let scalar = match Scalar::from_bytes(&bytes) {
            None => {
                return Err(Error::Encoding);
            },
            Some(scalar) => scalar,
        };
        match self.common_scalar(scalar) {
            Err(e) => Err(e),
            Ok(()) => {
                proof {
                    lemma_le_val_bytes_id(bytes@);
                }
                Ok(scalar)
            },
        }
    }
}

/// Whether bit `k` of `v` is set.
pub open spec fn endo_bit(v: u128, k: nat) -> bool {
    ((v >> (k as u128)) & 1) == 1
}

/// One round of the endoscaling recurrence: from the sign bit choose plus or
/// minus one, multiply by `ZETA` when the endomorphism bit is set, and fold
/// the result into the accumulator by a double-and-add.
pub open spec fn endo_step(acc: nat, neg: bool, endo: bool) -> nat {
    let s1: nat = if neg {
        (q() - 1) as nat
    } else {
        1nat
    };
    let s2: nat = if endo {
        (s1 * zeta_val()) % q()
    } else {
        s1
    };
    (((acc + s2) % q()) + acc) % q()
}

/// The endoscaling accumulator after the first `rounds` rounds, which
/// consume the bit pairs of `v` from most significant to least significant.
pub open spec fn endo_acc(v: u128, rounds: nat) -> nat
    decreases rounds,
{
    if rounds == 0 {
        (2 * (zeta_val() + 1)) % q()
    } else {
        let i = (64 - rounds) as nat;
        endo_step(endo_acc(v, (rounds - 1) as nat), endo_bit(v, 2 * i + 1), endo_bit(v, 2 * i))
    }
}

/// The scalar derived from a 128-bit challenge by the endoscaling
/// recurrence over its 64 bit pairs.
pub open spec fn endo_val(v: u128) -> nat {
    endo_acc(v, 64)
}

/// A 128-bit challenge, recombined into a scalar through the curve
/// endomorphism. Note that using this challenge space may give less than
/// 128-bit security.
#[derive(Clone, Copy)]
pub struct Challenge128 {
    inner: u128,
}

impl Challenge128 {
    /// The 128-bit integer this challenge carries.
    pub closed spec fn view(&self) -> u128 {
        self.inner
    }

    /// The stored 128-bit integer.
    pub fn value(&self) -> (r: u128)
        ensures
            r == self@,
    {
        self.inner
    }
}

impl EncodedChallenge for Challenge128 {
    type Input = u128;

    open spec fn scalar_value(&self) -> nat {
        endo_val(self@)
    }

    open spec fn input_value(i: &u128) -> nat {
        endo_val(*i)
    }

    open spec fn wf(&self) -> bool {
        true
    }

    fn new(challenge_input: &u128) -> (r: Self) {
        Challenge128 { inner: *challenge_input }
    }

    /// Derive the scalar by the recurrence of Algorithm 1 of the Halo paper:
    /// initialize the accumulator to twice `ZETA + 1`, then absorb the 64
    /// bit pairs from most to least significant, one sign flip and one
    /// endomorphism multiplication each, by double-and-add.
    fn get_scalar(&self) -> (r: Scalar) {
        let t = Scalar::zeta().add(&Scalar::one());
        let mut acc = t.add(&t);
        proof {
            vstd::arithmetic::div_mod::lemma_add_mod_noop(
                zeta_val() as int + 1,
                zeta_val() as int + 1,
                q() as int,
            );
            assert(acc@ == endo_acc(self@, 0));
        }
        let mut round: usize = 0;
        while round < 64
            invariant
                round <= 64,
                acc@ == endo_acc(self@, round as nat),
                acc.wf(),
        decreases 64 - round,
        {
            let i: u128 = (63 - round) as u128;
            let should_negate: bool = ((self.inner >> (2 * i + 1)) & 1) == 1;
            let should_endo: bool = ((self.inner >> (2 * i)) & 1) == 1;
            let qv = if should_negate {
                Scalar::one().neg()
            } else {
                Scalar::one()
            };
            let qv = if should_endo {
                qv.mul(&Scalar::zeta())
            } else {
                qv
            };
            proof {
                vstd::arithmetic::div_mod::lemma_small_mod((q() - 1) as nat, q());
                vstd::arithmetic::div_mod::lemma_small_mod(1nat, q());
                assert(2 * ((63 - round as nat)) + 1 == 2 * (63 - round) as nat + 1);
            }
            acc = acc.add(&qv).add(&acc);
            round = round + 1;
        }
        acc
    }
}

/// The transcript over scalar-field inputs that runs beside the main
/// transcript: same construction, separated from it by a distinct
/// personalization so that the two hashing domains cannot collide.
pub struct ScalarTranscript {
    state: HashState,
}

impl ScalarTranscript {
    /// The byte stream absorbed, personalization first.
    pub closed spec fn absorbed(&self) -> Seq<u8> {
        hash_absorbed(self.state)
    }

    /// Initialize a fresh scalar-field transcript.
    pub fn init() -> (r: ScalarTranscript)
        ensures
            r.absorbed() == scalar_personal(),
    {
        let personal: [u8; 16] = [
            72u8,
            97u8,
            108u8,
            111u8,
            50u8,
            45u8,
            83u8,
            99u8,
            97u8,
            108u8,
            97u8,
            114u8,
            45u8,
            84u8,
            115u8,
            99u8,
        ];
        let state = hash_init(&personal);
        proof {
            assert(personal@ =~= scalar_personal());
        }
        ScalarTranscript { state }
    }

    /// Absorb a scalar: its canonical encoding enters the hash stream.
    pub fn absorb(&mut self, scalar: Scalar)
        requires
            scalar.wf(),
        ensures
            final(self).absorbed() == old(self).absorbed() + le_bytes(scalar@, 32),
    {
        let bytes = scalar.to_bytes();
        hash_update(&mut self.state, bytes.as_slice());
        proof {
            lemma_le_val_bytes_id(bytes@);
        }
    }

    /// Squeeze a scalar: the 512-bit digest over everything absorbed,
    /// reduced into the scalar field; the state then ratchets by absorbing
    /// the digest.
    pub fn squeeze(&mut self) -> (r: Scalar)
        ensures
            final(self).absorbed() == old(self).absorbed() + blake2b_of(old(self).absorbed()),
            r@ == challenge_of(old(self).absorbed()),
            r.wf(),
    {
        let digest = hash_finalize64(&self.state);
        hash_update(&mut self.state, digest.as_slice());
        Scalar::from_bytes_wide(&digest)
    }

    /// An independent deep copy with the same absorbed stream.
    pub fn fork(&self) -> (r: ScalarTranscript)
        ensures
            r.absorbed() == self.absorbed(),
    {
        ScalarTranscript { state: hash_clone(&self.state) }
    }
}

impl Blake2bWrite {
    /// Absorb the canonical encoding of a base field element, handed over as
    /// its 32 canonical bytes: how the output of the scalar-field transcript
    /// is bound back into the main transcript.
    pub fn common_base_encoding(&mut self, bytes: &[u8; 32])
        requires
            le_val(bytes@) < crate::field::p(),
        ensures
            final(self).absorbed() == old(self).absorbed() + bytes@,
            final(self).stream() == old(self).stream(),
    {
        hash_update(&mut self.state, bytes.as_slice());
    }
}

impl Blake2bRead {
    /// Absorb the canonical encoding of a base field element, handed over as
    /// its 32 canonical bytes; the reading side of the domain binding.
    pub fn common_base_encoding(&mut self, bytes: &[u8; 32])
        requires
            le_val(bytes@) < crate::field::p(),
        ensures
            final(self).absorbed() == old(self).absorbed() + bytes@,
            final(self).stream() == old(self).stream(),
    {
        hash_update(&mut self.state, bytes.as_slice());
    }
}

/// Whether the next `n` 32-byte chunks of a proof stream are canonical
/// non-identity point encodings.
pub open spec fn points_chunks_ok(stream: Seq<u8>, n: nat) -> bool
    decreases n,
{
    n == 0 || (stream.len() >= 32 && crate::curve::valid_point_enc(stream.take(32))
        && stream.take(32) != id_enc() && points_chunks_ok(stream.skip(32), (n - 1) as nat))
}

/// The `n` point encodings at the head of a proof stream.
pub open spec fn points_chunks(stream: Seq<u8>, n: nat) -> Seq<Seq<u8>>
    decreases n,
{
    if n == 0 {
        Seq::empty()
    } else {
        seq![stream.take(32)] + points_chunks(stream.skip(32), (n - 1) as nat)
    }
}

/// The hash stream after absorbing `n` points read from a proof stream.
pub open spec fn points_absorbed(a: Seq<u8>, stream: Seq<u8>, n: nat) -> Seq<u8>
    decreases n,
{
    if n == 0 {
        a
    } else {
        points_absorbed(
            a + px_of(stream.take(32)) + py_of(stream.take(32)),
            stream.skip(32),
            (n - 1) as nat,
        )
    }
}

/// Read `n` curve points from the prover, absorbing each.
pub fn read_n_points<T: TranscriptRead>(transcript: &mut T, n: usize) -> (r: Result<
    Vec<Point>,
    Error,
>)
    ensures
        r.is_ok() == points_chunks_ok(old(transcript).stream(), n as nat),
        r matches Ok(v) ==> v@.len() == n && (forall|i: int|
            0 <= i < n ==> (#[trigger] v@[i])@ == points_chunks(old(transcript).stream(), n as nat)[i]
                && v@[i].wf()) && final(transcript).stream() == old(transcript).stream().skip(
            32 * n,
        ) && final(transcript).absorbed() == points_absorbed(
            old(transcript).absorbed(),
            old(transcript).stream(),
            n as nat,
        ),
{
    let mut out: Vec<Point> = Vec::new();
    let mut i: usize = 0;
    while i < n
        invariant
            i <= n,
            out@.len() == i,
            points_chunks_ok(old(transcript).stream(), n as nat) == points_chunks_ok(
                transcript.stream(),
                (n - i) as nat,
            ),
            points_chunks(old(transcript).stream(), n as nat) == out@.map_values(
                |p: Point| p@,
            ) + points_chunks(transcript.stream(), (n - i) as nat),
            forall|j: int| 0 <= j < i ==> (#[trigger] out@[j]).wf(),
            32 * i <= old(transcript).stream().len(),
            transcript.stream() == old(transcript).stream().skip(32 * i),
            points_absorbed(old(transcript).absorbed(), old(transcript).stream(), n as nat)
                == points_absorbed(transcript.absorbed(), transcript.stream(), (n - i) as nat),
        decreases n - i,
    {
        let ghost pre_stream = transcript.stream();
        let ghost pre_absorbed = transcript.absorbed();
        let p = match transcript.read_point() {
            Err(e) => {
                proof {
                    assert(!points_chunks_ok(pre_stream, (n - i) as nat));
                }
                return Err(e);
            },
            Ok(p) => p,
        };
        out.push(p);
        proof {
            assert(points_chunks_ok(pre_stream, (n - i) as nat) == points_chunks_ok(
                transcript.stream(),
                (n - i - 1) as nat,
            ));
            assert(out@.map_values(|pt: Point| pt@) =~= out@.drop_last().map_values(
                |pt: Point| pt@,
            ).push(p@));
            assert(points_chunks(pre_stream, (n - i) as nat) =~= seq![pre_stream.take(32)]
                + points_chunks(transcript.stream(), (n - i - 1) as nat));
            assert(out@.drop_last().map_values(|pt: Point| pt@).push(p@) + points_chunks(
                transcript.stream(),
                (n - i - 1) as nat,
            ) =~= out@.drop_last().map_values(|pt: Point| pt@) + (seq![pre_stream.take(32)]
                + points_chunks(transcript.stream(), (n - i - 1) as nat)));
            assert(pre_stream.len() >= 32);
            assert(old(transcript).stream().len() >= 32 * i + 32);
            assert(old(transcript).stream().skip(32 * i).skip(32) =~= old(
                transcript,
            ).stream().skip(32 * (i + 1)));
        }
        i = i + 1;
    }
    proof {
        assert(points_chunks(transcript.stream(), 0) =~= Seq::<Seq<u8>>::empty());
        assert(out@.map_values(|p: Point| p@) + Seq::<Seq<u8>>::empty() =~= out@.map_values(
            |p: Point| p@,
        ));
    }
    Ok(out)
}

/// Whether the next `n` 32-byte chunks of a proof stream are canonical
/// scalar encodings.
pub open spec fn scalars_chunks_ok(stream: Seq<u8>, n: nat) -> bool
    decreases n,
{
    n == 0 || (stream.len() >= 32 && le_val(stream.take(32)) < q() && scalars_chunks_ok(
        stream.skip(32),
        (n - 1) as nat,
    ))
}

/// The values of the `n` scalar encodings at the head of a proof stream.
pub open spec fn scalars_chunks(stream: Seq<u8>, n: nat) -> Seq<nat>
    decreases n,
{
    if n == 0 {
        Seq::empty()
    } else {
        seq![le_val(stream.take(32))] + scalars_chunks(stream.skip(32), (n - 1) as nat)
    }
}

/// Read `n` scalars from the prover, absorbing each.
pub fn read_n_scalars<T: TranscriptRead>(transcript: &mut T, n: usize) -> (r: Result<
    Vec<Scalar>,
    Error,
>)
    ensures
        r.is_ok() == scalars_chunks_ok(old(transcript).stream(), n as nat),
        r matches Ok(v) ==> v@.len() == n && (forall|i: int|
            0 <= i < n ==> (#[trigger] v@[i])@ == scalars_chunks(
                old(transcript).stream(),
                n as nat,
            )[i] && v@[i].wf()) && final(transcript).stream() == old(transcript).stream().skip(
            32 * n,
        ) && final(transcript).absorbed() == old(transcript).absorbed() + old(
            transcript,
        ).stream().take(32 * n),
{
    let mut out: Vec<Scalar> = Vec::new();
    let mut i: usize = 0;
    while i < n
        invariant
            i <= n,
            out@.len() == i,
            scalars_chunks_ok(old(transcript).stream(), n as nat) == scalars_chunks_ok(
                transcript.stream(),
                (n - i) as nat,
            ),
            scalars_chunks(old(transcript).stream(), n as nat) == out@.map_values(
                |s: Scalar| s@,
            ) + scalars_chunks(transcript.stream(), (n - i) as nat),
            forall|j: int| 0 <= j < i ==> (#[trigger] out@[j]).wf(),
            32 * i <= old(transcript).stream().len(),
            transcript.stream() == old(transcript).stream().skip(32 * i),
            transcript.absorbed() == old(transcript).absorbed() + old(
                transcript,
            ).stream().take(32 * i),
        decreases n - i,
    {
        let ghost pre_stream = transcript.stream();
        let s = match transcript.read_scalar() {
            Err(e) => {
                proof {
                    assert(!scalars_chunks_ok(pre_stream, (n - i) as nat));
                }
                return Err(e);
            },
            Ok(s) => s,
        };
        out.push(s);
        proof {
            assert(out@.map_values(|x: Scalar| x@) =~= out@.drop_last().map_values(
                |x: Scalar| x@,
            ).push(s@));
            assert(scalars_chunks(pre_stream, (n - i) as nat) =~= seq![le_val(pre_stream.take(32))]
                + scalars_chunks(transcript.stream(), (n - i - 1) as nat));
            assert(out@.drop_last().map_values(|x: Scalar| x@).push(s@) + scalars_chunks(
                transcript.stream(),
                (n - i - 1) as nat,
            ) =~= out@.drop_last().map_values(|x: Scalar| x@) + (seq![le_val(pre_stream.take(32))]
                + scalars_chunks(transcript.stream(), (n - i - 1) as nat)));
            assert(pre_stream.len() >= 32);
            assert(old(transcript).stream().len() >= 32 * i + 32);
            assert(old(transcript).stream().skip(32 * i).skip(32) =~= old(
                transcript,
            ).stream().skip(32 * (i + 1)));
            assert(old(transcript).absorbed() + old(transcript).stream().take(32 * i)
                + pre_stream.take(32) =~= old(transcript).absorbed() + old(
                transcript,
            ).stream().take(32 * (i + 1)));
        }
        i = i + 1;
    }
    proof {
        assert(scalars_chunks(transcript.stream(), 0) =~= Seq::<nat>::empty());
        assert(out@.map_values(|s: Scalar| s@) + Seq::<nat>::empty() =~= out@.map_values(
            |s: Scalar| s@,
        ));
    }
    Ok(out)
}

/// Transcript determinism: a squeezed challenge is a function of the
/// absorbed byte stream alone, so two transcripts that were initialized
/// identically and fed identical absorb sequences yield identical
/// challenges, and remain in identical states afterwards.
pub proof fn lemma_transcript_determinism(a1: Seq<u8>, a2: Seq<u8>)
    requires
        a1 == a2,
    ensures
        challenge_of(a1) == challenge_of(a2),
        a1 + blake2b_of(a1) == a2 + blake2b_of(a2),
{
}

/// Proof that `pow256` is monotone in its exponent.
proof fn lemma_pow256_increases(a: nat, b: nat)
    requires
        a <= b,
    ensures
        pow256(a) <= pow256(b),
    decreases b,
{
    if a < b && b > 0 {
        lemma_pow256_increases(a, (b - 1) as nat);
        assert(pow256(b) == 256 * pow256((b - 1) as nat));
    }
}

} // verus!
