//! The Ristretto group and the scalars that act on it.
//!
//! The group is cyclic of prime order `order()`, and the basepoint `G`
//! generates it. A group element is held by its canonical 32-byte encoding, and
//! the contracts speak of it by its discrete logarithm to the base `G`: with it
//! the group law is addition modulo `order()`.
//!
//! The arithmetic itself is that of `curve25519_dalek`. The functions marked
//! `external_body` are the only places that call it, and their contracts are
//! taken on trust.

use curve25519_dalek::constants::{RISTRETTO_BASEPOINT_POINT, RISTRETTO_BASEPOINT_TABLE};
use curve25519_dalek::ristretto::{CompressedRistretto, RistrettoPoint};
use curve25519_dalek::scalar::Scalar as DalekScalar;
use curve25519_dalek::traits::VartimeMultiscalarMul;
use vstd::prelude::*;

use crate::bytes::le_nat;

verus! {

/// The order of the group, a prime.
#[verifier::opaque]
pub open spec fn order() -> nat {
    0x1000000000000000000000000000000014def9dea2f79cd65812631a5cf5d3ednat
}

/// The order is at least two.
pub proof fn lemma_order()
    ensures
        order() > 1,
{
    reveal(order);
}

/// An integer modulo the group order, held as 32 little-endian bytes.
#[derive(Clone, Copy)]
pub struct Scalar {
    pub bytes: [u8; 32],
}

impl View for Scalar {
    type V = nat;

    open spec fn view(&self) -> nat {
        le_nat(self.bytes@)
    }
}

impl Scalar {
    /// The bytes are canonical: the integer is reduced.
    pub open spec fn wf(self) -> bool {
        self@ < order()
    }
}

/// A group element, held as its canonical 32-byte encoding.
#[derive(Clone, Copy)]
pub struct Point {
    pub bytes: [u8; 32],
}

impl View for Point {
    type V = nat;

    open spec fn view(&self) -> nat {
        discrete_log(self.bytes@)
    }
}

impl Point {
    /// The bytes are the encoding of a group element, which is `n * G` for one
    /// `n` below the group order only.
    pub open spec fn wf(self) -> bool {
        &&& is_point(self.bytes@)
        &&& forall|n: nat|
            n < order() && #[trigger] base_multiple(n)@ == self.bytes@ ==> n == self@
    }
}

/// The encoding of `n * G`.
pub uninterp spec fn base_multiple(n: nat) -> [u8; 32];

/// The encoding of the group element that 64 uniform bytes are mapped to.
pub uninterp spec fn uniform_point(bytes: Seq<u8>) -> [u8; 32];

/// The SHA3-512 digest of a byte string.
pub uninterp spec fn sha3_512(data: Seq<u8>) -> [u8; 64];

/// `e` is the encoding of a group element.
pub open spec fn is_point(e: Seq<u8>) -> bool {
    exists|n: nat| n < order() && #[trigger] base_multiple(n)@ == e
}

/// The `n` below the group order such that `e` encodes `n * G`.
pub open spec fn discrete_log(e: Seq<u8>) -> nat {
    choose|n: nat| n < order() && #[trigger] base_multiple(n)@ == e
}

/// The encoding of `k * G` is that of no other multiple of `G` below the group
/// order.
pub open spec fn encodes_one(k: nat) -> bool {
    forall|n: nat| n < order() && #[trigger] base_multiple(n)@ == base_multiple(k)@ ==> n == k
}

/// The encoding of a group element is that of the multiple of `G` that its
/// discrete logarithm says.
pub proof fn lemma_point(e: Seq<u8>)
    requires
        is_point(e),
    ensures
        discrete_log(e) < order(),
        base_multiple(discrete_log(e))@ == e,
{
}

/// The encoding of a point is that of no other.
pub proof fn lemma_encodes_one(p: Point)
    requires
        p.wf(),
    ensures
        encodes_one(p@),
{
    lemma_point(p.bytes@);
}

/// The discrete logarithm of the second generator of the Pedersen commitments.
pub open spec fn blinding_log() -> nat {
    discrete_log(uniform_point(sha3_512(base_multiple(1)@)@)@)
}

/// Calls `Scalar::from_canonical_bytes`: it accepts exactly the byte strings
/// whose little-endian value is below the group order, and keeps the bytes.
#[verifier::external_body]
pub(crate) fn scalar_from_canonical(bytes: &[u8; 32]) -> (r: Option<Scalar>)
    ensures
        r is Some <==> le_nat(bytes@) < order(),
        r matches Some(s) ==> s.bytes == *bytes,
{
    match DalekScalar::from_canonical_bytes(*bytes).into_option() {
        Some(s) => Some(Scalar { bytes: s.to_bytes() }),
        None => None,
    }
}

/// Calls `Scalar::from_bytes_mod_order`: the little-endian value of the bytes,
/// reduced modulo the group order.
#[verifier::external_body]
pub(crate) fn scalar_from_bytes_mod_order(bytes: &[u8; 32]) -> (r: Scalar)
    ensures
        r.wf(),
        r@ == le_nat(bytes@) % order(),
{
    Scalar { bytes: DalekScalar::from_bytes_mod_order(*bytes).to_bytes() }
}

/// Calls `Scalar::from_bytes_mod_order_wide`: the little-endian value of the 64
/// bytes, reduced modulo the group order.
#[verifier::external_body]
pub(crate) fn scalar_from_bytes_mod_order_wide(bytes: &[u8; 64]) -> (r: Scalar)
    ensures
        r.wf(),
        r@ == le_nat(bytes@) % order(),
{
    Scalar { bytes: DalekScalar::from_bytes_mod_order_wide(bytes).to_bytes() }
}

/// The scalars that the random generator gave, in the order in which they were
/// drawn.
///
/// `scalar_random` alone adds to the record, one entry for each draw, so that two
/// entries are two draws.
pub struct Draws {
    log: Vec<Scalar>,
}

impl View for Draws {
    type V = Seq<Scalar>;

    closed spec fn view(&self) -> Seq<Scalar> {
        self.log@
    }
}

impl Draws {
    /// The record before the first draw.
    pub fn new() -> (r: Draws)
        ensures
            r@ == Seq::<Scalar>::empty(),
    {
        Draws { log: Vec::new() }
    }

    /// The scalar of draw `i`.
    pub fn get(&self, i: usize) -> (r: Scalar)
        requires
            i < self@.len(),
        ensures
            r == self@[i as int],
    {
        self.log[i]
    }
}

/// Calls `Scalar::random` with the generator of `rand::thread_rng`: some reduced
/// scalar, which is put at the end of the record. Which one is left to chance.
#[verifier::external_body]
pub(crate) fn scalar_random(draws: &mut Draws) -> (r: Scalar)
    ensures
        r.wf(),
        final(draws)@ == old(draws)@.push(r),
{
    let s = Scalar { bytes: DalekScalar::random(&mut rand::thread_rng()).to_bytes() };
    draws.log.push(s);
    s
}

/// Calls `*` on two scalars: the product modulo the group order.
#[verifier::external_body]
pub(crate) fn scalar_mul(a: &Scalar, b: &Scalar) -> (r: Scalar)
    requires
        a.wf(),
        b.wf(),
    ensures
        r.wf(),
        r@ == (a@ * b@) % order(),
{
    let x = DalekScalar::from_bytes_mod_order(a.bytes);
    let y = DalekScalar::from_bytes_mod_order(b.bytes);
    Scalar { bytes: (x * y).to_bytes() }
}

/// Calls `-` on two scalars: the difference modulo the group order.
#[verifier::external_body]
pub(crate) fn scalar_sub(a: &Scalar, b: &Scalar) -> (r: Scalar)
    requires
        a.wf(),
        b.wf(),
    ensures
        r.wf(),
        r@ == (a@ - b@) % (order() as int),
{
    let x = DalekScalar::from_bytes_mod_order(a.bytes);
    let y = DalekScalar::from_bytes_mod_order(b.bytes);
    Scalar { bytes: (x - y).to_bytes() }
}

/// Calls `CompressedRistretto::decompress` and `RistrettoPoint::compress`: the
/// first accepts exactly the canonical encodings of group elements, and the
/// second gives the same encoding back.
#[verifier::external_body]
pub(crate) fn point_decompress(bytes: &[u8; 32]) -> (r: Option<Point>)
    ensures
        r is Some <==> is_point(bytes@),
        r matches Some(p) ==> p.wf() && p.bytes == *bytes,
{
    match CompressedRistretto(*bytes).decompress() {
        Some(p) => Some(Point { bytes: p.compress().to_bytes() }),
        None => None,
    }
}

/// Reads `RISTRETTO_BASEPOINT_POINT`: the generator `G`, whose discrete
/// logarithm is one.
#[verifier::external_body]
pub(crate) fn point_base() -> (r: Point)
    ensures
        r.wf(),
        r.bytes == base_multiple(1),
        r@ == 1,
{
    Point { bytes: RISTRETTO_BASEPOINT_POINT.compress().to_bytes() }
}

/// Calls `*` on a scalar and `RISTRETTO_BASEPOINT_TABLE`: the multiple `x * G`.
/// Distinct reduced scalars give distinct points, so that its discrete logarithm
/// is `x`.
#[verifier::external_body]
pub(crate) fn point_mul_base(x: &Scalar) -> (r: Point)
    requires
        x.wf(),
    ensures
        r.wf(),
        r.bytes == base_multiple(x@),
        r@ == x@,
{
    let k = DalekScalar::from_bytes_mod_order(x.bytes);
    Point { bytes: (&k * RISTRETTO_BASEPOINT_TABLE).compress().to_bytes() }
}

/// Calls `*` on a scalar and a point: the discrete logarithm is multiplied.
#[verifier::external_body]
pub(crate) fn point_mul(x: &Scalar, p: &Point) -> (r: Point)
    requires
        x.wf(),
        p.wf(),
    ensures
        r.wf(),
        r@ == (x@ * p@) % order(),
{
    let k = DalekScalar::from_bytes_mod_order(x.bytes);
    let q = CompressedRistretto(p.bytes).decompress().expect("canonical encoding");
    Point { bytes: (k * q).compress().to_bytes() }
}

/// Calls `-` on two points: the discrete logarithms are subtracted.
#[verifier::external_body]
pub(crate) fn point_sub(p: &Point, q: &Point) -> (r: Point)
    requires
        p.wf(),
        q.wf(),
    ensures
        r.wf(),
        r@ == (p@ - q@) % (order() as int),
{
    let a = CompressedRistretto(p.bytes).decompress().expect("canonical encoding");
    let b = CompressedRistretto(q.bytes).decompress().expect("canonical encoding");
    Point { bytes: (a - b).compress().to_bytes() }
}

/// Calls `RistrettoPoint::vartime_multiscalar_mul` on two terms: `a * p + b * q`.
#[verifier::external_body]
pub(crate) fn point_double_mul(a: &Scalar, p: &Point, b: &Scalar, q: &Point) -> (r: Point)
    requires
        a.wf(),
        p.wf(),
        b.wf(),
        q.wf(),
    ensures
        r.wf(),
        r@ == (a@ * p@ + b@ * q@) % order(),
{
    let x = DalekScalar::from_bytes_mod_order(a.bytes);
    let y = DalekScalar::from_bytes_mod_order(b.bytes);
    let u = CompressedRistretto(p.bytes).decompress().expect("canonical encoding");
    let v = CompressedRistretto(q.bytes).decompress().expect("canonical encoding");
    let sum = RistrettoPoint::vartime_multiscalar_mul(&[x, y], &[u, v]);
    Point { bytes: sum.compress().to_bytes() }
}

/// Calls `RistrettoPoint::from_uniform_bytes`: a group element that the 64 bytes
/// alone determine. Which one is not stated.
#[verifier::external_body]
pub(crate) fn point_from_uniform_bytes(bytes: &[u8; 64]) -> (r: Point)
    ensures
        r.wf(),
        r.bytes == uniform_point(bytes@),
{
    Point { bytes: RistrettoPoint::from_uniform_bytes(bytes).compress().to_bytes() }
}

/// Reads `B_blinding` of `bulletproofs::PedersenGens::default`: the group element
/// to which the SHA3-512 digest of the encoding of `G` is mapped.
#[verifier::external_body]
pub(crate) fn blinding_generator() -> (r: Point)
    ensures
        r.wf(),
        r.bytes == uniform_point(sha3_512(base_multiple(1)@)@),
{
    Point { bytes: bulletproofs::PedersenGens::default().B_blinding.compress().to_bytes() }
}

} // verus!
