//! The hash functions of the signature scheme, each under a domain tag of its
//! own.

use sha2::{Digest, Sha512};
use vstd::prelude::*;
use vstd::string::StringSliceAdditionalSpecFns;

use crate::bytes::le_nat;
use crate::group::{
    base_multiple, discrete_log, order, point_from_uniform_bytes, scalar_from_bytes_mod_order_wide,
    uniform_point, Point, Scalar,
};

verus! {

/// The SHA-512 digest of a byte string.
pub uninterp spec fn sha512_digest(data: Seq<u8>) -> [u8; 64];

/// The encoding of the group element to which `data` is hashed.
pub open spec fn hashed_point(data: Seq<u8>) -> [u8; 32] {
    uniform_point(sha512_digest("blocknet_hash_to_point".spec_bytes() + data)@)
}

/// The discrete logarithm of the group element to which the encoding of `p * G`
/// is hashed.
pub open spec fn key_hash(p: nat) -> nat {
    discrete_log(hashed_point(base_multiple(p)@)@)
}

/// A SHA-512 digest read as an integer modulo the group order.
pub open spec fn digest_scalar(data: Seq<u8>) -> nat {
    le_nat(sha512_digest(data)@) % order()
}

/// What a CLSAG challenge is the digest of.
pub open spec fn challenge_input(message: Seq<u8>, l: Seq<u8>, r: Seq<u8>) -> Seq<u8> {
    "blocknet_clsag_c".spec_bytes() + message + l + r
}

/// What a RingCT challenge is the digest of.
pub open spec fn ringct_challenge_input(
    message: Seq<u8>,
    l: Seq<u8>,
    r: Seq<u8>,
    d: Seq<u8>,
) -> Seq<u8> {
    "blocknet_ringct_c".spec_bytes() + message + l + r + d
}

/// The message can be read off a CLSAG challenge's input.
pub proof fn lemma_challenge_input_message(
    message: Seq<u8>,
    l: Seq<u8>,
    r: Seq<u8>,
    other: Seq<u8>,
    other_l: Seq<u8>,
    other_r: Seq<u8>,
)
    requires
        l.len() == other_l.len(),
        r.len() == other_r.len(),
        challenge_input(message, l, r) == challenge_input(other, other_l, other_r),
    ensures
        message == other,
{
    let tag = "blocknet_clsag_c".spec_bytes();
    let a = challenge_input(message, l, r);
    let b = challenge_input(other, other_l, other_r);
    assert(a.len() == tag.len() + message.len() + l.len() + r.len());
    assert(b.len() == tag.len() + other.len() + l.len() + r.len());
    assert(a.subrange(tag.len() as int, a.len() - l.len() - r.len()) =~= message);
    assert(b.subrange(tag.len() as int, b.len() - l.len() - r.len()) =~= other);
}

/// The message can be read off a RingCT challenge's input.
pub proof fn lemma_ringct_challenge_input_message(
    message: Seq<u8>,
    l: Seq<u8>,
    r: Seq<u8>,
    d: Seq<u8>,
    other: Seq<u8>,
    other_l: Seq<u8>,
    other_r: Seq<u8>,
    other_d: Seq<u8>,
)
    requires
        l.len() == other_l.len(),
        r.len() == other_r.len(),
        d.len() == other_d.len(),
        ringct_challenge_input(message, l, r, d) == ringct_challenge_input(
            other,
            other_l,
            other_r,
            other_d,
        ),
    ensures
        message == other,
{
    let tag = "blocknet_ringct_c".spec_bytes();
    let a = ringct_challenge_input(message, l, r, d);
    let b = ringct_challenge_input(other, other_l, other_r, other_d);
    let rest = l.len() + r.len() + d.len();
    assert(a.len() == tag.len() + message.len() + rest);
    assert(b.len() == tag.len() + other.len() + rest);
    assert(a.subrange(tag.len() as int, a.len() - rest) =~= message);
    assert(b.subrange(tag.len() as int, b.len() - rest) =~= other);
}

/// Two different byte strings with the same SHA-512 digest modulo the group
/// order.
pub open spec fn same_digest(a: Seq<u8>, b: Seq<u8>) -> bool {
    a != b && le_nat(sha512_digest(a)@) % order() == le_nat(sha512_digest(b)@) % order()
}

/// The tag, the message and the two commitments can be read off a CLSAG
/// challenge's input, one after the other and with nothing else, whatever the
/// length of the message.
pub proof fn law_challenge_input_parts(message: Seq<u8>, l: Seq<u8>, r: Seq<u8>)
    ensures
        ({
            let b = challenge_input(message, l, r);
            let i = "blocknet_clsag_c".spec_bytes().len() as int;
            let j = i + message.len();
            let k = j + l.len();
            &&& b.len() == k + r.len()
            &&& b.subrange(0, i) == "blocknet_clsag_c".spec_bytes()
            &&& b.subrange(i, j) == message
            &&& b.subrange(j, k) == l
            &&& b.subrange(k, k + r.len()) == r
        }),
{
    let b = challenge_input(message, l, r);
    let tag = "blocknet_clsag_c".spec_bytes();
    let i = tag.len() as int;
    let j = i + message.len();
    let k = j + l.len();
    assert(b.subrange(0, i) =~= tag);
    assert(b.subrange(i, j) =~= message);
    assert(b.subrange(j, k) =~= l);
    assert(b.subrange(k, k + r.len()) =~= r);
}

/// The tag, the message and the three commitments can be read off a RingCT
/// challenge's input, one after the other and with nothing else, whatever the
/// length of the message.
pub proof fn law_ringct_challenge_input_parts(
    message: Seq<u8>,
    l: Seq<u8>,
    r: Seq<u8>,
    d: Seq<u8>,
)
    ensures
        ({
            let b = ringct_challenge_input(message, l, r, d);
            let i = "blocknet_ringct_c".spec_bytes().len() as int;
            let j = i + message.len();
            let k = j + l.len();
            let m = k + r.len();
            &&& b.len() == m + d.len()
            &&& b.subrange(0, i) == "blocknet_ringct_c".spec_bytes()
            &&& b.subrange(i, j) == message
            &&& b.subrange(j, k) == l
            &&& b.subrange(k, m) == r
            &&& b.subrange(m, m + d.len()) == d
        }),
{
    let b = ringct_challenge_input(message, l, r, d);
    let tag = "blocknet_ringct_c".spec_bytes();
    let i = tag.len() as int;
    let j = i + message.len();
    let k = j + l.len();
    let m = k + r.len();
    assert(b.subrange(0, i) =~= tag);
    assert(b.subrange(i, j) =~= message);
    assert(b.subrange(j, k) =~= l);
    assert(b.subrange(k, m) =~= r);
    assert(b.subrange(m, m + d.len()) =~= d);
}

/// A CLSAG challenge's input determines the message, of any length, and both
/// commitments.
pub proof fn law_challenge_input_binds(
    message: Seq<u8>,
    l: Seq<u8>,
    r: Seq<u8>,
    other: Seq<u8>,
    other_l: Seq<u8>,
    other_r: Seq<u8>,
)
    requires
        l.len() == 32,
        r.len() == 32,
        other_l.len() == 32,
        other_r.len() == 32,
        challenge_input(message, l, r) == challenge_input(other, other_l, other_r),
    ensures
        message == other,
        l == other_l,
        r == other_r,
{
    lemma_challenge_input_message(message, l, r, other, other_l, other_r);
    law_challenge_input_parts(message, l, r);
    law_challenge_input_parts(other, other_l, other_r);
}

/// A RingCT challenge's input determines the message, of any length, and all
/// three commitments.
pub proof fn law_ringct_challenge_input_binds(
    message: Seq<u8>,
    l: Seq<u8>,
    r: Seq<u8>,
    d: Seq<u8>,
    other: Seq<u8>,
    other_l: Seq<u8>,
    other_r: Seq<u8>,
    other_d: Seq<u8>,
)
    requires
        l.len() == 32,
        r.len() == 32,
        d.len() == 32,
        other_l.len() == 32,
        other_r.len() == 32,
        other_d.len() == 32,
        ringct_challenge_input(message, l, r, d) == ringct_challenge_input(
            other,
            other_l,
            other_r,
            other_d,
        ),
    ensures
        message == other,
        l == other_l,
        r == other_r,
        d == other_d,
{
    lemma_ringct_challenge_input_message(
        message,
        l,
        r,
        d,
        other,
        other_l,
        other_r,
        other_d,
    );
    law_ringct_challenge_input_parts(message, l, r, d);
    law_ringct_challenge_input_parts(other, other_l, other_r, other_d);
}

/// Hashing to a scalar is the SHA-512 digest of the whole byte string, of any
/// length, modulo the group order.
pub proof fn law_hash_to_scalar(data: &[u8], r: Scalar)
    requires
        call_ensures(hash_to_scalar, (data,), r),
    ensures
        r@ == le_nat(sha512_digest(data@)@) % order(),
{
}

/// Two byte strings that hash to one scalar are the same, or have the same digest.
pub proof fn law_hash_to_scalar_binds(a: &[u8], b: &[u8], r: Scalar)
    requires
        call_ensures(hash_to_scalar, (a,), r),
        call_ensures(hash_to_scalar, (b,), r),
    ensures
        a@ == b@ || same_digest(a@, b@),
{
}

/// Two byte strings that hash to one group element are the same, or the digests
/// of the two, each whole and behind the tag, are mapped to one element.
pub proof fn law_hash_to_point_binds(a: &[u8], b: &[u8], p: Point, q: Point)
    requires
        call_ensures(hash_to_point, (a,), p),
        call_ensures(hash_to_point, (b,), q),
    ensures
        p.bytes == uniform_point(sha512_digest("blocknet_hash_to_point".spec_bytes() + a@)@),
        p == q && a@ != b@ ==> {
            let x = "blocknet_hash_to_point".spec_bytes() + a@;
            let y = "blocknet_hash_to_point".spec_bytes() + b@;
            &&& x != y
            &&& uniform_point(sha512_digest(x)@) == uniform_point(sha512_digest(y)@)
        },
{
    let tag = "blocknet_hash_to_point".spec_bytes();
    assert((tag + a@).subrange(tag.len() as int, (tag + a@).len() as int) =~= a@);
    assert((tag + b@).subrange(tag.len() as int, (tag + b@).len() as int) =~= b@);
}

/// A CLSAG challenge is the digest of the tag, the message and both commitments:
/// calls that give one challenge for different arguments show two different byte
/// strings with the same digest.
pub proof fn law_challenge_hash_binds(
    message: &[u8],
    l: Point,
    r: Point,
    c: Scalar,
    other: &[u8],
    other_l: Point,
    other_r: Point,
    other_c: Scalar,
)
    requires
        call_ensures(challenge_hash, (message, &l, &r), c),
        call_ensures(challenge_hash, (other, &other_l, &other_r), other_c),
    ensures
        c@ == le_nat(
            sha512_digest("blocknet_clsag_c".spec_bytes() + message@ + l.bytes@ + r.bytes@)@,
        ) % order(),
        c@ == other_c@ && !(message@ == other@ && l.bytes@ == other_l.bytes@ && r.bytes@
            == other_r.bytes@) ==> same_digest(
            "blocknet_clsag_c".spec_bytes() + message@ + l.bytes@ + r.bytes@,
            "blocknet_clsag_c".spec_bytes() + other@ + other_l.bytes@ + other_r.bytes@,
        ),
{
    if challenge_input(message@, l.bytes@, r.bytes@) == challenge_input(
        other@,
        other_l.bytes@,
        other_r.bytes@,
    ) {
        law_challenge_input_binds(
            message@,
            l.bytes@,
            r.bytes@,
            other@,
            other_l.bytes@,
            other_r.bytes@,
        );
    }
}

/// A RingCT challenge is the digest of the tag, the message and all three
/// commitments: calls that give one challenge for different arguments show two
/// different byte strings with the same digest.
pub proof fn law_ringct_challenge_hash_binds(
    message: &[u8],
    l: Point,
    r: Point,
    d: Point,
    c: Scalar,
    other: &[u8],
    other_l: Point,
    other_r: Point,
    other_d: Point,
    other_c: Scalar,
)
    requires
        call_ensures(ringct_challenge_hash, (message, &l, &r, &d), c),
        call_ensures(ringct_challenge_hash, (other, &other_l, &other_r, &other_d), other_c),
    ensures
        c@ == le_nat(
            sha512_digest(
                "blocknet_ringct_c".spec_bytes() + message@ + l.bytes@ + r.bytes@ + d.bytes@,
            )@,
        ) % order(),
        c@ == other_c@ && !(message@ == other@ && l.bytes@ == other_l.bytes@ && r.bytes@
            == other_r.bytes@ && d.bytes@ == other_d.bytes@) ==> same_digest(
            "blocknet_ringct_c".spec_bytes() + message@ + l.bytes@ + r.bytes@ + d.bytes@,
            "blocknet_ringct_c".spec_bytes() + other@ + other_l.bytes@ + other_r.bytes@
                + other_d.bytes@,
        ),
{
    if ringct_challenge_input(message@, l.bytes@, r.bytes@, d.bytes@) == ringct_challenge_input(
        other@,
        other_l.bytes@,
        other_r.bytes@,
        other_d.bytes@,
    ) {
        law_ringct_challenge_input_binds(
            message@,
            l.bytes@,
            r.bytes@,
            d.bytes@,
            other@,
            other_l.bytes@,
            other_r.bytes@,
            other_d.bytes@,
        );
    }
}

/// Calls `Sha512::new`, `update` and `finalize`: the digest, which the bytes
/// alone determine. What it is on given bytes is not stated.
#[verifier::external_body]
pub(crate) fn sha512(data: &[u8]) -> (r: [u8; 64])
    ensures
        r == sha512_digest(data@),
{
    let mut hasher = Sha512::new();
    hasher.update(data);
    hasher.finalize().into()
}

/// Hashes a byte string to a group element.
pub fn hash_to_point(data: &[u8]) -> (r: Point)
    ensures
        r.wf(),
        r.bytes == hashed_point(data@),
{
    let mut input: Vec<u8> = Vec::new();
    input.extend_from_slice("blocknet_hash_to_point".as_bytes());
    input.extend_from_slice(data);
    assert(input@ =~= "blocknet_hash_to_point".spec_bytes() + data@);
    point_from_uniform_bytes(&sha512(input.as_slice()))
}

/// Hashes a byte string to a scalar.
pub fn hash_to_scalar(data: &[u8]) -> (r: Scalar)
    ensures
        r.wf(),
        r@ == digest_scalar(data@),
{
    scalar_from_bytes_mod_order_wide(&sha512(data))
}

/// The challenge that follows a ring member's two commitments.
pub fn challenge_hash(message: &[u8], l: &Point, r: &Point) -> (c: Scalar)
    ensures
        c.wf(),
        c@ == digest_scalar(challenge_input(message@, l.bytes@, r.bytes@)),
{
    let mut input: Vec<u8> = Vec::new();
    input.extend_from_slice("blocknet_clsag_c".as_bytes());
    input.extend_from_slice(message);
    input.extend_from_slice(l.bytes.as_slice());
    input.extend_from_slice(r.bytes.as_slice());
    assert(input@ =~= challenge_input(message@, l.bytes@, r.bytes@));
    hash_to_scalar(input.as_slice())
}

/// The challenge that follows a ring member's three commitments.
pub fn ringct_challenge_hash(message: &[u8], l: &Point, r: &Point, d: &Point) -> (c: Scalar)
    ensures
        c.wf(),
        c@ == digest_scalar(ringct_challenge_input(message@, l.bytes@, r.bytes@, d.bytes@)),
{
    let mut input: Vec<u8> = Vec::new();
    input.extend_from_slice("blocknet_ringct_c".as_bytes());
    input.extend_from_slice(message);
    input.extend_from_slice(l.bytes.as_slice());
    input.extend_from_slice(r.bytes.as_slice());
    input.extend_from_slice(d.bytes.as_slice());
    assert(input@ =~= ringct_challenge_input(message@, l.bytes@, r.bytes@, d.bytes@));
    hash_to_scalar(input.as_slice())
}

} // verus!
