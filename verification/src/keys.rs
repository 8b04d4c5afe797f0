//! Key pairs, key validity and key images.

use vstd::arithmetic::div_mod::{lemma_mod_bound, lemma_small_mod};
use vstd::prelude::*;
use vstd::string::StringSliceAdditionalSpecFns;

use crate::bytes::{
    block, le_bound, le_bytes, le_nat, lemma_le_bytes_of_le_nat, lemma_le_nat_of_le_bytes,
};
use crate::group::{
    base_multiple, discrete_log, is_point, lemma_order, lemma_point, order, point_decompress,
    point_mul, point_mul_base, scalar_from_canonical, uniform_point, Draws, Point, Scalar,
};
use crate::hash::{
    digest_scalar, hash_to_point, hash_to_scalar, key_hash, same_digest, sha512_digest,
};
use crate::modular::{lemma_response_opens, response};
use crate::ring::random_scalars;

verus! {

/// A private key and its public key, one after the other.
pub open spec fn key_pair(x: nat) -> Seq<u8> {
    le_bytes(x, 32) + base_multiple(x)@
}

/// The private key that a seed determines.
pub open spec fn seed_key(seed: Seq<u8>) -> nat {
    digest_scalar("blocknet_keygen".spec_bytes() + seed)
}

/// The discrete logarithm of the key image of the private key `x`: the public
/// key hashed to the group, times `x`.
pub open spec fn key_image_log(x: nat) -> nat {
    (x * key_hash(x)) % order()
}

/// The encoding of the key image of the private key `x`.
pub open spec fn key_image_bytes(x: nat) -> [u8; 32] {
    base_multiple(key_image_log(x))
}

/// The response for the challenge `c` under the private key `x` opens the
/// commitments of the nonce `alpha`, to the generator and to the hashed key.
pub proof fn lemma_key_response_opens(x: nat, alpha: nat, c: nat)
    requires
        x < order(),
        alpha < order(),
    ensures
        (response(alpha, c, x) + c * x) % order() == alpha,
        (response(alpha, c, x) * key_hash(x) + c * key_image_log(x)) % order() == (alpha
            * key_hash(x)) % order(),
{
    lemma_response_opens(alpha, c, x, 1);
    lemma_response_opens(alpha, c, x, key_hash(x));
    lemma_small_mod(x, order());
    lemma_small_mod(alpha, order());
}

/// A key pair is of use: the private half reads back as the private key, and the
/// public half is the valid encoding of the public key.
pub proof fn law_key_pair(x: nat)
    requires
        x < order(),
    ensures
        key_pair(x).len() == 64,
        le_nat(block(key_pair(x), 0)) == x,
        block(key_pair(x), 1) == base_multiple(x)@,
        is_point(block(key_pair(x), 1)),
{
    assert(order() < le_bound(32)) by {
        reveal(order);
        reveal_with_fuel(le_bound, 33);
    }
    lemma_le_nat_of_le_bytes(x, 32);
    assert(block(key_pair(x), 0) =~= le_bytes(x, 32));
    assert(block(key_pair(x), 1) =~= base_multiple(x)@);
}

/// Lays a key pair out in 64 bytes.
pub fn write_key_pair(x: &Scalar, output: &mut [u8; 64])
    requires
        x.wf(),
    ensures
        final(output)@ == key_pair(x@),
{
    let public: Point = point_mul_base(x);
    for k in 0..32usize
        invariant
            forall|j: int| 0 <= j < k ==> output@[j] == x.bytes@[j],
            forall|j: int| 0 <= j < k ==> output@[32 + j] == public.bytes@[j],
    {
        output[k] = x.bytes[k];
        output[32 + k] = public.bytes[k];
    }
    proof {
        lemma_le_bytes_of_le_nat(x.bytes@);
        assert(output@ =~= x.bytes@ + public.bytes@);
    }
}

/// Generates a key pair: 32 bytes of private key, then 32 bytes of public key.
///
/// The private key is a scalar drawn for it, left to chance.
pub fn blocknet_ristretto_keygen(output: &mut [u8; 64]) -> (r: i32)
    ensures
        r == 0,
        exists|draws: Draws|
            {
                &&& #[trigger] call_ensures(random_scalars, (1usize,), draws)
                &&& draws@[0].wf()
                &&& final(output)@ == key_pair(draws@[0]@)
            },
{
    let draws: Draws = random_scalars(1);
    write_key_pair(&draws.get(0), output);
    0
}

/// Generates the key pair that a 32-byte seed determines.
pub fn blocknet_ristretto_keygen_from_seed(seed: &[u8; 32], output: &mut [u8; 64]) -> (r: i32)
    ensures
        r == 0,
        final(output)@ == key_pair(seed_key(seed@)),
{
    let mut input: Vec<u8> = Vec::new();
    input.extend_from_slice("blocknet_keygen".as_bytes());
    input.extend_from_slice(seed.as_slice());
    assert(input@ =~= "blocknet_keygen".spec_bytes() + seed@);
    let x: Scalar = hash_to_scalar(input.as_slice());
    write_key_pair(&x, output);
    0
}

/// Returns 1 when the bytes are the canonical encoding of a group element, and 0
/// otherwise.
pub fn blocknet_ristretto_pubkey_is_valid(pubkey: &[u8; 32]) -> (r: i32)
    ensures
        r == if is_point(pubkey@) { 1i32 } else { 0i32 },
{
    match point_decompress(pubkey) {
        Some(_) => 1,
        None => 0,
    }
}

/// The key image of the private key `x`.
pub fn key_image_of(x: &Scalar) -> (r: Point)
    requires
        x.wf(),
    ensures
        r.wf(),
        r@ == key_image_log(x@),
        r.bytes == key_image_bytes(x@),
{
    let public: Point = point_mul_base(x);
    let hp: Point = hash_to_point(public.bytes.as_slice());
    let image: Point = point_mul(x, &hp);
    proof {
        lemma_point(image.bytes@);
        assert(image.bytes =~= base_multiple(image@));
    }
    image
}

/// Writes the key image of a private key: 0 on success, and -1, with the output
/// untouched, when the private key is not canonical.
pub fn blocknet_key_image(private_key: &[u8; 32], key_image_out: &mut [u8; 32]) -> (r: i32)
    ensures
        r == if le_nat(private_key@) < order() { 0i32 } else { -1i32 },
        r == 0 ==> *final(key_image_out) == key_image_bytes(le_nat(private_key@)),
        r != 0 ==> *final(key_image_out) == *old(key_image_out),
{
    match scalar_from_canonical(private_key) {
        Some(x) => {
            let image: Point = key_image_of(&x);
            *key_image_out = image.bytes;
            0
        },
        None => -1,
    }
}

/// The key pair of a seed is that of the SHA-512 digest of the tag and the whole
/// seed, modulo the group order, and seeds are bound whole: two different seeds
/// with one private key show two different byte strings with the same digest.
pub proof fn law_seed_binds(
    seed: [u8; 32],
    output: &mut [u8; 64],
    r: i32,
    other: [u8; 32],
    other_output: &mut [u8; 64],
    other_r: i32,
)
    requires
        call_ensures(blocknet_ristretto_keygen_from_seed, (&seed, output), r),
        call_ensures(blocknet_ristretto_keygen_from_seed, (&other, other_output), other_r),
    ensures
        r == 0,
        ({
            let x = le_nat(sha512_digest("blocknet_keygen".spec_bytes() + seed@)@) % order();
            &&& le_nat(final(output)@.subrange(0, 32)) == x
            &&& final(output)@.subrange(32, 64) == base_multiple(x)@
        }),
        seed@ != other@ && final(output)@.subrange(0, 32) == final(other_output)@.subrange(0, 32)
            ==> same_digest(
            "blocknet_keygen".spec_bytes() + seed@,
            "blocknet_keygen".spec_bytes() + other@,
        ),
{
    let tag = "blocknet_keygen".spec_bytes();
    lemma_order();
    lemma_mod_bound(le_nat(sha512_digest(tag + seed@)@) as int, order() as int);
    lemma_mod_bound(le_nat(sha512_digest(tag + other@)@) as int, order() as int);
    law_key_pair(seed_key(seed@));
    law_key_pair(seed_key(other@));
    assert((tag + seed@).subrange(tag.len() as int, (tag + seed@).len() as int) =~= seed@);
    assert((tag + other@).subrange(tag.len() as int, (tag + other@).len() as int) =~= other@);
}

/// A generated private key is a scalar drawn for it, and the public key is its
/// multiple of the generator.
pub proof fn law_keygen_draws(output: &mut [u8; 64], r: i32)
    requires
        call_ensures(blocknet_ristretto_keygen, (output,), r),
    ensures
        r == 0,
        exists|draws: Draws|
            {
                &&& #[trigger] call_ensures(random_scalars, (1usize,), draws)
                &&& draws@.len() == 1
                &&& draws@[0]@ < order()
                &&& final(output)@.subrange(0, 32) == draws@[0].bytes@
                &&& final(output)@.subrange(32, 64) == base_multiple(draws@[0]@)@
            },
{
    let draws = choose|draws: Draws|
        {
            &&& #[trigger] call_ensures(random_scalars, (1usize,), draws)
            &&& draws@[0].wf()
            &&& final(output)@ == key_pair(draws@[0]@)
        };
    lemma_le_bytes_of_le_nat(draws@[0].bytes@);
    assert(final(output)@.subrange(0, 32) =~= draws@[0].bytes@);
    assert(final(output)@.subrange(32, 64) =~= base_multiple(draws@[0]@)@);
}

/// The valid public keys are the encodings of the multiples of the generator, and
/// no other bytes.
pub proof fn law_pubkey_is_valid(pubkey: [u8; 32], r: i32)
    requires
        call_ensures(blocknet_ristretto_pubkey_is_valid, (&pubkey,), r),
    ensures
        r == 1 || r == 0,
        r == 1 <==> exists|n: nat| n < order() && #[trigger] base_multiple(n)@ == pubkey@,
{
}

/// The public half of every generated key pair is valid.
pub proof fn law_generated_pubkey_is_valid(
    output: &mut [u8; 64],
    generated: i32,
    pubkey: [u8; 32],
    r: i32,
)
    requires
        call_ensures(blocknet_ristretto_keygen, (output,), generated),
        pubkey@ == final(output)@.subrange(32, 64),
        call_ensures(blocknet_ristretto_pubkey_is_valid, (&pubkey,), r),
    ensures
        r == 1,
{
    law_keygen_draws(output, generated);
}

/// The key image of a private key `x` is `x` times the group element to which the
/// tag and the whole public key are hashed. It is refused, and nothing written,
/// exactly when the bytes are not those of a reduced scalar.
pub proof fn law_key_image(private_key: [u8; 32], key_image_out: &mut [u8; 32], r: i32)
    requires
        call_ensures(blocknet_key_image, (&private_key, key_image_out), r),
    ensures
        r == 0 <==> le_nat(private_key@) < order(),
        r == -1 <==> le_nat(private_key@) >= order(),
        r == -1 ==> *final(key_image_out) == *old(key_image_out),
        r == 0 ==> ({
            let x = le_nat(private_key@);
            let input = "blocknet_hash_to_point".spec_bytes() + base_multiple(x)@;
            let hashed = discrete_log(uniform_point(sha512_digest(input)@)@);
            final(key_image_out)@ == base_multiple((x * hashed) % order())@
        }),
{
}

/// Every call is allowed, whatever the bytes are.
pub proof fn law_key_calls_are_allowed(
    bytes: [u8; 32],
    output: &mut [u8; 64],
    key_image_out: &mut [u8; 32],
)
    ensures
        call_requires(blocknet_ristretto_keygen, (output,)),
        call_requires(blocknet_ristretto_keygen_from_seed, (&bytes, output)),
        call_requires(blocknet_ristretto_pubkey_is_valid, (&bytes,)),
        call_requires(blocknet_key_image, (&bytes, key_image_out)),
{
}

} // verus!
