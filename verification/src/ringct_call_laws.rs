//! What holds of the calls of the RingCT functions.
//!
//! Each law speaks of what the functions return and write, over the SHA-512 digest
//! and the encodings of group elements.

use vstd::arithmetic::div_mod::{lemma_mod_bound, lemma_small_mod};
use vstd::prelude::*;
use vstd::string::StringSliceAdditionalSpecFns;

use crate::bytes::{block, le_nat, lemma_le_bytes_of_le_nat};
use crate::clsag::blocknet_clsag_sign;
use crate::group::{
    base_multiple, blinding_log, discrete_log, encodes_one, is_point, lemma_order, lemma_point,
    order, sha3_512, uniform_point, Draws, Scalar,
};
use crate::hash::{same_digest, sha512_digest};
use crate::keys::{blocknet_key_image, lemma_key_response_opens};
use crate::modular::{lemma_congruent, lemma_split, response};
use crate::ring::{are_points, random_scalars, scalars_wf, values_from};
use crate::ringct::{
    blocknet_ringct_key_image, blocknet_ringct_pseudo_output, blocknet_ringct_sign,
    blocknet_ringct_verify, commitment, commitments_at, difference, encode_one,
    law_linked_iff_same_amount, lemma_walk_follows_signer, linked, member_commitments,
    reduced_difference, ring_of, ringct_accepts, ringct_challenge, ringct_closes,
    ringct_commitments, ringct_decode, ringct_encode, ringct_sign, ringct_walk, signer_challenge,
    RingctModel, RingctNonces, RingctRing,
};
use crate::ringct_laws::{
    challenge_bytes, challenges_collide, collision_shows, ignores_challenge,
    law_ringct_binds_message, law_ringct_unlinked, signer_commitments,
};

verus! {

/// The challenge that follows the member with the 32-byte public key `key`, the
/// 32-byte commitment `input`, the responses `s` and `t` and the challenge `c`: the
/// digest of the tag, the message and the encodings of `s * G + c * P`,
/// `s * Hp(P) + c * I` and `t * B_blinding + c * (C_pseudo - C)`, modulo the group
/// order.
pub open spec fn ringct_challenge_after(
    message: Seq<u8>,
    key_image: nat,
    pseudo_output: nat,
    key: Seq<u8>,
    input: Seq<u8>,
    s: nat,
    t: nat,
    c: nat,
) -> nat {
    let p = discrete_log(key);
    let hashed = discrete_log(
        uniform_point(sha512_digest("blocknet_hash_to_point".spec_bytes() + key)@)@,
    );
    let b_blinding = discrete_log(uniform_point(sha3_512(base_multiple(1)@)@)@);
    let dlog = (t * b_blinding + c * (pseudo_output - discrete_log(input))) % (order() as int);
    let l = base_multiple((s + c * p) % order())@;
    let r = base_multiple((s * hashed + c * key_image) % order())@;
    let d = base_multiple(dlog as nat)@;
    le_nat(sha512_digest("blocknet_ringct_c".spec_bytes() + message + l + r + d)@) % order()
}

/// The challenges `c` lead around the ring of the `n` keys and commitments, from
/// the first challenge of the signature bytes `sig` back to it.
pub open spec fn ringct_leads_around(
    ring_keys: Seq<u8>,
    ring_commitments: Seq<u8>,
    n: nat,
    message: Seq<u8>,
    sig: Seq<u8>,
    c: Seq<nat>,
) -> bool {
    &&& c.len() == n + 1
    &&& c[0] == le_nat(sig.subrange(0, 32))
    &&& c[n as int] == le_nat(sig.subrange(0, 32))
    &&& forall|i: int|
        0 <= i < n ==> c[i + 1] == #[trigger] ringct_challenge_after(
            message,
            discrete_log(sig.subrange(32 * (2 * n + 1int), 32 * (2 * n + 2int))),
            discrete_log(sig.subrange(32 * (2 * n + 2int), 32 * (2 * n + 3int))),
            ring_keys.subrange(32 * i, 32 * (i + 1)),
            ring_commitments.subrange(32 * i, 32 * (i + 1)),
            le_nat(sig.subrange(32 * (i + 1), 32 * (i + 2))),
            le_nat(sig.subrange(32 * (n + 1 + i), 32 * (n + 2 + i))),
            c[i],
        )
}

/// One step of the walk is the challenge that follows the member.
proof fn lemma_step(
    message: Seq<u8>,
    key_image: nat,
    pseudo_output: nat,
    key: Seq<u8>,
    input: Seq<u8>,
    s: nat,
    t: nat,
    c: nat,
)
    requires
        is_point(key),
    ensures
        ringct_challenge(
            message,
            member_commitments(
                key_image,
                discrete_log(key),
                difference(pseudo_output, discrete_log(input)),
                s,
                t,
                c,
            ),
        ) == ringct_challenge_after(message, key_image, pseudo_output, key, input, s, t, c),
{
    let m = order() as int;
    let e = pseudo_output - discrete_log(input);
    let d = difference(pseudo_output, discrete_log(input));
    let h = blinding_log();
    let (q, r) = (e / m, e % m);
    lemma_order();
    lemma_point(key);
    lemma_split(e);
    lemma_mod_bound(e, m);
    assert(c * e == c * r + m * (c * q)) by (nonlinear_arith)
        requires
            e == m * q + r,
    ;
    lemma_congruent(t * h + c * e, (t * h + c * d) as int, c * q);
}

/// The challenges of the walk, from the first member on.
spec fn walk_of(ring: RingctRing, message: Seq<u8>, sig: RingctModel) -> Seq<nat> {
    Seq::new(ring.keys.len() + 1, |i: int| ringct_walk(ring, message, sig, i as nat))
}

proof fn lemma_walk_step(
    ring_keys: Seq<u8>,
    ring_commitments: Seq<u8>,
    n: nat,
    message: Seq<u8>,
    sig: Seq<u8>,
    i: int,
)
    requires
        forall|j: int| 0 <= j < n ==> is_point(#[trigger] block(ring_keys, j)),
        0 <= i < n,
    ensures
        ({
            let ring = ring_of(ring_keys, ring_commitments, n);
            let model = ringct_decode(sig, n);
            ringct_walk(ring, message, model, (i + 1) as nat) == ringct_challenge_after(
                message,
                discrete_log(sig.subrange(32 * (2 * n + 1int), 32 * (2 * n + 2int))),
                discrete_log(sig.subrange(32 * (2 * n + 2int), 32 * (2 * n + 3int))),
                ring_keys.subrange(32 * i, 32 * (i + 1)),
                ring_commitments.subrange(32 * i, 32 * (i + 1)),
                le_nat(sig.subrange(32 * (i + 1), 32 * (i + 2))),
                le_nat(sig.subrange(32 * (n + 1 + i), 32 * (n + 2 + i))),
                ringct_walk(ring, message, model, i as nat),
            )
        }),
{
    let ring = ring_of(ring_keys, ring_commitments, n);
    let model = ringct_decode(sig, n);
    let c = ringct_walk(ring, message, model, i as nat);
    assert(is_point(block(ring_keys, i)));
    assert(ringct_walk(ring, message, model, (i + 1) as nat) == ringct_challenge(
        message,
        ringct_commitments(ring, model, i, c),
    ));
    lemma_step(
        message,
        model.key_image,
        model.pseudo_output,
        block(ring_keys, i),
        block(ring_commitments, i),
        model.s[i],
        model.t[i],
        c,
    );
}

proof fn lemma_walk_leads_around(
    ring_keys: Seq<u8>,
    ring_commitments: Seq<u8>,
    n: nat,
    message: Seq<u8>,
    sig: Seq<u8>,
)
    requires
        ringct_accepts(ring_keys, ring_commitments, n, message, sig),
    ensures
        ringct_leads_around(
            ring_keys,
            ring_commitments,
            n,
            message,
            sig,
            walk_of(ring_of(ring_keys, ring_commitments, n), message, ringct_decode(sig, n)),
        ),
{
    let c = walk_of(ring_of(ring_keys, ring_commitments, n), message, ringct_decode(sig, n));
    assert forall|i: int| 0 <= i < n implies c[i + 1] == #[trigger] ringct_challenge_after(
        message,
        discrete_log(sig.subrange(32 * (2 * n + 1int), 32 * (2 * n + 2int))),
        discrete_log(sig.subrange(32 * (2 * n + 2int), 32 * (2 * n + 3int))),
        ring_keys.subrange(32 * i, 32 * (i + 1)),
        ring_commitments.subrange(32 * i, 32 * (i + 1)),
        le_nat(sig.subrange(32 * (i + 1), 32 * (i + 2))),
        le_nat(sig.subrange(32 * (n + 1 + i), 32 * (n + 2 + i))),
        c[i],
    ) by {
        lemma_walk_step(ring_keys, ring_commitments, n, message, sig, i);
    }
}

proof fn lemma_walk_is_unique(
    ring_keys: Seq<u8>,
    ring_commitments: Seq<u8>,
    n: nat,
    message: Seq<u8>,
    sig: Seq<u8>,
    c: Seq<nat>,
    i: nat,
)
    requires
        forall|j: int| 0 <= j < n ==> is_point(#[trigger] block(ring_keys, j)),
        ringct_leads_around(ring_keys, ring_commitments, n, message, sig, c),
        i <= n,
    ensures
        ringct_walk(
            ring_of(ring_keys, ring_commitments, n),
            message,
            ringct_decode(sig, n),
            i,
        ) == c[i as int],
    decreases i,
{
    if i > 0 {
        let k = i - 1;
        lemma_walk_is_unique(ring_keys, ring_commitments, n, message, sig, c, k as nat);
        lemma_walk_step(ring_keys, ring_commitments, n, message, sig, k);
        assert(c[k + 1] == ringct_challenge_after(
            message,
            discrete_log(sig.subrange(32 * (2 * n + 1int), 32 * (2 * n + 2int))),
            discrete_log(sig.subrange(32 * (2 * n + 2int), 32 * (2 * n + 3int))),
            ring_keys.subrange(32 * k, 32 * (k + 1)),
            ring_commitments.subrange(32 * k, 32 * (k + 1)),
            le_nat(sig.subrange(32 * (k + 1), 32 * (k + 2))),
            le_nat(sig.subrange(32 * (n + 1 + k), 32 * (n + 2 + k))),
            c[k],
        ));
    }
}

/// What verifying asks of the bytes, before the walk: the keys, the commitments,
/// the key image and the pseudo-output are group elements, and the scalars are
/// reduced.
pub open spec fn is_canonical(keys: Seq<u8>, commitments: Seq<u8>, sig: Seq<u8>) -> bool {
    &&& forall|i: int| 0 <= i < 16 ==> is_point(#[trigger] keys.subrange(32 * i, 32 * i + 32))
    &&& forall|i: int|
        0 <= i < 16 ==> is_point(#[trigger] commitments.subrange(32 * i, 32 * i + 32))
    &&& forall|i: int|
        0 <= i < 33 ==> le_nat(#[trigger] sig.subrange(32 * i, 32 * i + 32)) < order()
    &&& is_point(sig.subrange(1056, 1088))
    &&& is_point(sig.subrange(1088, 1120))
}

proof fn lemma_accepts_is_canonical(k: Seq<u8>, a: Seq<u8>, m: Seq<u8>, b: Seq<u8>)
    requires
        ringct_accepts(k, a, 16, m, b),
    ensures
        is_canonical(k, a, b),
{
    assert forall|i: int| 0 <= i < 16 implies is_point(
        #[trigger] k.subrange(32 * i, 32 * i + 32),
    ) by {
        assert(is_point(block(k, i)));
    }
    assert forall|i: int| 0 <= i < 16 implies is_point(
        #[trigger] a.subrange(32 * i, 32 * i + 32),
    ) by {
        assert(is_point(block(a, i)));
    }
    assert forall|i: int| 0 <= i < 33 implies le_nat(#[trigger] b.subrange(32 * i, 32 * i + 32))
        < order() by {
        assert(le_nat(block(b, i)) < order());
    }
}

proof fn lemma_led_around_accepts(
    k: Seq<u8>,
    a: Seq<u8>,
    m: Seq<u8>,
    b: Seq<u8>,
    c: Seq<nat>,
)
    requires
        b.len() == 1120,
        is_canonical(k, a, b),
        ringct_leads_around(k, a, 16, m, b, c),
    ensures
        ringct_accepts(k, a, 16, m, b),
{
    assert forall|j: int| 0 <= j < 16 implies is_point(#[trigger] block(k, j)) by {
        assert(is_point(k.subrange(32 * j, 32 * j + 32)));
    }
    assert forall|j: int| 0 <= j < 16 implies is_point(#[trigger] block(a, j)) by {
        assert(is_point(a.subrange(32 * j, 32 * j + 32)));
    }
    assert forall|j: int| 0 <= j < 33 implies le_nat(#[trigger] block(b, j)) < order() by {
        assert(le_nat(b.subrange(32 * j, 32 * j + 32)) < order());
    }
    lemma_walk_is_unique(k, a, 16, m, b, c, 16);
}

/// Verifying tells good signatures from all others: the result is -2 exactly for a
/// wrong ring size or length, and 0 exactly when the keys, the commitments, the key
/// image and the pseudo-output are group elements, the scalars are reduced, and
/// challenges lead around the ring, whatever the message.
pub proof fn law_ringct_verify(
    ring_keys: &[u8],
    ring_commitments: &[u8],
    ring_size: usize,
    message: &[u8],
    signature: &[u8],
    r: i32,
)
    requires
        call_ensures(
            blocknet_ringct_verify,
            (ring_keys, ring_commitments, ring_size, message, signature),
            r,
        ),
    ensures
        r == 0 || r == -1 || r == -2,
        r == -2 <==> ring_size != 16 || signature@.len() != 1120,
        r == 0 <==> {
            &&& ring_size == 16
            &&& signature@.len() == 1120
            &&& is_canonical(ring_keys@, ring_commitments@, signature@)
            &&& exists|c: Seq<nat>|
                #[trigger] ringct_leads_around(
                    ring_keys@,
                    ring_commitments@,
                    16,
                    message@,
                    signature@,
                    c,
                )
        },
{
    let k = ring_keys@;
    let a = ring_commitments@;
    let m = message@;
    let b = signature@;
    if ring_size == 16 && b.len() == 1120 {
        if r == 0 {
            lemma_walk_leads_around(k, a, 16, m, b);
            lemma_accepts_is_canonical(k, a, m, b);
        }
        if is_canonical(k, a, b) && exists|c: Seq<nat>|
            #[trigger] ringct_leads_around(k, a, 16, m, b, c) {
            let c = choose|c: Seq<nat>| #[trigger] ringct_leads_around(k, a, 16, m, b, c);
            lemma_led_around_accepts(k, a, m, b, c);
        }
    }
}

/// A good signature is bound to its message, of any length: one that is good for
/// two messages shows two different byte strings with the same digest, each the
/// tag, the whole message and three commitments, and the digest is the signature's
/// first challenge.
pub proof fn law_ringct_verify_binds_message(
    ring_keys: &[u8],
    ring_commitments: &[u8],
    message: &[u8],
    other: &[u8],
    signature: &[u8],
)
    requires
        call_ensures(
            blocknet_ringct_verify,
            (ring_keys, ring_commitments, 16usize, message, signature),
            0i32,
        ),
        call_ensures(
            blocknet_ringct_verify,
            (ring_keys, ring_commitments, 16usize, other, signature),
            0i32,
        ),
        message@ != other@,
    ensures
        ({
            let ring = ring_of(ring_keys@, ring_commitments@, 16);
            let sig = ringct_decode(signature@, 16);
            let a = challenge_bytes(message@, commitments_at(ring, message@, sig, 15));
            let b = challenge_bytes(other@, commitments_at(ring, other@, sig, 15));
            &&& same_digest(a, b)
            &&& le_nat(sha512_digest(a)@) % order() == le_nat(signature@.subrange(0, 32))
        }),
{
    let ring = ring_of(ring_keys@, ring_commitments@, 16);
    let sig = ringct_decode(signature@, 16);
    law_ringct_binds_message(ring, message@, other@, sig);
}

/// Signing succeeds at every place of a ring of 16 valid keys and commitments, for
/// the private key of the member there, and for it only, with every valid
/// pseudo-output and all blinding factors. The result is -2 exactly for a wrong ring
/// size or place, and -3 exactly where everything is in order but for the key. What
/// is refused leaves both outputs as they were; a signature takes 1120 bytes, and
/// the bytes after it stay.
pub proof fn law_ringct_sign_status(
    ring_keys: &[u8],
    ring_commitments: &[u8],
    ring_size: usize,
    secret_index: usize,
    private_key: [u8; 32],
    input_blinding: [u8; 32],
    pseudo_output: [u8; 32],
    pseudo_blinding: [u8; 32],
    message: &[u8],
    signature_out: &mut [u8],
    signature_len_out: &mut usize,
    r: i32,
)
    requires
        call_ensures(
            blocknet_ringct_sign,
            (
                ring_keys,
                ring_commitments,
                ring_size,
                secret_index,
                &private_key,
                &input_blinding,
                &pseudo_output,
                &pseudo_blinding,
                message,
                signature_out,
                signature_len_out,
            ),
            r,
        ),
    ensures
        r == 0 || r == -1 || r == -2 || r == -3,
        r == -2 <==> ring_size != 16 || secret_index >= 16,
        r == 0 || r == -3 <==> {
            &&& ring_size == 16
            &&& secret_index < 16
            &&& le_nat(private_key@) < order()
            &&& is_point(pseudo_output@)
            &&& forall|i: int|
                0 <= i < 16 ==> is_point(#[trigger] ring_keys@.subrange(32 * i, 32 * i + 32))
            &&& forall|i: int|
                0 <= i < 16 ==> is_point(
                    #[trigger] ring_commitments@.subrange(32 * i, 32 * i + 32),
                )
        },
        r == 0 ==> ring_keys@.subrange(32 * secret_index, 32 * secret_index + 32)
            == base_multiple(le_nat(private_key@))@,
        r == -3 ==> ring_keys@.subrange(32 * secret_index, 32 * secret_index + 32)
            != base_multiple(le_nat(private_key@))@,
        r != 0 ==> {
            &&& final(signature_out)@ == old(signature_out)@
            &&& *final(signature_len_out) == *old(signature_len_out)
        },
        r == 0 ==> {
            &&& *final(signature_len_out) == 1120
            &&& final(signature_out)@.len() == old(signature_out)@.len()
            &&& final(signature_out)@.skip(1120) == old(signature_out)@.skip(1120)
        },
{
    let k = ring_keys@;
    let a = ring_commitments@;
    if ring_size == 16 {
        lemma_are_points(k);
        lemma_are_points(a);
    }
}

/// The blocks of a byte string are its 32-byte pieces.
proof fn lemma_are_points(k: Seq<u8>)
    ensures
        are_points(k, 16) <==> forall|i: int|
            0 <= i < 16 ==> is_point(#[trigger] k.subrange(32 * i, 32 * i + 32)),
{
    if are_points(k, 16) {
        assert forall|i: int| 0 <= i < 16 implies is_point(
            #[trigger] k.subrange(32 * i, 32 * i + 32),
        ) by {
            assert(is_point(block(k, i)));
        }
    }
    if forall|i: int| 0 <= i < 16 ==> is_point(#[trigger] k.subrange(32 * i, 32 * i + 32)) {
        assert forall|j: int| 0 <= j < 16 implies is_point(#[trigger] block(k, j)) by {
            assert(is_point(k.subrange(32 * j, 32 * j + 32)));
        }
    }
}

/// What is signed verifies, where the pseudo-output and the signer's commitment
/// hold the same amount under the blinding factors that signing was given.
pub proof fn law_ringct_signed_verifies(
    ring_keys: &[u8],
    ring_commitments: &[u8],
    secret_index: usize,
    private_key: [u8; 32],
    input_blinding: [u8; 32],
    pseudo_output: [u8; 32],
    pseudo_blinding: [u8; 32],
    message: &[u8],
    signature_out: &mut [u8],
    signature_len_out: &mut usize,
    signature: &[u8],
    pseudo_amount: nat,
    input_amount: nat,
    r: i32,
)
    requires
        call_ensures(
            blocknet_ringct_sign,
            (
                ring_keys,
                ring_commitments,
                16usize,
                secret_index,
                &private_key,
                &input_blinding,
                &pseudo_output,
                &pseudo_blinding,
                message,
                signature_out,
                signature_len_out,
            ),
            0i32,
        ),
        old(signature_out)@.len() >= 1120,
        signature@ == final(signature_out)@.take(*final(signature_len_out) as int),
        pseudo_output@ == base_multiple(
            (pseudo_amount + le_nat(pseudo_blinding@) * discrete_log(
                uniform_point(sha3_512(base_multiple(1)@)@)@,
            )) % order(),
        )@,
        ring_commitments@.subrange(32 * secret_index, 32 * secret_index + 32) == base_multiple(
            (input_amount + le_nat(input_blinding@) * discrete_log(
                uniform_point(sha3_512(base_multiple(1)@)@)@,
            )) % order(),
        )@,
        pseudo_amount % order() == input_amount % order(),
        call_ensures(
            blocknet_ringct_verify,
            (ring_keys, ring_commitments, 16usize, message, signature),
            r,
        ),
    ensures
        r == 0,
{
    let pi = secret_index as int;
    let e = le_nat(pseudo_blinding@);
    let f = le_nat(input_blinding@);
    lemma_commitment_log(pseudo_output@, pseudo_amount, e);
    lemma_commitment_log(block(ring_commitments@, pi), input_amount, f);
    law_linked_iff_same_amount(pseudo_amount, e, input_amount, f);
}

/// The discrete logarithm of a commitment.
proof fn lemma_commitment_log(e: Seq<u8>, amount: nat, blinding: nat)
    requires
        is_point(e),
        encodes_one(discrete_log(e)),
        e == base_multiple(commitment(amount, blinding))@,
    ensures
        discrete_log(e) == commitment(amount, blinding),
{
    lemma_order();
    lemma_point(e);
    lemma_mod_bound((amount + blinding * blinding_log()) as int, order() as int);
}

/// The nonces of the draws: draws 0 and 1 are the signer's, draw `i + 2` the first
/// response of member `i`, and draw `i + n + 2` the second.
pub open spec fn nonces_from(draws: Seq<Scalar>, n: nat) -> RingctNonces {
    RingctNonces {
        alpha: draws[0]@,
        alpha_z: draws[1]@,
        s: values_from(draws, 2, n),
        t: values_from(draws, n + 2int, n),
    }
}

/// What is signed with another amount in the pseudo-output than in the signer's
/// commitment is refused, whatever the message: if it verifies, then, at the signer
/// or at a member after the signer, the bytes of the signer's commitments and those
/// of the verifier's, each behind the tag and the message, are different and have
/// the same digest.
///
/// Left out are a signer's challenge of zero and a later member whose commitments
/// ignore its challenge.
pub proof fn law_ringct_signed_wrong_amount(
    ring_keys: &[u8],
    ring_commitments: &[u8],
    secret_index: usize,
    private_key: [u8; 32],
    input_blinding: [u8; 32],
    pseudo_output: [u8; 32],
    pseudo_blinding: [u8; 32],
    message: &[u8],
    signature_out: &mut [u8],
    signature_len_out: &mut usize,
    signature: &[u8],
    pseudo_amount: nat,
    input_amount: nat,
)
    requires
        call_ensures(
            blocknet_ringct_sign,
            (
                ring_keys,
                ring_commitments,
                16usize,
                secret_index,
                &private_key,
                &input_blinding,
                &pseudo_output,
                &pseudo_blinding,
                message,
                signature_out,
                signature_len_out,
            ),
            0i32,
        ),
        old(signature_out)@.len() >= 1120,
        signature@ == final(signature_out)@.take(*final(signature_len_out) as int),
        pseudo_output@ == base_multiple(
            (pseudo_amount + le_nat(pseudo_blinding@) * discrete_log(
                uniform_point(sha3_512(base_multiple(1)@)@)@,
            )) % order(),
        )@,
        ring_commitments@.subrange(32 * secret_index, 32 * secret_index + 32) == base_multiple(
            (input_amount + le_nat(input_blinding@) * discrete_log(
                uniform_point(sha3_512(base_multiple(1)@)@)@,
            )) % order(),
        )@,
        pseudo_amount % order() != input_amount % order(),
        call_ensures(
            blocknet_ringct_verify,
            (ring_keys, ring_commitments, 16usize, message, signature),
            0i32,
        ),
    ensures
        exists|draws: Draws|
            {
                let ring = ring_of(ring_keys@, ring_commitments@, 16);
                let sig = ringct_decode(signature@, 16);
                let pi = secret_index as int;
                let x = le_nat(private_key@);
                let c = sig.pseudo_output;
                let nonces = nonces_from(draws@, 16);
                &&& #[trigger] call_ensures(random_scalars, (34usize,), draws)
                &&& {
                    ||| exists|i: int|
                        pi <= i < 16 && same_digest(
                            challenge_bytes(
                                message@,
                                signer_commitments(ring, message@, pi, x, c, nonces, i),
                            ),
                            challenge_bytes(
                                message@,
                                #[trigger] commitments_at(ring, message@, sig, i),
                            ),
                        )
                    ||| signer_challenge(ring, message@, pi, x, c, nonces, pi) == 0
                    ||| exists|i: int|
                        pi < i < 16 && #[trigger] ignores_challenge(ring, sig.key_image, c, i)
                }
            },
{
    let n = 16nat;
    let pi = secret_index as int;
    let x = le_nat(private_key@);
    let e = le_nat(pseudo_blinding@);
    let f = le_nat(input_blinding@);
    let z = reduced_difference(e, f);
    let ring = ring_of(ring_keys@, ring_commitments@, n);
    let t = final(signature_out)@.take(1120);
    let c = discrete_log(pseudo_output@);
    lemma_commitment_log(pseudo_output@, pseudo_amount, e);
    lemma_commitment_log(block(ring_commitments@, pi), input_amount, f);
    law_linked_iff_same_amount(pseudo_amount, e, input_amount, f);
    let draws = choose|draws: Draws|
        {
            let nonces = RingctNonces {
                alpha: draws@[0]@,
                alpha_z: draws@[1]@,
                s: values_from(draws@, 2, n),
                t: values_from(draws@, n + 2int, n),
            };
            let sig = ringct_sign(ring, message@, pi, x, z, c, nonces);
            &&& #[trigger] call_ensures(random_scalars, (34usize,), draws)
            &&& draws@.len() == 34
            &&& scalars_wf(draws@)
            &&& nonces.wf(n)
            &&& t == ringct_encode(sig)
            &&& ringct_decode(t, n) == sig
        };
    let nonces = nonces_from(draws@, n);
    let sig = ringct_sign(ring, message@, pi, x, z, c, nonces);
    assert(ringct_decode(signature@, n) == sig);
    lemma_wrong_amount(ring, message@, pi, x, z, c, nonces);
}

proof fn lemma_wrong_amount(
    ring: RingctRing,
    message: Seq<u8>,
    pi: int,
    x: nat,
    z: nat,
    c: nat,
    nonces: RingctNonces,
)
    requires
        ring.wf(),
        nonces.wf(ring.keys.len()),
        0 <= pi < ring.keys.len(),
        ring.keys[pi] == x,
        forall|i: int| 0 <= i < ring.keys.len() ==> #[trigger] ring.keys[i] < order(),
        !linked(c, ring.commitments[pi], z),
        ringct_closes(ring, message, ringct_sign(ring, message, pi, x, z, c, nonces)),
        forall|i: int|
            0 <= i < ring.keys.len() ==> encode_one(
                #[trigger] commitments_at(
                    ring,
                    message,
                    ringct_sign(ring, message, pi, x, z, c, nonces),
                    i,
                ),
            ),
    ensures
        ({
            let sig = ringct_sign(ring, message, pi, x, z, c, nonces);
            ||| exists|i: int|
                pi <= i < ring.keys.len() && same_digest(
                    challenge_bytes(
                        message,
                        signer_commitments(ring, message, pi, x, c, nonces, i),
                    ),
                    challenge_bytes(message, #[trigger] commitments_at(ring, message, sig, i)),
                )
            ||| signer_challenge(ring, message, pi, x, c, nonces, pi) == 0
            ||| exists|i: int|
                pi < i < ring.keys.len() && #[trigger] ignores_challenge(
                    ring,
                    sig.key_image,
                    c,
                    i,
                )
        }),
{
    let sig = ringct_sign(ring, message, pi, x, z, c, nonces);
    if signer_challenge(ring, message, pi, x, c, nonces, pi) != 0 && !(exists|i: int|
        pi < i < ring.keys.len() && #[trigger] ignores_challenge(ring, sig.key_image, c, i)) {
        law_ringct_unlinked(ring, message, pi, x, z, c, nonces);
        let i = choose|i: int|
            {
                &&& pi <= i < ring.keys.len()
                &&& #[trigger] challenges_collide(ring, message, pi, x, z, c, nonces, i)
                &&& collision_shows(ring, message, pi, x, z, c, nonces, i)
            };
        assert(encode_one(commitments_at(ring, message, sig, i)));
    }
}

/// A signature holds the key image of the private key alone, which is that of
/// every CLSAG signature with the same private key, and the pseudo-output it was
/// made for. Both are read back from it.
pub proof fn law_ringct_signed_links(
    ring_keys: &[u8],
    ring_commitments: &[u8],
    secret_index: usize,
    private_key: [u8; 32],
    input_blinding: [u8; 32],
    pseudo_output: [u8; 32],
    pseudo_blinding: [u8; 32],
    message: &[u8],
    signature_out: &mut [u8],
    signature_len_out: &mut usize,
    other_keys: &[u8],
    other_index: usize,
    other: &[u8],
    other_out: &mut [u8],
    other_len_out: &mut usize,
    signature: &[u8],
    image: &mut [u8; 32],
    pseudo: &mut [u8; 32],
    key_image: &mut [u8; 32],
    extracted: i32,
    pseudo_extracted: i32,
    r: i32,
)
    requires
        call_ensures(
            blocknet_ringct_sign,
            (
                ring_keys,
                ring_commitments,
                16usize,
                secret_index,
                &private_key,
                &input_blinding,
                &pseudo_output,
                &pseudo_blinding,
                message,
                signature_out,
                signature_len_out,
            ),
            0i32,
        ),
        old(signature_out)@.len() >= 1120,
        call_ensures(
            blocknet_clsag_sign,
            (
                other_keys,
                16usize,
                other_index,
                &private_key,
                other,
                other_out,
                other_len_out,
            ),
            0i32,
        ),
        signature@ == final(signature_out)@.take(1120),
        call_ensures(blocknet_ringct_key_image, (signature, 16usize, image), extracted),
        call_ensures(
            blocknet_ringct_pseudo_output,
            (signature, 16usize, pseudo),
            pseudo_extracted,
        ),
        call_ensures(blocknet_key_image, (&private_key, key_image), r),
    ensures
        final(signature_out)@.subrange(1056, 1088) == final(key_image)@,
        final(signature_out)@.subrange(1056, 1088) == final(other_out)@.subrange(544, 576),
        final(signature_out)@.subrange(1056, 1088) == final(image)@,
        final(signature_out)@.subrange(1088, 1120) == pseudo_output@,
        final(pseudo)@ == pseudo_output@,
        extracted == 0,
        pseudo_extracted == 0,
        r == 0,
{
    assert(block(signature@, 33) =~= block(final(signature_out)@, 33));
    assert(block(signature@, 34) =~= block(final(signature_out)@, 34));
}

/// The key image of a signature over `ring_size` members is the 32 bytes behind
/// the first challenge and both lists of responses, for every ring size.
pub proof fn law_ringct_key_image(
    signature: &[u8],
    ring_size: usize,
    key_image_out: &mut [u8; 32],
    r: i32,
)
    requires
        call_ensures(blocknet_ringct_key_image, (signature, ring_size, key_image_out), r),
    ensures
        r == 0,
        final(key_image_out)@ == signature@.subrange(
            32 * (2 * ring_size + 1),
            32 * (2 * ring_size + 2),
        ),
{
}

/// The pseudo-output of a signature over `ring_size` members is the 32 bytes behind
/// the key image, for every ring size.
pub proof fn law_ringct_pseudo_output(
    signature: &[u8],
    ring_size: usize,
    pseudo_out: &mut [u8; 32],
    r: i32,
)
    requires
        call_ensures(blocknet_ringct_pseudo_output, (signature, ring_size, pseudo_out), r),
    ensures
        r == 0,
        final(pseudo_out)@ == signature@.subrange(
            32 * (2 * ring_size + 2),
            32 * (2 * ring_size + 3),
        ),
{
}

/// Nothing but the signer's own responses depends on who signs: both nonces and
/// both responses of each other member are draws of their own. Draws 0 and 1 are the
/// nonces that the signer's responses open, draw `i + 2` is the first response of
/// member `i`, and draw `i + 18` the second.
pub proof fn law_ringct_signed_draws(
    ring_keys: &[u8],
    ring_commitments: &[u8],
    secret_index: usize,
    private_key: [u8; 32],
    input_blinding: [u8; 32],
    pseudo_output: [u8; 32],
    pseudo_blinding: [u8; 32],
    message: &[u8],
    signature_out: &mut [u8],
    signature_len_out: &mut usize,
)
    requires
        call_ensures(
            blocknet_ringct_sign,
            (
                ring_keys,
                ring_commitments,
                16usize,
                secret_index,
                &private_key,
                &input_blinding,
                &pseudo_output,
                &pseudo_blinding,
                message,
                signature_out,
                signature_len_out,
            ),
            0i32,
        ),
        old(signature_out)@.len() >= 1120,
    ensures
        exists|draws: Draws|
            {
                let b = final(signature_out)@;
                let pi = secret_index as int;
                let x = le_nat(private_key@);
                let z = le_nat(pseudo_blinding@) - le_nat(input_blinding@);
                &&& #[trigger] call_ensures(random_scalars, (34usize,), draws)
                &&& draws@.len() == 34
                &&& forall|i: int|
                    0 <= i < 16 && i != pi ==> #[trigger] draws@[i + 2].bytes@ == b.subrange(
                        32 * (i + 1),
                        32 * (i + 2),
                    )
                &&& forall|i: int|
                    0 <= i < 16 && i != pi ==> #[trigger] draws@[i + 18].bytes@ == b.subrange(
                        32 * (i + 17),
                        32 * (i + 18),
                    )
                &&& forall|c: Seq<nat>| #[trigger]
                    ringct_leads_around(
                        ring_keys@,
                        ring_commitments@,
                        16,
                        message@,
                        b.take(1120),
                        c,
                    ) ==> {
                        let s = le_nat(b.subrange(32 * (pi + 1), 32 * (pi + 2)));
                        let t = le_nat(b.subrange(32 * (pi + 17), 32 * (pi + 18)));
                        &&& draws@[0]@ == (s + c[pi] * x) % order()
                        &&& draws@[1]@ == (t + c[pi] * z) % (order() as int)
                    }
            },
{
    let n = 16nat;
    let pi = secret_index as int;
    let x = le_nat(private_key@);
    let z = reduced_difference(le_nat(pseudo_blinding@), le_nat(input_blinding@));
    let ring = ring_of(ring_keys@, ring_commitments@, n);
    let b = final(signature_out)@;
    let t = b.take(1120);
    let c = discrete_log(pseudo_output@);
    let draws = choose|draws: Draws|
        {
            let nonces = RingctNonces {
                alpha: draws@[0]@,
                alpha_z: draws@[1]@,
                s: values_from(draws@, 2, n),
                t: values_from(draws@, n + 2int, n),
            };
            let sig = ringct_sign(ring, message@, pi, x, z, c, nonces);
            &&& #[trigger] call_ensures(random_scalars, (34usize,), draws)
            &&& draws@.len() == 34
            &&& scalars_wf(draws@)
            &&& nonces.wf(n)
            &&& t == ringct_encode(sig)
            &&& ringct_decode(t, n) == sig
        };
    lemma_signed_draws(
        ring_keys@,
        ring_commitments@,
        message@,
        pi,
        x,
        le_nat(pseudo_blinding@),
        le_nat(input_blinding@),
        c,
        b,
        draws@,
    );
}

proof fn lemma_signed_draws(
    k: Seq<u8>,
    a: Seq<u8>,
    message: Seq<u8>,
    pi: int,
    x: nat,
    e: nat,
    f: nat,
    pseudo_output: nat,
    b: Seq<u8>,
    draws: Seq<Scalar>,
)
    requires
        b.len() >= 1120,
        draws.len() == 34,
        0 <= pi < 16,
        nonces_from(draws, 16).wf(16),
        ringct_decode(b.take(1120), 16) == ringct_sign(
            ring_of(k, a, 16),
            message,
            pi,
            x,
            reduced_difference(e, f),
            pseudo_output,
            nonces_from(draws, 16),
        ),
        forall|j: int| 0 <= j < 16 ==> is_point(#[trigger] block(k, j)),
        discrete_log(block(k, pi)) == x,
        x < order(),
    ensures
        forall|i: int|
            0 <= i < 16 && i != pi ==> #[trigger] draws[i + 2].bytes@ == b.subrange(
                32 * (i + 1),
                32 * (i + 2),
            ),
        forall|i: int|
            0 <= i < 16 && i != pi ==> #[trigger] draws[i + 18].bytes@ == b.subrange(
                32 * (i + 17),
                32 * (i + 18),
            ),
        forall|c: Seq<nat>| #[trigger]
            ringct_leads_around(k, a, 16, message, b.take(1120), c) ==> {
                let s = le_nat(b.subrange(32 * (pi + 1), 32 * (pi + 2)));
                let t = le_nat(b.subrange(32 * (pi + 17), 32 * (pi + 18)));
                &&& draws[0]@ == (s + c[pi] * x) % order()
                &&& draws[1]@ == (t + c[pi] * (e - f)) % (order() as int)
            },
{
    let n = 16nat;
    let t = b.take(1120);
    let z = reduced_difference(e, f);
    let nonces = nonces_from(draws, n);
    let ring = ring_of(k, a, n);
    let sig = ringct_sign(ring, message, pi, x, z, pseudo_output, nonces);
    assert forall|i: int| 0 <= i < 16 && i != pi implies #[trigger] draws[i + 2].bytes@
        == b.subrange(32 * (i + 1), 32 * (i + 2)) by {
        assert(ringct_decode(t, n).s[i] == values_from(draws, 2, n)[i]);
        assert(le_nat(block(t, 1 + i)) == draws[2 + i]@);
        lemma_le_bytes_of_le_nat(draws[i + 2].bytes@);
        lemma_le_bytes_of_le_nat(block(t, 1 + i));
        assert(block(t, 1 + i) =~= b.subrange(32 * (i + 1), 32 * (i + 2)));
    }
    assert forall|i: int| 0 <= i < 16 && i != pi implies #[trigger] draws[i + 18].bytes@
        == b.subrange(32 * (i + 17), 32 * (i + 18)) by {
        assert(ringct_decode(t, n).t[i] == values_from(draws, 18, n)[i]);
        assert(le_nat(block(t, 17 + i)) == draws[18 + i]@);
        lemma_le_bytes_of_le_nat(draws[i + 18].bytes@);
        lemma_le_bytes_of_le_nat(block(t, 17 + i));
        assert(block(t, 17 + i) =~= b.subrange(32 * (i + 17), 32 * (i + 18)));
    }
    assert forall|c: Seq<nat>| #[trigger]
        ringct_leads_around(k, a, 16, message, t, c) implies {
        let sp = le_nat(b.subrange(32 * (pi + 1), 32 * (pi + 2)));
        let tp = le_nat(b.subrange(32 * (pi + 17), 32 * (pi + 18)));
        &&& draws[0]@ == (sp + c[pi] * x) % order()
        &&& draws[1]@ == (tp + c[pi] * (e - f)) % (order() as int)
    } by {
        lemma_walk_is_unique(k, a, n, message, t, c, pi as nat);
        lemma_walk_follows_signer(ring, message, pi, x, z, pseudo_output, nonces, pi as nat);
        lemma_key_response_opens(x, draws[0]@, c[pi]);
        lemma_blinding_response_opens(draws[1]@, c[pi], e, f);
        assert(sig.s[pi] == le_nat(block(t, 1 + pi)));
        assert(sig.t[pi] == le_nat(block(t, 17 + pi)));
        assert(block(t, 1 + pi) =~= b.subrange(32 * (pi + 1), 32 * (pi + 2)));
        assert(block(t, 17 + pi) =~= b.subrange(32 * (pi + 17), 32 * (pi + 18)));
    }
}

/// The response with the reduced difference of two integers opens the nonce with
/// the difference itself.
proof fn lemma_blinding_response_opens(nonce: nat, c: nat, e: nat, f: nat)
    requires
        nonce < order(),
    ensures
        (response(nonce, c, reduced_difference(e, f)) + c * (e - f)) % (order() as int) == nonce,
{
    let m = order() as int;
    let z = reduced_difference(e, f) as int;
    let w = nonce - c * z;
    let (qe, qf, qz, qw) = (e as int / m, f as int / m, (e as int % m - f as int % m) / m, w / m);
    let k = qe - qf + qz;
    lemma_order();
    lemma_mod_bound(e as int % m - f as int % m, m);
    lemma_mod_bound(w, m);
    lemma_split(e as int);
    lemma_split(f as int);
    lemma_split(e as int % m - f as int % m);
    lemma_split(w);
    assert(m * k == m * qe - m * qf + m * qz) by (nonlinear_arith)
        requires
            k == qe - qf + qz,
    ;
    assert(e - f == m * k + z);
    assert(c * (m * k + z) == m * (c * k) + c * z) by (nonlinear_arith);
    assert(m * (c * k - qw) == m * (c * k) - m * qw) by (nonlinear_arith);
    lemma_congruent(w % m + c * (e - f), nonce as int, c * k - qw);
    lemma_small_mod(nonce, order());
}

/// Every call is allowed whose buffers have the lengths that the ring size asks
/// for, whatever they hold and whatever the message is.
pub proof fn law_ringct_calls_are_allowed(
    ring_keys: &[u8],
    ring_commitments: &[u8],
    ring_size: usize,
    secret_index: usize,
    private_key: [u8; 32],
    input_blinding: [u8; 32],
    pseudo_output: [u8; 32],
    pseudo_blinding: [u8; 32],
    message: &[u8],
    signature: &[u8],
    signature_out: &mut [u8],
    signature_len_out: &mut usize,
    out: &mut [u8; 32],
)
    requires
        ring_size == 16 ==> {
            &&& ring_keys@.len() >= 512
            &&& ring_commitments@.len() >= 512
            &&& old(signature_out)@.len() >= 1120
        },
    ensures
        call_requires(
            blocknet_ringct_sign,
            (
                ring_keys,
                ring_commitments,
                ring_size,
                secret_index,
                &private_key,
                &input_blinding,
                &pseudo_output,
                &pseudo_blinding,
                message,
                signature_out,
                signature_len_out,
            ),
        ),
        call_requires(
            blocknet_ringct_verify,
            (ring_keys, ring_commitments, ring_size, message, signature),
        ),
        signature@.len() >= 32 * (2 * ring_size + 2) ==> call_requires(
            blocknet_ringct_key_image,
            (signature, ring_size, out),
        ),
        signature@.len() >= 32 * (2 * ring_size + 3) ==> call_requires(
            blocknet_ringct_pseudo_output,
            (signature, ring_size, out),
        ),
{
}

} // verus!
