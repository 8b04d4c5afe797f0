//! What holds of the calls of the CLSAG functions.
//!
//! Each law speaks of what the functions return and write, over the SHA-512 digest
//! and the encodings of group elements.

use vstd::prelude::*;
use vstd::string::StringSliceAdditionalSpecFns;

use crate::bytes::{block, le_nat, lemma_le_bytes_of_le_nat};
use crate::clsag::{
    blocknet_clsag_key_image, blocknet_clsag_sign, blocknet_clsag_verify, clsag_accepts,
    clsag_closes, clsag_decode, clsag_encode, clsag_next, clsag_sign, clsag_walk,
    lemma_walk_follows_signer, ClsagModel,
};
use crate::group::{
    base_multiple, discrete_log, is_point, lemma_order, lemma_point, order, uniform_point, Draws,
    Scalar,
};
use crate::hash::{law_challenge_input_binds, same_digest, sha512_digest};
use crate::keys::{blocknet_key_image, lemma_key_response_opens};
use crate::ring::{point_logs, random_scalars, scalars_wf, values_from};

verus! {

/// The challenge that follows the member with the 32-byte public key `key`, the
/// response `s` and the challenge `c`: the digest of the tag, the message and the
/// encodings of `s * G + c * P` and `s * Hp(P) + c * I`, modulo the group order.
pub open spec fn challenge_after(
    message: Seq<u8>,
    key_image: nat,
    key: Seq<u8>,
    s: nat,
    c: nat,
) -> nat {
    let p = discrete_log(key);
    let input = "blocknet_hash_to_point".spec_bytes() + key;
    let hashed = discrete_log(uniform_point(sha512_digest(input)@)@);
    let l = base_multiple((s + c * p) % order())@;
    let r = base_multiple((s * hashed + c * key_image) % order())@;
    le_nat(sha512_digest("blocknet_clsag_c".spec_bytes() + message + l + r)@) % order()
}

/// The challenges `c` lead around the ring of the `n` keys in `ring_keys`, from
/// the first challenge of the signature bytes `sig` back to it.
pub open spec fn leads_around(
    ring_keys: Seq<u8>,
    n: nat,
    message: Seq<u8>,
    sig: Seq<u8>,
    c: Seq<nat>,
) -> bool {
    &&& c.len() == n + 1
    &&& c[0] == le_nat(sig.subrange(0, 32))
    &&& c[n as int] == le_nat(sig.subrange(0, 32))
    &&& forall|i: int|
        0 <= i < n ==> c[i + 1] == #[trigger] challenge_after(
            message,
            discrete_log(sig.subrange(32 * (n + 1int), 32 * (n + 2int))),
            ring_keys.subrange(32 * i, 32 * (i + 1)),
            le_nat(sig.subrange(32 * (i + 1), 32 * (i + 2))),
            c[i],
        )
}

/// One step of the walk is the challenge that follows the member.
proof fn lemma_step(message: Seq<u8>, key_image: nat, key: Seq<u8>, s: nat, c: nat)
    requires
        is_point(key),
    ensures
        clsag_next(message, key_image, discrete_log(key), s, c) == challenge_after(
            message,
            key_image,
            key,
            s,
            c,
        ),
{
    lemma_point(key);
}

/// The challenges of the walk, from the first member on.
spec fn walk_of(ring: Seq<nat>, message: Seq<u8>, sig: ClsagModel) -> Seq<nat> {
    Seq::new(ring.len() + 1, |i: int| clsag_walk(ring, message, sig, i as nat))
}

proof fn lemma_walk_leads_around(ring_keys: Seq<u8>, n: nat, message: Seq<u8>, sig: Seq<u8>)
    requires
        clsag_accepts(ring_keys, n, message, sig),
    ensures
        leads_around(
            ring_keys,
            n,
            message,
            sig,
            walk_of(point_logs(ring_keys, n), message, clsag_decode(sig, n)),
        ),
{
    let ring = point_logs(ring_keys, n);
    let model = clsag_decode(sig, n);
    let c = walk_of(ring, message, model);
    assert forall|i: int| 0 <= i < n implies c[i + 1] == #[trigger] challenge_after(
        message,
        discrete_log(sig.subrange(32 * (n + 1int), 32 * (n + 2int))),
        ring_keys.subrange(32 * i, 32 * (i + 1)),
        le_nat(sig.subrange(32 * (i + 1), 32 * (i + 2))),
        c[i],
    ) by {
        let j = (i + 1) as nat;
        assert(is_point(block(ring_keys, i)));
        assert(clsag_walk(ring, message, model, j) == clsag_next(
            message,
            model.key_image,
            ring[i],
            model.s[i],
            clsag_walk(ring, message, model, i as nat),
        ));
        lemma_step(message, model.key_image, block(ring_keys, i), model.s[i], c[i]);
    }
}

proof fn lemma_walk_is_unique(
    ring_keys: Seq<u8>,
    n: nat,
    message: Seq<u8>,
    sig: Seq<u8>,
    c: Seq<nat>,
    i: nat,
)
    requires
        forall|j: int| 0 <= j < n ==> is_point(#[trigger] block(ring_keys, j)),
        leads_around(ring_keys, n, message, sig, c),
        i <= n,
    ensures
        clsag_walk(point_logs(ring_keys, n), message, clsag_decode(sig, n), i) == c[i as int],
    decreases i,
{
    if i > 0 {
        let k = i - 1;
        let model = clsag_decode(sig, n);
        lemma_walk_is_unique(ring_keys, n, message, sig, c, k as nat);
        assert(is_point(block(ring_keys, k)));
        assert(c[k + 1] == challenge_after(
            message,
            discrete_log(sig.subrange(32 * (n + 1int), 32 * (n + 2int))),
            ring_keys.subrange(32 * k, 32 * (k + 1)),
            le_nat(sig.subrange(32 * (k + 1), 32 * (k + 2))),
            c[k],
        ));
        lemma_step(message, model.key_image, block(ring_keys, k), model.s[k], c[k]);
    }
}

/// Verifying tells good signatures from all others: the result is -2 exactly for a
/// wrong ring size or length, and 0 exactly when the keys and the key image are
/// group elements, the scalars are reduced, and challenges lead around the ring,
/// whatever the message.
pub proof fn law_clsag_verify(
    ring_keys: &[u8],
    ring_size: usize,
    message: &[u8],
    signature: &[u8],
    r: i32,
)
    requires
        call_ensures(blocknet_clsag_verify, (ring_keys, ring_size, message, signature), r),
    ensures
        r == 0 || r == -1 || r == -2,
        r == -2 <==> ring_size != 16 || signature@.len() != 576,
        r == 0 <==> {
            &&& ring_size == 16
            &&& signature@.len() == 576
            &&& forall|i: int|
                0 <= i < 16 ==> is_point(#[trigger] ring_keys@.subrange(32 * i, 32 * i + 32))
            &&& forall|i: int|
                0 <= i < 17 ==> le_nat(#[trigger] signature@.subrange(32 * i, 32 * i + 32))
                    < order()
            &&& is_point(signature@.subrange(544, 576))
            &&& exists|c: Seq<nat>|
                #[trigger] leads_around(ring_keys@, 16, message@, signature@, c)
        },
{
    let n = 16nat;
    let k = ring_keys@;
    let m = message@;
    let b = signature@;
    if ring_size == 16 && b.len() == 576 {
        if r == 0 {
            assert(clsag_accepts(k, n, m, b));
            lemma_walk_leads_around(k, n, m, b);
            assert forall|i: int| 0 <= i < 16 implies is_point(
                #[trigger] k.subrange(32 * i, 32 * i + 32),
            ) by {
                assert(is_point(block(k, i)));
            }
            assert forall|i: int| 0 <= i < 17 implies le_nat(
                #[trigger] b.subrange(32 * i, 32 * i + 32),
            ) < order() by {
                assert(le_nat(block(b, i)) < order());
            }
        }
        if (forall|i: int| 0 <= i < 16 ==> is_point(#[trigger] k.subrange(32 * i, 32 * i + 32)))
            && (forall|i: int|
            0 <= i < 17 ==> le_nat(#[trigger] b.subrange(32 * i, 32 * i + 32)) < order())
            && is_point(b.subrange(544, 576)) && (exists|c: Seq<nat>|
            #[trigger] leads_around(k, 16, m, b, c)) {
            let c = choose|c: Seq<nat>| #[trigger] leads_around(k, 16, m, b, c);
            assert forall|j: int| 0 <= j < n implies is_point(#[trigger] block(k, j)) by {
                assert(is_point(k.subrange(32 * j, 32 * j + 32)));
            }
            assert forall|j: int| 0 <= j < 17 implies le_nat(#[trigger] block(b, j))
                < order() by {
                assert(le_nat(b.subrange(32 * j, 32 * j + 32)) < order());
            }
            lemma_walk_is_unique(k, n, m, b, c, n);
            assert(clsag_closes(point_logs(k, n), m, clsag_decode(b, n)));
            assert(clsag_accepts(k, n, m, b));
        }
    }
}

proof fn lemma_led_step(
    ring_keys: Seq<u8>,
    n: nat,
    message: Seq<u8>,
    sig: Seq<u8>,
    c: Seq<nat>,
    i: int,
)
    requires
        leads_around(ring_keys, n, message, sig, c),
        0 <= i < n,
    ensures
        c[i + 1] == challenge_after(
            message,
            discrete_log(block(sig, n + 1int)),
            block(ring_keys, i),
            le_nat(block(sig, i + 1)),
            c[i],
        ),
{
    assert(c[i + 1] == challenge_after(
        message,
        discrete_log(sig.subrange(32 * (n + 1int), 32 * (n + 2int))),
        ring_keys.subrange(32 * i, 32 * (i + 1)),
        le_nat(sig.subrange(32 * (i + 1), 32 * (i + 2))),
        c[i],
    ));
}

/// A good signature is bound to its message, of any length: one that is good for
/// two messages shows two different byte strings with the same digest, each the
/// tag, the whole message and two commitments, and the digest is the signature's
/// first challenge.
pub proof fn law_clsag_verify_binds_message(
    ring_keys: &[u8],
    message: &[u8],
    other: &[u8],
    signature: &[u8],
)
    requires
        call_ensures(blocknet_clsag_verify, (ring_keys, 16usize, message, signature), 0i32),
        call_ensures(blocknet_clsag_verify, (ring_keys, 16usize, other, signature), 0i32),
        message@ != other@,
    ensures
        exists|l: Seq<u8>, r: Seq<u8>, other_l: Seq<u8>, other_r: Seq<u8>|
            {
                let a = "blocknet_clsag_c".spec_bytes() + message@ + l + r;
                &&& l.len() == 32 && r.len() == 32
                &&& other_l.len() == 32 && other_r.len() == 32
                &&& le_nat(sha512_digest(a)@) % order() == le_nat(signature@.subrange(0, 32))
                &&& #[trigger] same_digest(
                    "blocknet_clsag_c".spec_bytes() + message@ + l + r,
                    "blocknet_clsag_c".spec_bytes() + other@ + other_l + other_r,
                )
            },
{
    let k = ring_keys@;
    let b = signature@;
    law_clsag_verify(ring_keys, 16, message, signature, 0);
    law_clsag_verify(ring_keys, 16, other, signature, 0);
    let c = choose|c: Seq<nat>| #[trigger] leads_around(k, 16, message@, b, c);
    let d = choose|d: Seq<nat>| #[trigger] leads_around(k, 16, other@, b, d);
    let key = block(k, 15);
    let s = le_nat(block(b, 16));
    let image = discrete_log(block(b, 17));
    let p = discrete_log(key);
    let input = "blocknet_hash_to_point".spec_bytes() + key;
    let hashed = discrete_log(uniform_point(sha512_digest(input)@)@);
    let l = base_multiple((s + c[15] * p) % order())@;
    let r = base_multiple((s * hashed + c[15] * image) % order())@;
    let other_l = base_multiple((s + d[15] * p) % order())@;
    let other_r = base_multiple((s * hashed + d[15] * image) % order())@;
    lemma_order();
    lemma_led_step(k, 16, message@, b, c, 15);
    lemma_led_step(k, 16, other@, b, d, 15);
    let x = "blocknet_clsag_c".spec_bytes() + message@ + l + r;
    let y = "blocknet_clsag_c".spec_bytes() + other@ + other_l + other_r;
    if x == y {
        law_challenge_input_binds(message@, l, r, other@, other_l, other_r);
    }
    assert(same_digest(x, y));
}

/// Signing succeeds at every place of a ring of 16 valid keys, for the private key
/// of the member there, and for it only. The result is -2 exactly for a wrong ring
/// size or place, and -3 exactly where everything is in order but for the key. What
/// is refused leaves both outputs as they were; a signature takes 576 bytes, and
/// the bytes after it stay.
pub proof fn law_clsag_sign_status(
    ring_keys: &[u8],
    ring_size: usize,
    secret_index: usize,
    private_key: [u8; 32],
    message: &[u8],
    signature_out: &mut [u8],
    signature_len_out: &mut usize,
    r: i32,
)
    requires
        call_ensures(
            blocknet_clsag_sign,
            (
                ring_keys,
                ring_size,
                secret_index,
                &private_key,
                message,
                signature_out,
                signature_len_out,
            ),
            r,
        ),
    ensures
        r == 0 || r == -1 || r == -2 || r == -3,
        r == -2 <==> ring_size != 16 || secret_index >= 16,
        r == 0 || r == -3 <==> {
            &&& ring_size == 16
            &&& secret_index < 16
            &&& le_nat(private_key@) < order()
            &&& forall|i: int|
                0 <= i < 16 ==> is_point(#[trigger] ring_keys@.subrange(32 * i, 32 * i + 32))
        },
        r == 0 ==> ring_keys@.subrange(32 * secret_index, 32 * secret_index + 32)
            == base_multiple(le_nat(private_key@))@,
        r == -3 ==> ring_keys@.subrange(32 * secret_index, 32 * secret_index + 32)
            != base_multiple(le_nat(private_key@))@,
        r != 0 ==> {
            &&& final(signature_out)@ == old(signature_out)@
            &&& *final(signature_len_out) == *old(signature_len_out)
        },
        r == 0 ==> {
            &&& *final(signature_len_out) == 576
            &&& final(signature_out)@.len() == old(signature_out)@.len()
            &&& final(signature_out)@.skip(576) == old(signature_out)@.skip(576)
        },
{
    let k = ring_keys@;
    if ring_size == 16 {
        if r == 0 || r == -3 {
            assert forall|i: int| 0 <= i < 16 implies is_point(
                #[trigger] k.subrange(32 * i, 32 * i + 32),
            ) by {
                assert(is_point(block(k, i)));
            }
        }
        if forall|i: int| 0 <= i < 16 ==> is_point(#[trigger] k.subrange(32 * i, 32 * i + 32)) {
            assert forall|j: int| 0 <= j < 16 implies is_point(#[trigger] block(k, j)) by {
                assert(is_point(k.subrange(32 * j, 32 * j + 32)));
            }
        }
    }
}

/// What is signed verifies: the bytes that signing wrote are good for the ring and
/// the message.
pub proof fn law_clsag_signed_verifies(
    ring_keys: &[u8],
    ring_size: usize,
    secret_index: usize,
    private_key: [u8; 32],
    message: &[u8],
    signature_out: &mut [u8],
    signature_len_out: &mut usize,
    signature: &[u8],
    r: i32,
)
    requires
        call_ensures(
            blocknet_clsag_sign,
            (
                ring_keys,
                ring_size,
                secret_index,
                &private_key,
                message,
                signature_out,
                signature_len_out,
            ),
            0i32,
        ),
        signature@ == final(signature_out)@.take(*final(signature_len_out) as int),
        call_ensures(blocknet_clsag_verify, (ring_keys, ring_size, message, signature), r),
    ensures
        r == 0,
{
}

/// Signatures are linkable: two signatures with one private key hold one key
/// image, whatever the rings, the places in them and the messages, and it is the
/// key image of the private key.
pub proof fn law_clsag_signed_links(
    private_key: [u8; 32],
    ring_keys: &[u8],
    secret_index: usize,
    message: &[u8],
    signature_out: &mut [u8],
    signature_len_out: &mut usize,
    other_keys: &[u8],
    other_index: usize,
    other: &[u8],
    other_out: &mut [u8],
    other_len_out: &mut usize,
    signature: &[u8],
    image: &mut [u8; 32],
    extracted: i32,
    key_image: &mut [u8; 32],
    r: i32,
)
    requires
        call_ensures(
            blocknet_clsag_sign,
            (
                ring_keys,
                16usize,
                secret_index,
                &private_key,
                message,
                signature_out,
                signature_len_out,
            ),
            0i32,
        ),
        call_ensures(
            blocknet_clsag_sign,
            (
                other_keys,
                16usize,
                other_index,
                &private_key,
                other,
                other_out,
                other_len_out,
            ),
            0i32,
        ),
        old(signature_out)@.len() >= 576,
        signature@ == final(signature_out)@.take(576),
        call_ensures(blocknet_clsag_key_image, (signature, 16usize, image), extracted),
        call_ensures(blocknet_key_image, (&private_key, key_image), r),
    ensures
        final(signature_out)@.subrange(544, 576) == final(other_out)@.subrange(544, 576),
        final(signature_out)@.subrange(544, 576) == final(image)@,
        final(signature_out)@.subrange(544, 576) == final(key_image)@,
        extracted == 0,
        r == 0,
{
    assert(block(signature@, 17) =~= block(final(signature_out)@, 17));
}

/// The key image of a signature over `ring_size` members is the 32 bytes behind
/// the first challenge and the responses, for every ring size.
pub proof fn law_clsag_key_image(
    signature: &[u8],
    ring_size: usize,
    key_image_out: &mut [u8; 32],
    r: i32,
)
    requires
        call_ensures(blocknet_clsag_key_image, (signature, ring_size, key_image_out), r),
    ensures
        r == 0,
        final(key_image_out)@ == signature@.subrange(32 * (ring_size + 1), 32 * (ring_size + 2)),
{
}

/// Nothing but the signer's own response depends on who signs: the nonce and the
/// response of each other member are draws of their own. Draw 0 is the nonce that
/// the signer's response opens, and draw `i + 1` the response of member `i`.
pub proof fn law_clsag_signed_draws(
    ring_keys: &[u8],
    secret_index: usize,
    private_key: [u8; 32],
    message: &[u8],
    signature_out: &mut [u8],
    signature_len_out: &mut usize,
)
    requires
        call_ensures(
            blocknet_clsag_sign,
            (
                ring_keys,
                16usize,
                secret_index,
                &private_key,
                message,
                signature_out,
                signature_len_out,
            ),
            0i32,
        ),
        old(signature_out)@.len() >= 576,
    ensures
        exists|draws: Draws|
            {
                let b = final(signature_out)@;
                let pi = secret_index as int;
                &&& #[trigger] call_ensures(random_scalars, (17usize,), draws)
                &&& draws@.len() == 17
                &&& forall|i: int|
                    0 <= i < 16 && i != pi ==> #[trigger] draws@[i + 1].bytes@ == b.subrange(
                        32 * (i + 1),
                        32 * (i + 2),
                    )
                &&& forall|c: Seq<nat>| #[trigger]
                    leads_around(ring_keys@, 16, message@, b.take(576), c) ==> draws@[0]@ == (
                    le_nat(b.subrange(32 * (pi + 1), 32 * (pi + 2))) + c[pi] * le_nat(
                        private_key@,
                    )) % order()
            },
{
    let n = 16nat;
    let k = ring_keys@;
    let b = final(signature_out)@;
    let t = b.take(576);
    let pi = secret_index as int;
    let x = le_nat(private_key@);
    let draws = choose|draws: Draws|
        {
            let sig = clsag_sign(
                point_logs(k, n),
                message@,
                pi,
                x,
                draws@[0]@,
                values_from(draws@, 1, n),
            );
            &&& #[trigger] call_ensures(random_scalars, (17usize,), draws)
            &&& draws@.len() == 17
            &&& scalars_wf(draws@)
            &&& t == clsag_encode(sig)
            &&& clsag_decode(t, n) == sig
        };
    assert(draws@[0].wf());
    lemma_signed_draws(k, message@, pi, x, b, draws@);
}

proof fn lemma_signed_draws(
    k: Seq<u8>,
    message: Seq<u8>,
    pi: int,
    x: nat,
    b: Seq<u8>,
    draws: Seq<Scalar>,
)
    requires
        b.len() >= 576,
        is_drawn(k, 16, message, pi, x, b.take(576), draws),
        forall|j: int| 0 <= j < 16 ==> is_point(#[trigger] block(k, j)),
        discrete_log(block(k, pi)) == x,
        x < order(),
        draws[0]@ < order(),
    ensures
        forall|i: int|
            0 <= i < 16 && i != pi ==> #[trigger] draws[i + 1].bytes@ == b.subrange(
                32 * (i + 1),
                32 * (i + 2),
            ),
        forall|c: Seq<nat>| #[trigger]
            leads_around(k, 16, message, b.take(576), c) ==> draws[0]@ == (le_nat(
                b.subrange(32 * (pi + 1), 32 * (pi + 2)),
            ) + c[pi] * x) % order(),
{
    let t = b.take(576);
    assert forall|i: int| 0 <= i < 16 && i != pi implies #[trigger] draws[i + 1].bytes@
        == b.subrange(32 * (i + 1), 32 * (i + 2)) by {
        lemma_response_is_drawn(k, 16, message, pi, x, t, draws, i);
        assert(block(t, i + 1) =~= b.subrange(32 * (i + 1), 32 * (i + 2)));
    }
    assert forall|c: Seq<nat>| #[trigger] leads_around(k, 16, message, t, c) implies draws[0]@
        == (le_nat(b.subrange(32 * (pi + 1), 32 * (pi + 2))) + c[pi] * x) % order() by {
        lemma_nonce_is_drawn(k, 16, message, pi, x, t, draws, c);
        assert(block(t, pi + 1) =~= b.subrange(32 * (pi + 1), 32 * (pi + 2)));
    }
}

/// The bytes `t` are a signature from the draws.
spec fn is_drawn(
    ring_keys: Seq<u8>,
    n: nat,
    message: Seq<u8>,
    pi: int,
    x: nat,
    t: Seq<u8>,
    draws: Seq<Scalar>,
) -> bool {
    &&& draws.len() == n + 1
    &&& 0 <= pi < n
    &&& t.len() == 32 * (n + 2)
    &&& clsag_decode(t, n) == clsag_sign(
        point_logs(ring_keys, n),
        message,
        pi,
        x,
        draws[0]@,
        values_from(draws, 1, n),
    )
}

proof fn lemma_response_is_drawn(
    ring_keys: Seq<u8>,
    n: nat,
    message: Seq<u8>,
    pi: int,
    x: nat,
    t: Seq<u8>,
    draws: Seq<Scalar>,
    i: int,
)
    requires
        is_drawn(ring_keys, n, message, pi, x, t, draws),
        0 <= i < n,
        i != pi,
    ensures
        draws[i + 1].bytes@ == block(t, i + 1),
{
    assert(clsag_decode(t, n).s[i] == values_from(draws, 1, n)[i]);
    assert(le_nat(block(t, 1 + i)) == draws[1 + i]@);
    lemma_le_bytes_of_le_nat(draws[i + 1].bytes@);
    lemma_le_bytes_of_le_nat(block(t, i + 1));
}

proof fn lemma_nonce_is_drawn(
    ring_keys: Seq<u8>,
    n: nat,
    message: Seq<u8>,
    pi: int,
    x: nat,
    t: Seq<u8>,
    draws: Seq<Scalar>,
    c: Seq<nat>,
)
    requires
        is_drawn(ring_keys, n, message, pi, x, t, draws),
        forall|j: int| 0 <= j < n ==> is_point(#[trigger] block(ring_keys, j)),
        discrete_log(block(ring_keys, pi)) == x,
        x < order(),
        draws[0]@ < order(),
        leads_around(ring_keys, n, message, t, c),
    ensures
        (le_nat(block(t, pi + 1)) + c[pi] * x) % order() == draws[0]@,
{
    let s = values_from(draws, 1, n);
    lemma_walk_is_unique(ring_keys, n, message, t, c, pi as nat);
    lemma_walk_follows_signer(
        point_logs(ring_keys, n),
        message,
        pi,
        x,
        draws[0]@,
        s,
        pi as nat,
    );
    lemma_key_response_opens(x, draws[0]@, c[pi]);
    assert(clsag_decode(t, n).s[pi] == le_nat(block(t, 1 + pi)));
}

/// Every call is allowed whose buffers have the lengths that the ring size asks
/// for, whatever they hold and whatever the message is.
pub proof fn law_clsag_calls_are_allowed(
    ring_keys: &[u8],
    ring_size: usize,
    secret_index: usize,
    private_key: [u8; 32],
    message: &[u8],
    signature: &[u8],
    signature_out: &mut [u8],
    signature_len_out: &mut usize,
    key_image_out: &mut [u8; 32],
)
    requires
        ring_size == 16 ==> ring_keys@.len() >= 512 && old(signature_out)@.len() >= 576,
    ensures
        call_requires(
            blocknet_clsag_sign,
            (
                ring_keys,
                ring_size,
                secret_index,
                &private_key,
                message,
                signature_out,
                signature_len_out,
            ),
        ),
        call_requires(blocknet_clsag_verify, (ring_keys, ring_size, message, signature)),
        signature@.len() >= 32 * (ring_size + 2) ==> call_requires(
            blocknet_clsag_key_image,
            (signature, ring_size, key_image_out),
        ),
{
}

} // verus!
