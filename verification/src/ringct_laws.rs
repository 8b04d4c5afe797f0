//! What holds of RingCT signatures as a whole.

use vstd::arithmetic::div_mod::{lemma_mod_bound, lemma_mod_equivalence, lemma_small_mod};
use vstd::prelude::*;
use vstd::string::StringSliceAdditionalSpecFns;

use crate::bytes::{block, le_nat, lemma_block_of_concat};
use crate::clsag::law_clsag_two_answers;
use crate::group::{base_multiple, blinding_log, is_point, lemma_order, order};
use crate::hash::{
    key_hash, law_ringct_challenge_input_binds, lemma_ringct_challenge_input_message,
    ringct_challenge_input, same_digest, sha512_digest,
};
use crate::keys::{key_image_bytes, key_image_log, key_pair, law_key_pair};
use crate::modular::{
    lemma_nonce_commits, lemma_quotient, lemma_response_of_nonce, lemma_response_opens, nonce_of,
    response,
};
use crate::prime::{lemma_order_is_prime, lemma_product_zero};
use crate::ring::around;
use crate::ringct::{
    commitment, commitments_at, difference, encode_one, law_linked_iff_same_amount,
    lemma_walk_follows_signer, linked, member_commitments, nonce_commitments, reduced_difference,
    ringct_blocks, ringct_challenge, ringct_closes, ringct_commitments, ringct_encode, ringct_sign,
    ringct_sign_status, ringct_signer_walk, ringct_walk, signer_challenge, RingctModel,
    RingctNonces, RingctRing,
};

verus! {

/// The last two blocks of an encoded signature are the key image and the
/// pseudo-output.
proof fn lemma_last_blocks(sig: RingctModel)
    ensures
        block(ringct_encode(sig), 2 * sig.s.len() + 1int) == base_multiple(sig.key_image)@,
        block(ringct_encode(sig), 2 * sig.s.len() + 2int) == base_multiple(sig.pseudo_output)@,
{
    let n = sig.s.len();
    lemma_block_of_concat(ringct_blocks(sig), Seq::empty(), 2 * n + 1int);
    lemma_block_of_concat(ringct_blocks(sig), Seq::empty(), 2 * n + 2int);
    assert(ringct_encode(sig) + Seq::empty() =~= ringct_encode(sig));
}

/// Signatures are linkable: the key image in a signature depends on the private
/// key alone, not on the ring, the place in it, the message, the commitments or
/// the nonces, and is the key image of that private key.
pub proof fn law_ringct_linkable(
    x: nat,
    ring_a: RingctRing,
    message_a: Seq<u8>,
    pi_a: int,
    z_a: nat,
    pseudo_output_a: nat,
    nonces_a: RingctNonces,
    ring_b: RingctRing,
    message_b: Seq<u8>,
    pi_b: int,
    z_b: nat,
    pseudo_output_b: nat,
    nonces_b: RingctNonces,
)
    requires
        0 <= pi_a < ring_a.keys.len(),
        nonces_a.wf(ring_a.keys.len()),
        0 <= pi_b < ring_b.keys.len(),
        nonces_b.wf(ring_b.keys.len()),
    ensures
        block(
            ringct_encode(
                ringct_sign(ring_a, message_a, pi_a, x, z_a, pseudo_output_a, nonces_a),
            ),
            2 * ring_a.keys.len() + 1int,
        ) == key_image_bytes(x)@,
        block(
            ringct_encode(
                ringct_sign(ring_a, message_a, pi_a, x, z_a, pseudo_output_a, nonces_a),
            ),
            2 * ring_a.keys.len() + 1int,
        ) == block(
            ringct_encode(
                ringct_sign(ring_b, message_b, pi_b, x, z_b, pseudo_output_b, nonces_b),
            ),
            2 * ring_b.keys.len() + 1int,
        ),
{
    let a = ringct_sign(ring_a, message_a, pi_a, x, z_a, pseudo_output_a, nonces_a);
    let b = ringct_sign(ring_b, message_b, pi_b, x, z_b, pseudo_output_b, nonces_b);
    lemma_last_blocks(a);
    lemma_last_blocks(b);
    assert(a.key_image == key_image_log(x) && a.s.len() == ring_a.keys.len());
    assert(b.key_image == key_image_log(x) && b.s.len() == ring_b.keys.len());
}

/// A signature carries the pseudo-output it was made for.
pub proof fn law_ringct_carries_pseudo_output(
    ring: RingctRing,
    message: Seq<u8>,
    pi: int,
    x: nat,
    z: nat,
    pseudo_output: nat,
    nonces: RingctNonces,
)
    requires
        0 <= pi < ring.keys.len(),
        nonces.wf(ring.keys.len()),
    ensures
        block(
            ringct_encode(ringct_sign(ring, message, pi, x, z, pseudo_output, nonces)),
            2 * ring.keys.len() + 2int,
        ) == base_multiple(pseudo_output)@,
{
    let sig = ringct_sign(ring, message, pi, x, z, pseudo_output, nonces);
    lemma_last_blocks(sig);
    assert(sig.s.len() == ring.keys.len());
}

/// What the challenge that closes the ring is the digest of.
pub open spec fn ringct_last_input(ring: RingctRing, message: Seq<u8>, sig: RingctModel) -> Seq<
    u8,
> {
    let i = ring.keys.len() - 1;
    let lrd = ringct_commitments(ring, sig, i, ringct_walk(ring, message, sig, i as nat));
    ringct_challenge_input(
        message,
        base_multiple(lrd.0)@,
        base_multiple(lrd.1)@,
        base_multiple(lrd.2)@,
    )
}

/// A signature is bound to its message: one that is good for two messages shows
/// two different byte strings with the same digest.
pub proof fn law_ringct_binds_message(
    ring: RingctRing,
    message: Seq<u8>,
    other: Seq<u8>,
    sig: RingctModel,
)
    requires
        ring.keys.len() > 0,
        message != other,
        ringct_closes(ring, message, sig),
        ringct_closes(ring, other, sig),
    ensures
        same_digest(
            ringct_last_input(ring, message, sig),
            ringct_last_input(ring, other, sig),
        ),
        le_nat(sha512_digest(ringct_last_input(ring, message, sig))@) % order() == sig.c0,
{
    let i = ring.keys.len() - 1;
    let a = ringct_commitments(ring, sig, i, ringct_walk(ring, message, sig, i as nat));
    let b = ringct_commitments(ring, sig, i, ringct_walk(ring, other, sig, i as nat));
    lemma_order();
    if ringct_last_input(ring, message, sig) == ringct_last_input(ring, other, sig) {
        lemma_ringct_challenge_input_message(
            message,
            base_multiple(a.0)@,
            base_multiple(a.1)@,
            base_multiple(a.2)@,
            other,
            base_multiple(b.0)@,
            base_multiple(b.1)@,
            base_multiple(b.2)@,
        );
    }
}

/// The signer's commitments at member `i`.
pub open spec fn signer_commitments(
    ring: RingctRing,
    message: Seq<u8>,
    pi: int,
    x: nat,
    pseudo_output: nat,
    nonces: RingctNonces,
    i: int,
) -> (nat, nat, nat) {
    if i == pi {
        nonce_commitments(x, nonces.alpha, nonces.alpha_z)
    } else {
        member_commitments(
            key_image_log(x),
            ring.keys[i],
            difference(pseudo_output, ring.commitments[i]),
            nonces.s[i],
            nonces.t[i],
            signer_challenge(ring, message, pi, x, pseudo_output, nonces, i),
        )
    }
}

/// At member `i`, signer and verifier make the same challenge from different
/// commitments.
pub open spec fn challenges_collide(
    ring: RingctRing,
    message: Seq<u8>,
    pi: int,
    x: nat,
    z: nat,
    pseudo_output: nat,
    nonces: RingctNonces,
    i: int,
) -> bool {
    let sig = ringct_sign(ring, message, pi, x, z, pseudo_output, nonces);
    let ours = signer_commitments(ring, message, pi, x, pseudo_output, nonces, i);
    let theirs = ringct_commitments(ring, sig, i, ringct_walk(ring, message, sig, i as nat));
    ours != theirs && ringct_challenge(message, ours) == ringct_challenge(message, theirs)
}

/// The tag, the message and the encodings of three commitments.
pub open spec fn challenge_bytes(message: Seq<u8>, lrd: (nat, nat, nat)) -> Seq<u8> {
    "blocknet_ringct_c".spec_bytes() + message + base_multiple(lrd.0)@ + base_multiple(lrd.1)@
        + base_multiple(lrd.2)@
}

/// Where challenges collide at member `i`, two different byte strings, each the
/// tag, the message and three commitments, have the same digest.
pub open spec fn collision_shows(
    ring: RingctRing,
    message: Seq<u8>,
    pi: int,
    x: nat,
    z: nat,
    pseudo_output: nat,
    nonces: RingctNonces,
    i: int,
) -> bool {
    let sig = ringct_sign(ring, message, pi, x, z, pseudo_output, nonces);
    let ours = signer_commitments(ring, message, pi, x, pseudo_output, nonces, i);
    let theirs = commitments_at(ring, message, sig, i);
    encode_one(theirs) ==> same_digest(
        challenge_bytes(message, ours),
        challenge_bytes(message, theirs),
    )
}

proof fn lemma_collision_shows(
    ring: RingctRing,
    message: Seq<u8>,
    pi: int,
    x: nat,
    z: nat,
    pseudo_output: nat,
    nonces: RingctNonces,
    i: int,
)
    requires
        nonces.wf(ring.keys.len()),
        challenges_collide(ring, message, pi, x, z, pseudo_output, nonces, i),
    ensures
        collision_shows(ring, message, pi, x, z, pseudo_output, nonces, i),
{
    let sig = ringct_sign(ring, message, pi, x, z, pseudo_output, nonces);
    let ours = signer_commitments(ring, message, pi, x, pseudo_output, nonces, i);
    let theirs = commitments_at(ring, message, sig, i);
    let m = order() as int;
    lemma_order();
    if encode_one(theirs) && challenge_bytes(message, ours) == challenge_bytes(message, theirs) {
        law_ringct_challenge_input_binds(
            message,
            base_multiple(ours.0)@,
            base_multiple(ours.1)@,
            base_multiple(ours.2)@,
            message,
            base_multiple(theirs.0)@,
            base_multiple(theirs.1)@,
            base_multiple(theirs.2)@,
        );
        if i == pi {
            lemma_mod_bound((nonces.alpha * key_hash(x)) as int, m);
            lemma_mod_bound((nonces.alpha_z * blinding_log()) as int, m);
        } else {
            let p = ring.keys[i];
            let c = signer_challenge(ring, message, pi, x, pseudo_output, nonces, i);
            let d = difference(pseudo_output, ring.commitments[i]);
            lemma_mod_bound((nonces.s[i] + c * p) as int, m);
            lemma_mod_bound((nonces.s[i] * key_hash(p) + c * key_image_log(x)) as int, m);
            lemma_mod_bound((nonces.t[i] * blinding_log() + c * d) as int, m);
        }
        assert(ours == theirs);
    }
}

/// The commitments of member `i` are the same for every challenge: its key, its
/// commitment difference and the key image are the identity.
pub open spec fn ignores_challenge(
    ring: RingctRing,
    key_image: nat,
    pseudo_output: nat,
    i: int,
) -> bool {
    &&& ring.keys[i] == 0
    &&& key_image == 0
    &&& difference(pseudo_output, ring.commitments[i]) == 0
}

/// A signature over a pseudo-output that is not linked to the signer's commitment
/// is no good: the ring closes only where two different lists of commitments, at
/// the signer or at a member after the signer, make the same challenge, so that
/// their bytes, behind the tag and the message, have the same digest.
///
/// Left out are a signer's challenge of zero, with which the commitments show
/// nothing of the amount, and a later member whose commitments ignore its
/// challenge.
pub proof fn law_ringct_unlinked(
    ring: RingctRing,
    message: Seq<u8>,
    pi: int,
    x: nat,
    z: nat,
    pseudo_output: nat,
    nonces: RingctNonces,
)
    requires
        ring.wf(),
        nonces.wf(ring.keys.len()),
        0 <= pi < ring.keys.len(),
        ring.keys[pi] == x,
        forall|i: int| 0 <= i < ring.keys.len() ==> #[trigger] ring.keys[i] < order(),
        forall|i: int|
            pi < i < ring.keys.len() ==> !#[trigger] ignores_challenge(
                ring,
                key_image_log(x),
                pseudo_output,
                i,
            ),
        signer_challenge(ring, message, pi, x, pseudo_output, nonces, pi) != 0,
        !linked(pseudo_output, ring.commitments[pi], z),
        ringct_closes(
            ring,
            message,
            ringct_sign(ring, message, pi, x, z, pseudo_output, nonces),
        ),
    ensures
        exists|i: int|
            {
                &&& pi <= i < ring.keys.len()
                &&& #[trigger] challenges_collide(
                    ring,
                    message,
                    pi,
                    x,
                    z,
                    pseudo_output,
                    nonces,
                    i,
                )
                &&& collision_shows(ring, message, pi, x, z, pseudo_output, nonces, i)
            },
{
    lemma_walks_part(ring, message, pi, x, z, pseudo_output, nonces, ring.keys.len());
    let i = choose|i: int|
        pi <= i < ring.keys.len() && #[trigger] challenges_collide(
            ring,
            message,
            pi,
            x,
            z,
            pseudo_output,
            nonces,
            i,
        );
    lemma_collision_shows(ring, message, pi, x, z, pseudo_output, nonces, i);
}

/// A signature over a pseudo-output that holds another amount than the signer's
/// commitment is no good, as `law_ringct_unlinked` says.
pub proof fn law_ringct_wrong_amount(
    ring: RingctRing,
    message: Seq<u8>,
    pi: int,
    x: nat,
    pseudo_amount: nat,
    pseudo_blinding: nat,
    input_amount: nat,
    input_blinding: nat,
    nonces: RingctNonces,
)
    requires
        ring.wf(),
        nonces.wf(ring.keys.len()),
        0 <= pi < ring.keys.len(),
        ring.keys[pi] == x,
        ring.commitments[pi] == commitment(input_amount, input_blinding),
        pseudo_amount % order() != input_amount % order(),
        forall|i: int| 0 <= i < ring.keys.len() ==> #[trigger] ring.keys[i] < order(),
        forall|i: int|
            pi < i < ring.keys.len() ==> !#[trigger] ignores_challenge(
                ring,
                key_image_log(x),
                commitment(pseudo_amount, pseudo_blinding),
                i,
            ),
        signer_challenge(
            ring,
            message,
            pi,
            x,
            commitment(pseudo_amount, pseudo_blinding),
            nonces,
            pi,
        ) != 0,
        ringct_closes(
            ring,
            message,
            ringct_sign(
                ring,
                message,
                pi,
                x,
                reduced_difference(pseudo_blinding, input_blinding),
                commitment(pseudo_amount, pseudo_blinding),
                nonces,
            ),
        ),
    ensures
        exists|i: int|
            {
                &&& pi <= i < ring.keys.len()
                &&& #[trigger] challenges_collide(
                    ring,
                    message,
                    pi,
                    x,
                    reduced_difference(pseudo_blinding, input_blinding),
                    commitment(pseudo_amount, pseudo_blinding),
                    nonces,
                    i,
                )
                &&& collision_shows(
                    ring,
                    message,
                    pi,
                    x,
                    reduced_difference(pseudo_blinding, input_blinding),
                    commitment(pseudo_amount, pseudo_blinding),
                    nonces,
                    i,
                )
            },
{
    law_linked_iff_same_amount(pseudo_amount, pseudo_blinding, input_amount, input_blinding);
    law_ringct_unlinked(
        ring,
        message,
        pi,
        x,
        reduced_difference(pseudo_blinding, input_blinding),
        commitment(pseudo_amount, pseudo_blinding),
        nonces,
    );
}

/// Past the signer the two walks stay apart until challenges collide.
proof fn lemma_walks_part(
    ring: RingctRing,
    message: Seq<u8>,
    pi: int,
    x: nat,
    z: nat,
    pseudo_output: nat,
    nonces: RingctNonces,
    i: nat,
)
    requires
        ring.wf(),
        nonces.wf(ring.keys.len()),
        0 <= pi < i <= ring.keys.len(),
        ring.keys[pi] == x,
        forall|i: int| 0 <= i < ring.keys.len() ==> #[trigger] ring.keys[i] < order(),
        forall|i: int|
            pi < i < ring.keys.len() ==> !#[trigger] ignores_challenge(
                ring,
                key_image_log(x),
                pseudo_output,
                i,
            ),
        signer_challenge(ring, message, pi, x, pseudo_output, nonces, pi) != 0,
        !linked(pseudo_output, ring.commitments[pi], z),
    ensures
        ringct_walk(
            ring,
            message,
            ringct_sign(ring, message, pi, x, z, pseudo_output, nonces),
            i,
        ) != signer_challenge(ring, message, pi, x, pseudo_output, nonces, i as int) || exists|
            j: int,
        |
            pi <= j < i && #[trigger] challenges_collide(
                ring,
                message,
                pi,
                x,
                z,
                pseudo_output,
                nonces,
                j,
            ),
    decreases i,
{
    let sig = ringct_sign(ring, message, pi, x, z, pseudo_output, nonces);
    let j = i - 1;
    let v = ringct_walk(ring, message, sig, j as nat);
    let c = signer_challenge(ring, message, pi, x, pseudo_output, nonces, j);
    let ours = signer_commitments(ring, message, pi, x, pseudo_output, nonces, j);
    let theirs = ringct_commitments(ring, sig, j, v);
    let d = difference(pseudo_output, ring.commitments[j]);
    lemma_order();
    if j == pi {
        lemma_walk_follows_signer(ring, message, pi, x, z, pseudo_output, nonces, pi as nat);
        assert(v == c);
        lemma_wrong_response_shows(nonces.alpha_z, c, z, blinding_log(), d);
        assert(ours != theirs);
    } else {
        lemma_walks_part(ring, message, pi, x, z, pseudo_output, nonces, j as nat);
        if v != c {
            let p = ring.keys[j];
            assert(!ignores_challenge(ring, key_image_log(x), pseudo_output, j));
            if p != 0 {
                lemma_challenge_shows(nonces.s[j], v, c, p);
            } else if d != 0 {
                lemma_challenge_shows(nonces.t[j] * blinding_log(), v, c, d);
            } else {
                lemma_challenge_shows(nonces.s[j] * key_hash(p), v, c, key_image_log(x));
            }
            assert(ours != theirs);
        }
    }
    if ringct_walk(ring, message, sig, i) == signer_challenge(
        ring,
        message,
        pi,
        x,
        pseudo_output,
        nonces,
        i as int,
    ) && ours != theirs {
        assert(challenges_collide(ring, message, pi, x, z, pseudo_output, nonces, j));
    }
}

/// A response made with the wrong secret `z` does not open the commitment of its
/// nonce.
proof fn lemma_wrong_response_shows(nonce: nat, c: nat, z: nat, g: nat, d: nat)
    requires
        0 < c < order(),
        d < order(),
        d != (z * g) % order(),
    ensures
        (response(nonce, c, z) * g + c * d) % order() != (nonce * g) % order(),
{
    let m = order() as int;
    let e = (z * g) % order();
    let a = response(nonce, c, z) * g;
    lemma_order();
    lemma_response_opens(nonce, c, z, g);
    if (a + c * d) % order() == (nonce * g) % order() {
        lemma_mod_equivalence((a + c * d) as int, (a + c * e) as int, m);
        assert((a + c * d) - (a + c * e) == c * (d - e)) by (nonlinear_arith);
        lemma_order_is_prime();
        lemma_product_zero(order(), c as int, d - e);
        lemma_small_mod(c, order());
        lemma_mod_equivalence(d as int, e as int, m);
        lemma_mod_bound((z * g) as int, m);
        lemma_small_mod(d, order());
        lemma_small_mod(e, order());
    }
}

/// Different challenges show in a commitment, for a base that is not zero.
proof fn lemma_challenge_shows(a: nat, v: nat, c: nat, g: nat)
    requires
        v < order(),
        c < order(),
        v != c,
        0 < g < order(),
    ensures
        (a + v * g) % order() != (a + c * g) % order(),
{
    let m = order() as int;
    lemma_order();
    if (a + v * g) % order() == (a + c * g) % order() {
        lemma_mod_equivalence((a + v * g) as int, (a + c * g) as int, m);
        assert((a + v * g) - (a + c * g) == (v - c) * g) by (nonlinear_arith);
        lemma_order_is_prime();
        lemma_product_zero(order(), v - c, g as int);
        lemma_small_mod(g, order());
        lemma_mod_equivalence(v as int, c as int, m);
        lemma_small_mod(v, order());
        lemma_small_mod(c, order());
    }
}

/// Commitments of a member that are answered under two challenges give the
/// private key and the blinding difference away, as the quotients of the
/// responses' differences by that of the challenges: the key image is that of the
/// private key, and the pseudo-output holds the amount of the member's
/// commitment.
pub proof fn law_ringct_two_answers(
    key_image: nat,
    x: nat,
    pseudo_output: nat,
    input: nat,
    s: nat,
    t: nat,
    c: nat,
    other_s: nat,
    other_t: nat,
    other_c: nat,
    z: nat,
)
    requires
        key_image < order(),
        x < order(),
        c < order(),
        other_c < order(),
        c != other_c,
        member_commitments(key_image, x, difference(pseudo_output, input), s, t, c)
            == member_commitments(
            key_image,
            x,
            difference(pseudo_output, input),
            other_s,
            other_t,
            other_c,
        ),
        ((other_c - c) * z) % (order() as int) == (t - other_t) % (order() as int),
    ensures
        ((other_c - c) * x) % (order() as int) == (s - other_s) % (order() as int),
        key_image == key_image_log(x),
        linked(pseudo_output, input, z),
{
    let d = difference(pseudo_output, input);
    let m = order() as int;
    lemma_order();
    lemma_mod_bound(pseudo_output - input, m);
    lemma_quotient(t, other_t, c, other_c, z, blinding_log(), d);
    lemma_small_mod(d, order());
    law_clsag_two_answers(key_image, x, s, c, other_s, other_c);
}

/// The nonces from which the member `pi`, with private key `x` and blinding
/// difference `z`, makes the signature `sig`.
pub open spec fn nonces_of(
    ring: RingctRing,
    message: Seq<u8>,
    pi: int,
    x: nat,
    z: nat,
    sig: RingctModel,
) -> RingctNonces {
    let c = ringct_walk(ring, message, sig, pi as nat);
    RingctNonces {
        alpha: nonce_of(sig.s[pi], c, x),
        alpha_z: nonce_of(sig.t[pi], c, z),
        s: sig.s,
        t: sig.t,
    }
}

/// A good signature does not tell the signer's responses from the others: with
/// the key image of a member's private key, and a pseudo-output linked to the
/// member's commitment, it is the signature that the member makes from some
/// nonces and the very responses it holds.
pub proof fn law_ringct_signable(
    ring: RingctRing,
    message: Seq<u8>,
    pi: int,
    x: nat,
    z: nat,
    sig: RingctModel,
)
    requires
        ring.wf(),
        0 <= pi < ring.keys.len(),
        sig.s.len() == ring.keys.len(),
        sig.t.len() == ring.keys.len(),
        sig.s[pi] < order(),
        sig.t[pi] < order(),
        ring.keys[pi] == x,
        sig.key_image == key_image_log(x),
        linked(sig.pseudo_output, ring.commitments[pi], z),
        ringct_closes(ring, message, sig),
    ensures
        ({
            let nonces = nonces_of(ring, message, pi, x, z, sig);
            &&& nonces.alpha < order()
            &&& nonces.alpha_z < order()
            &&& ringct_sign(ring, message, pi, x, z, sig.pseudo_output, nonces) == sig
        }),
{
    let n = ring.keys.len();
    let c = ringct_walk(ring, message, sig, pi as nat);
    lemma_order();
    lemma_mod_bound((sig.s[pi] + c * x) as int, order() as int);
    lemma_mod_bound((sig.t[pi] + c * z) as int, order() as int);
    lemma_signer_follows_walk(ring, message, pi, x, z, sig, (n - 1) as nat);
    lemma_signer_follows_walk(ring, message, pi, x, z, sig, (n - 1 - pi) as nat);
    lemma_response_of_nonce(sig.s[pi], c, x);
    lemma_response_of_nonce(sig.t[pi], c, z);
    assert(sig.s.update(pi, sig.s[pi]) =~= sig.s);
    assert(sig.t.update(pi, sig.t[pi]) =~= sig.t);
}

/// The signer's walk meets the same challenges as the verifier's.
proof fn lemma_signer_follows_walk(
    ring: RingctRing,
    message: Seq<u8>,
    pi: int,
    x: nat,
    z: nat,
    sig: RingctModel,
    k: nat,
)
    requires
        ring.wf(),
        0 <= pi < ring.keys.len(),
        sig.s.len() == ring.keys.len(),
        sig.t.len() == ring.keys.len(),
        ring.keys[pi] == x,
        sig.key_image == key_image_log(x),
        linked(sig.pseudo_output, ring.commitments[pi], z),
        ringct_closes(ring, message, sig),
        k < ring.keys.len(),
    ensures
        ringct_signer_walk(
            ring,
            message,
            pi,
            sig.key_image,
            sig.pseudo_output,
            nonces_of(ring, message, pi, x, z, sig),
            k,
        ) == ringct_walk(
            ring,
            message,
            sig,
            around(pi, k as int + 1, ring.keys.len() as int) as nat,
        ),
    decreases k,
{
    let i = around(pi, k as int, ring.keys.len() as int);
    let c = ringct_walk(ring, message, sig, i as nat);
    assert(ringct_walk(ring, message, sig, (i + 1) as nat) == ringct_challenge(
        message,
        ringct_commitments(ring, sig, i, c),
    ));
    if k == 0 {
        lemma_nonce_commits(sig.s[pi], c, x, key_hash(x));
        lemma_nonce_commits(sig.t[pi], c, z, blinding_log());
    } else {
        lemma_signer_follows_walk(ring, message, pi, x, z, sig, (k - 1) as nat);
    }
}

/// A key pair can sign at every place of every ring that its public key stands in,
/// with every valid pseudo-output.
pub proof fn law_ringct_key_pair_signs(
    ring_keys: Seq<u8>,
    ring_commitments: Seq<u8>,
    secret_index: nat,
    x: nat,
    pseudo_output: Seq<u8>,
)
    requires
        x < order(),
        secret_index < 16,
        forall|i: int| 0 <= i < 16 ==> is_point(#[trigger] block(ring_keys, i)),
        forall|i: int| 0 <= i < 16 ==> is_point(#[trigger] block(ring_commitments, i)),
        is_point(pseudo_output),
        block(ring_keys, secret_index as int) == base_multiple(x)@,
    ensures
        ringct_sign_status(
            ring_keys,
            ring_commitments,
            16,
            secret_index,
            key_pair(x).subrange(0, 32),
            pseudo_output,
        ) == 0,
{
    law_key_pair(x);
}

} // verus!
