//! CLSAG: linkable ring signatures.
//!
//! A signature is a first challenge `c_0`, one response for each ring member and
//! the signer's key image. Each member's key, response and challenge determine
//! the next member's challenge; the signature is good when the challenge that
//! follows the last member is `c_0` again.

use vstd::arithmetic::div_mod::{lemma_mod_bound, lemma_mod_equivalence, lemma_small_mod};
use vstd::prelude::*;

use crate::bytes::{
    block, bytes_equal, concat_blocks, le_bytes, le_nat, lemma_block_of_concat,
    lemma_concat_of_blocks, lemma_le_bytes_of_le_nat, read_block, write_blocks,
};
use crate::group::{
    base_multiple, discrete_log, is_point, lemma_order, lemma_point, order, point_base,
    point_decompress, point_double_mul, point_mul, point_mul_base, scalar_from_canonical,
    scalar_mul, scalar_sub, Draws, Point, Scalar,
};
use crate::hash::{
    challenge_hash, challenge_input, digest_scalar, hash_to_point, key_hash,
    lemma_challenge_input_message, same_digest, sha512_digest,
};
use crate::keys::{key_image_bytes, key_image_log, key_pair, law_key_pair, lemma_key_response_opens};
use crate::modular::{
    lemma_closing_response, lemma_nonce_commits, lemma_quotient, lemma_response_of_nonce, nonce_of,
    response,
};
use crate::ring::{
    are_points, are_scalars, around, drawn, logs_of, next_member, place, point_logs, points_wf,
    random_scalars, read_points, read_scalars, scalar_values, scalars_wf, values_from, values_of,
    RING_SIZE,
};

verus! {

/// What a signature says: the first challenge, the responses, and the discrete
/// logarithm of the key image.
pub struct ClsagModel {
    pub c0: nat,
    pub s: Seq<nat>,
    pub key_image: nat,
}

/// A parsed signature.
pub struct ClsagSignature {
    pub c0: Scalar,
    pub s: Vec<Scalar>,
    pub key_image: Point,
}

impl View for ClsagSignature {
    type V = ClsagModel;

    open spec fn view(&self) -> ClsagModel {
        ClsagModel { c0: self.c0@, s: values_of(self.s@), key_image: self.key_image@ }
    }
}

impl ClsagSignature {
    /// The scalars are reduced and the key image is a group element.
    pub open spec fn wf(self) -> bool {
        &&& self.c0.wf()
        &&& scalars_wf(self.s@)
        &&& self.key_image.wf()
    }
}

/// The challenge made from the commitments `l * G` and `r * G`.
pub open spec fn clsag_challenge(message: Seq<u8>, l: nat, r: nat) -> nat {
    digest_scalar(challenge_input(message, base_multiple(l)@, base_multiple(r)@))
}

/// The commitments of the member with key `p`, response `s` and challenge `c`:
/// `s * G + c * P` and `s * Hp(P) + c * I`.
pub open spec fn clsag_commitments(key_image: nat, p: nat, s: nat, c: nat) -> (nat, nat) {
    ((s + c * p) % order(), (s * key_hash(p) + c * key_image) % order())
}

/// The challenge that follows the member with key `p`, response `s` and
/// challenge `c`.
pub open spec fn clsag_next(message: Seq<u8>, key_image: nat, p: nat, s: nat, c: nat) -> nat {
    let (l, r) = clsag_commitments(key_image, p, s, c);
    clsag_challenge(message, l, r)
}

/// The challenge of member `i`, walking from the first member.
pub open spec fn clsag_walk(ring: Seq<nat>, message: Seq<u8>, sig: ClsagModel, i: nat) -> nat
    decreases i,
{
    if i == 0 {
        sig.c0
    } else {
        clsag_next(
            message,
            sig.key_image,
            ring[i - 1],
            sig.s[i - 1],
            clsag_walk(ring, message, sig, (i - 1) as nat),
        )
    }
}

/// The walk around the ring comes back to the challenge it started from.
pub open spec fn clsag_closes(ring: Seq<nat>, message: Seq<u8>, sig: ClsagModel) -> bool {
    clsag_walk(ring, message, sig, ring.len()) == sig.c0
}

/// The challenge of the member `k + 1` places after the signer `pi`, walking
/// from the signer, whose commitments are those of the nonce `alpha`.
pub open spec fn clsag_signer_walk(
    ring: Seq<nat>,
    message: Seq<u8>,
    pi: int,
    key_image: nat,
    alpha: nat,
    s: Seq<nat>,
    k: nat,
) -> nat
    decreases k,
{
    if k == 0 {
        clsag_challenge(message, alpha, (alpha * key_hash(ring[pi])) % order())
    } else {
        let i = around(pi, k as int, ring.len() as int);
        clsag_next(
            message,
            key_image,
            ring[i],
            s[i],
            clsag_signer_walk(ring, message, pi, key_image, alpha, s, (k - 1) as nat),
        )
    }
}

/// The signature of `message` by the member `pi`, whose private key is `x`, from
/// the nonce `alpha` and the other members' responses `s`.
pub open spec fn clsag_sign(
    ring: Seq<nat>,
    message: Seq<u8>,
    pi: int,
    x: nat,
    alpha: nat,
    s: Seq<nat>,
) -> ClsagModel {
    let n = ring.len();
    let key_image = key_image_log(x);
    let c_pi = clsag_signer_walk(ring, message, pi, key_image, alpha, s, (n - 1) as nat);
    ClsagModel {
        c0: clsag_signer_walk(ring, message, pi, key_image, alpha, s, (n - 1 - pi) as nat),
        s: s.update(pi, response(alpha, c_pi, x)),
        key_image,
    }
}

/// A signature made with the private key of a ring member closes the ring,
/// whichever member signs, and whatever the nonce and the other responses are.
pub proof fn law_clsag_signature_closes(
    ring: Seq<nat>,
    message: Seq<u8>,
    pi: int,
    x: nat,
    alpha: nat,
    s: Seq<nat>,
)
    requires
        0 <= pi < ring.len(),
        s.len() == ring.len(),
        ring[pi] == x,
        x < order(),
        alpha < order(),
    ensures
        clsag_closes(ring, message, clsag_sign(ring, message, pi, x, alpha, s)),
{
    lemma_walk_follows_signer(ring, message, pi, x, alpha, s, ring.len());
}

/// The verifier's walk meets the same challenges as the signer's.
pub proof fn lemma_walk_follows_signer(
    ring: Seq<nat>,
    message: Seq<u8>,
    pi: int,
    x: nat,
    alpha: nat,
    s: Seq<nat>,
    i: nat,
)
    requires
        0 <= pi < ring.len(),
        s.len() == ring.len(),
        ring[pi] == x,
        x < order(),
        alpha < order(),
        i <= ring.len(),
    ensures
        clsag_walk(ring, message, clsag_sign(ring, message, pi, x, alpha, s), i)
            == clsag_signer_walk(
            ring,
            message,
            pi,
            key_image_log(x),
            alpha,
            s,
            place(pi, i as int, ring.len() as int),
        ),
    decreases i,
{
    if i > 0 {
        lemma_walk_follows_signer(ring, message, pi, x, alpha, s, (i - 1) as nat);
        if i - 1 == pi {
            let c = clsag_signer_walk(
                ring,
                message,
                pi,
                key_image_log(x),
                alpha,
                s,
                (ring.len() - 1) as nat,
            );
            lemma_key_response_opens(x, alpha, c);
        }
    }
}

/// The 32-byte blocks of an encoded signature: the first challenge, the
/// responses, the key image.
pub open spec fn clsag_blocks(sig: ClsagModel) -> Seq<Seq<u8>> {
    Seq::new(
        sig.s.len() + 2,
        |i: int|
            if i == 0 {
                le_bytes(sig.c0, 32)
            } else if i <= sig.s.len() {
                le_bytes(sig.s[i - 1], 32)
            } else {
                base_multiple(sig.key_image)@
            },
    )
}

/// The bytes of a signature.
pub open spec fn clsag_encode(sig: ClsagModel) -> Seq<u8> {
    concat_blocks(clsag_blocks(sig))
}

/// `b` is a signature over a ring of `n`: it has the right length, its scalars
/// are canonical and its key image is a group element.
pub open spec fn clsag_is_encoded(b: Seq<u8>, n: nat) -> bool {
    &&& b.len() == 32 * (n + 2)
    &&& le_nat(block(b, 0)) < order()
    &&& are_scalars(b, 1, n)
    &&& is_point(block(b, n as int + 1))
}

/// The signature that `b` encodes.
pub open spec fn clsag_decode(b: Seq<u8>, n: nat) -> ClsagModel {
    ClsagModel {
        c0: le_nat(block(b, 0)),
        s: scalar_values(b, 1, n),
        key_image: discrete_log(block(b, n as int + 1)),
    }
}

/// The signature bytes `sig` are good for the message and the ring of the `n`
/// keys in `ring_keys`.
pub open spec fn clsag_accepts(
    ring_keys: Seq<u8>,
    n: nat,
    message: Seq<u8>,
    sig: Seq<u8>,
) -> bool {
    &&& are_points(ring_keys, n)
    &&& clsag_is_encoded(sig, n)
    &&& clsag_closes(point_logs(ring_keys, n), message, clsag_decode(sig, n))
}

/// Reading the bytes of a signature gives the signature back.
pub proof fn law_clsag_decode_encode(sig: ClsagSignature)
    requires
        sig.wf(),
    ensures
        clsag_is_encoded(clsag_encode(sig@), sig.s@.len()),
        clsag_decode(clsag_encode(sig@), sig.s@.len()) == sig@,
{
    let n = sig.s@.len();
    let blocks = clsag_blocks(sig@);
    let b = clsag_encode(sig@);
    assert(b + Seq::empty() =~= b);
    lemma_le_bytes_of_le_nat(sig.c0.bytes@);
    lemma_block_of_concat(blocks, Seq::empty(), 0);
    lemma_point(sig.key_image.bytes@);
    lemma_block_of_concat(blocks, Seq::empty(), n as int + 1);
    assert forall|i: int| 0 <= i < n implies #[trigger] block(b, i + 1) == sig.s@[i].bytes@ by {
        lemma_le_bytes_of_le_nat(sig.s@[i].bytes@);
        lemma_block_of_concat(blocks, Seq::empty(), i + 1);
    }
    assert forall|i: int| 1 <= i < 1 + n implies le_nat(#[trigger] block(b, i)) < order() by {
        assert(block(b, (i - 1) + 1) == sig.s@[i - 1].bytes@);
        assert(sig.s@[i - 1].wf());
    }
    assert forall|i: int| 0 <= i < n implies #[trigger] scalar_values(b, 1, n)[i]
        == sig.s@[i]@ by {
        assert(block(b, i + 1) == sig.s@[i].bytes@);
    }
    assert(scalar_values(b, 1, n) =~= sig@.s);
}

/// Writing what was read from the bytes of a signature gives the bytes back:
/// a signature has one encoding.
pub proof fn law_clsag_encode_decode(b: Seq<u8>, n: nat)
    requires
        clsag_is_encoded(b, n),
    ensures
        clsag_encode(clsag_decode(b, n)) == b,
{
    let blocks = Seq::new(n + 2, |i: int| block(b, i));
    let sig = clsag_decode(b, n);
    assert forall|i: int| 0 <= i < n + 2 implies #[trigger] clsag_blocks(sig)[i] == blocks[i] by {
        lemma_le_bytes_of_le_nat(block(b, i));
        lemma_point(block(b, n as int + 1));
    }
    assert(clsag_blocks(sig) =~= blocks);
    lemma_concat_of_blocks(b, n + 2);
}

/// What the challenge that closes the ring is the digest of.
pub open spec fn clsag_last_input(ring: Seq<nat>, message: Seq<u8>, sig: ClsagModel) -> Seq<u8> {
    let i = ring.len() - 1;
    let (l, r) = clsag_commitments(
        sig.key_image,
        ring[i],
        sig.s[i],
        clsag_walk(ring, message, sig, i as nat),
    );
    challenge_input(message, base_multiple(l)@, base_multiple(r)@)
}

/// A signature is bound to its message: one that is good for two messages shows
/// two different byte strings with the same digest.
pub proof fn law_clsag_binds_message(
    ring: Seq<nat>,
    message: Seq<u8>,
    other: Seq<u8>,
    sig: ClsagModel,
)
    requires
        ring.len() > 0,
        message != other,
        clsag_closes(ring, message, sig),
        clsag_closes(ring, other, sig),
    ensures
        same_digest(clsag_last_input(ring, message, sig), clsag_last_input(ring, other, sig)),
        le_nat(sha512_digest(clsag_last_input(ring, message, sig))@) % order() == sig.c0,
{
    let i = ring.len() - 1;
    let c = clsag_walk(ring, message, sig, i as nat);
    let d = clsag_walk(ring, other, sig, i as nat);
    lemma_order();
    if clsag_last_input(ring, message, sig) == clsag_last_input(ring, other, sig) {
        lemma_challenge_input_message(
            message,
            base_multiple((sig.s[i] + c * ring[i]) % order())@,
            base_multiple((sig.s[i] * key_hash(ring[i]) + c * sig.key_image) % order())@,
            other,
            base_multiple((sig.s[i] + d * ring[i]) % order())@,
            base_multiple((sig.s[i] * key_hash(ring[i]) + d * sig.key_image) % order())@,
        );
    }
}

/// Commitments of a member that are answered under two challenges give the
/// private key away, as the quotient of the responses' difference by that of the
/// challenges, and the key image is then that of the private key.
pub proof fn law_clsag_two_answers(
    key_image: nat,
    x: nat,
    s: nat,
    c: nat,
    t: nat,
    d: nat,
)
    requires
        key_image < order(),
        x < order(),
        c < order(),
        d < order(),
        c != d,
        clsag_commitments(key_image, x, s, c) == clsag_commitments(key_image, x, t, d),
    ensures
        ((d - c) * x) % (order() as int) == (s - t) % (order() as int),
        key_image == key_image_log(x),
{
    let m = order() as int;
    lemma_order();
    lemma_mod_equivalence((s + c * x) as int, (t + d * x) as int, m);
    assert((s + c * x) - (t + d * x) == (s - t) - (d - c) * x) by (nonlinear_arith);
    lemma_mod_equivalence(s - t, (d - c) * x, m);
    lemma_quotient(s, t, c, d, x, key_hash(x), key_image);
    lemma_small_mod(key_image, order());
}

/// Signatures are linkable: the key image in a signature depends on the private
/// key alone, not on the ring, the place in it, the message or the nonces, and
/// is the key image of that private key.
pub proof fn law_clsag_linkable(
    x: nat,
    ring_a: Seq<nat>,
    message_a: Seq<u8>,
    pi_a: int,
    alpha_a: nat,
    s_a: Seq<nat>,
    ring_b: Seq<nat>,
    message_b: Seq<u8>,
    pi_b: int,
    alpha_b: nat,
    s_b: Seq<nat>,
)
    requires
        0 <= pi_a < ring_a.len(),
        s_a.len() == ring_a.len(),
        0 <= pi_b < ring_b.len(),
        s_b.len() == ring_b.len(),
    ensures
        block(
            clsag_encode(clsag_sign(ring_a, message_a, pi_a, x, alpha_a, s_a)),
            ring_a.len() as int + 1,
        ) == key_image_bytes(x)@,
        block(
            clsag_encode(clsag_sign(ring_a, message_a, pi_a, x, alpha_a, s_a)),
            ring_a.len() as int + 1,
        ) == block(
            clsag_encode(clsag_sign(ring_b, message_b, pi_b, x, alpha_b, s_b)),
            ring_b.len() as int + 1,
        ),
{
    let a = clsag_sign(ring_a, message_a, pi_a, x, alpha_a, s_a);
    let b = clsag_sign(ring_b, message_b, pi_b, x, alpha_b, s_b);
    lemma_key_image_block(a);
    lemma_key_image_block(b);
    assert(a.key_image == key_image_log(x) && a.s.len() == ring_a.len());
    assert(b.key_image == key_image_log(x) && b.s.len() == ring_b.len());
}

/// The last block of an encoded signature is the key image.
proof fn lemma_key_image_block(sig: ClsagModel)
    ensures
        block(clsag_encode(sig), sig.s.len() as int + 1) == base_multiple(sig.key_image)@,
{
    lemma_block_of_concat(clsag_blocks(sig), Seq::empty(), sig.s.len() as int + 1);
    assert(clsag_encode(sig) + Seq::empty() =~= clsag_encode(sig));
}

/// A good signature does not tell the signer's response from the others: with
/// the key image of a member's private key, it is the signature that the member
/// makes from some nonce and the very responses it holds.
pub proof fn law_clsag_signable(
    ring: Seq<nat>,
    message: Seq<u8>,
    pi: int,
    x: nat,
    sig: ClsagModel,
)
    requires
        0 <= pi < ring.len(),
        sig.s.len() == ring.len(),
        sig.s[pi] < order(),
        ring[pi] == x,
        sig.key_image == key_image_log(x),
        clsag_closes(ring, message, sig),
    ensures
        ({
            let alpha = nonce_of(sig.s[pi], clsag_walk(ring, message, sig, pi as nat), x);
            &&& alpha < order()
            &&& clsag_sign(ring, message, pi, x, alpha, sig.s) == sig
        }),
{
    let n = ring.len();
    let c = clsag_walk(ring, message, sig, pi as nat);
    let alpha = nonce_of(sig.s[pi], c, x);
    lemma_order();
    lemma_mod_bound((sig.s[pi] + c * x) as int, order() as int);
    lemma_nonce_commits(sig.s[pi], c, x, key_hash(x));
    lemma_signer_follows_walk(ring, message, pi, x, sig, (n - 1) as nat);
    lemma_signer_follows_walk(ring, message, pi, x, sig, (n - 1 - pi) as nat);
    lemma_response_of_nonce(sig.s[pi], c, x);
    assert(sig.s.update(pi, sig.s[pi]) =~= sig.s);
}

/// The signer's walk meets the same challenges as the verifier's.
proof fn lemma_signer_follows_walk(
    ring: Seq<nat>,
    message: Seq<u8>,
    pi: int,
    x: nat,
    sig: ClsagModel,
    k: nat,
)
    requires
        0 <= pi < ring.len(),
        sig.s.len() == ring.len(),
        ring[pi] == x,
        sig.key_image == key_image_log(x),
        clsag_closes(ring, message, sig),
        k < ring.len(),
    ensures
        clsag_signer_walk(
            ring,
            message,
            pi,
            sig.key_image,
            nonce_of(sig.s[pi], clsag_walk(ring, message, sig, pi as nat), x),
            sig.s,
            k,
        ) == clsag_walk(ring, message, sig, around(pi, k as int + 1, ring.len() as int) as nat),
    decreases k,
{
    if k == 0 {
        let c = clsag_walk(ring, message, sig, pi as nat);
        lemma_nonce_commits(sig.s[pi], c, x, key_hash(x));
        assert(clsag_walk(ring, message, sig, (pi + 1) as nat) == clsag_next(
            message,
            sig.key_image,
            x,
            sig.s[pi],
            c,
        ));
    } else {
        lemma_signer_follows_walk(ring, message, pi, x, sig, (k - 1) as nat);
        let i = around(pi, k as int, ring.len() as int);
        let c = clsag_walk(ring, message, sig, i as nat);
        assert(clsag_walk(ring, message, sig, (i + 1) as nat) == clsag_next(
            message,
            sig.key_image,
            ring[i],
            sig.s[i],
            c,
        ));
    }
}

/// The challenge that follows one ring member.
pub fn clsag_member(
    message: &[u8],
    key_image: &Point,
    p: &Point,
    s: &Scalar,
    c: &Scalar,
) -> (r: Scalar)
    requires
        key_image.wf(),
        p.wf(),
        s.wf(),
        c.wf(),
    ensures
        r.wf(),
        r@ == clsag_next(message@, key_image@, p@, s@, c@),
{
    let hp: Point = hash_to_point(p.bytes.as_slice());
    let l: Point = point_double_mul(s, &point_base(), c, p);
    let r: Point = point_double_mul(s, &hp, c, key_image);
    proof {
        lemma_point(p.bytes@);
        lemma_point(l.bytes@);
        lemma_point(r.bytes@);
        assert(s@ * 1 == s@);
    }
    challenge_hash(message, &l, &r)
}

/// Makes a signature from a nonce and the other members' responses. The response
/// at the signer's place is ignored.
pub fn clsag_sign_with(
    ring: &Vec<Point>,
    secret_index: usize,
    x: &Scalar,
    message: &[u8],
    alpha: &Scalar,
    responses: Vec<Scalar>,
) -> (sig: ClsagSignature)
    requires
        points_wf(ring@),
        secret_index < ring@.len(),
        responses@.len() == ring@.len(),
        scalars_wf(responses@),
        x.wf(),
        alpha.wf(),
        ring@[secret_index as int]@ == x@,
    ensures
        sig.wf(),
        sig.s@.len() == ring@.len(),
        sig@ == clsag_sign(
            logs_of(ring@),
            message@,
            secret_index as int,
            x@,
            alpha@,
            values_of(responses@),
        ),
{
    let n: usize = ring.len();
    let ghost logs = logs_of(ring@);
    let ghost pi = secret_index as int;
    let ghost values = values_of(responses@);
    let mut s: Vec<Scalar> = responses;

    let hp: Point = hash_to_point(ring[secret_index].bytes.as_slice());
    let key_image: Point = point_mul(x, &hp);
    let l: Point = point_mul_base(alpha);
    let r: Point = point_mul(alpha, &hp);
    proof {
        lemma_point(ring@[pi].bytes@);
        lemma_point(r.bytes@);
    }

    let zero: Scalar = Scalar { bytes: [0u8; 32] };
    let mut c: Vec<Scalar> = Vec::new();
    for i in 0..n
        invariant
            c@.len() == i,
    {
        c.push(zero);
    }
    let mut i: usize = next_member(secret_index, n);
    c[i] = challenge_hash(message, &l, &r);

    for k in 0..n - 1
        invariant
            n == ring@.len() == s@.len() == c@.len(),
            0 <= pi < n,
            i == around(pi, k + 1, n as int),
            points_wf(ring@),
            scalars_wf(s@),
            key_image.wf(),
            key_image@ == key_image_log(x@),
            logs == logs_of(ring@),
            values == values_of(s@),
            forall|j: int|
                0 <= j <= k ==> {
                    let m = #[trigger] around(pi, j + 1, n as int);
                    &&& c@[m].wf()
                    &&& c@[m]@ == clsag_signer_walk(
                        logs,
                        message@,
                        pi,
                        key_image@,
                        alpha@,
                        values,
                        j as nat,
                    )
                },
    {
        assert(around(pi, k + 1, n as int) == i);
        let after: Scalar = clsag_member(message, &key_image, &ring[i], &s[i], &c[i]);
        i = next_member(i, n);
        c[i] = after;
        assert(i == around(pi, k + 2, n as int));
    }

    assert(around(pi, (n - 1) + 1, n as int) == pi);
    assert(around(pi, (n - 1 - pi) + 1, n as int) == 0);
    let closing: Scalar = scalar_sub(alpha, &scalar_mul(&c[secret_index], x));
    proof {
        lemma_closing_response(alpha@, c@[pi]@, x@);
    }
    s[secret_index] = closing;
    assert(values_of(s@) =~= values.update(pi, closing@));
    ClsagSignature { c0: c[0], s, key_image }
}

/// Whether a signature closes the ring.
pub fn clsag_verify(ring: &Vec<Point>, message: &[u8], sig: &ClsagSignature) -> (r: bool)
    requires
        points_wf(ring@),
        sig.wf(),
        sig.s@.len() == ring@.len(),
    ensures
        r == clsag_closes(logs_of(ring@), message@, sig@),
{
    let n: usize = ring.len();
    let mut c: Scalar = sig.c0;
    for i in 0..n
        invariant
            n == ring@.len() == sig.s@.len(),
            points_wf(ring@),
            sig.wf(),
            c.wf(),
            c@ == clsag_walk(logs_of(ring@), message@, sig@, i as nat),
    {
        c = clsag_member(message, &sig.key_image, &ring[i], &sig.s[i], &c);
    }
    proof {
        lemma_le_bytes_of_le_nat(c.bytes@);
        lemma_le_bytes_of_le_nat(sig.c0.bytes@);
    }
    bytes_equal(&c.bytes, &sig.c0.bytes)
}

impl ClsagSignature {
    /// Reads a signature over a ring of `n`, or nothing if a scalar is not
    /// canonical or the key image is not a group element.
    pub fn parse(b: &[u8], n: usize) -> (r: Option<ClsagSignature>)
        requires
            b@.len() == 32 * (n + 2),
        ensures
            r is Some <==> clsag_is_encoded(b@, n as nat),
            r matches Some(sig) ==> {
                &&& sig.wf()
                &&& sig.s@.len() == n
                &&& sig@ == clsag_decode(b@, n as nat)
            },
    {
        assert(b@.len() == b.len());
        let c0: Scalar = match scalar_from_canonical(&read_block(b, 0)) {
            Some(c0) => c0,
            None => return None,
        };
        let s: Vec<Scalar> = match read_scalars(b, 1, n) {
            Some(s) => s,
            None => return None,
        };
        let key_image: Point = match point_decompress(&read_block(b, n + 1)) {
            Some(key_image) => key_image,
            None => return None,
        };
        Some(ClsagSignature { c0, s, key_image })
    }

    /// The blocks of the encoded signature.
    pub fn to_blocks(&self) -> (r: Vec<[u8; 32]>)
        requires
            self.wf(),
        ensures
            r@.len() == self.s@.len() + 2,
            r@.map_values(|x: [u8; 32]| x@) == clsag_blocks(self@),
    {
        let n: usize = self.s.len();
        let mut r: Vec<[u8; 32]> = Vec::new();
        r.push(self.c0.bytes);
        for i in 0..n
            invariant
                n == self.s@.len(),
                r@.len() == i + 1,
                r@[0] == self.c0.bytes,
                forall|j: int| 0 <= j < i ==> #[trigger] r@[j + 1] == self.s@[j].bytes,
        {
            r.push(self.s[i].bytes);
        }
        r.push(self.key_image.bytes);
        proof {
            lemma_point(self.key_image.bytes@);
            lemma_le_bytes_of_le_nat(self.c0.bytes@);
            assert forall|i: int| 0 <= i < n + 2 implies #[trigger] r@[i]@ == clsag_blocks(
                self@,
            )[i] by {
                if 1 <= i <= n {
                    assert(r@[(i - 1) + 1] == self.s@[i - 1].bytes);
                    lemma_le_bytes_of_le_nat(self.s@[i - 1].bytes@);
                }
            }
            assert(r@.map_values(|x: [u8; 32]| x@) =~= clsag_blocks(self@));
        }
        r
    }
}

/// What signing returns: -2 for a wrong ring size or signer's index, -1 for a
/// private key that is not canonical or a ring key that is not a group element,
/// -3 when the private key is not that of the ring member, and 0 otherwise.
pub open spec fn clsag_sign_status(
    ring_keys: Seq<u8>,
    ring_size: nat,
    secret_index: nat,
    private_key: Seq<u8>,
) -> int {
    if ring_size != RING_SIZE || secret_index >= ring_size {
        -2
    } else if le_nat(private_key) >= order() || !are_points(ring_keys, ring_size) {
        -1
    } else if block(ring_keys, secret_index as int) != base_multiple(le_nat(private_key))@ {
        -3
    } else {
        0
    }
}

/// A key pair can sign in every ring that its public key stands in.
pub proof fn law_key_pair_signs(ring_keys: Seq<u8>, secret_index: nat, x: nat)
    requires
        x < order(),
        secret_index < RING_SIZE,
        are_points(ring_keys, RING_SIZE as nat),
        block(ring_keys, secret_index as int) == block(key_pair(x), 1),
    ensures
        clsag_sign_status(ring_keys, RING_SIZE as nat, secret_index, block(key_pair(x), 0)) == 0,
{
    law_key_pair(x);
}

/// What verifying returns: -2 for a wrong ring size or signature length, 0 for a
/// good signature, and -1 otherwise.
pub open spec fn clsag_verify_status(
    ring_keys: Seq<u8>,
    ring_size: nat,
    message: Seq<u8>,
    signature: Seq<u8>,
) -> int {
    if ring_size != RING_SIZE || signature.len() != 32 * (ring_size + 2) {
        -2
    } else if clsag_accepts(ring_keys, ring_size, message, signature) {
        0
    } else {
        -1
    }
}

/// Reads the signer's key and ring, or says why there is nothing to sign with.
pub fn clsag_signer(
    ring_keys: &[u8],
    ring_size: usize,
    secret_index: usize,
    private_key: &[u8; 32],
) -> (r: Result<(Scalar, Vec<Point>), i32>)
    requires
        ring_size == RING_SIZE && secret_index < ring_size ==> ring_keys@.len() >= 32 * ring_size,
    ensures
        match r {
            Ok((x, ring)) => {
                &&& clsag_sign_status(
                    ring_keys@,
                    ring_size as nat,
                    secret_index as nat,
                    private_key@,
                ) == 0
                &&& x.wf()
                &&& x.bytes == *private_key
                &&& points_wf(ring@)
                &&& ring@.len() == ring_size
                &&& logs_of(ring@) == point_logs(ring_keys@, ring_size as nat)
                &&& ring@[secret_index as int]@ == x@
            },
            Err(e) => {
                &&& e != 0
                &&& e == clsag_sign_status(
                    ring_keys@,
                    ring_size as nat,
                    secret_index as nat,
                    private_key@,
                )
            },
        },
{
    if ring_size != RING_SIZE || secret_index >= ring_size {
        return Err(-2);
    }
    let x: Scalar = match scalar_from_canonical(private_key) {
        Some(x) => x,
        None => return Err(-1),
    };
    let ring: Vec<Point> = match read_points(ring_keys, ring_size) {
        Some(ring) => ring,
        None => return Err(-1),
    };
    let public: Point = point_mul_base(&x);
    if !bytes_equal(&ring[secret_index].bytes, &public.bytes) {
        return Err(-3);
    }
    Ok((x, ring))
}

/// Signs a message as member `secret_index` of a ring.
///
/// `ring_keys` holds the public keys of the ring, 32 bytes each, and
/// `private_key` the signer's. The signature, `c_0 || s_0 .. s_{n-1} ||
/// key_image`, goes to the front of `signature_out` and its length to
/// `signature_len_out`. The nonce and each other member's response are draws of
/// their own, left to chance: draw 0 is the nonce, and draw `i + 1` the response of
/// member `i`. The signature is good whatever they are. Both outputs are untouched
/// when the result is not 0.
pub fn blocknet_clsag_sign(
    ring_keys: &[u8],
    ring_size: usize,
    secret_index: usize,
    private_key: &[u8; 32],
    message: &[u8],
    signature_out: &mut [u8],
    signature_len_out: &mut usize,
) -> (r: i32)
    requires
        ring_size == RING_SIZE && secret_index < ring_size ==> {
            &&& ring_keys@.len() >= 32 * ring_size
            &&& old(signature_out)@.len() >= 32 * (ring_size + 2)
        },
    ensures
        r == clsag_sign_status(ring_keys@, ring_size as nat, secret_index as nat, private_key@),
        r != 0 ==> {
            &&& final(signature_out)@ == old(signature_out)@
            &&& *final(signature_len_out) == *old(signature_len_out)
        },
        r == 0 ==> {
            let len = 32 * (ring_size + 2);
            &&& *final(signature_len_out) == len
            &&& discrete_log(block(ring_keys@, secret_index as int)) == le_nat(private_key@)
            &&& final(signature_out)@.len() == old(signature_out)@.len()
            &&& final(signature_out)@.skip(len) == old(signature_out)@.skip(len)
            &&& exists|draws: Draws|
                {
                    let sig = clsag_sign(
                        point_logs(ring_keys@, ring_size as nat),
                        message@,
                        secret_index as int,
                        le_nat(private_key@),
                        draws@[0]@,
                        values_from(draws@, 1, ring_size as nat),
                    );
                    &&& #[trigger] call_ensures(random_scalars, ((ring_size + 1) as usize,), draws)
                    &&& draws@.len() == ring_size + 1
                    &&& scalars_wf(draws@)
                    &&& final(signature_out)@.take(len) == clsag_encode(sig)
                    &&& clsag_decode(final(signature_out)@.take(len), ring_size as nat) == sig
                }
            &&& clsag_accepts(
                ring_keys@,
                ring_size as nat,
                message@,
                final(signature_out)@.take(len),
            )
            &&& block(final(signature_out)@, ring_size + 1) == key_image_bytes(
                le_nat(private_key@),
            )@
        },
{
    match clsag_signer(ring_keys, ring_size, secret_index, private_key) {
        Err(e) => e,
        Ok((x, ring)) => {
            let draws: Draws = random_scalars(ring_size + 1);
            let alpha: Scalar = draws.get(0);
            let responses: Vec<Scalar> = drawn(&draws, 1, ring_size);
            let ghost s = values_from(draws@, 1, ring_size as nat);
            assert(values_of(responses@) =~= s);
            assert(scalars_wf(responses@));
            let sig: ClsagSignature = clsag_sign_with(
                &ring,
                secret_index,
                &x,
                message,
                &alpha,
                responses,
            );
            let blocks: Vec<[u8; 32]> = sig.to_blocks();
            write_blocks(signature_out, &blocks);
            let len: usize = 32 + ring_size * 32 + 32;
            *signature_len_out = len;
            proof {
                law_clsag_signature_closes(
                    logs_of(ring@),
                    message@,
                    secret_index as int,
                    x@,
                    alpha@,
                    s,
                );
                law_clsag_decode_encode(sig);
                assert(logs_of(ring@)[secret_index as int] == x@);
                assert(signature_out@.take(len as int) =~= clsag_encode(sig@));
                assert(signature_out@.skip(len as int) =~= old(signature_out)@.skip(len as int));
                lemma_block_of_concat(
                    clsag_blocks(sig@),
                    signature_out@.skip(len as int),
                    ring_size + 1,
                );
                assert(signature_out@ =~= clsag_encode(sig@) + signature_out@.skip(len as int));
            }
            0
        },
    }
}

/// Verifies a signature over a ring of public keys, 32 bytes each.
pub fn blocknet_clsag_verify(
    ring_keys: &[u8],
    ring_size: usize,
    message: &[u8],
    signature: &[u8],
) -> (r: i32)
    requires
        ring_size == RING_SIZE && signature@.len() == 32 * (ring_size + 2) ==> ring_keys@.len()
            >= 32 * ring_size,
    ensures
        r == clsag_verify_status(ring_keys@, ring_size as nat, message@, signature@),
{
    if ring_size != RING_SIZE || signature.len() != 32 + ring_size * 32 + 32 {
        return -2;
    }
    let ring: Vec<Point> = match read_points(ring_keys, ring_size) {
        Some(ring) => ring,
        None => return -1,
    };
    let sig: ClsagSignature = match ClsagSignature::parse(signature, ring_size) {
        Some(sig) => sig,
        None => return -1,
    };
    if clsag_verify(&ring, message, &sig) {
        0
    } else {
        -1
    }
}

/// Copies the key image out of a signature over a ring of `ring_size`.
pub fn blocknet_clsag_key_image(
    signature: &[u8],
    ring_size: usize,
    key_image_out: &mut [u8; 32],
) -> (r: i32)
    requires
        signature@.len() >= 32 * (ring_size + 2),
    ensures
        r == 0,
        final(key_image_out)@ == block(signature@, ring_size + 1),
{
    assert(signature@.len() == signature.len());
    *key_image_out = read_block(signature, ring_size + 1);
    0
}

} // verus!
