//! RingCT: CLSAG signatures that also link a commitment.
//!
//! Beside its key, each ring member has a Pedersen commitment. The signature
//! shows that the difference between the signer's pseudo-output commitment and
//! the commitment of the member who signs is a multiple of the blinding
//! generator alone, so that both hold the same amount.

use vstd::arithmetic::div_mod::{lemma_mod_bound, lemma_mod_equivalence};
use vstd::prelude::*;

use crate::bytes::{
    block, bytes_equal, concat_blocks, le_bytes, le_nat, lemma_block_of_concat,
    lemma_concat_of_blocks, lemma_le_bytes_of_le_nat, read_block, write_blocks,
};
use crate::group::{
    base_multiple, blinding_generator, blinding_log, discrete_log, encodes_one, is_point,
    lemma_encodes_one, lemma_order, lemma_point, order, point_base, point_decompress,
    point_double_mul, point_mul, point_mul_base, point_sub, scalar_from_bytes_mod_order,
    scalar_from_canonical, scalar_mul, scalar_sub, Draws, Point, Scalar,
};
use crate::hash::{
    digest_scalar, hash_to_point, key_hash, ringct_challenge_hash, ringct_challenge_input,
};
use crate::keys::{key_image_bytes, key_image_log, lemma_key_response_opens};
use crate::modular::{
    lemma_closing_response, lemma_congruent, lemma_response_opens, lemma_split, response,
};
use crate::ring::{
    are_points, are_scalars, around, drawn, logs_of, next_member, place, point_logs, points_wf,
    random_scalars, read_points, read_scalars, scalar_values, scalars_wf, values_from, values_of,
    RING_SIZE,
};

verus! {

/// What a signature says. Points stand by their discrete logarithms.
pub struct RingctModel {
    pub c0: nat,
    pub s: Seq<nat>,
    pub t: Seq<nat>,
    pub key_image: nat,
    pub pseudo_output: nat,
}

/// The keys and the commitments of a ring, by their discrete logarithms.
pub struct RingctRing {
    pub keys: Seq<nat>,
    pub commitments: Seq<nat>,
}

/// The signer's nonces and the responses of the other members.
pub struct RingctNonces {
    pub alpha: nat,
    pub alpha_z: nat,
    pub s: Seq<nat>,
    pub t: Seq<nat>,
}

impl RingctRing {
    /// Each member has a key and a commitment.
    pub open spec fn wf(self) -> bool {
        self.keys.len() == self.commitments.len()
    }
}

impl RingctNonces {
    /// The scalars are reduced, and there are two responses for each of `n`
    /// members.
    pub open spec fn wf(self, n: nat) -> bool {
        &&& self.alpha < order()
        &&& self.alpha_z < order()
        &&& self.s.len() == n
        &&& self.t.len() == n
        &&& forall|i: int| 0 <= i < n ==> #[trigger] self.s[i] < order()
        &&& forall|i: int| 0 <= i < n ==> #[trigger] self.t[i] < order()
    }
}

/// A parsed signature.
pub struct RingctSignature {
    pub c0: Scalar,
    pub s: Vec<Scalar>,
    pub t: Vec<Scalar>,
    pub key_image: Point,
    pub pseudo_output: Point,
}

impl View for RingctSignature {
    type V = RingctModel;

    open spec fn view(&self) -> RingctModel {
        RingctModel {
            c0: self.c0@,
            s: values_of(self.s@),
            t: values_of(self.t@),
            key_image: self.key_image@,
            pseudo_output: self.pseudo_output@,
        }
    }
}

impl RingctSignature {
    /// The scalars are reduced, the points are group elements, and each member
    /// has two responses.
    pub open spec fn wf(self) -> bool {
        &&& self.c0.wf()
        &&& scalars_wf(self.s@)
        &&& scalars_wf(self.t@)
        &&& self.s@.len() == self.t@.len()
        &&& self.key_image.wf()
        &&& self.pseudo_output.wf()
    }
}

/// The Pedersen commitment to `amount` under the blinding factor `blinding`.
pub open spec fn commitment(amount: nat, blinding: nat) -> nat {
    (amount + blinding * blinding_log()) % order()
}

/// The difference between the pseudo-output and a member's commitment.
pub open spec fn difference(pseudo_output: nat, commitment: nat) -> nat {
    ((pseudo_output - commitment) % (order() as int)) as nat
}

/// The difference of two integers modulo the order.
pub open spec fn reduced_difference(a: nat, b: nat) -> nat {
    ((a % order() - b % order()) % (order() as int)) as nat
}

/// `e` encodes the commitment to `amount` under the blinding factor `blinding`.
pub open spec fn commits_to(e: Seq<u8>, amount: nat, blinding: nat) -> bool {
    e == base_multiple(commitment(amount, blinding))@
}

/// The encodings of the three commitments are those of no others.
pub open spec fn encode_one(lrd: (nat, nat, nat)) -> bool {
    encodes_one(lrd.0) && encodes_one(lrd.1) && encodes_one(lrd.2)
}

/// The challenge made from three commitments.
pub open spec fn ringct_challenge(message: Seq<u8>, lrd: (nat, nat, nat)) -> nat {
    digest_scalar(
        ringct_challenge_input(
            message,
            base_multiple(lrd.0)@,
            base_multiple(lrd.1)@,
            base_multiple(lrd.2)@,
        ),
    )
}

/// The commitments of the member with key `p`, commitment difference `d`,
/// responses `s` and `t` and challenge `c`: `s * G + c * P`,
/// `s * Hp(P) + c * I` and `t * B_blinding + c * D`.
pub open spec fn member_commitments(
    key_image: nat,
    p: nat,
    d: nat,
    s: nat,
    t: nat,
    c: nat,
) -> (nat, nat, nat) {
    (
        (s + c * p) % order(),
        (s * key_hash(p) + c * key_image) % order(),
        (t * blinding_log() + c * d) % order(),
    )
}

/// The commitments of the signer with key `p`, from the nonces.
pub open spec fn nonce_commitments(p: nat, alpha: nat, alpha_z: nat) -> (nat, nat, nat) {
    (alpha, (alpha * key_hash(p)) % order(), (alpha_z * blinding_log()) % order())
}

/// The commitments of member `i` for the challenge `c`.
pub open spec fn ringct_commitments(ring: RingctRing, sig: RingctModel, i: int, c: nat) -> (
    nat,
    nat,
    nat,
) {
    member_commitments(
        sig.key_image,
        ring.keys[i],
        difference(sig.pseudo_output, ring.commitments[i]),
        sig.s[i],
        sig.t[i],
        c,
    )
}

/// The challenge of member `i`, walking from the first member.
pub open spec fn ringct_walk(ring: RingctRing, message: Seq<u8>, sig: RingctModel, i: nat) -> nat
    decreases i,
{
    if i == 0 {
        sig.c0
    } else {
        ringct_challenge(
            message,
            ringct_commitments(
                ring,
                sig,
                i - 1,
                ringct_walk(ring, message, sig, (i - 1) as nat),
            ),
        )
    }
}

/// The commitments of member `i`, walking from the first member.
pub open spec fn commitments_at(
    ring: RingctRing,
    message: Seq<u8>,
    sig: RingctModel,
    i: int,
) -> (nat, nat, nat) {
    ringct_commitments(ring, sig, i, ringct_walk(ring, message, sig, i as nat))
}

/// The walk around the ring comes back to the challenge it started from.
pub open spec fn ringct_closes(ring: RingctRing, message: Seq<u8>, sig: RingctModel) -> bool {
    ringct_walk(ring, message, sig, ring.keys.len()) == sig.c0
}

/// The challenge of the member `k + 1` places after the signer `pi`, walking
/// from the signer.
pub open spec fn ringct_signer_walk(
    ring: RingctRing,
    message: Seq<u8>,
    pi: int,
    key_image: nat,
    pseudo_output: nat,
    nonces: RingctNonces,
    k: nat,
) -> nat
    decreases k,
{
    if k == 0 {
        ringct_challenge(
            message,
            nonce_commitments(ring.keys[pi], nonces.alpha, nonces.alpha_z),
        )
    } else {
        let i = around(pi, k as int, ring.keys.len() as int);
        ringct_challenge(
            message,
            member_commitments(
                key_image,
                ring.keys[i],
                difference(pseudo_output, ring.commitments[i]),
                nonces.s[i],
                nonces.t[i],
                ringct_signer_walk(
                    ring,
                    message,
                    pi,
                    key_image,
                    pseudo_output,
                    nonces,
                    (k - 1) as nat,
                ),
            ),
        )
    }
}

/// The signature of `message` by the member `pi`, whose private key is `x`, with
/// the blinding difference `z`.
pub open spec fn ringct_sign(
    ring: RingctRing,
    message: Seq<u8>,
    pi: int,
    x: nat,
    z: nat,
    pseudo_output: nat,
    nonces: RingctNonces,
) -> RingctModel {
    let n = ring.keys.len();
    let key_image = key_image_log(x);
    let c_pi = ringct_signer_walk(
        ring,
        message,
        pi,
        key_image,
        pseudo_output,
        nonces,
        (n - 1) as nat,
    );
    RingctModel {
        c0: ringct_signer_walk(
            ring,
            message,
            pi,
            key_image,
            pseudo_output,
            nonces,
            (n - 1 - pi) as nat,
        ),
        s: nonces.s.update(pi, response(nonces.alpha, c_pi, x)),
        t: nonces.t.update(pi, response(nonces.alpha_z, c_pi, z)),
        key_image,
        pseudo_output,
    }
}

/// The signer's challenge of member `i`; past the last member, that of the first.
pub open spec fn signer_challenge(
    ring: RingctRing,
    message: Seq<u8>,
    pi: int,
    x: nat,
    pseudo_output: nat,
    nonces: RingctNonces,
    i: int,
) -> nat {
    ringct_signer_walk(
        ring,
        message,
        pi,
        key_image_log(x),
        pseudo_output,
        nonces,
        place(pi, i, ring.keys.len() as int),
    )
}

/// `difference(pseudo_output, commitment)` is `z` times the blinding generator:
/// the two commitments hold the same amount, and `z` is the difference of their
/// blinding factors.
pub open spec fn linked(pseudo_output: nat, commitment: nat, z: nat) -> bool {
    difference(pseudo_output, commitment) == (z * blinding_log()) % order()
}

/// A signature made with the private key of a ring member whose commitment holds
/// the pseudo-output's amount closes the ring, whichever member signs, and
/// whatever the nonces and the other responses are.
pub proof fn law_ringct_signature_closes(
    ring: RingctRing,
    message: Seq<u8>,
    pi: int,
    x: nat,
    z: nat,
    pseudo_output: nat,
    nonces: RingctNonces,
)
    requires
        ring.wf(),
        nonces.wf(ring.keys.len()),
        0 <= pi < ring.keys.len(),
        ring.keys[pi] == x,
        x < order(),
        linked(pseudo_output, ring.commitments[pi], z),
    ensures
        ringct_closes(
            ring,
            message,
            ringct_sign(ring, message, pi, x, z, pseudo_output, nonces),
        ),
{
    lemma_walk_follows_signer(
        ring,
        message,
        pi,
        x,
        z,
        pseudo_output,
        nonces,
        ring.keys.len(),
    );
}

/// Two commitments are linked, by the difference of their blinding factors,
/// exactly when they hold the same amount.
pub proof fn law_linked_iff_same_amount(
    pseudo_amount: nat,
    pseudo_blinding: nat,
    input_amount: nat,
    input_blinding: nat,
)
    ensures
        linked(
            commitment(pseudo_amount, pseudo_blinding),
            commitment(input_amount, input_blinding),
            reduced_difference(pseudo_blinding, input_blinding),
        ) <==> pseudo_amount % order() == input_amount % order(),
{
    let m = order() as int;
    let h = blinding_log() as int;
    let a = pseudo_amount as int;
    let b = input_amount as int;
    let r = pseudo_blinding as int;
    let q = input_blinding as int;
    let z = reduced_difference(pseudo_blinding, input_blinding) as int;
    lemma_order();
    lemma_mod_bound(r % m - q % m, m);
    lemma_split(a + r * h);
    lemma_split(b + q * h);
    lemma_split(r);
    lemma_split(q);
    lemma_split(r % m - q % m);
    let (k1, c1) = ((a + r * h) / m, (a + r * h) % m);
    let (k0, c0) = ((b + q * h) / m, (b + q * h) % m);
    let (kr, kq, kz) = (r / m, q / m, (r % m - q % m) / m);
    let k = kr - kq + kz;
    let j = k * h - k1 + k0;
    assert(m * k == m * kr - m * kq + m * kz) by (nonlinear_arith)
        requires
            k == kr - kq + kz,
    ;
    assert(r - q == m * k + z);
    assert((r - q) * h == r * h - q * h) by (nonlinear_arith);
    assert((m * k + z) * h == m * (k * h) + z * h) by (nonlinear_arith);
    assert(m * j == m * (k * h) - m * k1 + m * k0) by (nonlinear_arith)
        requires
            j == k * h - k1 + k0,
    ;
    lemma_congruent(c1 - c0 - z * h, a - b, j);
    lemma_mod_equivalence(c1 - c0, z * h, m);
    lemma_mod_equivalence(a, b, m);
    lemma_mod_bound(c1 - c0, m);
}

/// The verifier's walk meets the same challenges as the signer's, up to the
/// signer, and beyond where the commitments are linked.
pub proof fn lemma_walk_follows_signer(
    ring: RingctRing,
    message: Seq<u8>,
    pi: int,
    x: nat,
    z: nat,
    pseudo_output: nat,
    nonces: RingctNonces,
    i: nat,
)
    requires
        ring.wf(),
        nonces.wf(ring.keys.len()),
        0 <= pi < ring.keys.len(),
        ring.keys[pi] == x,
        x < order(),
        i <= ring.keys.len(),
        i <= pi || linked(pseudo_output, ring.commitments[pi], z),
    ensures
        ringct_walk(
            ring,
            message,
            ringct_sign(ring, message, pi, x, z, pseudo_output, nonces),
            i,
        ) == signer_challenge(ring, message, pi, x, pseudo_output, nonces, i as int),
    decreases i,
{
    if i > 0 {
        lemma_walk_follows_signer(
            ring,
            message,
            pi,
            x,
            z,
            pseudo_output,
            nonces,
            (i - 1) as nat,
        );
        if i - 1 == pi {
            let c = signer_challenge(ring, message, pi, x, pseudo_output, nonces, pi);
            lemma_key_response_opens(x, nonces.alpha, c);
            lemma_response_opens(nonces.alpha_z, c, z, blinding_log());
        }
    }
}

/// The 32-byte blocks of an encoded signature: the first challenge, the
/// responses for the keys, those for the commitments, the key image, the
/// pseudo-output.
pub open spec fn ringct_blocks(sig: RingctModel) -> Seq<Seq<u8>> {
    let n = sig.s.len();
    Seq::new(
        2 * n + 3,
        |i: int|
            if i == 0 {
                le_bytes(sig.c0, 32)
            } else if i <= n {
                le_bytes(sig.s[i - 1], 32)
            } else if i <= 2 * n {
                le_bytes(sig.t[i - n - 1], 32)
            } else if i == 2 * n + 1 {
                base_multiple(sig.key_image)@
            } else {
                base_multiple(sig.pseudo_output)@
            },
    )
}

/// The bytes of a signature.
pub open spec fn ringct_encode(sig: RingctModel) -> Seq<u8> {
    concat_blocks(ringct_blocks(sig))
}

/// `b` is a signature over a ring of `n`: it has the right length, its scalars
/// are canonical, and its key image and pseudo-output are group elements.
pub open spec fn ringct_is_encoded(b: Seq<u8>, n: nat) -> bool {
    &&& b.len() == 32 * (2 * n + 3)
    &&& le_nat(block(b, 0)) < order()
    &&& are_scalars(b, 1, n)
    &&& are_scalars(b, n as int + 1, n)
    &&& is_point(block(b, 2 * n + 1int))
    &&& is_point(block(b, 2 * n + 2int))
}

/// The signature that `b` encodes.
pub open spec fn ringct_decode(b: Seq<u8>, n: nat) -> RingctModel {
    RingctModel {
        c0: le_nat(block(b, 0)),
        s: scalar_values(b, 1, n),
        t: scalar_values(b, n as int + 1, n),
        key_image: discrete_log(block(b, 2 * n + 1int)),
        pseudo_output: discrete_log(block(b, 2 * n + 2int)),
    }
}

/// The ring of the `n` keys and commitments in two byte strings.
pub open spec fn ring_of(ring_keys: Seq<u8>, ring_commitments: Seq<u8>, n: nat) -> RingctRing {
    RingctRing { keys: point_logs(ring_keys, n), commitments: point_logs(ring_commitments, n) }
}

/// The signature bytes `sig` are good for the message and the ring of the `n`
/// keys and commitments.
pub open spec fn ringct_accepts(
    ring_keys: Seq<u8>,
    ring_commitments: Seq<u8>,
    n: nat,
    message: Seq<u8>,
    sig: Seq<u8>,
) -> bool {
    &&& are_points(ring_keys, n)
    &&& are_points(ring_commitments, n)
    &&& ringct_is_encoded(sig, n)
    &&& ringct_closes(ring_of(ring_keys, ring_commitments, n), message, ringct_decode(sig, n))
}

/// Reading the bytes of a signature gives the signature back.
pub proof fn law_ringct_decode_encode(sig: RingctSignature)
    requires
        sig.wf(),
    ensures
        ringct_is_encoded(ringct_encode(sig@), sig.s@.len()),
        ringct_decode(ringct_encode(sig@), sig.s@.len()) == sig@,
{
    let n = sig.s@.len();
    let blocks = ringct_blocks(sig@);
    let b = ringct_encode(sig@);
    assert(b + Seq::empty() =~= b);
    lemma_le_bytes_of_le_nat(sig.c0.bytes@);
    lemma_block_of_concat(blocks, Seq::empty(), 0);
    lemma_point(sig.key_image.bytes@);
    lemma_block_of_concat(blocks, Seq::empty(), 2 * n + 1int);
    lemma_point(sig.pseudo_output.bytes@);
    lemma_block_of_concat(blocks, Seq::empty(), 2 * n + 2int);
    assert forall|i: int| 0 <= i < n implies #[trigger] block(b, 1 + i) == sig.s@[i].bytes@ by {
        lemma_le_bytes_of_le_nat(sig.s@[i].bytes@);
        lemma_block_of_concat(blocks, Seq::empty(), 1 + i);
    }
    assert forall|i: int| 0 <= i < n implies #[trigger] block(b, n + 1 + i)
        == sig.t@[i].bytes@ by {
        lemma_le_bytes_of_le_nat(sig.t@[i].bytes@);
        lemma_block_of_concat(blocks, Seq::empty(), n + 1 + i);
    }
    assert forall|i: int| 1 <= i < 1 + n implies le_nat(#[trigger] block(b, i)) < order() by {
        assert(block(b, 1 + (i - 1)) == sig.s@[i - 1].bytes@);
        assert(sig.s@[i - 1].wf());
    }
    assert forall|i: int| n + 1 <= i < n + 1 + n implies le_nat(#[trigger] block(b, i))
        < order() by {
        assert(block(b, n + 1 + (i - n - 1)) == sig.t@[i - n - 1].bytes@);
        assert(sig.t@[i - n - 1].wf());
    }
    assert(scalar_values(b, 1, n) =~= sig@.s);
    assert(scalar_values(b, n as int + 1, n) =~= sig@.t);
}

/// Writing what was read from the bytes of a signature gives the bytes back:
/// a signature has one encoding.
pub proof fn law_ringct_encode_decode(b: Seq<u8>, n: nat)
    requires
        ringct_is_encoded(b, n),
    ensures
        ringct_encode(ringct_decode(b, n)) == b,
{
    let blocks = Seq::new(2 * n + 3, |i: int| block(b, i));
    let sig = ringct_decode(b, n);
    assert forall|i: int| 0 <= i < 2 * n + 3 implies #[trigger] ringct_blocks(sig)[i]
        == blocks[i] by {
        lemma_le_bytes_of_le_nat(block(b, i));
        lemma_point(block(b, 2 * n + 1int));
        lemma_point(block(b, 2 * n + 2int));
    }
    assert(ringct_blocks(sig) =~= blocks);
    lemma_concat_of_blocks(b, 2 * n + 3);
}

/// The challenge that follows one ring member.
pub fn ringct_member(
    message: &[u8],
    key_image: &Point,
    b_blinding: &Point,
    p: &Point,
    d: &Point,
    s: &Scalar,
    t: &Scalar,
    c: &Scalar,
) -> (r: Scalar)
    requires
        key_image.wf(),
        b_blinding.wf(),
        b_blinding@ == blinding_log(),
        p.wf(),
        d.wf(),
        s.wf(),
        t.wf(),
        c.wf(),
    ensures
        r.wf(),
        r@ == ringct_challenge(message@, member_commitments(key_image@, p@, d@, s@, t@, c@)),
        encode_one(member_commitments(key_image@, p@, d@, s@, t@, c@)),
{
    let hp: Point = hash_to_point(p.bytes.as_slice());
    let l_i: Point = point_double_mul(s, &point_base(), c, p);
    let r_i: Point = point_double_mul(s, &hp, c, key_image);
    let d_i: Point = point_double_mul(t, b_blinding, c, d);
    proof {
        lemma_point(p.bytes@);
        lemma_point(l_i.bytes@);
        lemma_point(r_i.bytes@);
        lemma_point(d_i.bytes@);
        assert(s@ * 1 == s@);
    }
    ringct_challenge_hash(message, &l_i, &r_i, &d_i)
}

/// The differences between the pseudo-output and each member's commitment.
pub fn commitment_differences(pseudo_output: &Point, commitments: &Vec<Point>) -> (r: Vec<Point>)
    requires
        pseudo_output.wf(),
        points_wf(commitments@),
    ensures
        points_wf(r@),
        r@.len() == commitments@.len(),
        forall|i: int|
            0 <= i < r@.len() ==> (#[trigger] r@[i])@ == difference(
                pseudo_output@,
                commitments@[i]@,
            ),
{
    let n: usize = commitments.len();
    let mut r: Vec<Point> = Vec::new();
    for i in 0..n
        invariant
            n == commitments@.len(),
            pseudo_output.wf(),
            points_wf(commitments@),
            r@.len() == i,
            points_wf(r@),
            forall|j: int|
                0 <= j < i ==> (#[trigger] r@[j])@ == difference(
                    pseudo_output@,
                    commitments@[j]@,
                ),
    {
        r.push(point_sub(pseudo_output, &commitments[i]));
    }
    r
}

/// Makes a signature from the nonces and the other members' responses. The
/// responses at the signer's place are ignored.
pub fn ringct_sign_with(
    keys: &Vec<Point>,
    commitments: &Vec<Point>,
    secret_index: usize,
    x: &Scalar,
    z: &Scalar,
    pseudo_output: &Point,
    message: &[u8],
    alpha: &Scalar,
    alpha_z: &Scalar,
    key_responses: Vec<Scalar>,
    commitment_responses: Vec<Scalar>,
) -> (sig: RingctSignature)
    requires
        points_wf(keys@),
        points_wf(commitments@),
        commitments@.len() == keys@.len(),
        secret_index < keys@.len(),
        key_responses@.len() == keys@.len(),
        commitment_responses@.len() == keys@.len(),
        scalars_wf(key_responses@),
        scalars_wf(commitment_responses@),
        x.wf(),
        z.wf(),
        pseudo_output.wf(),
        alpha.wf(),
        alpha_z.wf(),
        keys@[secret_index as int]@ == x@,
    ensures
        sig.wf(),
        sig.s@.len() == keys@.len(),
        sig.pseudo_output == *pseudo_output,
        sig@ == ringct_sign(
            (RingctRing { keys: logs_of(keys@), commitments: logs_of(commitments@) }),
            message@,
            secret_index as int,
            x@,
            z@,
            pseudo_output@,
            (RingctNonces {
                alpha: alpha@,
                alpha_z: alpha_z@,
                s: values_of(key_responses@),
                t: values_of(commitment_responses@),
            }),
        ),
{
    let n: usize = keys.len();
    let ghost ring = RingctRing { keys: logs_of(keys@), commitments: logs_of(commitments@) };
    let ghost pi = secret_index as int;
    let ghost nonces = RingctNonces {
        alpha: alpha@,
        alpha_z: alpha_z@,
        s: values_of(key_responses@),
        t: values_of(commitment_responses@),
    };
    let mut s: Vec<Scalar> = key_responses;
    let mut t: Vec<Scalar> = commitment_responses;

    let hp: Point = hash_to_point(keys[secret_index].bytes.as_slice());
    let key_image: Point = point_mul(x, &hp);
    let differences: Vec<Point> = commitment_differences(pseudo_output, commitments);
    let b_blinding: Point = blinding_generator();

    let l_start: Point = point_mul_base(alpha);
    let r_start: Point = point_mul(alpha, &hp);
    let d_start: Point = point_mul(alpha_z, &b_blinding);
    proof {
        lemma_point(keys@[pi].bytes@);
        lemma_point(r_start.bytes@);
        lemma_point(d_start.bytes@);
    }

    let zero: Scalar = Scalar { bytes: [0u8; 32] };
    let mut c: Vec<Scalar> = Vec::new();
    for i in 0..n
        invariant
            c@.len() == i,
    {
        c.push(zero);
    }
    let mut i: usize = next_member(secret_index, n);
    c[i] = ringct_challenge_hash(message, &l_start, &r_start, &d_start);

    for k in 0..n - 1
        invariant
            n == keys@.len() == commitments@.len() == differences@.len(),
            n == s@.len() == t@.len() == c@.len(),
            0 <= pi < n,
            i == around(pi, k + 1, n as int),
            points_wf(keys@),
            points_wf(differences@),
            scalars_wf(s@),
            scalars_wf(t@),
            key_image.wf(),
            b_blinding.wf(),
            b_blinding@ == blinding_log(),
            key_image@ == key_image_log(x@),
            ring == (RingctRing { keys: logs_of(keys@), commitments: logs_of(commitments@) }),
            nonces == (RingctNonces {
                alpha: alpha@,
                alpha_z: alpha_z@,
                s: values_of(s@),
                t: values_of(t@),
            }),
            forall|j: int|
                0 <= j < n ==> (#[trigger] differences@[j])@ == difference(
                    pseudo_output@,
                    commitments@[j]@,
                ),
            forall|j: int|
                0 <= j <= k ==> {
                    let m = #[trigger] around(pi, j + 1, n as int);
                    &&& c@[m].wf()
                    &&& c@[m]@ == ringct_signer_walk(
                        ring,
                        message@,
                        pi,
                        key_image@,
                        pseudo_output@,
                        nonces,
                        j as nat,
                    )
                },
    {
        assert(around(pi, k + 1, n as int) == i);
        let after: Scalar = ringct_member(
            message,
            &key_image,
            &b_blinding,
            &keys[i],
            &differences[i],
            &s[i],
            &t[i],
            &c[i],
        );
        i = next_member(i, n);
        c[i] = after;
        assert(i == around(pi, k + 2, n as int));
    }

    assert(around(pi, (n - 1) + 1, n as int) == pi);
    assert(around(pi, (n - 1 - pi) + 1, n as int) == 0);
    let closing_s: Scalar = scalar_sub(alpha, &scalar_mul(&c[secret_index], x));
    let closing_t: Scalar = scalar_sub(alpha_z, &scalar_mul(&c[secret_index], z));
    proof {
        lemma_closing_response(alpha@, c@[pi]@, x@);
        lemma_closing_response(alpha_z@, c@[pi]@, z@);
    }
    s[secret_index] = closing_s;
    t[secret_index] = closing_t;
    assert(values_of(s@) =~= nonces.s.update(pi, closing_s@));
    assert(values_of(t@) =~= nonces.t.update(pi, closing_t@));
    RingctSignature { c0: c[0], s, t, key_image, pseudo_output: *pseudo_output }
}

/// Whether a signature closes the ring.
pub fn ringct_verify(
    keys: &Vec<Point>,
    commitments: &Vec<Point>,
    message: &[u8],
    sig: &RingctSignature,
) -> (r: bool)
    requires
        points_wf(keys@),
        points_wf(commitments@),
        commitments@.len() == keys@.len(),
        sig.wf(),
        sig.s@.len() == keys@.len(),
    ensures
        r == ringct_closes(
            (RingctRing { keys: logs_of(keys@), commitments: logs_of(commitments@) }),
            message@,
            sig@,
        ),
        forall|i: int|
            0 <= i < keys@.len() ==> encode_one(
                #[trigger] commitments_at(
                    (RingctRing { keys: logs_of(keys@), commitments: logs_of(commitments@) }),
                    message@,
                    sig@,
                    i,
                ),
            ),
{
    let n: usize = keys.len();
    let ghost ring = RingctRing { keys: logs_of(keys@), commitments: logs_of(commitments@) };
    let differences: Vec<Point> = commitment_differences(&sig.pseudo_output, commitments);
    let b_blinding: Point = blinding_generator();
    let mut c: Scalar = sig.c0;
    for i in 0..n
        invariant
            n == keys@.len() == commitments@.len() == differences@.len() == sig.s@.len(),
            points_wf(keys@),
            points_wf(differences@),
            sig.wf(),
            b_blinding.wf(),
            b_blinding@ == blinding_log(),
            ring == (RingctRing { keys: logs_of(keys@), commitments: logs_of(commitments@) }),
            forall|j: int|
                0 <= j < n ==> (#[trigger] differences@[j])@ == difference(
                    sig.pseudo_output@,
                    commitments@[j]@,
                ),
            c.wf(),
            c@ == ringct_walk(ring, message@, sig@, i as nat),
            forall|j: int|
                0 <= j < i ==> encode_one(#[trigger] commitments_at(ring, message@, sig@, j)),
    {
        c =
        ringct_member(
            message,
            &sig.key_image,
            &b_blinding,
            &keys[i],
            &differences[i],
            &sig.s[i],
            &sig.t[i],
            &c,
        );
    }
    proof {
        lemma_le_bytes_of_le_nat(c.bytes@);
        lemma_le_bytes_of_le_nat(sig.c0.bytes@);
    }
    bytes_equal(&c.bytes, &sig.c0.bytes)
}

impl RingctSignature {
    /// Reads a signature over a ring of `n`, or nothing if a scalar is not
    /// canonical or a point is not a group element.
    pub fn parse(b: &[u8], n: usize) -> (r: Option<RingctSignature>)
        requires
            b@.len() == 32 * (2 * n + 3),
        ensures
            r is Some <==> ringct_is_encoded(b@, n as nat),
            r matches Some(sig) ==> {
                &&& sig.wf()
                &&& sig.s@.len() == n
                &&& sig@ == ringct_decode(b@, n as nat)
            },
    {
        assert(b@.len() == b.len());
        let c0: Scalar = match scalar_from_canonical(&read_block(b, 0)) {
            Some(c0) => c0,
            None => return None,
        };
        let s: Vec<Scalar> = match read_scalars(b, 1, n) {
            Some(s) => s,
            None => return None,
        };
        let t: Vec<Scalar> = match read_scalars(b, n + 1, n) {
            Some(t) => t,
            None => return None,
        };
        let key_image: Point = match point_decompress(&read_block(b, 2 * n + 1)) {
            Some(key_image) => key_image,
            None => return None,
        };
        let pseudo_output: Point = match point_decompress(&read_block(b, 2 * n + 2)) {
            Some(pseudo_output) => pseudo_output,
            None => return None,
        };
        Some(RingctSignature { c0, s, t, key_image, pseudo_output })
    }

    /// The blocks of the encoded signature.
    pub fn to_blocks(&self) -> (r: Vec<[u8; 32]>)
        requires
            self.wf(),
        ensures
            r@.len() == 2 * self.s@.len() + 3,
            r@.map_values(|x: [u8; 32]| x@) == ringct_blocks(self@),
    {
        let n: usize = self.s.len();
        let mut r: Vec<[u8; 32]> = Vec::new();
        r.push(self.c0.bytes);
        for i in 0..n
            invariant
                n == self.s@.len(),
                r@.len() == i + 1,
                r@[0] == self.c0.bytes,
                forall|j: int| 1 <= j < i + 1 ==> #[trigger] r@[j] == self.s@[j - 1].bytes,
        {
            r.push(self.s[i].bytes);
        }
        for i in 0..n
            invariant
                n == self.s@.len() == self.t@.len(),
                r@.len() == n + i + 1,
                r@[0] == self.c0.bytes,
                forall|j: int| 1 <= j < n + 1 ==> #[trigger] r@[j] == self.s@[j - 1].bytes,
                forall|j: int|
                    n + 1 <= j < n + i + 1 ==> #[trigger] r@[j] == self.t@[j - n - 1].bytes,
        {
            r.push(self.t[i].bytes);
        }
        r.push(self.key_image.bytes);
        r.push(self.pseudo_output.bytes);
        proof {
            lemma_point(self.key_image.bytes@);
            lemma_point(self.pseudo_output.bytes@);
            assert forall|i: int| 0 <= i < 2 * n + 3 implies #[trigger] r@[i]@ == ringct_blocks(
                self@,
            )[i] by {
                lemma_le_bytes_of_le_nat(r@[i]@);
            }
            assert(r@.map_values(|x: [u8; 32]| x@) =~= ringct_blocks(self@));
        }
        r
    }
}

/// What signing returns: -2 for a wrong ring size or signer's index, -1 for a
/// private key that is not canonical or a pseudo-output, ring key or ring
/// commitment that is not a group element, -3 when the private key is not that
/// of the ring member, and 0 otherwise.
pub open spec fn ringct_sign_status(
    ring_keys: Seq<u8>,
    ring_commitments: Seq<u8>,
    ring_size: nat,
    secret_index: nat,
    private_key: Seq<u8>,
    pseudo_output: Seq<u8>,
) -> int {
    if ring_size != RING_SIZE || secret_index >= ring_size {
        -2
    } else if le_nat(private_key) >= order() || !is_point(pseudo_output) || !are_points(
        ring_keys,
        ring_size,
    ) || !are_points(ring_commitments, ring_size) {
        -1
    } else if block(ring_keys, secret_index as int) != base_multiple(le_nat(private_key))@ {
        -3
    } else {
        0
    }
}

/// What verifying returns: -2 for a wrong ring size or signature length, 0 for a
/// good signature, and -1 otherwise.
pub open spec fn ringct_verify_status(
    ring_keys: Seq<u8>,
    ring_commitments: Seq<u8>,
    ring_size: nat,
    message: Seq<u8>,
    signature: Seq<u8>,
) -> int {
    if ring_size != RING_SIZE || signature.len() != 32 * (2 * ring_size + 3) {
        -2
    } else if ringct_accepts(ring_keys, ring_commitments, ring_size, message, signature) {
        0
    } else {
        -1
    }
}

/// What a signer signs with.
pub struct RingctSigner {
    pub x: Scalar,
    pub pseudo_output: Point,
    pub keys: Vec<Point>,
    pub commitments: Vec<Point>,
}

/// Reads the signer's key, the pseudo-output and the ring, or says why there is
/// nothing to sign with.
pub fn ringct_signer(
    ring_keys: &[u8],
    ring_commitments: &[u8],
    ring_size: usize,
    secret_index: usize,
    private_key: &[u8; 32],
    pseudo_output: &[u8; 32],
) -> (r: Result<RingctSigner, i32>)
    requires
        ring_size == RING_SIZE && secret_index < ring_size ==> {
            &&& ring_keys@.len() >= 32 * ring_size
            &&& ring_commitments@.len() >= 32 * ring_size
        },
    ensures
        ({
            let status = ringct_sign_status(
                ring_keys@,
                ring_commitments@,
                ring_size as nat,
                secret_index as nat,
                private_key@,
                pseudo_output@,
            );
            match r {
                Ok(signer) => {
                    &&& status == 0
                    &&& signer.x.wf()
                    &&& signer.x.bytes == *private_key
                    &&& signer.pseudo_output.wf()
                    &&& signer.pseudo_output.bytes == *pseudo_output
                    &&& points_wf(signer.keys@)
                    &&& points_wf(signer.commitments@)
                    &&& signer.keys@.len() == ring_size
                    &&& signer.commitments@.len() == ring_size
                    &&& logs_of(signer.keys@) == point_logs(ring_keys@, ring_size as nat)
                    &&& logs_of(signer.commitments@) == point_logs(
                        ring_commitments@,
                        ring_size as nat,
                    )
                    &&& signer.keys@[secret_index as int]@ == signer.x@
                },
                Err(e) => e != 0 && e == status,
            }
        }),
{
    if ring_size != RING_SIZE || secret_index >= ring_size {
        return Err(-2);
    }
    let x: Scalar = match scalar_from_canonical(private_key) {
        Some(x) => x,
        None => return Err(-1),
    };
    let pseudo_output: Point = match point_decompress(pseudo_output) {
        Some(p) => p,
        None => return Err(-1),
    };
    let keys: Vec<Point> = match read_points(ring_keys, ring_size) {
        Some(keys) => keys,
        None => return Err(-1),
    };
    let commitments: Vec<Point> = match read_points(ring_commitments, ring_size) {
        Some(commitments) => commitments,
        None => return Err(-1),
    };
    let public: Point = point_mul_base(&x);
    if !bytes_equal(&keys[secret_index].bytes, &public.bytes) {
        return Err(-3);
    }
    Ok(RingctSigner { x, pseudo_output, keys, commitments })
}

/// Signs a message as member `secret_index` of a ring, linking the member's
/// commitment to a pseudo-output.
///
/// `ring_keys` and `ring_commitments` hold 32 bytes for each member. The blinding
/// factors of the member's commitment and of the pseudo-output are reduced before
/// use. The signature, `c_0 || s_0 .. s_{n-1} || t_0 .. t_{n-1} || key_image ||
/// pseudo_output`, goes to the front of `signature_out` and its length to
/// `signature_len_out`. The two nonces and the other members' responses are draws
/// of their own, in this order, left to chance. Signing does not check the amounts:
/// the signature is good, whatever the nonces are, when the two commitments hold the
/// same amount. Both outputs are untouched when the result is not 0.
pub fn blocknet_ringct_sign(
    ring_keys: &[u8],
    ring_commitments: &[u8],
    ring_size: usize,
    secret_index: usize,
    private_key: &[u8; 32],
    input_blinding: &[u8; 32],
    pseudo_output: &[u8; 32],
    pseudo_blinding: &[u8; 32],
    message: &[u8],
    signature_out: &mut [u8],
    signature_len_out: &mut usize,
) -> (r: i32)
    requires
        ring_size == RING_SIZE && secret_index < ring_size ==> {
            &&& ring_keys@.len() >= 32 * ring_size
            &&& ring_commitments@.len() >= 32 * ring_size
            &&& old(signature_out)@.len() >= 32 * (2 * ring_size + 3)
        },
    ensures
        r == ringct_sign_status(
            ring_keys@,
            ring_commitments@,
            ring_size as nat,
            secret_index as nat,
            private_key@,
            pseudo_output@,
        ),
        r != 0 ==> {
            &&& final(signature_out)@ == old(signature_out)@
            &&& *final(signature_len_out) == *old(signature_len_out)
        },
        r == 0 ==> {
            let len = 32 * (2 * ring_size + 3);
            let z = reduced_difference(le_nat(pseudo_blinding@), le_nat(input_blinding@));
            &&& *final(signature_len_out) == len
            &&& discrete_log(block(ring_keys@, secret_index as int)) == le_nat(private_key@)
            &&& encodes_one(discrete_log(pseudo_output@))
            &&& encodes_one(discrete_log(block(ring_commitments@, secret_index as int)))
            &&& final(signature_out)@.len() == old(signature_out)@.len()
            &&& final(signature_out)@.skip(len) == old(signature_out)@.skip(len)
            &&& exists|draws: Draws|
                {
                    let n = ring_size as nat;
                    let nonces = RingctNonces {
                        alpha: draws@[0]@,
                        alpha_z: draws@[1]@,
                        s: values_from(draws@, 2, n),
                        t: values_from(draws@, n + 2int, n),
                    };
                    let sig = ringct_sign(
                        ring_of(ring_keys@, ring_commitments@, n),
                        message@,
                        secret_index as int,
                        le_nat(private_key@),
                        z,
                        discrete_log(pseudo_output@),
                        nonces,
                    );
                    &&& #[trigger] call_ensures(
                        random_scalars,
                        ((2 * ring_size + 2) as usize,),
                        draws,
                    )
                    &&& draws@.len() == 2 * ring_size + 2
                    &&& scalars_wf(draws@)
                    &&& nonces.wf(n)
                    &&& final(signature_out)@.take(len) == ringct_encode(sig)
                    &&& ringct_decode(final(signature_out)@.take(len), n) == sig
                }
            &&& linked(
                discrete_log(pseudo_output@),
                discrete_log(block(ring_commitments@, secret_index as int)),
                z,
            ) ==> ringct_accepts(
                ring_keys@,
                ring_commitments@,
                ring_size as nat,
                message@,
                final(signature_out)@.take(len),
            )
            &&& forall|amount: nat|
                {
                    &&& #[trigger] commits_to(pseudo_output@, amount, le_nat(pseudo_blinding@))
                    &&& commits_to(
                        block(ring_commitments@, secret_index as int),
                        amount,
                        le_nat(input_blinding@),
                    )
                } ==> ringct_accepts(
                    ring_keys@,
                    ring_commitments@,
                    ring_size as nat,
                    message@,
                    final(signature_out)@.take(len),
                )
            &&& block(final(signature_out)@, 2 * ring_size + 1) == key_image_bytes(
                le_nat(private_key@),
            )@
            &&& block(final(signature_out)@, 2 * ring_size + 2) == pseudo_output@
        },
{
    match ringct_signer(
        ring_keys,
        ring_commitments,
        ring_size,
        secret_index,
        private_key,
        pseudo_output,
    ) {
        Err(e) => e,
        Ok(signer) => {
            let r_input: Scalar = scalar_from_bytes_mod_order(input_blinding);
            let r_pseudo: Scalar = scalar_from_bytes_mod_order(pseudo_blinding);
            let z: Scalar = scalar_sub(&r_pseudo, &r_input);
            let draws: Draws = random_scalars(2 * ring_size + 2);
            let alpha: Scalar = draws.get(0);
            let alpha_z: Scalar = draws.get(1);
            let s: Vec<Scalar> = drawn(&draws, 2, ring_size);
            let t: Vec<Scalar> = drawn(&draws, ring_size + 2, ring_size);
            let ghost nonces = RingctNonces {
                alpha: draws@[0]@,
                alpha_z: draws@[1]@,
                s: values_from(draws@, 2, ring_size as nat),
                t: values_from(draws@, ring_size as nat + 2int, ring_size as nat),
            };
            assert(values_of(s@) =~= nonces.s);
            assert(values_of(t@) =~= nonces.t);
            assert(scalars_wf(s@));
            assert(scalars_wf(t@));
            let ghost ring = ring_of(ring_keys@, ring_commitments@, ring_size as nat);
            assert(z@ == reduced_difference(le_nat(pseudo_blinding@), le_nat(input_blinding@)));
            assert(nonces.wf(ring_size as nat)) by {
                assert forall|i: int| 0 <= i < ring_size implies #[trigger] nonces.s[i]
                    < order() by {
                    assert(s@[i].wf());
                }
                assert forall|i: int| 0 <= i < ring_size implies #[trigger] nonces.t[i]
                    < order() by {
                    assert(t@[i].wf());
                }
            }
            let sig: RingctSignature = ringct_sign_with(
                &signer.keys,
                &signer.commitments,
                secret_index,
                &signer.x,
                &z,
                &signer.pseudo_output,
                message,
                &alpha,
                &alpha_z,
                s,
                t,
            );
            let blocks: Vec<[u8; 32]> = sig.to_blocks();
            write_blocks(signature_out, &blocks);
            let len: usize = 32 + ring_size * 32 + ring_size * 32 + 32 + 32;
            *signature_len_out = len;
            proof {
                let pi = secret_index as int;
                assert forall|amount: nat|
                    {
                        &&& #[trigger] commits_to(pseudo_output@, amount, le_nat(pseudo_blinding@))
                        &&& commits_to(
                            block(ring_commitments@, pi),
                            amount,
                            le_nat(input_blinding@),
                        )
                    } implies linked(sig@.pseudo_output, ring.commitments[pi], z@) by {
                    law_linked_iff_same_amount(
                        amount,
                        le_nat(pseudo_blinding@),
                        amount,
                        le_nat(input_blinding@),
                    );
                    lemma_order();
                    let p = signer.commitments@[pi];
                    assert(p.wf());
                    assert(logs_of(signer.commitments@)[pi] == p@);
                }
                if linked(sig@.pseudo_output, ring.commitments[pi], z@) {
                    law_ringct_signature_closes(
                        ring,
                        message@,
                        pi,
                        signer.x@,
                        z@,
                        sig@.pseudo_output,
                        nonces,
                    );
                }
                law_ringct_decode_encode(sig);
                assert(logs_of(signer.keys@)[pi] == signer.x@);
                lemma_encodes_one(signer.pseudo_output);
                lemma_encodes_one(signer.commitments@[pi]);
                assert(logs_of(signer.commitments@)[pi] == signer.commitments@[pi]@);
                assert(signature_out@.take(len as int) =~= ringct_encode(sig@));
                assert(signature_out@.skip(len as int) =~= old(signature_out)@.skip(len as int));
                let tail = signature_out@.skip(len as int);
                assert(signature_out@ =~= ringct_encode(sig@) + tail);
                lemma_block_of_concat(ringct_blocks(sig@), tail, 2 * ring_size + 1);
                lemma_block_of_concat(ringct_blocks(sig@), tail, 2 * ring_size + 2);
                lemma_point(sig.pseudo_output.bytes@);
            }
            0
        },
    }
}

/// Verifies a signature over a ring of public keys and commitments, 32 bytes
/// each. The pseudo-output is the one in the signature.
pub fn blocknet_ringct_verify(
    ring_keys: &[u8],
    ring_commitments: &[u8],
    ring_size: usize,
    message: &[u8],
    signature: &[u8],
) -> (r: i32)
    requires
        ring_size == RING_SIZE && signature@.len() == 32 * (2 * ring_size + 3) ==> {
            &&& ring_keys@.len() >= 32 * ring_size
            &&& ring_commitments@.len() >= 32 * ring_size
        },
    ensures
        r == ringct_verify_status(
            ring_keys@,
            ring_commitments@,
            ring_size as nat,
            message@,
            signature@,
        ),
        r == 0 ==> forall|i: int|
            0 <= i < ring_size ==> encode_one(
                #[trigger] commitments_at(
                    ring_of(ring_keys@, ring_commitments@, ring_size as nat),
                    message@,
                    ringct_decode(signature@, ring_size as nat),
                    i,
                ),
            ),
{
    if ring_size != RING_SIZE || signature.len() != 32 + ring_size * 32 + ring_size * 32 + 32
        + 32 {
        return -2;
    }
    let keys: Vec<Point> = match read_points(ring_keys, ring_size) {
        Some(keys) => keys,
        None => return -1,
    };
    let commitments: Vec<Point> = match read_points(ring_commitments, ring_size) {
        Some(commitments) => commitments,
        None => return -1,
    };
    let sig: RingctSignature = match RingctSignature::parse(signature, ring_size) {
        Some(sig) => sig,
        None => return -1,
    };
    if ringct_verify(&keys, &commitments, message, &sig) {
        0
    } else {
        -1
    }
}

/// Copies the key image out of a signature over a ring of `ring_size`. The bytes
/// after the key image need not be there.
pub fn blocknet_ringct_key_image(
    signature: &[u8],
    ring_size: usize,
    key_image_out: &mut [u8; 32],
) -> (r: i32)
    requires
        signature@.len() >= 32 * (2 * ring_size + 2),
    ensures
        r == 0,
        final(key_image_out)@ == block(signature@, 2 * ring_size + 1),
{
    assert(signature@.len() == signature.len());
    *key_image_out = read_block(signature, 2 * ring_size + 1);
    0
}

/// Copies the pseudo-output out of a signature over a ring of `ring_size`.
pub fn blocknet_ringct_pseudo_output(
    signature: &[u8],
    ring_size: usize,
    pseudo_out: &mut [u8; 32],
) -> (r: i32)
    requires
        signature@.len() >= 32 * (2 * ring_size + 3),
    ensures
        r == 0,
        final(pseudo_out)@ == block(signature@, 2 * ring_size + 2),
{
    assert(signature@.len() == signature.len());
    *pseudo_out = read_block(signature, 2 * ring_size + 2);
    0
}

} // verus!
