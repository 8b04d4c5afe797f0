//! Arithmetic modulo the group order.

use vstd::arithmetic::div_mod::{
    lemma_add_mod_noop, lemma_fundamental_div_mod, lemma_mod_bound, lemma_mod_equivalence,
    lemma_mod_multiples_vanish, lemma_mod_twice, lemma_mul_mod_noop_left,
    lemma_mul_mod_noop_right, lemma_small_mod, lemma_sub_mod_noop,
};
use vstd::prelude::*;

use crate::group::{lemma_order, order};
use crate::prime::{lemma_order_is_prime, lemma_product_zero};

verus! {

/// The response that closes a ring: `nonce - c * secret`, reduced.
pub open spec fn response(nonce: nat, c: nat, secret: nat) -> nat {
    ((nonce - c * secret) % (order() as int)) as nat
}

/// A response is reduced.
pub proof fn lemma_response_reduced(nonce: nat, c: nat, secret: nat)
    ensures
        response(nonce, c, secret) < order(),
        response(nonce, c, secret) == (nonce - c * secret) % (order() as int),
{
    lemma_order();
    lemma_mod_bound(nonce - c * secret, order() as int);
}

/// The response for the challenge `c` opens the commitment `nonce * g`, for a
/// base `g` and the image `secret * g` of the secret.
pub proof fn lemma_response_opens(nonce: nat, c: nat, secret: nat, g: nat)
    ensures
        (response(nonce, c, secret) * g + c * ((secret * g) % order())) % order() == (nonce * g)
            % order(),
{
    let m = order() as int;
    let k = nonce - c * secret;
    lemma_order();
    lemma_response_reduced(nonce, c, secret);
    assert((k % m) * g + c * ((secret * g) % order()) == (k % m) * (g as int) + (c as int) * (((
    secret * g) as int) % m));
    lemma_mul_mod_noop_left(k, g as int, m);
    lemma_mul_mod_noop_right(c as int, (secret * g) as int, m);
    let a = (k % m) * (g as int);
    let b = (c as int) * (((secret * g) as int) % m);
    lemma_add_mod_noop(a, b, m);
    lemma_add_mod_noop(k * (g as int), (c as int) * ((secret * g) as int), m);
    assert(k * (g as int) + (c as int) * ((secret * g) as int) == nonce * g) by (nonlinear_arith)
        requires
            k == nonce - c * secret,
    ;
}

/// Reducing the product before the subtraction does not change a response.
pub proof fn lemma_closing_response(nonce: nat, c: nat, secret: nat)
    ensures
        (nonce - (c * secret) % order()) % (order() as int) == response(nonce, c, secret),
{
    let m = order() as int;
    lemma_order();
    lemma_response_reduced(nonce, c, secret);
    lemma_sub_mod_noop(nonce as int, (c * secret) as int, m);
    lemma_sub_mod_noop(nonce as int, ((c * secret) % order()) as int, m);
    lemma_mod_twice((c * secret) as int, m);
}

/// Two integers leave the same remainder when they differ by a multiple of the
/// order.
pub proof fn lemma_congruent(a: int, b: int, k: int)
    requires
        a - b == (order() as int) * k,
    ensures
        a % (order() as int) == b % (order() as int),
{
    lemma_order();
    lemma_mod_multiples_vanish(k, b, order() as int);
}

/// An integer is its remainder and a multiple of the order.
pub proof fn lemma_split(a: int)
    ensures
        a == (order() as int) * (a / (order() as int)) + a % (order() as int),
{
    lemma_order();
    lemma_fundamental_div_mod(a, order() as int);
}

/// The nonce that a response for the challenge `c` belongs to.
pub open spec fn nonce_of(resp: nat, c: nat, secret: nat) -> nat {
    (resp + c * secret) % order()
}

/// The response of the nonce of a response is that response.
pub proof fn lemma_response_of_nonce(resp: nat, c: nat, secret: nat)
    requires
        resp < order(),
    ensures
        response(nonce_of(resp, c, secret), c, secret) == resp,
{
    let m = order() as int;
    let a = (resp + c * secret) as int;
    lemma_order();
    lemma_split(a);
    lemma_congruent(resp as int, a % m - c * secret, a / m);
    lemma_small_mod(resp, order());
}

/// The nonce of a response commits to what the response opens, for a base `g`.
pub proof fn lemma_nonce_commits(resp: nat, c: nat, secret: nat, g: nat)
    ensures
        (nonce_of(resp, c, secret) * g) % order() == (resp * g + c * ((secret * g) % order()))
            % order(),
{
    let m = order() as int;
    let a = (resp + c * secret) as int;
    let b = (secret * g) as int;
    let h = g as int;
    let d = c as int;
    let (qa, qb) = (a / m, b / m);
    let k = d * qb - qa * h;
    lemma_order();
    lemma_split(a);
    lemma_split(b);
    assert((a - m * qa) * h == a * h - m * (qa * h)) by (nonlinear_arith);
    assert(d * (b - m * qb) == d * b - m * (d * qb)) by (nonlinear_arith);
    assert(a * h == resp * h + d * b) by (nonlinear_arith)
        requires
            a == resp + d * secret,
            b == secret * h,
    ;
    assert(m * k == m * (d * qb) - m * (qa * h)) by (nonlinear_arith)
        requires
            k == d * qb - qa * h,
    ;
    lemma_congruent((a % m) * h, resp * h + d * (b % m), k);
}

/// The quotient `x` of two responses' difference by their challenges' is the
/// factor from the base `g` to `y`, where both open one commitment.
pub proof fn lemma_quotient(s: nat, t: nat, c: nat, d: nat, x: nat, g: nat, y: nat)
    requires
        c < order(),
        d < order(),
        c != d,
        ((d - c) * x) % (order() as int) == (s - t) % (order() as int),
        (s * g + c * y) % order() == (t * g + d * y) % order(),
    ensures
        y % order() == (x * g) % order(),
{
    let m = order() as int;
    let e = d - c;
    let a = e * x - (s - t);
    let b = (s * g + c * y) - (t * g + d * y);
    lemma_order();
    lemma_mod_equivalence(e * x, s - t, m);
    lemma_mod_equivalence((s * g + c * y) as int, (t * g + d * y) as int, m);
    lemma_split(a);
    lemma_split(b);
    let (qa, qb) = (a / m, b / m);
    let k = qb + qa * g;
    let f = s - t;
    assert(e * (x * g - y) == (e * x) * g - e * y) by (nonlinear_arith);
    assert(b == f * g - e * y) by (nonlinear_arith)
        requires
            b == (s * g + c * y) - (t * g + d * y),
            e == d - c,
            f == s - t,
    ;
    assert((a + f) * g == a * g + f * g) by (nonlinear_arith);
    assert((m * qa) * g + m * qb == m * k) by (nonlinear_arith)
        requires
            k == qb + qa * g,
    ;
    lemma_congruent(e * (x * g - y), 0, k);
    lemma_small_mod(0, order());
    lemma_order_is_prime();
    lemma_product_zero(order(), e, x * g - y);
    lemma_mod_equivalence(d as int, c as int, m);
    lemma_small_mod(c, order());
    lemma_small_mod(d, order());
    lemma_mod_equivalence((x * g) as int, y as int, m);
}

} // verus!
