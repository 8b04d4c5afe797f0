//! The group order is prime: the scalars are a field.
//!
//! A number is shown to be prime by an element of large order: where `c` has
//! order `f` modulo every divisor above one, every such divisor exceeds `f`, and
//! where `f * f` exceeds the number there is room for one divisor only.

use vstd::arithmetic::div_mod::{
    lemma_fundamental_div_mod, lemma_mod_bound, lemma_mod_equivalence, lemma_mod_multiples_basic,
    lemma_mod_multiples_vanish, lemma_mul_mod_noop, lemma_small_mod,
};
use vstd::arithmetic::power::{lemma_pow0, lemma_pow1, lemma_pow_adds, lemma_pow_multiplies, pow};
use vstd::prelude::*;
use vstd::relations::injective_on;
use vstd::set_lib::{lemma_int_range, lemma_len_subset, lemma_map_size, set_int_range};

use crate::group::order;

verus! {

/// `u * k` leaves the remainder one.
pub open spec fn is_inverse(u: int, k: int, n: int) -> bool {
    (u * k) % n == 1
}

/// Some multiple of `k` leaves the remainder one.
pub open spec fn is_unit(k: int, n: int) -> bool {
    exists|u: int| #[trigger] is_inverse(u, k, n)
}

/// Each integer from one to `n - 1` has an inverse modulo `n`.
pub open spec fn is_field(n: nat) -> bool {
    &&& n > 1
    &&& forall|k: int| 0 < k < n ==> #[trigger] is_unit(k, n as int)
}

/// `d` divides `n`.
spec fn divides(d: int, n: nat) -> bool {
    n as int % d == 0
}

/// The power `k` of `c` leaves the remainder one.
spec fn is_power_one(c: int, k: nat, d: int) -> bool {
    pow(c, k) % d == 1
}

proof fn lemma_mul_congruent(a: int, b: int, c: int, d: int, p: int)
    requires
        p > 0,
        a % p == b % p,
        c % p == d % p,
    ensures
        (a * c) % p == (b * d) % p,
{
    lemma_mul_mod_noop(a, c, p);
    lemma_mul_mod_noop(b, d, p);
}

proof fn lemma_power_of_one(b: int, e: nat, p: int)
    requires
        p > 1,
        b % p == 1,
    ensures
        pow(b, e) % p == 1,
    decreases e,
{
    lemma_small_mod(1, p as nat);
    if e == 0 {
        lemma_pow0(b);
    } else {
        lemma_power_of_one(b, (e - 1) as nat, p);
        lemma_pow_adds(b, 1, (e - 1) as nat);
        lemma_pow1(b);
        lemma_mul_congruent(b, 1, pow(b, (e - 1) as nat), 1, p);
    }
}

/// An element whose powers `q` and `k` are one is one itself, if `q` is prime and
/// does not divide `k`.
proof fn lemma_unit_power(p: int, q: nat, c: int, k: nat)
    requires
        p > 1,
        is_field(q),
        pow(c, q) % p == 1,
        pow(c, k) % p == 1,
        k % q != 0,
    ensures
        c % p == 1,
{
    let r = (k % q) as int;
    let m = q as int;
    assert(is_unit(r, m));
    let u = choose|u: int| #[trigger] is_inverse(u, r, m);
    let v = (u % m) as nat;
    lemma_mod_bound(u, m);
    lemma_mul_mod_noop(u, r, m);
    lemma_small_mod(r as nat, q);
    lemma_mul_mod_noop(v as int, k as int, m);
    lemma_small_mod(v, q);
    assert(((v * k) as int) % m == 1);
    let w = (v * k) / (q as nat);
    lemma_fundamental_div_mod((v * k) as int, m);
    assert(v * k == q * w + 1);
    lemma_pow_multiplies(c, k, v);
    lemma_power_of_one(pow(c, k), v, p);
    assert(k * v == v * k) by (nonlinear_arith);
    lemma_pow_multiplies(c, q, w);
    lemma_power_of_one(pow(c, q), w, p);
    lemma_pow_adds(c, q * w, 1);
    lemma_pow1(c);
    lemma_small_mod(1, p as nat);
    lemma_mul_congruent(pow(c, q * w), 1, c, c, p);
}

/// A modulus exceeds the order of each element.
proof fn lemma_order_below_modulus(p: int, f: nat, c: int)
    requires
        p > 1,
        f > 0,
        pow(c, f) % p == 1,
        forall|k: nat| 0 < k < f ==> !#[trigger] is_power_one(c, k, p),
    ensures
        f < p,
{
    let domain = set_int_range(0, f as int);
    let g = |i: int| pow(c, i as nat) % p;
    let image = domain.map(g);
    let range = set_int_range(1, p);
    lemma_int_range(0, f as int);
    lemma_int_range(1, p);
    assert forall|i: int, j: int|
        domain.contains(i) && domain.contains(j) && #[trigger] g(i) == #[trigger] g(j) implies i
        == j by {
        if i < j {
            lemma_powers_differ(p, f, c, i as nat, j as nat);
        } else if j < i {
            lemma_powers_differ(p, f, c, j as nat, i as nat);
        }
    }
    assert(injective_on(g, domain));
    lemma_map_size(domain, image, g);
    assert forall|y: int| image.contains(y) implies range.contains(y) by {
        let i = choose|i: int| domain.contains(i) && y == g(i);
        lemma_mod_bound(pow(c, i as nat), p);
        if y == 0 {
            lemma_pow_adds(c, i as nat, (f - i) as nat);
            lemma_mul_congruent(
                pow(c, i as nat),
                0,
                pow(c, (f - i) as nat),
                pow(c, (f - i) as nat),
                p,
            );
            lemma_small_mod(0, p as nat);
        }
    }
    lemma_len_subset(image, range);
}

proof fn lemma_powers_differ(p: int, f: nat, c: int, i: nat, j: nat)
    requires
        p > 1,
        i < j < f,
        pow(c, f) % p == 1,
        forall|k: nat| 0 < k < f ==> !#[trigger] is_power_one(c, k, p),
    ensures
        pow(c, i) % p != pow(c, j) % p,
{
    if pow(c, i) % p == pow(c, j) % p {
        let k = (j - i) as nat;
        let a = pow(c, (f - i) as nat);
        lemma_pow_adds(c, (f - i) as nat, i);
        lemma_pow_adds(c, (f - i) as nat, j);
        lemma_pow_adds(c, f, k);
        lemma_mul_congruent(a, a, pow(c, i), pow(c, j), p);
        lemma_small_mod(1, p as nat);
        lemma_mul_congruent(pow(c, f), 1, pow(c, k), pow(c, k), p);
        assert(f - i + j == f + k);
        assert(is_power_one(c, k, p));
    }
}

/// A remainder of one is kept by a divisor of the modulus.
proof fn lemma_one_modulo_divisor(x: int, n: int, d: int)
    requires
        d > 1,
        n > 1,
        n % d == 0,
        x % n == 1,
    ensures
        x % d == 1,
{
    let k = x / n;
    let e = n / d;
    lemma_fundamental_div_mod(x, n);
    lemma_fundamental_div_mod(n, d);
    assert(x == d * (e * k) + 1) by (nonlinear_arith)
        requires
            x == n * k + 1,
            n == d * e,
    ;
    lemma_mod_multiples_vanish(e * k, 1, d);
    lemma_small_mod(1, d as nat);
}

/// What has an inverse is not zero modulo a divisor.
proof fn lemma_invertible_modulo_divisor(u: int, x: int, n: int, d: int)
    requires
        d > 1,
        n > 1,
        n % d == 0,
        is_inverse(u, x, n),
    ensures
        x % d != 0,
{
    lemma_one_modulo_divisor(u * x, n, d);
    if x % d == 0 {
        lemma_mul_congruent(u, u, x, 0, d);
        lemma_small_mod(0, d as nat);
    }
}

/// A common divisor of `a` and `b` that is a combination of them.
proof fn euclid(a: nat, b: nat) -> (r: (nat, int, int))
    requires
        a > 0,
    ensures
        r.0 > 0,
        a % r.0 == 0,
        b % r.0 == 0,
        r.0 == r.1 * a + r.2 * b,
    decreases b,
{
    if b == 0 {
        lemma_mod_multiples_basic(1, a as int);
        lemma_small_mod(0, a);
        (a, 1, 0)
    } else {
        lemma_mod_bound(a as int, b as int);
        let (g, u, v) = euclid(b, a % b);
        let q = a / b;
        lemma_fundamental_div_mod(a as int, b as int);
        lemma_fundamental_div_mod(b as int, g as int);
        lemma_fundamental_div_mod((a % b) as int, g as int);
        let s = b / g;
        let t = (a % b) / g;
        assert(a == g * (s * q + t)) by (nonlinear_arith)
            requires
                a == b * q + a % b,
                b == g * s,
                a % b == g * t,
        ;
        lemma_mod_multiples_vanish((s * q + t) as int, 0, g as int);
        lemma_small_mod(0, g);
        let r = (a % b) as int;
        assert(g == v * a + (u - v * q) * b) by (nonlinear_arith)
            requires
                g == u * b + v * r,
                a == b * q + r,
        ;
        (g, v, u - v * q)
    }
}

/// A number without divisors is prime.
proof fn lemma_no_divisor(n: nat)
    requires
        n > 1,
        forall|d: int| 1 < d < n ==> !#[trigger] divides(d, n),
    ensures
        is_field(n),
{
    let m = n as int;
    assert forall|k: int| 0 < k < m implies #[trigger] is_unit(k, m) by {
        let (g, u, v) = euclid(k as nat, n);
        lemma_fundamental_div_mod(k, g as int);
        assert(g <= k) by (nonlinear_arith)
            requires
                k == g * (k / (g as int)),
                k > 0,
                g > 0,
        ;
        assert(divides(g as int, n));
        assert(g == 1);
        lemma_mod_multiples_vanish(-v, 1, m);
        lemma_small_mod(1, n);
        assert(u * k == m * (-v) + 1) by (nonlinear_arith)
            requires
                1 == u * k + v * m,
        ;
        assert(is_inverse(u, k, m));
    }
}

/// A number is prime where an element has an order `f`, with `f * f` above the
/// number, modulo each of its divisors.
proof fn lemma_large_order(n: nat, f: nat, c: int)
    requires
        n > 1,
        f > 0,
        f * f > n,
        pow(c, f) % (n as int) == 1,
        forall|d: int, k: nat|
            1 < d && divides(d, n) && 0 < k < f ==> !#[trigger] is_power_one(c, k, d),
    ensures
        is_field(n),
{
    let m = n as int;
    assert forall|d: int| 1 < d < n implies !#[trigger] divides(d, n) by {
        if m % d == 0 {
            let e = m / d;
            lemma_fundamental_div_mod(m, d);
            assert(1 < e && m == e * d) by (nonlinear_arith)
                requires
                    m == d * e,
                    1 < d < m,
            ;
            lemma_mod_multiples_vanish(d, 0, e);
            lemma_small_mod(0, e as nat);
            lemma_one_modulo_divisor(pow(c, f), m, d);
            lemma_one_modulo_divisor(pow(c, f), m, e);
            lemma_order_below_modulus(d, f, c);
            lemma_order_below_modulus(e, f, c);
            assert(d * e > f * f) by (nonlinear_arith)
                requires
                    d > f,
                    e > f,
                    f > 0,
            ;
        }
    }
    lemma_no_divisor(n);
}

/// What has an inverse modulo a prime cancels: a product is a multiple of a
/// prime only if one of its factors is.
pub proof fn lemma_product_zero(q: nat, a: int, b: int)
    requires
        is_field(q),
        (a * b) % (q as int) == 0,
    ensures
        a % (q as int) == 0 || b % (q as int) == 0,
{
    let m = q as int;
    if a % m != 0 {
        let r = a % m;
        lemma_mod_bound(a, m);
        assert(is_unit(r, m));
        let u = choose|u: int| #[trigger] is_inverse(u, r, m);
        lemma_small_mod(r as nat, q);
        lemma_small_mod(0, q);
        lemma_small_mod(1, q);
        lemma_mul_congruent(u, u, r, a, m);
        lemma_mul_congruent(u, u, a * b, 0, m);
        lemma_mul_congruent(u * a, 1, b, b, m);
        assert(u * (a * b) == (u * a) * b) by (nonlinear_arith);
    }
}

/// The remainders of congruent numbers agree modulo a divisor.
proof fn lemma_congruent_modulo_divisor(x: int, y: int, n: int, d: int)
    requires
        d > 1,
        n > 1,
        n % d == 0,
        x % n == y % n,
    ensures
        x % d == y % d,
{
    let e = n / d;
    let r = x % n;
    let i = x / n;
    let j = y / n;
    lemma_fundamental_div_mod(x, n);
    lemma_fundamental_div_mod(y, n);
    lemma_fundamental_div_mod(n, d);
    assert(x == d * (e * (i - j)) + y) by (nonlinear_arith)
        requires
            x == n * i + r,
            y == n * j + r,
            n == d * e,
    ;
    lemma_mod_multiples_vanish(e * (i - j), y, d);
}

/// The remainder of a power, by repeated squaring.
spec fn power_mod(c: nat, e: nat, n: nat) -> nat
    decreases e,
{
    if e == 0 {
        1
    } else {
        let h = power_mod(c, e / 2, n);
        if e % 2 == 1 {
            ((h * h) % n * c) % n
        } else {
            (h * h) % n
        }
    }
}

proof fn lemma_power_mod(c: nat, e: nat, n: nat)
    requires
        n > 1,
    ensures
        power_mod(c, e, n) == pow(c as int, e) % (n as int),
    decreases e,
{
    let m = n as int;
    lemma_small_mod(1, n);
    if e == 0 {
        lemma_pow0(c as int);
    } else {
        let f = e / 2;
        let h = power_mod(c, f, n);
        lemma_power_mod(c, f, n);
        lemma_mod_bound(pow(c as int, f), m);
        lemma_small_mod(h, n);
        lemma_pow_adds(c as int, f, f);
        lemma_mul_congruent(h as int, pow(c as int, f), h as int, pow(c as int, f), m);
        if e % 2 == 1 {
            let g = (h * h) % n;
            lemma_mod_bound((h * h) as int, m);
            lemma_small_mod(g, n);
            lemma_pow_adds(c as int, f + f, 1);
            lemma_pow1(c as int);
            lemma_mul_congruent(g as int, pow(c as int, f + f), c as int, c as int, m);
        }
    }
}

/// A number is prime where an element has a prime order `q` above its root:
/// `c` to the power `q` is one, and `c - 1` has the inverse `w`.
spec fn is_certificate(n: nat, q: nat, c: nat, w: nat) -> bool {
    &&& n > 1
    &&& q * q > n
    &&& power_mod(c, q, n) == 1
    &&& (w * (c - 1)) % (n as int) == 1
}

proof fn lemma_certified(n: nat, q: nat, c: nat, w: nat)
    requires
        is_field(q),
        is_certificate(n, q, c, w),
    ensures
        is_field(n),
{
    let m = n as int;
    let x = c as int;
    lemma_power_mod(c, q, n);
    assert forall|d: int, k: nat| 1 < d && divides(d, n) && 0 < k < q implies
        !#[trigger] is_power_one(x, k, d) by {
        if is_power_one(x, k, d) {
            lemma_one_modulo_divisor(pow(x, q), m, d);
            lemma_small_mod(k, q);
            lemma_unit_power(d, q, x, k);
            lemma_small_mod(1, d as nat);
            lemma_mod_equivalence(x, 1, d);
            lemma_invertible_modulo_divisor(w as int, x - 1, m, d);
        }
    }
    lemma_large_order(n, q, x);
}

/// As `is_certificate`, for an element whose order is the product of the primes
/// `r` and `s`: `c` to the power `r`, less one, has the inverse `u`, and to the
/// power `s`, less one, the inverse `v`.
spec fn is_pair_certificate(n: nat, r: nat, s: nat, c: nat, u: nat, v: nat) -> bool {
    &&& n > 1
    &&& r % s != 0
    &&& (r * s) * (r * s) > n
    &&& power_mod(c, r * s, n) == 1
    &&& (u * (power_mod(c, r, n) - 1)) % (n as int) == 1
    &&& (v * (power_mod(c, s, n) - 1)) % (n as int) == 1
}

proof fn lemma_certified_pair(n: nat, r: nat, s: nat, c: nat, u: nat, v: nat)
    requires
        is_field(r),
        is_field(s),
        is_pair_certificate(n, r, s, c, u, v),
    ensures
        is_field(n),
{
    let m = n as int;
    let z = c as int;
    let x = power_mod(c, r, n) as int;
    let y = power_mod(c, s, n) as int;
    lemma_power_mod(c, r * s, n);
    lemma_power_mod(c, r, n);
    lemma_power_mod(c, s, n);
    lemma_mod_bound(pow(z, r), m);
    lemma_mod_bound(pow(z, s), m);
    lemma_small_mod(x as nat, n);
    lemma_small_mod(y as nat, n);
    assert forall|d: int, k: nat| 1 < d && divides(d, n) && 0 < k < r * s implies
        !#[trigger] is_power_one(z, k, d) by {
        if is_power_one(z, k, d) {
            lemma_one_modulo_divisor(pow(z, r * s), m, d);
            lemma_small_mod(1, d as nat);
            if k % r != 0 {
                lemma_pow_multiplies(z, s, r);
                lemma_pow_multiplies(z, s, k);
                lemma_pow_multiplies(z, k, s);
                lemma_power_of_one(pow(z, k), s, d);
                assert(s * r == r * s && s * k == k * s) by (nonlinear_arith);
                lemma_unit_power(d, r, pow(z, s), k);
                lemma_congruent_modulo_divisor(pow(z, s), y, m, d);
                lemma_mod_equivalence(y, 1, d);
                lemma_invertible_modulo_divisor(v as int, y - 1, m, d);
            } else if k % s != 0 {
                lemma_pow_multiplies(z, r, s);
                lemma_pow_multiplies(z, r, k);
                lemma_pow_multiplies(z, k, r);
                lemma_power_of_one(pow(z, k), r, d);
                assert(r * k == k * r) by (nonlinear_arith);
                lemma_unit_power(d, s, pow(z, r), k);
                lemma_congruent_modulo_divisor(pow(z, r), x, m, d);
                lemma_mod_equivalence(x, 1, d);
                lemma_invertible_modulo_divisor(u as int, x - 1, m, d);
            } else {
                let a = k / r;
                lemma_fundamental_div_mod(k as int, r as int);
                lemma_product_zero(s, r as int, a as int);
                let b = a / s;
                lemma_fundamental_div_mod(a as int, s as int);
                assert(k >= r * s) by (nonlinear_arith)
                    requires
                        k == r * a,
                        a == s * b,
                        k > 0,
                ;
            }
        }
    }
    assert(r * s > 0) by (nonlinear_arith)
        requires
            r > 0,
            s > 0,
    ;
    lemma_large_order(n, r * s, z);
}

/// No number from `d` to `b` divides `n`.
spec fn undivided(n: nat, d: nat, b: nat) -> bool
    decreases b + 1 - d,
{
    d > b || (n % d != 0 && undivided(n, d + 1, b))
}

proof fn lemma_undivided(n: nat, d: nat, b: nat, k: nat)
    requires
        undivided(n, d, b),
        d <= k <= b,
    ensures
        n % k != 0,
    decreases k - d,
{
    if d < k {
        lemma_undivided(n, d + 1, b, k);
    }
}

/// A number that nothing up to its root divides is prime.
proof fn lemma_trial_division(n: nat, b: nat)
    requires
        n > 1,
        b * b > n,
        undivided(n, 2, b),
    ensures
        is_field(n),
{
    let m = n as int;
    assert forall|d: int| 1 < d < n implies !#[trigger] divides(d, n) by {
        if divides(d, n) {
            let e = m / d;
            lemma_fundamental_div_mod(m, d);
            assert(1 < e && m == e * d) by (nonlinear_arith)
                requires
                    m == d * e,
                    1 < d < m,
            ;
            lemma_mod_multiples_vanish(d, 0, e);
            lemma_small_mod(0, e as nat);
            if d <= b {
                lemma_undivided(n, 2, b, d as nat);
            } else if e <= b {
                lemma_undivided(n, 2, b, e as nat);
            } else {
                assert(d * e > b * b) by (nonlinear_arith)
                    requires
                        d > b,
                        e > b,
                ;
            }
        }
    }
    lemma_no_divisor(n);
}


/// The two largest prime factors of `1257559732178652`.
proof fn lemma_first_primes()
    ensures
        is_field(531581),
        is_field(1224481),
{
    assert(undivided(2551, 2, 51)) by (bit_vector);
    lemma_trial_division(2551, 51);
    assert(undivided(3797, 2, 62)) by (bit_vector);
    lemma_trial_division(3797, 62);
    assert(is_certificate(531581, 3797, 32301, 50673)) by (bit_vector);
    lemma_certified(531581, 3797, 32301, 50673);
    assert(is_certificate(1224481, 2551, 921659, 1100631)) by (bit_vector);
    lemma_certified(1224481, 2551, 921659, 1100631);
}

proof fn lemma_prime_16_digits()
    ensures
        is_field(1257559732178653nat),
{
    lemma_first_primes();
    assert(is_pair_certificate(
        1257559732178653nat,
        531581,
        1224481,
        896025394887893nat,
        790900187493841nat,
        212927577457398nat,
    )) by (bit_vector);
    lemma_certified_pair(
        1257559732178653nat,
        531581,
        1224481,
        896025394887893nat,
        790900187493841nat,
        212927577457398nat,
    );
}

proof fn lemma_prime_19_digits()
    ensures
        is_field(4434155615661930479nat),
{
    lemma_prime_16_digits();
    assert(is_certificate(
        4434155615661930479nat,
        1257559732178653nat,
        415787812636281767nat,
        1010501025739283171nat,
    )) by (bit_vector);
    lemma_certified(
        4434155615661930479nat,
        1257559732178653nat,
        415787812636281767nat,
        1010501025739283171nat,
    );
}

proof fn lemma_prime_27_digits()
    ensures
        is_field(172054593956031949258510691nat),
{
    lemma_prime_19_digits();
    assert(is_certificate(
        172054593956031949258510691nat,
        4434155615661930479nat,
        81982237619807054769897707nat,
        154275350521713489305385904nat,
    )) by (bit_vector);
    lemma_certified(
        172054593956031949258510691nat,
        4434155615661930479nat,
        81982237619807054769897707nat,
        154275350521713489305385904nat,
    );
}

proof fn lemma_prime_41_digits()
    ensures
        is_field(19757330305831588566944191468367130476339nat),
{
    lemma_prime_27_digits();
    assert(is_certificate(
        19757330305831588566944191468367130476339nat,
        172054593956031949258510691nat,
        9148758478138211201771971577098600188172nat,
        16371654433361644093796961727196399386194nat,
    )) by (bit_vector);
    lemma_certified(
        19757330305831588566944191468367130476339nat,
        172054593956031949258510691nat,
        9148758478138211201771971577098600188172nat,
        16371654433361644093796961727196399386194nat,
    );
}

proof fn lemma_prime_42_digits()
    ensures
        is_field(276602624281642239937218680557139826668747nat),
{
    lemma_prime_41_digits();
    assert(is_certificate(
        276602624281642239937218680557139826668747nat,
        19757330305831588566944191468367130476339nat,
        16384,
        94074944912245044309966580483695483989395nat,
    )) by (bit_vector);
    lemma_certified(
        276602624281642239937218680557139826668747nat,
        19757330305831588566944191468367130476339nat,
        16384,
        94074944912245044309966580483695483989395nat,
    );
}

/// The group order is prime.
pub proof fn lemma_order_is_prime()
    ensures
        is_field(order()),
{
    lemma_prime_42_digits();
    assert(is_certificate(
        7237005577332262213973186563042994240857116359379907606001950938285454250989nat,
        276602624281642239937218680557139826668747nat,
        2975531125133123119648879457563281269120703404158613135195788908093573672641nat,
        2233364593245673852815932892735013076939656528578070433728021143254617821614nat,
    )) by (bit_vector);
    lemma_certified(
        7237005577332262213973186563042994240857116359379907606001950938285454250989nat,
        276602624281642239937218680557139826668747nat,
        2975531125133123119648879457563281269120703404158613135195788908093573672641nat,
        2233364593245673852815932892735013076939656528578070433728021143254617821614nat,
    );
    reveal(order);
}

} // verus!
