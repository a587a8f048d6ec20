//! Number-theoretic vocabulary for the contracts: divisibility, coprimality,
//! truncating division, and the modular inverse as a mathematical value.

use vstd::prelude::*;
use vstd::arithmetic::div_mod::{
    lemma_fundamental_div_mod, lemma_fundamental_div_mod_converse, lemma_mod_bound,
    lemma_mod_multiples_vanish, lemma_mul_mod_noop_general, lemma_small_mod,
};
use vstd::arithmetic::mul::lemma_mul_is_commutative;
use vstd::arithmetic::power::{
    lemma1_pow, lemma_pow1, lemma_pow_adds, lemma_pow_distributes, lemma_pow_mod_noop,
    lemma_pow_multiplies, lemma_square_is_pow2, pow,
};
use vstd::math::abs;

verus! {

/// `d` divides `x`.
pub open spec fn divides(d: int, x: int) -> bool {
    exists|k: int| x == #[trigger] (k * d)
}

/// `a` and `b` have no common divisor but `1` and `-1`; stated through
/// Bezout's identity, to which it is equivalent: some integer combination
/// of `a` and `b` is `1`.
pub open spec fn coprime(a: int, b: int) -> bool {
    exists|u: int, v: int| #![trigger u * a, v * b] u * a + v * b == 1
}

/// The quotient of `a / b` rounded toward zero, as arbitrary-precision
/// division computes it. (The `/` of `int` rounds toward negative infinity.)
pub open spec fn trunc_div(a: int, b: int) -> int {
    if (a >= 0) == (b >= 0) {
        abs(a) as int / abs(b) as int
    } else {
        -(abs(a) as int / abs(b) as int)
    }
}

/// The remainder that truncating division leaves: `a - b * trunc_div(a, b)`.
/// It has the sign of `a` (or is zero), unlike `a % b` of `int`.
pub open spec fn trunc_rem(a: int, b: int) -> int {
    a - b * trunc_div(a, b)
}

/// The inverse of `a` modulo `n`: the unique `c` in `[0, n)` with
/// `a * c ≡ 1 (mod n)`. Meaningful only when `coprime(a, n)` and `n > 0`.
pub open spec fn inv_mod(a: int, n: int) -> int {
    choose|c: int| 0 <= c < n && #[trigger] ((a * c) % n) == 1int % n
}

/// What modular exponentiation denotes: `base^exp mod m` for `exp >= 0`,
/// and `(base^-1)^(-exp) mod m` for `exp < 0`, where `base^-1` is the
/// modular inverse. The negative-exponent branch is meaningful only when
/// `coprime(base, m)`.
pub open spec fn powm_spec(base: int, e: int, m: int) -> int {
    if e >= 0 {
        pow(base, e as nat) % m
    } else {
        pow(inv_mod(base, m), (-e) as nat) % m
    }
}

/// A divisor of two numbers divides any integer combination of them.
pub proof fn lemma_divides_linear(e: int, x: int, y: int, c: int)
    requires
        divides(e, x),
        divides(e, y),
    ensures
        divides(e, x + c * y),
{
    let kx = choose|k: int| x == #[trigger] (k * e);
    let ky = choose|k: int| y == #[trigger] (k * e);
    assert(x + c * y == (kx + c * ky) * e) by (nonlinear_arith)
        requires
            x == kx * e,
            y == ky * e,
    ;
}

/// Divisibility survives negation of the dividend.
pub proof fn lemma_divides_neg(e: int, x: int)
    requires
        divides(e, x),
    ensures
        divides(e, -x),
{
    let k = choose|j: int| x == #[trigger] (j * e);
    assert(-x == (-k) * e) by (nonlinear_arith)
        requires
            x == k * e,
    ;
}

/// Divisibility survives negation of the divisor.
pub proof fn lemma_divides_neg_divisor(e: int, x: int)
    requires
        divides(e, x),
    ensures
        divides(-e, x),
{
    let k = choose|j: int| x == #[trigger] (j * e);
    assert(x == (-k) * (-e)) by (nonlinear_arith)
        requires
            x == k * e,
    ;
}

/// Every number divides zero, and divides itself.
pub proof fn lemma_divides_basics(e: int)
    ensures
        divides(e, 0),
        divides(e, e),
{
    assert(0 == 0 * e) by (nonlinear_arith);
    assert(e == 1 * e) by (nonlinear_arith);
}

/// A nonnegative divisor of `1` is `1` itself.
pub proof fn lemma_divides_one_nonneg(e: int)
    requires
        divides(e, 1),
        e >= 0,
    ensures
        e == 1,
{
    let k = choose|j: int| 1 == #[trigger] (j * e);
    assert(e == 1) by (nonlinear_arith)
        requires
            1 == k * e,
            e >= 0,
    ;
}

/// The defining facts of truncating division: the division identity and
/// the remainder bound `|trunc_rem(a, b)| < |b|`.
pub proof fn lemma_trunc_div_facts(a: int, b: int)
    requires
        b != 0,
    ensures
        a == b * trunc_div(a, b) + trunc_rem(a, b),
        abs(trunc_rem(a, b)) < abs(b),
        a >= 0 ==> trunc_rem(a, b) >= 0,
        a < 0 ==> trunc_rem(a, b) <= 0,
{
    let aa = abs(a) as int;
    let ab = abs(b) as int;
    let q0 = aa / ab;
    let r0 = aa % ab;
    lemma_fundamental_div_mod(aa, ab);
    lemma_mod_bound(aa, ab);
    if a >= 0 && b > 0 {
        assert(trunc_rem(a, b) == r0) by (nonlinear_arith)
            requires
                aa == ab * q0 + r0,
                a == aa,
                b == ab,
                trunc_rem(a, b) == a - b * trunc_div(a, b),
                trunc_div(a, b) == q0,
        ;
    } else if a >= 0 && b < 0 {
        assert(trunc_rem(a, b) == r0) by (nonlinear_arith)
            requires
                aa == ab * q0 + r0,
                a == aa,
                b == -ab,
                trunc_rem(a, b) == a - b * trunc_div(a, b),
                trunc_div(a, b) == -q0,
        ;
    } else if a < 0 && b > 0 {
        assert(trunc_rem(a, b) == -r0) by (nonlinear_arith)
            requires
                aa == ab * q0 + r0,
                a == -aa,
                b == ab,
                trunc_rem(a, b) == a - b * trunc_div(a, b),
                trunc_div(a, b) == -q0,
        ;
    } else {
        assert(trunc_rem(a, b) == -r0) by (nonlinear_arith)
            requires
                aa == ab * q0 + r0,
                a == -aa,
                b == -ab,
                trunc_rem(a, b) == a - b * trunc_div(a, b),
                trunc_div(a, b) == q0,
        ;
    }
}

/// Congruent numbers differ by a multiple of the modulus.
pub proof fn lemma_mod_diff_divides(x: int, y: int, m: int)
    requires
        m > 0,
        x % m == y % m,
    ensures
        divides(m, x - y),
{
    lemma_fundamental_div_mod(x, m);
    lemma_fundamental_div_mod(y, m);
    let qx = x / m;
    let qy = y / m;
    assert(x - y == (qx - qy) * m) by (nonlinear_arith)
        requires
            x == m * qx + x % m,
            y == m * qy + y % m,
            x % m == y % m,
    ;
}

/// Multiplying both sides of a congruence by the same number keeps it.
pub proof fn lemma_mod_mul_congruent(x: int, y: int, z: int, m: int)
    requires
        m > 0,
        x % m == y % m,
    ensures
        (x * z) % m == (y * z) % m,
{
    lemma_mul_mod_noop_general(x, z, m);
    lemma_mul_mod_noop_general(y, z, m);
}

/// A factor congruent to one drops out of a product under the modulus.
pub proof fn lemma_mod_mul_one(x: int, u: int, m: int)
    requires
        m > 0,
        u % m == 1int % m,
    ensures
        (x * u) % m == x % m,
{
    lemma_mul_mod_noop_general(x, u, m);
    lemma_mul_mod_noop_general(x, 1, m);
}

/// A value in `[0, n)` whose product with `a` is congruent to one is *the*
/// inverse of `a` modulo `n`: such a value is unique, and its existence
/// shows `a` and `n` coprime.
pub proof fn lemma_inv_mod_props(a: int, n: int, c: int)
    requires
        n > 0,
        0 <= c < n,
        (a * c) % n == 1int % n,
    ensures
        coprime(a, n),
        inv_mod(a, n) == c,
{
    if n == 1 {
        assert(0 * a + 1 * n == 1);
        assert(coprime(a, n));
        assert(c == 0);
        assert((a * 0) % n == 1int % n) by (nonlinear_arith)
            requires
                n == 1,
        ;
        let c2 = inv_mod(a, n);
        assert(0 <= c2 < n && (a * c2) % n == 1int % n);
        assert(c2 == 0);
    } else {
        lemma_small_mod(1, n as nat);
        lemma_fundamental_div_mod(a * c, n);
        let q = (a * c) / n;
        assert(1 == c * a + (-q) * n) by (nonlinear_arith)
            requires
                a * c == n * q + (a * c) % n,
                (a * c) % n == 1,
        ;
        assert(coprime(a, n));
        let c2 = inv_mod(a, n);
        assert(0 <= c2 < n && (a * c2) % n == 1int % n);
        lemma_mod_diff_divides(a * c, a * c2, n);
        let k = choose|j: int| a * c - a * c2 == #[trigger] (j * n);
        let d = c - c2;
        let m2 = c * k - q * d;
        assert(d == m2 * n) by (nonlinear_arith)
            requires
                1 == c * a + (-q) * n,
                a * c - a * c2 == k * n,
                d == c - c2,
                m2 == c * k - q * d,
        ;
        assert(d == 0) by (nonlinear_arith)
            requires
                d == m2 * n,
                -n < d < n,
                n > 0,
        ;
    }
}

/// Adding a multiple of the modulus on the left leaves the remainder alone:
/// from the Bezout identity `1 == c1*a + c2*n`, the product `a * c1` is
/// congruent to one modulo `n`.
pub proof fn lemma_bezout_gives_congruence(a: int, n: int, c1: int, c2: int)
    requires
        n > 0,
        1 == c1 * a + c2 * n,
    ensures
        (a * c1) % n == 1int % n,
{
    assert(a * c1 == n * (-c2) + 1) by (nonlinear_arith)
        requires
            1 == c1 * a + c2 * n,
    ;
    lemma_mod_multiples_vanish(-c2, 1, n);
}

/// Coprimality to the modulus is a property of the residue class.
pub proof fn lemma_coprime_mod(a: int, m: int)
    requires
        m > 0,
    ensures
        coprime(a % m, m) <==> coprime(a, m),
{
    lemma_fundamental_div_mod(a, m);
    if coprime(a, m) {
        let (u, v) = choose|u: int, v: int| #![trigger u * a, v * m] u * a + v * m == 1;
        assert(u * (a % m) + (v + u * (a / m)) * m == 1) by (nonlinear_arith)
            requires
                u * a + v * m == 1,
                a == m * (a / m) + a % m,
        ;
    }
    if coprime(a % m, m) {
        let am = a % m;
        let (u, v) = choose|u: int, v: int| #![trigger u * am, v * m] u * am + v * m == 1;
        assert(u * a + (v - u * (a / m)) * m == 1) by (nonlinear_arith)
            requires
                u * am + v * m == 1,
                a == m * (a / m) + am,
        ;
    }
}

/// Splitting an exponent at its lowest bit: the square-and-multiply view.
pub proof fn lemma_pow_square_half(b: int, e: nat)
    requires
        e > 0,
    ensures
        e % 2 == 0 ==> pow(b, e) == pow(b * b, e / 2),
        e % 2 == 1 ==> pow(b, e) == b * pow(b * b, e / 2),
{
    let h = e / 2;
    lemma_pow_multiplies(b, 2, h);
    lemma_square_is_pow2(b);
    if e % 2 == 0 {
        assert(e == 2 * h);
    } else {
        assert(e == 2 * h + 1);
        lemma_pow_adds(b, (2 * h) as nat, 1);
        lemma_pow1(b);
        assert(pow(b, 2 * h) * b == b * pow(b * b, h)) by (nonlinear_arith)
            requires
                pow(b, 2 * h) == pow(b * b, h),
        ;
    }
}

/// One step of square-and-multiply keeps the accumulated congruence: if
/// `r * b^e ≡ t (mod m)`, the same holds after the exponent is halved, the
/// base squared and reduced, and — on an odd exponent — the accumulator
/// multiplied by the base and reduced.
pub proof fn lemma_pow_step(m: int, rv: int, bv: int, e: nat, t: int)
    requires
        m > 0,
        e > 0,
        (rv * pow(bv, e)) % m == t % m,
    ensures
        e % 2 == 1 ==> (((rv * bv) % m) * pow((bv * bv) % m, e / 2)) % m == t % m,
        e % 2 == 0 ==> (rv * pow((bv * bv) % m, e / 2)) % m == t % m,
{
    let h = e / 2;
    lemma_pow_square_half(bv, e);
    lemma_pow_mod_noop(bv * bv, h, m);
    if e % 2 == 1 {
        lemma_mul_mod_noop_general(rv * bv, pow((bv * bv) % m, h), m);
        lemma_mul_mod_noop_general(rv * bv, pow(bv * bv, h), m);
        assert((rv * bv) * pow(bv * bv, h) == rv * pow(bv, e)) by (nonlinear_arith)
            requires
                pow(bv, e) == bv * pow(bv * bv, h),
        ;
    } else {
        lemma_mul_mod_noop_general(rv, pow((bv * bv) % m, h), m);
        lemma_mul_mod_noop_general(rv, pow(bv * bv, h), m);
    }
}

/// Matching powers of a number and of its modular inverse multiply to a
/// unit: if `g * gi ≡ 1 (mod m)` then `g^e * gi^e ≡ 1 (mod m)`.
pub proof fn lemma_pow_mul_unit(g: int, gi: int, e: nat, m: int)
    requires
        m > 0,
        (g * gi) % m == 1int % m,
    ensures
        (pow(g, e) * pow(gi, e)) % m == 1int % m,
{
    lemma_pow_distributes(g, gi, e);
    lemma_pow_mod_noop(g * gi, e, m);
    lemma_pow_mod_noop(1, e, m);
    lemma1_pow(e);
}

/// Multiplying by `g^e` and by `gi^e` are inverse moves on congruence
/// classes: `x * g^e ≡ y (mod m)` exactly when `x ≡ y * gi^e (mod m)`.
pub proof fn lemma_pow_shift(x: int, y: int, g: int, gi: int, e: nat, m: int)
    requires
        m > 0,
        (g * gi) % m == 1int % m,
    ensures
        ((x * pow(g, e)) % m == y % m) <==> (x % m == (y * pow(gi, e)) % m),
{
    lemma_pow_mul_unit(g, gi, e, m);
    let pg = pow(g, e);
    let pgi = pow(gi, e);
    if (x * pg) % m == y % m {
        lemma_mod_mul_congruent(x * pg, y, pgi, m);
        assert((x * pg) * pgi == x * (pg * pgi)) by (nonlinear_arith);
        lemma_mod_mul_one(x, pg * pgi, m);
    }
    if x % m == (y * pgi) % m {
        lemma_mod_mul_congruent(x, y * pgi, pg, m);
        assert((y * pgi) * pg == y * (pg * pgi)) by (nonlinear_arith);
        lemma_mod_mul_one(y, pg * pgi, m);
    }
}

/// For a positive modulus the truncating remainder differs from the
/// mathematical `a % b` at most by one correcting addition of `b`.
pub proof fn lemma_trunc_rem_vs_mod(a: int, b: int)
    requires
        b > 0,
    ensures
        trunc_rem(a, b) >= 0 ==> trunc_rem(a, b) == a % b,
        trunc_rem(a, b) < 0 ==> trunc_rem(a, b) + b == a % b,
{
    lemma_trunc_div_facts(a, b);
    let q = trunc_div(a, b);
    let r = trunc_rem(a, b);
    if r >= 0 {
        lemma_mul_is_commutative(b, q);
        lemma_fundamental_div_mod_converse(a, b, q, r);
    } else {
        assert(a == (q - 1) * b + (r + b)) by (nonlinear_arith)
            requires
                a == b * q + r,
        ;
        lemma_mul_is_commutative(b, q - 1);
        lemma_fundamental_div_mod_converse(a, b, q - 1, r + b);
    }
}

} // verus!
