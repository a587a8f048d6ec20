//! Modular arithmetic over the arbitrary-precision backend: normalization
//! into `[0, n)`, the extended Euclidean algorithm with Bezout coefficients,
//! the modular inverse, and modular exponentiation.

use crate::arith::{
    coprime, divides, inv_mod, lemma_bezout_gives_congruence, lemma_coprime_mod,
    lemma_divides_basics, lemma_divides_linear, lemma_divides_neg, lemma_divides_neg_divisor,
    lemma_divides_one_nonneg, lemma_inv_mod_props, lemma_pow_step, lemma_trunc_div_facts,
    lemma_trunc_rem_vs_mod, powm_spec, trunc_rem,
};
use crate::DlogError;
use crate::bigint::{
    big_add, big_clone, big_div, big_eq, big_from_u64, big_lt, big_mul, big_rem, big_sub,
    big_value,
};
use num_bigint::BigInt;
use vstd::arithmetic::div_mod::{
    lemma_mod_bound, lemma_mul_mod_noop_general, lemma_small_mod,
};
use vstd::arithmetic::power::{lemma_pow0, lemma_pow_mod_noop, pow};
use vstd::arithmetic::mul::lemma_mul_is_commutative;
use vstd::math::abs;
use vstd::prelude::*;

verus! {

/// The standard representative of `a` modulo `n`: the unique value in
/// `[0, n)` congruent to `a`, which is `a % n` of the mathematical integers.
pub fn normalize(a: BigInt, n: &BigInt) -> (r: BigInt)
    requires
        big_value(*n) > 0,
    ensures
        big_value(r) == big_value(a) % big_value(*n),
{
    proof {
        lemma_trunc_rem_vs_mod(big_value(a), big_value(*n));
    }
    let x = big_rem(&a, n);
    let zero = big_from_u64(0);
    if big_lt(&x, &zero) {
        big_add(&x, n)
    } else {
        x
    }
}

/// The inverse of `a` modulo `n`: `Some` exactly when `a` and `n` are
/// coprime, and then the unique value `c` in `[0, n)` with
/// `a * c ≡ 1 (mod n)`. `None` signals that no inverse exists.
pub fn inverse(a: BigInt, n: &BigInt) -> (r: Option<BigInt>)
    requires
        big_value(*n) > 0,
    ensures
        r is Some <==> coprime(big_value(a), big_value(*n)),
        r is Some ==> 0 <= big_value(r->0) < big_value(*n),
        r is Some ==> (big_value(a) * big_value(r->0)) % big_value(*n) == 1int % big_value(*n),
        r is Some ==> big_value(r->0) == inv_mod(big_value(a), big_value(*n)),
{
    let ghost av: int = big_value(a);
    let ghost nv: int = big_value(*n);
    let res = extended_gcd(a, big_clone(n));
    let ghost c1v: int = big_value(res.c1);
    let ghost c2v: int = big_value(res.c2);
    let one = big_from_u64(1);
    if big_eq(&res.gcd, &one) {
        let c = normalize(res.c1, n);
        proof {
            lemma_bezout_gives_congruence(av, nv, c1v, c2v);
            lemma_mul_mod_noop_general(av, c1v, nv);
            lemma_mod_bound(c1v, nv);
            lemma_inv_mod_props(av, nv, c1v % nv);
        }
        Some(c)
    } else {
        None
    }
}

/// What the extended Euclidean algorithm returns on `(a, b)`: the greatest
/// common divisor, never negative, and Bezout coefficients with
/// `gcd == c1*a + c2*b`.
pub struct GcdResult {
    /// Greatest common divisor.
    pub gcd: BigInt,
    /// Coefficient of `a` in the Bezout identity.
    pub c1: BigInt,
    /// Coefficient of `b` in the Bezout identity.
    pub c2: BigInt,
}

/// The iterative extended Euclidean algorithm: remainder and coefficient
/// pairs shrink together until the remainder reaches zero. The result is the
/// greatest common divisor in the full sense: it divides both inputs, every
/// common divisor divides it, it is not negative, and the coefficients
/// witness it as an integer combination of the inputs. `gcd(0, 0)` is `0`.
pub fn extended_gcd(a: BigInt, b: BigInt) -> (res: GcdResult)
    ensures
        big_value(res.gcd) >= 0,
        big_value(res.gcd) == big_value(res.c1) * big_value(a) + big_value(res.c2) * big_value(
            b,
        ),
        divides(big_value(res.gcd), big_value(a)),
        divides(big_value(res.gcd), big_value(b)),
        forall|e: int|
            #![trigger divides(e, big_value(a)), divides(e, big_value(b))]
            divides(e, big_value(a)) && divides(e, big_value(b)) ==> divides(
                e,
                big_value(res.gcd),
            ),
        big_value(res.gcd) == 1 <==> coprime(big_value(a), big_value(b)),
{
    let ghost av: int = big_value(a);
    let ghost bv: int = big_value(b);
    let zero = big_from_u64(0);
    let mut s = big_from_u64(0);
    let mut old_s = big_from_u64(1);
    let mut t = big_from_u64(1);
    let mut old_t = big_from_u64(0);
    let mut r = b;
    let mut old_r = a;

    while !big_eq(&r, &zero)
        invariant
            big_value(zero) == 0,
            big_value(old_r) == big_value(old_s) * av + big_value(old_t) * bv,
            big_value(r) == big_value(s) * av + big_value(t) * bv,
            forall|e: int|
                #![trigger divides(e, big_value(old_r)), divides(e, big_value(r))]
                #![trigger divides(e, av), divides(e, bv)]
                (divides(e, big_value(old_r)) && divides(e, big_value(r))) <==> (divides(e, av)
                    && divides(e, bv)),
        decreases abs(big_value(r)),
    {
        let quotient = big_div(&old_r, &r);
        let prod_r = big_mul(&quotient, &r);
        let new_r = big_sub(&old_r, &prod_r);
        let prod_s = big_mul(&quotient, &s);
        let new_s = big_sub(&old_s, &prod_s);
        let prod_t = big_mul(&quotient, &t);
        let new_t = big_sub(&old_t, &prod_t);
        proof {
            let orv = big_value(old_r);
            let rv = big_value(r);
            let qv = big_value(quotient);
            let nrv = big_value(new_r);
            // The new remainder is what truncating division leaves, so it
            // shrinks in magnitude below `r`.
            lemma_mul_is_commutative(qv, rv);
            lemma_trunc_div_facts(orv, rv);
            assert(nrv == trunc_rem(orv, rv));
            // The Bezout combinations carry over to the new pair.
            assert(nrv == big_value(new_s) * av + big_value(new_t) * bv) by (nonlinear_arith)
                requires
                    orv == big_value(old_s) * av + big_value(old_t) * bv,
                    rv == big_value(s) * av + big_value(t) * bv,
                    nrv == orv - qv * rv,
                    big_value(new_s) == big_value(old_s) - qv * big_value(s),
                    big_value(new_t) == big_value(old_t) - qv * big_value(t),
            ;
            // The pair (r, old_r - q*r) has the same common divisors as
            // (old_r, r).
            assert forall|e: int|
                #![trigger divides(e, rv), divides(e, nrv)]
                (divides(e, rv) && divides(e, nrv)) <==> (divides(e, orv) && divides(
                    e,
                    rv,
                )) by {
                if divides(e, rv) && divides(e, nrv) {
                    lemma_divides_linear(e, nrv, rv, qv);
                    assert(nrv + qv * rv == orv);
                }
                if divides(e, orv) && divides(e, rv) {
                    lemma_divides_linear(e, orv, rv, -qv);
                    assert(orv + (-qv) * rv == nrv) by (nonlinear_arith)
                        requires
                            nrv == orv - qv * rv,
                    ;
                }
            }
        }
        old_r = r;
        r = new_r;
        old_s = s;
        s = new_s;
        old_t = t;
        t = new_t;
    }
    proof {
        // With the remainder at zero, `old_r` is a common divisor of the
        // inputs, and every common divisor divides it.
        lemma_divides_basics(big_value(old_r));
        assert(divides(big_value(old_r), av) && divides(big_value(old_r), bv));
    }
    let negative = big_lt(&old_r, &zero);
    let (g, cc1, cc2) = if negative {
        let ng = big_sub(&zero, &old_r);
        let nc1 = big_sub(&zero, &old_s);
        let nc2 = big_sub(&zero, &old_t);
        proof {
            assert(big_value(ng) == big_value(nc1) * av + big_value(nc2) * bv)
                by (nonlinear_arith)
                requires
                    big_value(old_r) == big_value(old_s) * av + big_value(old_t) * bv,
                    big_value(ng) == -big_value(old_r),
                    big_value(nc1) == -big_value(old_s),
                    big_value(nc2) == -big_value(old_t),
            ;
            lemma_divides_neg_divisor(big_value(old_r), av);
            lemma_divides_neg_divisor(big_value(old_r), bv);
            assert forall|e: int|
                #![trigger divides(e, av), divides(e, bv)]
                divides(e, av) && divides(e, bv) implies divides(e, big_value(ng)) by {
                lemma_divides_basics(e);
                lemma_divides_neg(e, big_value(old_r));
            }
        }
        (ng, nc1, nc2)
    } else {
        proof {
            assert forall|e: int|
                #![trigger divides(e, av), divides(e, bv)]
                divides(e, av) && divides(e, bv) implies divides(e, big_value(old_r)) by {
                lemma_divides_basics(e);
            }
        }
        (old_r, old_s, old_t)
    };
    proof {
        let gv = big_value(g);
        let c1v = big_value(cc1);
        let c2v = big_value(cc2);
        if gv == 1 {
            assert(c1v * av + c2v * bv == 1);
            assert(coprime(av, bv));
        }
        if coprime(av, bv) {
            let (u, v) = choose|u: int, v: int|
                #![trigger u * av, v * bv]
                u * av + v * bv == 1;
            lemma_divides_basics(gv);
            lemma_divides_linear(gv, 0, av, u);
            lemma_divides_linear(gv, u * av, bv, v);
            assert(divides(gv, u * av + v * bv));
            assert(divides(gv, 1));
            lemma_divides_one_nonneg(gv);
        }
    }
    GcdResult { gcd: g, c1: cc1, c2: cc2 }
}

/// Binary (square-and-multiply) modular exponentiation, `base^exp mod
/// modulus`, for exponents of either sign. A zero or negative modulus is
/// rejected as `InvalidModulus`. A negative exponent asks for the inverse of
/// the base, so it succeeds exactly when base and modulus are coprime and
/// fails with `NotInvertible` otherwise.
pub fn powm(base: &BigInt, exp: &BigInt, modulus: &BigInt) -> (r: Result<BigInt, DlogError>)
    ensures
        big_value(*modulus) <= 0 <==> r == Err::<BigInt, DlogError>(DlogError::InvalidModulus),
        big_value(*modulus) > 0 && big_value(*exp) >= 0 ==> r is Ok,
        big_value(*modulus) > 0 && big_value(*exp) < 0 ==> (r is Ok <==> coprime(
            big_value(*base),
            big_value(*modulus),
        )),
        big_value(*modulus) > 0 && !(r is Ok) ==> r == Err::<BigInt, DlogError>(DlogError::NotInvertible),
        r matches Ok(v) ==> big_value(v) == powm_spec(
            big_value(*base),
            big_value(*exp),
            big_value(*modulus),
        ),
{
    let zero = big_from_u64(0);
    let one = big_from_u64(1);
    if !big_lt(&zero, modulus) {
        return Err(DlogError::InvalidModulus);
    }
    let ghost mv: int = big_value(*modulus);
    let ghost bv0: int = big_value(*base);
    let ghost ev0: int = big_value(*exp);
    let two = big_add(&one, &one);
    let mut e = big_clone(exp);
    let mut b = normalize(big_clone(base), modulus);
    proof {
        lemma_mod_bound(bv0, mv);
        lemma_coprime_mod(bv0, mv);
    }
    if big_lt(&e, &zero) {
        e = big_sub(&zero, &e);
        match inverse(b, modulus) {
            Some(v) => {
                proof {
                    // The inverse of the residue inverts the raw base too.
                    lemma_mul_mod_noop_general(bv0, big_value(v), mv);
                    lemma_inv_mod_props(bv0, mv, big_value(v));
                }
                b = v;
            },
            None => {
                return Err(DlogError::NotInvertible);
            },
        }
    }
    let ghost ebv: int = big_value(b);
    let ghost eav: nat = big_value(e) as nat;
    let mut result = normalize(big_clone(&one), modulus);
    proof {
        lemma_mod_bound(1, mv);
        lemma_pow0(ebv);
        lemma_mul_mod_noop_general(1, pow(ebv, eav), mv);
    }
    while big_lt(&zero, &e)
        invariant
            big_value(zero) == 0,
            big_value(one) == 1,
            big_value(two) == 2,
            mv == big_value(*modulus),
            mv > 0,
            big_value(e) >= 0,
            0 <= big_value(result) < mv,
            0 <= big_value(b) < mv,
            (big_value(result) * pow(big_value(b), big_value(e) as nat)) % mv == pow(ebv, eav)
                % mv,
        decreases big_value(e),
    {
        let ghost rv_old: int = big_value(result);
        let ghost bv_old: int = big_value(b);
        let ghost ev_old: int = big_value(e);
        proof {
            lemma_trunc_div_facts(ev_old, 2);
            lemma_trunc_rem_vs_mod(ev_old, 2);
            lemma_pow_step(mv, rv_old, bv_old, ev_old as nat, pow(ebv, eav));
        }
        let rem = big_rem(&e, &two);
        if big_eq(&rem, &one) {
            result = normalize(big_mul(&result, &b), modulus);
        }
        e = big_div(&e, &two);
        b = normalize(big_mul(&b, &b), modulus);
        proof {
            lemma_mod_bound(rv_old * bv_old, mv);
            lemma_mod_bound(bv_old * bv_old, mv);
        }
    }
    proof {
        lemma_pow0(big_value(b));
        lemma_small_mod(big_value(result) as nat, mv as nat);
        assert(big_value(result) == pow(ebv, eav) % mv) by {
            lemma_mul_mod_noop_general(big_value(result), 1, mv);
        }
        if ev0 >= 0 {
            lemma_pow_mod_noop(bv0, eav, mv);
        }
    }
    Ok(result)
}

/// Raising to a negative exponent is raising the modular inverse to the
/// positive one: whenever `base` is invertible modulo `m`, the value of
/// `powm(base, -e, m)` equals the value of `powm(c, e, m)` for the inverse
/// `c` that `inverse(base, m)` returns.
pub proof fn lemma_powm_negative_exponent(base: int, e: int, m: int)
    requires
        m > 0,
        e >= 0,
        coprime(base, m),
    ensures
        powm_spec(base, -e, m) == powm_spec(inv_mod(base, m), e, m),
{
    if e == 0 {
        lemma_pow0(base);
        lemma_pow0(inv_mod(base, m));
    }
}

} // verus!
