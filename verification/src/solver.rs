//! The baby-step giant-step search: given `g`, `h`, `p` and a bound
//! `2^x_max_exp` on the answer, find `x` with `g^x ≡ h (mod p)`.
//!
//! With `B = 2^(x_max_exp / 2)`, any `x < B*B` splits as `x = x0*B + x1`
//! with `x0, x1 < B`, and `g^x ≡ h` rearranges to `(g^B)^x0 ≡ h * g^(-x1)`.
//! The right-hand sides go into a table (the baby steps); the left-hand
//! sides are scanned against it (the giant steps). Both passes advance by a
//! single modular multiplication per step instead of a fresh
//! exponentiation.

use crate::arith::{coprime, lemma_pow_shift};
use crate::bigint::{big_clone, big_from_u64, big_lt, big_mul, big_value};
use crate::modular::{inverse, normalize, powm};
use crate::table::{table_entries, table_get, table_insert, table_new};
use crate::DlogError;
use num_bigint::BigInt;
use vstd::arithmetic::div_mod::{
    lemma_div_pos_is_pos, lemma_fundamental_div_mod, lemma_fundamental_div_mod_converse,
    lemma_mod_bound, lemma_mul_mod_noop_general, lemma_multiply_divide_lt,
};
use vstd::arithmetic::power::{lemma_pow0, lemma_pow1, lemma_pow_adds, pow};
use vstd::arithmetic::power2::{
    lemma2_to64, lemma_pow2_adds, lemma_pow2_pos, lemma_pow2_strictly_increases, pow2,
};
use vstd::bits::{lemma_u64_pow2_no_overflow, lemma_u64_shl_is_mul};
use vstd::prelude::*;

verus! {

/// What the baby-step table holds at index `j`: `h * gi^j mod p`.
pub open spec fn baby_val(h: int, gi: int, p: int, j: nat) -> int {
    (h * pow(gi, j)) % p
}

/// What the giant-step scan holds at index `i`: `g^(steps * i) mod p`.
pub open spec fn giant_val(g: int, p: int, steps: nat, i: nat) -> int {
    pow(g, steps * i) % p
}

/// One baby step: multiplying by the inverse advances the index by one.
proof fn lemma_baby_step(h: int, gi: int, p: int, j: nat)
    requires
        p > 0,
    ensures
        (baby_val(h, gi, p, j) * gi) % p == baby_val(h, gi, p, (j + 1) as nat),
{
    lemma_mul_mod_noop_general(h * pow(gi, j), gi, p);
    lemma_pow_adds(gi, j, 1);
    lemma_pow1(gi);
    assert((h * pow(gi, j)) * gi == h * pow(gi, (j + 1) as nat)) by (nonlinear_arith)
        requires
            pow(gi, (j + 1) as nat) == pow(gi, j) * pow(gi, 1),
            pow(gi, 1) == gi,
    ;
}

/// One giant step: multiplying by `g^steps mod p` advances the index by one.
proof fn lemma_giant_step(g: int, p: int, steps: nat, i: nat)
    requires
        p > 0,
    ensures
        (giant_val(g, p, steps, i) * (pow(g, steps) % p)) % p == giant_val(
            g,
            p,
            steps,
            (i + 1) as nat,
        ),
{
    lemma_mul_mod_noop_general(pow(g, steps * i), pow(g, steps), p);
    lemma_pow_adds(g, steps * i, steps);
    assert(steps * i + steps == steps * (i + 1)) by (nonlinear_arith);
}

/// The exponent `a + b` solves `g^x ≡ h (mod p)` exactly when the value
/// `g^a mod p` meets the baby value `h * gi^b mod p`.
proof fn lemma_bsgs_split(g: int, gi: int, h: int, p: int, a: nat, b: nat)
    requires
        p > 0,
        (g * gi) % p == 1int % p,
    ensures
        (pow(g, a + b) % p == h % p) <==> (pow(g, a) % p == baby_val(h, gi, p, b)),
{
    lemma_pow_adds(g, a, b);
    lemma_pow_shift(pow(g, a), h, g, gi, b, p);
}

/// When the table holds every baby value and the first `n0` giant values
/// all missed it, no exponent below `n0 * bn` solves the congruence: such
/// an exponent splits as `i*bn + j` with `i < n0`, and a solution would
/// put `giant_val(i)` into the table as `baby_val(j)`.
proof fn lemma_misses_mean_no_solution(
    t: Map<int, int>,
    g: int,
    gi: int,
    h: int,
    p: int,
    bn: nat,
    n0: nat,
)
    requires
        p > 0,
        bn > 0,
        (g * gi) % p == 1int % p,
        forall|j: nat| j < bn ==> #[trigger] t.dom().contains(baby_val(h, gi, p, j)),
        forall|i: nat| i < n0 ==> !(#[trigger] t.dom().contains(giant_val(g, p, bn, i))),
    ensures
        forall|y: nat| y < n0 * bn ==> #[trigger] (pow(g, y) % p) != h % p,
{
    assert forall|y: nat| y < n0 * bn implies #[trigger] (pow(g, y) % p) != h % p by {
        let yi = (y as int) / (bn as int);
        let yj = (y as int) % (bn as int);
        lemma_fundamental_div_mod(y as int, bn as int);
        lemma_mod_bound(y as int, bn as int);
        lemma_div_pos_is_pos(y as int, bn as int);
        assert((y as int) < (bn as int) * (n0 as int)) by (nonlinear_arith)
            requires
                (y as int) < (n0 as int) * (bn as int),
        ;
        lemma_multiply_divide_lt(y as int, bn as int, n0 as int);
        lemma_bsgs_split(g, gi, h, p, bn * (yi as nat), yj as nat);
        assert(bn * (yi as nat) + (yj as nat) == y) by (nonlinear_arith)
            requires
                y as int == (bn as int) * yi + yj,
                yi >= 0,
                yj >= 0,
        ;
        if pow(g, y) % p == h % p {
            assert(t.dom().contains(baby_val(h, gi, p, yj as nat)));
            assert(!t.dom().contains(giant_val(g, p, bn, yi as nat)));
            assert(false);
        }
    }
}

/// The squared step count covers no more than the claimed range: with
/// `B = 2^(x_max_exp / 2)`, `B*B <= 2^x_max_exp`. So when every solution
/// of `g^x ≡ h (mod p)` lies at or above `2^x_max_exp`, none lies below
/// `B*B`, and by its contract `discrete_log` then reports
/// `SearchExhausted` rather than returning any value.
pub proof fn lemma_out_of_range_exhausts(g: int, h: int, p: int, x_max_exp: nat)
    requires
        p > 0,
        forall|x: nat| x < pow2(x_max_exp) ==> #[trigger] (pow(g, x) % p) != h % p,
    ensures
        forall|x: nat|
            x < pow2((x_max_exp / 2) as nat) * pow2((x_max_exp / 2) as nat) ==> #[trigger] (pow(
                g,
                x,
            ) % p) != h % p,
{
    let half = x_max_exp / 2;
    lemma_pow2_adds(half, half);
    if half + half < x_max_exp {
        lemma_pow2_strictly_increases(half + half, x_max_exp);
    }
}

/// Find `x` with `g^x ≡ h (mod p)`, knowing `x < 2^x_max_exp`, by
/// baby-step giant-step over `B = 2^(x_max_exp / 2)` steps.
///
/// A zero or negative modulus is `InvalidModulus`; a `g` that shares a
/// divisor with `p` is `NotInvertible`. Otherwise the search succeeds
/// exactly when some exponent below `B*B` solves the congruence, returns
/// the least such giant index with its matching baby index, and reports
/// `SearchExhausted` — never a wrong value — when no exponent below `B*B`
/// is a solution. Of two baby steps with one residue the later one wins.
pub fn discrete_log(g: &BigInt, h: &BigInt, p: &BigInt, x_max_exp: usize) -> (r: Result<
    u64,
    DlogError,
>)
    requires
        x_max_exp <= 64,
    ensures
        big_value(*p) <= 0 <==> r == Err::<u64, DlogError>(DlogError::InvalidModulus),
        big_value(*p) > 0 ==> ((r == Err::<u64, DlogError>(DlogError::NotInvertible)) <==> !coprime(
            big_value(*g),
            big_value(*p),
        )),
        big_value(*p) > 0 && coprime(big_value(*g), big_value(*p)) ==> ((r is Ok) <==> exists|
            x: nat,
        |
            x < pow2((x_max_exp / 2) as nat) * pow2((x_max_exp / 2) as nat) && #[trigger] (pow(
                big_value(*g),
                x,
            ) % big_value(*p)) == big_value(*h) % big_value(*p)),
        big_value(*p) > 0 && coprime(big_value(*g), big_value(*p)) && !(r is Ok) ==> r
            == Err::<u64, DlogError>(DlogError::SearchExhausted),
        r matches Ok(x) ==> (x as nat) < pow2((x_max_exp / 2) as nat) * pow2(
            (x_max_exp / 2) as nat,
        ) && pow(big_value(*g), x as nat) % big_value(*p) == big_value(*h) % big_value(*p),
        r matches Ok(x) ==> forall|y: nat|
            y < ((x as nat) / pow2((x_max_exp / 2) as nat)) * pow2((x_max_exp / 2) as nat)
                ==> #[trigger] (pow(big_value(*g), y) % big_value(*p)) != big_value(*h)
                % big_value(*p),
{
    let zero = big_from_u64(0);
    if !big_lt(&zero, p) {
        return Err(DlogError::InvalidModulus);
    }
    let ghost gv: int = big_value(*g);
    let ghost hv: int = big_value(*h);
    let ghost pv: int = big_value(*p);

    let half: usize = x_max_exp / 2;
    proof {
        lemma_u64_pow2_no_overflow(half as nat);
        lemma_u64_shl_is_mul(1u64, half as u64);
        if half < 32 {
            lemma_pow2_strictly_increases(half as nat, 32);
        }
        lemma2_to64();
        lemma_pow2_pos(half as nat);
    }
    let b_steps: u64 = 1u64 << (half as u64);
    let ghost bn: nat = b_steps as nat;

    let g_inv = match inverse(big_clone(g), p) {
        Some(v) => v,
        None => {
            return Err(DlogError::NotInvertible);
        },
    };
    let ghost giv: int = big_value(g_inv);

    // Build the baby-step table: lhs runs through h * g^(-x1) mod p.
    let mut table = table_new(b_steps);
    let mut lhs = normalize(big_clone(h), p);
    proof {
        lemma_pow0(giv);
    }
    let mut x1: u64 = 0;
    while x1 < b_steps
        invariant
            pv > 0,
            pv == big_value(*p),
            x1 <= b_steps,
            (gv * giv) % pv == 1int % pv,
            giv == big_value(g_inv),
            0 <= giv < pv,
            big_value(lhs) == baby_val(hv, giv, pv, x1 as nat),
            forall|k: int| #[trigger]
                table_entries(table).dom().contains(k) ==> 0 <= table_entries(table)[k] < x1
                    as int && baby_val(hv, giv, pv, table_entries(table)[k] as nat) == k,
            forall|j: nat|
                j < x1 as nat ==> #[trigger] table_entries(table).dom().contains(
                    baby_val(hv, giv, pv, j),
                ),
        decreases b_steps - x1,
    {
        table_insert(&mut table, &lhs, x1);
        proof {
            lemma_baby_step(hv, giv, pv, x1 as nat);
            lemma_mod_bound(baby_val(hv, giv, pv, x1 as nat) * giv, pv);
        }
        lhs = normalize(big_mul(&lhs, &g_inv), p);
        x1 = x1 + 1;
    }

    // One exponentiation for the giant stride, then scan.
    let b_big = big_from_u64(b_steps);
    let g_b = match powm(g, &b_big, p) {
        Ok(v) => v,
        Err(e2) => {
            // Unreachable: the modulus is positive and the exponent is a
            // plain unsigned value, so powm's contract promises success.
            proof {
                assert(false);
            }
            return Err(e2);
        },
    };
    let ghost gbv: int = big_value(g_b);
    proof {
        assert(gbv == pow(gv, bn) % pv);
        lemma_mod_bound(pow(gv, bn), pv);
        lemma_pow2_pos((x_max_exp / 2) as nat);
        assert(bn == pow2((x_max_exp / 2) as nat));
        assert(bn <= 0x1_0000_0000);
    }
    let one = big_from_u64(1);
    let mut rhs = normalize(one, p);
    proof {
        assert(pow(gv, bn * 0) == 1) by {
            assert(bn * 0 == 0) by (nonlinear_arith);
            lemma_pow0(gv);
        }
    }
    let mut x0: u64 = 0;
    while x0 < b_steps
        invariant
            pv > 0,
            pv == big_value(*p),
            gv == big_value(*g),
            hv == big_value(*h),
            coprime(gv, pv),
            x0 <= b_steps,
            b_steps == bn,
            bn == pow2((x_max_exp / 2) as nat),
            1 <= bn <= 0x1_0000_0000,
            (gv * giv) % pv == 1int % pv,
            gbv == pow(gv, bn) % pv,
            gbv == big_value(g_b),
            0 <= gbv < pv,
            big_value(rhs) == giant_val(gv, pv, bn, x0 as nat),
            forall|k: int| #[trigger]
                table_entries(table).dom().contains(k) ==> 0 <= table_entries(table)[k] < bn
                    as int && baby_val(hv, giv, pv, table_entries(table)[k] as nat) == k,
            forall|j: nat|
                j < bn ==> #[trigger] table_entries(table).dom().contains(
                    baby_val(hv, giv, pv, j),
                ),
            forall|i: nat|
                i < x0 as nat ==> !(#[trigger] table_entries(table).dom().contains(
                    giant_val(gv, pv, bn, i),
                )),
        decreases b_steps - x0,
    {
        match table_get(&table, &rhs) {
            Some(hit) => {
                proof {
                    let xt: nat = (x0 as nat) * bn + (hit as nat);
                    lemma_bsgs_split(gv, giv, hv, pv, bn * (x0 as nat), hit as nat);
                    assert(bn * (x0 as nat) + (hit as nat) == xt) by (nonlinear_arith)
                        requires
                            xt == (x0 as nat) * bn + (hit as nat),
                    ;
                    assert(pow(gv, xt) % pv == hv % pv);
                    // The combined index stays below B*B, and fits in u64.
                    assert(xt < bn * bn) by (nonlinear_arith)
                        requires
                            (x0 as nat) < bn,
                            (hit as nat) < bn,
                            xt == (x0 as nat) * bn + (hit as nat),
                    ;
                    assert((x0 as nat) * bn + (hit as nat) < 0x1_0000_0000_0000_0000)
                        by (nonlinear_arith)
                        requires
                            (x0 as nat) < bn,
                            (hit as nat) < bn,
                            bn <= 0x1_0000_0000,
                    ;
                    // No smaller giant block holds a solution: every
                    // earlier scan value missed the table.
                    lemma_misses_mean_no_solution(
                        table_entries(table),
                        gv,
                        giv,
                        hv,
                        pv,
                        bn,
                        x0 as nat,
                    );
                    lemma_fundamental_div_mod_converse(xt as int, bn as int, x0 as int, hit as int);
                    assert((xt / bn) * bn == (x0 as nat) * bn);
                }
                return Ok(x0 * b_steps + hit);
            },
            None => {},
        }
        proof {
            lemma_giant_step(gv, pv, bn, x0 as nat);
            lemma_mod_bound(giant_val(gv, pv, bn, x0 as nat) * gbv, pv);
            lemma_mul_mod_noop_general(giant_val(gv, pv, bn, x0 as nat), pow(gv, bn), pv);
        }
        rhs = normalize(big_mul(&rhs, &g_b), p);
        x0 = x0 + 1;
    }

    // Both passes are over: no exponent below B*B solves the congruence,
    // for a hit would have been found at its giant index.
    proof {
        lemma_misses_mean_no_solution(table_entries(table), gv, giv, hv, pv, bn, bn);
        if exists|x: nat|
            x < pow2((x_max_exp / 2) as nat) * pow2((x_max_exp / 2) as nat) && #[trigger] (pow(
                gv,
                x,
            ) % pv) == hv % pv {
            let x = choose|x: nat|
                x < pow2((x_max_exp / 2) as nat) * pow2((x_max_exp / 2) as nat) && #[trigger] (
                pow(gv, x) % pv) == hv % pv;
            assert(x < bn * bn);
            assert(pow(gv, x) % pv != hv % pv);
            assert(false);
        }
    }
    Err(DlogError::SearchExhausted)
}

} // verus!
