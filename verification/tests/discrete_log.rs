use bsgs::modular::powm;
use bsgs::solver::discrete_log;
use bsgs::DlogError;
use num_bigint::BigInt;
use num_traits::Num;

#[test]
fn test_discrete_log_num_bigint() {
    let g = BigInt::from(2);
    let p = BigInt::from(11);
    for h in 1..11 {
        let h = BigInt::from(h);
        let x = discrete_log(&g, &h, &p, 10).unwrap();
        assert_eq!(num_traits::pow(g.clone(), x as usize) % &p, h);
    }
}

#[test]
fn discrete_log_round_trips_through_powm() {
    let g = BigInt::from(2);
    let p = BigInt::from(11);
    for h in 1..11 {
        let h = BigInt::from(h);
        let x = discrete_log(&g, &h, &p, 10).unwrap();
        assert_eq!(powm(&g, &BigInt::from(x), &p).unwrap(), &h % &p);
    }
}

#[test]
fn discrete_log_exhausts_when_bound_is_too_small() {
    // The smallest solution of 2^x = 5 (mod 11) is x = 4, at the very edge
    // of the searched range 2^2 = 4.
    let r = discrete_log(&BigInt::from(2), &BigInt::from(5), &BigInt::from(11), 2);
    assert_eq!(r, Err(DlogError::SearchExhausted));
}

#[test]
fn discrete_log_keeps_last_duplicate_baby_step() {
    // 3 has order 5 modulo 11, and with x_max_exp = 6 the table takes
    // 2^3 = 8 baby steps, so each residue is written twice. The residue for
    // h = 3 appears at indices 1 and 6; the later write wins, and the very
    // first giant step meets it, so the answer is 6 (also a valid exponent:
    // 3^6 = 729 ≡ 3 mod 11).
    let r = discrete_log(&BigInt::from(3), &BigInt::from(3), &BigInt::from(11), 6);
    assert_eq!(r, Ok(6));
    assert_eq!(powm(&BigInt::from(3), &BigInt::from(6), &BigInt::from(11)).unwrap(), BigInt::from(3));
}

#[test]
fn discrete_log_rejects_bad_modulus() {
    let r = discrete_log(&BigInt::from(2), &BigInt::from(1), &BigInt::from(0), 4);
    assert_eq!(r, Err(DlogError::InvalidModulus));
    let r = discrete_log(&BigInt::from(2), &BigInt::from(1), &BigInt::from(-7), 4);
    assert_eq!(r, Err(DlogError::InvalidModulus));
}

#[test]
fn discrete_log_rejects_non_invertible_generator() {
    let r = discrete_log(&BigInt::from(2), &BigInt::from(3), &BigInt::from(8), 4);
    assert_eq!(r, Err(DlogError::NotInvertible));
}

#[test]
fn discrete_log_finds_zero_exponent() {
    let r = discrete_log(&BigInt::from(5), &BigInt::from(1), &BigInt::from(7), 4);
    assert_eq!(r, Ok(0));
}

#[test]
fn discrete_log_large_modulus() {
    let p = BigInt::from_str_radix(
        "1340780792994259709957402499820584612747936582059239337772356144372176\
         4030073546976801874298166903427690031858186486050853753882811946569946\
         433649006084171",
        10,
    )
    .unwrap();
    let g = BigInt::from_str_radix(
        "1171782988036620700951611759633536708855808499999895220559997945906392\
         9499736583746670572176471460312928594829675428279466566527115212748467\
         589894601965568",
        10,
    )
    .unwrap();
    let h = BigInt::from_str_radix(
        "3239475104050450443565264378728065788649097520952449527834792452971981\
         9761432925580738569379585531805328789280014947060973941085775857324523\
         07673444020333",
        10,
    )
    .unwrap();
    let x = discrete_log(&g, &h, &p, 40).unwrap();
    assert_eq!(x, 375374217830);
}
