use bsgs::modular::{extended_gcd, inverse, normalize, powm};
use bsgs::DlogError;
use num_bigint::BigInt;

#[test]
fn test_powm_num_bigint() {
    assert_eq!(
        powm(&BigInt::from(4), &BigInt::from(13), &BigInt::from(497)).unwrap(),
        BigInt::from(445)
    );
}

#[test]
fn normalize_wraps_negative_values() {
    assert_eq!(normalize(BigInt::from(-5), &BigInt::from(7)), BigInt::from(2));
    assert_eq!(normalize(BigInt::from(13), &BigInt::from(5)), BigInt::from(3));
    assert_eq!(normalize(BigInt::from(0), &BigInt::from(9)), BigInt::from(0));
    assert_eq!(normalize(BigInt::from(-14), &BigInt::from(7)), BigInt::from(0));
}

#[test]
fn extended_gcd_bezout_identity() {
    let cases: [(i64, i64, u64); 6] =
        [(240, 46, 2), (-240, 46, 2), (240, -46, 2), (-240, -46, 2), (0, 0, 0), (0, 35, 35)];
    for (a, b, d) in cases {
        let res = extended_gcd(BigInt::from(a), BigInt::from(b));
        assert_eq!(res.gcd, BigInt::from(d));
        let a = BigInt::from(a);
        let b = BigInt::from(b);
        assert_eq!(res.gcd, &res.c1 * &a + &res.c2 * &b);
        if res.gcd != BigInt::from(0u64) {
            assert_eq!(&a % &res.gcd, BigInt::from(0u64));
            assert_eq!(&b % &res.gcd, BigInt::from(0u64));
        }
    }
}

#[test]
fn inverse_of_coprime_values() {
    let a = BigInt::from(3);
    let n = BigInt::from(7);
    let c = inverse(a.clone(), &n).unwrap();
    assert_eq!(c, BigInt::from(5));
    assert_eq!((&a * &c) % &n, BigInt::from(1));

    let c = inverse(BigInt::from(-3), &n).unwrap();
    assert_eq!(c, BigInt::from(2));
    assert_eq!(((BigInt::from(-3) * &c) % &n + &n) % &n, BigInt::from(1));
}

#[test]
fn inverse_undefined_without_coprimality() {
    assert_eq!(inverse(BigInt::from(4), &BigInt::from(8)), None);
    assert_eq!(inverse(BigInt::from(6), &BigInt::from(9)), None);
    assert_eq!(inverse(BigInt::from(0), &BigInt::from(5)), None);
}

#[test]
fn powm_matches_repeated_multiplication() {
    let base = BigInt::from(3);
    let modulus = BigInt::from(1000);
    let mut expected = BigInt::from(1);
    for e in 0..=20u64 {
        let got = powm(&base, &BigInt::from(e), &modulus).unwrap();
        assert_eq!(got, expected);
        expected = (expected * &base) % &modulus;
    }
}

#[test]
fn powm_negative_exponent_uses_inverse() {
    let base = BigInt::from(4);
    let modulus = BigInt::from(497);
    let inv = inverse(base.clone(), &modulus).unwrap();
    let via_negative = powm(&base, &BigInt::from(-13), &modulus).unwrap();
    let via_inverse = powm(&inv, &BigInt::from(13), &modulus).unwrap();
    assert_eq!(via_negative, via_inverse);
}

#[test]
fn powm_rejects_bad_modulus() {
    assert_eq!(
        powm(&BigInt::from(2), &BigInt::from(5), &BigInt::from(0)),
        Err(DlogError::InvalidModulus)
    );
    assert_eq!(
        powm(&BigInt::from(2), &BigInt::from(5), &BigInt::from(-3)),
        Err(DlogError::InvalidModulus)
    );
}

#[test]
fn powm_negative_exponent_needs_invertible_base() {
    assert_eq!(
        powm(&BigInt::from(2), &BigInt::from(-3), &BigInt::from(8)),
        Err(DlogError::NotInvertible)
    );
}
