use montgomery_transform::error::{ModError, TransformError};
use montgomery_transform::euclid::{extended_gcd, mod_inverse};
use montgomery_transform::montgomery::{
    find_curve_root, is_curve_root, montgomery_from_root, transform_to_montgomery, MontgomeryCurve,
};
use montgomery_transform::sqrt::mod_sqrt;
use num_bigint::BigInt;

fn big(n: i64) -> BigInt {
    BigInt::from(n)
}

fn on_montgomery(out: &MontgomeryCurve, p: &BigInt) -> bool {
    let lhs = (&out.b * &out.v * &out.v) % p;
    let rhs = (&out.u * &out.u * &out.u + &out.a * &out.u * &out.u + &out.u) % p;
    lhs == rhs
}

#[test]
fn extended_gcd_of_240_and_46() {
    let (g, x, y) = extended_gcd(&big(240), &big(46));
    assert_eq!(g, big(2));
    assert_eq!(x, big(-9));
    assert_eq!(y, big(47));
    assert_eq!(big(240) * x + big(46) * y, big(2));
}

#[test]
fn extended_gcd_with_zero_second_argument() {
    let (g, x, y) = extended_gcd(&big(12), &big(0));
    assert_eq!((g, x, y), (big(12), big(1), big(0)));
}

#[test]
fn extended_gcd_bezout_on_many_pairs() {
    for a in -30i64..30 {
        for b in -30i64..30 {
            if a == 0 && b == 0 {
                continue;
            }
            let (g, x, y) = extended_gcd(&big(a), &big(b));
            assert_eq!(big(a) * &x + big(b) * &y, g);
            assert_eq!(big(a) % &g, big(0));
            assert_eq!(big(b) % &g, big(0));
        }
    }
}

#[test]
fn inverse_of_3_mod_11() {
    assert_eq!(mod_inverse(&big(3), &big(11)), Ok(big(4)));
}

#[test]
fn inverse_of_negative_value() {
    assert_eq!(mod_inverse(&big(-3), &big(11)), Ok(big(7)));
}

#[test]
fn inverse_in_range_for_coprime_values() {
    for v in 1i64..40 {
        let r = mod_inverse(&big(v), &big(41)).unwrap();
        assert!(r >= big(0) && r < big(41));
        assert_eq!((big(v) * r) % big(41), big(1));
    }
}

#[test]
fn no_inverse_when_not_coprime() {
    assert_eq!(mod_inverse(&big(6), &big(9)), Err(ModError::NoInverseExists));
    assert_eq!(mod_inverse(&big(0), &big(7)), Err(ModError::NoInverseExists));
}

#[test]
fn sqrt_of_4_mod_7() {
    let r = mod_sqrt(&big(4), &big(7)).unwrap();
    assert!(r == big(2) || r == big(5));
}

#[test]
fn sqrt_of_3_mod_7_is_not_a_residue() {
    assert_eq!(mod_sqrt(&big(3), &big(7)), Err(ModError::NotAResidue));
}

#[test]
fn sqrt_of_zero_and_modulus_two() {
    assert_eq!(mod_sqrt(&big(0), &big(7)), Ok(big(0)));
    assert_eq!(mod_sqrt(&big(14), &big(7)), Ok(big(0)));
    assert_eq!(mod_sqrt(&big(3), &big(2)), Ok(big(3)));
}

#[test]
fn sqrt_of_every_residue_mod_primes() {
    for p in [3i64, 5, 7, 11, 13, 17, 41, 97, 257, 7681] {
        for v in 1..p {
            let residue = (1..p).any(|x| (x * x) % p == v);
            match mod_sqrt(&big(v), &big(p)) {
                Ok(r) => {
                    assert!(residue);
                    assert_eq!((&r * &r) % big(p), big(v));
                }
                Err(e) => {
                    assert!(!residue);
                    assert_eq!(e, ModError::NotAResidue);
                }
            }
        }
    }
}

#[test]
fn sqrt_mod_large_prime() {
    let p = BigInt::parse_bytes(b"57896044618658097711785492504343953926634992332820282019728792003956564819949", 10).unwrap();
    let v = big(1234567) * big(1234567);
    let r = mod_sqrt(&v, &p).unwrap();
    assert_eq!((&r * &r) % &p, v % &p);
}

#[test]
fn montgomery_from_known_root() {
    let p = big(17);
    let out = montgomery_from_root(&big(14), &big(6), &big(8), &p, &big(8)).unwrap();
    assert!(out.b == big(2) || out.b == big(15));
    assert_eq!(out.a, (big(24) * &out.b) % &p);
    assert_eq!(out.u, (&out.b * big(6)) % &p);
    assert_eq!(out.v, (&out.b * big(6)) % &p);
    assert!(on_montgomery(&out, &p));
}

#[test]
fn montgomery_fails_without_square_root() {
    // 3·1² + 2 = 5 is not a square mod 7
    assert_eq!(
        montgomery_from_root(&big(0), &big(0), &big(2), &big(7), &big(1)).err(),
        Some(TransformError::TransformFailed(ModError::NotAResidue))
    );
    // 3·1² + 4 = 7 ≡ 0 mod 7 has no inverse
    assert_eq!(
        montgomery_from_root(&big(0), &big(0), &big(4), &big(7), &big(1)).err(),
        Some(TransformError::TransformFailed(ModError::NoInverseExists))
    );
}

#[test]
fn curve_root_found_for_example_curve() {
    let z = find_curve_root(&big(8), &big(2), &big(17), 100_000).unwrap();
    assert_eq!(z, big(8));
    assert_eq!(find_curve_root(&big(8), &big(2), &big(17), 0), None);
}

#[test]
fn transform_example_curve() {
    let p = big(17);
    let out = transform_to_montgomery(&big(14), &big(6), &big(8), &big(2), &p, 100_000).unwrap();
    assert!(on_montgomery(&out, &p));
    assert!(out.b == big(2) || out.b == big(15));
}

#[test]
fn transform_without_draws_finds_no_root() {
    let r = transform_to_montgomery(&big(14), &big(6), &big(8), &big(2), &big(17), 0);
    assert_eq!(r.err(), Some(TransformError::RootNotFound));
}

#[test]
fn sqrt_defensive_exit_on_composite_moduli() {
    // 9 has no w with w^4 ≡ −1, so the non-residue search runs dry
    assert_eq!(mod_sqrt(&big(1), &big(9)), Err(ModError::DefensiveLoopExhaustion));
    // 85 = 5·17 passes the search, but the main loop runs out of steps
    assert_eq!(mod_sqrt(&big(16), &big(85)), Err(ModError::DefensiveLoopExhaustion));
}

#[test]
fn sqrt_of_2_mod_7_is_4() {
    assert_eq!(mod_sqrt(&big(2), &big(7)), Ok(big(4)));
    assert_eq!(mod_sqrt(&big(5), &big(41)), Ok(big(28)));
}

#[test]
fn sqrt_reduces_negative_and_large_values() {
    let r = mod_sqrt(&big(-3), &big(7)).unwrap();
    assert_eq!((&r * &r) % big(7), big(4));
    let r = mod_sqrt(&big(11), &big(7)).unwrap();
    assert_eq!((&r * &r) % big(7), big(4));
}

#[test]
fn curve_root_test_on_candidates() {
    let p = big(17);
    assert!(is_curve_root(&big(8), &big(8), &big(2), &p));
    assert!(is_curve_root(&big(25), &big(8), &big(2), &p));
    assert!(!is_curve_root(&big(0), &big(8), &big(2), &p));
    assert!(!is_curve_root(&big(14), &big(8), &big(2), &p));
}

#[test]
fn montgomery_equation_holds_on_many_curves() {
    let p = big(97);
    let mut checked = 0;
    for a in 0i64..12 {
        for b in 1i64..12 {
            let root = (0i64..97).find(|z| (z * z * z + a * z + b) % 97 == 0);
            let z0 = match root {
                Some(z) => z,
                None => continue,
            };
            for x in 0i64..97 {
                let rhs = (x * x * x + a * x + b) % 97;
                let y = match (0i64..97).find(|y| (y * y) % 97 == rhs) {
                    Some(y) => y,
                    None => continue,
                };
                if let Ok(out) = montgomery_from_root(&big(x), &big(y), &big(a), &p, &big(z0)) {
                    assert!(on_montgomery(&out, &p));
                    checked += 1;
                }
            }
        }
    }
    assert!(checked > 100);
}

#[test]
fn extended_gcd_uses_floored_division() {
    let (g, x, y) = extended_gcd(&big(-3), &big(11));
    assert_eq!((g, x, y), (big(1), big(-4), big(-1)));
    let (g, x, y) = extended_gcd(&big(240), &big(-46));
    assert_eq!(big(240) * x + big(-46) * y, g.clone());
    assert!(g == big(2) || g == big(-2));
}

#[test]
fn sqrt_follows_tonelli_shanks_steps() {
    assert_eq!(mod_sqrt(&big(13), &big(17)), Ok(big(8)));
    assert_eq!(mod_sqrt(&big(2), &big(41)), Ok(big(17)));
}

#[test]
fn transform_example_curve_exact_output() {
    let p = big(17);
    let out = transform_to_montgomery(&big(14), &big(6), &big(8), &big(2), &p, 100_000).unwrap();
    assert_eq!((out.u, out.v, out.a, out.b), (big(5), big(5), big(3), big(15)));
}
