use clock_ecc::algebra::arith;
use clock_ecc::algebra::arith::DomainError;
use clock_ecc::algebra::gcd;
use clock_ecc::algebra::modinv;

#[test]
fn tests_gcd_gcd_test() {
    assert_eq!(5, gcd::gcd(10, 25));
    assert_eq!(1, gcd::gcd(37, 14));
}

#[test]
fn tests_gcd_xgcd_test() {
    let (g, x, y) = gcd::xgcd(37, 14);
    assert_eq!(x * 37 + y * 14, g);
    assert_eq!(g, 1);
    assert_eq!(x, -3);
    assert_eq!(y, 8);

    let (g, x, y) = gcd::xgcd(10, 25);
    assert_eq!(x * 10 + y * 25, g);
}

#[test]
fn tests_arith_modadd_test() {
    {
        let x = arith::mod_add(14, 38, 37);
        assert_eq!(x, 15);
    }

    {
        let x = arith::mod_add(126, 126, 127);
        assert_eq!(x, 125);
    }
}

#[test]
fn tests_arith_modsub_test() {
    {
        let x = arith::mod_sub(14, 15, 37);
        assert_eq!(x, 36);
    }

    {
        let x = arith::mod_sub(15, 13, 37);
        assert_eq!(x, 2);
    }
}

#[test]
fn tests_arith_modmul_test() {
    {
        let x = arith::mod_mul(4, 16, 37);
        assert_eq!(x, 27);
    }

    {
        let x = arith::mod_mul(25, 30, 37);
        assert_eq!(x, 10);
    }
}

#[test]
fn tests_arith_moddiv_test() {
    {
        let x = arith::mod_div(4, 14, 37);
        assert_eq!(x, Ok(32));
    }
}

#[test]
fn tests_arith_modinv_test() {
    {
        let x = arith::mod_inv(14, 37);
        assert_eq!(x, Ok(8));
    }

    {
        let x = arith::mod_inv(2, 3);
        assert_eq!(x, Ok(2));
    }

    {
        let x = arith::mod_inv(2, 127);
        assert_eq!(x, Ok(64));
    }
}

#[test]
fn tests_arith_modexp_test() {
    {
        let x = arith::mod_exp(2, 3, 37);
        assert_eq!(x, 8);
    }

    {
        let x = arith::mod_exp(15, 2, 37);
        assert_eq!(x, 3);
    }
}

#[test]
fn arith_test_arith_modadd_test() {
    {
        let x = arith::mod_add(14, 38, 37);
        assert_eq!(x, 15);
    }

    {
        let x = arith::mod_add(126, 126, 127);
        assert_eq!(x, 125);
    }
}

#[test]
fn arith_test_arith_modsub_test() {
    {
        let x = arith::mod_sub(14, 15, 37);
        assert_eq!(x, 36);
    }

    {
        let x = arith::mod_sub(15, 13, 37);
        assert_eq!(x, 2);
    }
}

#[test]
fn arith_test_arith_modmul_test() {
    {
        let x = arith::mod_mul(4, 16, 37);
        assert_eq!(x, 27);
    }

    {
        let x = arith::mod_mul(25, 30, 37);
        assert_eq!(x, 10);
    }
}

#[test]
fn arith_test_arith_moddiv_test() {
    {
        let x = arith::mod_div(4, 14, 37);
        assert_eq!(x, Ok(32));
    }

    {
        let x = arith::mod_div(1, 14, 37);
        assert_eq!(x, Ok(8));
    }

    {
        let x = arith::mod_div(1, 23, 37);
        assert_eq!(x, Ok(29));
    }
}

#[test]
fn arith_test_arith_modinv_test() {
    {
        let x = arith::mod_inv(14, 37);
        assert_eq!(x, Ok(8));
    }

    {
        let x = arith::mod_inv(2, 3);
        assert_eq!(x, Ok(2));
    }

    {
        let x = arith::mod_inv(2, 127);
        assert_eq!(x, Ok(64));
    }
}

#[test]
fn arith_test_arith_modexp_test() {
    {
        let x = arith::mod_exp(2, 3, 37);
        assert_eq!(x, 8);
    }

    {
        let x = arith::mod_exp(15, 2, 37);
        assert_eq!(x, 3);
    }
}

#[test]
fn gcd_test_gcd_gcd_test() {
    assert_eq!(5, gcd::gcd(10, 25));
    assert_eq!(1, gcd::gcd(37, 14));
}

#[test]
fn gcd_test_gcd_xgcd_test() {
    let (g, x, y) = gcd::xgcd(37, 14);
    assert_eq!(x * 37 + y * 14, g);
    assert_eq!(g, 1);
    assert_eq!(x, -3);
    assert_eq!(y, 8);

    let (g, x, y) = gcd::xgcd(10, 25);
    assert_eq!(x * 10 + y * 25, g);
}

// Modular sums, differences and products agree with plain integer
// arithmetic reduced modulo a prime, for every pair of residues.
#[test]
fn arith_agrees_with_integer_arithmetic() {
    for p in [2i8, 3, 5, 7, 31, 37, 127] {
        for a in 0..p {
            for b in 0..p {
                let (ai, bi, pi) = (a as i32, b as i32, p as i32);
                assert_eq!(arith::mod_add(a, b, p) as i32, (ai + bi) % pi);
                assert_eq!(arith::mod_sub(a, b, p) as i32, (ai - bi).rem_euclid(pi));
                assert_eq!(arith::mod_mul(a, b, p) as i32, (ai * bi) % pi);
            }
        }
    }
}

#[test]
fn arith_accepts_operands_of_either_sign() {
    assert_eq!(arith::mod_add(-1, -1, 37), 35);
    assert_eq!(arith::mod_add(-128, -128, 127), 125);
    assert_eq!(arith::mod_add(1, 126, 127), 0);
    assert_eq!(arith::mod_sub(0, -128, 127), 1);
    assert_eq!(arith::mod_sub(-128, 127, 127), 126);
    assert_eq!(arith::mod_mul(-3, 5, 37), 22);
    assert_eq!(arith::mod_mul(5, -3, 37), 22);
    assert_eq!(arith::mod_mul(-128, -128, 127), 1);
    assert_eq!(arith::mod_mul(7, 0, 37), 0);
    assert_eq!(arith::reduce(-1, 37), 36);
    assert_eq!(arith::reduce(-37, 37), 0);
    assert_eq!(arith::reduce(40, 37), 3);
    assert_eq!(arith::mod_exp(-2, 3, 37), 29);
    assert_eq!(arith::mod_exp(40, 1, 37), 3);
}

#[test]
fn modexp_matches_brute_force() {
    for base in 0i8..37 {
        let mut expected: i32 = 1;
        for exponent in 1i8..=40 {
            expected = (expected * base as i32) % 37;
            assert_eq!(arith::mod_exp(base, exponent, 37) as i32, expected);
        }
    }
    assert_eq!(arith::mod_exp(3, 4, 37), 7);
}

#[test]
fn gcd_is_never_negative() {
    assert_eq!(gcd::gcd(-10, 25), 5);
    assert_eq!(gcd::gcd(10, -25), 5);
    assert_eq!(gcd::gcd(-10, -25), 5);
    assert_eq!(gcd::gcd(0, 0), 0);
    assert_eq!(gcd::gcd(0, 9), 9);
    assert_eq!(gcd::gcd(9, 0), 9);
    assert_eq!(gcd::gcd(-127, 127), 127);
}

#[test]
fn xgcd_satisfies_bezout_for_all_pairs() {
    for a in -127i8..=127 {
        for b in -127i8..=127 {
            let (g, x, y) = gcd::xgcd(a, b);
            assert_eq!(g, gcd::gcd(a, b));
            assert_eq!(a as i32 * x as i32 + b as i32 * y as i32, g as i32);
        }
    }
}

#[test]
fn xgcd_edge_cases() {
    assert_eq!(gcd::xgcd(10, 25), (5, -2, 1));
    assert_eq!(gcd::xgcd(0, 0), (0, 1, 0));
    assert_eq!(gcd::xgcd(0, 7), (7, 0, 1));
    assert_eq!(gcd::xgcd(7, 0), (7, 1, 0));
    assert_eq!(gcd::xgcd(-3, 37), (1, 12, 1));
    assert_eq!(gcd::xgcd(3, -37), (1, -12, -1));
}

#[test]
fn modinv_fails_without_coprimality() {
    assert_eq!(arith::mod_inv(14, 38), Err(DomainError::NoInverse));
    assert_eq!(arith::mod_inv(0, 37), Err(DomainError::NoInverse));
    assert_eq!(arith::mod_div(3, 14, 38), Err(DomainError::NoInverse));
    assert_eq!(modinv::mod_inv(14, 38), None);
}

#[test]
fn modinv_inverts_every_unit() {
    for m in [1i8, 2, 3, 31, 32, 37, 127] {
        for a in -127i8..=127 {
            let coprime = gcd::gcd(a, m) == 1;
            match arith::mod_inv(a, m) {
                Ok(x) => {
                    assert!(coprime);
                    assert!(0 <= x && x < m);
                    assert_eq!((a as i32 * x as i32).rem_euclid(m as i32), 1 % m as i32);
                    assert_eq!(modinv::mod_inv(a, m), Some(x));
                }
                Err(e) => {
                    assert!(!coprime);
                    assert_eq!(e, DomainError::NoInverse);
                    assert_eq!(modinv::mod_inv(a, m), None);
                }
            }
        }
    }
    assert_eq!(modinv::mod_inv(14, 37), Some(8));
    assert_eq!(modinv::mod_inv(-3, 37), Some(12));
    assert_eq!(arith::mod_inv(5, 1), Ok(0));
}

#[test]
fn moddiv_undoes_multiplication() {
    for a in 0i8..32 {
        for b in (1i8..32).step_by(2) {
            let x = arith::mod_div(a, b, 32).unwrap();
            assert_eq!(arith::mod_mul(x, b, 32), a);
        }
    }
}
