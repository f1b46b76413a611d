//! Addition, subtraction, multiplication, division, inversion and
//! exponentiation modulo an explicit modulus `m`. Every result lies in
//! `[0, m)`, whatever the signs of the operands.
use crate::algebra::gcd::{
    egcd, gcd_spec, lemma_divides_combination, lemma_divides_negation, lemma_egcd_bezout,
    lemma_gcd_of_residue, lemma_gcd_spec_is_gcd, xgcd,
};
use vstd::arithmetic::div_mod::*;
use vstd::arithmetic::power::{lemma_pow1, lemma_pow_adds, pow};
use vstd::prelude::*;

verus! {

/// Why a modular operation could not be carried out.
#[derive(Clone, Copy, Debug, PartialEq, Eq, Structural)]
pub enum DomainError {
    /// The operand shares a factor with the modulus, so it has no inverse.
    NoInverse,
}

/// `x` is the multiplicative inverse of `a` modulo `m`, taken from `[0, m)`.
pub open spec fn is_mod_inverse(x: int, a: int, m: int) -> bool {
    0 <= x < m && (a * x) % m == 1int % m
}

/// The multiplicative inverse of `a` modulo `m` from `[0, m)`, where `a` has
/// one.
pub open spec fn mod_inverse(a: int, m: int) -> int {
    choose|x: int| is_mod_inverse(x, a, m)
}

/// Congruent factors give congruent products.
pub proof fn lemma_mul_congruent(a: int, b: int, c: int, d: int, m: int)
    requires
        m >= 1,
        a % m == b % m,
        c % m == d % m,
    ensures
        (a * c) % m == (b * d) % m,
{
    lemma_mul_mod_noop_general(a, c, m);
    lemma_mul_mod_noop_general(b, d, m);
}

/// Congruent terms give congruent sums.
pub proof fn lemma_add_congruent(a: int, b: int, c: int, d: int, m: int)
    requires
        m >= 1,
        a % m == b % m,
        c % m == d % m,
    ensures
        (a + c) % m == (b + d) % m,
{
    lemma_add_mod_noop(a, c, m);
    lemma_add_mod_noop(b, d, m);
}

/// Congruent terms give congruent differences.
pub proof fn lemma_sub_congruent(a: int, b: int, c: int, d: int, m: int)
    requires
        m >= 1,
        a % m == b % m,
        c % m == d % m,
    ensures
        (a - c) % m == (b - d) % m,
{
    lemma_sub_mod_noop(a, c, m);
    lemma_sub_mod_noop(b, d, m);
}

/// A number has at most one inverse in `[0, m)`.
pub proof fn lemma_mod_inverse_unique(x: int, y: int, a: int, m: int)
    requires
        m >= 1,
        is_mod_inverse(x, a, m),
        is_mod_inverse(y, a, m),
    ensures
        x == y,
{
    if x != y {
        lemma_small_mod(x as nat, m as nat);
        lemma_small_mod(y as nat, m as nat);
        lemma_mul_congruent(x, x, a * y, 1, m);
        lemma_mul_congruent(a * x, 1, y, y, m);
        assert(x * (a * y) == (a * x) * y) by (nonlinear_arith);
        assert(x * 1 == x && 1 * y == y);
        assert(false);
    }
}

/// Whatever inverts `a` modulo `m` from within `[0, m)` is `mod_inverse(a, m)`.
pub proof fn lemma_mod_inverse_determined(x: int, a: int, m: int)
    requires
        m >= 1,
        is_mod_inverse(x, a, m),
    ensures
        x == mod_inverse(a, m),
{
    lemma_mod_inverse_unique(mod_inverse(a, m), x, a, m);
}

/// A number coprime to the modulus has an inverse.
pub proof fn lemma_mod_inverse_exists(a: int, m: int)
    requires
        m >= 1,
        gcd_spec(a, m) == 1,
    ensures
        is_mod_inverse(mod_inverse(a, m), a, m),
{
    let a1 = a % m;
    lemma_mod_bound(a, m);
    lemma_gcd_of_residue(a, m);
    let t = egcd(a1 as nat, m as nat);
    lemma_egcd_bezout(a1 as nat, m as nat);
    let x = t.1 % m;
    lemma_mod_bound(t.1, m);
    assert(a1 * t.1 == m * (-t.2) + 1) by (nonlinear_arith)
        requires
            a1 * t.1 + m * t.2 == 1,
    ;
    lemma_mod_multiples_vanish(-t.2, 1, m);
    lemma_mul_mod_noop_general(a, t.1, m);
    assert(is_mod_inverse(x, a, m));
}

/// A product with an invertible factor vanishes modulo `m` only where the
/// other factor does.
pub proof fn lemma_invertible_factor(z: int, inv: int, s: int, m: int)
    requires
        m >= 1,
        is_mod_inverse(inv, s, m),
        (z * inv) % m == 0,
    ensures
        z % m == 0,
{
    lemma_small_mod(0, m as nat);
    lemma_mul_congruent(z * inv, 0, s, s, m);
    assert(0 * s == 0);
    assert((z * inv) * s == z * (s * inv)) by (nonlinear_arith);
    lemma_mul_congruent(z, z, s * inv, 1, m);
    assert(z * 1 == z);
}

/// Only a number coprime to the modulus has an inverse.
pub proof fn lemma_inverse_needs_coprime(x: int, a: int, m: int)
    requires
        m >= 2,
        (a * x) % m == 1,
    ensures
        gcd_spec(a, m) == 1,
{
    let g = gcd_spec(a, m);
    let k = (a * x) / m;
    lemma_gcd_spec_is_gcd(a, m);
    lemma_fundamental_div_mod(a * x, m);
    assert(g >= 1);
    lemma_divides_combination(g, a, x, 0);
    lemma_small_mod(0, g as nat);
    lemma_divides_negation(g, a * x);
    lemma_divides_combination(g, m, k, -(a * x));
    lemma_divides_negation(g, m * k + -(a * x));
    assert(-(m * k + -(a * x)) == 1);
    if g > 1 {
        lemma_small_mod(1, g as nat);
    }
}

/// Brings `a` into the range `[0, m)`.
pub fn reduce(a: i8, m: i8) -> (r: i8)
    requires
        m > 0,
    ensures
        r == (a as int) % (m as int),
        0 <= r < m,
{
    let t: i8 = a % m;
    proof {
        lemma_mod_bound(a as int, m as int);
        if a < 0 {
            let u = (-(a as int)) % (m as int);
            let k = (-(a as int)) / (m as int);
            lemma_fundamental_div_mod(-(a as int), m as int);
            lemma_mod_bound(-(a as int), m as int);
            if u == 0 {
                assert(a as int == (-k) * m + 0) by (nonlinear_arith)
                    requires
                        -(a as int) == m * k + u,
                        u == 0,
                ;
                lemma_fundamental_div_mod_converse(a as int, m as int, -k, 0);
            } else {
                assert(a as int == (-k - 1) * m + (m - u)) by (nonlinear_arith)
                    requires
                        -(a as int) == m * k + u,
                ;
                lemma_fundamental_div_mod_converse(a as int, m as int, -k - 1, m - u);
            }
        }
    }
    if t < 0 {
        t + m
    } else {
        t
    }
}

/// The sum `a + b` modulo `m`. The operands are first reduced into `[0, m)`
/// and then combined so that no intermediate value leaves that range.
pub fn mod_add(a: i8, b: i8, m: i8) -> (r: i8)
    requires
        m > 0,
    ensures
        r == (a + b) % (m as int),
        0 <= r < m,
{
    let a1 = reduce(a, m);
    let b1 = reduce(b, m);
    proof {
        lemma_add_mod_noop(a as int, b as int, m as int);
        if b1 >= m - a1 {
            lemma_fundamental_div_mod_converse(a1 + b1, m as int, 1, a1 + b1 - m);
        } else {
            lemma_small_mod((a1 + b1) as nat, m as nat);
        }
    }
    if b1 >= m - a1 {
        b1 - (m - a1)
    } else {
        a1 + b1
    }
}

/// The difference `a - b` modulo `m`.
pub fn mod_sub(a: i8, b: i8, m: i8) -> (r: i8)
    requires
        m > 0,
    ensures
        r == (a - b) % (m as int),
        0 <= r < m,
{
    let b1 = reduce(b, m);
    proof {
        let q = (b as int) / (m as int);
        lemma_fundamental_div_mod(b as int, m as int);
        assert(a + (m - b1) == m * (1 + q) + (a - b)) by (nonlinear_arith)
            requires
                b as int == m * q + b1,
        ;
        lemma_mod_multiples_vanish(1 + q, a - b, m as int);
    }
    mod_add(a, m - b1, m)
}

/// The product `a * b` modulo `m`, by repeated modular addition.
pub fn mod_mul(a: i8, b: i8, m: i8) -> (r: i8)
    requires
        m > 0,
    ensures
        r == (a * b) % (m as int),
        0 <= r < m,
{
    let a1 = reduce(a, m);
    let b1 = reduce(b, m);
    let mut res: i8 = 0;
    let mut i: i8 = 0;
    proof {
        assert(a1 * 0 == 0) by (nonlinear_arith);
        lemma_small_mod(0, m as nat);
    }
    while i < b1
        invariant
            m > 0,
            0 <= i <= b1 < m,
            0 <= a1 < m,
            res == (a1 * i) % (m as int),
        decreases b1 - i,
    {
        proof {
            lemma_add_mod_noop(a1 * i, a1 as int, m as int);
            lemma_mod_twice(a1 * i, m as int);
            lemma_small_mod(a1 as nat, m as nat);
            lemma_add_mod_noop((a1 * i) % (m as int), a1 as int, m as int);
            assert(a1 * i + a1 == a1 * (i + 1)) by (nonlinear_arith);
        }
        res = mod_add(res, a1, m);
        i += 1;
    }
    proof {
        lemma_mul_mod_noop_general(a as int, b as int, m as int);
    }
    res
}

/// The power `base ^ exponent` modulo `m`, for an exponent of at least one, by
/// repeated modular multiplication.
pub fn mod_exp(base: i8, exponent: i8, m: i8) -> (r: i8)
    requires
        m > 0,
        exponent >= 1,
    ensures
        r == pow(base as int, exponent as nat) % (m as int),
        0 <= r < m,
{
    let mut res: i8 = reduce(base, m);
    let mut i: i8 = 1;
    proof {
        lemma_pow1(base as int);
    }
    while i < exponent
        invariant
            m > 0,
            1 <= i <= exponent,
            res == pow(base as int, i as nat) % (m as int),
        decreases exponent - i,
    {
        proof {
            lemma_pow_adds(base as int, i as nat, 1);
            lemma_pow1(base as int);
            lemma_mul_mod_noop_left(pow(base as int, i as nat), base as int, m as int);
        }
        res = mod_mul(res, base, m);
        i += 1;
    }
    proof {
        lemma_mod_bound(pow(base as int, exponent as nat), m as int);
    }
    res
}

/// The multiplicative inverse of `a` modulo `m`, found with the extended
/// Euclidean algorithm and taken from `[0, m)`. There is one exactly when `a`
/// and `m` have no common factor.
pub fn mod_inv(a: i8, m: i8) -> (res: Result<i8, DomainError>)
    requires
        m > 0,
    ensures
        res is Ok <==> gcd_spec(a as int, m as int) == 1,
        res matches Ok(x) ==> is_mod_inverse(x as int, a as int, m as int) && x == mod_inverse(
            a as int,
            m as int,
        ),
        res matches Err(e) ==> e == DomainError::NoInverse,
{
    let a1 = reduce(a, m);
    let (g, x, y) = xgcd(a1, m);
    proof {
        lemma_gcd_of_residue(a as int, m as int);
    }
    if g != 1 {
        return Err(DomainError::NoInverse);
    }
    let inv = reduce(x, m);
    proof {
        assert(a1 * x == m * (-(y as int)) + 1) by (nonlinear_arith)
            requires
                a1 * x + m * y == 1,
        ;
        lemma_mod_multiples_vanish(-(y as int), 1, m as int);
        lemma_mul_mod_noop_general(a as int, x as int, m as int);
        lemma_mod_inverse_determined(inv as int, a as int, m as int);
    }
    Ok(inv)
}

/// The quotient `a / b` modulo `m`: `a` times the inverse of `b`. It is the
/// one `x` in `[0, m)` with `x * b == a` modulo `m`, and there is one exactly
/// when `b` and `m` have no common factor.
pub fn mod_div(a: i8, b: i8, m: i8) -> (res: Result<i8, DomainError>)
    requires
        m > 0,
    ensures
        res is Ok <==> gcd_spec(b as int, m as int) == 1,
        res matches Ok(x) ==> 0 <= x < m && (x * b) % (m as int) == (a as int) % (m as int),
        res matches Ok(x) ==> x == (a * mod_inverse(b as int, m as int)) % (m as int),
        res matches Err(e) ==> e == DomainError::NoInverse,
{
    match mod_inv(b, m) {
        Ok(inv) => {
            let x = mod_mul(a, inv, m);
            proof {
                let (ai, bi, mi, vi) = (a as int, b as int, m as int, inv as int);
                lemma_mul_mod_noop_left(ai * vi, bi, mi);
                assert((ai * vi) * bi == ai * (bi * vi)) by (nonlinear_arith);
                lemma_mul_mod_noop_right(ai, bi * vi, mi);
                assert(ai * (1int % mi) % mi == ai % mi) by {
                    lemma_mul_mod_noop_right(ai, 1, mi);
                    assert(ai * 1 == ai);
                }
                assert(is_mod_inverse(vi, bi, mi));
            }
            Ok(x)
        },
        Err(e) => Err(e),
    }
}

} // verus!
