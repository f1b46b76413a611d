//! A field of integers modulo a prime: the modular operations under one
//! fixed modulus, and square roots by Euler's criterion.
use crate::algebra::arith::{mod_add, mod_exp, mod_mul, mod_sub, reduce};
use vstd::arithmetic::div_mod::*;
use vstd::arithmetic::power::{lemma_pow1, lemma_pow_adds, pow};
use vstd::prelude::*;

verus! {

/// The Legendre symbol of `a` over `p` by Euler's criterion: the power
/// `a ^ ((p - 1) / 2)` modulo `p`, with `p - 1` read as `-1`. It is `1` for a
/// quadratic residue and `-1` for a non-residue.
pub open spec fn legendre_spec(a: int, p: int) -> int {
    let e = pow(a, ((p - 1) / 2) as nat) % p;
    if e == p - 1 {
        -1
    } else {
        e
    }
}

/// The square root that `Field::sqrt` yields for `a` over `p`. Zero has the
/// root zero. Over `p == 2` the answer is `2`. Otherwise there is an answer
/// only where `p % 4 == 3` and `a` is a quadratic residue: the closed form
/// `a ^ ((p + 1) / 4)` modulo `p`.
pub open spec fn sqrt_spec(a: int, p: int) -> Option<int> {
    let r = a % p;
    if r == 0 {
        Some(0)
    } else if p == 2 {
        Some(2)
    } else if p % 4 != 3 {
        None
    } else if legendre_spec(r, p) == 1 {
        Some(pow(r, ((p + 1) / 4) as nat) % p)
    } else {
        None
    }
}

/// Over a modulus `p` with `p % 4 == 3`, whatever `sqrt_spec` yields squares
/// back to `a` modulo `p`.
pub proof fn lemma_sqrt_is_root(a: int, p: int)
    requires
        p >= 1,
        p % 4 == 3,
        sqrt_spec(a, p) is Some,
    ensures
        (sqrt_spec(a, p).unwrap() * sqrt_spec(a, p).unwrap()) % p == a % p,
{
    let r = a % p;
    let x = sqrt_spec(a, p).unwrap();
    lemma_mod_bound(a, p);
    if r == 0 {
        assert(0int * 0int == 0);
    } else {
        let k = ((p + 1) / 4) as nat;
        let h = ((p - 1) / 2) as nat;
        let w = pow(r, k);
        assert(k + k == h + 1);
        assert(pow(r, h) % p == 1);
        lemma_mul_mod_noop(w, w, p);
        lemma_pow_adds(r, k, k);
        lemma_pow_adds(r, h, 1);
        lemma_pow1(r);
        lemma_mul_mod_noop_left(pow(r, h), r, p);
        assert(1 * r == r);
        lemma_small_mod(r as nat, p as nat);
    }
}

/// A power with a sum for exponent, modulo `m`, from the two powers modulo
/// `m`.
pub proof fn lemma_pow_mod_adds(a: int, e1: nat, e2: nat, m: int)
    requires
        m >= 1,
    ensures
        pow(a, e1 + e2) % m == ((pow(a, e1) % m) * (pow(a, e2) % m)) % m,
{
    lemma_pow_adds(a, e1, e2);
    lemma_mul_mod_noop_general(pow(a, e1), pow(a, e2), m);
}

/// The fifteenth power of `a` modulo `m`, by squaring and multiplying: from
/// the second, fourth, eighth, twelfth and fourteenth powers modulo `m`.
pub proof fn lemma_pow15_mod(a: int, s2: int, s4: int, s8: int, s12: int, s14: int, m: int)
    requires
        m >= 1,
        0 <= a < m,
        s2 == (a * a) % m,
        s4 == (s2 * s2) % m,
        s8 == (s4 * s4) % m,
        s12 == (s8 * s4) % m,
        s14 == (s12 * s2) % m,
    ensures
        pow(a, 15) % m == (s14 * a) % m,
{
    lemma_pow1(a);
    lemma_small_mod(a as nat, m as nat);
    lemma_pow_mod_adds(a, 1, 1, m);
    lemma_pow_mod_adds(a, 2, 2, m);
    lemma_pow_mod_adds(a, 4, 4, m);
    lemma_pow_mod_adds(a, 8, 4, m);
    lemma_pow_mod_adds(a, 12, 2, m);
    lemma_pow_mod_adds(a, 14, 1, m);
}

/// Over the field of 31 elements, the square of an element is zero or a
/// quadratic residue by Euler's criterion, so `sqrt_spec` finds a root of it.
pub proof fn lemma_square_has_root_31(y: int)
    requires
        0 <= y < 31,
    ensures
        sqrt_spec(y * y, 31) is Some,
{
    let r = (y * y) % 31;
    if r != 0 {
        if y == 1 {
            lemma_pow15_mod(1, 1, 1, 1, 1, 1, 31);
        } else if y == 2 {
            lemma_pow15_mod(4, 16, 8, 2, 16, 8, 31);
        } else if y == 3 {
            lemma_pow15_mod(9, 19, 20, 28, 2, 7, 31);
        } else if y == 4 {
            lemma_pow15_mod(16, 8, 2, 4, 8, 2, 31);
        } else if y == 5 {
            lemma_pow15_mod(25, 5, 25, 5, 1, 5, 31);
        } else if y == 6 {
            lemma_pow15_mod(5, 25, 5, 25, 1, 25, 31);
        } else if y == 7 {
            lemma_pow15_mod(18, 14, 10, 7, 8, 19, 31);
        } else if y == 8 {
            lemma_pow15_mod(2, 4, 16, 8, 4, 16, 31);
        } else if y == 9 {
            lemma_pow15_mod(19, 20, 28, 9, 4, 18, 31);
        } else if y == 10 {
            lemma_pow15_mod(7, 18, 14, 10, 16, 9, 31);
        } else if y == 11 {
            lemma_pow15_mod(28, 9, 19, 20, 8, 10, 31);
        } else if y == 12 {
            lemma_pow15_mod(20, 28, 9, 19, 16, 14, 31);
        } else if y == 13 {
            lemma_pow15_mod(14, 10, 7, 18, 2, 20, 31);
        } else if y == 14 {
            lemma_pow15_mod(10, 7, 18, 14, 4, 28, 31);
        } else if y == 15 {
            lemma_pow15_mod(8, 2, 4, 16, 2, 4, 31);
        } else if y == 16 {
            lemma_pow15_mod(8, 2, 4, 16, 2, 4, 31);
        } else if y == 17 {
            lemma_pow15_mod(10, 7, 18, 14, 4, 28, 31);
        } else if y == 18 {
            lemma_pow15_mod(14, 10, 7, 18, 2, 20, 31);
        } else if y == 19 {
            lemma_pow15_mod(20, 28, 9, 19, 16, 14, 31);
        } else if y == 20 {
            lemma_pow15_mod(28, 9, 19, 20, 8, 10, 31);
        } else if y == 21 {
            lemma_pow15_mod(7, 18, 14, 10, 16, 9, 31);
        } else if y == 22 {
            lemma_pow15_mod(19, 20, 28, 9, 4, 18, 31);
        } else if y == 23 {
            lemma_pow15_mod(2, 4, 16, 8, 4, 16, 31);
        } else if y == 24 {
            lemma_pow15_mod(18, 14, 10, 7, 8, 19, 31);
        } else if y == 25 {
            lemma_pow15_mod(5, 25, 5, 25, 1, 25, 31);
        } else if y == 26 {
            lemma_pow15_mod(25, 5, 25, 5, 1, 5, 31);
        } else if y == 27 {
            lemma_pow15_mod(16, 8, 2, 4, 8, 2, 31);
        } else if y == 28 {
            lemma_pow15_mod(9, 19, 20, 28, 2, 7, 31);
        } else if y == 29 {
            lemma_pow15_mod(4, 16, 8, 2, 16, 8, 31);
        } else if y == 30 {
            lemma_pow15_mod(1, 1, 1, 1, 1, 1, 31);
        }
    }
}

/// The integers modulo a prime.
#[derive(Debug, Copy, Clone)]
pub struct Field {
    primer: i8,
}

impl Field {
    /// The modulus of the field.
    pub closed spec fn prime(self) -> int {
        self.primer as int
    }

    /// A field is usable when its modulus is positive.
    pub open spec fn wf(self) -> bool {
        self.prime() >= 1
    }

    /// The field of integers modulo `p`.
    pub fn new(p: i8) -> (f: Self)
        ensures
            f.prime() == p,
    {
        Field { primer: p }
    }

    /// The modulus of the field.
    pub fn modulus(self) -> (p: i8)
        ensures
            p == self.prime(),
    {
        self.primer
    }

    /// The sum `a + b` in the field.
    pub fn add(self, a: i8, b: i8) -> (r: i8)
        requires
            self.wf(),
        ensures
            r == (a + b) % self.prime(),
            0 <= r < self.prime(),
    {
        mod_add(a, b, self.primer)
    }

    /// The difference `a - b` in the field.
    pub fn sub(self, a: i8, b: i8) -> (r: i8)
        requires
            self.wf(),
        ensures
            r == (a - b) % self.prime(),
            0 <= r < self.prime(),
    {
        mod_sub(a, b, self.primer)
    }

    /// The product `a * b` in the field.
    pub fn mul(self, a: i8, b: i8) -> (r: i8)
        requires
            self.wf(),
        ensures
            r == (a * b) % self.prime(),
            0 <= r < self.prime(),
    {
        mod_mul(a, b, self.primer)
    }

    /// The power `a ^ e` in the field, for an exponent of at least one.
    pub fn exp(self, a: i8, e: i8) -> (r: i8)
        requires
            self.wf(),
            e >= 1,
        ensures
            r == pow(a as int, e as nat) % self.prime(),
            0 <= r < self.prime(),
    {
        mod_exp(a, e, self.primer)
    }

    /// A square root of `a` in the field, where the closed form for a modulus
    /// `p` with `p % 4 == 3` finds one. Of the two roots `x` and `p - x` it
    /// gives the one that the closed form produces.
    pub fn sqrt(self, a: i8) -> (res: Option<i8>)
        requires
            self.wf(),
        ensures
            res is Some <==> sqrt_spec(a as int, self.prime()) is Some,
            res matches Some(x) ==> sqrt_spec(a as int, self.prime()) == Some(x as int),
            res matches Some(x) ==> self.prime() % 4 == 3 ==> (x * x) % self.prime() == (a as int)
                % self.prime(),
    {
        let p = self.primer;
        let a1 = reduce(a, p);
        if a1 == 0 {
            proof {
                lemma_small_mod(0, p as nat);
            }
            return Some(0);
        } else if p == 2 {
            return Some(p);
        } else if p % 4 != 3 {
            return None;
        }
        let ls = self.legendre_symbol(a1);
        if ls == 1 {
            let k: i8 = (p - 3) / 4 + 1;
            let x = mod_exp(a1, k, p);
            proof {
                lemma_sqrt_is_root(a as int, p as int);
            }
            Some(x)
        } else {
            None
        }
    }

    /// The Legendre symbol of `a` by Euler's criterion, over a modulus of at
    /// least three: `1` where `a` is a quadratic residue, `-1` where it is
    /// not.
    pub fn legendre_symbol(self, a: i8) -> (r: i8)
        requires
            self.prime() >= 3,
        ensures
            r == legendre_spec(a as int, self.prime()),
    {
        let p1: i8 = self.primer - 1;
        let ls = mod_exp(a, p1 / 2, self.primer);
        if ls == p1 {
            -1
        } else {
            ls
        }
    }
}

} // verus!
