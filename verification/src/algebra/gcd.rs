//! Greatest common divisors: Euclid's algorithm and its extended form.
use vstd::arithmetic::div_mod::*;
use vstd::math::abs;
use vstd::prelude::*;

verus! {

/// `d` divides `n`. Zero divides only zero.
pub open spec fn divides(d: int, n: int) -> bool {
    if d == 0 {
        n == 0
    } else {
        n % d == 0
    }
}

/// `g` is the greatest common divisor of `a` and `b`: it is not negative, it
/// divides both, and every positive common divisor divides it.
pub open spec fn is_gcd(g: int, a: int, b: int) -> bool {
    &&& g >= 0
    &&& divides(g, a)
    &&& divides(g, b)
    &&& forall|d: int| d >= 1 && divides(d, a) && divides(d, b) ==> #[trigger] divides(d, g)
}

/// Euclid's recurrence on natural numbers.
pub open spec fn gcd_nat(a: nat, b: nat) -> nat
    decreases b,
{
    if b == 0 {
        a
    } else {
        gcd_nat(b, a % b)
    }
}

/// The greatest common divisor of two integers of either sign.
pub open spec fn gcd_spec(a: int, b: int) -> int {
    gcd_nat(abs(a) as nat, abs(b) as nat) as int
}

/// Bezout coefficients on natural numbers: the triple `(g, x, y)` that the
/// extended Euclidean recurrence yields, with `a * x + b * y == g`.
pub open spec fn egcd(a: nat, b: nat) -> (int, int, int)
    decreases b,
{
    if b == 0 {
        (a as int, 1, 0)
    } else {
        let sub = egcd(b, a % b);
        (sub.0, sub.2, sub.1 - (a / b) * sub.2)
    }
}

/// The triple `(g, x, y)` for integers of either sign: the coefficients found
/// for the absolute values, each carrying the sign of its argument, so that
/// `a * x + b * y == g` with `g` not negative.
pub open spec fn xgcd_spec(a: int, b: int) -> (int, int, int) {
    let t = egcd(abs(a) as nat, abs(b) as nat);
    (
        t.0,
        if a < 0 {
            -t.1
        } else {
            t.1
        },
        if b < 0 {
            -t.2
        } else {
            t.2
        },
    )
}

/// A divisor of `x` and of `y` divides `x * k + y`.
pub proof fn lemma_divides_combination(d: int, x: int, k: int, y: int)
    requires
        d >= 1,
        divides(d, x),
        divides(d, y),
    ensures
        divides(d, x * k + y),
{
    lemma_mul_mod_noop_left(x, k, d);
    assert((0 * k) % d == 0) by {
        lemma_small_mod(0, d as nat);
    }
    lemma_add_mod_noop(x * k, y, d);
    lemma_small_mod(0, d as nat);
}

/// A number and its negation have the same divisors.
pub proof fn lemma_divides_negation(d: int, n: int)
    requires
        d >= 1,
    ensures
        divides(d, n) == divides(d, -n),
{
    lemma_small_mod(0, d as nat);
    if divides(d, n) {
        lemma_divides_combination(d, n, -1, 0);
        assert(n * (-1) + 0 == -n) by (nonlinear_arith);
    }
    if divides(d, -n) {
        lemma_divides_combination(d, -n, -1, 0);
        assert((-n) * (-1) + 0 == n) by (nonlinear_arith);
    }
}

/// Euclid's recurrence computes the greatest common divisor.
pub proof fn lemma_gcd_nat_is_gcd(a: nat, b: nat)
    ensures
        is_gcd(gcd_nat(a, b) as int, a as int, b as int),
    decreases b,
{
    let g = gcd_nat(a, b) as int;
    if b == 0 {
        if a != 0 {
            lemma_mod_self_0(a as int);
            lemma_small_mod(0, a);
        }
    } else {
        let r = a % b;
        let q = a / b;
        lemma_gcd_nat_is_gcd(b, r);
        lemma_fundamental_div_mod(a as int, b as int);
        assert(a as int == (b as int) * (q as int) + (r as int));
        assert(g >= 1);
        lemma_divides_combination(g, b as int, q as int, r as int);
        assert forall|d: int| d >= 1 && divides(d, a as int) && divides(d, b as int) implies #[trigger] divides(d, g) by {
            lemma_divides_negation(d, (b as int) * (q as int));
            lemma_divides_combination(d, b as int, q as int, 0);
            lemma_small_mod(0, d as nat);
            lemma_divides_combination(d, -((b as int) * (q as int)), 1, a as int);
            assert(-((b as int) * (q as int)) * 1 + (a as int) == r as int) by (nonlinear_arith)
                requires
                    a as int == (b as int) * (q as int) + (r as int),
            ;
            assert(divides(d, r as int));
        }
    }
}

/// `gcd_spec` is the greatest common divisor, whatever the signs.
pub proof fn lemma_gcd_spec_is_gcd(a: int, b: int)
    ensures
        is_gcd(gcd_spec(a, b), a, b),
{
    let g = gcd_spec(a, b);
    lemma_gcd_nat_is_gcd(abs(a) as nat, abs(b) as nat);
    if g >= 1 {
        lemma_divides_negation(g, a);
        lemma_divides_negation(g, b);
    }
    assert forall|d: int| d >= 1 && divides(d, a) && divides(d, b) implies #[trigger] divides(d, g) by {
        lemma_divides_negation(d, a);
        lemma_divides_negation(d, b);
    }
}

/// Two greatest common divisors of the same pair are equal.
pub proof fn lemma_gcd_unique(g1: int, g2: int, a: int, b: int)
    requires
        is_gcd(g1, a, b),
        is_gcd(g2, a, b),
    ensures
        g1 == g2,
{
    if g1 == 0 || g2 == 0 {
        assert(a == 0 && b == 0);
        let g = if g1 == 0 {
            g2
        } else {
            g1
        };
        lemma_small_mod(0, (g + 1) as nat);
        assert(divides(g + 1, g));
        lemma_small_mod(g as nat, (g + 1) as nat);
    } else {
        assert(divides(g1, g2));
        assert(divides(g2, g1));
        if g1 < g2 {
            lemma_small_mod(g1 as nat, g2 as nat);
        }
        if g2 < g1 {
            lemma_small_mod(g2 as nat, g1 as nat);
        }
    }
}

/// Reducing one argument by the other leaves the greatest common divisor as
/// it was.
pub proof fn lemma_gcd_of_residue(a: int, m: int)
    requires
        m > 0,
    ensures
        gcd_spec(a % m, m) == gcd_spec(a, m),
{
    let g = gcd_spec(a, m);
    let r = a % m;
    let q = a / m;
    lemma_gcd_spec_is_gcd(a, m);
    lemma_gcd_spec_is_gcd(r, m);
    lemma_fundamental_div_mod(a, m);
    assert(g >= 1);
    assert(divides(g, r)) by {
        lemma_divides_combination(g, m, -q, a);
        assert(m * (-q) + a == r) by (nonlinear_arith)
            requires
                a == m * q + r,
        ;
    }
    assert forall|d: int| d >= 1 && divides(d, r) && divides(d, m) implies #[trigger] divides(
        d,
        g,
    ) by {
        lemma_divides_combination(d, m, q, r);
    }
    lemma_gcd_unique(g, gcd_spec(r, m), r, m);
}

/// The extended recurrence yields the greatest common divisor together with
/// coefficients that combine the arguments into it.
pub proof fn lemma_egcd_bezout(a: nat, b: nat)
    ensures
        egcd(a, b).0 == gcd_nat(a, b),
        a * egcd(a, b).1 + b * egcd(a, b).2 == egcd(a, b).0,
    decreases b,
{
    if b == 0 {
    } else {
        let r = a % b;
        let q = a / b;
        let sub = egcd(b, r);
        lemma_egcd_bezout(b, r);
        lemma_fundamental_div_mod(a as int, b as int);
        assert(a * sub.2 + b * (sub.1 - q * sub.2) == sub.0) by (nonlinear_arith)
            requires
                a as int == (b as int) * (q as int) + (r as int),
                b * sub.1 + r * sub.2 == sub.0,
        ;
    }
}

/// One step of the extended algorithm keeps its coefficients small. With
/// remainders `r_old >= 0`, `r >= 1` and coefficients `c_old >= 0 >= c` tied by
/// `r * c_old - r_old * c == bound`, the next coefficient `c_old - q * c` lies
/// in `[0, bound]`, and the same relation ties the next pair.
proof fn lemma_xgcd_step_bound(r_old: int, r: int, c_old: int, c: int, bound: int)
    requires
        r >= 1,
        r_old >= 0,
        c_old >= 0,
        c <= 0,
        r * c_old - r_old * c == bound,
    ensures
        0 <= r_old / r,
        r_old - (r_old / r) * r == r_old % r,
        -bound <= (r_old / r) * c <= 0,
        0 <= c_old - (r_old / r) * c <= bound,
        r * (c_old - (r_old / r) * c) - (r_old % r) * c == bound,
{
    let q = r_old / r;
    let m = r_old % r;
    lemma_fundamental_div_mod(r_old, r);
    lemma_mod_bound(r_old, r);
    assert(q >= 0) by (nonlinear_arith)
        requires
            r_old == r * q + m,
            0 <= m < r,
            r_old >= 0,
    ;
    assert(r_old - q * r == m) by (nonlinear_arith)
        requires
            r_old == r * q + m,
    ;
    assert(q * c <= 0) by (nonlinear_arith)
        requires
            q >= 0,
            c <= 0,
    ;
    assert(r * (c_old - q * c) - m * c == bound) by (nonlinear_arith)
        requires
            r_old == r * q + m,
            r * c_old - r_old * c == bound,
    ;
    assert(c_old - q * c <= bound) by (nonlinear_arith)
        requires
            r * (c_old - q * c) - m * c == bound,
            r >= 1,
            m >= 0,
            c <= 0,
            c_old - q * c >= 0,
    ;
}

/// One step of the extended algorithm, seen from the recurrence: the
/// coefficients of `(r_old, r)` are those of `(r, r_old % r)`, recombined.
proof fn lemma_egcd_step(r_old: nat, r: nat, s_old: int, s: int)
    requires
        r >= 1,
    ensures
        egcd(r_old, r).0 == egcd(r, r_old % r).0,
        egcd(r_old, r).1 * s_old + egcd(r_old, r).2 * s == egcd(r, r_old % r).1 * s + egcd(
            r,
            r_old % r,
        ).2 * (s_old - (r_old / r) * s),
{
    let sub = egcd(r, r_old % r);
    let q = (r_old / r) as int;
    assert(sub.2 * s_old + (sub.1 - q * sub.2) * s == sub.1 * s + sub.2 * (s_old - q * s))
        by (nonlinear_arith);
}

/// The extended Euclidean algorithm: `(g, x, y)` with `a * x + b * y == g` and
/// `g` the greatest common divisor of `a` and `b`, never negative. It runs the
/// three sequences of remainders and coefficients side by side, dividing with
/// truncation, until the remainder is zero.
pub fn xgcd(a: i8, b: i8) -> (res: (i8, i8, i8))
    requires
        a > i8::MIN,
        b > i8::MIN,
    ensures
        (res.0 as int, res.1 as int, res.2 as int) == xgcd_spec(a as int, b as int),
        res.0 == gcd_spec(a as int, b as int),
        is_gcd(res.0 as int, a as int, b as int),
        a * res.1 + b * res.2 == res.0,
{
    let a0: i8 = if a < 0 {
        -a
    } else {
        a
    };
    let b0: i8 = if b < 0 {
        -b
    } else {
        b
    };
    let mut sj: i8 = 0;
    let mut sj_old: i8 = 1;
    let mut tj: i8 = 1;
    let mut tj_old: i8 = 0;
    let mut rj: i8 = b0;
    let mut rj_old: i8 = a0;
    let ghost mut even: bool = true;
    while rj != 0
        invariant
            0 <= a0,
            0 <= b0,
            0 <= rj,
            0 <= rj_old,
            -127 <= sj <= 127,
            -127 <= sj_old <= 127,
            -127 <= tj <= 127,
            -127 <= tj_old <= 127,
            even ==> sj_old >= 0 && sj <= 0 && tj_old <= 0 && tj >= 0,
            even ==> rj * sj_old - rj_old * sj == b0 && rj_old * tj - rj * tj_old == a0,
            !even ==> sj_old <= 0 && sj >= 0 && tj_old >= 0 && tj <= 0,
            !even ==> rj_old * sj - rj * sj_old == b0 && rj * tj_old - rj_old * tj == a0,
            egcd(a0 as nat, b0 as nat).0 == egcd(rj_old as nat, rj as nat).0,
            egcd(a0 as nat, b0 as nat).1 == egcd(rj_old as nat, rj as nat).1 * sj_old + egcd(
                rj_old as nat,
                rj as nat,
            ).2 * sj,
            egcd(a0 as nat, b0 as nat).2 == egcd(rj_old as nat, rj as nat).1 * tj_old + egcd(
                rj_old as nat,
                rj as nat,
            ).2 * tj,
        decreases rj,
    {
        let quotient: i8 = rj_old / rj;
        proof {
            let (ro, r, so, s, to, t) = (
                rj_old as int,
                rj as int,
                sj_old as int,
                sj as int,
                tj_old as int,
                tj as int,
            );
            lemma_egcd_step(rj_old as nat, rj as nat, so, s);
            lemma_egcd_step(rj_old as nat, rj as nat, to, t);
            if even {
                lemma_xgcd_step_bound(ro, r, so, s, b0 as int);
                assert(r * (-to) - ro * (-t) == a0) by (nonlinear_arith)
                    requires
                        ro * t - r * to == a0,
                ;
                lemma_xgcd_step_bound(ro, r, -to, -t, a0 as int);
                assert((ro / r) * (-t) == -((ro / r) * t)) by (nonlinear_arith);
                assert(r * (-to - (ro / r) * (-t)) - (ro % r) * (-t) == (ro % r) * t - r * (to - (ro
                    / r) * t)) by (nonlinear_arith);
            } else {
                assert(r * (-so) - ro * (-s) == b0) by (nonlinear_arith)
                    requires
                        ro * s - r * so == b0,
                ;
                lemma_xgcd_step_bound(ro, r, -so, -s, b0 as int);
                assert((ro / r) * (-s) == -((ro / r) * s)) by (nonlinear_arith);
                assert(r * (-so - (ro / r) * (-s)) - (ro % r) * (-s) == (ro % r) * s - r * (so - (ro
                    / r) * s)) by (nonlinear_arith);
                lemma_xgcd_step_bound(ro, r, to, t, a0 as int);
            }
        }
        let r_new: i8 = rj_old - quotient * rj;
        let s_new: i8 = sj_old - quotient * sj;
        let t_new: i8 = tj_old - quotient * tj;
        rj_old = rj;
        rj = r_new;
        sj_old = sj;
        sj = s_new;
        tj_old = tj;
        tj = t_new;
        proof {
            even = !even;
        }
    }
    proof {
        let last = egcd(rj_old as nat, 0);
        assert(last.1 * sj_old + last.2 * sj == sj_old && last.1 * tj_old + last.2 * tj == tj_old)
            by (nonlinear_arith)
            requires
                last.1 == 1,
                last.2 == 0,
        ;
        lemma_egcd_bezout(a0 as nat, b0 as nat);
        lemma_gcd_spec_is_gcd(a as int, b as int);
    }
    let x: i8 = if a < 0 {
        -sj_old
    } else {
        sj_old
    };
    let y: i8 = if b < 0 {
        -tj_old
    } else {
        tj_old
    };
    assert(a * x + b * y == a0 * sj_old + b0 * tj_old) by (nonlinear_arith)
        requires
            a0 == (if a < 0 {
                -a
            } else {
                a as int
            }),
            b0 == (if b < 0 {
                -b
            } else {
                b as int
            }),
            x == (if a < 0 {
                -sj_old
            } else {
                sj_old as int
            }),
            y == (if b < 0 {
                -tj_old
            } else {
                tj_old as int
            }),
    ;
    (rj_old, x, y)
}

/// Euclid's algorithm: the greatest common divisor of `a` and `b`, never
/// negative.
pub fn gcd(a: i8, b: i8) -> (g: i8)
    requires
        a > i8::MIN,
        b > i8::MIN,
    ensures
        g == gcd_spec(a as int, b as int),
        is_gcd(g as int, a as int, b as int),
{
    let mut x: i8 = if a < 0 {
        -a
    } else {
        a
    };
    let mut y: i8 = if b < 0 {
        -b
    } else {
        b
    };
    while y != 0
        invariant
            0 <= x,
            0 <= y,
            gcd_nat(x as nat, y as nat) == gcd_spec(a as int, b as int),
        decreases y,
    {
        let r: i8 = x % y;
        x = y;
        y = r;
    }
    proof {
        lemma_gcd_spec_is_gcd(a as int, b as int);
    }
    x
}

} // verus!
