//! The group law of the clock curve `x^2 + y^2 = 1` modulo `m`, as
//! mathematics: points with integer coordinates, their sum, negation and
//! multiples, and the laws that hold of them.
use vstd::arithmetic::div_mod::*;
use vstd::prelude::*;

verus! {

/// A point of the plane with integer coordinates.
pub struct Pt {
    pub x: int,
    pub y: int,
}

/// The identity of the group, the point `(0, 1)`.
pub open spec fn identity() -> Pt {
    Pt { x: 0, y: 1 }
}

/// The point with both coordinates brought into `[0, m)`.
pub open spec fn reduced(m: int, p: Pt) -> Pt {
    Pt { x: p.x % m, y: p.y % m }
}

/// Both coordinates lie in `[0, m)`.
pub open spec fn is_reduced(m: int, p: Pt) -> bool {
    0 <= p.x < m && 0 <= p.y < m
}

/// The point satisfies `x^2 + y^2 = 1` modulo `m`.
pub open spec fn on_curve(m: int, p: Pt) -> bool {
    (p.x * p.x + p.y * p.y) % m == 1
}

/// The sum of two points before reduction:
/// `(x1 * y2 + x2 * y1, y2 * y1 - x1 * x2)`.
pub open spec fn raw_add(p: Pt, q: Pt) -> Pt {
    Pt { x: p.x * q.y + q.x * p.y, y: q.y * p.y - p.x * q.x }
}

/// The sum of two points modulo `m`.
pub open spec fn pt_add(m: int, p: Pt, q: Pt) -> Pt {
    reduced(m, raw_add(p, q))
}

/// The negation of a point modulo `m`: `(-x, y)`, with `-x` reduced.
pub open spec fn pt_neg(m: int, p: Pt) -> Pt {
    Pt { x: (-p.x) % m, y: p.y }
}

/// The difference of two points modulo `m`.
pub open spec fn pt_sub(m: int, p: Pt, q: Pt) -> Pt {
    pt_add(m, p, pt_neg(m, q))
}

/// The `k`-fold sum of `p` with itself modulo `m`, starting from the
/// identity.
pub open spec fn pt_mul(m: int, p: Pt, k: nat) -> Pt
    decreases k,
{
    if k == 0 {
        identity()
    } else {
        pt_add(m, pt_mul(m, p, (k - 1) as nat), p)
    }
}

/// The polynomial identities behind associativity, on the coordinates
/// `(a, b)`, `(c, d)` and `(e, f)` of three points.
proof fn lemma_raw_add_associative(a: int, b: int, c: int, d: int, e: int, f: int)
    ensures
        (a * d + c * b) * f + e * (d * b - a * c) == a * (f * d - c * e) + (c * f + e * d) * b,
        f * (d * b - a * c) - (a * d + c * b) * e == (f * d - c * e) * b - a * (c * f + e * d),
{
    assert((a * d + c * b) * f == (a * d) * f + (c * b) * f) by (nonlinear_arith);
    assert(e * (d * b - a * c) == e * (d * b) - e * (a * c)) by (nonlinear_arith);
    assert(a * (f * d - c * e) == a * (f * d) - a * (c * e)) by (nonlinear_arith);
    assert((c * f + e * d) * b == (c * f) * b + (e * d) * b) by (nonlinear_arith);
    assert((a * d) * f == a * (f * d)) by (nonlinear_arith);
    assert((c * b) * f == (c * f) * b) by (nonlinear_arith);
    assert(e * (d * b) == (e * d) * b) by (nonlinear_arith);
    assert(e * (a * c) == a * (c * e)) by (nonlinear_arith);
    assert(f * (d * b - a * c) == f * (d * b) - f * (a * c)) by (nonlinear_arith);
    assert((a * d + c * b) * e == (a * d) * e + (c * b) * e) by (nonlinear_arith);
    assert((f * d - c * e) * b == (f * d) * b - (c * e) * b) by (nonlinear_arith);
    assert(a * (c * f + e * d) == a * (c * f) + a * (e * d)) by (nonlinear_arith);
    assert(f * (d * b) == (f * d) * b) by (nonlinear_arith);
    assert(f * (a * c) == a * (c * f)) by (nonlinear_arith);
    assert((a * d) * e == a * (e * d)) by (nonlinear_arith);
    assert((c * b) * e == (c * e) * b) by (nonlinear_arith);
}

/// The norm `x^2 + y^2` of a raw sum is the product of the norms, on the
/// coordinates `(a, b)` and `(c, d)` of two points.
proof fn lemma_norm_multiplies(a: int, b: int, c: int, d: int)
    ensures
        (a * d + c * b) * (a * d + c * b) + (d * b - a * c) * (d * b - a * c) == (a * a + b * b) * (
        c * c + d * d),
{
    let u = a * d;
    let v = c * b;
    let w = d * b;
    let z = a * c;
    assert((u + v) * (u + v) == u * u + 2 * (u * v) + v * v) by (nonlinear_arith);
    assert((w - z) * (w - z) == w * w - 2 * (w * z) + z * z) by (nonlinear_arith);
    assert(u * v == w * z) by {
        lemma_mul_four(a, d, c, b);
        lemma_mul_four(d, b, a, c);
        assert((a * c) * (d * b) == (d * b) * (a * c)) by (nonlinear_arith);
    }
    let aa = a * a;
    let bb = b * b;
    let cc = c * c;
    let dd = d * d;
    assert((aa + bb) * (cc + dd) == aa * cc + aa * dd + bb * cc + bb * dd) by (nonlinear_arith);
    lemma_mul_four(a, a, c, c);
    lemma_mul_four(a, a, d, d);
    lemma_mul_four(b, b, c, c);
    lemma_mul_four(b, b, d, d);
    assert((b * c) * (b * c) == (c * b) * (c * b)) by (nonlinear_arith);
    assert((b * d) * (b * d) == (d * b) * (d * b)) by (nonlinear_arith);
}

/// A product of four factors, regrouped: `(a * b) * (c * d) == (a * c) * (b * d)`.
proof fn lemma_mul_four(a: int, b: int, c: int, d: int)
    ensures
        (a * b) * (c * d) == (a * c) * (b * d),
{
    let cd = c * d;
    let bd = b * d;
    assert((a * b) * cd == a * (b * cd)) by (nonlinear_arith);
    assert(b * cd == c * bd) by (nonlinear_arith)
        requires
            cd == c * d,
            bd == b * d,
    ;
    assert(a * (c * bd) == (a * c) * bd) by (nonlinear_arith);
}

/// The sum does not depend on which representatives of the coordinates
/// modulo `m` it is given.
pub proof fn lemma_add_congruent(m: int, p: Pt, p2: Pt, q: Pt, q2: Pt)
    requires
        m >= 1,
        reduced(m, p) == reduced(m, p2),
        reduced(m, q) == reduced(m, q2),
    ensures
        pt_add(m, p, q) == pt_add(m, p2, q2),
{
    lemma_mul_mod_noop_general(p.x, q.y, m);
    lemma_mul_mod_noop_general(q.x, p.y, m);
    lemma_mul_mod_noop_general(q.y, p.y, m);
    lemma_mul_mod_noop_general(p.x, q.x, m);
    lemma_mul_mod_noop_general(p2.x, q2.y, m);
    lemma_mul_mod_noop_general(q2.x, p2.y, m);
    lemma_mul_mod_noop_general(q2.y, p2.y, m);
    lemma_mul_mod_noop_general(p2.x, q2.x, m);
    lemma_add_mod_noop(p.x * q.y, q.x * p.y, m);
    lemma_add_mod_noop(p2.x * q2.y, q2.x * p2.y, m);
    lemma_sub_mod_noop(q.y * p.y, p.x * q.x, m);
    lemma_sub_mod_noop(q2.y * p2.y, p2.x * q2.x, m);
}

/// A sum is reduced, and reducing an operand first changes nothing.
pub proof fn lemma_add_reduced(m: int, p: Pt, q: Pt)
    requires
        m >= 1,
    ensures
        is_reduced(m, pt_add(m, p, q)),
        reduced(m, pt_add(m, p, q)) == pt_add(m, p, q),
        pt_add(m, reduced(m, p), q) == pt_add(m, p, q),
        pt_add(m, p, reduced(m, q)) == pt_add(m, p, q),
{
    let s = raw_add(p, q);
    lemma_mod_bound(s.x, m);
    lemma_mod_bound(s.y, m);
    lemma_mod_twice(s.x, m);
    lemma_mod_twice(s.y, m);
    lemma_mod_twice(p.x, m);
    lemma_mod_twice(p.y, m);
    lemma_mod_twice(q.x, m);
    lemma_mod_twice(q.y, m);
    lemma_add_congruent(m, reduced(m, p), p, q, q);
    lemma_add_congruent(m, p, p, reduced(m, q), q);
}

/// The sum is commutative.
pub proof fn lemma_add_commutative(m: int, p: Pt, q: Pt)
    ensures
        pt_add(m, p, q) == pt_add(m, q, p),
{
    assert(raw_add(p, q) == raw_add(q, p)) by {
        assert(p.x * q.y + q.x * p.y == q.x * p.y + p.x * q.y);
        assert(q.y * p.y - p.x * q.x == p.y * q.y - q.x * p.x) by (nonlinear_arith);
    }
}

/// The sum is associative.
pub proof fn lemma_add_associative(m: int, p: Pt, q: Pt, r: Pt)
    requires
        m >= 1,
    ensures
        pt_add(m, pt_add(m, p, q), r) == pt_add(m, p, pt_add(m, q, r)),
{
    let pq = raw_add(p, q);
    let qr = raw_add(q, r);
    lemma_add_reduced(m, pq, r);
    lemma_add_reduced(m, p, qr);
    assert(raw_add(pq, r) == raw_add(p, qr)) by {
        lemma_raw_add_associative(p.x, p.y, q.x, q.y, r.x, r.y);
    }
}

/// A sum of two sums, regrouped: `(a + b) + (c + d) == (a + c) + (b + d)`.
pub proof fn lemma_add_regroup(m: int, a: Pt, b: Pt, c: Pt, d: Pt)
    requires
        m >= 1,
    ensures
        pt_add(m, pt_add(m, a, b), pt_add(m, c, d)) == pt_add(
            m,
            pt_add(m, a, c),
            pt_add(m, b, d),
        ),
{
    let cd = pt_add(m, c, d);
    let bd = pt_add(m, b, d);
    lemma_add_associative(m, a, b, cd);
    lemma_add_associative(m, b, c, d);
    lemma_add_commutative(m, b, c);
    lemma_add_associative(m, c, b, d);
    lemma_add_associative(m, a, c, bd);
}

/// Adding the identity reduces a point and does nothing more.
pub proof fn lemma_add_identity(m: int, p: Pt)
    ensures
        pt_add(m, p, identity()) == reduced(m, p),
        pt_add(m, identity(), p) == reduced(m, p),
{
    lemma_add_commutative(m, p, identity());
    assert(raw_add(p, identity()) == p) by {
        assert(p.x * 1 + 0 * p.y == p.x) by (nonlinear_arith);
        assert(1 * p.y - p.x * 0 == p.y) by (nonlinear_arith);
    }
}

/// The first multiple of a point is the point itself, reduced.
pub proof fn lemma_mul_one(m: int, p: Pt)
    ensures
        pt_mul(m, p, 1) == reduced(m, p),
{
    assert(pt_mul(m, p, 0) == identity());
    lemma_add_identity(m, p);
}

/// The curve is closed under the sum: the sum of two points on the curve is
/// on the curve.
pub proof fn lemma_add_on_curve(m: int, p: Pt, q: Pt)
    requires
        m >= 1,
        on_curve(m, p),
        on_curve(m, q),
    ensures
        on_curve(m, pt_add(m, p, q)),
{
    let s = raw_add(p, q);
    let t = pt_add(m, p, q);
    let np = p.x * p.x + p.y * p.y;
    let nq = q.x * q.x + q.y * q.y;
    lemma_norm_multiplies(p.x, p.y, q.x, q.y);
    lemma_mul_mod_noop_general(s.x, s.x, m);
    lemma_mul_mod_noop_general(s.y, s.y, m);
    lemma_add_mod_noop(s.x * s.x, s.y * s.y, m);
    lemma_add_mod_noop(t.x * t.x, t.y * t.y, m);
    lemma_mul_mod_noop_general(np, nq, m);
    assert(1int * 1int == 1);
}

/// A point on the curve and its negation sum to the identity.
pub proof fn lemma_add_negation(m: int, p: Pt)
    requires
        m >= 1,
        on_curve(m, p),
    ensures
        pt_add(m, p, pt_neg(m, p)) == identity(),
        pt_add(m, pt_neg(m, p), p) == identity(),
        on_curve(m, pt_neg(m, p)),
{
    let n = Pt { x: -p.x, y: p.y };
    lemma_mod_twice(-p.x, m);
    lemma_add_reduced(m, p, n);
    assert(reduced(m, n) == reduced(m, pt_neg(m, p)));
    lemma_add_congruent(m, p, p, pt_neg(m, p), n);
    assert(raw_add(p, n) == (Pt { x: 0, y: p.x * p.x + p.y * p.y })) by {
        assert(p.x * p.y + (-p.x) * p.y == 0) by (nonlinear_arith);
        assert(p.y * p.y - p.x * (-p.x) == p.x * p.x + p.y * p.y) by (nonlinear_arith);
    }
    lemma_small_mod(0, m as nat);
    lemma_add_commutative(m, p, pt_neg(m, p));
    let q = pt_neg(m, p);
    lemma_mul_mod_noop_general(-p.x, -p.x, m);
    assert((-p.x) * (-p.x) == p.x * p.x) by (nonlinear_arith);
    lemma_add_mod_noop(q.x * q.x, q.y * q.y, m);
    lemma_add_mod_noop(p.x * p.x, p.y * p.y, m);
}

/// A multiple by at least one is reduced; every multiple is, over a modulus
/// of at least two.
pub proof fn lemma_mul_reduced(m: int, p: Pt, k: nat)
    requires
        m >= 1,
        k >= 1 || m >= 2,
    ensures
        is_reduced(m, pt_mul(m, p, k)),
        reduced(m, pt_mul(m, p, k)) == pt_mul(m, p, k),
{
    if k >= 1 {
        lemma_add_reduced(m, pt_mul(m, p, (k - 1) as nat), p);
    } else {
        lemma_small_mod(0, m as nat);
        lemma_small_mod(1, m as nat);
    }
}

/// Multiples of a point on the curve are on the curve.
pub proof fn lemma_mul_on_curve(m: int, p: Pt, k: nat)
    requires
        m >= 2,
        on_curve(m, p),
    ensures
        on_curve(m, pt_mul(m, p, k)),
    decreases k,
{
    if k == 0 {
        assert(0int * 0int + 1int * 1int == 1);
        lemma_small_mod(1, m as nat);
    } else {
        lemma_mul_on_curve(m, p, (k - 1) as nat);
        lemma_add_on_curve(m, pt_mul(m, p, (k - 1) as nat), p);
    }
}

/// Multiples add: `(a + b) * p == a * p + b * p`.
pub proof fn lemma_mul_distributes(m: int, p: Pt, a: nat, b: nat)
    requires
        m >= 2,
    ensures
        pt_mul(m, p, a + b) == pt_add(m, pt_mul(m, p, a), pt_mul(m, p, b)),
    decreases b,
{
    if b == 0 {
        lemma_add_identity(m, pt_mul(m, p, a));
        lemma_mul_reduced(m, p, a);
    } else {
        let b1 = (b - 1) as nat;
        lemma_mul_distributes(m, p, a, b1);
        assert(a + b - 1 == a + b1);
        lemma_add_associative(m, pt_mul(m, p, a), pt_mul(m, p, b1), p);
    }
}

/// Every multiple of the identity is the identity.
pub proof fn lemma_mul_identity(m: int, k: nat)
    requires
        m >= 2,
    ensures
        pt_mul(m, identity(), k) == identity(),
    decreases k,
{
    if k > 0 {
        lemma_mul_identity(m, (k - 1) as nat);
        lemma_add_identity(m, identity());
        lemma_small_mod(0, m as nat);
        lemma_small_mod(1, m as nat);
    }
}

/// Multiples compose: `b * (a * p) == (a * b) * p`.
pub proof fn lemma_mul_composes(m: int, p: Pt, a: nat, b: nat)
    requires
        m >= 2,
    ensures
        pt_mul(m, pt_mul(m, p, a), b) == pt_mul(m, p, a * b),
    decreases b,
{
    if b == 0 {
        assert(a * 0 == 0) by (nonlinear_arith);
    } else {
        let b1 = (b - 1) as nat;
        lemma_mul_composes(m, p, a, b1);
        lemma_mul_distributes(m, p, a * b1, a);
        assert(a * b1 + a == a * b) by (nonlinear_arith)
            requires
                b1 + 1 == b,
        ;
    }
}

/// Multiplying by two scalars in turn gives the same point in either order:
/// `b * (a * p) == a * (b * p)`. Two parties who exchange `a * p` and `b * p`
/// therefore arrive at the same shared point.
pub proof fn lemma_mul_commutes(m: int, p: Pt, a: nat, b: nat)
    requires
        m >= 2,
    ensures
        pt_mul(m, pt_mul(m, p, a), b) == pt_mul(m, pt_mul(m, p, b), a),
{
    lemma_mul_composes(m, p, a, b);
    lemma_mul_composes(m, p, b, a);
    assert(a * b == b * a) by (nonlinear_arith);
}

/// Multiples of a point do not depend on which representatives of its
/// coordinates modulo `m` are given.
pub proof fn lemma_mul_congruent(m: int, p: Pt, p2: Pt, k: nat)
    requires
        m >= 1,
        reduced(m, p) == reduced(m, p2),
    ensures
        pt_mul(m, p, k) == pt_mul(m, p2, k),
    decreases k,
{
    if k > 0 {
        let k1 = (k - 1) as nat;
        lemma_mul_congruent(m, p, p2, k1);
        lemma_add_congruent(m, pt_mul(m, p, k1), pt_mul(m, p2, k1), p, p2);
    }
}

/// Where `n * g` is the identity, multiples of `g` depend on the multiplier
/// modulo `n` alone.
pub proof fn lemma_mul_periodic(m: int, g: Pt, n: nat, k: nat)
    requires
        m >= 2,
        n >= 1,
        pt_mul(m, g, n) == identity(),
    ensures
        pt_mul(m, g, k % n) == pt_mul(m, g, k),
{
    let q = k / n;
    let r = k % n;
    lemma_fundamental_div_mod(k as int, n as int);
    lemma_mod_bound(k as int, n as int);
    assert(q >= 0) by (nonlinear_arith)
        requires
            k == n * q + r,
            0 <= r < n,
            k >= 0,
            n >= 1,
    ;
    lemma_mul_composes(m, g, n, q as nat);
    lemma_mul_identity(m, q as nat);
    lemma_mul_distributes(m, g, n * (q as nat), r);
    lemma_add_identity(m, pt_mul(m, g, r));
    lemma_mul_reduced(m, g, r);
}

/// Where adding `g` once more to `j * g` gives `g` again, `j * g` is the
/// identity. This is cancellation, and needs `g` on the curve.
pub proof fn lemma_mul_cancel(m: int, g: Pt, j: nat)
    requires
        m >= 2,
        on_curve(m, g),
        pt_mul(m, g, j + 1) == reduced(m, g),
    ensures
        pt_mul(m, g, j) == identity(),
{
    let h = pt_mul(m, g, j);
    let n = pt_neg(m, g);
    lemma_add_negation(m, g);
    lemma_add_associative(m, h, g, n);
    lemma_add_identity(m, h);
    lemma_mul_reduced(m, g, j);
    lemma_add_reduced(m, g, n);
}

} // verus!
