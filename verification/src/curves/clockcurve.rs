//! The clock curve over a prime field: points, the group operations on
//! them, and multiplication by a scalar with a Montgomery ladder.
use crate::curves::group_law::{
    identity, is_reduced, lemma_add_identity, lemma_add_negation, lemma_add_on_curve,
    lemma_add_reduced, lemma_mul_distributes, lemma_mul_on_curve, lemma_mul_reduced, on_curve,
    pt_add, pt_mul, pt_neg, pt_sub, reduced, Pt,
};
use crate::fields::field::{lemma_square_has_root_31, sqrt_spec, Field};
use vstd::arithmetic::div_mod::*;
use vstd::prelude::*;

verus! {

/// A point with coordinates in the field.
#[derive(Clone, Copy, Debug, PartialEq, Eq, Structural)]
pub struct Point {
    pub x: i8,
    pub y: i8,
}

impl View for Point {
    type V = Pt;

    open spec fn view(&self) -> Pt {
        Pt { x: self.x as int, y: self.y as int }
    }
}

/// The clock curve `x^2 + y^2 = b` with `b == 1` over the field of integers
/// modulo `primer`, with a chosen base point and the identity `(0, 1)`.
#[derive(Debug, Copy, Clone)]
pub struct ClockCurve {
    pub b: i8,
    pub base: Point,
    pub neutral: Point,
    pub primer: i8,
    pub field: Field,
}

/// One step of the ladder. With `r0 == n * p` and `r1` congruent to
/// `(n + 1) * p`, the sums `r0 + r1`, `r0 + r0` and `r1 + r1` are
/// `(2n + 1) * p`, `2n * p` and `(2n + 2) * p`.
proof fn lemma_ladder_step(m: int, p: Pt, n: nat, r0: Pt, r1: Pt)
    requires
        m >= 2,
        r0 == pt_mul(m, p, n),
        reduced(m, r1) == pt_mul(m, p, n + 1),
    ensures
        pt_add(m, r0, r1) == pt_mul(m, p, 2 * n + 1),
        pt_add(m, r0, r0) == pt_mul(m, p, 2 * n),
        pt_add(m, r1, r1) == pt_mul(m, p, 2 * n + 2),
{
    let next = pt_mul(m, p, n + 1);
    lemma_add_reduced(m, r0, r1);
    lemma_add_reduced(m, r1, r1);
    lemma_add_reduced(m, reduced(m, r1), r1);
    lemma_mul_distributes(m, p, n, n + 1);
    lemma_mul_distributes(m, p, n, n);
    lemma_mul_distributes(m, p, n + 1, n + 1);
    assert(n + (n + 1) == 2 * n + 1);
    assert(n + n == 2 * n);
    assert((n + 1) + (n + 1) == 2 * n + 2);
}

impl ClockCurve {
    /// The modulus of the curve's field.
    pub open spec fn modulus(self) -> int {
        self.primer as int
    }

    /// A curve is well formed when its modulus is at least two, its field
    /// has that modulus, its constant is one and its neutral point is the
    /// identity `(0, 1)`.
    pub open spec fn wf(self) -> bool {
        &&& self.primer >= 2
        &&& self.field.prime() == self.primer
        &&& self.b == 1
        &&& self.neutral@ == identity()
    }

    /// The curve that `default` builds: modulus 31 and base point `(2, 20)`.
    pub open spec fn is_default(self) -> bool {
        &&& self.wf()
        &&& self.primer == 31
        &&& self.base@ == (Pt { x: 2, y: 20 })
    }

    /// What `y` yields for `x`: a square root of `1 - x^2`, as `Field::sqrt`
    /// finds it.
    pub open spec fn spec_y(self, x: i8) -> Option<int> {
        sqrt_spec(1 - x * x, self.modulus())
    }

    /// Over the default curve, `y` finds a partner for the x-coordinate of
    /// every point on the curve.
    pub proof fn lemma_default_y_exists(self, p: Pt)
        requires
            self.is_default(),
            on_curve(31, p),
            is_reduced(31, p),
        ensures
            self.spec_y(p.x as i8) is Some,
    {
        let k = (p.x * p.x + p.y * p.y) / 31;
        lemma_fundamental_div_mod(p.x * p.x + p.y * p.y, 31);
        assert(1 - p.x * p.x == 31 * (-k) + p.y * p.y);
        lemma_mod_multiples_vanish(-k, p.y * p.y, 31);
        lemma_square_has_root_31(p.y);
    }

    /// The sum of two points: `(x1 * y2 + x2 * y1, y2 * y1 - x1 * x2)`. The
    /// sum of two points on the curve is on the curve.
    pub fn scalar_add(self, p1: Point, p2: Point) -> (r: Point)
        requires
            self.wf(),
        ensures
            r@ == pt_add(self.modulus(), p1@, p2@),
            is_reduced(self.modulus(), r@),
            on_curve(self.modulus(), p1@) && on_curve(self.modulus(), p2@) ==> on_curve(
                self.modulus(),
                r@,
            ),
    {
        let x1y2 = self.field.mul(p1.x, p2.y);
        let x2y1 = self.field.mul(p2.x, p1.y);
        let x3 = self.field.add(x1y2, x2y1);

        let y2y1 = self.field.mul(p2.y, p1.y);
        let x1x2 = self.field.mul(p1.x, p2.x);
        let y3 = self.field.sub(y2y1, x1x2);
        proof {
            let m = self.modulus();
            lemma_add_mod_noop(p1.x * p2.y, p2.x * p1.y, m);
            lemma_sub_mod_noop(p2.y * p1.y, p1.x * p2.x, m);
            if on_curve(m, p1@) && on_curve(m, p2@) {
                lemma_add_on_curve(m, p1@, p2@);
            }
        }
        Point { x: x3, y: y3 }
    }

    /// The difference of two points: the first plus the negation of the
    /// second.
    pub fn scalar_sub(self, p1: Point, p2: Point) -> (r: Point)
        requires
            self.wf(),
        ensures
            r@ == pt_sub(self.modulus(), p1@, p2@),
            is_reduced(self.modulus(), r@),
    {
        self.scalar_add(p1, self.point_neg(p2))
    }

    /// The negation `(-x, y)` of a point. A point on the curve and its
    /// negation sum to the identity.
    pub fn point_neg(self, p1: Point) -> (r: Point)
        requires
            self.wf(),
        ensures
            r@ == pt_neg(self.modulus(), p1@),
            on_curve(self.modulus(), p1@) ==> on_curve(self.modulus(), r@) && pt_add(
                self.modulus(),
                p1@,
                r@,
            ) == identity(),
    {
        let x = self.field.sub(self.primer, p1.x);
        proof {
            let m = self.modulus();
            lemma_mod_multiples_vanish(1, -(p1.x as int), m);
            if on_curve(m, p1@) {
                lemma_add_negation(m, p1@);
            }
        }
        Point { x, y: p1.y }
    }

    /// The sum of a point with itself.
    pub fn scalar_double(self, p: Point) -> (r: Point)
        requires
            self.wf(),
        ensures
            r@ == pt_add(self.modulus(), p@, p@),
            is_reduced(self.modulus(), r@),
    {
        self.scalar_add(p, p)
    }

    /// The multiple `k * p` for a scalar `k` of at least one: the `k`-fold
    /// sum of `p` with itself. It walks the bits of `k` from the most
    /// significant down, keeping `n * p` and `(n + 1) * p` for the number `n`
    /// that the bits read so far spell. No multiple is defined for a scalar
    /// of zero or less: to pass one is the caller's error, and the
    /// precondition rules it out.
    pub fn scalar_mul(self, p: Point, k: i8) -> (r: Point)
        requires
            self.wf(),
            k >= 1,
        ensures
            r@ == pt_mul(self.modulus(), p@, k as nat),
            is_reduced(self.modulus(), r@),
            on_curve(self.modulus(), p@) ==> on_curve(self.modulus(), r@),
    {
        let ku: u8 = k as u8;
        let mut r0 = self.neutral;
        let mut r1 = Point { x: p.x, y: p.y };

        let mut bits: u8 = 0;
        let mut k1: u8 = ku;
        assert(ku >> 0u8 == ku) by (bit_vector);
        while k1 > 0
            invariant
                ku <= 127,
                bits <= 7,
                k1 == ku >> bits,
            decreases k1,
        {
            assert(bits < 7 && (ku >> bits) >> 1u8 == ku >> ((bits + 1) as u8) && (ku >> bits) >> 1u8
                < ku >> bits) by (bit_vector)
                requires
                    ku <= 127,
                    bits <= 7,
                    ku >> bits > 0,
            ;
            bits += 1;
            k1 = k1 >> 1u8;
        }

        let mut i: u8 = bits;
        proof {
            let m = self.modulus();
            lemma_add_identity(m, p@);
            lemma_mod_twice(p.x as int, m);
            lemma_mod_twice(p.y as int, m);
            lemma_mul_reduced(m, p@, 0);
        }
        while i > 0
            invariant
                self.wf(),
                ku <= 127,
                i <= bits <= 7,
                r0@ == pt_mul(self.modulus(), p@, (ku >> i) as nat),
                reduced(self.modulus(), r1@) == pt_mul(self.modulus(), p@, ((ku >> i) + 1) as nat),
            decreases i,
        {
            let ghost n = ku >> i;
            i -= 1;
            let bit = (ku >> i) & 1u8;
            proof {
                assert(ku >> i == 2 * (ku >> ((i + 1) as u8)) + ((ku >> i) & 1u8) && ((ku >> i)
                    & 1u8) <= 1) by (bit_vector)
                    requires
                        i < 7,
                        ku <= 127,
                ;
                lemma_ladder_step(self.modulus(), p@, n as nat, r0@, r1@);
            }
            if bit == 0 {
                r1 = self.scalar_add(r0, r1);
                r0 = self.scalar_double(r0);
            } else {
                r0 = self.scalar_add(r0, r1);
                r1 = self.scalar_double(r1);
            }
            proof {
                lemma_add_reduced(self.modulus(), r1@, r1@);
                lemma_mul_reduced(self.modulus(), p@, ((ku >> i) + 1) as nat);
            }
        }
        proof {
            lemma_mul_reduced(self.modulus(), p@, k as nat);
            if on_curve(self.modulus(), p@) {
                lemma_mul_on_curve(self.modulus(), p@, k as nat);
            }
        }
        r0
    }

    /// The multiple `k * base` of the curve's base point.
    pub fn scalar_basemul(self, k: i8) -> (r: Point)
        requires
            self.wf(),
            k >= 1,
        ensures
            r@ == pt_mul(self.modulus(), self.base@, k as nat),
            is_reduced(self.modulus(), r@),
            on_curve(self.modulus(), self.base@) ==> on_curve(self.modulus(), r@),
    {
        self.scalar_mul(self.base, k)
    }

    /// Whether the point satisfies the curve's equation `x^2 + y^2 = 1`.
    pub fn is_on_curve(self, p: Point) -> (res: bool)
        requires
            self.wf(),
        ensures
            res == on_curve(self.modulus(), p@),
    {
        let xx = self.field.mul(p.x, p.x);
        let yy = self.field.mul(p.y, p.y);
        proof {
            lemma_add_mod_noop(p.x * p.x, p.y * p.y, self.modulus());
        }
        self.field.add(xx, yy) == self.b
    }

    /// A `y` that goes with `x` on the curve, where `Field::sqrt` finds a
    /// square root of `1 - x^2`; nothing where it finds none.
    pub fn y(self, x: i8) -> (res: Option<i8>)
        requires
            self.wf(),
        ensures
            res is Some <==> self.spec_y(x) is Some,
            res matches Some(v) ==> self.spec_y(x) == Some(v as int),
            res matches Some(v) ==> self.modulus() % 4 == 3 ==> on_curve(
                self.modulus(),
                Pt { x: x as int, y: v as int },
            ),
    {
        let xx = self.field.mul(x, x);
        let yy = self.field.sub(self.b, xx);
        let res = self.field.sqrt(yy);
        proof {
            let m = self.modulus();
            lemma_sub_mod_noop_right(1, x * x, m);
            lemma_mod_twice(1 - x * x, m);
            if let Some(v) = res {
                if m % 4 == 3 {
                    lemma_add_mod_noop(x * x, v * v, m);
                    lemma_add_mod_noop(x * x, 1 - x * x, m);
                    lemma_small_mod(1, m as nat);
                }
            }
        }
        res
    }
}

impl Default for ClockCurve {
    /// The curve over the field of 31 elements with base point `(2, 20)`.
    fn default() -> (c: Self)
        ensures
            c.is_default(),
    {
        ClockCurve {
            b: 1,
            primer: 31,
            base: Point { x: 2, y: 20 },
            neutral: Point { x: 0, y: 1 },
            field: Field::new(31),
        }
    }
}

} // verus!
