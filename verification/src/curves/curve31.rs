//! The clock curve over the field of 31 elements, with scalar
//! multiplication by plain repeated addition.
use crate::curves::group_law::{
    is_reduced, lemma_add_on_curve, lemma_add_reduced, lemma_mul_one, on_curve, pt_add, pt_mul,
    reduced, Pt,
};
use crate::fields::field::{sqrt_spec, Field};
use vstd::arithmetic::div_mod::*;
use vstd::prelude::*;

verus! {

/// A point with coordinates in the field of 31 elements.
#[derive(PartialEq, Eq, Structural, Debug, Copy, Clone)]
pub struct Point {
    pub x: i8,
    pub y: i8,
}

impl View for Point {
    type V = Pt;

    open spec fn view(&self) -> Pt {
        Pt { x: self.x as int, y: self.y as int }
    }
}

/// The clock curve `x^2 + y^2 = 1` over the field of 31 elements, with base
/// point `(2, 20)`.
#[derive(Debug)]
pub struct Curve31 {
    b: i8,
    primer: i8,
    base: Point,
    field: Field,
}

impl Curve31 {
    #[verifier::type_invariant]
    spec fn inv(self) -> bool {
        &&& self.b == 1
        &&& self.primer == 31
        &&& self.base@ == (Pt { x: 2, y: 20 })
        &&& self.field.prime() == 31
    }

    /// The modulus of the curve's field.
    pub closed spec fn spec_primer(self) -> int {
        self.primer as int
    }

    /// The curve's base point.
    pub closed spec fn spec_base(self) -> Pt {
        self.base@
    }

    /// The modulus of the curve's field, 31.
    pub fn primer(&self) -> (p: i8)
        ensures
            p == 31,
            p == self.spec_primer(),
    {
        proof {
            use_type_invariant(self);
        }
        self.primer
    }

    /// The sum of two points: `(x1 * y2 + x2 * y1, y2 * y1 - x1 * x2)`. The
    /// sum of two points on the curve is on the curve.
    pub fn scalar_add(&self, p1: Point, p2: Point) -> (r: Point)
        ensures
            r@ == pt_add(31, p1@, p2@),
            is_reduced(31, r@),
            on_curve(31, p1@) && on_curve(31, p2@) ==> on_curve(31, r@),
    {
        proof {
            use_type_invariant(self);
        }
        let x1y2 = self.field.mul(p1.x, p2.y);
        let x2y1 = self.field.mul(p2.x, p1.y);
        let x3 = self.field.add(x1y2, x2y1);

        let y2y1 = self.field.mul(p2.y, p1.y);
        let x1x2 = self.field.mul(p1.x, p2.x);
        let y3 = self.field.sub(y2y1, x1x2);
        proof {
            lemma_add_mod_noop(p1.x * p2.y, p2.x * p1.y, 31);
            lemma_sub_mod_noop(p2.y * p1.y, p1.x * p2.x, 31);
            if on_curve(31, p1@) && on_curve(31, p2@) {
                lemma_add_on_curve(31, p1@, p2@);
            }
        }
        Point { x: x3, y: y3 }
    }

    /// The sum of a point with itself.
    pub fn scalar_double(&self, p: Point) -> (r: Point)
        ensures
            r@ == pt_add(31, p@, p@),
            is_reduced(31, r@),
    {
        self.scalar_add(p, p)
    }

    /// The multiple `k * p` for a scalar `k` of at least one, by adding `p`
    /// to itself `k - 1` times. For `k == 1` it is `p` as given. A scalar of
    /// zero or less is not accepted.
    pub fn scalar_mul(&self, p: Point, k: i8) -> (r: Point)
        requires
            k >= 1,
        ensures
            k == 1 ==> r == p,
            k >= 2 ==> r@ == pt_mul(31, p@, k as nat),
            reduced(31, r@) == pt_mul(31, p@, k as nat),
    {
        let mut r = Point { x: p.x, y: p.y };
        let mut i: i8 = 1;
        proof {
            lemma_mul_one(31, p@);
        }
        while i < k
            invariant
                1 <= i <= k,
                i == 1 ==> r == p,
                i >= 2 ==> r@ == pt_mul(31, p@, i as nat),
                reduced(31, r@) == pt_mul(31, p@, i as nat),
            decreases k - i,
        {
            proof {
                lemma_add_reduced(31, r@, p@);
            }
            r = self.scalar_add(r, p);
            i += 1;
        }
        r
    }

    /// The multiple `k * base` of the base point `(2, 20)`.
    pub fn scalar_basemul(&self, k: i8) -> (r: Point)
        requires
            k >= 1,
        ensures
            r@ == pt_mul(31, Pt { x: 2, y: 20 }, k as nat),
            self.spec_base() == (Pt { x: 2, y: 20 }),
    {
        proof {
            use_type_invariant(self);
            lemma_mul_one(31, self.base@);
        }
        self.scalar_mul(self.base, k)
    }

    /// Whether the point satisfies the curve's equation `x^2 + y^2 = 1`.
    pub fn is_on_curve(&self, p: Point) -> (res: bool)
        ensures
            res == on_curve(31, p@),
    {
        proof {
            use_type_invariant(self);
        }
        let xx = self.field.mul(p.x, p.x);
        let yy = self.field.mul(p.y, p.y);
        proof {
            lemma_add_mod_noop(p.x * p.x, p.y * p.y, 31);
        }
        self.field.add(xx, yy) == self.b
    }

    /// A `y` that goes with `x` on the curve: a square root of `1 - x^2`
    /// where there is one, nothing where there is none.
    pub fn y(&self, x: i8) -> (res: Option<i8>)
        ensures
            res is Some <==> sqrt_spec(1 - x * x, 31) is Some,
            res matches Some(v) ==> sqrt_spec(1 - x * x, 31) == Some(v as int),
            res matches Some(v) ==> on_curve(31, Pt { x: x as int, y: v as int }),
    {
        proof {
            use_type_invariant(self);
        }
        let xx = self.field.mul(x, x);
        let yy = self.field.sub(self.b, xx);
        let res = self.field.sqrt(yy);
        proof {
            lemma_sub_mod_noop_right(1, x * x, 31);
            lemma_mod_twice(1 - x * x, 31);
            if let Some(v) = res {
                lemma_add_mod_noop(x * x, v * v, 31);
                lemma_add_mod_noop(x * x, 1 - x * x, 31);
            }
        }
        res
    }
}

impl Default for Curve31 {
    /// The curve over the field of 31 elements with base point `(2, 20)`.
    fn default() -> (c: Self)
        ensures
            c.spec_primer() == 31,
            c.spec_base() == (Pt { x: 2, y: 20 }),
    {
        Curve31 { b: 1, primer: 31, base: Point { x: 2, y: 20 }, field: Field::new(31) }
    }
}

} // verus!
