//! The cyclic subgroup that a base point spans: its points in the order of
//! their multipliers, and its order, both found by walking the orbit.
use crate::curves::clockcurve::{ClockCurve, Point};
use crate::curves::group_law::{
    identity, is_reduced, lemma_add_identity, lemma_mul_cancel, lemma_mul_periodic,
    lemma_mul_reduced, on_curve, pt_add, pt_mul, Pt,
};
use vstd::arithmetic::div_mod::lemma_small_mod;
use vstd::prelude::*;

verus! {

/// The first multiplier `n` from `j` on, up to `limit`, for which
/// `(n + 1) * g` is `g` again; `limit + 1` where there is none.
pub open spec fn first_return(m: int, g: Pt, j: nat, limit: nat) -> nat
    decreases limit + 1 - j,
{
    if j > limit {
        j
    } else if pt_mul(m, g, j + 1) == g {
        j
    } else {
        first_return(m, g, j + 1, limit)
    }
}

/// What `first_return` finds, said without recursion: it lies between `j` and
/// `limit + 1`, no multiplier before it returns to `g`, and it does unless
/// it is past the limit.
pub proof fn lemma_first_return(m: int, g: Pt, j: nat, limit: nat)
    requires
        j <= limit + 1,
    ensures
        j <= first_return(m, g, j, limit) <= limit + 1,
        first_return(m, g, j, limit) <= limit ==> pt_mul(
            m,
            g,
            first_return(m, g, j, limit) + 1,
        ) == g,
        forall|i: nat|
            j <= i < first_return(m, g, j, limit) ==> #[trigger] pt_mul(m, g, i + 1) != g,
    decreases limit + 1 - j,
{
    if j <= limit && pt_mul(m, g, j + 1) != g {
        lemma_first_return(m, g, j + 1, limit);
    }
}

/// Where no multiplier from `j` to `limit` returns to `g`, the search runs
/// past the limit.
pub proof fn lemma_first_return_none(m: int, g: Pt, j: nat, limit: nat)
    requires
        j <= limit + 1,
        forall|i: nat| j <= i <= limit ==> #[trigger] pt_mul(m, g, i + 1) != g,
    ensures
        first_return(m, g, j, limit) == limit + 1,
    decreases limit + 1 - j,
{
    if j <= limit {
        lemma_first_return_none(m, g, j + 1, limit);
    }
}

/// The orbit of the point `(2, 20)` modulo 31: none of its multiples from
/// the second to the thirty-second is the point itself, none of the first
/// thirty-one is the identity, the thirty-second is the identity, and the
/// thirty-third is the point again.
pub proof fn lemma_default_orbit()
    ensures
        forall|i: nat|
            1 <= i <= 31 ==> #[trigger] pt_mul(31, Pt { x: 2, y: 20 }, i + 1) != (Pt { x: 2, y: 20 }),
        forall|i: nat| 1 <= i <= 31 ==> #[trigger] pt_mul(31, Pt { x: 2, y: 20 }, i) != identity(),
        pt_mul(31, Pt { x: 2, y: 20 }, 32) == identity(),
        pt_mul(31, Pt { x: 2, y: 20 }, 33) == (Pt { x: 2, y: 20 }),
{
    let g = Pt { x: 2, y: 20 };
    assert(pt_mul(31, g, 0) == identity());
    assert(pt_mul(31, g, 1) == (Pt { x: 2, y: 20 }));
    assert(pt_mul(31, g, 2) == (Pt { x: 18, y: 24 }));
    assert(pt_mul(31, g, 3) == (Pt { x: 5, y: 10 }));
    assert(pt_mul(31, g, 4) == (Pt { x: 27, y: 4 }));
    assert(pt_mul(31, g, 5) == (Pt { x: 21, y: 26 }));
    assert(pt_mul(31, g, 6) == (Pt { x: 7, y: 13 }));
    assert(pt_mul(31, g, 7) == (Pt { x: 11, y: 29 }));
    assert(pt_mul(31, g, 8) == (Pt { x: 30, y: 0 }));
    assert(pt_mul(31, g, 9) == (Pt { x: 11, y: 2 }));
    assert(pt_mul(31, g, 10) == (Pt { x: 7, y: 18 }));
    assert(pt_mul(31, g, 11) == (Pt { x: 21, y: 5 }));
    assert(pt_mul(31, g, 12) == (Pt { x: 27, y: 27 }));
    assert(pt_mul(31, g, 13) == (Pt { x: 5, y: 21 }));
    assert(pt_mul(31, g, 14) == (Pt { x: 18, y: 7 }));
    assert(pt_mul(31, g, 15) == (Pt { x: 2, y: 11 }));
    assert(pt_mul(31, g, 16) == (Pt { x: 0, y: 30 }));
    assert(pt_mul(31, g, 17) == (Pt { x: 29, y: 11 }));
    assert(pt_mul(31, g, 18) == (Pt { x: 13, y: 7 }));
    assert(pt_mul(31, g, 19) == (Pt { x: 26, y: 21 }));
    assert(pt_mul(31, g, 20) == (Pt { x: 4, y: 27 }));
    assert(pt_mul(31, g, 21) == (Pt { x: 10, y: 5 }));
    assert(pt_mul(31, g, 22) == (Pt { x: 24, y: 18 }));
    assert(pt_mul(31, g, 23) == (Pt { x: 20, y: 2 }));
    assert(pt_mul(31, g, 24) == (Pt { x: 1, y: 0 }));
    assert(pt_mul(31, g, 25) == (Pt { x: 20, y: 29 }));
    assert(pt_mul(31, g, 26) == (Pt { x: 24, y: 13 }));
    assert(pt_mul(31, g, 27) == (Pt { x: 10, y: 26 }));
    assert(pt_mul(31, g, 28) == (Pt { x: 4, y: 4 }));
    assert(pt_mul(31, g, 29) == (Pt { x: 26, y: 10 }));
    assert(pt_mul(31, g, 30) == (Pt { x: 13, y: 24 }));
    assert(pt_mul(31, g, 31) == (Pt { x: 29, y: 20 }));
    assert(pt_mul(31, g, 32) == (Pt { x: 0, y: 1 }));
    assert(pt_mul(31, g, 33) == (Pt { x: 2, y: 20 }));
}

/// A cyclic subgroup of the curve's points, spanned by `basepoint`.
#[derive(Debug, Clone, Copy)]
pub struct SubGroup {
    pub infinity: Point,
    pub basepoint: Point,
    pub curve: ClockCurve,
}

impl SubGroup {
    /// A subgroup is well formed when its curve is, with a modulus of at
    /// most 126 so that the order fits its type, its `infinity` is the
    /// identity `(0, 1)`, and its base point is on the curve.
    pub open spec fn wf(self) -> bool {
        &&& self.curve.wf()
        &&& self.curve.primer <= 126
        &&& self.infinity@ == identity()
        &&& on_curve(self.curve.modulus(), self.basepoint@)
    }

    /// The subgroup that `default` builds: the default curve with its base
    /// point `(2, 20)`.
    pub open spec fn is_default(self) -> bool {
        &&& self.wf()
        &&& self.curve.is_default()
        &&& self.basepoint@ == (Pt { x: 2, y: 20 })
    }

    /// The order of the subgroup: the number of points that the orbit of the
    /// base point visits before it is back at the base point, counted up to
    /// the modulus plus one.
    pub open spec fn spec_order(self) -> nat {
        first_return(self.curve.modulus(), self.basepoint@, 1, self.curve.modulus() as nat)
    }

    /// Whether the orbit closes: the order times the base point is the
    /// identity.
    pub open spec fn closes(self) -> bool {
        pt_mul(self.curve.modulus(), self.basepoint@, self.spec_order()) == identity()
    }

    /// The order is at least one and at most the modulus plus one, and where
    /// it is less than that, the orbit closes.
    pub proof fn lemma_order_bounds(self)
        requires
            self.wf(),
        ensures
            1 <= self.spec_order() <= self.curve.modulus() + 1,
            self.spec_order() <= self.curve.modulus() ==> self.closes(),
    {
        let m = self.curve.modulus();
        let g = self.basepoint@;
        let n = self.spec_order();
        lemma_first_return(m, g, 1, m as nat);
        if n <= m {
            lemma_mul_reduced(m, g, n + 1);
            lemma_mul_cancel(m, g, n);
        }
    }

    /// Where the base point has its coordinates in the field, no multiple of
    /// it below the order is the identity. With `closes`, the order is then
    /// the least positive scalar that takes the base point to the identity.
    pub proof fn lemma_order_is_least(self, j: nat)
        requires
            self.wf(),
            is_reduced(self.curve.modulus(), self.basepoint@),
            1 <= j < self.spec_order(),
        ensures
            pt_mul(self.curve.modulus(), self.basepoint@, j) != identity(),
    {
        let m = self.curve.modulus();
        let g = self.basepoint@;
        lemma_first_return(m, g, 1, m as nat);
        if pt_mul(m, g, j) == identity() {
            lemma_add_identity(m, g);
            lemma_small_mod(g.x as nat, m as nat);
            lemma_small_mod(g.y as nat, m as nat);
            assert(pt_mul(m, g, j + 1) == pt_add(m, pt_mul(m, g, j), g));
            assert(pt_mul(m, g, j + 1) == g);
        }
    }

    /// The default subgroup has order 32, and its orbit closes.
    pub proof fn lemma_default_order(self)
        requires
            self.is_default(),
        ensures
            self.spec_order() == 32,
            self.closes(),
    {
        lemma_default_orbit();
        lemma_first_return_none(31, self.basepoint@, 1, 31);
    }

    /// In the default subgroup, `k` times the base point is the identity
    /// exactly where `k` is a multiple of 32.
    pub proof fn lemma_default_multiples(self, k: nat)
        requires
            self.is_default(),
        ensures
            pt_mul(31, self.basepoint@, k) == identity() <==> k % 32 == 0,
    {
        lemma_default_orbit();
        lemma_mul_periodic(31, self.basepoint@, 32, k);
        assert(pt_mul(31, self.basepoint@, 0) == identity());
    }

    /// The subgroup of the default curve spanned by `g`, which must be on
    /// the curve.
    pub fn new(g: Point) -> (sub: Self)
        requires
            on_curve(31, g@),
        ensures
            sub.wf(),
            sub.curve.is_default(),
            sub.basepoint == g,
    {
        let curv = ClockCurve::default();
        SubGroup { infinity: Point { x: 0, y: 1 }, basepoint: g, curve: curv }
    }

    /// The multiple `a * basepoint`, for a scalar of at least one.
    pub fn scalar_basemul(&self, a: i8) -> (r: Point)
        requires
            self.wf(),
            a >= 1,
        ensures
            r@ == pt_mul(self.curve.modulus(), self.basepoint@, a as nat),
            is_reduced(self.curve.modulus(), r@),
            on_curve(self.curve.modulus(), r@),
    {
        self.curve.scalar_mul(self.basepoint, a)
    }

    /// The points of the subgroup in the order of their multipliers: the base
    /// point, twice the base point, and so on, up to the last one before the
    /// base point comes again.
    pub fn points(&self) -> (points: Vec<Point>)
        requires
            self.wf(),
        ensures
            points@.len() == self.spec_order(),
            points@[0] == self.basepoint,
            forall|i: int|
                1 <= i < points@.len() ==> (#[trigger] points@[i])@ == pt_mul(
                    self.curve.modulus(),
                    self.basepoint@,
                    (i + 1) as nat,
                ),
    {
        let mut points: Vec<Point> = Vec::new();
        points.push(self.basepoint);
        let limit: i16 = self.curve.primer as i16 + 1;
        let mut i: i16 = 2;
        let ghost m = self.curve.modulus();
        let ghost g = self.basepoint@;
        while i <= limit
            invariant
                self.wf(),
                m == self.curve.modulus(),
                g == self.basepoint@,
                limit == m + 1,
                2 <= i <= limit + 1,
                points@.len() == i - 1,
                points@[0] == self.basepoint,
                forall|j: int|
                    1 <= j < points@.len() ==> (#[trigger] points@[j])@ == pt_mul(m, g, (j + 1) as nat),
                first_return(m, g, 1, m as nat) == first_return(m, g, (i - 1) as nat, m as nat),
            ensures
                points@.len() == first_return(m, g, 1, m as nat),
            decreases limit + 1 - i,
        {
            let p = self.curve.scalar_mul(self.basepoint, i as i8);
            if p == self.basepoint {
                break ;
            }
            points.push(p);
            i += 1;
        }
        points
    }

    /// The order of the subgroup: the number of its points.
    pub fn order(&self) -> (n: i8)
        requires
            self.wf(),
        ensures
            n == self.spec_order(),
            1 <= n <= self.curve.modulus() + 1,
    {
        proof {
            self.lemma_order_bounds();
        }
        let points = self.points();
        points.len() as i8
    }
}

impl Default for SubGroup {
    /// The subgroup of the default curve spanned by its base point `(2, 20)`.
    fn default() -> (sub: Self)
        ensures
            sub.is_default(),
    {
        assert(on_curve(31, Pt { x: 2, y: 20 }));
        SubGroup::new(Point { x: 2, y: 20 })
    }
}

} // verus!
