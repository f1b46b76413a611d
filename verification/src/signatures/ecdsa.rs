//! Signatures in the style of ECDSA over a cyclic subgroup of the clock
//! curve. The message stands for its own hash.
use crate::algebra::arith::{
    lemma_add_congruent, lemma_invertible_factor, lemma_mod_inverse_exists, lemma_mul_congruent,
    mod_add, mod_div, mod_inverse, mod_mul, DomainError,
};
use crate::algebra::gcd::gcd_spec;
use crate::curves::clockcurve::Point;
use crate::curves::group_law::{
    lemma_mul_composes, lemma_mul_distributes, lemma_mul_periodic, pt_add, pt_mul, Pt,
};
use crate::subgroups::subgroup::SubGroup;
use vstd::arithmetic::div_mod::*;
use vstd::prelude::*;

verus! {

/// The signature scheme over one subgroup.
#[derive(Debug, Clone, Copy)]
pub struct ECDSA {
    pub group: SubGroup,
}

impl ECDSA {
    /// The scheme is usable when its subgroup is well formed.
    pub open spec fn wf(self) -> bool {
        self.group.wf()
    }

    /// The public key of a private scalar: that multiple of the curve's base
    /// point.
    pub open spec fn spec_pubkey(self, pk: int) -> Pt {
        pt_mul(self.group.curve.modulus(), self.group.curve.base@, pk as nat)
    }

    /// The signature `(r, s)` of `message` under `private` with the nonce
    /// `randomk`: `r` is the x-coordinate of `randomk * basepoint`, and
    /// `s == (message + r * private) / randomk` modulo the subgroup's order.
    /// There is none where the nonce has no inverse modulo the order.
    pub open spec fn spec_sign(self, message: int, private: int, randomk: int) -> Option<
        (int, int),
    > {
        let n = self.group.spec_order() as int;
        let r = pt_mul(self.group.curve.modulus(), self.group.basepoint@, randomk as nat).x;
        if gcd_spec(randomk, n) == 1 {
            Some((r, ((message + r * private) * mod_inverse(randomk, n)) % n))
        } else {
            None
        }
    }

    /// Whether `(r, s)` is accepted as a signature of `message` under
    /// `pubkey`: with `w` the inverse of `s` modulo the order, whether the
    /// point `(message * w) * basepoint + (r * w) * pubkey` has the
    /// x-coordinate `r`. There is no answer where `s` has no inverse.
    pub open spec fn spec_verify(self, message: int, pubkey: Pt, r: int, s: int) -> Option<bool> {
        let n = self.group.spec_order() as int;
        let m = self.group.curve.modulus();
        if gcd_spec(s, n) == 1 {
            let w = mod_inverse(s, n);
            let p1 = pt_mul(m, self.group.basepoint@, ((message * w) % n) as nat);
            let p2 = pt_mul(m, pubkey, ((r * w) % n) as nat);
            Some(pt_add(m, p1, p2).x == r)
        } else {
            None
        }
    }

    /// A signature made with a private key is accepted under the public key
    /// that belongs to it. This holds over a subgroup whose orbit closes and
    /// whose base point is the curve's, for every message, private key and
    /// nonce for which there is a signature, provided its `s` has an inverse
    /// modulo the order (verification has no answer otherwise).
    pub proof fn lemma_sign_then_verify(self, message: int, private: int, randomk: int)
        requires
            self.wf(),
            self.group.closes(),
            self.group.basepoint@ == self.group.curve.base@,
            private >= 1,
            randomk >= 1,
            self.spec_sign(message, private, randomk) is Some,
            gcd_spec(
                self.spec_sign(message, private, randomk).unwrap().1,
                self.group.spec_order() as int,
            ) == 1,
        ensures
            self.spec_verify(
                message,
                self.spec_pubkey(private),
                self.spec_sign(message, private, randomk).unwrap().0,
                self.spec_sign(message, private, randomk).unwrap().1,
            ) == Some(true),
    {
        let n = self.group.spec_order() as int;
        let m = self.group.curve.modulus();
        let g = self.group.basepoint@;
        let (z, d, k) = (message, private, randomk);
        let sig = self.spec_sign(message, private, randomk).unwrap();
        let (r, s) = (sig.0, sig.1);
        self.group.lemma_order_bounds();
        lemma_mod_inverse_exists(k, n);
        lemma_mod_inverse_exists(s, n);
        let ki = mod_inverse(k, n);
        let w = mod_inverse(s, n);
        let h = z + r * d;
        let u1 = (z * w) % n;
        let u2 = (r * w) % n;
        lemma_mod_bound(z * w, n);
        lemma_mod_bound(r * w, n);
        // The point that verification computes is `(u1 + d * u2) * g`.
        lemma_mul_composes(m, g, d as nat, u2 as nat);
        assert(d * u2 >= 0) by (nonlinear_arith)
            requires
                d >= 1,
                u2 >= 0,
        ;
        lemma_mul_distributes(m, g, u1 as nat, (d * u2) as nat);
        let t = u1 + d * u2;
        // Modulo the order, `t` is the nonce.
        lemma_mod_twice(z * w, n);
        lemma_mod_twice(r * w, n);
        lemma_mul_congruent(d, d, u2, r * w, n);
        lemma_add_congruent(u1, z * w, d * u2, d * (r * w), n);
        assert(z * w + d * (r * w) == w * h) by (nonlinear_arith)
            requires
                h == z + r * d,
        ;
        lemma_mod_twice(h * ki, n);
        lemma_mul_congruent(s, h * ki, k, k, n);
        assert((h * ki) * k == h * (k * ki)) by (nonlinear_arith);
        lemma_mul_congruent(h, h, k * ki, 1, n);
        assert(h * 1 == h);
        lemma_mul_congruent(w, w, h, s * k, n);
        assert(w * (s * k) == (s * w) * k) by (nonlinear_arith);
        lemma_mul_congruent(s * w, 1, k, k, n);
        assert(1 * k == k);
        assert(t % n == k % n);
        lemma_mul_periodic(m, g, n as nat, t as nat);
        lemma_mul_periodic(m, g, n as nat, k as nat);
    }

    /// The scheme over the default subgroup.
    pub fn new() -> (e: Self)
        ensures
            e.group.is_default(),
    {
        ECDSA { group: SubGroup::default() }
    }

    /// The public key of the private scalar `pk`, of at least one.
    pub fn pubkey(self, pk: i8) -> (r: Point)
        requires
            self.wf(),
            pk >= 1,
        ensures
            r@ == self.spec_pubkey(pk as int),
    {
        self.group.curve.scalar_basemul(pk)
    }

    /// Signs `message` under `private` with the nonce `randomk`, of at least
    /// one. It fails exactly where the nonce has no inverse modulo the
    /// subgroup's order.
    pub fn sign(self, message: i8, private: i8, randomk: i8) -> (res: Result<(i8, i8), DomainError>)
        requires
            self.wf(),
            randomk >= 1,
        ensures
            res is Ok <==> gcd_spec(randomk as int, self.group.spec_order() as int) == 1,
            res matches Ok(sig) ==> self.spec_sign(message as int, private as int, randomk as int)
                == Some((sig.0 as int, sig.1 as int)),
            res matches Ok(sig) ==> 0 <= sig.0 < self.group.curve.modulus() && 0 <= sig.1
                < self.group.spec_order(),
            res matches Err(e) ==> e == DomainError::NoInverse,
    {
        let m = self.group.order();

        // The message stands for its own hash.
        let z = message;

        // r = (k*G).x
        let r = self.group.scalar_basemul(randomk).x;

        // kinverse = 1/randomk
        let kinverse = match mod_div(1, randomk, m) {
            Ok(v) => v,
            Err(e) => {
                return Err(e);
            },
        };
        // s = (z + r*pk)/k
        let s = mod_mul(mod_add(z, mod_mul(r, private, m), m), kinverse, m);
        proof {
            let n = m as int;
            let ki = mod_inverse(randomk as int, n);
            lemma_mod_inverse_exists(randomk as int, n);
            assert(1 * ki == ki);
            lemma_small_mod(ki as nat, n as nat);
            lemma_add_mod_noop_right(z as int, r * private, n);
            lemma_mul_mod_noop_left(z + r * private, ki, n);
        }
        Ok((r, s))
    }

    /// Checks the signature `(r, s)` of `message` under `pubkey`. It fails
    /// exactly where `s` has no inverse modulo the subgroup's order. Where
    /// `s` has one, neither `message` nor `r` may be a multiple of the order:
    /// each becomes the scalar of a multiplication.
    pub fn verify(self, message: i8, pubkey: Point, r: i8, s: i8) -> (res: Result<
        bool,
        DomainError,
    >)
        requires
            self.wf(),
            gcd_spec(s as int, self.group.spec_order() as int) == 1 ==> (message as int) % (
            self.group.spec_order() as int) != 0 && (r as int) % (self.group.spec_order() as int)
                != 0,
        ensures
            res is Ok <==> gcd_spec(s as int, self.group.spec_order() as int) == 1,
            res matches Ok(accepted) ==> self.spec_verify(
                message as int,
                pubkey@,
                r as int,
                s as int,
            ) == Some(accepted),
            res matches Err(e) ==> e == DomainError::NoInverse,
    {
        let m = self.group.order();

        // The message stands for its own hash.
        let z = message;

        // sinverse = 1/s
        let sinverse = match mod_div(1, s, m) {
            Ok(v) => v,
            Err(e) => {
                return Err(e);
            },
        };
        let u1 = mod_mul(z, sinverse, m);
        let u2 = mod_mul(r, sinverse, m);
        proof {
            let n = m as int;
            let w = mod_inverse(s as int, n);
            lemma_mod_inverse_exists(s as int, n);
            assert(1 * w == w);
            lemma_small_mod(w as nat, n as nat);
            if u1 == 0 {
                lemma_invertible_factor(z as int, w, s as int, n);
            }
            if u2 == 0 {
                lemma_invertible_factor(r as int, w, s as int, n);
            }
        }
        // (z/s)*G
        let p1 = self.group.scalar_basemul(u1);
        // (r/s)*P
        let p2 = self.group.curve.scalar_mul(pubkey, u2);

        // check r == ((z/s)*G + (r/s)*P).x
        Ok(self.group.curve.scalar_add(p1, p2).x == r)
    }
}

impl Default for ECDSA {
    /// The scheme over the default subgroup.
    fn default() -> (e: Self)
        ensures
            e.group.is_default(),
    {
        ECDSA::new()
    }
}

} // verus!
