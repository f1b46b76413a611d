//! Signatures in the style of Schnorr over a cyclic subgroup of the clock
//! curve, with a toy hash that mixes a point's coordinates with the message.
use crate::algebra::arith::{
    lemma_mod_inverse_exists, lemma_mul_congruent, lemma_sub_congruent, mod_add, mod_inverse,
    mod_mul,
};
use crate::algebra::gcd::gcd_spec;
use crate::curves::clockcurve::Point;
use crate::curves::group_law::{
    identity, is_reduced, lemma_add_regroup, lemma_mul_composes, lemma_mul_distributes,
    lemma_mul_on_curve, lemma_mul_periodic, lemma_mul_reduced, on_curve, pt_add, pt_mul, Pt,
};
use crate::subgroups::subgroup::SubGroup;
use vstd::arithmetic::div_mod::*;
use vstd::arithmetic::power::pow;
use vstd::prelude::*;

verus! {

/// The signature scheme over one subgroup.
#[derive(Debug, Clone, Copy)]
pub struct Schnorr {
    pub group: SubGroup,
}

impl Schnorr {
    /// The scheme is usable when its subgroup is well formed.
    pub open spec fn wf(self) -> bool {
        self.group.wf()
    }

    /// The public key of a private scalar: that multiple of the curve's base
    /// point.
    pub open spec fn spec_pubkey(self, pk: int) -> Pt {
        pt_mul(self.group.curve.modulus(), self.group.curve.base@, pk as nat)
    }

    /// Whether `x` can be hashed: the curve finds a `y` that goes with it.
    pub open spec fn hashable(self, x: i8) -> bool {
        self.group.curve.spec_y(x) is Some
    }

    /// The hash of a message and an x-coordinate: the `y` that the curve
    /// finds for `x`, folded into the lower half of the field, combined bit
    /// by bit with `x` and the message by exclusive or.
    pub open spec fn spec_hash(self, message: i8, x: i8) -> i8 {
        let p = self.group.curve.modulus();
        let y = self.group.curve.spec_y(x).unwrap();
        let folded = if y > p / 2 {
            p - y
        } else {
            y
        };
        x ^ (folded as i8) ^ message
    }

    /// The signature `(R, s)` of `message` under `private` with the nonce
    /// `randomk`: `R == randomk * basepoint` and
    /// `s == randomk + hash(message, R.x) * private` modulo the subgroup's
    /// order.
    pub open spec fn spec_sign(self, message: i8, private: int, randomk: int) -> (Pt, int) {
        let n = self.group.spec_order() as int;
        let r = pt_mul(self.group.curve.modulus(), self.group.basepoint@, randomk as nat);
        let e = self.spec_hash(message, r.x as i8);
        (r, (randomk + e * private) % n)
    }

    /// Whether `(R, s)` is accepted as a signature of `message` under
    /// `pubkey`: whether `s * basepoint == R + hash(message, R.x) * pubkey`.
    pub open spec fn spec_verify(self, message: i8, pubkey: Pt, r: Pt, s: int) -> bool {
        let m = self.group.curve.modulus();
        let e = self.spec_hash(message, r.x as i8);
        pt_mul(m, self.group.basepoint@, s as nat) == pt_add(m, r, pt_mul(m, pubkey, e as nat))
    }

    /// Whether two signatures are accepted together: whether
    /// `(s1 + s2) * base == (R1 + R2) + (e1 * pubkey1 + e2 * pubkey2)`, with
    /// the sum of scalars taken modulo the subgroup's order and `e1`, `e2` the
    /// hashes.
    pub open spec fn spec_batch_verify(
        self,
        message1: i8,
        pubkey1: Pt,
        r1: Pt,
        s1: int,
        message2: i8,
        pubkey2: Pt,
        r2: Pt,
        s2: int,
    ) -> bool {
        let m = self.group.curve.modulus();
        let n = self.group.spec_order() as int;
        let e1 = self.spec_hash(message1, r1.x as i8);
        let e2 = self.spec_hash(message2, r2.x as i8);
        pt_mul(m, self.group.curve.base@, ((s1 + s2) % n) as nat) == pt_add(
            m,
            pt_add(m, r1, r2),
            pt_add(m, pt_mul(m, pubkey1, e1 as nat), pt_mul(m, pubkey2, e2 as nat)),
        )
    }

    /// Over the default subgroup, every nonce that is not a multiple of 32
    /// can be signed with: its point is not the identity, and the point's
    /// x-coordinate is hashable.
    pub proof fn lemma_default_signable(self, randomk: nat)
        requires
            self.group.is_default(),
            randomk % 32 != 0,
        ensures
            pt_mul(31, self.group.basepoint@, randomk) != identity(),
            self.hashable(pt_mul(31, self.group.basepoint@, randomk).x as i8),
    {
        let r = pt_mul(31, self.group.basepoint@, randomk);
        self.group.lemma_default_multiples(randomk);
        lemma_mul_reduced(31, self.group.basepoint@, randomk);
        lemma_mul_on_curve(31, self.group.basepoint@, randomk);
        self.group.curve.lemma_default_y_exists(r);
    }

    /// For a nonce `k`, a private key `d` and a hash `e`, none of them
    /// negative, the scalar `(k + e * d) % n` times `g` is
    /// `k * g + e * (d * g)`, where `n * g` is the identity.
    proof fn lemma_signature_point(m: int, g: Pt, n: nat, k: int, e: int, d: int)
        requires
            m >= 2,
            n >= 1,
            pt_mul(m, g, n) == identity(),
            k >= 0,
            e >= 0,
            d >= 0,
        ensures
            0 <= k + e * d,
            0 <= d * e,
            pt_mul(m, g, ((k + e * d) % (n as int)) as nat) == pt_mul(m, g, (k + e * d) as nat),
            pt_mul(m, g, (k + e * d) as nat) == pt_add(
                m,
                pt_mul(m, g, k as nat),
                pt_mul(m, pt_mul(m, g, d as nat), e as nat),
            ),
    {
        assert(e * d >= 0 && e * d == d * e) by (nonlinear_arith)
            requires
                e >= 0,
                d >= 0,
        ;
        lemma_mul_periodic(m, g, n, (k + e * d) as nat);
        lemma_mul_distributes(m, g, k as nat, (e * d) as nat);
        lemma_mul_composes(m, g, d as nat, e as nat);
    }

    /// A signature made with a private key is accepted under the public key
    /// that belongs to it. This holds over a subgroup whose orbit closes and
    /// whose base point is the curve's, for every message, every private key
    /// and nonce of at least one, where the hash is not negative.
    pub proof fn lemma_sign_then_verify(self, message: i8, private: int, randomk: int)
        requires
            self.wf(),
            self.group.closes(),
            self.group.basepoint@ == self.group.curve.base@,
            private >= 1,
            randomk >= 1,
            self.spec_hash(message, self.spec_sign(message, private, randomk).0.x as i8) >= 0,
        ensures
            self.spec_verify(
                message,
                self.spec_pubkey(private),
                self.spec_sign(message, private, randomk).0,
                self.spec_sign(message, private, randomk).1,
            ),
    {
        let n = self.group.spec_order();
        let m = self.group.curve.modulus();
        let g = self.group.basepoint@;
        let r = self.spec_sign(message, private, randomk).0;
        let e = self.spec_hash(message, r.x as i8) as int;
        self.group.lemma_order_bounds();
        Self::lemma_signature_point(m, g, n, randomk, e, private);
        lemma_mod_bound(randomk + e * private, n as int);
    }

    /// Two signatures, each made with its own private key and nonce, are
    /// accepted together under the public keys that belong to them. This
    /// holds over a subgroup whose orbit closes and whose base point is the
    /// curve's, where neither hash is negative.
    pub proof fn lemma_sign_then_batch_verify(
        self,
        message1: i8,
        private1: int,
        randomk1: int,
        message2: i8,
        private2: int,
        randomk2: int,
    )
        requires
            self.wf(),
            self.group.closes(),
            self.group.basepoint@ == self.group.curve.base@,
            private1 >= 1,
            randomk1 >= 1,
            private2 >= 1,
            randomk2 >= 1,
            self.spec_hash(message1, self.spec_sign(message1, private1, randomk1).0.x as i8) >= 0,
            self.spec_hash(message2, self.spec_sign(message2, private2, randomk2).0.x as i8) >= 0,
        ensures
            self.spec_batch_verify(
                message1,
                self.spec_pubkey(private1),
                self.spec_sign(message1, private1, randomk1).0,
                self.spec_sign(message1, private1, randomk1).1,
                message2,
                self.spec_pubkey(private2),
                self.spec_sign(message2, private2, randomk2).0,
                self.spec_sign(message2, private2, randomk2).1,
            ),
    {
        let n = self.group.spec_order();
        let m = self.group.curve.modulus();
        let g = self.group.basepoint@;
        let r1 = self.spec_sign(message1, private1, randomk1).0;
        let r2 = self.spec_sign(message2, private2, randomk2).0;
        let e1 = self.spec_hash(message1, r1.x as i8) as int;
        let e2 = self.spec_hash(message2, r2.x as i8) as int;
        let t1 = randomk1 + e1 * private1;
        let t2 = randomk2 + e2 * private2;
        let q1 = pt_mul(m, pt_mul(m, g, private1 as nat), e1 as nat);
        let q2 = pt_mul(m, pt_mul(m, g, private2 as nat), e2 as nat);
        self.group.lemma_order_bounds();
        Self::lemma_signature_point(m, g, n, randomk1, e1, private1);
        Self::lemma_signature_point(m, g, n, randomk2, e2, private2);
        lemma_add_mod_noop(t1, t2, n as int);
        lemma_mod_bound(t1 % (n as int) + t2 % (n as int), n as int);
        lemma_mul_periodic(m, g, n, (t1 + t2) as nat);
        // (t1 + t2) * g is the sum of the two signatures' points, regrouped.
        lemma_mul_distributes(m, g, t1 as nat, t2 as nat);
        lemma_add_regroup(m, r1, q1, r2, q2);
    }

    /// Reusing a nonce gives the private key away. For two signatures
    /// `s1 == k + e1 * d` and `s2 == k + e2 * d` modulo `n` with the same
    /// nonce `k` and private key `d`, the quotient
    /// `(s1 - s2) / (e1 - e2)` modulo `n` is `d`, wherever `e1 - e2` has an
    /// inverse.
    pub proof fn lemma_nonce_reuse_reveals_key(k: int, d: int, e1: int, e2: int, n: int)
        requires
            n >= 1,
            gcd_spec((e1 - e2) % n, n) == 1,
        ensures
            ((((k + e1 * d) % n - (k + e2 * d) % n) % n) * mod_inverse((e1 - e2) % n, n)) % n == d
                % n,
    {
        let s1 = (k + e1 * d) % n;
        let s2 = (k + e2 * d) % n;
        let a = (s1 - s2) % n;
        let b = (e1 - e2) % n;
        let bi = mod_inverse(b, n);
        lemma_mod_inverse_exists(b, n);
        lemma_mod_twice(k + e1 * d, n);
        lemma_mod_twice(k + e2 * d, n);
        lemma_sub_congruent(s1, k + e1 * d, s2, k + e2 * d, n);
        assert((k + e1 * d) - (k + e2 * d) == (e1 - e2) * d) by (nonlinear_arith);
        lemma_mod_twice(s1 - s2, n);
        lemma_mod_twice(e1 - e2, n);
        lemma_mul_congruent(e1 - e2, b, d, d, n);
        // a is congruent to b * d
        lemma_mul_congruent(a, b * d, bi, bi, n);
        assert((b * d) * bi == d * (b * bi)) by (nonlinear_arith);
        lemma_mul_congruent(d, d, b * bi, 1, n);
        assert(d * 1 == d);
    }

    /// The scheme over the default subgroup.
    pub fn new() -> (sch: Self)
        ensures
            sch.group.is_default(),
    {
        Schnorr { group: SubGroup::default() }
    }

    /// The public key of the private scalar `pk`, of at least one.
    pub fn pubkey(&self, pk: i8) -> (r: Point)
        requires
            self.wf(),
            pk >= 1,
        ensures
            r@ == self.spec_pubkey(pk as int),
    {
        self.group.curve.scalar_basemul(pk)
    }

    /// The hash of `message` and the x-coordinate `x`, for which the curve
    /// must find a `y`.
    pub fn hash(&self, message: i8, x: i8) -> (e: i8)
        requires
            self.wf(),
            self.hashable(x),
        ensures
            e == self.spec_hash(message, x),
    {
        let prime = self.group.curve.primer;
        let mut y = self.group.curve.y(x).unwrap();
        proof {
            let r = (1 - x * x) % (prime as int);
            lemma_mod_bound(1 - x * x, prime as int);
            lemma_mod_bound(pow(r, ((prime + 1) / 4) as nat), prime as int);
        }
        if y > prime / 2 {
            y = prime - y;
        }
        x ^ y ^ message
    }

    /// Signs `message` under `private` with the nonce `randomk`, of at least
    /// one. The point `randomk * basepoint` must not be the identity, and
    /// its x-coordinate must be hashable.
    pub fn sign(&self, message: i8, private: i8, randomk: i8) -> (sig: (Point, i8))
        requires
            self.wf(),
            randomk >= 1,
            pt_mul(self.group.curve.modulus(), self.group.basepoint@, randomk as nat)
                != identity(),
            self.hashable(
                pt_mul(self.group.curve.modulus(), self.group.basepoint@, randomk as nat).x as i8,
            ),
        ensures
            (sig.0@, sig.1 as int) == self.spec_sign(message, private as int, randomk as int),
            is_reduced(self.group.curve.modulus(), sig.0@),
            on_curve(self.group.curve.modulus(), sig.0@),
            0 <= sig.1 < self.group.spec_order(),
    {
        let m = self.group.order();

        // r = (k*G)
        let r = self.group.scalar_basemul(randomk);

        // e = hash(r|m)
        let e = self.hash(message, r.x);

        // s = k + e*pk
        let s = mod_add(randomk, mod_mul(e, private, m), m);
        proof {
            lemma_add_mod_noop_right(randomk as int, e * private, m as int);
        }
        (r, s)
    }

    /// Checks the signature `(r, s)` of `message` under `pubkey`. The scalar
    /// `s` and the hash must be at least one, and `r.x` hashable.
    pub fn verify(&self, message: i8, pubkey: Point, r: Point, s: i8) -> (accepted: bool)
        requires
            self.wf(),
            s >= 1,
            self.hashable(r.x),
            self.spec_hash(message, r.x) >= 1,
        ensures
            accepted == self.spec_verify(message, pubkey@, r@, s as int),
    {
        let e = self.hash(message, r.x);

        // check s*G = R + e*pubkey
        let s1 = self.group.scalar_basemul(s);
        let s2 = self.group.curve.scalar_add(r, self.group.curve.scalar_mul(pubkey, e));
        s1 == s2
    }

    /// Checks two signatures together. The sum of the two scalars must not
    /// be a multiple of the subgroup's order, both hashes must be at least
    /// one, and both x-coordinates hashable.
    pub fn batch_verify(
        &self,
        message1: i8,
        pubkey1: Point,
        r1: Point,
        s1: i8,
        message2: i8,
        pubkey2: Point,
        r2: Point,
        s2: i8,
    ) -> (accepted: bool)
        requires
            self.wf(),
            (s1 + s2) % (self.group.spec_order() as int) != 0,
            self.hashable(r1.x),
            self.hashable(r2.x),
            self.spec_hash(message1, r1.x) >= 1,
            self.spec_hash(message2, r2.x) >= 1,
        ensures
            accepted == self.spec_batch_verify(
                message1,
                pubkey1@,
                r1@,
                s1 as int,
                message2,
                pubkey2@,
                r2@,
                s2 as int,
            ),
    {
        let m = self.group.order();

        // (s1+s2)*G
        let ssum = mod_add(s1, s2, m);
        let s = self.group.curve.scalar_basemul(ssum);

        // (r1+r2)
        let r = self.group.curve.scalar_add(r1, r2);

        let e1 = self.hash(message1, r1.x);
        let e2 = self.hash(message2, r2.x);
        let t1 = self.group.curve.scalar_mul(pubkey1, e1);
        let t2 = self.group.curve.scalar_mul(pubkey2, e2);

        // (r1+r2) + (e1*pubkey1 + e2*pubkey2)
        let final_s = self.group.curve.scalar_add(r, self.group.curve.scalar_add(t1, t2));
        s == final_s
    }
}

impl Default for Schnorr {
    /// The scheme over the default subgroup.
    fn default() -> (sch: Self)
        ensures
            sch.group.is_default(),
    {
        Schnorr::new()
    }
}

} // verus!
