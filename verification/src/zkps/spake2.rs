//! SPAKE2, a simple password-authenticated key exchange between two peers
//! over the default clock curve.
use crate::curves::clockcurve::{ClockCurve, Point};
use crate::curves::group_law::{
    is_reduced, lemma_add_associative, lemma_add_commutative, lemma_add_identity,
    lemma_add_negation, lemma_mul_composes, lemma_mul_reduced, on_curve, pt_add, pt_mul, pt_neg,
    pt_sub, Pt,
};
use vstd::prelude::*;

verus! {

/// One peer of the exchange: its password, its random and secret scalars,
/// and the points derived from them.
#[derive(Debug)]
pub struct SPAKE2 {
    password: i8,
    secret: i8,
    random: i8,
    secret_pubkey: Point,
    pub password_pubkey: Point,
    pub curve: ClockCurve,
}

impl SPAKE2 {
    /// The peer's secret scalar.
    pub closed spec fn spec_secret(self) -> int {
        self.secret as int
    }

    /// The peer's secret scalar times the base point.
    pub closed spec fn spec_secret_pubkey(self) -> Pt {
        self.secret_pubkey@
    }

    /// The peer's password times its random scalar times the base point.
    pub closed spec fn spec_password_pubkey(self) -> Pt {
        self.password_pubkey@
    }

    /// The peer's curve.
    pub closed spec fn spec_curve(self) -> ClockCurve {
        self.curve
    }

    /// A peer is well formed when it is as `new` leaves it: over the default
    /// curve, with a secret scalar of at least one, its secret point that
    /// multiple of the base point, and its password point on the curve with
    /// coordinates in the field.
    pub open spec fn wf(self) -> bool {
        &&& self.spec_curve().is_default()
        &&& self.spec_secret() >= 1
        &&& self.spec_secret_pubkey() == pt_mul(31, Pt { x: 2, y: 20 }, self.spec_secret() as nat)
        &&& on_curve(31, self.spec_password_pubkey())
        &&& is_reduced(31, self.spec_password_pubkey())
    }

    /// The value that the peer sends in the first round: its password point
    /// plus its secret point.
    pub open spec fn spec_pake_key(self) -> Pt {
        pt_add(31, self.spec_password_pubkey(), self.spec_secret_pubkey())
    }

    /// The key that the peer derives from the other's first-round value and
    /// password point: its secret scalar times their difference.
    pub open spec fn spec_final_key(self, pakekey: Pt, password_pubkey: Pt) -> Pt {
        pt_mul(31, pt_sub(31, pakekey, password_pubkey), self.spec_secret() as nat)
    }

    /// Two peers that exchange their first-round values and password points
    /// derive the same key.
    pub proof fn lemma_peers_agree(alice: SPAKE2, bob: SPAKE2)
        requires
            alice.wf(),
            bob.wf(),
        ensures
            alice.spec_final_key(bob.spec_pake_key(), bob.spec_password_pubkey())
                == bob.spec_final_key(alice.spec_pake_key(), alice.spec_password_pubkey()),
    {
        let g = Pt { x: 2, y: 20 };
        let x = alice.spec_secret() as nat;
        let y = bob.spec_secret() as nat;
        assert(on_curve(31, g));
        Self::lemma_difference(alice.spec_password_pubkey(), x);
        Self::lemma_difference(bob.spec_password_pubkey(), y);
        lemma_mul_composes(31, g, x, y);
        lemma_mul_composes(31, g, y, x);
        assert(x * y == y * x) by (nonlinear_arith);
    }

    /// Taking a password point away from a first-round value leaves the
    /// secret point.
    proof fn lemma_difference(w: Pt, secret: nat)
        requires
            on_curve(31, w),
            secret >= 1,
        ensures
            pt_sub(31, pt_add(31, w, pt_mul(31, Pt { x: 2, y: 20 }, secret)), w) == pt_mul(
                31,
                Pt { x: 2, y: 20 },
                secret,
            ),
    {
        let s = pt_mul(31, Pt { x: 2, y: 20 }, secret);
        let n = pt_neg(31, w);
        lemma_add_commutative(31, w, s);
        lemma_add_associative(31, s, w, n);
        lemma_add_negation(31, w);
        lemma_add_identity(31, s);
        lemma_mul_reduced(31, Pt { x: 2, y: 20 }, secret);
    }

    /// A peer with the password `pwd`, the random scalar `rnd` and the
    /// secret scalar `sec`, each of at least one, over the default curve.
    pub fn new(pwd: i8, rnd: i8, sec: i8) -> (peer: Self)
        requires
            pwd >= 1,
            rnd >= 1,
            sec >= 1,
        ensures
            peer.wf(),
            peer.spec_secret() == sec,
            peer.spec_password_pubkey() == pt_mul(
                31,
                pt_mul(31, Pt { x: 2, y: 20 }, rnd as nat),
                pwd as nat,
            ),
    {
        let curv = ClockCurve::default();
        assert(on_curve(31, Pt { x: 2, y: 20 }));
        let sec_pubkey = curv.scalar_basemul(sec);
        let rand_pubkey = curv.scalar_basemul(rnd);
        let pwd_pubkey = curv.scalar_mul(rand_pubkey, pwd);
        SPAKE2 {
            password: pwd,
            secret: sec,
            random: rnd,
            secret_pubkey: sec_pubkey,
            password_pubkey: pwd_pubkey,
            curve: curv,
        }
    }

    /// The peer's password point, to hand to the other peer.
    pub fn password_point(&self) -> (p: Point)
        ensures
            p@ == self.spec_password_pubkey(),
    {
        self.password_pubkey
    }

    /// The value to send in the first round.
    pub fn pake_key(&self) -> (key: Point)
        requires
            self.wf(),
        ensures
            key@ == self.spec_pake_key(),
    {
        self.curve.scalar_add(self.password_pubkey, self.secret_pubkey)
    }

    /// The shared key, from the other peer's first-round value and password
    /// point.
    pub fn final_key(&self, pakekey: Point, password_pubkey: Point) -> (key: Point)
        requires
            self.wf(),
        ensures
            key@ == self.spec_final_key(pakekey@, password_pubkey@),
    {
        self.curve.scalar_mul(self.curve.scalar_sub(pakekey, password_pubkey), self.secret)
    }
}

} // verus!
