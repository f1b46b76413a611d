//! Key pairs over the default clock curve, and their two-element encodings.
use crate::curves::clockcurve::{ClockCurve, Point};
use crate::curves::group_law::{pt_mul, Pt};
use vstd::prelude::*;

verus! {

/// A public key: a point of the curve, with the curve it lies on.
#[derive(Clone, Copy, Debug)]
pub struct PublicKey {
    pub point: Point,
    pub curve: ClockCurve,
}

impl PublicKey {
    /// The encoding `[x, y]` of the key's point.
    pub fn serialize(self) -> (out: [i8; 2])
        ensures
            out@ == seq![self.point.x, self.point.y],
    {
        let out = [self.point.x, self.point.y];
        assert(out@ =~= seq![self.point.x, self.point.y]);
        out
    }
}

/// A private key: a scalar, with the public key derived from it.
#[derive(Clone, Copy, Debug)]
pub struct PrivateKey {
    pub key: i8,
    publickey: PublicKey,
    curve: ClockCurve,
}

impl PrivateKey {
    /// The scalar of this private key.
    pub closed spec fn spec_key(self) -> i8 {
        self.key
    }

    /// The public key that belongs to this private key.
    pub closed spec fn spec_publickey(self) -> PublicKey {
        self.publickey
    }

    /// The key pair of the scalar `k`, of at least one, over the default
    /// curve: its public point is `k` times the base point `(2, 20)`.
    pub fn new(k: i8) -> (sk: Self)
        requires
            k >= 1,
        ensures
            sk.spec_key() == k,
            sk.spec_publickey().curve.is_default(),
            sk.spec_publickey().point@ == pt_mul(31, Pt { x: 2, y: 20 }, k as nat),
    {
        let cuv31 = ClockCurve::default();
        let p = cuv31.scalar_basemul(k);
        PrivateKey { key: k, curve: cuv31, publickey: PublicKey { point: p, curve: cuv31 } }
    }

    /// The public key that belongs to this private key.
    pub fn publickey(&self) -> (pk: PublicKey)
        ensures
            pk == self.spec_publickey(),
    {
        self.publickey
    }

    /// The encoding `[0, key]`: a zero, which no public key starts with by
    /// convention, and then the scalar.
    pub fn serialize(&self) -> (out: [i8; 2])
        ensures
            out@ == seq![0i8, self.spec_key()],
    {
        let out = [0x00, self.key];
        assert(out@ =~= seq![0i8, self.key]);
        out
    }
}

} // verus!
