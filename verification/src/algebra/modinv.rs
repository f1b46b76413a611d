//! The modular inverse as an optional value.
use crate::algebra::arith;
use crate::algebra::arith::is_mod_inverse;
use crate::algebra::gcd::gcd_spec;
use vstd::prelude::*;

verus! {

/// The multiplicative inverse of `a` modulo `m`, taken from `[0, m)`, or
/// nothing when `a` and `m` share a factor.
pub fn mod_inv(a: i8, m: i8) -> (res: Option<i8>)
    requires
        m > 0,
    ensures
        res is Some <==> gcd_spec(a as int, m as int) == 1,
        res matches Some(x) ==> is_mod_inverse(x as int, a as int, m as int),
{
    match arith::mod_inv(a, m) {
        Ok(x) => Some(x),
        Err(_) => None,
    }
}

} // verus!
