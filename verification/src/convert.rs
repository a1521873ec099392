//! From single to double precision and back.

use crate::arith;
use crate::bignat::BigNat;
use crate::decimal;
use crate::double;
use crate::double::Real;
use crate::single;
use crate::single::Single;
use vstd::arithmetic::power2::{lemma_pow2_pos, pow2};
use vstd::prelude::*;

verus! {

/// A single-precision number in double precision.
pub open spec fn widened(s: Single) -> Real {
    if s.nan() {
        arith::nan()
    } else if s.infinite() {
        arith::signed(s.negative(), double::INF_BITS as nat)
    } else {
        arith::signed(s.negative(), decimal::nearest(single::abs_int(s.units()), pow2(149)))
    }
}

/// The single-precision number nearest to a double.
pub open spec fn narrowed(r: Real) -> Single {
    if r.nan() {
        single::nan()
    } else if r.infinite() {
        single::signed(r.negative(), single::INF_BITS as nat)
    } else {
        single::signed(r.negative(), single::nearest(arith::abs_int(r.units()), pow2(1074)))
    }
}

/// Turns a single-precision number into a double.
pub fn widen(s: Single) -> (res: Real)
    ensures
        res == widened(s),
{
    if s.is_nan() {
        return Real { bits: double::NAN_BITS };
    }
    if s.is_infinite() {
        return Real::make(s.is_negative(), double::INF_BITS);
    }
    let den = BigNat::from_u64(1).mul_pow2(149);
    proof {
        lemma_pow2_pos(149);
        assert(1 * pow2(149) == pow2(149)) by (nonlinear_arith);
    }
    Real::make(s.is_negative(), decimal::nearest_magnitude(&s.big_units(), &den))
}

/// Rounds a double to single precision.
pub fn narrow(r: Real) -> (res: Single)
    ensures
        res == narrowed(r),
{
    if r.is_nan() {
        return Single { bits: single::NAN_BITS };
    }
    if r.is_infinite() {
        return Single::make(r.is_negative(), single::INF_BITS);
    }
    let den = BigNat::from_u64(1).mul_pow2(1074);
    proof {
        lemma_pow2_pos(1074);
        assert(1 * pow2(1074) == pow2(1074)) by (nonlinear_arith);
    }
    Single::make(r.is_negative(), single::nearest_magnitude(&r.big_units(), &den))
}

} // verus!
