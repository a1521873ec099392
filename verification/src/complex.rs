//! Complex numbers in double precision.

use crate::double::Real;
use vstd::prelude::*;

verus! {

/// 1.
pub const ONE_BITS: u64 = 0x3ff0_0000_0000_0000;

/// A complex number.
#[derive(Debug, Clone, Copy, PartialEq, Eq, Structural)]
pub struct C64 {
    pub re: Real,
    pub im: Real,
}

impl C64 {
    pub open spec fn zero_spec() -> C64 {
        C64 { re: Real { bits: 0 }, im: Real { bits: 0 } }
    }

    pub open spec fn one_spec() -> C64 {
        C64 { re: Real { bits: ONE_BITS }, im: Real { bits: 0 } }
    }

    pub open spec fn norm_sqr_spec(self) -> Real {
        self.re.mul_spec(self.re).add_spec(self.im.mul_spec(self.im))
    }

    pub open spec fn norm_spec(self) -> Real {
        self.norm_sqr_spec().sqrt_spec()
    }

    pub open spec fn conj_spec(self) -> C64 {
        C64 { re: self.re, im: self.im.neg_spec() }
    }

    pub open spec fn recip_spec(self) -> C64 {
        let n = self.norm_sqr_spec();
        C64 { re: self.re.div_spec(n), im: self.im.neg_spec().div_spec(n) }
    }

    pub open spec fn add_spec(self, o: C64) -> C64 {
        C64 { re: self.re.add_spec(o.re), im: self.im.add_spec(o.im) }
    }

    pub open spec fn sub_spec(self, o: C64) -> C64 {
        C64 { re: self.re.sub_spec(o.re), im: self.im.sub_spec(o.im) }
    }

    pub open spec fn mul_spec(self, o: C64) -> C64 {
        C64 {
            re: self.re.mul_spec(o.re).sub_spec(self.im.mul_spec(o.im)),
            im: self.re.mul_spec(o.im).add_spec(self.im.mul_spec(o.re)),
        }
    }

    pub open spec fn scale_spec(self, s: Real) -> C64 {
        C64 { re: self.re.mul_spec(s), im: self.im.mul_spec(s) }
    }

    pub open spec fn div_spec(self, o: C64) -> C64 {
        self.mul_spec(o.recip_spec())
    }

    pub open spec fn neg_spec(self) -> C64 {
        C64 { re: self.re.neg_spec(), im: self.im.neg_spec() }
    }

    pub fn new(re: Real, im: Real) -> (res: Self)
        ensures
            res.re == re,
            res.im == im,
    {
        C64 { re, im }
    }

    pub fn zero() -> (res: Self)
        ensures
            res == C64::zero_spec(),
    {
        C64 { re: Real { bits: 0 }, im: Real { bits: 0 } }
    }

    pub fn one() -> (res: Self)
        ensures
            res == C64::one_spec(),
    {
        C64 { re: Real { bits: ONE_BITS }, im: Real { bits: 0 } }
    }

    /// The imaginary unit.
    pub fn i() -> (res: Self)
        ensures
            res.re == (Real { bits: 0 }),
            res.im == (Real { bits: ONE_BITS }),
    {
        C64 { re: Real { bits: 0 }, im: Real { bits: ONE_BITS } }
    }

    /// The square of the absolute value.
    pub fn norm_sqr(self) -> (res: Real)
        ensures
            res == self.norm_sqr_spec(),
    {
        self.re.mul(self.re).add(self.im.mul(self.im))
    }

    /// The absolute value.
    pub fn norm(self) -> (res: Real)
        ensures
            res == self.norm_spec(),
    {
        self.norm_sqr().sqrt()
    }

    pub fn conj(self) -> (res: Self)
        ensures
            res == self.conj_spec(),
    {
        C64 { re: self.re, im: self.im.neg() }
    }

    pub fn recip(self) -> (res: Self)
        ensures
            res == self.recip_spec(),
    {
        let n = self.norm_sqr();
        C64 { re: self.re.div(n), im: self.im.neg().div(n) }
    }

    pub fn add(self, o: C64) -> (res: Self)
        ensures
            res == self.add_spec(o),
    {
        C64 { re: self.re.add(o.re), im: self.im.add(o.im) }
    }

    pub fn sub(self, o: C64) -> (res: Self)
        ensures
            res == self.sub_spec(o),
    {
        C64 { re: self.re.sub(o.re), im: self.im.sub(o.im) }
    }

    pub fn mul(self, o: C64) -> (res: Self)
        ensures
            res == self.mul_spec(o),
    {
        C64 {
            re: self.re.mul(o.re).sub(self.im.mul(o.im)),
            im: self.re.mul(o.im).add(self.im.mul(o.re)),
        }
    }

    /// This number times one that is not complex.
    pub fn scale(self, s: Real) -> (res: Self)
        ensures
            res == self.scale_spec(s),
    {
        C64 { re: self.re.mul(s), im: self.im.mul(s) }
    }

    pub fn div(self, o: C64) -> (res: Self)
        ensures
            res == self.div_spec(o),
    {
        self.mul(o.recip())
    }

    pub fn neg(self) -> (res: Self)
        ensures
            res == self.neg_spec(),
    {
        C64 { re: self.re.neg(), im: self.im.neg() }
    }
}

} // verus!
