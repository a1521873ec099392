//! Numbers to compute with: floating-point ones, complex ones, and exact ones. What is
//! computed by the same steps from any of them is stated once for all, so that what holds
//! in exact arithmetic can be said of the very steps that floating-point numbers take.

use crate::complex::{C64, ONE_BITS};
use crate::double::Real;
use crate::lstsq::PIVOT_BITS;
use vstd::prelude::*;

verus! {

/// Numbers of one kind.
pub trait Algebra: Sized {
    spec fn nought() -> Self;

    spec fn unit() -> Self;

    spec fn plus(self, o: Self) -> Self;

    spec fn less(self, o: Self) -> Self;

    spec fn times(self, o: Self) -> Self;

    spec fn over(self, o: Self) -> Self;

    spec fn opposite(self) -> Self;

    spec fn inverse(self) -> Self;

    spec fn conjugate(self) -> Self;

    /// Whether a number is nearer to zero than another one.
    spec fn smaller(self, o: Self) -> bool;

    /// Whether a number is too near to zero to divide by.
    spec fn tiny(self) -> bool;

    /// Whether a number is zero.
    spec fn nothing(self) -> bool;
}

impl Algebra for Real {
    open spec fn nought() -> Real {
        Real { bits: 0 }
    }

    open spec fn unit() -> Real {
        Real { bits: ONE_BITS }
    }

    open spec fn plus(self, o: Real) -> Real {
        self.add_spec(o)
    }

    open spec fn less(self, o: Real) -> Real {
        self.sub_spec(o)
    }

    open spec fn times(self, o: Real) -> Real {
        self.mul_spec(o)
    }

    open spec fn over(self, o: Real) -> Real {
        self.div_spec(o)
    }

    open spec fn opposite(self) -> Real {
        self.neg_spec()
    }

    open spec fn inverse(self) -> Real {
        (Real { bits: ONE_BITS }).div_spec(self)
    }

    open spec fn conjugate(self) -> Real {
        self
    }

    open spec fn smaller(self, o: Real) -> bool {
        self.abs_spec().below(o.abs_spec())
    }

    open spec fn tiny(self) -> bool {
        self.abs_spec().below(Real { bits: PIVOT_BITS })
    }

    open spec fn nothing(self) -> bool {
        self.magnitude() == 0
    }
}

impl Algebra for C64 {
    open spec fn nought() -> C64 {
        C64::zero_spec()
    }

    open spec fn unit() -> C64 {
        C64::one_spec()
    }

    open spec fn plus(self, o: C64) -> C64 {
        self.add_spec(o)
    }

    open spec fn less(self, o: C64) -> C64 {
        self.sub_spec(o)
    }

    open spec fn times(self, o: C64) -> C64 {
        self.mul_spec(o)
    }

    open spec fn over(self, o: C64) -> C64 {
        self.div_spec(o)
    }

    open spec fn opposite(self) -> C64 {
        self.neg_spec()
    }

    open spec fn inverse(self) -> C64 {
        self.recip_spec()
    }

    open spec fn conjugate(self) -> C64 {
        self.conj_spec()
    }

    open spec fn smaller(self, o: C64) -> bool {
        self.norm_spec().below(o.norm_spec())
    }

    open spec fn tiny(self) -> bool {
        self.norm_spec().below(Real { bits: PIVOT_BITS })
    }

    open spec fn nothing(self) -> bool {
        self.norm_spec().magnitude() == 0
    }
}

impl Algebra for real {
    open spec fn nought() -> real {
        0 as real
    }

    open spec fn unit() -> real {
        1 as real
    }

    open spec fn plus(self, o: real) -> real {
        self + o
    }

    open spec fn less(self, o: real) -> real {
        self - o
    }

    open spec fn times(self, o: real) -> real {
        self * o
    }

    open spec fn over(self, o: real) -> real {
        self / o
    }

    open spec fn opposite(self) -> real {
        (0 as real) - self
    }

    open spec fn inverse(self) -> real {
        (1 as real) / self
    }

    open spec fn conjugate(self) -> real {
        self
    }

    open spec fn smaller(self, o: real) -> bool {
        self * self < o * o
    }

    open spec fn tiny(self) -> bool {
        self == 0 as real
    }

    open spec fn nothing(self) -> bool {
        self == 0 as real
    }
}

} // verus!
