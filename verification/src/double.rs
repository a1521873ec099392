//! Double-precision numbers as bit patterns, and their IEEE-754 order.

use vstd::arithmetic::power2::pow2;
use vstd::prelude::*;

verus! {

/// Bit pattern of positive infinity: one past the largest finite magnitude.
pub const INF_BITS: u64 = 0x7ff0_0000_0000_0000;

/// Bit pattern of the canonical quiet not-a-number.
pub const NAN_BITS: u64 = 0x7ff8_0000_0000_0000;

/// The sign bit.
pub const SIGN_BIT: u64 = 0x8000_0000_0000_0000;

/// A double-precision number, held as its IEEE-754 bit pattern.
#[derive(Clone, Copy, Debug, PartialEq, Eq, Structural)]
pub struct Real {
    pub bits: u64,
}

/// The magnitude with bit pattern `b`, in units of 2^-1074.
pub open spec fn scaled(b: nat) -> nat {
    let exponent = b / 0x10_0000_0000_0000;
    let fraction = b % 0x10_0000_0000_0000;
    if exponent == 0 {
        fraction
    } else {
        (fraction + 0x10_0000_0000_0000) * pow2((exponent - 1) as nat)
    }
}

impl Real {
    pub open spec fn negative(self) -> bool {
        self.bits >= SIGN_BIT
    }

    /// The bit pattern without its sign.
    pub open spec fn magnitude(self) -> nat {
        (if self.bits >= SIGN_BIT {
            self.bits - SIGN_BIT
        } else {
            self.bits as int
        }) as nat
    }

    pub open spec fn nan(self) -> bool {
        self.magnitude() > INF_BITS
    }

    pub open spec fn finite(self) -> bool {
        self.magnitude() < INF_BITS
    }

    /// Position on the number line; the two zeros share one.
    pub open spec fn rank(self) -> int {
        if self.negative() {
            -(self.magnitude() as int)
        } else {
            self.magnitude() as int
        }
    }

    /// IEEE-754 `<`: false as soon as a not-a-number takes part.
    pub open spec fn below(self, other: Real) -> bool {
        !self.nan() && !other.nan() && self.rank() < other.rank()
    }

    /// The signed value in units of 2^-1074.
    pub open spec fn units(self) -> int {
        if self.negative() {
            -(scaled(self.magnitude()) as int)
        } else {
            scaled(self.magnitude()) as int
        }
    }

    pub fn from_bits(bits: u64) -> (res: Real)
        ensures
            res.bits == bits,
    {
        Real { bits }
    }

    pub fn to_bits(self) -> (res: u64)
        ensures
            res == self.bits,
    {
        self.bits
    }

    pub fn is_negative(self) -> (res: bool)
        ensures
            res == self.negative(),
    {
        self.bits >= SIGN_BIT
    }

    fn mag(self) -> (res: u64)
        ensures
            res == self.magnitude(),
    {
        if self.bits >= SIGN_BIT {
            self.bits - SIGN_BIT
        } else {
            self.bits
        }
    }

    pub fn is_nan(self) -> (res: bool)
        ensures
            res == self.nan(),
    {
        self.mag() > INF_BITS
    }

    pub fn is_finite(self) -> (res: bool)
        ensures
            res == self.finite(),
    {
        self.mag() < INF_BITS
    }

    /// IEEE-754 `self < other`.
    pub fn lt(self, other: Real) -> (res: bool)
        ensures
            res == self.below(other),
    {
        if self.is_nan() || other.is_nan() {
            return false;
        }
        let a: u64 = self.mag();
        let b: u64 = other.mag();
        if self.is_negative() {
            if other.is_negative() {
                a > b
            } else {
                a > 0 || b > 0
            }
        } else if other.is_negative() {
            false
        } else {
            a < b
        }
    }
}

proof fn lemma_scaled_step(b: nat)
    ensures
        scaled(b) < scaled(b + 1),
{
    let e = b / 0x10_0000_0000_0000;
    let f = b % 0x10_0000_0000_0000;
    vstd::arithmetic::power2::lemma2_to64();
    if f + 1 < 0x10_0000_0000_0000 {
        assert((b + 1) / 0x10_0000_0000_0000 == e);
        assert((b + 1) % 0x10_0000_0000_0000 == f + 1);
        if e > 0 {
            let p = pow2((e - 1) as nat) as int;
            vstd::arithmetic::power2::lemma_pow2_pos((e - 1) as nat);
            assert((f + 0x10_0000_0000_0000) * p < (f + 1 + 0x10_0000_0000_0000) * p)
                by (nonlinear_arith)
                requires
                    p > 0,
            ;
        }
    } else {
        assert((b + 1) / 0x10_0000_0000_0000 == e + 1);
        assert((b + 1) % 0x10_0000_0000_0000 == 0);
        if e == 0 {
            assert(0x10_0000_0000_0000 * pow2(0) == 0x10_0000_0000_0000) by (nonlinear_arith)
                requires
                    pow2(0) == 1,
            ;
        } else {
            let p = pow2((e - 1) as nat) as int;
            vstd::arithmetic::power2::lemma_pow2_pos((e - 1) as nat);
            vstd::arithmetic::power2::lemma_pow2_unfold(e);
            assert((f + 0x10_0000_0000_0000) * p < 0x10_0000_0000_0000 * (2 * p))
                by (nonlinear_arith)
                requires
                    p > 0,
                    f < 0x10_0000_0000_0000,
            ;
        }
    }
}

/// A larger magnitude bit pattern stands for a larger magnitude.
pub proof fn magnitudes_are_ordered(a: nat, b: nat)
    requires
        a < b,
    ensures
        scaled(a) < scaled(b),
    decreases b - a,
{
    if a + 1 < b {
        magnitudes_are_ordered(a, (b - 1) as nat);
        lemma_scaled_step((b - 1) as nat);
    } else {
        lemma_scaled_step(a);
    }
}

/// Between finite numbers, `<` is the order of the values that they stand for.
pub proof fn order_is_order_of_values(a: Real, b: Real)
    requires
        a.finite(),
        b.finite(),
    ensures
        a.below(b) <==> a.units() < b.units(),
{
    let x = a.magnitude();
    let y = b.magnitude();
    if x < y {
        magnitudes_are_ordered(x, y);
    }
    if y < x {
        magnitudes_are_ordered(y, x);
    }
    if 0 < x {
        magnitudes_are_ordered(0, x);
    }
    if 0 < y {
        magnitudes_are_ordered(0, y);
    }
}

/// `<` is irreflexive and transitive.
pub proof fn order_is_strict(a: Real, b: Real, c: Real)
    ensures
        !a.below(a),
        a.below(b) && b.below(c) ==> a.below(c),
{
}

} // verus!
