//! IEEE-754 double-precision arithmetic on bit patterns: every operation
//! returns the double nearest to the exact result.

use crate::bignat::BigNat;
use crate::bignat::Order;
use crate::decimal;
use crate::double::{Real, INF_BITS, NAN_BITS, SIGN_BIT};
use vstd::arithmetic::power2::{lemma_pow2_adds, lemma_pow2_pos, pow2};
use vstd::prelude::*;

verus! {

/// The number with sign and magnitude as given.
pub open spec fn signed(negative: bool, magnitude: nat) -> Real {
    Real {
        bits: (if negative {
            magnitude + SIGN_BIT
        } else {
            magnitude as int
        }) as u64,
    }
}

/// Not-a-number.
pub open spec fn nan() -> Real {
    Real { bits: NAN_BITS }
}

pub open spec fn abs_int(x: int) -> nat {
    (if x < 0 {
        -x
    } else {
        x
    }) as nat
}

/// The double nearest to `u` units of 2^-1074; a zero sum takes `zero_sign`.
pub open spec fn round_units(u: int, zero_sign: bool) -> Real {
    if u == 0 {
        signed(zero_sign, 0)
    } else {
        signed(u < 0, decimal::nearest(abs_int(u), pow2(1074)))
    }
}

impl Real {
    pub open spec fn infinite(self) -> bool {
        self.magnitude() == INF_BITS
    }

    /// `-self`.
    pub open spec fn neg_spec(self) -> Real {
        signed(!self.negative(), self.magnitude())
    }

    /// `|self|`.
    pub open spec fn abs_spec(self) -> Real {
        signed(false, self.magnitude())
    }

    /// `self + other`.
    pub open spec fn add_spec(self, other: Real) -> Real {
        if self.nan() || other.nan() {
            nan()
        } else if self.infinite() {
            if other.infinite() && self.negative() != other.negative() {
                nan()
            } else {
                self
            }
        } else if other.infinite() {
            other
        } else {
            round_units(self.units() + other.units(), self.negative() && other.negative())
        }
    }

    /// `self - other`.
    pub open spec fn sub_spec(self, other: Real) -> Real {
        if other.nan() {
            nan()
        } else {
            self.add_spec(other.neg_spec())
        }
    }

    /// `self * other`.
    pub open spec fn mul_spec(self, other: Real) -> Real {
        let negative = self.negative() != other.negative();
        if self.nan() || other.nan() {
            nan()
        } else if self.infinite() || other.infinite() {
            if self.magnitude() == 0 || other.magnitude() == 0 {
                nan()
            } else {
                signed(negative, INF_BITS as nat)
            }
        } else {
            signed(
                negative,
                decimal::nearest(
                    abs_int(self.units()) * abs_int(other.units()),
                    pow2(2148),
                ),
            )
        }
    }

    /// `self / other`.
    pub open spec fn div_spec(self, other: Real) -> Real {
        let negative = self.negative() != other.negative();
        if self.nan() || other.nan() || (self.infinite() && other.infinite()) {
            nan()
        } else if self.infinite() {
            signed(negative, INF_BITS as nat)
        } else if other.infinite() {
            signed(negative, 0)
        } else if other.magnitude() == 0 {
            if self.magnitude() == 0 {
                nan()
            } else {
                signed(negative, INF_BITS as nat)
            }
        } else {
            signed(negative, decimal::nearest(abs_int(self.units()), abs_int(other.units())))
        }
    }

    pub(crate) fn make(negative: bool, magnitude: u64) -> (res: Real)
        requires
            magnitude < SIGN_BIT,
        ensures
            res == signed(negative, magnitude as nat),
            res.magnitude() == magnitude,
            res.negative() == negative,
    {
        if negative {
            Real { bits: magnitude + SIGN_BIT }
        } else {
            Real { bits: magnitude }
        }
    }

    fn magnitude_bits(self) -> (res: u64)
        ensures
            res == self.magnitude(),
            res < SIGN_BIT,
    {
        if self.bits >= SIGN_BIT {
            self.bits - SIGN_BIT
        } else {
            self.bits
        }
    }

    pub fn is_infinite(self) -> (res: bool)
        ensures
            res == self.infinite(),
    {
        self.magnitude_bits() == INF_BITS
    }

    pub fn neg(self) -> (res: Real)
        ensures
            res == self.neg_spec(),
    {
        Real::make(!self.is_negative(), self.magnitude_bits())
    }

    pub fn abs(self) -> (res: Real)
        ensures
            res == self.abs_spec(),
    {
        Real::make(false, self.magnitude_bits())
    }

    /// `|self|` in units of 2^-1074.
    pub(crate) fn big_units(self) -> (res: BigNat)
        requires
            self.finite(),
        ensures
            res@ == abs_int(self.units()),
            res@ == 0 <==> self.magnitude() == 0,
    {
        let (m, s): (u64, u32) = decimal::split_magnitude(self.magnitude_bits());
        let res = BigNat::from_u64(m).mul_pow2(s);
        proof {
            crate::double::magnitudes_are_ordered(0, 1);
            if self.magnitude() > 0 {
                crate::double::magnitudes_are_ordered(0, self.magnitude());
            }
        }
        res
    }

    /// `self + other`, rounded to the nearest double.
    pub fn add(self, other: Real) -> (res: Real)
        ensures
            res == self.add_spec(other),
    {
        if self.is_nan() || other.is_nan() {
            return Real { bits: NAN_BITS };
        }
        if self.is_infinite() {
            if other.is_infinite() && self.is_negative() != other.is_negative() {
                return Real { bits: NAN_BITS };
            }
            return self;
        }
        if other.is_infinite() {
            return other;
        }
        let a = self.big_units();
        let b = other.big_units();
        let den = BigNat::from_u64(1).mul_pow2(1074);
        proof {
            lemma_pow2_pos(1074);
            assert(1 * pow2(1074) == pow2(1074)) by (nonlinear_arith);
        }
        if self.is_negative() == other.is_negative() {
            let sum = a.plus(&b);
            let m: u64 = decimal::nearest_magnitude(&sum, &den);
            proof {
                if sum@ == 0 {
                    decimal::zero_rounds_to_zero(pow2(1074));
                }
            }
            Real::make(self.is_negative(), m)
        } else {
            match a.order(&b) {
                Order::Equal => Real::make(false, 0),
                Order::Greater => {
                    let d = a.minus(&b);
                    Real::make(self.is_negative(), decimal::nearest_magnitude(&d, &den))
                },
                Order::Less => {
                    let d = b.minus(&a);
                    Real::make(other.is_negative(), decimal::nearest_magnitude(&d, &den))
                },
            }
        }
    }

    /// `self - other`, rounded to the nearest double.
    pub fn sub(self, other: Real) -> (res: Real)
        ensures
            res == self.sub_spec(other),
    {
        if other.is_nan() {
            return Real { bits: NAN_BITS };
        }
        self.add(other.neg())
    }

    /// `self * other`, rounded to the nearest double.
    pub fn mul(self, other: Real) -> (res: Real)
        ensures
            res == self.mul_spec(other),
    {
        if self.is_nan() || other.is_nan() {
            return Real { bits: NAN_BITS };
        }
        let negative = self.is_negative() != other.is_negative();
        let a: u64 = self.magnitude_bits();
        let b: u64 = other.magnitude_bits();
        if a == INF_BITS || b == INF_BITS {
            if a == 0 || b == 0 {
                return Real { bits: NAN_BITS };
            }
            return Real::make(negative, INF_BITS);
        }
        let (m1, s1): (u64, u32) = decimal::split_magnitude(a);
        let (m2, s2): (u64, u32) = decimal::split_magnitude(b);
        let num = BigNat::from_u64(m1).mul_add(m2, 0).mul_pow2(s1 + s2);
        let den = BigNat::from_u64(1).mul_pow2(2148);
        proof {
            lemma_pow2_pos(2148);
            assert(1 * pow2(2148) == pow2(2148)) by (nonlinear_arith);
            lemma_pow2_adds(s1 as nat, s2 as nat);
            let p = pow2(s1 as nat) as int;
            let q = pow2(s2 as nat) as int;
            assert((m1 * m2) * (p * q) == (m1 * p) * (m2 * q)) by (nonlinear_arith);
        }
        Real::make(negative, decimal::nearest_magnitude(&num, &den))
    }

    /// `self / other`, rounded to the nearest double.
    pub fn div(self, other: Real) -> (res: Real)
        ensures
            res == self.div_spec(other),
    {
        if self.is_nan() || other.is_nan() || (self.is_infinite() && other.is_infinite()) {
            return Real { bits: NAN_BITS };
        }
        let negative = self.is_negative() != other.is_negative();
        if self.is_infinite() {
            return Real::make(negative, INF_BITS);
        }
        if other.is_infinite() {
            return Real::make(negative, 0);
        }
        if other.magnitude_bits() == 0 {
            if self.magnitude_bits() == 0 {
                return Real { bits: NAN_BITS };
            }
            return Real::make(negative, INF_BITS);
        }
        let a = self.big_units();
        let b = other.big_units();
        Real::make(negative, decimal::nearest_magnitude(&a, &b))
    }

    /// The least whole number that is not below; a not-a-number and an infinity stay
    /// as they are, and the sign stays too.
    pub open spec fn ceil_spec(self) -> Real {
        if !self.finite() {
            self
        } else {
            let u = abs_int(self.units());
            let whole = u / pow2(1074);
            let up = !self.negative() && u % pow2(1074) != 0;
            signed(
                self.negative(),
                decimal::nearest(
                    if up {
                        whole + 1
                    } else {
                        whole
                    },
                    1,
                ),
            )
        }
    }

    pub fn ceil(self) -> (res: Real)
        ensures
            res == self.ceil_spec(),
    {
        if !self.is_finite() {
            return self;
        }
        let units = self.big_units();
        let (low, high): (BigNat, BigNat) = units.split(33);
        let (whole, rem): (BigNat, u32) = high.div_rem(0x4_0000);
        let up: bool = !self.is_negative() && (rem != 0 || !is_zero(&low));
        proof {
            lemma_ceil_parts(units@, low@, high@, whole@, rem as nat);
        }
        let one = BigNat::from_u64(1);
        if up {
            Real::make(self.is_negative(), decimal::nearest_magnitude(&whole.plus(&one), &one))
        } else {
            Real::make(self.is_negative(), decimal::nearest_magnitude(&whole, &one))
        }
    }

    /// The greatest whole number that is not above; a not-a-number and an infinity stay
    /// as they are, and the sign stays too.
    pub open spec fn floor_spec(self) -> Real {
        self.neg_spec().ceil_spec().neg_spec()
    }

    pub fn floor(self) -> (res: Real)
        ensures
            res == self.floor_spec(),
    {
        self.neg().ceil().neg()
    }

    /// A whole number as a 32-bit integer, cut off to its range from below and above; zero
    /// for a not-a-number.
    pub open spec fn whole_spec(self) -> i32 {
        let w = decimal::whole_number(self.magnitude()) as int;
        if self.nan() {
            0
        } else if self.negative() {
            (if w > 0x8000_0000 {
                -0x8000_0000
            } else {
                -w
            }) as i32
        } else {
            (if w > 0x7fff_ffff {
                0x7fff_ffff
            } else {
                w
            }) as i32
        }
    }

    pub fn whole(self) -> (res: i32)
        ensures
            res == self.whole_spec(),
    {
        if self.is_nan() {
            return 0;
        }
        let w: u64 = decimal::to_whole_number(self.magnitude_bits());
        if self.is_negative() {
            if w > 0x8000_0000 {
                -0x8000_0000
            } else {
                (-(w as i64)) as i32
            }
        } else if w > 0x7fff_ffff {
            0x7fff_ffff
        } else {
            w as i32
        }
    }

    /// `n` as a double.
    pub open spec fn of_nat(n: nat) -> Real {
        signed(false, decimal::nearest(n, 1))
    }

    /// The double nearest to `n`.
    pub fn from_u64(n: u64) -> (res: Real)
        ensures
            res == Real::of_nat(n as nat),
    {
        Real::make(
            false,
            decimal::nearest_magnitude(&BigNat::from_u64(n), &BigNat::from_u64(1)),
        )
    }

    /// The double nearest to `n`.
    pub fn from_i64(n: i64) -> (res: Real)
        ensures
            res == (if n < 0 {
                Real::of_nat((-n) as nat).neg_spec()
            } else {
                Real::of_nat(n as nat)
            }),
    {
        if n < 0 {
            Real::from_u64((0i128 - n as i128) as u64).neg()
        } else {
            Real::from_u64(n as u64)
        }
    }

    /// The smaller of two numbers; a not-a-number gives way to the other one.
    pub open spec fn min_spec(self, other: Real) -> Real {
        if self.nan() || other.below(self) {
            other
        } else {
            self
        }
    }

    /// The larger of two numbers; a not-a-number gives way to the other one.
    pub open spec fn max_spec(self, other: Real) -> Real {
        if self.nan() || self.below(other) {
            other
        } else {
            self
        }
    }

    pub fn min(self, other: Real) -> (res: Real)
        ensures
            res == self.min_spec(other),
    {
        if self.is_nan() || other.lt(self) {
            other
        } else {
            self
        }
    }

    pub fn max(self, other: Real) -> (res: Real)
        ensures
            res == self.max_spec(other),
    {
        if self.is_nan() || self.lt(other) {
            other
        } else {
            self
        }
    }

    /// `self`, or the bound that it lies beyond.
    pub open spec fn clamp_spec(self, low: Real, high: Real) -> Real {
        if self.below(low) {
            low
        } else if high.below(self) {
            high
        } else {
            self
        }
    }

    pub fn clamp(self, low: Real, high: Real) -> (res: Real)
        requires
            low.at_most(high),
        ensures
            res == self.clamp_spec(low, high),
    {
        if self.lt(low) {
            low
        } else if high.lt(self) {
            high
        } else {
            self
        }
    }

    /// IEEE-754 `<=`.
    pub open spec fn at_most(self, other: Real) -> bool {
        !self.nan() && !other.nan() && self.rank() <= other.rank()
    }

    /// IEEE-754 `self <= other`.
    pub fn le(self, other: Real) -> (res: bool)
        ensures
            res == self.at_most(other),
    {
        !self.is_nan() && !other.is_nan() && !other.lt(self)
    }
}

/// `b` is the magnitude that the square root of `u` units rounds to.
pub open spec fn root_rounds_to(u: nat, b: nat) -> bool {
    let x = u * pow2(1076);
    let below = decimal::midpoint((b - 1) as nat);
    let above = decimal::midpoint(b);
    &&& b <= INF_BITS
    &&& b > 0 ==> below * below < x || (below * below == x && b % 2 == 0)
    &&& b < INF_BITS ==> x < above * above || (x == above * above && b % 2 == 0)
}

/// The magnitude nearest to the square root of `u` units.
pub open spec fn nearest_root(u: nat) -> nat {
    choose|b: nat| root_rounds_to(u, b)
}

/// No square root rounds to two different magnitudes.
pub proof fn root_is_unique(u: nat, a: nat, b: nat)
    requires
        root_rounds_to(u, a),
        root_rounds_to(u, b),
    ensures
        a == b,
{
    if a != b {
        let lo = if a < b {
            a
        } else {
            b
        };
        let hi = if a < b {
            b
        } else {
            a
        };
        let m1 = decimal::midpoint(lo) as int;
        let m2 = decimal::midpoint((hi - 1) as nat) as int;
        if lo < hi - 1 {
            crate::double::magnitudes_are_ordered(lo, (hi - 1) as nat);
            crate::double::magnitudes_are_ordered(lo + 1, hi);
            assert(m1 * m1 < m2 * m2) by (nonlinear_arith)
                requires
                    0 <= m1 < m2,
            ;
        }
    }
}

/// Whether the root of `x` half units rounds to a magnitude of at most `b`.
#[verifier::opaque]
pub open spec fn root_bounded(x: nat, b: nat) -> bool {
    let m = decimal::midpoint(b);
    x < m * m || (x == m * m && b % 2 == 0)
}

fn root_at_most(x: &BigNat, b: u64) -> (res: bool)
    requires
        b < INF_BITS,
    ensures
        res == root_bounded(x@, b as nat),
{
    let (k, s): (u64, u32) = decimal::split_midpoint(b);
    let y = BigNat::from_u64(k).mul_add(k, 0).mul_pow2(s + s);
    proof {
        reveal(root_bounded);
        lemma_pow2_adds(s as nat, s as nat);
        let p = pow2(s as nat) as int;
        assert((k * k) * (p * p) == (k * p) * (k * p)) by (nonlinear_arith);
    }
    match x.order(&y) {
        Order::Less => true,
        Order::Equal => b % 2 == 0,
        Order::Greater => false,
    }
}

impl Real {
    /// The square root of `self`.
    pub open spec fn sqrt_spec(self) -> Real {
        if self.nan() {
            nan()
        } else if self.magnitude() == 0 {
            self
        } else if self.negative() {
            nan()
        } else if self.infinite() {
            self
        } else {
            signed(false, nearest_root(abs_int(self.units())))
        }
    }

    /// The double nearest to the square root of `self`.
    pub fn sqrt(self) -> (res: Real)
        ensures
            res == self.sqrt_spec(),
    {
        if self.is_nan() {
            return Real { bits: NAN_BITS };
        }
        if self.magnitude_bits() == 0 {
            return self;
        }
        if self.is_negative() {
            return Real { bits: NAN_BITS };
        }
        if self.is_infinite() {
            return self;
        }
        let x = self.big_units().mul_pow2(1076);
        let ghost u = abs_int(self.units());
        let mut lo: u64 = 0;
        let mut hi: u64 = INF_BITS;
        while lo < hi
            invariant
                lo <= hi <= INF_BITS,
                x@ == u * pow2(1076),
                lo > 0 ==> !root_bounded(x@, (lo - 1) as nat),
                hi < INF_BITS ==> root_bounded(x@, hi as nat),
            decreases hi - lo,
        {
            let mid: u64 = lo + (hi - lo) / 2;
            if root_at_most(&x, mid) {
                hi = mid;
            } else {
                lo = mid + 1;
            }
        }
        proof {
            reveal(root_bounded);
            assert(root_rounds_to(u, lo as nat));
            root_is_unique(u, lo as nat, nearest_root(u));
        }
        Real::make(false, lo)
    }
}

/// Addition and multiplication do not care for the order of their operands.
pub proof fn add_and_mul_commute(a: Real, b: Real)
    ensures
        a.add_spec(b) == b.add_spec(a),
        a.mul_spec(b) == b.mul_spec(a),
{
    assert(abs_int(a.units()) * abs_int(b.units()) == abs_int(b.units()) * abs_int(a.units()))
        by (nonlinear_arith);
}

fn is_zero(n: &BigNat) -> (res: bool)
    ensures
        res == (n@ == 0),
{
    match n.order(&BigNat::zero()) {
        Order::Greater => false,
        _ => true,
    }
}

/// Taking off 33 limbs and then 18 bits divides by 2^1074.
proof fn lemma_ceil_parts(u: nat, low: nat, high: nat, whole: nat, rem: nat)
    requires
        u == low + high * crate::bignat::base_pow(33),
        low < crate::bignat::base_pow(33),
        whole == high / 0x4_0000,
        rem == high % 0x4_0000,
    ensures
        u / pow2(1074) == whole,
        u % pow2(1074) == 0 <==> rem == 0 && low == 0,
{
    let b = crate::bignat::base_pow(33);
    crate::bignat::lemma_base_pow_is_pow2(33);
    lemma_pow2_adds(1056, 18);
    lemma_pow2_pos(1056);
    vstd::arithmetic::power2::lemma2_to64();
    let d = pow2(1074);
    assert(d == b * 0x4_0000);
    let r = low + rem * b;
    assert(high == whole * 0x4_0000 + rem);
    assert(u == whole * d + r) by (nonlinear_arith)
        requires
            u == low + high * b,
            high == whole * 0x4_0000 + rem,
            d == b * 0x4_0000,
            r == low + rem * b,
    ;
    assert(r < d) by (nonlinear_arith)
        requires
            r == low + rem * b,
            low < b,
            rem < 0x4_0000,
            d == b * 0x4_0000,
    ;
    vstd::arithmetic::div_mod::lemma_fundamental_div_mod_converse(
        u as int,
        d as int,
        whole as int,
        r as int,
    );
    assert(rem * b == 0 <==> rem == 0) by (nonlinear_arith)
        requires
            b > 0,
    ;
}

} // verus!
