//! IEEE-754 single-precision numbers as bit patterns: every operation returns the
//! number nearest to the exact result.

use crate::bignat;
use crate::bignat::{BigNat, Order};
use vstd::arithmetic::power2::{
    lemma2_to64, lemma2_to64_rest, lemma_pow2_adds, lemma_pow2_pos, lemma_pow2_unfold, pow2,
};
use vstd::prelude::*;

verus! {

/// Bit pattern of positive infinity: one past the largest finite magnitude.
pub const INF_BITS: u64 = 0x7f80_0000;

/// Bit pattern of the canonical quiet not-a-number.
pub const NAN_BITS: u32 = 0x7fc0_0000;

/// The sign bit.
pub const SIGN_BIT: u64 = 0x8000_0000;

/// 1.
pub const ONE_BITS: u32 = 0x3f80_0000;

/// -1.
pub const MINUS_ONE_BITS: u32 = 0xbf80_0000;

/// 0.5.
pub const HALF_BITS: u32 = 0x3f00_0000;

/// 2.
pub const TWO_BITS: u32 = 0x4000_0000;

/// 2^-23.
pub const EPSILON_BITS: u32 = 0x3400_0000;

/// A single-precision number, held as its IEEE-754 bit pattern.
#[derive(Clone, Copy, Debug, PartialEq, Eq, Structural)]
pub struct Single {
    pub bits: u32,
}

/// The magnitude with bit pattern `b`, in units of 2^-149.
pub open spec fn scaled(b: nat) -> nat {
    let exponent = b / 0x80_0000;
    let fraction = b % 0x80_0000;
    if exponent == 0 {
        fraction
    } else {
        (fraction + 0x80_0000) * pow2((exponent - 1) as nat)
    }
}

impl Single {
    pub open spec fn negative(self) -> bool {
        self.bits >= SIGN_BIT
    }

    /// The bit pattern without its sign.
    pub open spec fn magnitude(self) -> nat {
        (if self.bits >= SIGN_BIT {
            self.bits - SIGN_BIT
        } else {
            self.bits as int
        }) as nat
    }

    pub open spec fn nan(self) -> bool {
        self.magnitude() > INF_BITS
    }

    pub open spec fn finite(self) -> bool {
        self.magnitude() < INF_BITS
    }

    /// Position on the number line; the two zeros share one.
    pub open spec fn rank(self) -> int {
        if self.negative() {
            -(self.magnitude() as int)
        } else {
            self.magnitude() as int
        }
    }

    /// IEEE-754 `<`: false as soon as a not-a-number takes part.
    pub open spec fn below(self, other: Single) -> bool {
        !self.nan() && !other.nan() && self.rank() < other.rank()
    }

    /// The signed value in units of 2^-149.
    pub open spec fn units(self) -> int {
        if self.negative() {
            -(scaled(self.magnitude()) as int)
        } else {
            scaled(self.magnitude()) as int
        }
    }

    pub fn from_bits(bits: u32) -> (res: Single)
        ensures
            res.bits == bits,
    {
        Single { bits }
    }

    pub fn to_bits(self) -> (res: u32)
        ensures
            res == self.bits,
    {
        self.bits
    }

    pub fn is_negative(self) -> (res: bool)
        ensures
            res == self.negative(),
    {
        self.bits as u64 >= SIGN_BIT
    }

    fn mag(self) -> (res: u64)
        ensures
            res == self.magnitude(),
    {
        let b: u64 = self.bits as u64;
        if b >= SIGN_BIT {
            b - SIGN_BIT
        } else {
            b
        }
    }

    pub fn is_nan(self) -> (res: bool)
        ensures
            res == self.nan(),
    {
        self.mag() > INF_BITS
    }

    pub fn is_finite(self) -> (res: bool)
        ensures
            res == self.finite(),
    {
        self.mag() < INF_BITS
    }

    /// IEEE-754 `self < other`.
    pub fn lt(self, other: Single) -> (res: bool)
        ensures
            res == self.below(other),
    {
        if self.is_nan() || other.is_nan() {
            return false;
        }
        let a: u64 = self.mag();
        let b: u64 = other.mag();
        if self.is_negative() {
            if other.is_negative() {
                a > b
            } else {
                a > 0 || b > 0
            }
        } else if other.is_negative() {
            false
        } else {
            a < b
        }
    }
}

proof fn lemma_scaled_step(b: nat)
    ensures
        scaled(b) < scaled(b + 1),
{
    let e = b / 0x80_0000;
    let f = b % 0x80_0000;
    vstd::arithmetic::power2::lemma2_to64();
    if f + 1 < 0x80_0000 {
        assert((b + 1) / 0x80_0000 == e);
        assert((b + 1) % 0x80_0000 == f + 1);
        if e > 0 {
            let p = pow2((e - 1) as nat) as int;
            vstd::arithmetic::power2::lemma_pow2_pos((e - 1) as nat);
            assert((f + 0x80_0000) * p < (f + 1 + 0x80_0000) * p)
                by (nonlinear_arith)
                requires
                    p > 0,
            ;
        }
    } else {
        assert((b + 1) / 0x80_0000 == e + 1);
        assert((b + 1) % 0x80_0000 == 0);
        if e == 0 {
            assert(0x80_0000 * pow2(0) == 0x80_0000) by (nonlinear_arith)
                requires
                    pow2(0) == 1,
            ;
        } else {
            let p = pow2((e - 1) as nat) as int;
            vstd::arithmetic::power2::lemma_pow2_pos((e - 1) as nat);
            vstd::arithmetic::power2::lemma_pow2_unfold(e);
            assert((f + 0x80_0000) * p < 0x80_0000 * (2 * p))
                by (nonlinear_arith)
                requires
                    p > 0,
                    f < 0x80_0000,
            ;
        }
    }
}

/// A larger magnitude bit pattern stands for a larger magnitude.
pub proof fn magnitudes_are_ordered(a: nat, b: nat)
    requires
        a < b,
    ensures
        scaled(a) < scaled(b),
    decreases b - a,
{
    if a + 1 < b {
        magnitudes_are_ordered(a, (b - 1) as nat);
        lemma_scaled_step((b - 1) as nat);
    } else {
        lemma_scaled_step(a);
    }
}

/// Twice the point halfway between the magnitudes `b` and `b + 1`, in units
/// of 2^-149. One past the largest finite magnitude stands for 2^128.
pub open spec fn midpoint(b: nat) -> nat {
    scaled(b) + scaled(b + 1)
}

/// `num / den` rounds to a magnitude above `b`: it lies past the point halfway
/// between `b` and the next magnitude, or on it where the next one is even.
#[verifier::opaque]
pub open spec fn rounds_above(num: nat, den: nat, b: nat) -> bool {
    let x = num * pow2(150);
    midpoint(b) * den < x || (midpoint(b) * den == x && b % 2 == 1)
}

/// `b` is the magnitude that `num / den` rounds to: the nearest one, and the
/// even one of two that are equally near.
pub open spec fn rounds_to(num: nat, den: nat, b: nat) -> bool {
    &&& b <= INF_BITS
    &&& b > 0 ==> rounds_above(num, den, (b - 1) as nat)
    &&& b < INF_BITS ==> !rounds_above(num, den, b)
}

/// The magnitude nearest to `num / den`.
pub open spec fn nearest(num: nat, den: nat) -> nat {
    choose|b: nat| rounds_to(num, den, b)
}

/// No number rounds to two different magnitudes.
pub proof fn rounding_is_unique(num: nat, den: nat, a: nat, b: nat)
    requires
        den > 0,
        rounds_to(num, den, a),
        rounds_to(num, den, b),
    ensures
        a == b,
{
    reveal(rounds_above);
    if a != b {
        let lo = if a < b {
            a
        } else {
            b
        };
        let hi = if a < b {
            b
        } else {
            a
        };
        magnitudes_are_ordered(lo, lo + 1);
        let m1 = midpoint(lo) as int;
        let m2 = midpoint((hi - 1) as nat) as int;
        let d = den as int;
        if lo < hi - 1 {
            magnitudes_are_ordered(lo, (hi - 1) as nat);
            magnitudes_are_ordered(lo + 1, hi);
            assert(m1 * d < m2 * d) by (nonlinear_arith)
                requires
                    m1 < m2,
                    d > 0,
            ;
        }
    }
}

proof fn lemma_rounding_from(num: nat, den: nat, b: nat)
    requires
        b <= INF_BITS,
        b > 0 ==> rounds_above(num, den, (b - 1) as nat),
    ensures
        exists|c: nat| rounds_to(num, den, c),
    decreases INF_BITS - b,
{
    if b == INF_BITS || !rounds_above(num, den, b) {
        assert(rounds_to(num, den, b));
    } else {
        lemma_rounding_from(num, den, b + 1);
    }
}

/// Every number rounds to some magnitude.
pub proof fn rounding_exists(num: nat, den: nat)
    ensures
        rounds_to(num, den, nearest(num, den)),
{
    lemma_rounding_from(num, den, 0);
}

/// Zero rounds to zero.
pub proof fn zero_rounds_to_zero(den: nat)
    requires
        den > 0,
    ensures
        nearest(0, den) == 0,
{
    reveal(rounds_above);
    lemma_midpoint(0);
    lemma2_to64();
    assert(midpoint(0) == 1);
    assert(midpoint(0) * den > 0) by (nonlinear_arith)
        requires
            midpoint(0) == 1,
            den > 0,
    ;
    assert(0 * pow2(150) == 0) by (nonlinear_arith);
    assert(rounds_to(0, den, 0));
    rounding_exists(0, den);
    rounding_is_unique(0, den, 0, nearest(0, den));
}

/// Power-of-two weight of the last bit of magnitude `b`.
spec fn unit_exponent(b: nat) -> nat {
    if b / 0x80_0000 == 0 {
        0
    } else {
        (b / 0x80_0000 - 1) as nat
    }
}

/// Magnitude `b` in units of its last bit.
spec fn significand(b: nat) -> nat {
    if b / 0x80_0000 == 0 {
        b % 0x80_0000
    } else {
        b % 0x80_0000 + 0x80_0000
    }
}

proof fn lemma_midpoint(b: nat)
    ensures
        midpoint(b) == (2 * significand(b) + 1) * pow2(unit_exponent(b)),
{
    let e = b / 0x80_0000;
    let f = b % 0x80_0000;
    let m = significand(b) as int;
    let p = pow2(unit_exponent(b)) as int;
    lemma2_to64();
    assert(scaled(b) == m * p) by {
        if e == 0 {
            assert(m * p == m) by (nonlinear_arith)
                requires
                    p == 1,
            ;
        }
    }
    if f + 1 < 0x80_0000 {
        assert((b + 1) / 0x80_0000 == e);
        assert((b + 1) % 0x80_0000 == f + 1);
        assert(scaled(b + 1) == (m + 1) * p) by {
            if e == 0 {
                assert((m + 1) * p == m + 1) by (nonlinear_arith)
                    requires
                        p == 1,
                ;
            }
        }
    } else {
        assert((b + 1) / 0x80_0000 == e + 1);
        assert((b + 1) % 0x80_0000 == 0);
        if e == 0 {
            assert(scaled(b + 1) == 0x80_0000 * pow2(0));
            assert((m + 1) * p == 0x80_0000 * pow2(0)) by (nonlinear_arith)
                requires
                    p == 1,
                    pow2(0) == 1,
                    m + 1 == 0x80_0000,
            ;
        } else {
            lemma_pow2_unfold(e);
            assert(scaled(b + 1) == 0x80_0000 * pow2(e));
            assert((m + 1) * p == 0x80_0000 * (2 * p)) by (nonlinear_arith)
                requires
                    m + 1 == 0x100_0000,
            ;
        }
    }
    assert(m * p + (m + 1) * p == (2 * m + 1) * p) by (nonlinear_arith);
}

/// The midpoint above magnitude `b` as an odd number times a power of two.
pub fn split_midpoint(b: u64) -> (res: (u64, u32))
    requires
        b < INF_BITS,
    ensures
        midpoint(b as nat) == res.0 * pow2(res.1 as nat),
        res.1 <= 253,
{
    let e: u64 = b / 0x80_0000;
    let f: u64 = b % 0x80_0000;
    proof {
        lemma_midpoint(b as nat);
    }
    if e == 0 {
        (2 * f + 1, 0)
    } else {
        (2 * (f + 0x80_0000) + 1, (e - 1) as u32)
    }
}

/// Whether `num / den`, with `num` given as `x = num * 2^150`, rounds to a
/// magnitude above `b`.
fn passes(x: &BigNat, den: &BigNat, b: u64, num: Ghost<nat>) -> (res: bool)
    requires
        b < INF_BITS,
        x@ == num@ * pow2(150),
    ensures
        res == rounds_above(num@, den@, b as nat),
{
    let (k, s): (u64, u32) = split_midpoint(b);
    let y = den.mul_add(k, 0).mul_pow2(s);
    proof {
        reveal(rounds_above);
        let d = den@ as int;
        let p = pow2(s as nat) as int;
        assert((d * k) * p == (k * p) * d) by (nonlinear_arith);
    }
    match y.order(x) {
        Order::Less => true,
        Order::Equal => b % 2 == 1,
        Order::Greater => false,
    }
}

/// Whether `x / (2 * d)` lies above the magnitude before `b` and below the second one behind
/// it, as far as these are finite.
pub open spec fn is_near(x: nat, d: nat, b: nat) -> bool {
    &&& b >= 1 ==> scaled((b - 1) as nat) * (2 * d) < x
    &&& b + 2 < INF_BITS ==> x < scaled(b + 2) * (2 * d)
}

/// The magnitudes around one that is neither small nor the last.
proof fn lemma_around(e: nat, f: nat)
    requires
        e >= 1,
        f < 0x80_0000,
    ensures
        2 * scaled((e * 0x80_0000 + f - 1) as nat) <= (2 * (f + 0x80_0000) - 1) * pow2(
            (e - 1) as nat,
        ),
        (f + 0x80_0000 + 2) * pow2((e - 1) as nat) <= scaled(e * 0x80_0000 + f + 2),
{
    let b = e * 0x80_0000 + f;
    let p = pow2((e - 1) as nat) as int;
    lemma2_to64();
    lemma_pow2_pos((e - 1) as nat);
    lemma_pow2_unfold(e);
    assert(pow2(e) == 2 * p);
    let s = f + 0x80_0000;
    // Below.
    if f > 0 {
        assert((b - 1) / 0x80_0000 == e && (b - 1) % 0x80_0000 == f - 1);
        assert(2 * ((s - 1) * p) <= (2 * s - 1) * p) by (nonlinear_arith)
            requires
                p > 0,
        ;
    } else if e == 1 {
        assert((b - 1) / 0x80_0000 == 0 && (b - 1) % 0x80_0000 == 0x80_0000 - 1);
        assert((2 * s - 1) * p == 2 * s - 1) by (nonlinear_arith)
            requires
                p == 1,
        ;
    } else {
        assert((b - 1) / 0x80_0000 == e - 1 && (b - 1) % 0x80_0000 == 0x80_0000 - 1);
        lemma_pow2_unfold((e - 1) as nat);
        let h = pow2((e - 2) as nat) as int;
        assert(p == 2 * h);
        assert(2 * ((s - 1 + s) * h) == (2 * s - 1) * p) by (nonlinear_arith)
            requires
                p == 2 * h,
        ;
    }
    // Above.
    if f + 2 < 0x80_0000 {
        assert((b + 2) / 0x80_0000 == e && (b + 2) % 0x80_0000 == f + 2);
    } else {
        let k = f + 2 - 0x80_0000;
        assert((b + 2) / 0x80_0000 == e + 1 && (b + 2) % 0x80_0000 == k);
        assert((s + 2) * p <= (k + 0x80_0000) * (2 * p)) by (nonlinear_arith)
            requires
                p > 0,
                s + 2 == k + 2 * 0x80_0000,
                k >= 0,
        ;
    }
}

proof fn lemma_small(b: nat)
    requires
        b < 2 * 0x80_0000,
    ensures
        scaled(b) == b,
{
    lemma2_to64();
    if b >= 0x80_0000 {
        assert(b / 0x80_0000 == 1 && b % 0x80_0000 == b - 0x80_0000);
        assert(pow2(0) == 1);
        assert(b * pow2(0) == b) by (nonlinear_arith)
            requires
                pow2(0) == 1,
        ;
    }
}

proof fn lemma_near_normal(q: nat, t: int, x: nat, d: nat)
    requires
        0x8000_0000_0000_0000 <= q < 0x1_0000_0000_0000_0000,
        1 <= t + 41,
        bignat::under((q - 4) as nat, t, x, d),
        bignat::over(q + 4, t, x, d),
    ensures
        is_near(x, d, ((t + 41) * 0x80_0000 + q / 0x100_0000_0000 % 0x80_0000) as nat),
{
    let e = (t + 41) as nat;
    let s = q / 0x100_0000_0000;
    let f = s % 0x80_0000;
    assert(s == f + 0x80_0000);
    let b = e * 0x80_0000 + f;
    let p = pow2((e - 1) as nat) as int;
    let lo = scaled((b - 1) as nat);
    let hi = scaled(b + 2);
    lemma_around(e, f);
    lemma2_to64();
    lemma2_to64_rest();
    assert(pow2(40) == 0x100_0000_0000);
    let si = s as int;
    if t >= 0 {
        let g = pow2(t as nat) as int;
        lemma_pow2_pos(t as nat);
        lemma_pow2_adds(40, t as nat);
        assert(p == 0x100_0000_0000 * g);
        assert(lo <= (q - 4) * g) by (nonlinear_arith)
            requires
                2 * lo <= (2 * si - 1) * p,
                p == 0x100_0000_0000 * g,
                0x100_0000_0000 * si <= q,
                g > 0,
        ;
        assert((q + 4) * g <= hi) by (nonlinear_arith)
            requires
                (si + 2) * p <= hi,
                p == 0x100_0000_0000 * g,
                q < 0x100_0000_0000 * (si + 1),
                g > 0,
        ;
    } else {
        let g = pow2((-t) as nat) as int;
        lemma_pow2_pos((-t) as nat);
        lemma_pow2_adds((e - 1) as nat, (-t) as nat);
        assert((e - 1) as nat + (-t) as nat == 40);
        assert(p * g == 0x100_0000_0000);
        assert(lo * g <= q - 4) by (nonlinear_arith)
            requires
                2 * lo <= (2 * si - 1) * p,
                p * g == 0x100_0000_0000,
                0x100_0000_0000 * si <= q,
                g > 0,
        ;
        assert(q + 4 <= hi * g) by (nonlinear_arith)
            requires
                (si + 2) * p <= hi,
                p * g == 0x100_0000_0000,
                q < 0x100_0000_0000 * (si + 1),
                g > 0,
        ;
    }
    bignat::lemma_under((q - 4) as nat, t, x, d, lo);
    bignat::lemma_over(q + 4, t, x, d, hi);
}

proof fn lemma_near_small(q: nat, t: int, x: nat, d: nat)
    requires
        0x8000_0000_0000_0000 <= q < 0x1_0000_0000_0000_0000,
        -64 < t <= -41,
        bignat::under((q - 4) as nat, t, x, d),
        bignat::over(q + 4, t, x, d),
    ensures
        q / pow2((-t) as nat) < 0x80_0000,
        is_near(x, d, q / pow2((-t) as nat)),
{
    let g = pow2((-t) as nat) as int;
    let qi = q as int;
    lemma_pow2_pos((-t) as nat);
    let b = (qi / g) as nat;
    vstd::arithmetic::div_mod::lemma_fundamental_div_mod(qi, g);
    let bi = b as int;
    assert(bi * g <= qi < (bi + 1) * g) by (nonlinear_arith)
        requires
            qi == g * bi + qi % g,
            0 <= qi % g < g,
    ;
    lemma2_to64();
    lemma2_to64_rest();
    lemma_pow2_adds(41, (-t - 41) as nat);
    lemma_pow2_pos((-t - 41) as nat);
    let r = pow2((-t - 41) as nat) as int;
    assert(g >= 2 * 0x100_0000_0000) by (nonlinear_arith)
        requires
            g == (2 * 0x100_0000_0000) * r,
            r >= 1,
    ;
    assert(bi < 0x80_0000) by (nonlinear_arith)
        requires
            bi * g <= qi,
            qi < 0x1_0000_0000_0000_0000,
            g >= 2 * 0x100_0000_0000,
            bi >= 0,
    ;
    if b >= 1 {
        lemma_small((b - 1) as nat);
        assert((bi - 1) * g <= qi - 4) by (nonlinear_arith)
            requires
                bi * g <= qi,
                g >= 4,
        ;
        bignat::lemma_under((q - 4) as nat, t, x, d, (b - 1) as nat);
    }
    lemma_small(b + 2);
    assert(qi + 4 <= (bi + 2) * g) by (nonlinear_arith)
        requires
            qi < (bi + 1) * g,
            g >= 4,
    ;
    bignat::lemma_over(q + 4, t, x, d, b + 2);
}

proof fn lemma_near_zero(q: nat, t: int, x: nat, d: nat)
    requires
        q < 0x1_0000_0000_0000_0000,
        t <= -64,
        bignat::over(q + 4, t, x, d),
    ensures
        is_near(x, d, 0),
{
    lemma2_to64();
    lemma_pow2_adds(64, (-t - 64) as nat);
    lemma_pow2_pos((-t - 64) as nat);
    let g = pow2((-t) as nat) as int;
    let r = pow2((-t - 64) as nat) as int;
    assert(g >= 0x1_0000_0000_0000_0000) by (nonlinear_arith)
        requires
            g == 0x1_0000_0000_0000_0000 * r,
            r >= 1,
    ;
    lemma_small(2);
    bignat::lemma_over(q + 4, t, x, d, 2);
}

proof fn lemma_near_last(q: nat, t: int, x: nat, d: nat)
    requires
        0x8000_0000_0000_0000 <= q,
        t + 41 >= 255,
        bignat::under((q - 4) as nat, t, x, d),
    ensures
        is_near(x, d, (INF_BITS - 1) as nat),
{
    let b = (INF_BITS - 2) as nat;
    let p = pow2(253) as int;
    let g = pow2(t as nat) as int;
    let r = pow2((t - 214) as nat) as int;
    lemma2_to64();
    lemma2_to64_rest();
    lemma_pow2_adds(214, 39);
    lemma_pow2_adds(214, (t - 214) as nat);
    lemma_pow2_pos(214);
    lemma_pow2_pos((t - 214) as nat);
    let o = pow2(214) as int;
    assert(p == o * 0x80_0000_0000);
    assert(b / 0x80_0000 == 254);
    assert(b % 0x80_0000 == 0x80_0000 - 2);
    assert(scaled(b) == (2 * 0x80_0000 - 2) * p);
    let lo = scaled(b) as int;
    assert(lo <= (q - 4) * g) by (nonlinear_arith)
        requires
            lo == (2 * 0x80_0000 - 2) * (o * 0x80_0000_0000),
            g == o * r,
            r >= 1,
            o > 0,
            q >= 0x8000_0000_0000_0000,
    ;
    bignat::lemma_under((q - 4) as nat, t, x, d, scaled(b));
}

/// A magnitude near `x / den` units, halved: where to look first.
fn guess(x: &BigNat, den: &BigNat) -> (res: u64)
    ensures
        res < INF_BITS,
        den@ > 0 ==> is_near(x@, den@, res as nat),
{
    match bignat::quotient(x, den) {
        None => {
            proof {
                let k = scaled(2);
                let d = den@;
                lemma_small(2);
                assert(d > 0 ==> 0 < k * (2 * d)) by (nonlinear_arith)
                    requires
                        k == 2,
                ;
                assert(d > 0 ==> is_near(x@, d, 0));
            }
            0
        },
        Some((q, t)) => {
            let e: i128 = t + 41;
            if e >= 255 {
                proof {
                    lemma_near_last(q as nat, t as int, x@, den@);
                }
                INF_BITS - 1
            } else if e >= 1 {
                proof {
                    lemma_near_normal(q as nat, t as int, x@, den@);
                }
                let b: u64 = e as u64 * 0x80_0000 + q / 0x100_0000_0000 % 0x80_0000;
                assert(is_near(x@, den@, b as nat));
                b
            } else if t > -64 {
                proof {
                    lemma_near_small(q as nat, t as int, x@, den@);
                }
                let b: u64 = q / crate::decimal::pow2_u64((-t) as u32);
                assert(is_near(x@, den@, b as nat));
                b
            } else {
                proof {
                    lemma_near_zero(q as nat, t as int, x@, den@);
                }
                0
            }
        },
    }
}

/// The magnitude nearest to `num / den`.
pub fn nearest_magnitude(num: &BigNat, den: &BigNat) -> (res: u64)
    requires
        den@ > 0,
    ensures
        res == nearest(num@, den@),
        rounds_to(num@, den@, res as nat),
{
    let x = num.mul_pow2(150);
    let n: Ghost<nat> = Ghost(num@);
    let mut lo: u64 = 0;
    let mut hi: u64 = INF_BITS;
    let near: u64 = guess(&x, den);
    if near >= 2 && passes(&x, den, near - 2, n) {
        lo = near - 1;
    }
    if near + 2 < INF_BITS && !passes(&x, den, near + 2, n) {
        hi = near + 2;
    }
    while lo < hi
        invariant
            lo <= hi <= INF_BITS,
            n@ == num@,
            x@ == n@ * pow2(150),
            lo > 0 ==> rounds_above(n@, den@, (lo - 1) as nat),
            hi < INF_BITS ==> !rounds_above(n@, den@, hi as nat),
        decreases hi - lo,
    {
        let mid: u64 = lo + (hi - lo) / 2;
        if passes(&x, den, mid, n) {
            lo = mid + 1;
        } else {
            hi = mid;
        }
    }
    proof {
        assert(rounds_to(num@, den@, lo as nat));
        let c = nearest(num@, den@);
        assert(rounds_to(num@, den@, c));
        rounding_is_unique(num@, den@, lo as nat, c);
    }
    lo
}

/// A finite magnitude as `significand * 2^exponent`, in units of 2^-149.
pub fn split_magnitude(b: u64) -> (res: (u64, u32))
    requires
        b < INF_BITS,
    ensures
        scaled(b as nat) == res.0 * pow2(res.1 as nat),
        res.0 < 0x100_0000,
        res.1 <= 253,
{
    let e: u64 = b / 0x80_0000;
    let f: u64 = b % 0x80_0000;
    proof {
        lemma2_to64();
    }
    if e == 0 {
        assert(f * pow2(0) == f) by (nonlinear_arith)
            requires
                pow2(0) == 1,
        ;
        (f, 0)
    } else {
        (f + 0x80_0000, (e - 1) as u32)
    }
}

/// The number with sign and magnitude as given.
pub open spec fn signed(negative: bool, magnitude: nat) -> Single {
    Single {
        bits: (if negative {
            magnitude + SIGN_BIT
        } else {
            magnitude as int
        }) as u32,
    }
}

/// Not-a-number.
pub open spec fn nan() -> Single {
    Single { bits: NAN_BITS }
}

pub open spec fn abs_int(x: int) -> nat {
    (if x < 0 {
        -x
    } else {
        x
    }) as nat
}

/// The single nearest to `u` units of 2^-149; a zero sum takes `zero_sign`.
pub open spec fn round_units(u: int, zero_sign: bool) -> Single {
    if u == 0 {
        signed(zero_sign, 0)
    } else {
        signed(u < 0, nearest(abs_int(u), pow2(149)))
    }
}

impl Single {
    pub open spec fn infinite(self) -> bool {
        self.magnitude() == INF_BITS
    }

    /// `-self`.
    pub open spec fn neg_spec(self) -> Single {
        signed(!self.negative(), self.magnitude())
    }

    /// `|self|`.
    pub open spec fn abs_spec(self) -> Single {
        signed(false, self.magnitude())
    }

    /// `self + other`.
    pub open spec fn add_spec(self, other: Single) -> Single {
        if self.nan() || other.nan() {
            nan()
        } else if self.infinite() {
            if other.infinite() && self.negative() != other.negative() {
                nan()
            } else {
                self
            }
        } else if other.infinite() {
            other
        } else {
            round_units(self.units() + other.units(), self.negative() && other.negative())
        }
    }

    /// `self - other`.
    pub open spec fn sub_spec(self, other: Single) -> Single {
        if other.nan() {
            nan()
        } else {
            self.add_spec(other.neg_spec())
        }
    }

    /// `self * other`.
    pub open spec fn mul_spec(self, other: Single) -> Single {
        let negative = self.negative() != other.negative();
        if self.nan() || other.nan() {
            nan()
        } else if self.infinite() || other.infinite() {
            if self.magnitude() == 0 || other.magnitude() == 0 {
                nan()
            } else {
                signed(negative, INF_BITS as nat)
            }
        } else {
            signed(
                negative,
                nearest(
                    abs_int(self.units()) * abs_int(other.units()),
                    pow2(298),
                ),
            )
        }
    }

    /// `self / other`.
    pub open spec fn div_spec(self, other: Single) -> Single {
        let negative = self.negative() != other.negative();
        if self.nan() || other.nan() || (self.infinite() && other.infinite()) {
            nan()
        } else if self.infinite() {
            signed(negative, INF_BITS as nat)
        } else if other.infinite() {
            signed(negative, 0)
        } else if other.magnitude() == 0 {
            if self.magnitude() == 0 {
                nan()
            } else {
                signed(negative, INF_BITS as nat)
            }
        } else {
            signed(negative, nearest(abs_int(self.units()), abs_int(other.units())))
        }
    }

    pub(crate) fn make(negative: bool, magnitude: u64) -> (res: Single)
        requires
            magnitude < SIGN_BIT,
        ensures
            res == signed(negative, magnitude as nat),
            res.magnitude() == magnitude,
            res.negative() == negative,
    {
        if negative {
            Single { bits: (magnitude + SIGN_BIT) as u32 }
        } else {
            Single { bits: magnitude as u32 }
        }
    }

    fn magnitude_bits(self) -> (res: u64)
        ensures
            res == self.magnitude(),
            res < SIGN_BIT,
    {
        self.mag()
    }

    pub fn is_infinite(self) -> (res: bool)
        ensures
            res == self.infinite(),
    {
        self.magnitude_bits() == INF_BITS
    }

    pub fn neg(self) -> (res: Single)
        ensures
            res == self.neg_spec(),
    {
        Single::make(!self.is_negative(), self.magnitude_bits())
    }

    pub fn abs(self) -> (res: Single)
        ensures
            res == self.abs_spec(),
    {
        Single::make(false, self.magnitude_bits())
    }

    /// `|self|` in units of 2^-149.
    pub(crate) fn big_units(self) -> (res: BigNat)
        requires
            self.finite(),
        ensures
            res@ == abs_int(self.units()),
            res@ == 0 <==> self.magnitude() == 0,
    {
        let (m, s): (u64, u32) = split_magnitude(self.magnitude_bits());
        let res = BigNat::from_u64(m).mul_pow2(s);
        proof {
            magnitudes_are_ordered(0, 1);
            if self.magnitude() > 0 {
                magnitudes_are_ordered(0, self.magnitude());
            }
        }
        res
    }

    /// `self + other`, rounded to the nearest single.
    pub fn add(self, other: Single) -> (res: Single)
        ensures
            res == self.add_spec(other),
    {
        if self.is_nan() || other.is_nan() {
            return Single { bits: NAN_BITS };
        }
        if self.is_infinite() {
            if other.is_infinite() && self.is_negative() != other.is_negative() {
                return Single { bits: NAN_BITS };
            }
            return self;
        }
        if other.is_infinite() {
            return other;
        }
        let a = self.big_units();
        let b = other.big_units();
        let den = BigNat::from_u64(1).mul_pow2(149);
        proof {
            lemma_pow2_pos(149);
            assert(1 * pow2(149) == pow2(149)) by (nonlinear_arith);
        }
        if self.is_negative() == other.is_negative() {
            let sum = a.plus(&b);
            let m: u64 = nearest_magnitude(&sum, &den);
            proof {
                if sum@ == 0 {
                    zero_rounds_to_zero(pow2(149));
                }
            }
            Single::make(self.is_negative(), m)
        } else {
            match a.order(&b) {
                Order::Equal => Single::make(false, 0),
                Order::Greater => {
                    let d = a.minus(&b);
                    Single::make(self.is_negative(), nearest_magnitude(&d, &den))
                },
                Order::Less => {
                    let d = b.minus(&a);
                    Single::make(other.is_negative(), nearest_magnitude(&d, &den))
                },
            }
        }
    }

    /// `self - other`, rounded to the nearest single.
    pub fn sub(self, other: Single) -> (res: Single)
        ensures
            res == self.sub_spec(other),
    {
        if other.is_nan() {
            return Single { bits: NAN_BITS };
        }
        self.add(other.neg())
    }

    /// `self * other`, rounded to the nearest single.
    pub fn mul(self, other: Single) -> (res: Single)
        ensures
            res == self.mul_spec(other),
    {
        if self.is_nan() || other.is_nan() {
            return Single { bits: NAN_BITS };
        }
        let negative = self.is_negative() != other.is_negative();
        let a: u64 = self.magnitude_bits();
        let b: u64 = other.magnitude_bits();
        if a == INF_BITS || b == INF_BITS {
            if a == 0 || b == 0 {
                return Single { bits: NAN_BITS };
            }
            return Single::make(negative, INF_BITS);
        }
        let (m1, s1): (u64, u32) = split_magnitude(a);
        let (m2, s2): (u64, u32) = split_magnitude(b);
        let num = BigNat::from_u64(m1).mul_add(m2, 0).mul_pow2(s1 + s2);
        let den = BigNat::from_u64(1).mul_pow2(298);
        proof {
            lemma_pow2_pos(298);
            assert(1 * pow2(298) == pow2(298)) by (nonlinear_arith);
            lemma_pow2_adds(s1 as nat, s2 as nat);
            let p = pow2(s1 as nat) as int;
            let q = pow2(s2 as nat) as int;
            assert((m1 * m2) * (p * q) == (m1 * p) * (m2 * q)) by (nonlinear_arith);
        }
        Single::make(negative, nearest_magnitude(&num, &den))
    }

    /// `self / other`, rounded to the nearest single.
    pub fn div(self, other: Single) -> (res: Single)
        ensures
            res == self.div_spec(other),
    {
        if self.is_nan() || other.is_nan() || (self.is_infinite() && other.is_infinite()) {
            return Single { bits: NAN_BITS };
        }
        let negative = self.is_negative() != other.is_negative();
        if self.is_infinite() {
            return Single::make(negative, INF_BITS);
        }
        if other.is_infinite() {
            return Single::make(negative, 0);
        }
        if other.magnitude_bits() == 0 {
            if self.magnitude_bits() == 0 {
                return Single { bits: NAN_BITS };
            }
            return Single::make(negative, INF_BITS);
        }
        let a = self.big_units();
        let b = other.big_units();
        Single::make(negative, nearest_magnitude(&a, &b))
    }

    /// `n` as a single.
    pub open spec fn of_nat(n: nat) -> Single {
        signed(false, nearest(n, 1))
    }

    /// The single nearest to `n`.
    pub fn from_u64(n: u64) -> (res: Single)
        ensures
            res == Single::of_nat(n as nat),
    {
        Single::make(
            false,
            nearest_magnitude(&BigNat::from_u64(n), &BigNat::from_u64(1)),
        )
    }

    /// The single nearest to `n`.
    pub fn from_i64(n: i64) -> (res: Single)
        ensures
            res == (if n < 0 {
                Single::of_nat((-n) as nat).neg_spec()
            } else {
                Single::of_nat(n as nat)
            }),
    {
        if n < 0 {
            Single::from_u64((0i128 - n as i128) as u64).neg()
        } else {
            Single::from_u64(n as u64)
        }
    }

    /// IEEE-754 `<=`.
    pub open spec fn at_most(self, other: Single) -> bool {
        !self.nan() && !other.nan() && self.rank() <= other.rank()
    }

    /// IEEE-754 `self <= other`.
    pub fn le(self, other: Single) -> (res: bool)
        ensures
            res == self.at_most(other),
    {
        !self.is_nan() && !other.is_nan() && !other.lt(self)
    }
}

/// `b` is the magnitude that the square root of `u` units rounds to.
pub open spec fn root_rounds_to(u: nat, b: nat) -> bool {
    let x = u * pow2(151);
    let below = midpoint((b - 1) as nat);
    let above = midpoint(b);
    &&& b <= INF_BITS
    &&& b > 0 ==> below * below < x || (below * below == x && b % 2 == 0)
    &&& b < INF_BITS ==> x < above * above || (x == above * above && b % 2 == 0)
}

/// The magnitude nearest to the square root of `u` units.
pub open spec fn nearest_root(u: nat) -> nat {
    choose|b: nat| root_rounds_to(u, b)
}

/// No square root rounds to two different magnitudes.
pub proof fn root_is_unique(u: nat, a: nat, b: nat)
    requires
        root_rounds_to(u, a),
        root_rounds_to(u, b),
    ensures
        a == b,
{
    if a != b {
        let lo = if a < b {
            a
        } else {
            b
        };
        let hi = if a < b {
            b
        } else {
            a
        };
        let m1 = midpoint(lo) as int;
        let m2 = midpoint((hi - 1) as nat) as int;
        if lo < hi - 1 {
            magnitudes_are_ordered(lo, (hi - 1) as nat);
            magnitudes_are_ordered(lo + 1, hi);
            assert(m1 * m1 < m2 * m2) by (nonlinear_arith)
                requires
                    0 <= m1 < m2,
            ;
        }
    }
}

/// Whether the root of `x` half units rounds to a magnitude of at most `b`.
#[verifier::opaque]
pub open spec fn root_bounded(x: nat, b: nat) -> bool {
    let m = midpoint(b);
    x < m * m || (x == m * m && b % 2 == 0)
}

fn root_at_most(x: &BigNat, b: u64) -> (res: bool)
    requires
        b < INF_BITS,
    ensures
        res == root_bounded(x@, b as nat),
{
    let (k, s): (u64, u32) = split_midpoint(b);
    let y = BigNat::from_u64(k).mul_add(k, 0).mul_pow2(s + s);
    proof {
        reveal(root_bounded);
        lemma_pow2_adds(s as nat, s as nat);
        let p = pow2(s as nat) as int;
        assert((k * k) * (p * p) == (k * p) * (k * p)) by (nonlinear_arith);
    }
    match x.order(&y) {
        Order::Less => true,
        Order::Equal => b % 2 == 0,
        Order::Greater => false,
    }
}

impl Single {
    /// The square root of `self`.
    pub open spec fn sqrt_spec(self) -> Single {
        if self.nan() {
            nan()
        } else if self.magnitude() == 0 {
            self
        } else if self.negative() {
            nan()
        } else if self.infinite() {
            self
        } else {
            signed(false, nearest_root(abs_int(self.units())))
        }
    }

    /// The single nearest to the square root of `self`.
    pub fn sqrt(self) -> (res: Single)
        ensures
            res == self.sqrt_spec(),
    {
        if self.is_nan() {
            return Single { bits: NAN_BITS };
        }
        if self.magnitude_bits() == 0 {
            return self;
        }
        if self.is_negative() {
            return Single { bits: NAN_BITS };
        }
        if self.is_infinite() {
            return self;
        }
        let x = self.big_units().mul_pow2(151);
        let ghost u = abs_int(self.units());
        let mut lo: u64 = 0;
        let mut hi: u64 = INF_BITS;
        while lo < hi
            invariant
                lo <= hi <= INF_BITS,
                x@ == u * pow2(151),
                lo > 0 ==> !root_bounded(x@, (lo - 1) as nat),
                hi < INF_BITS ==> root_bounded(x@, hi as nat),
            decreases hi - lo,
        {
            let mid: u64 = lo + (hi - lo) / 2;
            if root_at_most(&x, mid) {
                hi = mid;
            } else {
                lo = mid + 1;
            }
        }
        proof {
            reveal(root_bounded);
            assert(root_rounds_to(u, lo as nat));
            root_is_unique(u, lo as nat, nearest_root(u));
        }
        Single::make(false, lo)
    }
}

// ── whole numbers ──────────────────────────────────────────────────

/// A whole number as a single.
pub open spec fn of_int(n: int) -> Single {
    if n < 0 {
        Single::of_nat((-n) as nat).neg_spec()
    } else {
        Single::of_nat(n as nat)
    }
}

/// The nearest whole number to `u` units of 2^-149; of two, the greater.
pub open spec fn rounded_units(u: nat) -> nat {
    (2 * u + pow2(149)) / pow2(150)
}

impl Single {
    /// The nearest whole number that an `i64` can hold, of two the one further from
    /// zero; zero for a not-a-number.
    pub open spec fn rounded(self) -> int {
        if self.nan() {
            0
        } else if self.infinite() {
            if self.negative() {
                i64::MIN as int
            } else {
                i64::MAX as int
            }
        } else {
            let n = rounded_units(abs_int(self.units())) as int;
            if self.negative() {
                if n > i64::MAX {
                    i64::MIN as int
                } else {
                    -n
                }
            } else if n > i64::MAX {
                i64::MAX as int
            } else {
                n
            }
        }
    }

    pub fn round_to_i64(self) -> (res: i64)
        ensures
            res == self.rounded(),
    {
        if self.is_nan() {
            return 0;
        }
        if self.is_infinite() {
            return if self.is_negative() {
                i64::MIN
            } else {
                i64::MAX
            };
        }
        let (m, s): (u64, u32) = split_magnitude(self.magnitude_bits());
        let n: Option<i64> = round_scaled(m, s);
        match n {
            Some(k) => {
                if self.is_negative() {
                    -k
                } else {
                    k
                }
            },
            None => {
                if self.is_negative() {
                    i64::MIN
                } else {
                    i64::MAX
                }
            },
        }
    }
}

/// The nearest whole number to `m * 2^s` units, if an `i64` can hold it.
fn round_scaled(m: u64, s: u32) -> (res: Option<i64>)
    requires
        m < 0x100_0000,
        s <= 253,
    ensures
        match res {
            Some(k) => k >= 0 && k == rounded_units(m as nat * pow2(s as nat)),
            None => rounded_units(m as nat * pow2(s as nat)) > i64::MAX,
        },
{
    if m == 0 {
        proof {
            lemma_pow2_adds(149, 1);
            lemma_pow2_pos(149);
            lemma2_to64();
            let p = pow2(149) as int;
            let q = pow2(s as nat) as int;
            assert(0 * q == 0) by (nonlinear_arith);
            assert(p / (2 * p) == 0) by (nonlinear_arith)
                requires
                    p > 0,
            ;
            assert(pow2(150) == 2 * p);
        }
        return Some(0);
    }
    if s < 149 {
        let k: u32 = 149 - s;
        if k > 25 {
            proof {
                lemma_small_rounds_to_zero(m as nat, s as nat);
            }
            return Some(0);
        }
        let half: u64 = crate::decimal::pow2_u64(k - 1);
        proof {
            lemma_right_shift(m as nat, s as nat);
            lemma_pow2_unfold(k as nat);
            lemma2_to64();
            crate::decimal::lemma_pow2_mono((k - 1) as nat, 24);
        }
        let q: u64 = (m + half) / (2 * half);
        assert(q <= m + half) by (nonlinear_arith)
            requires
                q == (m + half) / (2 * half) as int,
                half >= 1,
        ;
        Some(q as i64)
    } else {
        let k: u32 = s - 149;
        proof {
            lemma_left_shift(m as nat, s as nat);
            lemma2_to64();
        }
        if k >= 63 {
            proof {
                crate::decimal::lemma_pow2_mono(63, k as nat);
                let p = pow2(k as nat) as int;
                lemma_pow2_adds(32, 31);
                assert(m * p >= p) by (nonlinear_arith)
                    requires
                        m >= 1,
                        p >= 0,
                ;
                assert(0x1_0000_0000 * 0x8000_0000 == 0x8000_0000_0000_0000) by (nonlinear_arith);
            }
            return None;
        }
        let p: u64 = crate::decimal::pow2_u64(k);
        assert(m * p <= 0x100_0000 * 0xffff_ffff_ffff_ffff) by (nonlinear_arith)
            requires
                m < 0x100_0000,
                p <= 0xffff_ffff_ffff_ffff,
        ;
        let n: u128 = (m as u128) * (p as u128);
        if n > i64::MAX as u128 {
            None
        } else {
            Some(n as i64)
        }
    }
}

proof fn lemma_left_shift(m: nat, s: nat)
    requires
        s >= 149,
    ensures
        rounded_units(m * pow2(s)) == m * pow2((s - 149) as nat),
{
    let k = (s - 149) as nat;
    lemma_pow2_adds(149, k);
    lemma_pow2_adds(149, 1);
    lemma_pow2_pos(149);
    lemma2_to64();
    let p = pow2(149) as int;
    let q = (m * pow2(k)) as int;
    let a = pow2(k) as int;
    assert(m * (p * a) == q * p) by (nonlinear_arith)
        requires
            q == m * a,
    ;
    assert(2 * (q * p) + p == q * (2 * p) + p) by (nonlinear_arith);
    vstd::arithmetic::div_mod::lemma_fundamental_div_mod_converse(
        2 * (q * p) + p,
        2 * p,
        q,
        p,
    );
    assert(pow2(150) == 2 * p);
}

proof fn lemma_right_shift(m: nat, s: nat)
    requires
        s < 149,
    ensures
        rounded_units(m * pow2(s)) == (m + pow2((148 - s) as nat)) / pow2((149 - s) as nat),
{
    let k = (149 - s) as nat;
    lemma_pow2_adds(s, k);
    lemma_pow2_adds(149, 1);
    lemma_pow2_unfold(k);
    lemma_pow2_pos(s);
    lemma_pow2_pos(k);
    lemma2_to64();
    let a = pow2(s) as int;
    let h = pow2((k - 1) as nat) as int;
    assert(pow2(k) == 2 * h);
    assert(pow2(149) == a * (2 * h));
    assert(pow2(150) == 2 * (a * (2 * h)));
    let x = m + h;
    let d = 2 * a;
    assert(2 * (m * a) + a * (2 * h) == x * d) by (nonlinear_arith)
        requires
            x == m + h,
            d == 2 * a,
    ;
    assert(2 * (a * (2 * h)) == (2 * h) * d) by (nonlinear_arith)
        requires
            d == 2 * a,
    ;
    assert((x * d) / ((2 * h) * d) == x / (2 * h)) by {
        vstd::arithmetic::div_mod::lemma_div_multiples_vanish_quotient(d, x as int, 2 * h);
        assert(d * x == x * d && d * (2 * h) == (2 * h) * d) by (nonlinear_arith);
    }
}

proof fn lemma_small_rounds_to_zero(m: nat, s: nat)
    requires
        m < 0x100_0000,
        s + 25 < 149,
    ensures
        rounded_units(m * pow2(s)) == 0,
{
    lemma_right_shift(m, s);
    let k = (149 - s) as nat;
    lemma_pow2_unfold(k);
    lemma2_to64();
    crate::decimal::lemma_pow2_mono(24, (k - 1) as nat);
    let h = pow2((k - 1) as nat) as int;
    assert((m + h) / (2 * h) == 0) by (nonlinear_arith)
        requires
            0 <= m < h,
    ;
}

/// Addition and multiplication do not care for the order of their operands.
pub proof fn add_and_mul_commute(a: Single, b: Single)
    ensures
        a.add_spec(b) == b.add_spec(a),
        a.mul_spec(b) == b.mul_spec(a),
{
    assert(abs_int(a.units()) * abs_int(b.units()) == abs_int(b.units()) * abs_int(a.units()))
        by (nonlinear_arith);
}

} // verus!
