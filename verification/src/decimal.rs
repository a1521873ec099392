//! Decimal text to the nearest double-precision number.

use crate::bignat;
use crate::bignat::{BigNat, Order};
use crate::double;
use crate::double::{Real, INF_BITS, NAN_BITS, SIGN_BIT};
use crate::text;
use vstd::arithmetic::power2::{
    lemma2_to64, lemma2_to64_rest, lemma_pow2_adds, lemma_pow2_pos, lemma_pow2_unfold, pow2,
};
use vstd::prelude::*;
use vstd::string::*;

verus! {

/// Twice the point halfway between the magnitudes `b` and `b + 1`, in units
/// of 2^-1074. One past the largest finite magnitude stands for 2^1024.
pub open spec fn midpoint(b: nat) -> nat {
    double::scaled(b) + double::scaled(b + 1)
}

/// `num / den` rounds to a magnitude above `b`: it lies past the point halfway
/// between `b` and the next magnitude, or on it where the next one is even.
#[verifier::opaque]
pub open spec fn rounds_above(num: nat, den: nat, b: nat) -> bool {
    let x = num * pow2(1075);
    midpoint(b) * den < x || (midpoint(b) * den == x && b % 2 == 1)
}

/// `b` is the magnitude that `num / den` rounds to: the nearest one, and the
/// even one of two that are equally near.
pub open spec fn rounds_to(num: nat, den: nat, b: nat) -> bool {
    &&& b <= INF_BITS
    &&& b > 0 ==> rounds_above(num, den, (b - 1) as nat)
    &&& b < INF_BITS ==> !rounds_above(num, den, b)
}

/// The magnitude nearest to `num / den`.
pub open spec fn nearest(num: nat, den: nat) -> nat {
    choose|b: nat| rounds_to(num, den, b)
}

/// No number rounds to two different magnitudes.
pub proof fn rounding_is_unique(num: nat, den: nat, a: nat, b: nat)
    requires
        den > 0,
        rounds_to(num, den, a),
        rounds_to(num, den, b),
    ensures
        a == b,
{
    reveal(rounds_above);
    if a != b {
        let lo = if a < b {
            a
        } else {
            b
        };
        let hi = if a < b {
            b
        } else {
            a
        };
        double::magnitudes_are_ordered(lo, lo + 1);
        let m1 = midpoint(lo) as int;
        let m2 = midpoint((hi - 1) as nat) as int;
        let d = den as int;
        if lo < hi - 1 {
            double::magnitudes_are_ordered(lo, (hi - 1) as nat);
            double::magnitudes_are_ordered(lo + 1, hi);
            assert(m1 * d < m2 * d) by (nonlinear_arith)
                requires
                    m1 < m2,
                    d > 0,
            ;
        }
    }
}

proof fn lemma_rounding_from(num: nat, den: nat, b: nat)
    requires
        b <= INF_BITS,
        b > 0 ==> rounds_above(num, den, (b - 1) as nat),
    ensures
        exists|c: nat| rounds_to(num, den, c),
    decreases INF_BITS - b,
{
    if b == INF_BITS || !rounds_above(num, den, b) {
        assert(rounds_to(num, den, b));
    } else {
        lemma_rounding_from(num, den, b + 1);
    }
}

/// Every number rounds to some magnitude.
pub proof fn rounding_exists(num: nat, den: nat)
    ensures
        rounds_to(num, den, nearest(num, den)),
{
    lemma_rounding_from(num, den, 0);
}

/// Zero rounds to zero.
pub proof fn zero_rounds_to_zero(den: nat)
    requires
        den > 0,
    ensures
        nearest(0, den) == 0,
{
    reveal(rounds_above);
    lemma_midpoint(0);
    lemma2_to64();
    assert(midpoint(0) == 1);
    assert(midpoint(0) * den > 0) by (nonlinear_arith)
        requires
            midpoint(0) == 1,
            den > 0,
    ;
    assert(0 * pow2(1075) == 0) by (nonlinear_arith);
    assert(rounds_to(0, den, 0));
    rounding_exists(0, den);
    rounding_is_unique(0, den, 0, nearest(0, den));
}

/// Power-of-two weight of the last bit of magnitude `b`.
spec fn unit_exponent(b: nat) -> nat {
    if b / 0x10_0000_0000_0000 == 0 {
        0
    } else {
        (b / 0x10_0000_0000_0000 - 1) as nat
    }
}

/// Magnitude `b` in units of its last bit.
spec fn significand(b: nat) -> nat {
    if b / 0x10_0000_0000_0000 == 0 {
        b % 0x10_0000_0000_0000
    } else {
        b % 0x10_0000_0000_0000 + 0x10_0000_0000_0000
    }
}

proof fn lemma_midpoint(b: nat)
    ensures
        midpoint(b) == (2 * significand(b) + 1) * pow2(unit_exponent(b)),
{
    let e = b / 0x10_0000_0000_0000;
    let f = b % 0x10_0000_0000_0000;
    let m = significand(b) as int;
    let p = pow2(unit_exponent(b)) as int;
    lemma2_to64();
    assert(double::scaled(b) == m * p) by {
        if e == 0 {
            assert(m * p == m) by (nonlinear_arith)
                requires
                    p == 1,
            ;
        }
    }
    if f + 1 < 0x10_0000_0000_0000 {
        assert((b + 1) / 0x10_0000_0000_0000 == e);
        assert((b + 1) % 0x10_0000_0000_0000 == f + 1);
        assert(double::scaled(b + 1) == (m + 1) * p) by {
            if e == 0 {
                assert((m + 1) * p == m + 1) by (nonlinear_arith)
                    requires
                        p == 1,
                ;
            }
        }
    } else {
        assert((b + 1) / 0x10_0000_0000_0000 == e + 1);
        assert((b + 1) % 0x10_0000_0000_0000 == 0);
        if e == 0 {
            assert(double::scaled(b + 1) == 0x10_0000_0000_0000 * pow2(0));
            assert((m + 1) * p == 0x10_0000_0000_0000 * pow2(0)) by (nonlinear_arith)
                requires
                    p == 1,
                    pow2(0) == 1,
                    m + 1 == 0x10_0000_0000_0000,
            ;
        } else {
            lemma_pow2_unfold(e);
            assert(double::scaled(b + 1) == 0x10_0000_0000_0000 * pow2(e));
            assert((m + 1) * p == 0x10_0000_0000_0000 * (2 * p)) by (nonlinear_arith)
                requires
                    m + 1 == 0x20_0000_0000_0000,
            ;
        }
    }
    assert(m * p + (m + 1) * p == (2 * m + 1) * p) by (nonlinear_arith);
}

/// The midpoint above magnitude `b` as an odd number times a power of two.
pub fn split_midpoint(b: u64) -> (res: (u64, u32))
    requires
        b < INF_BITS,
    ensures
        midpoint(b as nat) == res.0 * pow2(res.1 as nat),
        res.1 <= 2045,
{
    let e: u64 = b / 0x10_0000_0000_0000;
    let f: u64 = b % 0x10_0000_0000_0000;
    proof {
        lemma_midpoint(b as nat);
    }
    if e == 0 {
        (2 * f + 1, 0)
    } else {
        (2 * (f + 0x10_0000_0000_0000) + 1, (e - 1) as u32)
    }
}

/// Whether `num / den`, with `num` given as `x = num * 2^1075`, rounds to a
/// magnitude above `b`.
fn passes(x: &BigNat, den: &BigNat, b: u64, num: Ghost<nat>) -> (res: bool)
    requires
        b < INF_BITS,
        x@ == num@ * pow2(1075),
    ensures
        res == rounds_above(num@, den@, b as nat),
{
    let (k, s): (u64, u32) = split_midpoint(b);
    let y = den.mul_add(k, 0).mul_pow2(s);
    proof {
        reveal(rounds_above);
        let d = den@ as int;
        let p = pow2(s as nat) as int;
        assert((d * k) * p == (k * p) * d) by (nonlinear_arith);
    }
    match y.order(x) {
        Order::Less => true,
        Order::Equal => b % 2 == 1,
        Order::Greater => false,
    }
}

/// Whether `x / (2 * d)` lies above the magnitude before `b` and below the second one behind
/// it, as far as these are finite.
pub open spec fn is_near(x: nat, d: nat, b: nat) -> bool {
    &&& b >= 1 ==> double::scaled((b - 1) as nat) * (2 * d) < x
    &&& b + 2 < INF_BITS ==> x < double::scaled(b + 2) * (2 * d)
}

/// The magnitudes around one that is neither small nor the last.
proof fn lemma_around(e: nat, f: nat)
    requires
        e >= 1,
        f < 0x10_0000_0000_0000,
    ensures
        2 * double::scaled((e * 0x10_0000_0000_0000 + f - 1) as nat) <= (2 * (f + 0x10_0000_0000_0000) - 1)
            * pow2((e - 1) as nat),
        (f + 0x10_0000_0000_0000 + 2) * pow2((e - 1) as nat) <= double::scaled(
            e * 0x10_0000_0000_0000 + f + 2,
        ),
{
    let b = e * 0x10_0000_0000_0000 + f;
    let p = pow2((e - 1) as nat) as int;
    lemma2_to64();
    lemma_pow2_pos((e - 1) as nat);
    lemma_pow2_unfold(e);
    assert(pow2(e) == 2 * p);
    let s = f + 0x10_0000_0000_0000;
    // Below.
    if f > 0 {
        assert((b - 1) / 0x10_0000_0000_0000 == e && (b - 1) % 0x10_0000_0000_0000 == f - 1);
        assert(2 * ((s - 1) * p) <= (2 * s - 1) * p) by (nonlinear_arith)
            requires
                p > 0,
        ;
    } else if e == 1 {
        assert((b - 1) / 0x10_0000_0000_0000 == 0);
        assert((b - 1) % 0x10_0000_0000_0000 == 0x10_0000_0000_0000 - 1);
        assert((2 * s - 1) * p == 2 * s - 1) by (nonlinear_arith)
            requires
                p == 1,
        ;
    } else {
        assert((b - 1) / 0x10_0000_0000_0000 == e - 1);
        assert((b - 1) % 0x10_0000_0000_0000 == 0x10_0000_0000_0000 - 1);
        lemma_pow2_unfold((e - 1) as nat);
        let h = pow2((e - 2) as nat) as int;
        assert(p == 2 * h);
        assert(2 * ((s - 1 + s) * h) == (2 * s - 1) * p) by (nonlinear_arith)
            requires
                p == 2 * h,
        ;
    }
    // Above.
    if f + 2 < 0x10_0000_0000_0000 {
        assert((b + 2) / 0x10_0000_0000_0000 == e && (b + 2) % 0x10_0000_0000_0000 == f + 2);
    } else {
        let k = f + 2 - 0x10_0000_0000_0000;
        assert((b + 2) / 0x10_0000_0000_0000 == e + 1 && (b + 2) % 0x10_0000_0000_0000 == k);
        assert((s + 2) * p <= (k + 0x10_0000_0000_0000) * (2 * p)) by (nonlinear_arith)
            requires
                p > 0,
                s + 2 == k + 2 * 0x10_0000_0000_0000,
                k >= 0,
        ;
    }
}

proof fn lemma_small(b: nat)
    requires
        b < 2 * 0x10_0000_0000_0000,
    ensures
        double::scaled(b) == b,
{
    lemma2_to64();
    if b >= 0x10_0000_0000_0000 {
        assert(b / 0x10_0000_0000_0000 == 1 && b % 0x10_0000_0000_0000 == b - 0x10_0000_0000_0000);
        assert(pow2(0) == 1);
        assert(b * pow2(0) == b) by (nonlinear_arith)
            requires
                pow2(0) == 1,
        ;
    }
}

proof fn lemma_near_normal(q: nat, t: int, x: nat, d: nat)
    requires
        0x8000_0000_0000_0000 <= q < 0x1_0000_0000_0000_0000,
        1 <= t + 12,
        bignat::under((q - 4) as nat, t, x, d),
        bignat::over(q + 4, t, x, d),
    ensures
        is_near(x, d, ((t + 12) * 0x10_0000_0000_0000 + q / 0x800 % 0x10_0000_0000_0000) as nat),
{
    let e = (t + 12) as nat;
    let s = q / 0x800;
    let f = s % 0x10_0000_0000_0000;
    assert(s == f + 0x10_0000_0000_0000);
    let b = e * 0x10_0000_0000_0000 + f;
    let p = pow2((e - 1) as nat) as int;
    let lo = double::scaled((b - 1) as nat);
    let hi = double::scaled(b + 2);
    lemma_around(e, f);
    lemma2_to64();
    lemma2_to64_rest();
    assert(pow2(11) == 0x800);
    let si = s as int;
    if t >= 0 {
        let g = pow2(t as nat) as int;
        lemma_pow2_pos(t as nat);
        lemma_pow2_adds(11, t as nat);
        assert(p == 0x800 * g);
        assert(lo <= (q - 4) * g) by (nonlinear_arith)
            requires
                2 * lo <= (2 * si - 1) * p,
                p == 0x800 * g,
                0x800 * si <= q,
                g > 0,
        ;
        assert((q + 4) * g <= hi) by (nonlinear_arith)
            requires
                (si + 2) * p <= hi,
                p == 0x800 * g,
                q < 0x800 * (si + 1),
                g > 0,
        ;
    } else {
        let g = pow2((-t) as nat) as int;
        lemma_pow2_pos((-t) as nat);
        lemma_pow2_adds((e - 1) as nat, (-t) as nat);
        assert((e - 1) as nat + (-t) as nat == 11);
        assert(p * g == 0x800);
        assert(lo * g <= q - 4) by (nonlinear_arith)
            requires
                2 * lo <= (2 * si - 1) * p,
                p * g == 0x800,
                0x800 * si <= q,
                g > 0,
        ;
        assert(q + 4 <= hi * g) by (nonlinear_arith)
            requires
                (si + 2) * p <= hi,
                p * g == 0x800,
                q < 0x800 * (si + 1),
                g > 0,
        ;
    }
    bignat::lemma_under((q - 4) as nat, t, x, d, lo);
    bignat::lemma_over(q + 4, t, x, d, hi);
}

proof fn lemma_near_small(q: nat, t: int, x: nat, d: nat)
    requires
        0x8000_0000_0000_0000 <= q < 0x1_0000_0000_0000_0000,
        -64 < t <= -12,
        bignat::under((q - 4) as nat, t, x, d),
        bignat::over(q + 4, t, x, d),
    ensures
        q / pow2((-t) as nat) < 0x10_0000_0000_0000,
        is_near(x, d, q / pow2((-t) as nat)),
{
    let g = pow2((-t) as nat) as int;
    let qi = q as int;
    lemma_pow2_pos((-t) as nat);
    let b = (qi / g) as nat;
    vstd::arithmetic::div_mod::lemma_fundamental_div_mod(qi, g);
    let bi = b as int;
    assert(bi * g <= qi < (bi + 1) * g) by (nonlinear_arith)
        requires
            qi == g * bi + qi % g,
            0 <= qi % g < g,
    ;
    lemma2_to64();
    lemma2_to64_rest();
    lemma_pow2_adds(12, (-t - 12) as nat);
    lemma_pow2_pos((-t - 12) as nat);
    let r = pow2((-t - 12) as nat) as int;
    assert(g >= 2 * 0x800) by (nonlinear_arith)
        requires
            g == (2 * 0x800) * r,
            r >= 1,
    ;
    assert(bi < 0x10_0000_0000_0000) by (nonlinear_arith)
        requires
            bi * g <= qi,
            qi < 0x1_0000_0000_0000_0000,
            g >= 2 * 0x800,
            bi >= 0,
    ;
    if b >= 1 {
        lemma_small((b - 1) as nat);
        assert((bi - 1) * g <= qi - 4) by (nonlinear_arith)
            requires
                bi * g <= qi,
                g >= 4,
        ;
        bignat::lemma_under((q - 4) as nat, t, x, d, (b - 1) as nat);
    }
    lemma_small(b + 2);
    assert(qi + 4 <= (bi + 2) * g) by (nonlinear_arith)
        requires
            qi < (bi + 1) * g,
            g >= 4,
    ;
    bignat::lemma_over(q + 4, t, x, d, b + 2);
}

proof fn lemma_near_zero(q: nat, t: int, x: nat, d: nat)
    requires
        q < 0x1_0000_0000_0000_0000,
        t <= -64,
        bignat::over(q + 4, t, x, d),
    ensures
        is_near(x, d, 0),
{
    lemma2_to64();
    lemma_pow2_adds(64, (-t - 64) as nat);
    lemma_pow2_pos((-t - 64) as nat);
    let g = pow2((-t) as nat) as int;
    let r = pow2((-t - 64) as nat) as int;
    assert(g >= 0x1_0000_0000_0000_0000) by (nonlinear_arith)
        requires
            g == 0x1_0000_0000_0000_0000 * r,
            r >= 1,
    ;
    lemma_small(2);
    bignat::lemma_over(q + 4, t, x, d, 2);
}

proof fn lemma_near_last(q: nat, t: int, x: nat, d: nat)
    requires
        0x8000_0000_0000_0000 <= q,
        t + 12 >= 2047,
        bignat::under((q - 4) as nat, t, x, d),
    ensures
        is_near(x, d, (INF_BITS - 1) as nat),
{
    let b = (INF_BITS - 2) as nat;
    let p = pow2(2045) as int;
    let g = pow2(t as nat) as int;
    let r = pow2((t - 2035) as nat) as int;
    lemma2_to64();
    lemma2_to64_rest();
    lemma_pow2_adds(2035, 10);
    lemma_pow2_adds(2035, (t - 2035) as nat);
    lemma_pow2_pos(2035);
    lemma_pow2_pos((t - 2035) as nat);
    let o = pow2(2035) as int;
    assert(p == o * 0x400);
    assert(b / 0x10_0000_0000_0000 == 2046);
    assert(b % 0x10_0000_0000_0000 == 0x10_0000_0000_0000 - 2);
    assert(double::scaled(b) == (2 * 0x10_0000_0000_0000 - 2) * p);
    let lo = double::scaled(b) as int;
    assert(lo <= (q - 4) * g) by (nonlinear_arith)
        requires
            lo == (2 * 0x10_0000_0000_0000 - 2) * (o * 0x400),
            g == o * r,
            r >= 1,
            o > 0,
            q >= 0x8000_0000_0000_0000,
    ;
    bignat::lemma_under((q - 4) as nat, t, x, d, double::scaled(b));
}

/// A magnitude near `x / den` units, halved: where to look first.
fn guess(x: &BigNat, den: &BigNat) -> (res: u64)
    ensures
        res < INF_BITS,
        den@ > 0 ==> is_near(x@, den@, res as nat),
{
    match bignat::quotient(x, den) {
        None => {
            proof {
                let k = double::scaled(2);
                let d = den@;
                lemma_small(2);
                assert(d > 0 ==> 0 < k * (2 * d)) by (nonlinear_arith)
                    requires
                        k == 2,
                ;
                assert(d > 0 ==> is_near(x@, d, 0));
            }
            0
        },
        Some((q, t)) => {
            let e: i128 = t + 12;
            if e >= 2047 {
                proof {
                    lemma_near_last(q as nat, t as int, x@, den@);
                }
                INF_BITS - 1
            } else if e >= 1 {
                proof {
                    lemma_near_normal(q as nat, t as int, x@, den@);
                }
                let b: u64 = e as u64 * 0x10_0000_0000_0000 + q / 0x800 % 0x10_0000_0000_0000;
                assert(is_near(x@, den@, b as nat));
                b
            } else if t > -64 {
                proof {
                    lemma_near_small(q as nat, t as int, x@, den@);
                }
                let b: u64 = q / pow2_u64((-t) as u32);
                assert(is_near(x@, den@, b as nat));
                b
            } else {
                proof {
                    lemma_near_zero(q as nat, t as int, x@, den@);
                }
                0
            }
        },
    }
}

/// The magnitude nearest to `num / den`.
pub fn nearest_magnitude(num: &BigNat, den: &BigNat) -> (res: u64)
    requires
        den@ > 0,
    ensures
        res == nearest(num@, den@),
        rounds_to(num@, den@, res as nat),
{
    let x = num.mul_pow2(1075);
    let n: Ghost<nat> = Ghost(num@);
    let mut lo: u64 = 0;
    let mut hi: u64 = INF_BITS;
    let near: u64 = guess(&x, den);
    if near >= 2 && passes(&x, den, near - 2, n) {
        lo = near - 1;
    }
    if near + 2 < INF_BITS && !passes(&x, den, near + 2, n) {
        hi = near + 2;
    }
    while lo < hi
        invariant
            lo <= hi <= INF_BITS,
            n@ == num@,
            x@ == n@ * pow2(1075),
            lo > 0 ==> rounds_above(n@, den@, (lo - 1) as nat),
            hi < INF_BITS ==> !rounds_above(n@, den@, hi as nat),
        decreases hi - lo,
    {
        let mid: u64 = lo + (hi - lo) / 2;
        if passes(&x, den, mid, n) {
            lo = mid + 1;
        } else {
            hi = mid;
        }
    }
    proof {
        assert(rounds_to(num@, den@, lo as nat));
        let c = nearest(num@, den@);
        assert(rounds_to(num@, den@, c));
        rounding_is_unique(num@, den@, lo as nat, c);
    }
    lo
}

/// Numerator of `d * 10^x`.
pub open spec fn decimal_num(d: nat, x: int) -> nat {
    if x >= 0 {
        d * bignat::pow10(x as nat)
    } else {
        d
    }
}

/// Denominator of `d * 10^x`.
pub open spec fn decimal_den(x: int) -> nat {
    if x >= 0 {
        1
    } else {
        bignat::pow10((-x) as nat)
    }
}

/// The magnitude nearest to `d * 10^x`.
pub open spec fn decimal_magnitude(d: nat, x: int) -> nat {
    nearest(decimal_num(d, x), decimal_den(x))
}

pub proof fn lemma_pow10(n: nat)
    ensures
        bignat::pow10(n) >= pow2(3 * n),
        bignat::pow10(n) > 0,
    decreases n,
{
    lemma2_to64();
    if n > 0 {
        lemma_pow10((n - 1) as nat);
        lemma_pow2_adds(3, (3 * n - 3) as nat);
        lemma_pow2_pos((3 * n - 3) as nat);
        let a = bignat::pow10((n - 1) as nat) as int;
        let b = pow2((3 * n - 3) as nat) as int;
        assert(10 * a >= 8 * b) by (nonlinear_arith)
            requires
                a >= b,
                b >= 0,
        ;
    }
}

pub proof fn lemma_pow10_adds(a: nat, b: nat)
    ensures
        bignat::pow10(a + b) == bignat::pow10(a) * bignat::pow10(b),
    decreases a,
{
    if a == 0 {
        assert(1 * bignat::pow10(b) == bignat::pow10(b)) by (nonlinear_arith);
    } else {
        lemma_pow10_adds((a - 1) as nat, b);
        let p = bignat::pow10((a - 1) as nat) as int;
        let q = bignat::pow10(b) as int;
        assert((a + b - 1) as nat == (a - 1) as nat + b);
        assert(10 * (p * q) == (10 * p) * q) by (nonlinear_arith);
    }
}

pub proof fn lemma_pow2_mono(a: nat, b: nat)
    requires
        a <= b,
    ensures
        pow2(a) <= pow2(b),
{
    lemma_pow2_adds(a, (b - a) as nat);
    lemma_pow2_pos((b - a) as nat);
    let x = pow2(a) as int;
    let y = pow2((b - a) as nat) as int;
    lemma_pow2_pos(a);
    assert(x <= x * y) by (nonlinear_arith)
        requires
            y >= 1,
            x >= 0,
    ;
}

proof fn lemma_huge(d: nat, x: int)
    requires
        d > 0,
        x >= 400,
    ensures
        rounds_to(decimal_num(d, x), decimal_den(x), INF_BITS as nat),
{
    reveal(rounds_above);
    let num = decimal_num(d, x);
    let p = bignat::pow10(x as nat) as int;
    lemma_pow10(x as nat);
    lemma_pow2_mono(1200, 3 * x as nat);
    assert(num >= pow2(1200)) by (nonlinear_arith)
        requires
            num == d * p,
            d >= 1,
            p >= pow2(1200),
    ;
    lemma_pow2_adds(1200, 1075);
    let t = pow2(1075) as int;
    let u = pow2(1200) as int;
    lemma_pow2_pos(1075);
    assert(num * t >= u * t) by (nonlinear_arith)
        requires
            num >= u,
            t > 0,
    ;
    let b = (INF_BITS - 1) as nat;
    lemma_midpoint(b);
    lemma2_to64();
    assert(unit_exponent(b) == 2045);
    assert(significand(b) < 0x20_0000_0000_0000);
    let q = pow2(2045) as int;
    lemma_pow2_pos(2045);
    lemma_pow2_adds(54, 2045);
    lemma_pow2_adds(32, 22);
    assert(pow2(54) == 0x40_0000_0000_0000) by {
        assert(0x1_0000_0000 * 0x40_0000 == 0x40_0000_0000_0000) by (nonlinear_arith);
    }
    assert((2 * significand(b) + 1) * q <= 0x40_0000_0000_0000 * q) by (nonlinear_arith)
        requires
            q > 0,
            2 * significand(b) + 1 <= 0x40_0000_0000_0000,
    ;
    lemma_pow2_mono(2100, 2275);
    lemma_pow2_unfold(2100);
    lemma_pow2_pos(2099);
    assert(midpoint(b) * 1 == midpoint(b)) by (nonlinear_arith);
}

proof fn lemma_tiny(d: nat, n: nat, x: int)
    requires
        d < bignat::pow10(n),
        x <= -(n + 400),
    ensures
        rounds_to(decimal_num(d, x), decimal_den(x), 0),
{
    reveal(rounds_above);
    let den = decimal_den(x) as int;
    let rest = (-x - n) as nat;
    lemma_pow10_adds(n, rest);
    lemma_pow10(rest);
    lemma_pow10(n);
    lemma_pow2_mono(1200, 3 * rest);
    lemma_pow2_mono(1075, 1200);
    let a = bignat::pow10(n) as int;
    let r = bignat::pow10(rest) as int;
    let t = pow2(1075) as int;
    lemma_pow2_pos(1075);
    assert(d * t < a * r) by (nonlinear_arith)
        requires
            0 <= d < a,
            0 < t <= r,
    ;
    lemma_midpoint(0);
    lemma2_to64();
    assert(midpoint(0) == 1);
    assert(midpoint(0) * den == den) by (nonlinear_arith)
        requires
            midpoint(0) == 1,
    ;
}

proof fn lemma_digits_bound(s: Seq<char>)
    requires
        forall|i: int| 0 <= i < s.len() ==> text::is_digit(s[i]),
    ensures
        text::digits_value(s) < bignat::pow10(s.len()),
    decreases s.len(),
{
    if s.len() > 0 {
        lemma_digits_bound(s.drop_last());
    }
}

/// The number spelled by the digits `v[from..to]`, continuing `start`.
fn accumulate(start: BigNat, v: &Vec<char>, from: usize, to: usize, done: Ghost<Seq<char>>) -> (res:
    BigNat)
    requires
        from <= to <= v.len(),
        forall|i: int| from <= i < to ==> text::is_digit(v@[i]),
        start@ == text::digits_value(done@),
    ensures
        res@ == text::digits_value(done@ + v@.subrange(from as int, to as int)),
{
    let mut acc = start;
    let mut i: usize = from;
    assert(done@ + v@.subrange(from as int, from as int) =~= done@);
    while i < to
        invariant
            from <= i <= to <= v.len(),
            forall|j: int| from <= j < to ==> text::is_digit(v@[j]),
            acc@ == text::digits_value(done@ + v@.subrange(from as int, i as int)),
        decreases to - i,
    {
        let c: char = v[i];
        let d: u64 = (c as u32 - 48) as u64;
        acc = acc.mul_add(10, d);
        i = i + 1;
        proof {
            let s = done@ + v@.subrange(from as int, i as int);
            assert(s.drop_last() =~= done@ + v@.subrange(from as int, i - 1));
            assert(s.last() == c);
        }
    }
    acc
}

/// A decimal numeral: the digits before and after the point, and the power
/// of ten that follows.
pub struct NumeralShape {
    /// End of the digits before the point.
    pub int_end: int,
    /// End of the digits after the point.
    pub frac_end: int,
    /// First digit of the exponent, or the end of the text where there is none.
    pub exp_start: int,
    pub exp_negative: bool,
}

/// Where the parts of the numeral `s` (without its sign) lie; `None` when `s`
/// is no numeral.
pub open spec fn numeral_shape(s: Seq<char>) -> Option<NumeralShape> {
    let int_end = text::digits_end(s, 0);
    let dot = int_end < s.len() && s[int_end] == '.';
    let frac_end = if dot {
        text::digits_end(s, int_end + 1)
    } else {
        int_end
    };
    let n_digits = if dot {
        frac_end - 1
    } else {
        int_end
    };
    if n_digits <= 0 {
        None
    } else if frac_end == s.len() {
        Some(NumeralShape { int_end, frac_end, exp_start: frac_end, exp_negative: false })
    } else if s[frac_end] == 'e' || s[frac_end] == 'E' {
        let signed = frac_end + 1 < s.len() && (s[frac_end + 1] == '+' || s[frac_end + 1] == '-');
        let exp_start = if signed {
            frac_end + 2
        } else {
            frac_end + 1
        };
        if exp_start < s.len() && text::digits_end(s, exp_start) == s.len() {
            Some(
                NumeralShape {
                    int_end,
                    frac_end,
                    exp_start,
                    exp_negative: signed && s[frac_end + 1] == '-',
                },
            )
        } else {
            None
        }
    } else {
        None
    }
}

/// All significant digits of the numeral, point left out.
pub open spec fn numeral_digits(s: Seq<char>, n: NumeralShape) -> Seq<char> {
    if n.frac_end > n.int_end {
        s.subrange(0, n.int_end) + s.subrange(n.int_end + 1, n.frac_end)
    } else {
        s.subrange(0, n.int_end)
    }
}

/// The power of ten that scales the digits.
pub open spec fn numeral_exponent(s: Seq<char>, n: NumeralShape) -> int {
    let e = text::digits_value(s.subrange(n.exp_start, s.len() as int)) as int;
    let frac = if n.frac_end > n.int_end {
        n.frac_end - n.int_end - 1
    } else {
        0
    };
    (if n.exp_negative {
        -e
    } else {
        e
    }) - frac
}

/// Magnitude that the unsigned text `s` stands for: a numeral, `inf`,
/// `infinity` or `nan` in any letter case.
pub open spec fn unsigned_magnitude(s: Seq<char>) -> Option<nat> {
    if text::lower(s) == "inf"@ || text::lower(s) == "infinity"@ {
        Some(INF_BITS as nat)
    } else if text::lower(s) == "nan"@ {
        Some(NAN_BITS as nat)
    } else {
        match numeral_shape(s) {
            None => None,
            Some(n) => Some(
                decimal_magnitude(text::digits_value(numeral_digits(s, n)), numeral_exponent(s, n)),
            ),
        }
    }
}

/// The text after an optional sign.
pub open spec fn after_sign(s: Seq<char>) -> Seq<char> {
    if s.len() > 0 && (s[0] == '-' || s[0] == '+') {
        s.skip(1)
    } else {
        s
    }
}

/// The double that the text `s` stands for, `None` when it is no number.
pub open spec fn real_of_text(s: Seq<char>) -> Option<Real> {
    match unsigned_magnitude(after_sign(s)) {
        None => None,
        Some(m) => Some(
            Real {
                bits: (if s.len() > 0 && s[0] == '-' {
                    m + SIGN_BIT
                } else {
                    m as int
                }) as u64,
            },
        ),
    }
}

/// Larger than any exponent that can bring a numeral back into range.
const EXPONENT_CAP: u128 = 0x1_0000_0000_0000_0000_0000;

/// The exponent spelled by `v[from..]`, cut off at `EXPONENT_CAP`.
fn capped_exponent(v: &Vec<char>, from: usize) -> (res: u128)
    requires
        from <= v.len(),
        forall|i: int| from <= i < v.len() ==> text::is_digit(v@[i]),
    ensures
        res <= EXPONENT_CAP,
        res < EXPONENT_CAP ==> res == text::digits_value(v@.subrange(from as int, v@.len() as int)),
        res == EXPONENT_CAP ==> text::digits_value(v@.subrange(from as int, v@.len() as int))
            >= EXPONENT_CAP,
{
    let mut e: u128 = 0;
    let mut i: usize = from;
    while i < v.len()
        invariant
            from <= i <= v.len(),
            forall|j: int| from <= j < v.len() ==> text::is_digit(v@[j]),
            e <= EXPONENT_CAP,
            e < EXPONENT_CAP ==> e == text::digits_value(v@.subrange(from as int, i as int)),
            e == EXPONENT_CAP ==> text::digits_value(v@.subrange(from as int, i as int))
                >= EXPONENT_CAP,
        decreases v.len() - i,
    {
        let d: u128 = (v[i] as u32 - 48) as u128;
        let t: u128 = e * 10 + d;
        i = i + 1;
        proof {
            let s = v@.subrange(from as int, i as int);
            assert(s.drop_last() =~= v@.subrange(from as int, i - 1));
        }
        e = if t < EXPONENT_CAP {
            t
        } else {
            EXPONENT_CAP
        };
    }
    e
}

pub fn decimal_to_magnitude(d: BigNat, n: usize, e: i128) -> (res: u64)
    requires
        d@ < bignat::pow10(n as nat),
        -0x2_0000_0000_0000_0000_0000 <= e <= 0x2_0000_0000_0000_0000_0000,
    ensures
        res == decimal_magnitude(d@, e as int),
        res <= INF_BITS,
{
    proof {
        if e < 0 {
            lemma_pow10((-e) as nat);
        }
    }
    match d.order(&BigNat::zero()) {
        Order::Greater => {
            if e >= 400 {
                proof {
                    lemma_huge(d@, e as int);
                    rounding_is_unique(
                        decimal_num(d@, e as int),
                        decimal_den(e as int),
                        INF_BITS as nat,
                        decimal_magnitude(d@, e as int),
                    );
                }
                INF_BITS
            } else if e <= -(n as i128 + 400) {
                proof {
                    lemma_tiny(d@, n as nat, e as int);
                    rounding_is_unique(
                        decimal_num(d@, e as int),
                        decimal_den(e as int),
                        0,
                        decimal_magnitude(d@, e as int),
                    );
                }
                0
            } else if e >= 0 {
                let num = d.mul_pow10(e as usize);
                nearest_magnitude(&num, &BigNat::from_u64(1))
            } else {
                let m: u128 = (-e) as u128;
                if m > usize::MAX as u128 {
                    // The text would have to be longer than memory.
                    let den = BigNat::from_u64(1).mul_pow10(usize::MAX);
                    let den2 = den.mul_pow10((m - usize::MAX as u128) as usize);
                    proof {
                        lemma_pow10_adds(usize::MAX as nat, (m - usize::MAX) as nat);
                        assert(1 * bignat::pow10(usize::MAX as nat) == bignat::pow10(
                            usize::MAX as nat,
                        )) by (nonlinear_arith);
                    }
                    nearest_magnitude(&d, &den2)
                } else {
                    let den = BigNat::from_u64(1).mul_pow10(m as usize);
                    assert(1 * bignat::pow10(m as nat) == bignat::pow10(m as nat))
                        by (nonlinear_arith);
                    nearest_magnitude(&d, &den)
                }
            }
        },
        _ => {
            proof {
                assert(decimal_num(0, e as int) == 0) by (nonlinear_arith)
                    requires
                        e >= 0 ==> decimal_num(0, e as int) == 0 * bignat::pow10(e as nat),
                        e < 0 ==> decimal_num(0, e as int) == 0,
                ;
                zero_rounds_to_zero(decimal_den(e as int));
            }
            0
        },
    }
}

/// Positions of the parts of a numeral.
struct Parts {
    int_end: usize,
    frac_end: usize,
    exp_start: usize,
    exp_negative: bool,
}

impl View for Parts {
    type V = NumeralShape;

    closed spec fn view(&self) -> NumeralShape {
        NumeralShape {
            int_end: self.int_end as int,
            frac_end: self.frac_end as int,
            exp_start: self.exp_start as int,
            exp_negative: self.exp_negative,
        }
    }
}

fn numeral_parts(v: &Vec<char>) -> (res: Option<Parts>)
    ensures
        match res {
            None => numeral_shape(v@) is None,
            Some(p) => {
                &&& numeral_shape(v@) == Some(p@)
                &&& p.int_end <= p.frac_end <= p.exp_start <= v.len()
                &&& p.frac_end > p.int_end ==> v@[p.int_end as int] == '.' && p.frac_end >= 2
                &&& p.frac_end > 0
                &&& forall|i: int| 0 <= i < p.int_end ==> text::is_digit(v@[i])
                &&& forall|i: int| p.int_end < i < p.frac_end ==> text::is_digit(v@[i])
                &&& forall|i: int| p.exp_start <= i < v@.len() ==> text::is_digit(v@[i])
            },
        },
{
    let int_end: usize = text::find_digits_end(v, 0);
    let dot = int_end < v.len() && v[int_end] == '.';
    let frac_end: usize = if dot {
        text::find_digits_end(v, int_end + 1)
    } else {
        int_end
    };
    let n_digits: usize = if dot {
        frac_end - 1
    } else {
        int_end
    };
    if n_digits == 0 {
        return None;
    }
    let mut exp_start: usize = frac_end;
    let mut exp_negative = false;
    if frac_end < v.len() {
        if v[frac_end] != 'e' && v[frac_end] != 'E' {
            return None;
        }
        let signed = frac_end + 1 < v.len() && (v[frac_end + 1] == '+' || v[frac_end + 1] == '-');
        exp_start = if signed {
            frac_end + 2
        } else {
            frac_end + 1
        };
        if exp_start >= v.len() || text::find_digits_end(v, exp_start) != v.len() {
            return None;
        }
        exp_negative = signed && v[frac_end + 1] == '-';
    }
    assert forall|i: int| exp_start <= i < v@.len() implies text::is_digit(v@[i]) by {
        text::lemma_digits_end(v@, exp_start as int);
    }
    Some(Parts { int_end, frac_end, exp_start, exp_negative })
}

fn unsigned_of(v: &Vec<char>) -> (res: Option<u64>)
    ensures
        match res {
            None => unsigned_magnitude(v@) is None,
            Some(m) => unsigned_magnitude(v@) == Some(m as nat) && m <= NAN_BITS,
        },
{
    assert(v@.skip(0) =~= v@);
    if text::lower_eq(v, 0, "inf") || text::lower_eq(v, 0, "infinity") {
        return Some(INF_BITS);
    }
    if text::lower_eq(v, 0, "nan") {
        return Some(NAN_BITS);
    }
    let parts: Parts = match numeral_parts(v) {
        None => {
            return None;
        },
        Some(p) => p,
    };
    let ghost shape = parts@;
    let int_end: usize = parts.int_end;
    let frac_end: usize = parts.frac_end;
    let exp_start: usize = parts.exp_start;
    let exp_negative = parts.exp_negative;
    let dot = frac_end > int_end;
    let n_digits: usize = if dot {
        frac_end - 1
    } else {
        int_end
    };
    let none: Ghost<Seq<char>> = Ghost(Seq::empty());
    let whole = accumulate(BigNat::zero(), v, 0, int_end, none);
    assert(none@ + v@.subrange(0, int_end as int) =~= v@.subrange(0, int_end as int));
    let digits = if dot {
        accumulate(whole, v, int_end + 1, frac_end, Ghost(v@.subrange(0, int_end as int)))
    } else {
        whole
    };
    let frac: usize = if dot {
        frac_end - int_end - 1
    } else {
        0
    };
    let ghost ds = numeral_digits(v@, shape);
    assert(digits@ == text::digits_value(ds));
    proof {
        assert(ds.len() == n_digits);
        assert forall|i: int| 0 <= i < ds.len() implies text::is_digit(ds[i]) by {
            if i < int_end {
                assert(ds[i] == v@[i]);
            } else {
                assert(ds[i] == v@[i + 1]);
            }
        }
        lemma_digits_bound(ds);
    }
    let e: u128 = capped_exponent(v, exp_start);
    let ghost exact = text::digits_value(v@.subrange(exp_start as int, v@.len() as int));
    if e == EXPONENT_CAP {
        let capped: i128 = if exp_negative {
            -(e as i128) - frac as i128
        } else {
            e as i128 - frac as i128
        };
        let m: u64 = decimal_to_magnitude(digits, n_digits, capped);
        proof {
            lemma_saturated(digits@, n_digits as nat, capped as int, numeral_exponent(v@, shape));
        }
        Some(m)
    } else {
        let x: i128 = if exp_negative {
            -(e as i128) - frac as i128
        } else {
            e as i128 - frac as i128
        };
        let m: u64 = decimal_to_magnitude(digits, n_digits, x);
        Some(m)
    }
}

/// Past the representable range the exact exponent makes no difference.
proof fn lemma_saturated(d: nat, n: nat, x: int, y: int)
    requires
        d < bignat::pow10(n),
        x >= 400 && y >= 400 || x <= -(n + 400) && y <= -(n + 400),
    ensures
        decimal_magnitude(d, x) == decimal_magnitude(d, y),
{
    if x < 0 {
        lemma_tiny(d, n, x);
        lemma_tiny(d, n, y);
        lemma_pow10((-x) as nat);
        lemma_pow10((-y) as nat);
        rounding_is_unique(decimal_num(d, x), decimal_den(x), 0, decimal_magnitude(d, x));
        rounding_is_unique(decimal_num(d, y), decimal_den(y), 0, decimal_magnitude(d, y));
    } else if d > 0 {
        lemma_huge(d, x);
        lemma_huge(d, y);
        rounding_is_unique(
            decimal_num(d, x),
            decimal_den(x),
            INF_BITS as nat,
            decimal_magnitude(d, x),
        );
        rounding_is_unique(
            decimal_num(d, y),
            decimal_den(y),
            INF_BITS as nat,
            decimal_magnitude(d, y),
        );
    } else {
        assert(0 * bignat::pow10(x as nat) == 0) by (nonlinear_arith);
        assert(0 * bignat::pow10(y as nat) == 0) by (nonlinear_arith);
    }
}

/// `s` without leading zeros.
pub open spec fn strip_leading(s: Seq<char>) -> Seq<char>
    decreases s.len(),
{
    if s.len() > 0 && s[0] == '0' {
        strip_leading(s.skip(1))
    } else {
        s
    }
}

/// `s` without trailing zeros.
pub open spec fn strip_trailing(s: Seq<char>) -> Seq<char>
    decreases s.len(),
{
    if s.len() > 0 && s.last() == '0' {
        strip_trailing(s.drop_last())
    } else {
        s
    }
}

/// The digits `ds`, scaled by `10^x`, in positional notation.
pub open spec fn positional(ds: Seq<char>, x: int) -> Seq<char> {
    let before = ds.len() + x;
    if x >= 0 {
        ds + text::zeros(x as nat)
    } else if before > 0 {
        ds.take(before) + "."@ + ds.skip(before)
    } else {
        "0."@ + text::zeros((-before) as nat) + ds
    }
}

fn push_slice(s: &mut String, v: &Vec<char>, from: usize, to: usize)
    requires
        from <= to <= v.len(),
    ensures
        final(s)@ == old(s)@ + v@.subrange(from as int, to as int),
{
    s.append(text::slice_string(v, from, to).as_str());
}

pub fn push_positional(s: &mut String, ds: &Vec<char>, x: i128)
    requires
        -0x2_0000_0000_0000_0000 < x < 0x2_0000_0000_0000_0000,
    ensures
        final(s)@ == old(s)@ + positional(ds@, x as int),
{
    let before: i128 = ds.len() as i128 + x;
    if x >= 0 {
        push_slice(s, ds, 0, ds.len());
        text::push_zeros(s, x as u128);
        assert(ds@.subrange(0, ds@.len() as int) =~= ds@);
        assert(s@ =~= old(s)@ + positional(ds@, x as int));
    } else if before > 0 {
        push_slice(s, ds, 0, before as usize);
        s.append(".");
        push_slice(s, ds, before as usize, ds.len());
        assert(ds@.subrange(0, before as int) =~= ds@.take(before as int));
        assert(ds@.subrange(before as int, ds@.len() as int) =~= ds@.skip(before as int));
        assert(s@ =~= old(s)@ + positional(ds@, x as int));
    } else {
        s.append("0.");
        text::push_zeros(s, (-before) as u128);
        push_slice(s, ds, 0, ds.len());
        assert(ds@.subrange(0, ds@.len() as int) =~= ds@);
        assert(s@ =~= old(s)@ + positional(ds@, x as int));
    }
}

proof fn lemma_strip_leading(s: Seq<char>, k: nat)
    requires
        k <= s.len(),
        forall|i: int| 0 <= i < k ==> s[i] == '0',
    ensures
        strip_leading(s) == strip_leading(s.skip(k as int)),
    decreases k,
{
    if k > 0 {
        lemma_strip_leading(s.skip(1), (k - 1) as nat);
        assert(s.skip(1).skip(k - 1) =~= s.skip(k as int));
    } else {
        assert(s.skip(0) =~= s);
    }
}

proof fn lemma_strip_trailing(s: Seq<char>, k: nat)
    requires
        k <= s.len(),
        forall|i: int| s.len() - k <= i < s.len() ==> s[i] == '0',
    ensures
        strip_trailing(s) == strip_trailing(s.take(s.len() - k)),
    decreases k,
{
    if k > 0 {
        lemma_strip_trailing(s.drop_last(), (k - 1) as nat);
        assert(s.drop_last().take(s.len() - k) =~= s.take(s.len() - k));
    } else {
        assert(s.take(s.len() as int) =~= s);
    }
}

/// The significant digits of `ds`, and how many zeros were cut off behind.
pub fn significant_digits(ds: &Vec<char>) -> (res: (Vec<char>, usize))
    ensures
        res.0@ == strip_trailing(strip_leading(ds@)),
        res.1 == strip_leading(ds@).len() - res.0@.len(),
        res.0@.len() + res.1 <= ds@.len(),
{
    let mut a: usize = 0;
    while a < ds.len() && ds[a] == '0'
        invariant
            a <= ds.len(),
            forall|i: int| 0 <= i < a ==> ds@[i] == '0',
        decreases ds.len() - a,
    {
        a = a + 1;
    }
    let ghost lead = ds@.skip(a as int);
    proof {
        lemma_strip_leading(ds@, a as nat);
        assert(strip_leading(ds@) == lead);
    }
    let mut b: usize = ds.len();
    while b > a && ds[b - 1] == '0'
        invariant
            a <= b <= ds.len(),
            forall|i: int| b <= i < ds.len() ==> ds@[i] == '0',
        decreases b,
    {
        b = b - 1;
    }
    proof {
        lemma_strip_trailing(lead, (ds.len() - b) as nat);
        assert(lead.take(b - a) =~= ds@.subrange(a as int, b as int));
    }
    let mut out: Vec<char> = Vec::new();
    let mut i: usize = a;
    while i < b
        invariant
            a <= i <= b <= ds.len(),
            out@ == ds@.subrange(a as int, i as int),
        decreases b - i,
    {
        out.push(ds[i]);
        i = i + 1;
        assert(ds@.subrange(a as int, i as int) =~= ds@.subrange(a as int, i - 1).push(ds@[i - 1]));
    }
    (out, ds.len() - b)
}

pub proof fn lemma_pow10_positive(n: nat)
    ensures
        bignat::pow10(n) > 0,
{
    lemma_pow10(n);
}

/// No finite magnitude reaches 2^2099 units.
pub proof fn lemma_magnitude_bound(m: nat)
    requires
        m < INF_BITS,
    ensures
        double::scaled(m) < pow2(2099),
{
    lemma2_to64();
    let e = m / 0x10_0000_0000_0000;
    let f = m % 0x10_0000_0000_0000;
    lemma_pow2_adds(53, 2046);
    lemma_pow2_adds(32, 21);
    assert(0x1_0000_0000 * 0x20_0000 == 0x20_0000_0000_0000) by (nonlinear_arith);
    lemma_pow2_pos(2046);
    let q = pow2(2046) as int;
    if e > 0 {
        lemma_pow2_mono((e - 1) as nat, 2046);
        let p = pow2((e - 1) as nat) as int;
        lemma_pow2_pos((e - 1) as nat);
        assert((f + 0x10_0000_0000_0000) * p < 0x20_0000_0000_0000 * q) by (nonlinear_arith)
            requires
                0 <= f < 0x10_0000_0000_0000,
                0 < p <= q,
        ;
    } else {
        assert(f < 0x20_0000_0000_0000 * q) by (nonlinear_arith)
            requires
                f < 0x10_0000_0000_0000,
                q >= 1,
        ;
    }
}

/// A quotient is pinned down by the two multiples around the dividend.
pub proof fn lemma_div_exact(x: int, d: int, q: int)
    requires
        d > 0,
        q * d <= x < (q + 1) * d,
    ensures
        x / d == q,
{
    let r = x - q * d;
    assert((q + 1) * d == q * d + d) by (nonlinear_arith);
    vstd::arithmetic::div_mod::lemma_fundamental_div_mod_converse(x, d, q, r);
}

/// `m * 1000`, for a finite magnitude `m`, rounded to a double.
pub open spec fn thousandfold(m: nat) -> nat {
    nearest(double::scaled(m) * 1000, pow2(1074))
}

/// The whole number nearest to magnitude `m`, halves rounded up, cut off at
/// the largest 64-bit number.
pub open spec fn whole_number(m: nat) -> nat {
    if m >= INF_BITS {
        u64::MAX as nat
    } else {
        let w = (2 * double::scaled(m) + pow2(1074)) as int / pow2(1075) as int;
        if w > u64::MAX {
            u64::MAX as nat
        } else {
            w as nat
        }
    }
}

/// `r * 1000` as a whole number: rounded to a double, then to the nearest
/// whole number, then cut off to the 64-bit range from below and above.
pub open spec fn milli_units(r: Real) -> nat {
    if r.negative() || r.nan() {
        0
    } else if r.magnitude() == INF_BITS {
        u64::MAX as nat
    } else {
        whole_number(thousandfold(r.magnitude()))
    }
}

/// A finite magnitude as `significand * 2^exponent`, in units of 2^-1074.
pub fn split_magnitude(b: u64) -> (res: (u64, u32))
    requires
        b < INF_BITS,
    ensures
        double::scaled(b as nat) == res.0 * pow2(res.1 as nat),
        res.0 < 0x20_0000_0000_0000,
        res.1 <= 2045,
{
    let e: u64 = b / 0x10_0000_0000_0000;
    let f: u64 = b % 0x10_0000_0000_0000;
    proof {
        lemma2_to64();
    }
    if e == 0 {
        assert(f * pow2(0) == f) by (nonlinear_arith)
            requires
                pow2(0) == 1,
        ;
        (f, 0)
    } else {
        (f + 0x10_0000_0000_0000, (e - 1) as u32)
    }
}

pub fn pow2_u64(k: u32) -> (res: u64)
    requires
        k < 64,
    ensures
        res == pow2(k as nat),
{
    let mut r: u64 = 1;
    let mut i: u32 = 0;
    proof {
        lemma2_to64();
    }
    while i < k
        invariant
            i <= k < 64,
            r == pow2(i as nat),
        decreases k - i,
    {
        proof {
            lemma_pow2_unfold((i + 1) as nat);
            lemma_pow2_mono((i + 1) as nat, 63);
            lemma2_to64();
            lemma_pow2_adds(32, 31);
            assert(0x1_0000_0000 * 0x8000_0000 == 0x8000_0000_0000_0000) by (nonlinear_arith);
        }
        r = r * 2;
        i = i + 1;
    }
    r
}

proof fn lemma_whole_up(m: int, s: nat)
    requires
        m >= 0,
        s >= 1074,
    ensures
        (2 * (m * pow2(s)) + pow2(1074)) / pow2(1075) as int == m * pow2((s - 1074) as nat),
{
    let k = pow2((s - 1074) as nat) as int;
    let u = pow2(1074) as int;
    lemma_pow2_adds((s - 1074) as nat, 1074);
    lemma_pow2_unfold(1075);
    lemma_pow2_pos(1074);
    let q = m * k;
    assert(2 * (m * (k * u)) + u == q * (2 * u) + u) by (nonlinear_arith)
        requires
            q == m * k,
    ;
    assert((q + 1) * (2 * u) == q * (2 * u) + 2 * u) by (nonlinear_arith);
    lemma_div_exact(2 * (m * pow2(s)) + u, 2 * u, q);
}

proof fn lemma_whole_down(m: int, s: nat, h: int, q: int)
    requires
        m >= 0,
        s < 1074,
        h == pow2((1074 - s - 1) as nat),
        q * (2 * h) <= m + h < (q + 1) * (2 * h),
    ensures
        (2 * (m * pow2(s)) + pow2(1074)) / pow2(1075) as int == q,
{
    let t = (1074 - s) as nat;
    let p = pow2(s) as int;
    lemma_pow2_pos(s);
    lemma_pow2_unfold(t);
    lemma_pow2_unfold(1075);
    lemma_pow2_adds(s, t);
    let u = pow2(1074) as int;
    assert(u == p * (2 * h));
    lemma_pow2_pos((t - 1) as nat);
    assert(q * (2 * u) <= 2 * (m * p) + u < (q + 1) * (2 * u)) by (nonlinear_arith)
        requires
            u == p * (2 * h),
            q * (2 * h) <= m + h,
            m + h < (q + 1) * (2 * h),
            p > 0,
    ;
    lemma_pow2_pos(1074);
    lemma_div_exact(2 * (m * p) + u, 2 * u, q);
}

/// Finds the whole number nearest to a magnitude.
pub fn to_whole_number(b: u64) -> (res: u64)
    requires
        b <= INF_BITS,
    ensures
        res == whole_number(b as nat),
{
    if b == INF_BITS {
        return u64::MAX;
    }
    let (m, s): (u64, u32) = split_magnitude(b);
    if s >= 1074 {
        let k: u32 = s - 1074;
        proof {
            lemma_whole_up(m as int, s as nat);
        }
        if m == 0 {
            assert(0 * pow2(k as nat) == 0) by (nonlinear_arith);
            0
        } else if k >= 64 {
            proof {
                lemma_pow2_mono(64, k as nat);
                lemma2_to64();
                lemma_pow2_adds(32, 32);
                assert(0x1_0000_0000 * 0x1_0000_0000 == 0x1_0000_0000_0000_0000)
                    by (nonlinear_arith);
                let p = pow2(k as nat) as int;
                assert(m * p >= p) by (nonlinear_arith)
                    requires
                        m >= 1,
                        p >= 0,
                ;
            }
            u64::MAX
        } else {
            let p: u64 = pow2_u64(k);
            assert(m * p <= u64::MAX * u64::MAX) by (nonlinear_arith)
                requires
                    m <= u64::MAX,
                    p <= u64::MAX,
                    m >= 0,
                    p >= 0,
            ;
            let w: u128 = (m as u128) * (p as u128);
            if w > u64::MAX as u128 {
                u64::MAX
            } else {
                w as u64
            }
        }
    } else {
        let t: u32 = 1074 - s;
        if t > 54 {
            proof {
                let h = pow2((t - 1) as nat) as int;
                lemma_pow2_mono(54, (t - 1) as nat);
                lemma2_to64();
                lemma_pow2_adds(32, 22);
                assert(0x1_0000_0000 * 0x40_0000 == 0x40_0000_0000_0000) by (nonlinear_arith);
                assert(0 * (2 * h) <= m + h < (0 + 1) * (2 * h)) by (nonlinear_arith)
                    requires
                        0 <= m < h,
                ;
                lemma_whole_down(m as int, s as nat, h, 0);
            }
            0
        } else {
            let h: u64 = pow2_u64(t - 1);
            proof {
                lemma_pow2_mono((t - 1) as nat, 53);
                lemma2_to64();
                lemma_pow2_adds(32, 21);
                lemma_pow2_pos((t - 1) as nat);
                assert(0x1_0000_0000 * 0x20_0000 == 0x20_0000_0000_0000) by (nonlinear_arith);
            }
            let q: u64 = (m + h) / (2 * h);
            proof {
                let x = (m + h) as int;
                let d = (2 * h) as int;
                vstd::arithmetic::div_mod::lemma_fundamental_div_mod(x, d);
                let r = x % d;
                assert(q * d <= x < (q + 1) * d) by (nonlinear_arith)
                    requires
                        x == d * (q as int) + r,
                        0 <= r < d,
                ;
                lemma_whole_down(m as int, s as nat, h as int, q as int);
            }
            q
        }
    }
}

/// `r * 1000` as a whole number of at least zero.
pub fn to_milli_units(r: Real) -> (res: u64)
    ensures
        res == milli_units(r),
{
    if r.is_negative() || r.is_nan() {
        return 0;
    }
    let b: u64 = r.to_bits();
    if b == INF_BITS {
        return u64::MAX;
    }
    let (m, s): (u64, u32) = split_magnitude(b);
    let num = BigNat::from_u64(m).mul_pow2(s).mul_add(1000, 0);
    let den = BigNat::from_u64(1).mul_pow2(1074);
    proof {
        lemma_pow2_pos(1074);
        assert(1 * pow2(1074) == pow2(1074)) by (nonlinear_arith);
    }
    to_whole_number(nearest_magnitude(&num, &den))
}

/// The characters of `s` after its optional sign.
fn body_of(s: &str) -> (body: Vec<char>)
    ensures
        body@ == after_sign(s@),
{
    let v = text::chars_of(s);
    let signed = v.len() > 0 && (v[0] == '-' || v[0] == '+');
    let mut body: Vec<char> = Vec::new();
    let mut i: usize = if signed {
        1
    } else {
        0
    };
    let ghost from = i as int;
    while i < v.len()
        invariant
            from <= i <= v.len(),
            body@ == v@.subrange(from, i as int),
            0 <= from,
        decreases v.len() - i,
    {
        body.push(v[i]);
        i = i + 1;
        assert(v@.subrange(from, i as int) =~= v@.subrange(from, i - 1).push(v@[i - 1]));
    }
    assert(body@ =~= after_sign(s@));
    body
}

fn starts_with_minus(s: &str) -> (res: bool)
    ensures
        res == (s@.len() > 0 && s@[0] == '-'),
{
    let v = text::chars_of(s);
    v.len() > 0 && v[0] == '-'
}

/// Parses `s` as a double: the nearest one to the decimal value that it
/// spells, or `None` when it spells none.
pub fn parse_real(s: &str) -> (res: Option<Real>)
    ensures
        res == real_of_text(s@),
{
    let body = body_of(s);
    let negative = starts_with_minus(s);
    match unsigned_of(&body) {
        None => None,
        Some(m) => {
            if negative {
                Some(Real { bits: m + SIGN_BIT })
            } else {
                Some(Real { bits: m })
            }
        },
    }
}

} // verus!
