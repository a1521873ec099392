//! Text forms of doubles: fixed-point, scientific, and the shortest decimal
//! that reads back as the same number.

use crate::bignat;
use crate::bignat::{BigNat, Order};
use crate::decimal;
use crate::double;
use crate::double::{Real, INF_BITS, SIGN_BIT};
use crate::text;
use vstd::arithmetic::power2::{lemma2_to64, lemma_pow2_adds, lemma_pow2_pos, pow2};
use vstd::prelude::*;
use vstd::string::*;

verus! {

/// `n / d` rounded to a whole number, halves to the even neighbour.
pub open spec fn round_half_even(n: nat, d: nat) -> nat {
    let q = n / d;
    let r = n % d;
    if 2 * r > d || (2 * r == d && q % 2 == 1) {
        q + 1
    } else {
        q
    }
}

/// `s` with zeros in front, up to `width` characters.
pub open spec fn pad_zeros(s: Seq<char>, width: nat) -> Seq<char> {
    if s.len() < width {
        text::zeros((width - s.len()) as nat) + s
    } else {
        s
    }
}

/// Sign of `r`; a plus sign only where asked for.
pub open spec fn sign_text(r: Real, plus: bool) -> Seq<char> {
    if r.negative() {
        "-"@
    } else if plus {
        "+"@
    } else {
        ""@
    }
}

/// Text of a number that is infinite or not a number.
pub open spec fn special_text(r: Real, plus: bool) -> Seq<char> {
    if r.nan() {
        "NaN"@
    } else {
        sign_text(r, plus) + "inf"@
    }
}

/// `10^k` times the magnitude, as a whole number.
pub open spec fn fixed_digits(m: nat, k: nat) -> nat {
    round_half_even(double::scaled(m) * bignat::pow10(k), pow2(1074))
}

/// `r` with exactly `k` digits after the point.
pub open spec fn fixed(r: Real, k: nat, plus: bool) -> Seq<char> {
    if r.finite() {
        sign_text(r, plus) + decimal::positional(
            pad_zeros(text::dec(fixed_digits(r.magnitude(), k)), k + 1),
            -(k as int),
        )
    } else {
        special_text(r, plus)
    }
}

/// `10^x <= num / den`.
pub open spec fn reaches_decade(num: nat, den: nat, x: int) -> bool {
    if x >= 0 {
        den * bignat::pow10(x as nat) <= num
    } else {
        den <= num * bignat::pow10((-x) as nat)
    }
}

/// `num / den` lies in `[10^x, 10^(x+1))`.
pub open spec fn in_decade(num: nat, den: nat, x: int) -> bool {
    reaches_decade(num, den, x) && !reaches_decade(num, den, x + 1)
}

/// The power of ten of the leading digit of `num / den`.
pub open spec fn decade(num: nat, den: nat) -> int {
    choose|x: int| in_decade(num, den, x)
}

/// Numerator of `num / den / 10^j`.
pub open spec fn shifted_num(num: nat, j: int) -> nat {
    if j >= 0 {
        num
    } else {
        num * bignat::pow10((-j) as nat)
    }
}

/// Denominator of `num / den / 10^j`.
pub open spec fn shifted_den(den: nat, j: int) -> nat {
    if j >= 0 {
        den * bignat::pow10(j as nat)
    } else {
        den
    }
}

/// The `k + 1` leading digits of `num / den`, rounded; this may take one digit
/// more.
pub open spec fn leading(num: nat, den: nat, k: nat) -> nat {
    let j = decade(num, den) - k;
    round_half_even(shifted_num(num, j), shifted_den(den, j))
}

/// The `k + 1` leading digits of a magnitude that is not zero.
pub open spec fn sci_digits(m: nat, k: nat) -> nat {
    let n = leading(double::scaled(m), pow2(1074), k);
    if n == bignat::pow10(k + 1) {
        bignat::pow10(k)
    } else {
        n
    }
}

/// The power of ten that goes with `sci_digits`.
pub open spec fn sci_exponent(m: nat, k: nat) -> int {
    let n = leading(double::scaled(m), pow2(1074), k);
    let x = decade(double::scaled(m), pow2(1074));
    if n == bignat::pow10(k + 1) {
        x + 1
    } else {
        x
    }
}

/// Digits with a point behind the first one, and a power of ten.
pub open spec fn sci_body(ds: Seq<char>, x: int) -> Seq<char> {
    (if ds.len() > 1 {
        ds.take(1) + "."@ + ds.skip(1)
    } else {
        ds
    }) + "e"@ + text::dec_int(x)
}

/// `r` in scientific notation with `k` digits after the point.
pub open spec fn scientific(r: Real, k: nat) -> Seq<char> {
    if !r.finite() {
        special_text(r, false)
    } else if r.magnitude() == 0 {
        sign_text(r, false) + sci_body(text::zeros(k + 1), 0)
    } else {
        sign_text(r, false) + sci_body(
            text::dec(sci_digits(r.magnitude(), k)),
            sci_exponent(r.magnitude(), k),
        )
    }
}

// ── proofs about decades ───────────────────────────────────────────

proof fn lemma_decade_mono(num: nat, den: nat, x: int, y: int)
    requires
        x <= y,
        reaches_decade(num, den, y),
    ensures
        reaches_decade(num, den, x),
    decreases y - x,
{
    if x < y {
        decimal::lemma_pow10_positive(abs(y - 1));
        decimal::lemma_pow10_positive(abs(y));
        let d = den as int;
        let n = num as int;
        if y > 0 {
            let p = bignat::pow10((y - 1) as nat) as int;
            assert(bignat::pow10(y as nat) == 10 * p);
            assert(d * p <= n) by (nonlinear_arith)
                requires
                    d * (10 * p) <= n,
                    d >= 0,
                    p >= 0,
            ;
            if y == 1 {
                assert(d * 1 == d) by (nonlinear_arith);
            }
        } else {
            let p = bignat::pow10((-y) as nat) as int;
            assert(bignat::pow10((-(y - 1)) as nat) == 10 * p);
            if y == 0 {
                assert(d * 1 == d) by (nonlinear_arith);
                assert(n * (10 * 1) >= n) by (nonlinear_arith)
                    requires
                        n >= 0,
                ;
            } else {
                assert(d <= n * (10 * p)) by (nonlinear_arith)
                    requires
                        d <= n * p,
                        n >= 0,
                        p >= 0,
                ;
            }
        }
        lemma_decade_mono(num, den, x, y - 1);
    }
}

spec fn abs(x: int) -> nat {
    (if x < 0 {
        -x
    } else {
        x
    }) as nat
}

/// A number lies in one decade only.
pub proof fn decade_is_unique(num: nat, den: nat, x: int, y: int)
    requires
        in_decade(num, den, x),
        in_decade(num, den, y),
    ensures
        x == y,
{
    if x < y {
        lemma_decade_mono(num, den, x + 1, y);
    } else if y < x {
        lemma_decade_mono(num, den, y + 1, x);
    }
}

fn decade_of(num: &BigNat, den: &BigNat) -> (res: i64)
    requires
        num@ > 0,
        den@ > 0,
        !reaches_decade(num@, den@, 400),
        reaches_decade(num@, den@, -400),
    ensures
        res == decade(num@, den@),
        in_decade(num@, den@, res as int),
        -400 <= res < 400,
{
    let mut x: i64 = 0;
    proof {
        assert(den@ * 1 == den@) by (nonlinear_arith);
    }
    match num.order(den) {
        Order::Less => {
            let mut n = num.mul_add(10, 0);
            x = -1;
            proof {
                assert(bignat::pow10(1) == 10 * bignat::pow10(0));
                assert(!reaches_decade(num@, den@, 0));
            }
            loop
                invariant
                    -400 <= x < 0,
                    n@ == num@ * bignat::pow10((-x) as nat),
                    !reaches_decade(num@, den@, x + 1),
                    reaches_decade(num@, den@, -400),
                ensures
                    -400 <= x < 0,
                    in_decade(num@, den@, x as int),
                decreases x + 400,
            {
                match n.order(den) {
                    Order::Less => {},
                    _ => {
                        break;
                    },
                }
                proof {
                    if x == -400 {
                        assert(false);
                    }
                    let p = bignat::pow10((-x) as nat) as int;
                    let a = num@ as int;
                    assert(bignat::pow10((-(x - 1)) as nat) == 10 * p);
                    assert((a * p) * 10 == a * (10 * p)) by (nonlinear_arith);
                }
                n = n.mul_add(10, 0);
                x = x - 1;
            }
        },
        _ => {
            let mut d = den.mul_add(10, 0);
            proof {
                assert(bignat::pow10(1) == 10 * bignat::pow10(0));
            }
            loop
                invariant
                    0 <= x < 400,
                    d@ == den@ * bignat::pow10((x + 1) as nat),
                    reaches_decade(num@, den@, x as int),
                    !reaches_decade(num@, den@, 400),
                ensures
                    0 <= x < 400,
                    in_decade(num@, den@, x as int),
                decreases 400 - x,
            {
                match d.order(num) {
                    Order::Greater => {
                        break;
                    },
                    _ => {},
                }
                proof {
                    if x == 399 {
                        assert(false);
                    }
                    let p = bignat::pow10((x + 1) as nat) as int;
                    let a = den@ as int;
                    assert(bignat::pow10((x + 2) as nat) == 10 * p);
                    assert((a * p) * 10 == a * (10 * p)) by (nonlinear_arith);
                }
                d = d.mul_add(10, 0);
                x = x + 1;
            }
        },
    }
    proof {
        assert(in_decade(num@, den@, x as int));
        decade_is_unique(num@, den@, x as int, decade(num@, den@));
    }
    x
}

fn pow2_step(i: u32) -> (res: u64)
    requires
        i < 64,
    ensures
        res == pow2(i as nat),
{
    decimal::pow2_u64(i)
}

/// Whole part of `num / den`.
fn quotient(num: &BigNat, den: &BigNat) -> (res: u64)
    requires
        den@ > 0,
        num@ < den@ * 0x1_0000_0000_0000_0000,
    ensures
        res == num@ / den@,
        res * den@ <= num@ < (res + 1) * den@,
{
    let mut q: u64 = 0;
    let mut i: u32 = 64;
    proof {
        lemma2_to64();
        lemma_pow2_adds(32, 32);
        assert(0x1_0000_0000 * 0x1_0000_0000 == 0x1_0000_0000_0000_0000) by (nonlinear_arith);
        let d = den@ as int;
        assert(0 * d == 0) by (nonlinear_arith);
        assert((0 + pow2(64)) * d == d * 0x1_0000_0000_0000_0000) by (nonlinear_arith)
            requires
                pow2(64) == 0x1_0000_0000_0000_0000,
        ;
    }
    while i > 0
        invariant
            i <= 64,
            q * den@ <= num@ < (q + pow2(i as nat)) * den@,
            q + pow2(i as nat) <= 0x1_0000_0000_0000_0000,
        decreases i,
    {
        i = i - 1;
        let step: u64 = pow2_step(i);
        proof {
            vstd::arithmetic::power2::lemma_pow2_unfold((i + 1) as nat);
            lemma_pow2_pos(i as nat);
        }
        let t: u64 = q + step;
        let y = den.mul_add(t, 0);
        proof {
            let d = den@ as int;
            assert(d * t == t * d) by (nonlinear_arith);
        }
        match y.order(num) {
            Order::Greater => {},
            _ => {
                q = t;
            },
        }
    }
    proof {
        lemma2_to64();
        let d = den@ as int;
        decimal::lemma_div_exact(num@ as int, d, q as int);
    }
    q
}

/// `num / den` rounded to a whole number, halves to the even neighbour.
fn rounded_quotient(num: &BigNat, den: &BigNat) -> (res: u64)
    requires
        den@ > 0,
        num@ < den@ * 0xffff_ffff_ffff_ffff,
    ensures
        res == round_half_even(num@, den@),
{
    proof {
        let d = den@ as int;
        assert(d * 0xffff_ffff_ffff_ffff <= d * 0x1_0000_0000_0000_0000) by (nonlinear_arith)
            requires
                d > 0,
        ;
    }
    let q: u64 = quotient(num, den);
    let whole = den.mul_add(q, 0);
    proof {
        let d = den@ as int;
        let n = num@ as int;
        assert(d * q == q * d) by (nonlinear_arith);
        vstd::arithmetic::div_mod::lemma_fundamental_div_mod(n, d);
        if q == 0xffff_ffff_ffff_ffff {
            assert(false) by (nonlinear_arith)
                requires
                    q * d <= n,
                    n < d * 0xffff_ffff_ffff_ffff,
                    q == 0xffff_ffff_ffff_ffff,
            ;
        }
    }
    let rest = num.minus(&whole);
    let twice = rest.mul_add(2, 0);
    match twice.order(den) {
        Order::Greater => q + 1,
        Order::Equal => if q % 2 == 1 {
            q + 1
        } else {
            q
        },
        Order::Less => q,
    }
}

// ── fixed point ────────────────────────────────────────────────────

/// The decimal numeral of a large number.
fn big_to_string(n: BigNat) -> (res: String)
    ensures
        res@ == text::dec(n@),
    decreases n@,
{
    let (q, r): (BigNat, u32) = n.div_rem(10);
    match q.order(&BigNat::zero()) {
        Order::Greater => {
            let mut s = big_to_string(q);
            s.push((r as u8 + 48) as char);
            s
        },
        _ => {
            let mut s = String::new();
            s.push((r as u8 + 48) as char);
            assert(s@ =~= text::dec(n@));
            s
        },
    }
}

/// `n / 2^1074` rounded to a whole number, halves to the even neighbour.
fn round_units(n: &BigNat) -> (res: BigNat)
    ensures
        res@ == round_half_even(n@, pow2(1074)),
{
    let wide = n.mul_pow2(14);
    let (lo, hi): (BigNat, BigNat) = wide.split(34);
    let half = BigNat::from_u64(1).mul_pow2(1087);
    let odd: u32 = hi.div_rem(2).1;
    proof {
        bignat::lemma_base_pow_is_pow2(34);
        lemma_pow2_adds(1074, 14);
        lemma_pow2_adds(1073, 14);
        lemma2_to64();
        lemma_pow2_pos(1074);
        vstd::arithmetic::power2::lemma_pow2_unfold(1074);
        let d = pow2(1074) as int;
        let c = pow2(14) as int;
        let x = n@ as int;
        let h = hi@ as int;
        let l = lo@ as int;
        let r = x - h * d;
        assert(l == c * r) by (nonlinear_arith)
            requires
                x * c == l + h * (d * c),
                r == x - h * d,
        ;
        assert(0 <= r < d) by (nonlinear_arith)
            requires
                0 <= l,
                l < d * c,
                l == c * r,
                c > 0,
        ;
        vstd::arithmetic::div_mod::lemma_fundamental_div_mod_converse(x, d, h, r);
        assert(1 * pow2(1087) == pow2(1087)) by (nonlinear_arith);
        let e = pow2(1073) as int;
        assert(half@ == e * c);
        assert((l < e * c <==> 2 * r < d) && (l == e * c <==> 2 * r == d)) by (nonlinear_arith)
            requires
                l == c * r,
                d == 2 * e,
                c > 0,
        ;
    }
    match lo.order(&half) {
        Order::Greater => hi.mul_add(1, 1),
        Order::Equal => if odd == 1 {
            hi.mul_add(1, 1)
        } else {
            hi
        },
        Order::Less => hi,
    }
}

/// The characters of `s` with zeros in front, up to `width` of them.
fn padded(s: &str, width: usize) -> (res: Vec<char>)
    ensures
        res@ == pad_zeros(s@, width as nat),
{
    let v = text::chars_of(s);
    let mut out: Vec<char> = Vec::new();
    let n: usize = if v.len() < width {
        width - v.len()
    } else {
        0
    };
    let mut i: usize = 0;
    while i < n
        invariant
            i <= n,
            out@ == text::zeros(i as nat),
        decreases n - i,
    {
        out.push('0');
        i = i + 1;
        assert(out@ =~= text::zeros(i as nat));
    }
    let mut j: usize = 0;
    while j < v.len()
        invariant
            j <= v.len(),
            out@ == text::zeros(n as nat) + v@.take(j as int),
        decreases v.len() - j,
    {
        out.push(v[j]);
        j = j + 1;
        assert(out@ =~= text::zeros(n as nat) + v@.take(j as int));
    }
    assert(out@ =~= pad_zeros(s@, width as nat));
    out
}

fn sign_string(r: Real, plus: bool) -> (res: String)
    ensures
        res@ == sign_text(r, plus),
{
    if r.is_negative() {
        "-".to_owned()
    } else if plus {
        "+".to_owned()
    } else {
        "".to_owned()
    }
}

fn special_string(r: Real, plus: bool) -> (res: String)
    requires
        !r.finite(),
    ensures
        res@ == special_text(r, plus),
{
    if r.is_nan() {
        "NaN".to_owned()
    } else {
        let mut s = sign_string(r, plus);
        s.append("inf");
        s
    }
}

fn units_of(r: Real) -> (res: BigNat)
    requires
        r.finite(),
    ensures
        res@ == double::scaled(r.magnitude()),
{
    let b: u64 = if r.is_negative() {
        r.to_bits() - SIGN_BIT
    } else {
        r.to_bits()
    };
    let (m, s): (u64, u32) = decimal::split_magnitude(b);
    BigNat::from_u64(m).mul_pow2(s)
}

/// `r` with exactly `k` digits after the point, and a plus sign where asked
/// for.
pub fn to_fixed(r: Real, k: usize, plus: bool) -> (res: String)
    requires
        k <= 40,
    ensures
        res@ == fixed(r, k as nat, plus),
{
    if !r.is_finite() {
        return special_string(r, plus);
    }
    let n = units_of(r).mul_pow10(k);
    let q = round_units(&n);
    let ds = padded(big_to_string(q).as_str(), k + 1);
    let mut s = sign_string(r, plus);
    decimal::push_positional(&mut s, &ds, -(k as i128));
    s
}

// ── scientific notation ────────────────────────────────────────────

proof fn lemma_magnitude_decades(m: nat)
    requires
        0 < m < INF_BITS,
    ensures
        double::scaled(m) > 0,
        !reaches_decade(double::scaled(m), pow2(1074), 400),
        reaches_decade(double::scaled(m), pow2(1074), -400),
{
    double::magnitudes_are_ordered(0, m);
    decimal::lemma_magnitude_bound(m);
    decimal::lemma_pow10(400);
    lemma_pow2_adds(1074, 1200);
    lemma_pow2_pos(1074);
    decimal::lemma_pow2_mono(2099, 2274);
    decimal::lemma_pow2_mono(1074, 1200);
    let d = pow2(1074) as int;
    let p = bignat::pow10(400) as int;
    let u = pow2(1200) as int;
    let s = double::scaled(m) as int;
    assert(d * p >= d * u) by (nonlinear_arith)
        requires
            p >= u,
            d > 0,
    ;
    assert(d <= s * p) by (nonlinear_arith)
        requires
            s >= 1,
            p >= u,
            u >= d,
            d > 0,
    ;
}

/// A decade bounds the shifted quotient.
proof fn lemma_leading_bound(num: nat, den: nat, x: int, k: nat)
    requires
        den > 0,
        in_decade(num, den, x),
    ensures
        shifted_den(den, x - k) > 0,
        shifted_num(num, x - k) < shifted_den(den, x - k) * bignat::pow10(k + 1),
        shifted_den(den, x - k) * bignat::pow10(k) <= shifted_num(num, x - k),
{
    let j = x - k;
    let n = num as int;
    let d = den as int;
    decimal::lemma_pow10_positive(k);
    decimal::lemma_pow10_positive(k + 1);
    if j >= 0 {
        let a = bignat::pow10(j as nat) as int;
        decimal::lemma_pow10_positive(j as nat);
        decimal::lemma_pow10_adds(j as nat, k);
        decimal::lemma_pow10_adds(j as nat, k + 1);
        assert(j + k == x);
        let b = bignat::pow10(k) as int;
        let c = bignat::pow10(k + 1) as int;
        assert((d * a) * b == d * (a * b)) by (nonlinear_arith);
        assert((d * a) * c == d * (a * c)) by (nonlinear_arith);
        assert(d * a > 0) by (nonlinear_arith)
            requires
                d > 0,
                a > 0,
        ;
        assert((j as nat) + k == x as nat);
        assert((j as nat) + (k + 1) == (x + 1) as nat);
    } else {
        let a = bignat::pow10((-j) as nat) as int;
        decimal::lemma_pow10_positive((-j) as nat);
        let b = bignat::pow10(k) as int;
        let c = bignat::pow10(k + 1) as int;
        if x >= 0 {
            let e = bignat::pow10(x as nat) as int;
            decimal::lemma_pow10_adds((-j) as nat, x as nat);
            assert((-j) as nat + x as nat == k);
            assert(d * b <= n * a) by (nonlinear_arith)
                requires
                    d * e <= n,
                    b == a * e,
                    a > 0,
            ;
        } else {
            let e = bignat::pow10((-x) as nat) as int;
            decimal::lemma_pow10_adds(k, (-x) as nat);
            assert(k + (-x) as nat == (-j) as nat);
            assert(d * b <= n * a) by (nonlinear_arith)
                requires
                    d <= n * e,
                    a == b * e,
                    b > 0,
            ;
        }
        if x + 1 >= 0 {
            let e = bignat::pow10((x + 1) as nat) as int;
            decimal::lemma_pow10_adds((-j) as nat, (x + 1) as nat);
            assert((-j) as nat + (x + 1) as nat == k + 1);
            assert(n * a < d * c) by (nonlinear_arith)
                requires
                    n < d * e,
                    c == a * e,
                    a > 0,
            ;
        } else {
            let e = bignat::pow10((-(x + 1)) as nat) as int;
            decimal::lemma_pow10_adds(k + 1, (-(x + 1)) as nat);
            assert(k + 1 + (-(x + 1)) as nat == (-j) as nat);
            assert(n * a < d * c) by (nonlinear_arith)
                requires
                    n * e < d,
                    a == c * e,
                    c > 0,
            ;
        }
    }
}

/// `10^19` still fits into 64 bits.
proof fn lemma_pow10_small(k: nat)
    requires
        k <= 19,
    ensures
        bignat::pow10(k) <= 10_000_000_000_000_000_000,
{
    reveal_with_fuel(bignat::pow10, 20);
}

fn pow10_u64(k: usize) -> (res: u64)
    requires
        k <= 19,
    ensures
        res == bignat::pow10(k as nat),
{
    let mut r: u64 = 1;
    let mut i: usize = 0;
    while i < k
        invariant
            i <= k <= 19,
            r == bignat::pow10(i as nat),
        decreases k - i,
    {
        proof {
            lemma_pow10_small((i + 1) as nat);
        }
        r = r * 10;
        i = i + 1;
    }
    r
}

/// `num / den / 10^j` as a fraction.
fn shifted(num: &BigNat, den: &BigNat, j: i64) -> (res: (BigNat, BigNat))
    requires
        -1000 <= j <= 1000,
    ensures
        res.0@ == shifted_num(num@, j as int),
        res.1@ == shifted_den(den@, j as int),
{
    if j >= 0 {
        (num.mul_add(1, 0), den.mul_pow10(j as usize))
    } else {
        (num.mul_pow10((-j) as usize), den.mul_add(1, 0))
    }
}

/// The leading digits of a number that is neither zero nor special, and the
/// power of ten that goes with them.
fn leading_digits(r: Real, k: usize) -> (res: (u64, i64))
    requires
        0 < r.magnitude() < INF_BITS,
        k <= 17,
    ensures
        res.0 == sci_digits(r.magnitude(), k as nat),
        res.1 == sci_exponent(r.magnitude(), k as nat),
        -400 <= res.1 <= 400,
{
    let num = units_of(r);
    let den = BigNat::from_u64(1).mul_pow2(1074);
    proof {
        assert(1 * pow2(1074) == pow2(1074)) by (nonlinear_arith);
        lemma_pow2_pos(1074);
        lemma_magnitude_decades(r.magnitude());
    }
    let x: i64 = decade_of(&num, &den);
    let j: i64 = x - k as i64;
    let (n, d): (BigNat, BigNat) = shifted(&num, &den, j);
    proof {
        lemma_leading_bound(num@, den@, x as int, k as nat);
        lemma_pow10_small((k + 1) as nat);
        let a = n@ as int;
        let b = d@ as int;
        let p = bignat::pow10((k + 1) as nat) as int;
        assert(a < b * 0xffff_ffff_ffff_ffff) by (nonlinear_arith)
            requires
                a < b * p,
                p <= 10_000_000_000_000_000_000,
                b > 0,
        ;
    }
    let q: u64 = rounded_quotient(&n, &d);
    if q == pow10_u64(k + 1) {
        (pow10_u64(k), x + 1)
    } else {
        (q, x)
    }
}

fn push_sci_body(s: &mut String, ds: &Vec<char>, x: i64)
    requires
        ds.len() >= 1,
    ensures
        final(s)@ == old(s)@ + sci_body(ds@, x as int),
{
    s.push(ds[0]);
    if ds.len() > 1 {
        s.append(".");
        s.append(text::slice_string(ds, 1, ds.len()).as_str());
    }
    s.append("e");
    s.append(text::i64_to_string(x).as_str());
    proof {
        assert(ds@.take(1) =~= seq![ds@[0]]);
        assert(ds@.subrange(1, ds@.len() as int) =~= ds@.skip(1));
        if ds@.len() == 1 {
            assert(ds@ =~= seq![ds@[0]]);
        }
        assert(s@ =~= old(s)@ + sci_body(ds@, x as int));
    }
}

proof fn lemma_dec_nonempty(n: nat)
    ensures
        text::dec(n).len() >= 1,
    decreases n,
{
    if n >= 10 {
        lemma_dec_nonempty(n / 10);
    }
}

/// `r` in scientific notation with `k` digits after the point.
pub fn to_scientific(r: Real, k: usize) -> (res: String)
    requires
        k <= 17,
    ensures
        res@ == scientific(r, k as nat),
{
    if !r.is_finite() {
        return special_string(r, false);
    }
    let mut s = sign_string(r, false);
    let b: u64 = if r.is_negative() {
        r.to_bits() - SIGN_BIT
    } else {
        r.to_bits()
    };
    if b == 0 {
        let ds = padded("", k + 1);
        proof {
            reveal_strlit("");
            assert(ds@ =~= text::zeros((k + 1) as nat));
        }
        push_sci_body(&mut s, &ds, 0);
        return s;
    }
    let (q, x): (u64, i64) = leading_digits(r, k);
    let ds = text::chars_of(text::u64_to_string(q).as_str());
    proof {
        lemma_dec_nonempty(q as nat);
    }
    push_sci_body(&mut s, &ds, x);
    s
}

/// `r` in scientific notation, with a plus sign where it is not negative.
pub open spec fn signed_scientific(r: Real, k: nat) -> Seq<char> {
    if r.negative() || r.nan() {
        scientific(r, k)
    } else {
        "+"@ + scientific(r, k)
    }
}

pub fn to_signed_scientific(r: Real, k: usize) -> (res: String)
    requires
        k <= 17,
    ensures
        res@ == signed_scientific(r, k as nat),
{
    if r.is_negative() || r.is_nan() {
        return to_scientific(r, k);
    }
    let mut s = "+".to_owned();
    s.append(to_scientific(r, k).as_str());
    s
}

// ── shortest form ──────────────────────────────────────────────────

/// The `k + 1` leading digits of a magnitude, cut off.
pub open spec fn leading_floor(m: nat, k: nat) -> nat {
    let j = decade(double::scaled(m), pow2(1074)) - k;
    shifted_num(double::scaled(m), j) / shifted_den(pow2(1074), j)
}

/// Power of ten that goes with the last of `k + 1` leading digits.
pub open spec fn last_place(m: nat, k: nat) -> int {
    decade(double::scaled(m), pow2(1074)) - k
}

/// `d * 10^j` reads back as magnitude `m`.
pub open spec fn reads_back(d: nat, j: int, m: nat) -> bool {
    decimal::decimal_magnitude(d, j) == m
}

/// The decimal with `k + 1` digits that reads back as `m`: the nearest one,
/// else its neighbour on the other side of `m`.
pub open spec fn round_trip(m: nat, k: nat) -> Option<nat> {
    let near = leading(double::scaled(m), pow2(1074), k);
    let low = leading_floor(m, k);
    let other = if near == low {
        low + 1
    } else {
        low
    };
    if reads_back(near, last_place(m, k), m) {
        Some(near)
    } else if reads_back(other, last_place(m, k), m) {
        Some(other)
    } else {
        None
    }
}

/// The least `k >= from` for which `k + 1` digits read back, at most 17.
pub open spec fn shortest_from(m: nat, from: nat) -> nat
    decreases 17 - from,
{
    if from >= 17 || round_trip(m, from) is Some {
        from
    } else {
        shortest_from(m, from + 1)
    }
}

/// The digits of the shortest decimal that reads back as `m`.
pub open spec fn shortest_digits(m: nat) -> nat {
    let k = shortest_from(m, 0);
    match round_trip(m, k) {
        Some(d) => d,
        None => leading(double::scaled(m), pow2(1074), k),
    }
}

/// `r` as the shortest decimal that reads back as `r`, in plain notation.
pub open spec fn shortest(r: Real) -> Seq<char> {
    if !r.finite() {
        special_text(r, false)
    } else if r.magnitude() == 0 {
        sign_text(r, false) + "0"@
    } else {
        let m = r.magnitude();
        let ds = decimal::strip_leading(text::dec(shortest_digits(m)));
        let cut = decimal::strip_trailing(ds);
        sign_text(r, false) + decimal::positional(
            cut,
            last_place(m, shortest_from(m, 0)) + (ds.len() - cut.len()),
        )
    }
}

fn matches_back(d: u64, j: i64, b: u64) -> (res: bool)
    requires
        -500 <= j <= 500,
    ensures
        res == reads_back(d as nat, j as int, b as nat),
{
    proof {
        reveal_with_fuel(bignat::pow10, 21);
        assert(d < bignat::pow10(20));
    }
    decimal::decimal_to_magnitude(BigNat::from_u64(d), 20, j as i128) == b
}

/// The digits of the shortest decimal that reads back, and the power of ten
/// of the last of them.
fn shortest_decimal(r: Real) -> (res: (u64, i64))
    requires
        0 < r.magnitude() < INF_BITS,
    ensures
        res.0 == shortest_digits(r.magnitude()),
        res.1 == last_place(r.magnitude(), shortest_from(r.magnitude(), 0)),
        -500 <= res.1 <= 500,
{
    let b: u64 = if r.is_negative() {
        r.to_bits() - SIGN_BIT
    } else {
        r.to_bits()
    };
    let ghost m = r.magnitude();
    let num = units_of(r);
    let den = BigNat::from_u64(1).mul_pow2(1074);
    proof {
        assert(1 * pow2(1074) == pow2(1074)) by (nonlinear_arith);
        lemma_pow2_pos(1074);
        lemma_magnitude_decades(m);
    }
    let x: i64 = decade_of(&num, &den);
    let mut k: usize = 0;
    loop
        invariant
            k <= 17,
            b == m,
            m == r.magnitude(),
            0 < m < INF_BITS,
            num@ == double::scaled(m),
            den@ == pow2(1074),
            den@ > 0,
            x == decade(num@, den@),
            in_decade(num@, den@, x as int),
            -400 <= x < 400,
            shortest_from(m, 0) == shortest_from(m, k as nat),
        decreases 18 - k,
    {
        let j: i64 = x - k as i64;
        let (n, d): (BigNat, BigNat) = shifted(&num, &den, j);
        proof {
            lemma_leading_bound(num@, den@, x as int, k as nat);
            lemma_pow10_small((k + 1) as nat);
            let a = n@ as int;
            let c = d@ as int;
            let p = bignat::pow10((k + 1) as nat) as int;
            assert(a < c * 0xffff_ffff_ffff_ffff && c * 0xffff_ffff_ffff_ffff <= c
                * 0x1_0000_0000_0000_0000) by (nonlinear_arith)
                requires
                    a < c * p,
                    p <= 10_000_000_000_000_000_000,
                    c > 0,
            ;
            assert(a / c < p) by (nonlinear_arith)
                requires
                    a < c * p,
                    c > 0,
                    a >= 0,
            ;
        }
        let near: u64 = rounded_quotient(&n, &d);
        let low: u64 = quotient(&n, &d);
        let other: u64 = if near == low {
            low + 1
        } else {
            low
        };
        assert(near == leading(double::scaled(m), pow2(1074), k as nat));
        assert(low == leading_floor(m, k as nat));
        assert(j == last_place(m, k as nat));
        if matches_back(near, j, b) {
            assert(round_trip(m, k as nat) == Some(near as nat));
            return (near, j);
        }
        if matches_back(other, j, b) {
            return (other, j);
        }
        if k >= 17 {
            return (near, j);
        }
        k = k + 1;
    }
}

/// `r` as the shortest decimal that reads back as `r`, in plain notation.
pub fn to_shortest(r: Real) -> (res: String)
    ensures
        res@ == shortest(r),
{
    if !r.is_finite() {
        return special_string(r, false);
    }
    let mut s = sign_string(r, false);
    let b: u64 = if r.is_negative() {
        r.to_bits() - SIGN_BIT
    } else {
        r.to_bits()
    };
    if b == 0 {
        s.append("0");
        return s;
    }
    let (d, j): (u64, i64) = shortest_decimal(r);
    let ds = text::chars_of(text::u64_to_string(d).as_str());
    let (sig, cut): (Vec<char>, usize) = decimal::significant_digits(&ds);
    decimal::push_positional(&mut s, &sig, j as i128 + cut as i128);
    s
}

/// `2^64` written out is no longer than `10^20`.
proof fn lemma_dec_length(n: nat, k: nat)
    requires
        1 <= k <= 20,
        k < 20 ==> n < bignat::pow10(k),
        n <= 0xffff_ffff_ffff_ffff,
    ensures
        text::dec(n).len() <= k,
    decreases k,
{
    if n >= 10 {
        if k == 20 {
            assert(bignat::pow10(19) == 10_000_000_000_000_000_000) by {
                reveal_with_fuel(bignat::pow10, 20);
            }
            lemma_dec_length(n / 10, 19);
        } else {
            assert(bignat::pow10(k) == 10 * bignat::pow10((k - 1) as nat));
            assert(bignat::pow10(1) == 10) by {
                reveal_with_fuel(bignat::pow10, 2);
            }
            lemma_dec_length(n / 10, (k - 1) as nat);
        }
    }
}

/// `r` in scientific notation with as few digits as read back as the same number.
pub open spec fn shortest_scientific(r: Real) -> Seq<char> {
    if !r.finite() {
        special_text(r, false)
    } else if r.magnitude() == 0 {
        sign_text(r, false) + "0e0"@
    } else {
        let m = r.magnitude();
        let ds = decimal::strip_leading(text::dec(shortest_digits(m)));
        let cut = decimal::strip_trailing(ds);
        sign_text(r, false) + sci_body(
            cut,
            last_place(m, shortest_from(m, 0)) + (ds.len() - cut.len()) + cut.len() - 1,
        )
    }
}

/// Writes a number in scientific notation with as few digits as read back as the same.
pub fn to_shortest_scientific(r: Real) -> (res: String)
    ensures
        res@ == shortest_scientific(r),
{
    if !r.is_finite() {
        return special_string(r, false);
    }
    let mut s = sign_string(r, false);
    let b: u64 = if r.is_negative() {
        r.to_bits() - SIGN_BIT
    } else {
        r.to_bits()
    };
    if b == 0 {
        s.append("0e0");
        return s;
    }
    let (d, j): (u64, i64) = shortest_decimal(r);
    let ds = text::chars_of(text::u64_to_string(d).as_str());
    let (sig, cut): (Vec<char>, usize) = decimal::significant_digits(&ds);
    proof {
        lemma_dec_length(d as nat, 20);
    }
    let x: i64 = j + cut as i64 + sig.len() as i64 - 1;
    if sig.len() == 0 {
        s.append("e");
        s.append(text::i64_to_string(x).as_str());
        assert(s@ =~= shortest_scientific(r));
        return s;
    }
    push_sci_body(&mut s, &sig, x);
    s
}

} // verus!
