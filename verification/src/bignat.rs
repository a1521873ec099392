//! Natural numbers of unbounded size, as little-endian base-2^32 limbs.

use vstd::arithmetic::power2::{
    lemma2_to64, lemma_pow2_adds, lemma_pow2_pos, lemma_pow2_strictly_increases, lemma_pow2_unfold,
    pow2,
};
use vstd::prelude::*;

verus! {

/// 2^(32 * n).
pub open spec fn base_pow(n: nat) -> nat
    decreases n,
{
    if n == 0 {
        1
    } else {
        0x1_0000_0000 * base_pow((n - 1) as nat)
    }
}

/// The `i`-th limb, zero past the end.
pub open spec fn limb(s: Seq<u32>, i: int) -> nat {
    if 0 <= i < s.len() {
        s[i] as nat
    } else {
        0
    }
}

/// The number that the lowest `n` limbs stand for.
pub open spec fn low(s: Seq<u32>, n: nat) -> nat
    decreases n,
{
    if n == 0 {
        0
    } else {
        low(s, (n - 1) as nat) + limb(s, n - 1) * base_pow((n - 1) as nat)
    }
}

proof fn lemma_low_same(a: Seq<u32>, b: Seq<u32>, n: nat)
    requires
        forall|i: int| 0 <= i < n ==> limb(a, i) == limb(b, i),
    ensures
        low(a, n) == low(b, n),
    decreases n,
{
    if n > 0 {
        lemma_low_same(a, b, (n - 1) as nat);
    }
}

proof fn lemma_low_past(s: Seq<u32>, n: nat)
    requires
        n >= s.len(),
    ensures
        low(s, n) == low(s, s.len()),
    decreases n,
{
    if n > s.len() {
        lemma_low_past(s, (n - 1) as nat);
        assert(limb(s, n - 1) * base_pow((n - 1) as nat) == 0) by (nonlinear_arith)
            requires
                limb(s, n - 1) == 0,
        ;
    }
}

proof fn lemma_base_pow_pos(n: nat)
    ensures
        base_pow(n) > 0,
    decreases n,
{
    if n > 0 {
        lemma_base_pow_pos((n - 1) as nat);
    }
}

proof fn lemma_low_bound(s: Seq<u32>, n: nat)
    ensures
        low(s, n) < base_pow(n),
    decreases n,
{
    if n > 0 {
        lemma_low_bound(s, (n - 1) as nat);
        lemma_base_pow_pos((n - 1) as nat);
        let p = base_pow((n - 1) as nat) as int;
        let d = limb(s, n - 1) as int;
        let l = low(s, (n - 1) as nat) as int;
        assert(l + d * p < 0x1_0000_0000 * p) by (nonlinear_arith)
            requires
                l < p,
                d < 0x1_0000_0000,
                d >= 0,
                p > 0,
        ;
    }
}

proof fn lemma_low_zero(s: Seq<u32>, n: nat)
    requires
        forall|i: int| 0 <= i < n && i < s.len() ==> s[i] == 0,
    ensures
        low(s, n) == 0,
    decreases n,
{
    if n > 0 {
        lemma_low_zero(s, (n - 1) as nat);
        assert(0 * base_pow((n - 1) as nat) == 0) by (nonlinear_arith);
    }
}

proof fn lemma_low_split(s: Seq<u32>, k: nat, n: nat)
    requires
        k <= s.len(),
    ensures
        low(s, k + n) == low(s, k) + base_pow(k) * low(s.skip(k as int), n),
    decreases n,
{
    let p = base_pow(k) as int;
    if n == 0 {
        assert(p * 0 == 0) by (nonlinear_arith);
    } else {
        lemma_low_split(s, k, (n - 1) as nat);
        lemma_base_pow_adds(k, (n - 1) as nat);
        let l = low(s.skip(k as int), (n - 1) as nat) as int;
        let d = limb(s, k + n - 1) as int;
        assert(limb(s.skip(k as int), n - 1) == d);
        let q = base_pow((n - 1) as nat) as int;
        assert((k + n - 1) as nat == k + (n - 1) as nat);
        assert(p * l + d * (p * q) == p * (l + d * q)) by (nonlinear_arith);
    }
}

proof fn lemma_base_pow_adds(a: nat, b: nat)
    ensures
        base_pow(a + b) == base_pow(a) * base_pow(b),
    decreases a,
{
    if a == 0 {
        assert(1 * base_pow(b) == base_pow(b)) by (nonlinear_arith);
    } else {
        lemma_base_pow_adds((a - 1) as nat, b);
        let p = base_pow((a - 1) as nat) as int;
        let q = base_pow(b) as int;
        assert((a + b - 1) as nat == (a - 1) as nat + b);
        assert(0x1_0000_0000 * (p * q) == (0x1_0000_0000 * p) * q) by (nonlinear_arith);
    }
}

/// Limb weights are powers of two.
pub proof fn lemma_base_pow_is_pow2(n: nat)
    ensures
        base_pow(n) == pow2(32 * n),
    decreases n,
{
    lemma2_to64();
    if n > 0 {
        lemma_base_pow_is_pow2((n - 1) as nat);
        lemma_pow2_adds(32, (32 * n - 32) as nat);
    }
}

proof fn lemma_low_update(s: Seq<u32>, i: nat, n: nat, q: u32)
    requires
        i < s.len(),
        s[i as int] == 0,
    ensures
        n <= i ==> low(s.update(i as int, q), n) == low(s, n),
        n > i ==> low(s.update(i as int, q), n) == low(s, n) + q * base_pow(i),
    decreases n,
{
    if n > 0 {
        lemma_low_update(s, i, (n - 1) as nat, q);
        if n - 1 == i {
            assert(0 * base_pow(i) == 0) by (nonlinear_arith);
        } else {
            assert(limb(s.update(i as int, q), n - 1) == limb(s, n - 1));
        }
    }
}

fn small_pow2(k: u32) -> (res: u64)
    requires
        k < 32,
    ensures
        res == pow2(k as nat),
{
    let mut r: u64 = 1;
    let mut i: u32 = 0;
    proof {
        lemma2_to64();
    }
    while i < k
        invariant
            i <= k < 32,
            r == pow2(i as nat),
            r <= 0x8000_0000,
        decreases k - i,
    {
        proof {
            lemma_pow2_unfold((i + 1) as nat);
            lemma_pow2_strictly_increases((i + 1) as nat, 32);
            lemma2_to64();
        }
        r = r * 2;
        i = i + 1;
    }
    r
}

/// Whether a number has a length of `bits` binary digits, of which the leading 64, filled up
/// with zeros, are `top`. Zero has no digits.
pub open spec fn is_lead(x: nat, top: nat, bits: nat) -> bool {
    if x == 0 {
        top == 0 && bits == 0
    } else {
        &&& bits > 0
        &&& pow2((bits - 1) as nat) <= x < pow2(bits)
        &&& top * pow2(bits) <= x * 0x1_0000_0000_0000_0000 < (top + 1) * pow2(bits)
    }
}

/// The highest three of `n` limbs.
spec fn top_limbs(s: Seq<u32>, n: nat) -> nat {
    limb(s, n - 1) * 0x1_0000_0000_0000_0000 + limb(s, n - 2) * 0x1_0000_0000 + limb(s, n - 3)
}

proof fn lemma_top_limbs(s: Seq<u32>, n: nat)
    requires
        0 < n,
    ensures
        top_limbs(s, n) * base_pow(n) <= low(s, n) * 0x1_0000_0000_0000_0000_0000_0000 < (
        top_limbs(s, n) + 1) * base_pow(n),
{
    let v = top_limbs(s, n) as int;
    let x = low(s, n) as int;
    if n >= 3 {
        reveal_with_fuel(base_pow, 4);
        reveal_with_fuel(low, 4);
        let p = base_pow((n - 3) as nat) as int;
        let l = low(s, (n - 3) as nat) as int;
        let a = limb(s, n - 1) as int;
        let b = limb(s, n - 2) as int;
        let c = limb(s, n - 3) as int;
        lemma_low_bound(s, (n - 3) as nat);
        assert(x == l + c * p + b * (0x1_0000_0000 * p) + a * (0x1_0000_0000 * (0x1_0000_0000
            * p)));
        assert(x == l + v * p) by (nonlinear_arith)
            requires
                x == l + c * p + b * (0x1_0000_0000 * p) + a * (0x1_0000_0000 * (0x1_0000_0000
                    * p)),
                v == a * 0x1_0000_0000_0000_0000 + b * 0x1_0000_0000 + c,
        ;
        let q = base_pow(n) as int;
        assert(q == 0x1_0000_0000_0000_0000_0000_0000 * p);
        assert(v * q <= x * 0x1_0000_0000_0000_0000_0000_0000 < (v + 1) * q) by (nonlinear_arith)
            requires
                x == l + v * p,
                0 <= l < p,
                q == 0x1_0000_0000_0000_0000_0000_0000 * p,
        ;
    } else if n == 2 {
        lemma_low_small(s);
        assert(v * base_pow(2) == x * 0x1_0000_0000_0000_0000_0000_0000);
        assert((v + 1) * base_pow(2) == v * base_pow(2) + 0x1_0000_0000_0000_0000);
    } else {
        lemma_low_small(s);
        assert(v * base_pow(1) == x * 0x1_0000_0000_0000_0000_0000_0000);
        assert((v + 1) * base_pow(1) == v * base_pow(1) + 0x1_0000_0000);
    }
}

proof fn lemma_low_small(s: Seq<u32>)
    ensures
        base_pow(1) == 0x1_0000_0000,
        base_pow(2) == 0x1_0000_0000_0000_0000,
        low(s, 1) == limb(s, 0),
        low(s, 2) == limb(s, 0) + limb(s, 1) * 0x1_0000_0000,
{
    let a = limb(s, 0) as int;
    let b = limb(s, 1) as int;
    assert(base_pow(0) == 1);
    assert(base_pow(1) == 0x1_0000_0000 * base_pow(0));
    assert(base_pow(2) == 0x1_0000_0000 * base_pow(1));
    assert(low(s, 0) == 0);
    assert(low(s, 1) == low(s, 0) + limb(s, 0) * base_pow(0));
    assert(a * base_pow(0) == a) by (nonlinear_arith)
        requires
            base_pow(0) == 1,
    ;
    assert(low(s, 2) == low(s, 1) + limb(s, 1) * base_pow(1));
    assert(b * base_pow(1) == b * 0x1_0000_0000) by (nonlinear_arith)
        requires
            base_pow(1) == 0x1_0000_0000,
    ;
}

proof fn lemma_lead(x: nat, v0: nat, whole: nat, j: nat, v: nat, bits: nat)
    requires
        v0 * pow2(whole) <= x * 0x1_0000_0000_0000_0000_0000_0000 < (v0 + 1) * pow2(whole),
        whole == bits + j,
        bits > 0,
        j <= 31,
        v == v0 * pow2(j),
        0x8000_0000_0000_0000_0000_0000 <= v < 0x1_0000_0000_0000_0000_0000_0000,
    ensures
        is_lead(x, v / 0x1_0000_0000, bits),
        v / 0x1_0000_0000 >= 0x8000_0000_0000_0000,
{
    let t = (v / 0x1_0000_0000) as int;
    let p = pow2(bits) as int;
    let g = pow2(j) as int;
    let h = pow2((32 - j) as nat) as int;
    lemma_pow2_adds(bits, j);
    lemma_pow2_adds(j, (32 - j) as nat);
    lemma2_to64();
    lemma_pow2_pos(bits);
    lemma_pow2_pos(j);
    lemma_pow2_pos((32 - j) as nat);
    lemma_pow2_unfold(bits);
    assert(pow2(32) == 0x1_0000_0000);
    let w = v0 as int;
    let xi = x as int;
    let vi = v as int;
    let r = vi - t * 0x1_0000_0000;
    assert(0 <= r < 0x1_0000_0000);
    assert(vi * p <= xi * 0x1_0000_0000_0000_0000_0000_0000 < (vi + g) * p) by (nonlinear_arith)
        requires
            w * (p * g) <= xi * 0x1_0000_0000_0000_0000_0000_0000 < (w + 1) * (p * g),
            vi == w * g,
    ;
    // Both the digits that were moved up and those that are cut off are whole multiples of `g`.
    assert(vi + g <= (t + 1) * 0x1_0000_0000) by {
        let k = w - t * h;
        assert(r == k * g) by (nonlinear_arith)
            requires
                r == vi - t * 0x1_0000_0000,
                vi == w * g,
                k == w - t * h,
                g * h == 0x1_0000_0000,
        ;
        assert(k < h) by (nonlinear_arith)
            requires
                k * g == r,
                r < 0x1_0000_0000,
                g * h == 0x1_0000_0000,
                g > 0,
        ;
        assert((k + 1) * g <= h * g) by (nonlinear_arith)
            requires
                k + 1 <= h,
                g > 0,
        ;
        assert((k + 1) * g == k * g + g) by (nonlinear_arith);
        assert(h * g == g * h) by (nonlinear_arith);
    }
    assert(t * p <= xi * 0x1_0000_0000_0000_0000 < (t + 1) * p) by (nonlinear_arith)
        requires
            vi * p <= xi * 0x1_0000_0000_0000_0000_0000_0000 < (vi + g) * p,
            t * 0x1_0000_0000 <= vi,
            vi + g <= (t + 1) * 0x1_0000_0000,
            p > 0,
    ;
    let half = pow2((bits - 1) as nat) as int;
    assert(p == 2 * half);
    assert(half <= xi < p) by (nonlinear_arith)
        requires
            t * p <= xi * 0x1_0000_0000_0000_0000 < (t + 1) * p,
            0x8000_0000_0000_0000 <= t,
            t + 1 <= 0x1_0000_0000_0000_0000,
            p == 2 * half,
            p > 0,
    ;
}

/// A natural number.
pub struct BigNat {
    limbs: Vec<u32>,
}

impl View for BigNat {
    type V = nat;

    closed spec fn view(&self) -> nat {
        low(self.limbs@, self.limbs@.len())
    }
}

impl BigNat {
    pub fn zero() -> (res: Self)
        ensures
            res@ == 0,
    {
        BigNat { limbs: Vec::new() }
    }

    /// `self * factor + addend`.
    pub fn mul_add(&self, factor: u64, addend: u64) -> (res: Self)
        ensures
            res@ == self@ * factor + addend,
    {
        let mut out: Vec<u32> = Vec::new();
        let mut carry: u64 = addend;
        let mut i: usize = 0;
        assert(0 + addend * base_pow(0) == 0 * factor + addend) by (nonlinear_arith)
            requires
                base_pow(0) == 1,
        ;
        while i < self.limbs.len()
            invariant
                i <= self.limbs.len(),
                out@.len() == i,
                low(out@, i as nat) + carry * base_pow(i as nat) == low(self.limbs@, i as nat)
                    * factor + addend,
            decreases self.limbs.len() - i,
        {
            let d: u32 = self.limbs[i];
            assert(d * factor + carry <= 0xffff_ffffu64 * u64::MAX + u64::MAX) by (nonlinear_arith)
                requires
                    d <= 0xffff_ffffu64,
                    factor <= u64::MAX,
                    carry <= u64::MAX,
                    d >= 0,
                    factor >= 0,
            ;
            let t: u128 = (d as u128) * (factor as u128) + (carry as u128);
            let lo: u32 = (t % 0x1_0000_0000) as u32;
            let hi: u64 = (t / 0x1_0000_0000) as u64;
            let ghost old_out = out@;
            out.push(lo);
            proof {
                lemma_low_same(old_out, out@, i as nat);
                let p = base_pow(i as nat) as int;
                let l = low(self.limbs@, i as nat) as int;
                let o = low(old_out, i as nat) as int;
                assert(limb(out@, i as int) == lo);
                assert(limb(self.limbs@, i as int) == d);
                assert(low(out@, (i + 1) as nat) == o + lo * p);
                assert(low(self.limbs@, (i + 1) as nat) == l + d * p);
                assert(base_pow((i + 1) as nat) == 0x1_0000_0000 * p);
                assert(lo + hi * 0x1_0000_0000 == d * factor + carry);
                assert((o + lo * p) + hi * (0x1_0000_0000 * p) == (l + d * p) * factor + addend)
                    by (nonlinear_arith)
                    requires
                        o + carry * p == l * factor + addend,
                        lo + hi * 0x1_0000_0000 == d * factor + carry,
                ;
            }
            carry = hi;
            i = i + 1;
        }
        let lo: u32 = (carry % 0x1_0000_0000) as u32;
        let hi: u32 = (carry / 0x1_0000_0000) as u32;
        let ghost out0 = out@;
        out.push(lo);
        let ghost out1 = out@;
        out.push(hi);
        proof {
            let n = out0.len();
            lemma_low_same(out0, out1, n);
            lemma_low_same(out1, out@, n + 1);
            let p = base_pow(n) as int;
            assert(limb(out1, n as int) == lo);
            assert(low(out1, n + 1) == low(out0, n) + lo * p);
            assert(limb(out@, n as int + 1) == hi);
            assert(base_pow(n + 1) == 0x1_0000_0000 * p);
            assert(low(out@, n + 2) == low(out1, n + 1) + hi * base_pow(n + 1));
            let o = low(out0, n) as int;
            assert(o + lo * p + hi * (0x1_0000_0000 * p) == o + carry * p) by (nonlinear_arith)
                requires
                    lo + hi * 0x1_0000_0000 == carry,
            ;
        }
        BigNat { limbs: out }
    }

    pub fn from_u64(n: u64) -> (res: Self)
        ensures
            res@ == n,
    {
        BigNat::zero().mul_add(0, n)
    }

    /// `self * 2^(32 * k)`.
    fn shift_limbs(&self, k: usize) -> (res: Self)
        ensures
            res@ == self@ * base_pow(k as nat),
    {
        let mut out: Vec<u32> = Vec::new();
        let mut i: usize = 0;
        while i < k
            invariant
                i <= k,
                out@.len() == i,
                forall|j: int| 0 <= j < i ==> out@[j] == 0,
            decreases k - i,
        {
            out.push(0);
            i = i + 1;
        }
        let mut j: usize = 0;
        while j < self.limbs.len()
            invariant
                j <= self.limbs.len(),
                out@.len() == k + j,
                forall|x: int| 0 <= x < k ==> out@[x] == 0,
                forall|x: int| 0 <= x < j ==> out@[k + x] == self.limbs@[x],
            decreases self.limbs.len() - j,
        {
            out.push(self.limbs[j]);
            j = j + 1;
        }
        proof {
            assert(out@.take(k as int) =~= Seq::new(k as nat, |i: int| 0u32));
            assert(out@.skip(k as int) =~= self.limbs@);
            lemma_low_split(out@, k as nat, self.limbs@.len());
            lemma_low_zero(out@, k as nat);
            let a = self@ as int;
            let p = base_pow(k as nat) as int;
            assert(p * a == a * p) by (nonlinear_arith);
        }
        BigNat { limbs: out }
    }

    /// `self * 2^k`.
    pub fn mul_pow2(&self, k: u32) -> (res: Self)
        ensures
            res@ == self@ * pow2(k as nat),
    {
        let f: u64 = small_pow2(k % 32);
        let part = self.mul_add(f, 0);
        let out = part.shift_limbs((k / 32) as usize);
        proof {
            lemma_base_pow_is_pow2((k / 32) as nat);
            lemma_pow2_adds((k % 32) as nat, (32 * (k / 32)) as nat);
            let a = self@ as int;
            let b = pow2((k % 32) as nat) as int;
            let c = base_pow((k / 32) as nat) as int;
            assert((a * b) * c == a * (b * c)) by (nonlinear_arith);
            assert((k % 32) as nat + (32 * (k / 32)) as nat == k as nat);
        }
        out
    }

    /// `self * 10^k`.
    pub fn mul_pow10(&self, k: usize) -> (res: Self)
        ensures
            res@ == self@ * pow10(k as nat),
    {
        let mut left: usize = k;
        let mut out = self.mul_add(1, 0);
        proof {
            assert(self@ * pow10(0) == self@) by (nonlinear_arith)
                requires
                    pow10(0) == 1,
            ;
        }
        while left > 0
            invariant
                left <= k,
                out@ == self@ * pow10((k - left) as nat),
            decreases left,
        {
            let next = out.mul_add(10, 0);
            proof {
                let a = self@ as int;
                let b = pow10((k - left) as nat) as int;
                assert(pow10((k - left + 1) as nat) == 10 * b);
                assert((a * b) * 10 == a * (10 * b)) by (nonlinear_arith);
            }
            out = next;
            left = left - 1;
        }
        out
    }

    /// `self + other`.
    pub fn plus(&self, other: &BigNat) -> (res: Self)
        ensures
            res@ == self@ + other@,
    {
        let n: usize = if self.limbs.len() > other.limbs.len() {
            self.limbs.len()
        } else {
            other.limbs.len()
        };
        let mut out: Vec<u32> = Vec::new();
        let mut carry: u32 = 0;
        let mut i: usize = 0;
        assert(carry * base_pow(0) == 0);
        while i < n
            invariant
                i <= n,
                out@.len() == i,
                carry <= 1,
                low(out@, i as nat) + carry * base_pow(i as nat) == low(self.limbs@, i as nat)
                    + low(other.limbs@, i as nat),
            decreases n - i,
        {
            let a: u32 = self.limb_or_zero(i);
            let b: u32 = other.limb_or_zero(i);
            let t: u64 = a as u64 + b as u64 + carry as u64;
            let lo: u32 = (t % 0x1_0000_0000) as u32;
            let hi: u32 = (t / 0x1_0000_0000) as u32;
            let ghost old_out = out@;
            out.push(lo);
            proof {
                lemma_low_same(old_out, out@, i as nat);
                let p = base_pow(i as nat) as int;
                let o = low(old_out, i as nat) as int;
                let x = low(self.limbs@, i as nat) as int;
                let y = low(other.limbs@, i as nat) as int;
                assert(limb(out@, i as int) == lo);
                assert((o + lo * p) + hi * (0x1_0000_0000 * p) == (x + a * p) + (y + b * p))
                    by (nonlinear_arith)
                    requires
                        o + carry * p == x + y,
                        lo + hi * 0x1_0000_0000 == a + b + carry,
                ;
            }
            carry = hi;
            i = i + 1;
        }
        let ghost out0 = out@;
        out.push(carry);
        proof {
            lemma_low_same(out0, out@, n as nat);
            assert(limb(out@, n as int) == carry);
            lemma_low_past(self.limbs@, n as nat);
            lemma_low_past(other.limbs@, n as nat);
        }
        BigNat { limbs: out }
    }

    /// `self - other`.
    pub fn minus(&self, other: &BigNat) -> (res: Self)
        requires
            self@ >= other@,
        ensures
            res@ == self@ - other@,
    {
        let n: usize = if self.limbs.len() > other.limbs.len() {
            self.limbs.len()
        } else {
            other.limbs.len()
        };
        let mut out: Vec<u32> = Vec::new();
        let mut borrow: u32 = 0;
        let mut i: usize = 0;
        assert(borrow * base_pow(0) == 0);
        while i < n
            invariant
                i <= n,
                out@.len() == i,
                borrow <= 1,
                low(out@, i as nat) + low(other.limbs@, i as nat) == low(self.limbs@, i as nat)
                    + borrow * base_pow(i as nat),
            decreases n - i,
        {
            let a: u32 = self.limb_or_zero(i);
            let b: u32 = other.limb_or_zero(i);
            let t: u64 = 0x1_0000_0000 + a as u64 - b as u64 - borrow as u64;
            let lo: u32 = (t % 0x1_0000_0000) as u32;
            let next: u32 = if t >= 0x1_0000_0000 {
                0
            } else {
                1
            };
            let ghost old_out = out@;
            out.push(lo);
            proof {
                lemma_low_same(old_out, out@, i as nat);
                let p = base_pow(i as nat) as int;
                let o = low(old_out, i as nat) as int;
                let x = low(self.limbs@, i as nat) as int;
                let y = low(other.limbs@, i as nat) as int;
                assert(limb(out@, i as int) == lo);
                assert(lo + b + borrow == a + next * 0x1_0000_0000);
                assert((o + lo * p) + (y + b * p) == (x + a * p) + next * (0x1_0000_0000 * p))
                    by (nonlinear_arith)
                    requires
                        o + y == x + borrow * p,
                        lo + b + borrow == a + next * 0x1_0000_0000,
                ;
            }
            borrow = next;
            i = i + 1;
        }
        proof {
            lemma_low_past(self.limbs@, n as nat);
            lemma_low_past(other.limbs@, n as nat);
            lemma_low_bound(out@, n as nat);
            let p = base_pow(n as nat) as int;
            if borrow == 1 {
                assert(borrow * p == p) by (nonlinear_arith)
                    requires
                        borrow == 1,
                ;
            } else {
                assert(borrow * p == 0) by (nonlinear_arith)
                    requires
                        borrow == 0,
                ;
            }
        }
        BigNat { limbs: out }
    }

    /// Quotient and remainder of the division by `d`.
    pub fn div_rem(&self, d: u32) -> (res: (BigNat, u32))
        requires
            d > 0,
        ensures
            res.0@ == self@ / d as nat,
            res.1 == self@ % d as nat,
    {
        let n: usize = self.limbs.len();
        let mut out: Vec<u32> = Vec::new();
        let mut j: usize = 0;
        while j < n
            invariant
                j <= n,
                out@.len() == j,
                forall|x: int| 0 <= x < j ==> out@[x] == 0,
            decreases n - j,
        {
            out.push(0);
            j = j + 1;
        }
        let mut rem: u32 = 0;
        let mut i: usize = n;
        proof {
            lemma_low_zero(out@, n as nat);
            assert(out@.take(n as int) =~= out@);
            assert(0 * d == 0) by (nonlinear_arith);
        }
        while i > 0
            invariant
                i <= n,
                d > 0,
                n == self.limbs@.len(),
                out@.len() == n,
                rem < d,
                low(out@, n as nat) * d + rem * base_pow(i as nat) + low(self.limbs@, i as nat)
                    == self@,
                low(out@, i as nat) == 0,
                forall|x: int| 0 <= x < i ==> out@[x] == 0,
            decreases i,
        {
            i = i - 1;
            let t: u64 = rem as u64 * 0x1_0000_0000 + self.limbs[i] as u64;
            let ghost old_out = out@;
            let ghost old_rem = rem;
            assert(t / d as u64 <= 0xffff_ffff) by (nonlinear_arith)
                requires
                    t == rem * 0x1_0000_0000 + self.limbs@[i as int],
                    rem < d,
                    self.limbs@[i as int] <= 0xffff_ffff,
                    d > 0,
            ;
            let q: u32 = (t / d as u64) as u32;
            rem = (t % d as u64) as u32;
            out.set(i, q);
            proof {
                vstd::arithmetic::div_mod::lemma_fundamental_div_mod(t as int, d as int);
                lemma_low_update(old_out, i as nat, n as nat, q);
                lemma_low_same(old_out, out@, i as nat);
                lemma_low_zero(out@, i as nat);
                let p = base_pow(i as nat) as int;
                let l = low(self.limbs@, i as nat) as int;
                let w = self.limbs@[i as int] as int;
                assert(limb(self.limbs@, i as int) == w);
                assert(base_pow((i + 1) as nat) == 0x1_0000_0000 * p);
                let o = low(old_out, n as nat) as int;
                let total = self@ as int;
                assert(q == t as int / d as int && rem == t as int % d as int);
                assert(q * d == d * q) by (nonlinear_arith);
                assert((o + q * p) * d + rem * p + l == total) by (nonlinear_arith)
                    requires
                        o * d + old_rem * (0x1_0000_0000 * p) + (l + w * p) == total,
                        q * d + rem == old_rem * 0x1_0000_0000 + w,
                ;
            }
        }
        proof {
            let o = low(out@, n as nat) as int;
            assert(rem * base_pow(0) == rem) by (nonlinear_arith)
                requires
                    base_pow(0) == 1,
            ;
            vstd::arithmetic::div_mod::lemma_fundamental_div_mod_converse(
                self@ as int,
                d as int,
                o,
                rem as int,
            );
        }
        (BigNat { limbs: out }, rem)
    }

    /// The number that the lowest `k` limbs hold, and the one above them.
    pub fn split(&self, k: usize) -> (res: (BigNat, BigNat))
        ensures
            self@ == res.0@ + res.1@ * base_pow(k as nat),
            res.0@ < base_pow(k as nat),
    {
        let mut lo: Vec<u32> = Vec::new();
        let mut hi: Vec<u32> = Vec::new();
        let mut i: usize = 0;
        while i < k
            invariant
                i <= k,
                lo@.len() == i,
                forall|x: int| 0 <= x < i ==> lo@[x] as nat == limb(self.limbs@, x),
            decreases k - i,
        {
            lo.push(self.limb_or_zero(i));
            i = i + 1;
        }
        let mut j: usize = k;
        while j < self.limbs.len()
            invariant
                k <= j,
                hi@.len() == (if j <= self.limbs.len() { j - k } else { 0 }),
                k <= self.limbs.len() ==> j <= self.limbs.len(),
                forall|x: int| 0 <= x < hi@.len() ==> hi@[x] == self.limbs@[k + x],
            decreases self.limbs.len() - j,
        {
            hi.push(self.limbs[j]);
            j = j + 1;
        }
        proof {
            lemma_low_same(lo@, self.limbs@, k as nat);
            lemma_low_bound(lo@, k as nat);
            let n = self.limbs@.len();
            if k <= n {
                assert(self.limbs@.skip(k as int) =~= hi@);
                lemma_low_split(self.limbs@, k as nat, (n - k) as nat);
                let p = base_pow(k as nat) as int;
                let h = low(hi@, hi@.len()) as int;
                assert(p * h == h * p) by (nonlinear_arith);
            } else {
                lemma_low_past(self.limbs@, k as nat);
                assert(0 * base_pow(k as nat) == 0) by (nonlinear_arith);
            }
        }
        (BigNat { limbs: lo }, BigNat { limbs: hi })
    }

    fn limb_or_zero(&self, i: usize) -> (res: u32)
        ensures
            res == limb(self.limbs@, i as int),
    {
        if i < self.limbs.len() {
            self.limbs[i]
        } else {
            0
        }
    }

    /// The leading 64 binary digits, and how many there are.
    pub(crate) fn lead(&self) -> (res: (u64, u128))
        ensures
            is_lead(self@, res.0 as nat, res.1 as nat),
            self@ > 0 ==> res.0 >= 0x8000_0000_0000_0000,
            res.1 < 0x100_0000_0000_0000_0000,
    {
        let mut n: usize = self.limbs.len();
        while n > 0 && self.limbs[n - 1] == 0
            invariant
                n <= self.limbs@.len(),
                low(self.limbs@, n as nat) == self@,
            decreases n,
        {
            assert(0 * base_pow((n - 1) as nat) == 0) by (nonlinear_arith);
            n = n - 1;
        }
        if n == 0 {
            return (0, 0);
        }
        let a: u128 = self.limbs[n - 1] as u128;
        let b: u128 = if n >= 2 {
            self.limbs[n - 2] as u128
        } else {
            0
        };
        let c: u128 = if n >= 3 {
            self.limbs[n - 3] as u128
        } else {
            0
        };
        let mut v: u128 = a * 0x1_0000_0000_0000_0000 + b * 0x1_0000_0000 + c;
        let mut bits: u128 = n as u128 * 32;
        let ghost v0 = v as nat;
        let ghost mut j: nat = 0;
        proof {
            lemma2_to64();
            lemma_top_limbs(self.limbs@, n as nat);
            lemma_base_pow_is_pow2(n as nat);
            assert(v0 == top_limbs(self.limbs@, n as nat));
            assert(v0 * 1 == v0);
        }
        while v < 0x8000_0000_0000_0000_0000_0000 && bits > 0
            invariant
                v < 0x1_0000_0000_0000_0000_0000_0000,
                bits < 0x100_0000_0000_0000_0000,
                v0 >= 0x1_0000_0000_0000_0000,
                v == v0 * pow2(j),
                n > 0,
                bits + j == 32 * n,
                j <= 31,
            decreases bits,
        {
            proof {
                let g = pow2(j) as int;
                let w = v0 as int;
                lemma2_to64();
                lemma_pow2_unfold(j + 1);
                assert(2 * (w * g) == w * (2 * g)) by (nonlinear_arith);
                if j == 31 {
                    assert(v >= 0x8000_0000_0000_0000_0000_0000) by (nonlinear_arith)
                        requires
                            v == w * g,
                            g == 0x8000_0000,
                            w >= 0x1_0000_0000_0000_0000,
                    ;
                }
                j = j + 1;
            }
            v = v * 2;
            bits = bits - 1;
        }
        proof {
            lemma_lead(self@, v0, (32 * n) as nat, j, v as nat, bits as nat);
        }
        ((v / 0x1_0000_0000) as u64, bits)
    }

    /// Whether `self` is less than, equal to or greater than `other`.
    pub fn order(&self, other: &BigNat) -> (res: Order)
        ensures
            res == order_of(self@ as int, other@ as int),
    {
        let n: usize = if self.limbs.len() > other.limbs.len() {
            self.limbs.len()
        } else {
            other.limbs.len()
        };
        proof {
            lemma_low_past(self.limbs@, n as nat);
            lemma_low_past(other.limbs@, n as nat);
        }
        let mut i: usize = n;
        while i > 0
            invariant
                i <= n,
                self@ - low(self.limbs@, i as nat) == other@ - low(other.limbs@, i as nat),
            decreases i,
        {
            i = i - 1;
            let a: u32 = self.limb_or_zero(i);
            let b: u32 = other.limb_or_zero(i);
            if a != b {
                proof {
                    lemma_low_bound(self.limbs@, i as nat);
                    lemma_low_bound(other.limbs@, i as nat);
                    let p = base_pow(i as nat) as int;
                    let la = low(self.limbs@, i as nat) as int;
                    let lb = low(other.limbs@, i as nat) as int;
                    let x = a as int;
                    let y = b as int;
                    assert(low(self.limbs@, (i + 1) as nat) == la + x * p);
                    assert(low(other.limbs@, (i + 1) as nat) == lb + y * p);
                    if a < b {
                        assert(la + x * p < lb + y * p) by (nonlinear_arith)
                            requires
                                la < p,
                                lb >= 0,
                                x + 1 <= y,
                                p > 0,
                        ;
                    } else {
                        assert(lb + y * p < la + x * p) by (nonlinear_arith)
                            requires
                                lb < p,
                                la >= 0,
                                y + 1 <= x,
                                p > 0,
                        ;
                    }
                }
                if a < b {
                    return Order::Less;
                } else {
                    return Order::Greater;
                }
            }
        }
        Order::Equal
    }
}

/// Outcome of comparing two numbers.
#[derive(Clone, Copy, Debug, PartialEq, Eq, Structural)]
pub enum Order {
    Less,
    Equal,
    Greater,
}

/// Whether `c * 2^t` is less than `x / (2 * d)`.
pub open spec fn under(c: nat, t: int, x: nat, d: nat) -> bool {
    if t >= 0 {
        c * pow2(t as nat) * (2 * d) < x
    } else {
        c * (2 * d) < x * pow2((-t) as nat)
    }
}

/// Whether `c * 2^t` is greater than `x / (2 * d)`.
pub open spec fn over(c: nat, t: int, x: nat, d: nat) -> bool {
    if t >= 0 {
        x < c * pow2(t as nat) * (2 * d)
    } else {
        x * pow2((-t) as nat) < c * (2 * d)
    }
}

/// What lies at or below a bound lies below what the bound is under.
pub proof fn lemma_under(c: nat, t: int, x: nat, d: nat, k: nat)
    requires
        under(c, t, x, d),
        t >= 0 ==> k <= c * pow2(t as nat),
        t < 0 ==> k * pow2((-t) as nat) <= c,
    ensures
        k * (2 * d) < x,
{
    let e = 2 * d as int;
    if t >= 0 {
        let b = (c * pow2(t as nat)) as int;
        assert(k * e <= b * e) by (nonlinear_arith)
            requires
                k <= b,
                e >= 0,
        ;
    } else {
        let p = pow2((-t) as nat) as int;
        let xi = x as int;
        lemma_pow2_pos((-t) as nat);
        assert(k * e < xi) by (nonlinear_arith)
            requires
                k * p <= c,
                c * e < xi * p,
                p > 0,
                e >= 0,
        ;
    }
}

/// What lies at or above a bound lies above what the bound is over.
pub proof fn lemma_over(c: nat, t: int, x: nat, d: nat, k: nat)
    requires
        over(c, t, x, d),
        t >= 0 ==> c * pow2(t as nat) <= k,
        t < 0 ==> c <= k * pow2((-t) as nat),
    ensures
        x < k * (2 * d),
{
    let e = 2 * d as int;
    if t >= 0 {
        let b = (c * pow2(t as nat)) as int;
        assert(b * e <= k * e) by (nonlinear_arith)
            requires
                b <= k,
                e >= 0,
        ;
    } else {
        let p = pow2((-t) as nat) as int;
        let xi = x as int;
        lemma_pow2_pos((-t) as nat);
        assert(xi < k * e) by (nonlinear_arith)
            requires
                c <= k * p,
                xi * p < c * e,
                p > 0,
                e >= 0,
        ;
    }
}

proof fn lemma_bounds_doubled(c: nat, t: int, x: nat, d: nat)
    ensures
        under(c, t, x, d) == under(2 * c, t - 1, x, d),
        over(c, t, x, d) == over(2 * c, t - 1, x, d),
{
    lemma2_to64();
    let h = if t >= 1 {
        pow2((t - 1) as nat)
    } else {
        pow2((-t) as nat)
    };
    assert((2 * c) * (2 * d) == 2 * (c * (2 * d))) by (nonlinear_arith);
    assert(x * (2 * h) == 2 * (x * h)) by (nonlinear_arith);
    if t >= 1 {
        lemma_pow2_unfold(t as nat);
        assert(pow2(t as nat) == 2 * h);
        assert(c * (2 * h) == (2 * c) * h) by (nonlinear_arith);
    } else {
        lemma_pow2_unfold((1 - t) as nat);
        assert((-(t - 1)) as nat == (1 - t) as nat);
        assert(pow2((1 - t) as nat) == 2 * h);
        if t == 0 {
            assert(c * pow2(0) == c) by (nonlinear_arith)
                requires
                    pow2(0) == 1,
            ;
            assert(x * h == x) by (nonlinear_arith)
                requires
                    h == 1,
            ;
        }
    }
}

/// The quotient of the leading digits is off by less than two in its last place.
proof fn lemma_quotient(x: nat, d: nat, xt: nat, xb: nat, dt: nat, db: nat, w: nat)
    requires
        x > 0,
        d > 0,
        is_lead(x, xt, xb),
        is_lead(d, dt, db),
        0x8000_0000_0000_0000 <= dt,
        w * dt <= xt * 0x8000_0000_0000_0000 < (w + 1) * dt,
        2 < w < 0x1_0000_0000_0000_0000,
    ensures
        under((w - 2) as nat, xb - db - 64, x, d),
        over(w + 2, xb - db - 64, x, d),
{
    let p = pow2(xb) as int;
    let g = pow2(db) as int;
    let xi = x as int;
    let di = d as int;
    let a = xt as int;
    let b = dt as int;
    let wi = w as int;
    lemma_pow2_pos(xb);
    lemma_pow2_pos(db);
    // Above.
    assert((a + 1) * 0x8000_0000_0000_0000 <= (wi + 2) * b) by (nonlinear_arith)
        requires
            a * 0x8000_0000_0000_0000 < (wi + 1) * b,
            0x8000_0000_0000_0000 <= b,
    ;
    assert(xi * 0x8000_0000_0000_0000 * g < (wi + 2) * (p * di)) by {
        let u = (wi + 2) * b;
        assert(xi * 0x1_0000_0000_0000_0000 * 0x8000_0000_0000_0000 < u * p) by (nonlinear_arith)
            requires
                xi * 0x1_0000_0000_0000_0000 < (a + 1) * p,
                (a + 1) * 0x8000_0000_0000_0000 <= u,
                p > 0,
        ;
        let y = xi * 0x8000_0000_0000_0000;
        assert(y * 0x1_0000_0000_0000_0000 * g < (u * p) * g) by (nonlinear_arith)
            requires
                y * 0x1_0000_0000_0000_0000 < u * p,
                g > 0,
        ;
        assert((u * p) * g == ((wi + 2) * p) * (b * g)) by (nonlinear_arith)
            requires
                u == (wi + 2) * b,
        ;
        let f = (wi + 2) * p;
        assert(f >= 0) by (nonlinear_arith)
            requires
                f == (wi + 2) * p,
                wi > 0,
                p > 0,
        ;
        assert(f * (b * g) <= f * (di * 0x1_0000_0000_0000_0000)) by (nonlinear_arith)
            requires
                b * g <= di * 0x1_0000_0000_0000_0000,
                f >= 0,
        ;
        assert(y * g < f * di) by (nonlinear_arith)
            requires
                y * 0x1_0000_0000_0000_0000 * g < f * (di * 0x1_0000_0000_0000_0000),
        ;
        assert(f * di == (wi + 2) * (p * di)) by (nonlinear_arith)
            requires
                f == (wi + 2) * p,
        ;
    }
    // Below.
    assert((wi - 2) * (b + 1) <= a * 0x8000_0000_0000_0000) by (nonlinear_arith)
        requires
            wi * b <= a * 0x8000_0000_0000_0000,
            wi < 0x1_0000_0000_0000_0000,
            0x8000_0000_0000_0000 <= b,
    ;
    assert((wi - 2) * (p * di) < xi * 0x8000_0000_0000_0000 * g) by {
        let f = (wi - 2) * p;
        assert(f > 0) by (nonlinear_arith)
            requires
                f == (wi - 2) * p,
                wi > 2,
                p > 0,
        ;
        assert(f * (di * 0x1_0000_0000_0000_0000) < f * ((b + 1) * g)) by (nonlinear_arith)
            requires
                di * 0x1_0000_0000_0000_0000 < (b + 1) * g,
                f > 0,
        ;
        assert(f * ((b + 1) * g) == ((wi - 2) * (b + 1)) * (p * g)) by (nonlinear_arith)
            requires
                f == (wi - 2) * p,
        ;
        let v = (wi - 2) * (b + 1);
        let pg = p * g;
        assert(pg > 0) by (nonlinear_arith)
            requires
                pg == p * g,
                p > 0,
                g > 0,
        ;
        assert(v * pg <= (a * 0x8000_0000_0000_0000) * pg) by (nonlinear_arith)
            requires
                v <= a * 0x8000_0000_0000_0000,
                pg > 0,
        ;
        assert((a * 0x8000_0000_0000_0000) * pg <= (xi * 0x8000_0000_0000_0000 * g)
            * 0x1_0000_0000_0000_0000) by (nonlinear_arith)
            requires
                a * p <= xi * 0x1_0000_0000_0000_0000,
                pg == p * g,
                g > 0,
        ;
        let y = xi * 0x8000_0000_0000_0000 * g;
        assert(f * di < y) by (nonlinear_arith)
            requires
                f * (di * 0x1_0000_0000_0000_0000) < y * 0x1_0000_0000_0000_0000,
        ;
        assert(f * di == (wi - 2) * (p * di)) by (nonlinear_arith)
            requires
                f == (wi - 2) * p,
        ;
    }
    lemma_rescaled((wi - 2) as nat, w + 2, x, d, xb, db);
}

proof fn lemma_rescaled(lo: nat, hi: nat, x: nat, d: nat, xb: nat, db: nat)
    requires
        lo * (pow2(xb) * d) < x * 0x8000_0000_0000_0000 * pow2(db) < hi * (pow2(xb) * d),
    ensures
        under(lo, xb - db - 64, x, d),
        over(hi, xb - db - 64, x, d),
{
    let t = xb - db - 64;
    let p = pow2(xb) as int;
    let g = pow2(db) as int;
    let xi = x as int;
    let di = d as int;
    let a = lo as int;
    let b = hi as int;
    lemma2_to64();
    lemma_pow2_pos(db);
    lemma_pow2_adds(db, 64);
    if t >= 0 {
        let r = pow2(t as nat) as int;
        lemma_pow2_adds(db + 64, t as nat);
        assert(p == (g * 0x1_0000_0000_0000_0000) * r);
        assert((a * r) * (2 * di) < xi < (b * r) * (2 * di)) by (nonlinear_arith)
            requires
                a * (p * di) < xi * 0x8000_0000_0000_0000 * g < b * (p * di),
                p == (g * 0x1_0000_0000_0000_0000) * r,
                g > 0,
        ;
    } else {
        let r = pow2((-t) as nat) as int;
        lemma_pow2_pos((-t) as nat);
        lemma_pow2_adds(xb, (-t) as nat);
        assert(p * r == g * 0x1_0000_0000_0000_0000);
        assert(a * (2 * di) < xi * r < b * (2 * di)) by (nonlinear_arith)
            requires
                a * (p * di) < xi * 0x8000_0000_0000_0000 * g < b * (p * di),
                p * r == g * 0x1_0000_0000_0000_0000,
                g > 0,
                r > 0,
        ;
    }
}

proof fn lemma_wider(w: nat, t: int, x: nat, d: nat)
    requires
        w >= 4,
        under((w - 2) as nat, t, x, d),
        over(w + 2, t, x, d),
    ensures
        under((w - 4) as nat, t, x, d),
        over(w + 4, t, x, d),
{
    let wi = w as int;
    let e = 2 * d as int;
    if t >= 0 {
        let p = pow2(t as nat) as int;
        assert((wi - 4) * p * e <= (wi - 2) * p * e && (wi + 2) * p * e <= (wi + 4) * p * e)
            by (nonlinear_arith)
            requires
                p >= 0,
                e >= 0,
        ;
    } else {
        assert((wi - 4) * e <= (wi - 2) * e && (wi + 2) * e <= (wi + 4) * e) by (nonlinear_arith)
            requires
                e >= 0,
        ;
    }
}

/// The leading 64 digits of `x / (2 * den)` and the power of two that goes with them; they
/// are off by less than four in the last place. None where either is zero.
pub(crate) fn quotient(x: &BigNat, den: &BigNat) -> (res: Option<(u64, i128)>)
    ensures
        match res {
            None => x@ == 0 || den@ == 0,
            Some((q, t)) => {
                &&& x@ > 0
                &&& den@ > 0
                &&& q >= 0x8000_0000_0000_0000
                &&& -0x200_0000_0000_0000_0000 < t < 0x200_0000_0000_0000_0000
                &&& under((q - 4) as nat, t as int, x@, den@)
                &&& over((q + 4) as nat, t as int, x@, den@)
            },
        },
{
    let (xt, xb): (u64, u128) = x.lead();
    let (dt, db): (u64, u128) = den.lead();
    if xt == 0 || dt == 0 {
        return None;
    }
    let n: u128 = xt as u128 * 0x8000_0000_0000_0000;
    let w: u128 = n / dt as u128;
    proof {
        let a = n as int;
        let b = dt as int;
        let wi = w as int;
        vstd::arithmetic::div_mod::lemma_fundamental_div_mod(a, b);
        assert(wi * b <= a < (wi + 1) * b) by (nonlinear_arith)
            requires
                a == b * wi + a % b,
                0 <= a % b < b,
        ;
        assert(0x4000_0000_0000_0000 <= wi < 0x1_0000_0000_0000_0000) by (nonlinear_arith)
            requires
                wi * b <= a < (wi + 1) * b,
                a == xt * 0x8000_0000_0000_0000,
                0x8000_0000_0000_0000 <= xt <= 0xffff_ffff_ffff_ffff,
                0x8000_0000_0000_0000 <= b <= 0xffff_ffff_ffff_ffff,
        ;
        lemma_quotient(x@, den@, xt as nat, xb as nat, dt as nat, db as nat, w as nat);
        lemma_wider(w as nat, xb - db - 64, x@, den@);
    }
    let t: i128 = xb as i128 - db as i128 - 64;
    if w < 0x8000_0000_0000_0000 {
        proof {
            lemma_bounds_doubled((w - 2) as nat, t as int, x@, den@);
            lemma_bounds_doubled((w + 2) as nat, t as int, x@, den@);
        }
        Some((w as u64 * 2, t - 1))
    } else {
        Some((w as u64, t))
    }
}

pub open spec fn order_of(a: int, b: int) -> Order {
    if a < b {
        Order::Less
    } else if a == b {
        Order::Equal
    } else {
        Order::Greater
    }
}

/// 10^n.
pub open spec fn pow10(n: nat) -> nat
    decreases n,
{
    if n == 0 {
        1
    } else {
        10 * pow10((n - 1) as nat)
    }
}

} // verus!
