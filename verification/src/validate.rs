//! Checks of numbers against numbers: tolerances, gradients against differences, and
//! traces on different grids.

use crate::convert;
use crate::double::Real;
use crate::numfmt;
use crate::single::{Single, TWO_BITS};
use crate::text;
use vstd::prelude::*;
use vstd::string::*;

verus! {

// ── single precision ───────────────────────────────────────────────

/// How far a number may lie from `b`.
pub open spec fn envelope(b: Single, rtol: Single, atol: Single) -> Single {
    atol.add_spec(rtol.mul_spec(b.abs_spec()))
}

/// Whether two numbers differ by no more than the envelope.
pub open spec fn close(a: Single, b: Single, rtol: Single, atol: Single) -> bool {
    a.sub_spec(b).abs_spec().at_most(envelope(b, rtol, atol))
}

/// Whether two numbers are close.
pub fn is_close(a: Single, b: Single, rtol: Single, atol: Single) -> (res: bool)
    ensures
        res == close(a, b, rtol, atol),
{
    a.sub(b).abs().le(atol.add(rtol.mul(b.abs())))
}

/// A number in scientific notation.
pub open spec fn sci(v: Single, k: nat) -> Seq<char> {
    numfmt::scientific(convert::widened(v), k)
}

fn sci_of(v: Single, k: usize) -> (res: String)
    requires
        k <= 17,
    ensures
        res@ == sci(v, k as nat),
{
    numfmt::to_scientific(convert::widen(v), k)
}

/// What is said of two numbers that are not close.
pub open spec fn not_close_text(
    a: Single,
    b: Single,
    rtol: Single,
    atol: Single,
    label: Seq<char>,
) -> Seq<char> {
    "["@ + label + "] not close:\n  a    = "@ + sci(a, 9) + "\n  b    = "@ + sci(b, 9)
        + "\n  |a-b|= "@ + sci(a.sub_spec(b).abs_spec(), 3) + "  (envelope = "@ + sci(
        envelope(b, rtol, atol),
        3,
    ) + ")"@
}

/// What is wrong with two numbers, if they are not close.
pub fn close_fault(a: Single, b: Single, rtol: Single, atol: Single, label: &str) -> (res: Option<
    String,
>)
    ensures
        match res {
            None => close(a, b, rtol, atol),
            Some(m) => !close(a, b, rtol, atol) && m@ == not_close_text(a, b, rtol, atol, label@),
        },
{
    if is_close(a, b, rtol, atol) {
        return None;
    }
    let mut s = "[".to_owned();
    s.append(label);
    s.append("] not close:\n  a    = ");
    s.append(sci_of(a, 9).as_str());
    s.append("\n  b    = ");
    s.append(sci_of(b, 9).as_str());
    s.append("\n  |a-b|= ");
    s.append(sci_of(a.sub(b).abs(), 3).as_str());
    s.append("  (envelope = ");
    s.append(sci_of(atol.add(rtol.mul(b.abs())), 3).as_str());
    s.append(")");
    Some(s)
}

/// The slope between two values that lie `eps` to either side.
pub open spec fn slope(above: Single, below: Single, eps: Single) -> Single {
    above.sub_spec(below).div_spec((Single { bits: TWO_BITS }).mul_spec(eps))
}

/// Computes the slope between two values that lie `eps` to either side.
pub fn difference_quotient(above: Single, below: Single, eps: Single) -> (res: Single)
    ensures
        res == slope(above, below, eps),
{
    above.sub(below).div((Single { bits: TWO_BITS }).mul(eps))
}

/// The derivative of a function by central differences.
pub fn central_difference<F: FnMut(Single) -> Single>(
    mut f: F,
    x: Single,
    eps: Single,
) -> (res: Single)
    requires
        call_requires(f, (x.add_spec(eps),)),
        call_requires(f, (x.sub_spec(eps),)),
    ensures
        exists|above: Single, below: Single|
            #![trigger slope(above, below, eps)]
            call_ensures(f, (x.add_spec(eps),), above) && call_ensures(
                f,
                (x.sub_spec(eps),),
                below,
            ) && res == slope(above, below, eps),
{
    let above = f(x.add(eps));
    let below = f(x.sub(eps));
    assert(slope(above, below, eps) == slope(above, below, eps));
    difference_quotient(above, below, eps)
}

/// What is said of a gradient that differs from the differences.
pub open spec fn grad_text(i: nat, ad: Single, fd: Single) -> Seq<char> {
    "gradcheck mismatch at param["@ + text::dec(i) + "]:\n  AD = "@ + sci(ad, 9) + "\n  FD = "@
        + sci(fd, 9) + "\n  diff = "@ + sci(ad.sub_spec(fd).abs_spec(), 3)
}

/// Checks one entry of a gradient, given the values to either side.
pub fn check_entry(
    i: usize,
    ad: Single,
    values: (Single, Single),
    eps: Single,
    rtol: Single,
    atol: Single,
) -> (res: Option<String>)
    ensures
        ({
            let fd = slope(values.0, values.1, eps);
            match res {
                None => close(ad, fd, rtol, atol),
                Some(m) => !close(ad, fd, rtol, atol) && m@ == grad_text(i as nat, ad, fd),
            }
        }),
{
    let fd = difference_quotient(values.0, values.1, eps);
    if is_close(ad, fd, rtol, atol) {
        return None;
    }
    let mut s = "gradcheck mismatch at param[".to_owned();
    s.append(text::usize_to_string(i).as_str());
    s.append("]:\n  AD = ");
    s.append(sci_of(ad, 9).as_str());
    s.append("\n  FD = ");
    s.append(sci_of(fd, 9).as_str());
    s.append("\n  diff = ");
    s.append(sci_of(ad.sub(fd).abs(), 3).as_str());
    Some(s)
}

/// Whether a function can be evaluated on every list of `n` numbers.
pub open spec fn total_on<F: FnMut(&[Single]) -> Single>(f: F, n: nat) -> bool {
    forall|v: &[Single]| v@.len() == n ==> #[trigger] call_requires(f, (v,))
}

/// Whether a number is a value of a function with one parameter moved.
pub open spec fn probed<F: FnMut(&[Single]) -> Single>(
    f: F,
    params: Seq<Single>,
    i: int,
    x: Single,
    value: Single,
) -> bool {
    exists|v: &[Single]|
        v@ == params.update(i, x) && #[trigger] call_ensures(f, (v,), value)
}

/// Whether `values` are what a function gives to either side of each parameter.
pub open spec fn sampled<F: FnMut(&[Single]) -> Single>(
    f: F,
    params: Seq<Single>,
    eps: Single,
    values: Seq<(Single, Single)>,
) -> bool {
    forall|i: int|
        #![trigger values[i]]
        0 <= i < values.len() ==> probed(f, params, i, params[i].add_spec(eps), values[i].0)
            && probed(f, params, i, params[i].sub_spec(eps), values[i].1)
}

/// Whether an entry of a gradient is close to the difference.
pub open spec fn entry_close(
    ad: Seq<Single>,
    values: Seq<(Single, Single)>,
    i: int,
    eps: Single,
    rtol: Single,
    atol: Single,
) -> bool {
    close(ad[i], slope(values[i].0, values[i].1, eps), rtol, atol)
}

fn with_entry(params: &[Single], i: usize, x: Single) -> (res: Vec<Single>)
    requires
        i < params@.len(),
    ensures
        res@ == params@.update(i as int, x),
{
    let mut v: Vec<Single> = Vec::new();
    let mut k: usize = 0;
    while k < params.len()
        invariant
            k <= params@.len(),
            v@ =~= params@.take(k as int),
        decreases params@.len() - k,
    {
        v.push(params[k]);
        k = k + 1;
    }
    v.set(i, x);
    assert(v@ =~= params@.update(i as int, x));
    v
}

/// Holds a gradient against the differences of a function, parameter by parameter, and
/// says where it first differs. In verified code a function changes nothing that it has
/// captured.
pub fn gradcheck_scalar<F: FnMut(&[Single]) -> Single>(
    forward: &mut F,
    params: &[Single],
    ad_grad: &[Single],
    eps: Single,
    rtol: Single,
    atol: Single,
) -> (res: Result<(), String>)
    requires
        params@.len() == ad_grad@.len(),
        total_on(*old(forward), params@.len()),
    ensures
        *final(forward) == *old(forward),
        exists|values: Seq<(Single, Single)>| #[trigger]
            sampled(*old(forward), params@, eps, values) && (match res {
                Ok(()) => values.len() == params@.len() && forall|i: int|
                    0 <= i < values.len() ==> #[trigger] entry_close(
                        ad_grad@,
                        values,
                        i,
                        eps,
                        rtol,
                        atol,
                    ),
                Err(m) => 0 < values.len() <= params@.len() && (forall|i: int|
                    0 <= i < values.len() - 1 ==> #[trigger] entry_close(
                        ad_grad@,
                        values,
                        i,
                        eps,
                        rtol,
                        atol,
                    )) && !entry_close(ad_grad@, values, values.len() - 1, eps, rtol, atol) && m@
                    == grad_text(
                    (values.len() - 1) as nat,
                    ad_grad@[values.len() - 1],
                    slope(values.last().0, values.last().1, eps),
                ),
            }),
{
    let ghost mut values: Seq<(Single, Single)> = Seq::empty();
    let mut i: usize = 0;
    while i < params.len()
        invariant
            i <= params@.len(),
            params@.len() == ad_grad@.len(),
            *forward == *old(forward),
            total_on(*forward, params@.len()),
            values.len() == i,
            sampled(*forward, params@, eps, values),
            forall|k: int|
                0 <= k < i ==> #[trigger] entry_close(ad_grad@, values, k, eps, rtol, atol),
        decreases params@.len() - i,
    {
        let x: Single = params[i];
        let up = with_entry(params, i, x.add(eps));
        let down = with_entry(params, i, x.sub(eps));
        let above = forward(up.as_slice());
        let below = forward(down.as_slice());
        let ghost before = values;
        proof {
            values = before.push((above, below));
            assert(probed(*forward, params@, i as int, x.add_spec(eps), above));
            assert(probed(*forward, params@, i as int, x.sub_spec(eps), below));
            assert(sampled(*forward, params@, eps, values)) by {
                assert forall|k: int|
                    #![trigger values[k]]
                    0 <= k < values.len() implies probed(
                    *forward,
                    params@,
                    k,
                    params@[k].add_spec(eps),
                    values[k].0,
                ) && probed(*forward, params@, k, params@[k].sub_spec(eps), values[k].1) by {
                    if k < i {
                        assert(values[k] == before[k]);
                    }
                }
            }
            assert forall|k: int| 0 <= k < i implies #[trigger] entry_close(
                ad_grad@,
                values,
                k,
                eps,
                rtol,
                atol,
            ) by {
                assert(values[k] == before[k]);
                assert(entry_close(ad_grad@, before, k, eps, rtol, atol));
            }
        }
        match check_entry(i, ad_grad[i], (above, below), eps, rtol, atol) {
            Some(m) => {
                assert(sampled(*forward, params@, eps, values));
                return Err(m);
            },
            None => {},
        }
        i = i + 1;
    }
    assert(sampled(*forward, params@, eps, values));
    Ok(())
}

// ── double precision ───────────────────────────────────────────────

/// How far a number may lie from `b`.
pub open spec fn envelope_f64(b: Real, rtol: Real, atol: Real) -> Real {
    atol.add_spec(rtol.mul_spec(b.abs_spec()))
}

/// Whether two numbers differ by no more than the envelope.
pub open spec fn close_f64(a: Real, b: Real, rtol: Real, atol: Real) -> bool {
    a.sub_spec(b).abs_spec().at_most(envelope_f64(b, rtol, atol))
}

/// Whether two numbers are close.
pub fn is_close_f64(a: Real, b: Real, rtol: Real, atol: Real) -> (res: bool)
    ensures
        res == close_f64(a, b, rtol, atol),
{
    a.sub(b).abs().le(atol.add(rtol.mul(b.abs())))
}

/// Whether numbers ascend, none of them less than the one before it.
pub open spec fn ascends(xs: Seq<Real>) -> bool {
    &&& forall|i: int| 0 <= i < xs.len() ==> !(#[trigger] xs[i]).nan()
    &&& forall|i: int, j: int|
        0 <= i <= j < xs.len() ==> (#[trigger] xs[i]).rank() <= (#[trigger] xs[j]).rank()
}

/// How many of the first `n` numbers are at most `x`.
pub open spec fn count_at_most(xs: Seq<Real>, x: Real, n: int) -> nat
    decreases n,
{
    if n <= 0 {
        0
    } else {
        count_at_most(xs, x, n - 1) + if xs[n - 1].at_most(x) {
            1nat
        } else {
            0nat
        }
    }
}

/// The value between two points.
pub open spec fn between(x0: Real, y0: Real, x1: Real, y1: Real, x: Real) -> Real {
    y0.add_spec(x.sub_spec(x0).div_spec(x1.sub_spec(x0)).mul_spec(y1.sub_spec(y0)))
}

/// The value of a trace at `x`: that of the nearest end outside its range, that of the last
/// point at `x` where there is one, and on the line between two points elsewhere.
pub open spec fn interpolated(xs: Seq<Real>, ys: Seq<Real>, x: Real) -> Real {
    if x.at_most(xs[0]) {
        ys[0]
    } else if xs.last().at_most(x) {
        ys.last()
    } else {
        let i = count_at_most(xs, x, xs.len() as int) - 1;
        if xs[i].rank() == x.rank() {
            ys[i]
        } else {
            between(xs[i], ys[i], xs[i + 1], ys[i + 1], x)
        }
    }
}

proof fn lemma_count(xs: Seq<Real>, x: Real, k: int, n: int)
    requires
        ascends(xs),
        !x.nan(),
        0 <= k <= n <= xs.len(),
        forall|i: int| 0 <= i < k ==> (#[trigger] xs[i]).rank() <= x.rank(),
        k < n ==> xs[k].rank() > x.rank(),
    ensures
        count_at_most(xs, x, n) == k,
    decreases n,
{
    if n > 0 {
        if k == n {
            lemma_count(xs, x, k - 1, n - 1);
        } else {
            assert(xs[k].rank() <= xs[n - 1].rank());
            lemma_count(xs, x, k, n - 1);
        }
    }
}

/// Finds the value of a trace at `xq`. Where that is not a number, it is that of one of the
/// points.
pub fn lerp(xs: &[Real], ys: &[Real], xq: Real) -> (res: Real)
    requires
        xs@.len() == ys@.len(),
        xs@.len() > 0,
        ascends(xs@),
    ensures
        !xq.nan() ==> res == interpolated(xs@, ys@, xq),
        xq.nan() ==> ys@.contains(res),
{
    let n: usize = xs.len();
    if xq.is_nan() {
        return ys[n - 1];
    }
    if xq.le(xs[0]) {
        return ys[0];
    }
    if xs[n - 1].le(xq) {
        return ys[n - 1];
    }
    let mut low: usize = 0;
    let mut high: usize = n - 1;
    while high - low > 1
        invariant
            0 <= low < high < n,
            n == xs@.len(),
            ascends(xs@),
            !xq.nan(),
            xs@[low as int].rank() <= xq.rank(),
            xq.rank() < xs@[high as int].rank(),
        decreases high - low,
    {
        let mid: usize = low + (high - low) / 2;
        assert(!xs@[mid as int].nan());
        if xs[mid].le(xq) {
            low = mid;
        } else {
            high = mid;
        }
    }
    proof {
        assert(!xs@[low as int].nan() && !xs@[high as int].nan());
        assert forall|i: int| 0 <= i < low + 1 implies (#[trigger] xs@[i]).rank() <= xq.rank() by {
            assert(xs@[i].rank() <= xs@[low as int].rank());
        }
        lemma_count(xs@, xq, low + 1, n as int);
    }
    let (x0, x1): (Real, Real) = (xs[low], xs[high]);
    let (y0, y1): (Real, Real) = (ys[low], ys[high]);
    if xq.le(x0) {
        return y0;
    }
    y0.add(xq.sub(x0).div(x1.sub(x0)).mul(y1.sub(y0)))
}

/// Which of two traces is looked at point by point: the shorter one.
pub open spec fn first_is_shorter(ta: Seq<Real>, tb: Seq<Real>) -> bool {
    ta.len() <= tb.len()
}

/// Where two traces overlap.
pub open spec fn overlap(ta: Seq<Real>, tb: Seq<Real>) -> (Real, Real) {
    (ta[0].max_spec(tb[0]), ta.last().min_spec(tb.last()))
}

/// Whether a time lies outside a range.
pub open spec fn outside(t: Real, range: (Real, Real)) -> bool {
    t.below(range.0) || range.1.below(t)
}

/// Whether the `i`-th point of a trace is close to another trace, or outside their overlap.
pub open spec fn point_close(
    t: Seq<Real>,
    y: Seq<Real>,
    other_t: Seq<Real>,
    other_y: Seq<Real>,
    range: (Real, Real),
    rtol: Real,
    atol: Real,
    i: int,
) -> bool {
    outside(t[i], range) || close_f64(
        y[i],
        interpolated(other_t, other_y, t[i]),
        rtol,
        atol,
    )
}

/// The first point from `i` on of a trace that is not close to another trace.
pub open spec fn first_apart(
    t: Seq<Real>,
    y: Seq<Real>,
    other_t: Seq<Real>,
    other_y: Seq<Real>,
    range: (Real, Real),
    rtol: Real,
    atol: Real,
    i: int,
) -> int
    decreases t.len() - i,
{
    if i < 0 || i >= t.len() || !point_close(t, y, other_t, other_y, range, rtol, atol, i) {
        i
    } else {
        first_apart(t, y, other_t, other_y, range, rtol, atol, i + 1)
    }
}

/// What comes of comparing a trace with another one, point by point.
pub open spec fn compared(
    t: Seq<Real>,
    y: Seq<Real>,
    other_t: Seq<Real>,
    other_y: Seq<Real>,
    range: (Real, Real),
    rtol: Real,
    atol: Real,
) -> Option<(int, Real, Real, Real)> {
    let i = first_apart(t, y, other_t, other_y, range, rtol, atol, 0);
    if i < t.len() {
        Some((i, t[i], y[i], interpolated(other_t, other_y, t[i])))
    } else {
        None
    }
}

pub open spec fn apart_model(res: Result<(), (usize, Real, Real, Real)>) -> Option<
    (int, Real, Real, Real),
> {
    match res {
        Ok(()) => None,
        Err((i, t, a, b)) => Some((i as int, t, a, b)),
    }
}

fn compare(
    t: &[Real],
    y: &[Real],
    other_t: &[Real],
    other_y: &[Real],
    range: (Real, Real),
    rtol: Real,
    atol: Real,
) -> (res: Result<(), (usize, Real, Real, Real)>)
    requires
        t@.len() == y@.len(),
        other_t@.len() == other_y@.len(),
        other_t@.len() > 0,
        ascends(t@),
        ascends(other_t@),
    ensures
        apart_model(res) == compared(t@, y@, other_t@, other_y@, range, rtol, atol),
{
    let mut i: usize = 0;
    while i < t.len()
        invariant
            i <= t@.len(),
            t@.len() == y@.len(),
            other_t@.len() == other_y@.len(),
            other_t@.len() > 0,
            ascends(t@),
            ascends(other_t@),
            first_apart(t@, y@, other_t@, other_y@, range, rtol, atol, 0) == first_apart(
                t@,
                y@,
                other_t@,
                other_y@,
                range,
                rtol,
                atol,
                i as int,
            ),
        decreases t@.len() - i,
    {
        let at: Real = t[i];
        assert(!t@[i as int].nan());
        if !(at.lt(range.0) || range.1.lt(at)) {
            let other = lerp(other_t, other_y, at);
            if !is_close_f64(y[i], other, rtol, atol) {
                return Err((i, at, y[i], other));
            }
        }
        i = i + 1;
    }
    Ok(())
}

/// The first point at which two traces are apart: its number, its time and both values.
pub open spec fn divergence(
    ta: Seq<Real>,
    ya: Seq<Real>,
    tb: Seq<Real>,
    yb: Seq<Real>,
    rtol: Real,
    atol: Real,
) -> Option<(int, Real, Real, Real)> {
    if first_is_shorter(ta, tb) {
        compared(ta, ya, tb, yb, overlap(ta, tb), rtol, atol)
    } else {
        compared(tb, yb, ta, ya, overlap(ta, tb), rtol, atol)
    }
}

/// Compares two traces where they overlap, on the grid of the shorter one.
pub fn traces_close(
    t_a: &[Real],
    y_a: &[Real],
    t_b: &[Real],
    y_b: &[Real],
    rtol: Real,
    atol: Real,
) -> (res: Result<(), (usize, Real, Real, Real)>)
    requires
        t_a@.len() == y_a@.len(),
        t_b@.len() == y_b@.len(),
        t_a@.len() > 0,
        t_b@.len() > 0,
        ascends(t_a@),
        ascends(t_b@),
    ensures
        apart_model(res) == divergence(t_a@, y_a@, t_b@, y_b@, rtol, atol),
{
    let low = t_a[0].max(t_b[0]);
    let high = t_a[t_a.len() - 1].min(t_b[t_b.len() - 1]);
    if t_a.len() <= t_b.len() {
        compare(t_a, y_a, t_b, y_b, (low, high), rtol, atol)
    } else {
        compare(t_b, y_b, t_a, y_a, (low, high), rtol, atol)
    }
}

/// What is said of traces that are apart.
pub open spec fn diverge_text(
    d: (int, Real, Real, Real),
    rtol: Real,
    atol: Real,
    label: Seq<char>,
) -> Seq<char> {
    "["@ + label + "] traces diverge at idx "@ + text::dec(d.0 as nat) + ", t="@
        + numfmt::signed_scientific(d.1, 6) + ":\n  a   = "@ + numfmt::signed_scientific(d.2, 9)
        + "\n  b@t = "@ + numfmt::signed_scientific(d.3, 9) + "\n  |a-b| = "@ + numfmt::scientific(
        d.2.sub_spec(d.3).abs_spec(),
        3,
    ) + "  (envelope = "@ + numfmt::scientific(envelope_f64(d.3, rtol, atol), 3) + ")"@
}

/// What is wrong with two traces, if they are apart.
pub fn traces_fault(
    t_a: &[Real],
    y_a: &[Real],
    t_b: &[Real],
    y_b: &[Real],
    rtol: Real,
    atol: Real,
    label: &str,
) -> (res: Option<String>)
    requires
        t_a@.len() == y_a@.len(),
        t_b@.len() == y_b@.len(),
        t_a@.len() > 0,
        t_b@.len() > 0,
        ascends(t_a@),
        ascends(t_b@),
    ensures
        match res {
            None => divergence(t_a@, y_a@, t_b@, y_b@, rtol, atol) is None,
            Some(m) => divergence(t_a@, y_a@, t_b@, y_b@, rtol, atol) is Some && m@
                == diverge_text(
                divergence(t_a@, y_a@, t_b@, y_b@, rtol, atol)->0,
                rtol,
                atol,
                label@,
            ),
        },
{
    match traces_close(t_a, y_a, t_b, y_b, rtol, atol) {
        Ok(()) => None,
        Err((i, t, a, b)) => {
            let mut s = "[".to_owned();
            s.append(label);
            s.append("] traces diverge at idx ");
            s.append(text::usize_to_string(i).as_str());
            s.append(", t=");
            s.append(numfmt::to_signed_scientific(t, 6).as_str());
            s.append(":\n  a   = ");
            s.append(numfmt::to_signed_scientific(a, 9).as_str());
            s.append("\n  b@t = ");
            s.append(numfmt::to_signed_scientific(b, 9).as_str());
            s.append("\n  |a-b| = ");
            s.append(numfmt::to_scientific(a.sub(b).abs(), 3).as_str());
            s.append("  (envelope = ");
            s.append(numfmt::to_scientific(atol.add(rtol.mul(b.abs())), 3).as_str());
            s.append(")");
            Some(s)
        },
    }
}

/// Outside its range a trace stays at its ends.
pub proof fn ends_are_kept(xs: Seq<Real>, ys: Seq<Real>, x: Real)
    requires
        xs.len() == ys.len(),
        xs.len() > 0,
        ascends(xs),
        !x.nan(),
    ensures
        x.rank() <= xs[0].rank() ==> interpolated(xs, ys, x) == ys[0],
        xs[0].rank() < x.rank() && xs.last().rank() <= x.rank() ==> interpolated(xs, ys, x)
            == ys.last(),
{
    assert(!xs[0].nan());
    assert(!xs[xs.len() - 1].nan());
}

/// A trace goes through its points, where no two are at the same place.
pub proof fn points_are_kept(xs: Seq<Real>, ys: Seq<Real>, k: int)
    requires
        xs.len() == ys.len(),
        ascends(xs),
        0 <= k < xs.len(),
        forall|i: int, j: int|
            0 <= i < j < xs.len() ==> (#[trigger] xs[i]).rank() < (#[trigger] xs[j]).rank(),
    ensures
        interpolated(xs, ys, xs[k]) == ys[k],
{
    assert(!xs[0].nan());
    assert(!xs[k].nan());
    assert(!xs[xs.len() - 1].nan());
    if 0 < k < xs.len() - 1 {
        assert(xs[0].rank() < xs[k].rank());
        assert(xs[k].rank() < xs[xs.len() - 1].rank());
        assert(xs[k].rank() < xs[k + 1].rank());
        lemma_count(xs, xs[k], k + 1, xs.len() as int);
    } else if k > 0 {
        assert(xs[0].rank() < xs[k].rank());
    }
}

/// Between two neighbouring points at different places a trace is on the line through
/// them.
pub proof fn lines_join_points(xs: Seq<Real>, ys: Seq<Real>, x: Real, k: int)
    requires
        xs.len() == ys.len(),
        ascends(xs),
        !x.nan(),
        0 <= k < xs.len() - 1,
        xs[k].rank() < x.rank() < xs[k + 1].rank(),
    ensures
        interpolated(xs, ys, x) == ys[k].add_spec(
            x.sub_spec(xs[k]).div_spec(xs[k + 1].sub_spec(xs[k])).mul_spec(
                ys[k + 1].sub_spec(ys[k]),
            ),
        ),
{
    assert(!xs[0].nan() && !xs[k].nan() && !xs[k + 1].nan() && !xs[xs.len() - 1].nan());
    assert(xs[0].rank() <= xs[k].rank());
    assert(xs[k + 1].rank() <= xs[xs.len() - 1].rank());
    lemma_count(xs, x, k + 1, xs.len() as int);
}

/// Whether a time is neither before the first nor behind the last time of either of two
/// traces.
pub open spec fn in_both(t: Real, ta: Seq<Real>, tb: Seq<Real>) -> bool {
    &&& ta[0].rank() <= t.rank() <= ta.last().rank()
    &&& tb[0].rank() <= t.rank() <= tb.last().rank()
}

/// A time is outside the overlap of two traces exactly where it is before the first or
/// behind the last time of one of them.
pub proof fn overlap_is_what_both_cover(t: Real, ta: Seq<Real>, tb: Seq<Real>)
    requires
        ta.len() > 0,
        tb.len() > 0,
        ascends(ta),
        ascends(tb),
        !t.nan(),
    ensures
        outside(t, overlap(ta, tb)) <==> !in_both(t, ta, tb),
{
    assert(!ta[0].nan() && !ta[ta.len() - 1].nan());
    assert(!tb[0].nan() && !tb[tb.len() - 1].nan());
}

proof fn lemma_first_apart(
    t: Seq<Real>,
    y: Seq<Real>,
    other_t: Seq<Real>,
    other_y: Seq<Real>,
    range: (Real, Real),
    rtol: Real,
    atol: Real,
    i: int,
)
    requires
        0 <= i <= t.len(),
    ensures
        ({
            let k = first_apart(t, y, other_t, other_y, range, rtol, atol, i);
            &&& i <= k <= t.len()
            &&& k < t.len() ==> !point_close(t, y, other_t, other_y, range, rtol, atol, k)
            &&& forall|j: int|
                i <= j < k ==> #[trigger] point_close(
                    t,
                    y,
                    other_t,
                    other_y,
                    range,
                    rtol,
                    atol,
                    j,
                )
        }),
    decreases t.len() - i,
{
    if i < t.len() && point_close(t, y, other_t, other_y, range, rtol, atol, i) {
        lemma_first_apart(t, y, other_t, other_y, range, rtol, atol, i + 1);
    }
}

/// Whether a point of a trace lies within what both traces cover and differs from the
/// other trace there by more than `atol` and `rtol` of its value.
pub open spec fn differs_at(
    t: Seq<Real>,
    y: Seq<Real>,
    other_t: Seq<Real>,
    other_y: Seq<Real>,
    rtol: Real,
    atol: Real,
    i: int,
) -> bool {
    let b = interpolated(other_t, other_y, t[i]);
    &&& in_both(t[i], t, other_t)
    &&& !y[i].sub_spec(b).abs_spec().at_most(atol.add_spec(rtol.mul_spec(b.abs_spec())))
}

/// Two traces are apart at the first time of the one with fewer points that both cover
/// and at which they differ by more than the tolerances allow. Points before the start or
/// behind the end of either never set them apart.
pub proof fn traces_part_at_common_times(
    ta: Seq<Real>,
    ya: Seq<Real>,
    tb: Seq<Real>,
    yb: Seq<Real>,
    rtol: Real,
    atol: Real,
)
    requires
        ta.len() == ya.len(),
        tb.len() == yb.len(),
        ta.len() > 0,
        tb.len() > 0,
        ascends(ta),
        ascends(tb),
    ensures
        ({
            let (t, y, ot, oy) = if ta.len() <= tb.len() {
                (ta, ya, tb, yb)
            } else {
                (tb, yb, ta, ya)
            };
            match divergence(ta, ya, tb, yb, rtol, atol) {
                None => forall|j: int|
                    0 <= j < t.len() ==> !#[trigger] differs_at(t, y, ot, oy, rtol, atol, j),
                Some((i, at, a, b)) => {
                    &&& 0 <= i < t.len()
                    &&& at == t[i] && a == y[i] && b == interpolated(ot, oy, t[i])
                    &&& differs_at(t, y, ot, oy, rtol, atol, i)
                    &&& forall|j: int|
                        0 <= j < i ==> !#[trigger] differs_at(t, y, ot, oy, rtol, atol, j)
                },
            }
        }),
{
    let (t, y, ot, oy) = if ta.len() <= tb.len() {
        (ta, ya, tb, yb)
    } else {
        (tb, yb, ta, ya)
    };
    let range = overlap(ta, tb);
    lemma_first_apart(t, y, ot, oy, range, rtol, atol, 0);
    assert forall|j: int| 0 <= j < t.len() implies #[trigger] differs_at(
        t,
        y,
        ot,
        oy,
        rtol,
        atol,
        j,
    ) == !point_close(t, y, ot, oy, range, rtol, atol, j) by {
        assert(!t[j].nan());
        overlap_is_what_both_cover(t[j], ta, tb);
    }
    let k = first_apart(t, y, ot, oy, range, rtol, atol, 0);
    assert forall|j: int| 0 <= j < k implies !#[trigger] differs_at(
        t,
        y,
        ot,
        oy,
        rtol,
        atol,
        j,
    ) by {
        assert(point_close(t, y, ot, oy, range, rtol, atol, j));
    }
}

/// Two numbers are close where they differ by no more than the absolute tolerance and the
/// relative one times the size of the second. So it matters which is the second.
pub proof fn closeness_is_relative_to_the_second(
    a: Single,
    b: Single,
    rtol: Single,
    atol: Single,
    x: Real,
    y: Real,
    r: Real,
    t: Real,
)
    ensures
        close(a, b, rtol, atol) <==> a.sub_spec(b).abs_spec().at_most(
            atol.add_spec(rtol.mul_spec(b.abs_spec())),
        ),
        close_f64(x, y, r, t) <==> x.sub_spec(y).abs_spec().at_most(
            t.add_spec(r.mul_spec(y.abs_spec())),
        ),
        close(a, b, rtol, atol) ==> !a.sub_spec(b).abs_spec().nan(),
        close_f64(x, y, r, t) ==> !x.sub_spec(y).abs_spec().nan(),
{
}

} // verus!
