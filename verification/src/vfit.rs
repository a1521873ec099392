//! Vector fitting: a sum of poles through samples of a frequency response. Sines, cosines,
//! logarithms and exponentials are computed by the caller.

use crate::algebra::Algebra;
use crate::complex::{C64, ONE_BITS};
use crate::double::Real;
use crate::lstsq;
use crate::numfmt;
use crate::text;
use vstd::prelude::*;
use vstd::string::*;

verus! {

/// 1e-300: a distance of roots below it counts as zero.
pub const DENOM_BITS: u64 = 0x01a5_6e1f_c2f8_f359;

/// 1e-12: roots that move by less have converged.
pub const CONVERGED_BITS: u64 = 0x3d71_9799_812d_ea11;

/// 1e-6.
pub const MIN_DECAY_BITS: u64 = 0x3eb0_c6f7_a0b5_ed8d;

/// 0.4.
pub const OFFSET_BITS: u64 = 0x3fd9_9999_9999_999a;

/// 0.9.
pub const RADIUS_BITS: u64 = 0x3fec_cccc_cccc_cccd;

/// Twice the ratio of a circle's circumference to its diameter.
pub const TAU_BITS: u64 = 0x4019_21fb_5444_2d18;

/// How to fit.
#[derive(Debug, Clone, Copy)]
pub struct VfitOptions {
    /// How often poles are moved.
    pub n_iters: usize,
    /// Whether the model has a constant term.
    pub asymptotic_d: bool,
    /// Whether the model has a term that grows with frequency.
    pub asymptotic_e: bool,
    /// Whether poles are kept in the left half-plane.
    pub enforce_stability: bool,
    /// How often roots are moved, at most.
    pub root_finder_iters: usize,
    /// How far poles are kept from the imaginary axis.
    pub min_decay_rate: Real,
}

impl Default for VfitOptions {
    fn default() -> (res: Self)
        ensures
            res.n_iters == 5,
            res.asymptotic_d,
            !res.asymptotic_e,
            res.enforce_stability,
            res.root_finder_iters == 200,
            res.min_decay_rate == (Real { bits: MIN_DECAY_BITS }),
    {
        VfitOptions {
            n_iters: 5,
            asymptotic_d: true,
            asymptotic_e: false,
            enforce_stability: true,
            root_finder_iters: 200,
            min_decay_rate: Real { bits: MIN_DECAY_BITS },
        }
    }
}

/// A model and how well it fits.
#[derive(Debug)]
pub struct VfitResult {
    pub poles: Vec<C64>,
    pub residues: Vec<C64>,
    pub d: Real,
    pub e: Real,
    /// The root of the mean square of what the model is off by.
    pub rms_error: Real,
}

/// Why there is no fit.
#[derive(Debug, Clone, Copy)]
pub enum VfitError {
    DimensionMismatch { freqs: usize, response: usize },
    NoPoles,
    SingularLstsq,
    /// With how far roots moved last.
    RootFinderDiverged { last_max_dx: Real },
}

impl VfitError {
    pub open spec fn text(self) -> Seq<char> {
        match self {
            VfitError::DimensionMismatch { freqs, response } => "freqs ("@ + text::dec(
                freqs as nat,
            ) + ") != response ("@ + text::dec(response as nat) + ")"@,
            VfitError::NoPoles => "initial pole list is empty"@,
            VfitError::SingularLstsq => "least-squares normal equations singular"@,
            VfitError::RootFinderDiverged { last_max_dx } => "Durand–Kerner did not converge (last max |Δroot| = "@
                + numfmt::shortest_scientific(last_max_dx) + ")"@,
        }
    }

    /// Human-readable form of the error.
    pub fn message(&self) -> (res: String)
        ensures
            res@ == self.text(),
    {
        match self {
            VfitError::DimensionMismatch { freqs, response } => {
                let mut s = "freqs (".to_owned();
                s.append(text::usize_to_string(*freqs).as_str());
                s.append(") != response (");
                s.append(text::usize_to_string(*response).as_str());
                s.append(")");
                s
            },
            VfitError::NoPoles => "initial pole list is empty".to_owned(),
            VfitError::SingularLstsq => "least-squares normal equations singular".to_owned(),
            VfitError::RootFinderDiverged { last_max_dx } => {
                let mut s = "Durand–Kerner did not converge (last max |Δroot| = ".to_owned();
                s.append(numfmt::to_shortest_scientific(*last_max_dx).as_str());
                s.append(")");
                s
            },
        }
    }
}

pub open spec fn shorter(a: nat, b: nat) -> nat {
    if a < b {
        a
    } else {
        b
    }
}

// ── models ─────────────────────────────────────────────────────────

/// An angular frequency on the imaginary axis.
pub open spec fn on_axis(omega: Real) -> C64 {
    C64 { re: Real { bits: 0 }, im: omega }
}

/// Angular frequencies on the imaginary axis.
pub open spec fn axis(freqs: Seq<Real>) -> Seq<C64> {
    freqs.map_values(|w: Real| on_axis(w))
}

fn axis_point(omega: Real) -> (res: C64)
    ensures
        res == on_axis(omega),
{
    C64 { re: Real { bits: 0 }, im: omega }
}

/// The value of a model with the first `n` poles at a frequency.
pub open spec fn model_at(
    omega: Real,
    poles: Seq<C64>,
    residues: Seq<C64>,
    d: Real,
    e: Real,
    n: int,
) -> C64
    decreases n,
{
    let s = on_axis(omega);
    if n <= 0 {
        (C64 { re: d, im: Real { bits: 0 } }).add_spec(s.scale_spec(e))
    } else {
        model_at(omega, poles, residues, d, e, n - 1).add_spec(
            residues[n - 1].div_spec(s.sub_spec(poles[n - 1])),
        )
    }
}

/// The value of a model at a frequency.
pub open spec fn model(omega: Real, poles: Seq<C64>, residues: Seq<C64>, d: Real, e: Real) -> C64 {
    model_at(omega, poles, residues, d, e, shorter(poles.len(), residues.len()) as int)
}

/// Evaluates a model at a frequency.
pub fn eval_model(omega: Real, poles: &[C64], residues: &[C64], d: Real, e: Real) -> (res: C64)
    ensures
        res == model(omega, poles@, residues@, d, e),
{
    let s = axis_point(omega);
    let n: usize = if poles.len() < residues.len() {
        poles.len()
    } else {
        residues.len()
    };
    let mut acc = C64::new(d, Real { bits: 0 }).add(s.scale(e));
    let mut k: usize = 0;
    while k < n
        invariant
            k <= n,
            n <= poles@.len(),
            n <= residues@.len(),
            s == on_axis(omega),
            acc == model_at(omega, poles@, residues@, d, e, k as int),
        decreases n - k,
    {
        acc = acc.add(residues[k].div(s.sub(poles[k])));
        k = k + 1;
    }
    acc
}

/// The sum of the squares of what a model is off by at the first `n` samples.
pub open spec fn squares_off(
    freqs: Seq<Real>,
    response: Seq<C64>,
    poles: Seq<C64>,
    residues: Seq<C64>,
    d: Real,
    e: Real,
    n: int,
) -> Real
    decreases n,
{
    if n <= 0 {
        Real { bits: 0 }
    } else {
        squares_off(freqs, response, poles, residues, d, e, n - 1).add_spec(
            response[n - 1].sub_spec(
                model(freqs[n - 1], poles, residues, d, e),
            ).norm_sqr_spec(),
        )
    }
}

/// The root of the mean square of what a model is off by.
pub open spec fn rms_off(
    freqs: Seq<Real>,
    response: Seq<C64>,
    poles: Seq<C64>,
    residues: Seq<C64>,
    d: Real,
    e: Real,
) -> Real {
    squares_off(freqs, response, poles, residues, d, e, freqs.len() as int).div_spec(
        Real::of_nat(freqs.len()),
    ).sqrt_spec()
}

fn rms_error(
    freqs: &[Real],
    response: &[C64],
    poles: &[C64],
    residues: &[C64],
    d: Real,
    e: Real,
) -> (res: Real)
    requires
        freqs@.len() == response@.len(),
    ensures
        res == rms_off(freqs@, response@, poles@, residues@, d, e),
{
    let mut acc = Real { bits: 0 };
    let mut k: usize = 0;
    while k < freqs.len()
        invariant
            k <= freqs@.len(),
            freqs@.len() == response@.len(),
            acc == squares_off(freqs@, response@, poles@, residues@, d, e, k as int),
        decreases freqs@.len() - k,
    {
        let fit = eval_model(freqs[k], poles, residues, d, e);
        acc = acc.add(response[k].sub(fit).norm_sqr());
        k = k + 1;
    }
    acc.div(Real::from_u64(freqs.len() as u64)).sqrt()
}

// ── residues of known poles ────────────────────────────────────────

/// What each pole adds at `s`.
pub open spec fn pole_terms<F: Algebra>(s: F, poles: Seq<F>) -> Seq<F> {
    poles.map_values(|p: F| s.less(p).inverse())
}

/// What all terms of a model add at `s`.
pub open spec fn basis_row<F: Algebra>(s: F, poles: Seq<F>, d: bool, e: bool) -> Seq<F> {
    pole_terms(s, poles) + (if d {
        seq![F::unit()]
    } else {
        Seq::empty()
    }) + (if e {
        seq![s]
    } else {
        Seq::empty()
    })
}

/// How many terms a model has.
pub open spec fn terms(k: nat, d: bool, e: bool) -> nat {
    k + (if d {
        1nat
    } else {
        0nat
    }) + (if e {
        1nat
    } else {
        0nat
    })
}

fn terms_of_poles(omega: Real, poles: &[C64]) -> (res: Vec<C64>)
    ensures
        res@ == pole_terms(on_axis(omega), poles@),
{
    let s = axis_point(omega);
    let ghost all = pole_terms(on_axis(omega), poles@);
    let mut v: Vec<C64> = Vec::new();
    let mut k: usize = 0;
    while k < poles.len()
        invariant
            k <= poles@.len(),
            s == on_axis(omega),
            all == pole_terms(on_axis(omega), poles@),
            v@ =~= all.take(k as int),
        decreases poles@.len() - k,
    {
        v.push(s.sub(poles[k]).recip());
        k = k + 1;
    }
    assert(v@ =~= all);
    v
}

fn build_basis_row(omega: Real, poles: &[C64], d: bool, e: bool) -> (res: Vec<C64>)
    ensures
        res@ == basis_row(on_axis(omega), poles@, d, e),
        res@.len() == terms(poles@.len(), d, e),
{
    let mut v = terms_of_poles(omega, poles);
    if d {
        v.push(C64::one());
    }
    if e {
        v.push(axis_point(omega));
    }
    assert(v@ =~= basis_row(on_axis(omega), poles@, d, e));
    v
}

/// The system whose solution is the residues.
pub open spec fn basis<F: Algebra>(ss: Seq<F>, poles: Seq<F>, d: bool, e: bool) -> Seq<Seq<F>> {
    ss.map_values(|s: F| basis_row(s, poles, d, e))
}

fn build_basis(freqs: &[Real], poles: &[C64], d: bool, e: bool) -> (res: Vec<Vec<C64>>)
    ensures
        lstsq::rows_of(res@) == basis(axis(freqs@), poles@, d, e),
        lstsq::is_table(lstsq::rows_of(res@), res@.len(), terms(poles@.len(), d, e)),
        res@.len() == freqs@.len(),
{
    let ghost all = basis(axis(freqs@), poles@, d, e);
    let mut out: Vec<Vec<C64>> = Vec::new();
    let mut n: usize = 0;
    while n < freqs.len()
        invariant
            n <= freqs@.len(),
            all == basis(axis(freqs@), poles@, d, e),
            lstsq::rows_of(out@) =~= all.take(n as int),
            lstsq::is_table(lstsq::rows_of(out@), n as nat, terms(poles@.len(), d, e)),
        decreases freqs@.len() - n,
    {
        let ghost before = out@;
        let row = build_basis_row(freqs[n], poles, d, e);
        out.push(row);
        assert(lstsq::rows_of(out@) =~= lstsq::rows_of(before).push(row@));
        n = n + 1;
    }
    assert(all.take(freqs@.len() as int) =~= all);
    assert(lstsq::rows_of(out@).len() == out@.len());
    out
}

fn copied(v: &[C64], n: usize) -> (res: Vec<C64>)
    requires
        n <= v@.len(),
    ensures
        res@ == v@.take(n as int),
{
    let mut out: Vec<C64> = Vec::new();
    let mut i: usize = 0;
    while i < n
        invariant
            i <= n,
            n <= v@.len(),
            out@ =~= v@.take(i as int),
        decreases n - i,
    {
        out.push(v[i]);
        i = i + 1;
    }
    out
}

/// The residues and the two other terms in the solution of the system.
pub open spec fn parts<F: Algebra>(x: Seq<F>, k: nat, d: bool, e: bool) -> (Seq<F>, F, F) {
    (
        x.take(k as int),
        if d {
            x[k as int]
        } else {
            F::nought()
        },
        if e {
            x[if d {
                (k + 1) as int
            } else {
                k as int
            }]
        } else {
            F::nought()
        },
    )
}

/// The residues of known poles and the two other terms that fit a response best; none where
/// the system is singular.
pub open spec fn best_parts<F: Algebra>(
    ss: Seq<F>,
    response: Seq<F>,
    poles: Seq<F>,
    d: bool,
    e: bool,
) -> Option<(Seq<F>, F, F)> {
    match lstsq::solution(
        lstsq::normal_equations(basis(ss, poles, d, e), response, terms(poles.len(), d, e)),
    ) {
        None => None,
        Some(x) => Some(parts(x, poles.len(), d, e)),
    }
}

/// What fitting residues comes to.
#[verifier::opaque]
pub open spec fn residue_fit(
    freqs: Seq<Real>,
    response: Seq<C64>,
    poles: Seq<C64>,
    d: bool,
    e: bool,
) -> Result<(Seq<C64>, Real, Real, Real), VfitError> {
    if freqs.len() != response.len() {
        Err(
            VfitError::DimensionMismatch {
                freqs: freqs.len() as usize,
                response: response.len() as usize,
            },
        )
    } else if poles.len() == 0 && !d && !e {
        Err(VfitError::NoPoles)
    } else {
        match best_parts(axis(freqs), response, poles, d, e) {
            None => Err(VfitError::SingularLstsq),
            Some((r, vd, ve)) => Ok(
                (r, vd.re, ve.re, rms_off(freqs, response, poles, r, vd.re, ve.re)),
            ),
        }
    }
}

pub open spec fn fit_model(res: Result<(Vec<C64>, Real, Real, Real), VfitError>) -> Result<
    (Seq<C64>, Real, Real, Real),
    VfitError,
> {
    match res {
        Ok((r, d, e, rms)) => Ok((r@, d, e, rms)),
        Err(x) => Err(x),
    }
}

/// Fits the residues of known poles, one for each, and the terms asked for. The sizes of the
/// system must be numbers.
pub fn fit_residues(
    freqs_rad: &[Real],
    response: &[C64],
    poles: &[C64],
    asymptotic_d: bool,
    asymptotic_e: bool,
) -> (res: Result<(Vec<C64>, Real, Real, Real), VfitError>)
    requires
        poles@.len() + 2 <= usize::MAX,
    ensures
        fit_model(res) == residue_fit(freqs_rad@, response@, poles@, asymptotic_d, asymptotic_e),
        res matches Ok(f) ==> f.0@.len() == poles@.len(),
{
    proof {
        reveal(residue_fit);
    }
    if freqs_rad.len() != response.len() {
        return Err(
            VfitError::DimensionMismatch { freqs: freqs_rad.len(), response: response.len() },
        );
    }
    if poles.len() == 0 && !asymptotic_d && !asymptotic_e {
        return Err(VfitError::NoPoles);
    }
    let k: usize = poles.len();
    let mut w: usize = k;
    if asymptotic_d {
        w = w + 1;
    }
    if asymptotic_e {
        w = w + 1;
    }
    let a = build_basis(freqs_rad, poles, asymptotic_d, asymptotic_e);
    let b = copied(response, response.len());
    assert(b@ =~= response@);
    let x: Vec<C64> = match lstsq::solve_complex_lstsq(&a, &b, w) {
        None => {
            return Err(VfitError::SingularLstsq);
        },
        Some(x) => x,
    };
    let residues = copied(x.as_slice(), k);
    let d = if asymptotic_d {
        x[k].re
    } else {
        Real { bits: 0 }
    };
    let e = if asymptotic_e {
        if asymptotic_d {
            x[k + 1].re
        } else {
            x[k].re
        }
    } else {
        Real { bits: 0 }
    };
    let rms = rms_error(freqs_rad, response, poles, residues.as_slice(), d, e);
    Ok((residues, d, e, rms))
}

// ── where poles move ───────────────────────────────────────────────

/// A polynomial, highest power first, times `s - p`.
#[verifier::opaque]
pub open spec fn times_root<F: Algebra>(c: Seq<F>, p: F) -> Seq<F> {
    let zero = F::nought();
    Seq::new(
        c.len() + 1,
        |i: int|
            {
                let low = if i == 0 {
                    zero
                } else {
                    zero.less(p.times(c[i - 1]))
                };
                if i < c.len() {
                    low.plus(c[i])
                } else {
                    low
                }
            },
    )
}

/// The product of `s - p` over the first `n` poles but the one at `skip`.
pub open spec fn root_product<F: Algebra>(poles: Seq<F>, skip: int, n: int) -> Seq<F>
    decreases n,
{
    if n <= 0 {
        seq![F::unit()]
    } else if n - 1 == skip {
        root_product(poles, skip, n - 1)
    } else {
        times_root(root_product(poles, skip, n - 1), poles[n - 1])
    }
}

/// The coefficient at `i` of the sum over the first `n` poles of their weight times the
/// product without them.
pub open spec fn weighted_sum<F: Algebra>(poles: Seq<F>, sigma: Seq<F>, i: int, n: int) -> F
    decreases n,
{
    if n <= 0 {
        F::nought()
    } else {
        weighted_sum(poles, sigma, i, n - 1).plus(
            sigma[n - 1].times(root_product(poles, n - 1, poles.len() as int)[i]),
        )
    }
}

/// The polynomial whose roots are the zeros of one plus the sum of weights over `s - p`,
/// highest power first.
pub open spec fn sigma_polynomial<F: Algebra>(poles: Seq<F>, sigma: Seq<F>) -> Seq<F> {
    let k = poles.len() as int;
    let prod = root_product(poles, -1, k);
    Seq::new(
        poles.len() + 1,
        |i: int|
            if i == 0 {
                prod[0]
            } else {
                prod[i].plus(weighted_sum(poles, sigma, i - 1, k))
            },
    )
}

fn multiply_root(c: &Vec<Real>, p: Real) -> (res: Vec<Real>)
    ensures
        res@ == times_root(c@, p),
        res@.len() == c@.len() + 1,
{
    proof {
        reveal(times_root);
    }
    let zero = Real { bits: 0 };
    let ghost all = times_root(c@, p);
    let n: usize = c.len();
    let mut out: Vec<Real> = Vec::new();
    let mut i: usize = 0;
    while i < n
        invariant
            i <= n,
            n == c@.len(),
            zero == (Real { bits: 0 }),
            all == times_root(c@, p),
            out@ =~= all.take(i as int),
        decreases n - i,
    {
        proof {
            reveal(times_root);
        }
        let low = if i == 0 {
            zero
        } else {
            zero.sub(p.mul(c[i - 1]))
        };
        out.push(low.add(c[i]));
        i = i + 1;
    }
    let last = if n == 0 {
        zero
    } else {
        zero.sub(p.mul(c[n - 1]))
    };
    out.push(last);
    assert(out@ =~= all);
    out
}

proof fn lemma_product_length<F: Algebra>(poles: Seq<F>, skip: int, n: int)
    requires
        0 <= n,
    ensures
        root_product(poles, skip, n).len() == (if 0 <= skip < n {
            n
        } else {
            n + 1
        }),
    decreases n,
{
    reveal(times_root);
    if n > 0 {
        lemma_product_length(poles, skip, n - 1);
    }
}

/// The product of all poles but one; of all where `skip` is none of them.
fn product_without(poles: &Vec<Real>, skip: Option<usize>) -> (res: Vec<Real>)
    ensures
        res@ == root_product(
            poles@,
            match skip {
                Some(j) => j as int,
                None => -1,
            },
            poles@.len() as int,
        ),
{
    let ghost at = match skip {
        Some(j) => j as int,
        None => -1,
    };
    let mut c: Vec<Real> = Vec::new();
    c.push(Real { bits: ONE_BITS });
    assert(c@ =~= seq![Real { bits: ONE_BITS }]);
    let mut i: usize = 0;
    while i < poles.len()
        invariant
            i <= poles@.len(),
            at == (match skip {
                Some(j) => j as int,
                None => -1,
            }),
            c@ == root_product(poles@, at, i as int),
        decreases poles@.len() - i,
    {
        let left_out: bool = match skip {
            Some(j) => j == i,
            None => false,
        };
        if !left_out {
            c = multiply_root(&c, poles[i]);
        }
        i = i + 1;
    }
    c
}

fn sum_of_products(poles: &Vec<Real>, sigma: &Vec<Real>) -> (res: Vec<Real>)
    requires
        poles@.len() == sigma@.len(),
    ensures
        res@ == Seq::new(
            poles@.len(),
            |i: int| weighted_sum(poles@, sigma@, i, poles@.len() as int),
        ),
{
    let k: usize = poles.len();
    let mut sums: Vec<Real> = Vec::new();
    let mut z: usize = 0;
    while z < k
        invariant
            z <= k,
            sums@ =~= Seq::new(z as nat, |i: int| weighted_sum(poles@, sigma@, i, 0)),
        decreases k - z,
    {
        sums.push(Real { bits: 0 });
        z = z + 1;
    }
    let mut j: usize = 0;
    while j < k
        invariant
            j <= k,
            k == poles@.len(),
            k == sigma@.len(),
            sums@ =~= Seq::new(k as nat, |i: int| weighted_sum(poles@, sigma@, i, j as int)),
        decreases k - j,
    {
        let p = product_without(poles, Some(j));
        proof {
            lemma_product_length(poles@, j as int, k as int);
        }
        let ghost before = sums@;
        let mut i: usize = 0;
        while i < k
            invariant
                i <= k,
                j < k,
                k == poles@.len(),
                k == sigma@.len(),
                p@.len() == k,
                p@ == root_product(poles@, j as int, k as int),
                sums@.len() == k,
                before =~= Seq::new(k as nat, |i: int| weighted_sum(poles@, sigma@, i, j as int)),
                forall|q: int|
                    #![trigger sums@[q]]
                    0 <= q < k ==> sums@[q] == (if q < i {
                        weighted_sum(poles@, sigma@, q, j + 1)
                    } else {
                        before[q]
                    }),
            decreases k - i,
        {
            let s: Real = sums[i].add(sigma[j].mul(p[i]));
            sums.set(i, s);
            i = i + 1;
        }
        j = j + 1;
    }
    sums
}

fn sigma_zero_polynomial(poles: &Vec<Real>, sigma: &Vec<Real>) -> (res: Vec<Real>)
    requires
        poles@.len() == sigma@.len(),
    ensures
        res@ == sigma_polynomial(poles@, sigma@),
        res@.len() == poles@.len() + 1,
{
    let prod = product_without(poles, None);
    let sums = sum_of_products(poles, sigma);
    proof {
        lemma_product_length(poles@, -1, poles@.len() as int);
    }
    let ghost all = sigma_polynomial(poles@, sigma@);
    let mut out: Vec<Real> = Vec::new();
    out.push(prod[0]);
    let mut i: usize = 0;
    while i < sums.len()
        invariant
            i <= sums@.len(),
            sums@.len() == poles@.len(),
            prod@ == root_product(poles@, -1, poles@.len() as int),
            prod@.len() == poles@.len() + 1,
            sums@ == Seq::new(
                poles@.len(),
                |i: int| weighted_sum(poles@, sigma@, i, poles@.len() as int),
            ),
            all == sigma_polynomial(poles@, sigma@),
            out@ =~= all.take(i + 1),
        decreases sums@.len() - i,
    {
        out.push(prod[i + 1].add(sums[i]));
        i = i + 1;
    }
    assert(all.take(poles@.len() as int + 1) =~= all);
    out
}

// ── roots ──────────────────────────────────────────────────────────

/// A polynomial with leading coefficient one.
pub open spec fn monic(c: Seq<Real>) -> Seq<C64> {
    c.map_values(|x: Real| C64 { re: x.div_spec(c[0]), im: Real { bits: 0 } })
}

/// The value of the first `n` coefficients of a polynomial.
#[verifier::opaque]
pub open spec fn value_at<F: Algebra>(a: Seq<F>, x: F, n: int) -> F
    decreases n,
{
    if n <= 0 {
        F::nought()
    } else {
        value_at(a, x, n - 1).times(x).plus(a[n - 1])
    }
}

/// The product of the distances of the `i`-th root to the first `n` others.
pub open spec fn distances<F: Algebra>(roots: Seq<F>, i: int, n: int) -> F
    decreases n,
{
    if n <= 0 {
        F::unit()
    } else if n - 1 == i {
        distances(roots, i, n - 1)
    } else {
        distances(roots, i, n - 1).times(roots[i].less(roots[n - 1]))
    }
}

/// Roots, and how far one of them has moved at most.
#[verifier::ext_equal]
pub struct Sweep {
    pub roots: Seq<C64>,
    pub moved: Real,
}

/// One root moved, unless it meets another.
pub open spec fn moved_root(a: Seq<C64>, s: Sweep, i: int) -> Sweep {
    let denom = distances(s.roots, i, s.roots.len() as int);
    if denom.norm_spec().below(Real { bits: DENOM_BITS }) {
        s
    } else {
        let dx = value_at(a, s.roots[i], a.len() as int).div_spec(denom);
        Sweep {
            roots: s.roots.update(i, s.roots[i].sub_spec(dx)),
            moved: s.moved.max_spec(dx.norm_spec()),
        }
    }
}

/// The first `n` roots moved in turn.
pub open spec fn swept(a: Seq<C64>, roots: Seq<C64>, n: int) -> Sweep
    decreases n,
{
    if n <= 0 {
        Sweep { roots, moved: Real { bits: 0 } }
    } else {
        moved_root(a, swept(a, roots, n - 1), n - 1)
    }
}

/// The roots after at most `left` sweeps, if they come to rest; else how far one moved last.
pub open spec fn settled(a: Seq<C64>, roots: Seq<C64>, left: nat, last: Real) -> Result<
    Seq<C64>,
    Real,
>
    decreases left,
{
    if left == 0 {
        Err(last)
    } else {
        let s = swept(a, roots, roots.len() as int);
        if s.moved.below(Real { bits: CONVERGED_BITS }) {
            Ok(s.roots)
        } else {
            settled(a, s.roots, (left - 1) as nat, s.moved)
        }
    }
}

/// Infinity, for before the first sweep.
pub open spec fn infinity() -> Real {
    Real { bits: crate::double::INF_BITS }
}

/// Roots of a polynomial, highest power first, from first guesses.
pub open spec fn roots_of(c: Seq<Real>, guesses: Seq<C64>, iters: nat) -> Result<Seq<C64>, Real> {
    if c.len() <= 1 {
        Ok(Seq::empty())
    } else {
        settled(monic(c), guesses, iters, infinity())
    }
}

/// The angle of the `i`-th of `n` first guesses.
pub open spec fn angle(i: nat, n: nat) -> Real {
    (Real { bits: TAU_BITS }).mul_spec(
        Real::of_nat(i).add_spec(Real { bits: OFFSET_BITS }),
    ).div_spec(Real::of_nat(n))
}

/// Computes the angle of the `i`-th of `n` first guesses.
pub fn guess_angle(i: usize, n: usize) -> (res: Real)
    ensures
        res == angle(i as nat, n as nat),
{
    (Real { bits: TAU_BITS }).mul(
        Real::from_u64(i as u64).add(Real { bits: OFFSET_BITS }),
    ).div(Real::from_u64(n as u64))
}

/// The first guess for an angle, given its cosine and its sine.
pub open spec fn guess(turn: (Real, Real)) -> C64 {
    C64 {
        re: (Real { bits: OFFSET_BITS }).add_spec((Real { bits: RADIUS_BITS }).mul_spec(turn.0)),
        im: (Real { bits: RADIUS_BITS }).mul_spec(turn.1),
    }
}

pub open spec fn guesses(turns: Seq<(Real, Real)>) -> Seq<C64> {
    turns.map_values(|t: (Real, Real)| guess(t))
}

fn first_guesses(turns: &[(Real, Real)]) -> (res: Vec<C64>)
    ensures
        res@ == guesses(turns@),
{
    let ghost all = guesses(turns@);
    let mut out: Vec<C64> = Vec::new();
    let mut i: usize = 0;
    while i < turns.len()
        invariant
            i <= turns@.len(),
            all == guesses(turns@),
            out@ =~= all.take(i as int),
        decreases turns@.len() - i,
    {
        let (c, s): (Real, Real) = turns[i];
        let re = (Real { bits: OFFSET_BITS }).add((Real { bits: RADIUS_BITS }).mul(c));
        let im = (Real { bits: RADIUS_BITS }).mul(s);
        out.push(C64::new(re, im));
        i = i + 1;
    }
    assert(out@ =~= all);
    out
}

fn make_monic(c: &Vec<Real>) -> (res: Vec<C64>)
    requires
        c@.len() > 0,
    ensures
        res@ == monic(c@),
{
    let ghost all = monic(c@);
    let mut out: Vec<C64> = Vec::new();
    let mut i: usize = 0;
    while i < c.len()
        invariant
            0 < c@.len(),
            i <= c@.len(),
            all == monic(c@),
            out@ =~= all.take(i as int),
        decreases c@.len() - i,
    {
        out.push(C64::new(c[i].div(c[0]), Real { bits: 0 }));
        i = i + 1;
    }
    assert(out@ =~= all);
    out
}

fn evaluate(a: &Vec<C64>, x: C64) -> (res: C64)
    ensures
        res == value_at(a@, x, a@.len() as int),
{
    proof {
        reveal(value_at);
    }
    let mut v = C64::zero();
    let mut i: usize = 0;
    while i < a.len()
        invariant
            i <= a@.len(),
            v == value_at(a@, x, i as int),
        decreases a@.len() - i,
    {
        proof {
            reveal(value_at);
        }
        v = v.mul(x).add(a[i]);
        i = i + 1;
    }
    v
}

fn distances_from(roots: &Vec<C64>, i: usize) -> (res: C64)
    requires
        i < roots@.len(),
    ensures
        res == distances(roots@, i as int, roots@.len() as int),
{
    let mut d = C64::one();
    let mut j: usize = 0;
    while j < roots.len()
        invariant
            j <= roots@.len(),
            i < roots@.len(),
            d == distances(roots@, i as int, j as int),
        decreases roots@.len() - j,
    {
        if j != i {
            d = d.mul(roots[i].sub(roots[j]));
        }
        j = j + 1;
    }
    d
}

fn sweep(a: &Vec<C64>, roots: &mut Vec<C64>) -> (moved: Real)
    ensures
        (Sweep { roots: final(roots)@, moved }) == swept(
            a@,
            old(roots)@,
            old(roots)@.len() as int,
        ),
        final(roots)@.len() == old(roots)@.len(),
{
    let ghost first = roots@;
    let n: usize = roots.len();
    let mut most = Real { bits: 0 };
    let mut i: usize = 0;
    while i < n
        invariant
            i <= n,
            n == first.len(),
            roots@.len() == n,
            (Sweep { roots: roots@, moved: most }) == swept(a@, first, i as int),
        decreases n - i,
    {
        let denom = distances_from(roots, i);
        let ghost before = Sweep { roots: roots@, moved: most };
        if !denom.norm().lt(Real { bits: DENOM_BITS }) {
            let x: C64 = roots[i];
            let dx = evaluate(a, x).div(denom);
            roots.set(i, x.sub(dx));
            most = most.max(dx.norm());
        }
        assert((Sweep { roots: roots@, moved: most }) =~= moved_root(a@, before, i as int));
        i = i + 1;
    }
    most
}

fn durand_kerner(c: &Vec<Real>, guess: &Vec<C64>, iters: usize) -> (res: Result<Vec<C64>, Real>)
    requires
        c@.len() > 0,
        guess@.len() == c@.len() - 1,
    ensures
        match res {
            Ok(r) => roots_of(c@, guess@, iters as nat) == Ok::<Seq<C64>, Real>(r@) && r@.len()
                == guess@.len(),
            Err(x) => roots_of(c@, guess@, iters as nat) == Err::<Seq<C64>, Real>(x),
        },
{
    let mut roots = copied(guess.as_slice(), guess.len());
    assert(roots@ =~= guess@);
    if c.len() == 1 {
        assert(roots@ =~= Seq::empty());
        return Ok(roots);
    }
    let a = make_monic(c);
    let mut last = Real { bits: crate::double::INF_BITS };
    let mut t: usize = 0;
    while t < iters
        invariant
            t <= iters,
            roots@.len() == guess@.len(),
            a@ == monic(c@),
            c@.len() > 1,
            roots_of(c@, guess@, iters as nat) == settled(
                a@,
                roots@,
                (iters - t) as nat,
                last,
            ),
        decreases iters - t,
    {
        let moved = sweep(&a, &mut roots);
        if moved.lt(Real { bits: CONVERGED_BITS }) {
            return Ok(roots);
        }
        last = moved;
        t = t + 1;
    }
    Err(last)
}

// ── fitting ────────────────────────────────────────────────────────

/// A pole from a root: its real part, moved to the left half-plane and away from the
/// imaginary axis where that is asked for.
pub open spec fn relocated(root: C64, stable: bool, min_decay: Real) -> C64 {
    let zero = Real { bits: 0 };
    let re = if stable && zero.below(root.re) {
        root.re.neg_spec()
    } else {
        root.re
    };
    C64 {
        re: if stable && re.abs_spec().below(min_decay) {
            min_decay.neg_spec()
        } else {
            re
        },
        im: zero,
    }
}

/// Moves a root to where a pole may be.
pub fn relocate(root: C64, stable: bool, min_decay: Real) -> (res: C64)
    ensures
        res == relocated(root, stable, min_decay),
{
    let zero = Real { bits: 0 };
    let mut re = root.re;
    if stable && zero.lt(re) {
        re = re.neg();
    }
    if stable && re.abs().lt(min_decay) {
        re = min_decay.neg();
    }
    C64::new(re, zero)
}

/// Poles are in the left half-plane, at least as far from the imaginary axis as asked for.
pub proof fn poles_are_stable(root: C64, min_decay: Real)
    requires
        !root.re.nan(),
        !min_decay.nan(),
        min_decay.rank() > 0,
    ensures
        relocated(root, true, min_decay).re.rank() <= -min_decay.rank(),
        relocated(root, true, min_decay).im.rank() == 0,
{
}

/// One equation for poles and weights: that the weighted response is the model.
pub open spec fn relocation_row<F: Algebra>(
    s: F,
    h: F,
    poles: Seq<F>,
    d: bool,
    e: bool,
) -> Seq<F> {
    basis_row(s, poles, d, e) + pole_terms(s, poles).map_values(|x: F| x.times(h).opposite())
}

pub open spec fn relocation_system<F: Algebra>(
    ss: Seq<F>,
    response: Seq<F>,
    poles: Seq<F>,
    d: bool,
    e: bool,
) -> Seq<Seq<F>> {
    Seq::new(ss.len(), |n: int| relocation_row(ss[n], response[n], poles, d, e))
}

/// The weights with which a response times one plus their sum over `s - p` is best fitted
/// by the poles and the two other terms; none where the system is singular.
pub open spec fn best_weights<F: Algebra>(
    ss: Seq<F>,
    response: Seq<F>,
    poles: Seq<F>,
    d: bool,
    e: bool,
) -> Option<Seq<F>> {
    let w = terms(poles.len(), d, e) + poles.len();
    match lstsq::solution(
        lstsq::normal_equations(relocation_system(ss, response, poles, d, e), response, w),
    ) {
        None => None,
        Some(x) => Some(x.skip(w - poles.len())),
    }
}

fn build_relocation_row(omega: Real, h: C64, poles: &[C64], d: bool, e: bool) -> (res: Vec<C64>)
    ensures
        res@ == relocation_row(on_axis(omega), h, poles@, d, e),
        res@.len() == terms(poles@.len(), d, e) + poles@.len(),
{
    let mut row = build_basis_row(omega, poles, d, e);
    let xs = terms_of_poles(omega, poles);
    let ghost head = row@;
    let ghost tail = pole_terms(on_axis(omega), poles@).map_values(
        |x: C64| x.mul_spec(h).neg_spec(),
    );
    let mut i: usize = 0;
    while i < xs.len()
        invariant
            i <= xs@.len(),
            xs@ == pole_terms(on_axis(omega), poles@),
            tail == pole_terms(on_axis(omega), poles@).map_values(|x: C64| x.mul_spec(h).neg_spec()),
            row@ =~= head + tail.take(i as int),
        decreases xs@.len() - i,
    {
        row.push(xs[i].mul(h).neg());
        i = i + 1;
    }
    assert(row@ =~= relocation_row(on_axis(omega), h, poles@, d, e));
    row
}

fn build_relocation_system(
    freqs: &[Real],
    response: &[C64],
    poles: &[C64],
    d: bool,
    e: bool,
) -> (res: Vec<Vec<C64>>)
    requires
        freqs@.len() == response@.len(),
    ensures
        lstsq::rows_of(res@) == relocation_system(axis(freqs@), response@, poles@, d, e),
        lstsq::is_table(
            lstsq::rows_of(res@),
            res@.len(),
            terms(poles@.len(), d, e) + poles@.len(),
        ),
        res@.len() == freqs@.len(),
{
    let ghost all = relocation_system(axis(freqs@), response@, poles@, d, e);
    let mut out: Vec<Vec<C64>> = Vec::new();
    let mut n: usize = 0;
    while n < freqs.len()
        invariant
            n <= freqs@.len(),
            freqs@.len() == response@.len(),
            all == relocation_system(axis(freqs@), response@, poles@, d, e),
            lstsq::rows_of(out@) =~= all.take(n as int),
            lstsq::is_table(
                lstsq::rows_of(out@),
                n as nat,
                terms(poles@.len(), d, e) + poles@.len(),
            ),
        decreases freqs@.len() - n,
    {
        let ghost before = out@;
        let row = build_relocation_row(freqs[n], response[n], poles, d, e);
        out.push(row);
        assert(lstsq::rows_of(out@) =~= lstsq::rows_of(before).push(row@));
        n = n + 1;
    }
    assert(all.take(freqs@.len() as int) =~= all);
    assert(lstsq::rows_of(out@).len() == out@.len());
    out
}

/// The real parts of some numbers.
pub open spec fn real_parts(v: Seq<C64>) -> Seq<Real> {
    v.map_values(|c: C64| c.re)
}

fn take_real_parts(v: &[C64], from: usize) -> (res: Vec<Real>)
    requires
        from <= v@.len(),
    ensures
        res@ == real_parts(v@.skip(from as int)),
{
    let ghost all = real_parts(v@.skip(from as int));
    let mut out: Vec<Real> = Vec::new();
    let mut i: usize = from;
    while i < v.len()
        invariant
            from <= i <= v@.len(),
            all == real_parts(v@.skip(from as int)),
            out@ =~= all.take(i - from),
        decreases v@.len() - i,
    {
        out.push(v[i].re);
        i = i + 1;
    }
    assert(out@ =~= all);
    out
}

/// The poles after one move.
#[verifier::opaque]
pub open spec fn moved_poles(
    freqs: Seq<Real>,
    response: Seq<C64>,
    poles: Seq<C64>,
    opt: VfitOptions,
    turns: Seq<(Real, Real)>,
) -> Result<Seq<C64>, VfitError> {
    let (d, e) = (opt.asymptotic_d, opt.asymptotic_e);
    match best_weights(axis(freqs), response, poles, d, e) {
        None => Err(VfitError::SingularLstsq),
        Some(sigma) => match roots_of(
            sigma_polynomial(real_parts(poles), real_parts(sigma)),
            guesses(turns),
            opt.root_finder_iters as nat,
        ) {
            Err(last_max_dx) => Err(VfitError::RootFinderDiverged { last_max_dx }),
            Ok(roots) => Ok(
                roots.map_values(
                    |r: C64| relocated(r, opt.enforce_stability, opt.min_decay_rate),
                ),
            ),
        },
    }
}

/// The poles after the first `n` moves.
pub open spec fn poles_after(
    freqs: Seq<Real>,
    response: Seq<C64>,
    poles: Seq<C64>,
    opt: VfitOptions,
    turns: Seq<(Real, Real)>,
    n: nat,
) -> Result<Seq<C64>, VfitError>
    decreases n,
{
    if n == 0 {
        Ok(poles)
    } else {
        match poles_after(freqs, response, poles, opt, turns, (n - 1) as nat) {
            Err(x) => Err(x),
            Ok(p) => moved_poles(freqs, response, p, opt, turns),
        }
    }
}

pub open spec fn poles_model(res: Result<Vec<C64>, VfitError>) -> Result<Seq<C64>, VfitError> {
    match res {
        Ok(p) => Ok(p@),
        Err(x) => Err(x),
    }
}

fn relocate_all(roots: &Vec<C64>, opt: &VfitOptions) -> (res: Vec<C64>)
    ensures
        res@ == roots@.map_values(
            |r: C64| relocated(r, opt.enforce_stability, opt.min_decay_rate),
        ),
{
    let ghost all = roots@.map_values(
        |r: C64| relocated(r, opt.enforce_stability, opt.min_decay_rate),
    );
    let mut out: Vec<C64> = Vec::new();
    let mut i: usize = 0;
    while i < roots.len()
        invariant
            i <= roots@.len(),
            all == roots@.map_values(
                |r: C64| relocated(r, opt.enforce_stability, opt.min_decay_rate),
            ),
            out@ =~= all.take(i as int),
        decreases roots@.len() - i,
    {
        out.push(relocate(roots[i], opt.enforce_stability, opt.min_decay_rate));
        i = i + 1;
    }
    assert(out@ =~= all);
    out
}

#[verifier::rlimit(60)]
#[verifier::spinoff_prover]
fn move_poles(
    freqs: &[Real],
    response: &[C64],
    poles: &Vec<C64>,
    opt: &VfitOptions,
    turns: &[(Real, Real)],
) -> (res: Result<Vec<C64>, VfitError>)
    requires
        freqs@.len() == response@.len(),
        2 * poles@.len() + 2 <= usize::MAX,
        turns@.len() == poles@.len(),
    ensures
        poles_model(res) == moved_poles(freqs@, response@, poles@, *opt, turns@),
        res matches Ok(p) ==> p@.len() == poles@.len(),
{
    proof {
        reveal(moved_poles);
    }
    let k: usize = poles.len();
    let mut w: usize = 2 * k;
    if opt.asymptotic_d {
        w = w + 1;
    }
    if opt.asymptotic_e {
        w = w + 1;
    }
    let a = build_relocation_system(
        freqs,
        response,
        poles.as_slice(),
        opt.asymptotic_d,
        opt.asymptotic_e,
    );
    let b = copied(response, response.len());
    assert(b@ =~= response@);
    let x: Vec<C64> = match lstsq::solve_complex_lstsq(&a, &b, w) {
        None => {
            return Err(VfitError::SingularLstsq);
        },
        Some(x) => x,
    };
    let sigma = take_real_parts(x.as_slice(), w - k);
    let re = take_real_parts(poles.as_slice(), 0);
    assert(poles@.skip(0) =~= poles@);
    let c = sigma_zero_polynomial(&re, &sigma);
    let guess = first_guesses(turns);
    match durand_kerner(&c, &guess, opt.root_finder_iters) {
        Err(last_max_dx) => Err(VfitError::RootFinderDiverged { last_max_dx }),
        Ok(roots) => Ok(relocate_all(&roots, opt)),
    }
}

/// What a fit comes to.
pub open spec fn fitted(
    freqs: Seq<Real>,
    response: Seq<C64>,
    poles: Seq<C64>,
    opt: VfitOptions,
    turns: Seq<(Real, Real)>,
) -> Result<(Seq<C64>, (Seq<C64>, Real, Real, Real)), VfitError> {
    if freqs.len() != response.len() {
        Err(
            VfitError::DimensionMismatch {
                freqs: freqs.len() as usize,
                response: response.len() as usize,
            },
        )
    } else if poles.len() == 0 {
        Err(VfitError::NoPoles)
    } else {
        match poles_after(freqs, response, poles, opt, turns, opt.n_iters as nat) {
            Err(x) => Err(x),
            Ok(p) => match residue_fit(freqs, response, p, opt.asymptotic_d, opt.asymptotic_e) {
                Err(x) => Err(x),
                Ok(f) => Ok((p, f)),
            },
        }
    }
}

pub open spec fn result_model(res: Result<VfitResult, VfitError>) -> Result<
    (Seq<C64>, (Seq<C64>, Real, Real, Real)),
    VfitError,
> {
    match res {
        Ok(r) => Ok((r.poles@, (r.residues@, r.d, r.e, r.rms_error))),
        Err(x) => Err(x),
    }
}

proof fn lemma_poles_stop(
    freqs: Seq<Real>,
    response: Seq<C64>,
    poles: Seq<C64>,
    opt: VfitOptions,
    turns: Seq<(Real, Real)>,
    k: nat,
    n: nat,
)
    requires
        k <= n,
        poles_after(freqs, response, poles, opt, turns, k) is Err,
    ensures
        poles_after(freqs, response, poles, opt, turns, n) == poles_after(
            freqs,
            response,
            poles,
            opt,
            turns,
            k,
        ),
    decreases n,
{
    if k < n {
        lemma_poles_stop(freqs, response, poles, opt, turns, k, (n - 1) as nat);
    }
}

/// Fits a model: poles are moved from where they are at first, and residues fitted to where
/// they end up. `turns` are the cosines and sines of the angles of the first guesses, one for
/// each pole.
pub fn vector_fit(
    freqs_rad: &[Real],
    response: &[C64],
    initial_poles: &[C64],
    opt: VfitOptions,
    turns: &[(Real, Real)],
) -> (res: Result<VfitResult, VfitError>)
    requires
        2 * initial_poles@.len() + 2 <= usize::MAX,
        turns@.len() == initial_poles@.len(),
    ensures
        result_model(res) == fitted(freqs_rad@, response@, initial_poles@, opt, turns@),
        res matches Ok(r) ==> r.poles@.len() == initial_poles@.len() && r.residues@.len()
            == initial_poles@.len(),
{
    if freqs_rad.len() != response.len() {
        return Err(
            VfitError::DimensionMismatch { freqs: freqs_rad.len(), response: response.len() },
        );
    }
    if initial_poles.len() == 0 {
        return Err(VfitError::NoPoles);
    }
    let mut poles = copied(initial_poles, initial_poles.len());
    assert(poles@ =~= initial_poles@);
    let mut t: usize = 0;
    while t < opt.n_iters
        invariant
            t <= opt.n_iters,
            freqs_rad@.len() == response@.len(),
            initial_poles@.len() > 0,
            2 * initial_poles@.len() + 2 <= usize::MAX,
            turns@.len() == initial_poles@.len(),
            poles@.len() == initial_poles@.len(),
            poles_after(freqs_rad@, response@, initial_poles@, opt, turns@, t as nat) == Ok::<
                Seq<C64>,
                VfitError,
            >(poles@),
        decreases opt.n_iters - t,
    {
        match move_poles(freqs_rad, response, &poles, &opt, turns) {
            Err(x) => {
                proof {
                    lemma_poles_stop(
                        freqs_rad@,
                        response@,
                        initial_poles@,
                        opt,
                        turns@,
                        (t + 1) as nat,
                        opt.n_iters as nat,
                    );
                }
                return Err(x);
            },
            Ok(p) => {
                poles = p;
            },
        }
        t = t + 1;
    }
    match fit_residues(
        freqs_rad,
        response,
        poles.as_slice(),
        opt.asymptotic_d,
        opt.asymptotic_e,
    ) {
        Err(x) => Err(x),
        Ok((residues, d, e, rms_error)) => Ok(VfitResult { poles, residues, d, e, rms_error }),
    }
}

// ── first poles ────────────────────────────────────────────────────

/// Where the logarithm of the `i`-th of `k` poles lies between two logarithms.
pub open spec fn log_place(lmin: Real, lmax: Real, i: nat, k: nat) -> Real {
    lmin.add_spec(
        lmax.sub_spec(lmin).mul_spec(
            Real::of_nat(i).div_spec(Real::of_nat(k).sub_spec(Real { bits: ONE_BITS })),
        ),
    )
}

/// Computes where the logarithm of the `i`-th of `k` poles lies between two logarithms.
pub fn log_position(lmin: Real, lmax: Real, i: usize, k: usize) -> (res: Real)
    ensures
        res == log_place(lmin, lmax, i as nat, k as nat),
{
    let t = Real::from_u64(i as u64).div(
        Real::from_u64(k as u64).sub(Real { bits: ONE_BITS }),
    );
    lmin.add(lmax.sub(lmin).mul(t))
}

/// Poles on the negative real axis: one in the middle where only one is asked for, else one
/// for each of the rates given.
pub open spec fn first_poles(omega_min: Real, omega_max: Real, k: nat, rates: Seq<Real>) -> Seq<
    C64,
> {
    let zero = Real { bits: 0 };
    if k == 1 {
        seq![
            C64 { re: omega_min.mul_spec(omega_max).sqrt_spec().neg_spec(), im: zero },
        ]
    } else {
        Seq::new(k, |i: int| C64 { re: rates[i].neg_spec(), im: zero })
    }
}

/// Lists `k` poles between two rates. `rates` are the exponentials of where their logarithms
/// lie.
pub fn log_spaced_real_poles(
    omega_min: Real,
    omega_max: Real,
    k: usize,
    rates: &[Real],
) -> (res: Vec<C64>)
    requires
        k >= 2 ==> rates@.len() >= k,
    ensures
        res@ == first_poles(omega_min, omega_max, k as nat, rates@),
{
    let zero = Real { bits: 0 };
    let mut out: Vec<C64> = Vec::new();
    if k == 1 {
        out.push(C64::new(omega_min.mul(omega_max).sqrt().neg(), zero));
        assert(out@ =~= first_poles(omega_min, omega_max, 1, rates@));
        return out;
    }
    let ghost all = first_poles(omega_min, omega_max, k as nat, rates@);
    let mut i: usize = 0;
    while i < k
        invariant
            i <= k,
            k != 1,
            k >= 2 ==> rates@.len() >= k,
            zero == (Real { bits: 0 }),
            all == first_poles(omega_min, omega_max, k as nat, rates@),
            out@ =~= all.take(i as int),
        decreases k - i,
    {
        out.push(C64::new(rates[i].neg(), zero));
        i = i + 1;
    }
    assert(out@ =~= all);
    out
}

// ── laws ───────────────────────────────────────────────────────────

/// How a move of poles comes about: a least-squares system, its solution, the columns whose
/// factors are the weights, the weights, and the roots that poles move to.
#[verifier::ext_equal]
pub struct Move {
    pub system: Seq<Seq<C64>>,
    pub found: Seq<C64>,
    pub columns: Seq<int>,
    pub weights: Seq<Real>,
    pub roots: Seq<C64>,
}

proof fn lemma_weight_column(
    freqs: Seq<Real>,
    response: Seq<C64>,
    poles: Seq<C64>,
    d: bool,
    e: bool,
    n: int,
    k: int,
)
    requires
        freqs.len() == response.len(),
        0 <= n < freqs.len(),
        0 <= k < poles.len(),
    ensures
        relocation_system(axis(freqs), response, poles, d, e)[n][terms(poles.len(), d, e) + k]
            == on_axis(freqs[n]).sub_spec(poles[k]).recip_spec().mul_spec(
            response[n],
        ).neg_spec(),
{
    let s = axis(freqs)[n];
    let h = response[n];
    let head = basis_row(s, poles, d, e);
    let tail = pole_terms(s, poles).map_values(|x: C64| x.times(h).opposite());
    assert(relocation_row(s, h, poles, d, e) == head + tail);
    assert(head.len() == terms(poles.len(), d, e));
    assert((head + tail)[head.len() + k] == tail[k]);
}

/// Poles move to the roots of the polynomial of their weights. The weight of a pole is the
/// real part of the factor of that column of the system which holds, at every frequency,
/// the response over the distance from that pole with its sign changed, whatever other
/// columns there are. Without a bound on where poles may be, their real parts are kept.
#[verifier::rlimit(60)]
#[verifier::spinoff_prover]
pub proof fn weights_are_the_factors_of_their_columns(
    freqs: Seq<Real>,
    response: Seq<C64>,
    poles: Seq<C64>,
    opt: VfitOptions,
    turns: Seq<(Real, Real)>,
) -> (m: Move)
    requires
        freqs.len() == response.len(),
        moved_poles(freqs, response, poles, opt, turns) is Ok,
    ensures
        m.system.len() == freqs.len(),
        lstsq::solution(lstsq::normal_equations(m.system, response, m.found.len())) == Some(
            m.found,
        ),
        m.columns.len() == poles.len(),
        m.weights.len() == poles.len(),
        forall|k: int|
            #![trigger m.columns[k]]
            0 <= k < poles.len() ==> 0 <= m.columns[k] < m.found.len() && m.weights[k]
                == m.found[m.columns[k]].re,
        forall|n: int, k: int|
            #![trigger m.system[n][m.columns[k]]]
            0 <= n < freqs.len() && 0 <= k < poles.len() ==> m.system[n][m.columns[k]] == (C64 {
                re: Real { bits: 0 },
                im: freqs[n],
            }).sub_spec(poles[k]).recip_spec().mul_spec(response[n]).neg_spec(),
        roots_of(
            sigma_polynomial(poles.map_values(|p: C64| p.re), m.weights),
            guesses(turns),
            opt.root_finder_iters as nat,
        ) == Ok::<Seq<C64>, Real>(m.roots),
        ({
            let moved = moved_poles(freqs, response, poles, opt, turns)->Ok_0;
            &&& moved.len() == m.roots.len()
            &&& forall|k: int|
                #![trigger moved[k]]
                0 <= k < moved.len() ==> moved[k].im.rank() == 0 && (!opt.enforce_stability
                    ==> moved[k].re == m.roots[k].re)
        }),
{
    reveal(moved_poles);
    let (d, e) = (opt.asymptotic_d, opt.asymptotic_e);
    let t = terms(poles.len(), d, e);
    let w = t + poles.len();
    let system = relocation_system(axis(freqs), response, poles, d, e);
    let found = lstsq::solution(lstsq::normal_equations(system, response, w))->0;
    let columns = Seq::new(poles.len(), |k: int| t + k);
    let weights = real_parts(found.skip(w - poles.len()));
    let roots = roots_of(
        sigma_polynomial(real_parts(poles), weights),
        guesses(turns),
        opt.root_finder_iters as nat,
    )->Ok_0;
    assert(found.len() == w);
    assert forall|n: int, k: int|
        #![trigger system[n][columns[k]]]
        0 <= n < freqs.len() && 0 <= k < poles.len() implies system[n][columns[k]] == (C64 {
        re: Real { bits: 0 },
        im: freqs[n],
    }).sub_spec(poles[k]).recip_spec().mul_spec(response[n]).neg_spec() by {
        lemma_weight_column(freqs, response, poles, d, e, n, k);
    }
    Move { system, found, columns, weights, roots }
}

/// The residues of a fit are the factors of the columns that hold one over the distance from
/// their poles; the constant is that of the column of ones, and the growing term that of the
/// column of the frequencies. Terms that are not asked for are zero.
pub proof fn residues_are_the_factors_of_their_columns(
    freqs: Seq<Real>,
    response: Seq<C64>,
    poles: Seq<C64>,
    d: bool,
    e: bool,
) -> (res: (Seq<Seq<C64>>, Seq<C64>, int, int))
    requires
        residue_fit(freqs, response, poles, d, e) is Ok,
    ensures
        ({
            let (system, found, at_d, at_e) = res;
            let (r, vd, ve, _) = residue_fit(freqs, response, poles, d, e)->Ok_0;
            &&& freqs.len() == response.len()
            &&& system.len() == freqs.len()
            &&& lstsq::solution(lstsq::normal_equations(system, response, found.len())) == Some(
                found,
            )
            &&& r.len() == poles.len()
            &&& forall|k: int| #![trigger r[k]] 0 <= k < poles.len() ==> r[k] == found[k]
            &&& forall|n: int, k: int|
                #![trigger system[n][k]]
                0 <= n < freqs.len() && 0 <= k < poles.len() ==> system[n][k] == (C64 {
                    re: Real { bits: 0 },
                    im: freqs[n],
                }).sub_spec(poles[k]).recip_spec()
            &&& !d ==> vd == (Real { bits: 0 })
            &&& d ==> vd == found[at_d].re && forall|n: int|
                #![trigger system[n]]
                0 <= n < freqs.len() ==> system[n][at_d] == (C64 {
                    re: Real { bits: ONE_BITS },
                    im: Real { bits: 0 },
                })
            &&& !e ==> ve == (Real { bits: 0 })
            &&& e ==> ve == found[at_e].re && forall|n: int|
                #![trigger system[n]]
                0 <= n < freqs.len() ==> system[n][at_e] == (C64 {
                    re: Real { bits: 0 },
                    im: freqs[n],
                })
        }),
{
    reveal(residue_fit);
    let k = poles.len() as int;
    let w = terms(poles.len(), d, e);
    let system = basis(axis(freqs), poles, d, e);
    let found = lstsq::solution(lstsq::normal_equations(system, response, w))->0;
    assert(found.len() == w);
    assert forall|n: int| #![trigger system[n]] 0 <= n < freqs.len() implies system[n]
        == basis_row(on_axis(freqs[n]), poles, d, e) by {
        assert(axis(freqs)[n] == on_axis(freqs[n]));
    }
    (system, found, k, w - 1)
}

/// Each fit starts where the one before it left off: after one more round, poles are where
/// one move takes those of the rounds before. None is done without rounds.
pub proof fn rounds_follow_each_other(
    freqs: Seq<Real>,
    response: Seq<C64>,
    poles: Seq<C64>,
    opt: VfitOptions,
    turns: Seq<(Real, Real)>,
    p: Seq<C64>,
)
    requires
        freqs.len() == response.len(),
        poles.len() > 0,
        moved_poles(freqs, response, poles, opt, turns) == Ok::<Seq<C64>, VfitError>(p),
        p.len() > 0,
        opt.n_iters > 0,
    ensures
        fitted(freqs, response, poles, opt, turns) == fitted(
            freqs,
            response,
            p,
            (VfitOptions { n_iters: (opt.n_iters - 1) as usize, ..opt }),
            turns,
        ),
        ({
            let still = VfitOptions { n_iters: 0, ..opt };
            fitted(freqs, response, poles, still, turns) matches Ok(f) ==> f.0 == poles
        }),
{
    lemma_rounds(freqs, response, poles, opt, turns, p, opt.n_iters as nat);
}

proof fn lemma_rounds(
    freqs: Seq<Real>,
    response: Seq<C64>,
    poles: Seq<C64>,
    opt: VfitOptions,
    turns: Seq<(Real, Real)>,
    p: Seq<C64>,
    n: nat,
)
    requires
        moved_poles(freqs, response, poles, opt, turns) == Ok::<Seq<C64>, VfitError>(p),
        n > 0,
    ensures
        ({
            let less = VfitOptions { n_iters: (opt.n_iters - 1) as usize, ..opt };
            poles_after(freqs, response, poles, opt, turns, n) == poles_after(
                freqs,
                response,
                p,
                less,
                turns,
                (n - 1) as nat,
            )
        }),
    decreases n,
{
    let less = VfitOptions { n_iters: (opt.n_iters - 1) as usize, ..opt };
    reveal_with_fuel(poles_after, 2);
    assert forall|q: Seq<C64>| #[trigger]
        moved_poles(freqs, response, q, less, turns) == moved_poles(
        freqs,
        response,
        q,
        opt,
        turns,
    ) by {
        reveal(moved_poles);
    }
    if n > 1 {
        lemma_rounds(freqs, response, poles, opt, turns, p, (n - 1) as nat);
    }
}

/// A model with one more pole is that without it and its residue over the distance from it;
/// without poles it is the constant and the growing term.
pub proof fn models_add_up(
    omega: Real,
    poles: Seq<C64>,
    residues: Seq<C64>,
    d: Real,
    e: Real,
    p: C64,
    r: C64,
)
    requires
        poles.len() == residues.len(),
    ensures
        ({
            let s = C64 { re: Real { bits: 0 }, im: omega };
            &&& model(omega, poles.push(p), residues.push(r), d, e) == model(
                omega,
                poles,
                residues,
                d,
                e,
            ).add_spec(r.div_spec(s.sub_spec(p)))
            &&& model(omega, Seq::empty(), Seq::empty(), d, e) == (C64 {
                re: d,
                im: Real { bits: 0 },
            }).add_spec(s.scale_spec(e))
        }),
{
    lemma_same_model(
        omega,
        poles,
        residues,
        poles.push(p),
        residues.push(r),
        d,
        e,
        poles.len() as int,
    );
}

proof fn lemma_same_model(
    omega: Real,
    poles: Seq<C64>,
    residues: Seq<C64>,
    more: Seq<C64>,
    with: Seq<C64>,
    d: Real,
    e: Real,
    n: int,
)
    requires
        forall|i: int| 0 <= i < n ==> #[trigger] poles[i] == more[i],
        forall|i: int| 0 <= i < n ==> #[trigger] residues[i] == with[i],
    ensures
        model_at(omega, poles, residues, d, e, n) == model_at(omega, more, with, d, e, n),
    decreases n,
{
    if n > 0 {
        lemma_same_model(omega, poles, residues, more, with, d, e, n - 1);
        assert(poles[n - 1] == more[n - 1] && residues[n - 1] == with[n - 1]);
    }
}

/// The first poles are real and as many as asked for: each is its rate with the sign changed,
/// and a single one the root of the product of both bounds with the sign changed.
pub proof fn first_poles_are_rates(min: Real, max: Real, k: nat, rates: Seq<Real>, i: int)
    requires
        0 <= i < k,
    ensures
        first_poles(min, max, k, rates).len() == k,
        first_poles(min, max, k, rates)[i].im.rank() == 0,
        k == 1 ==> first_poles(min, max, k, rates)[0].re == min.mul_spec(
            max,
        ).sqrt_spec().neg_spec(),
        k != 1 ==> first_poles(min, max, k, rates)[i].re == rates[i].neg_spec(),
{
}

} // verus!
