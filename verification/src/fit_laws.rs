//! What solving systems and fitting responses come to in exact arithmetic: systems are
//! solved, least squares leave nothing that a column could still explain, and a response
//! that a model meets exactly gives that model back.

use crate::algebra::Algebra;
use crate::lstsq;
use crate::vfit;
use vstd::prelude::*;

verus! {

// ── sums of products ───────────────────────────────────────────────

/// The sum of the products of the first `n` entries.
pub open spec fn dot(a: Seq<real>, x: Seq<real>, n: int) -> real
    decreases n,
{
    if n <= 0 {
        0 as real
    } else {
        dot(a, x, n - 1) + a[n - 1] * x[n - 1]
    }
}

proof fn lemma_dot_same(a: Seq<real>, x: Seq<real>, b: Seq<real>, y: Seq<real>, n: int)
    requires
        forall|i: int| 0 <= i < n ==> #[trigger] a[i] == b[i],
        forall|i: int| 0 <= i < n ==> #[trigger] x[i] == y[i],
    ensures
        dot(a, x, n) == dot(b, y, n),
    decreases n,
{
    if n > 0 {
        lemma_dot_same(a, x, b, y, n - 1);
        assert(a[n - 1] == b[n - 1] && x[n - 1] == y[n - 1]);
    }
}

proof fn lemma_dot_joined(a: Seq<real>, b: Seq<real>, x: Seq<real>, n: int)
    requires
        0 <= n <= b.len(),
        x.len() == a.len() + b.len(),
    ensures
        dot(a + b, x, a.len() + n) == dot(a, x, a.len() as int) + dot(
            b,
            x.skip(a.len() as int),
            n,
        ),
    decreases n,
{
    let k = a.len() as int;
    if n == 0 {
        lemma_dot_same(a + b, x, a, x, k);
    } else {
        lemma_dot_joined(a, b, x, n - 1);
        assert((a + b)[k + n - 1] == b[n - 1]);
        assert(x.skip(k)[n - 1] == x[k + n - 1]);
    }
}

proof fn lemma_dot_zeros(a: Seq<real>, x: Seq<real>, n: int)
    requires
        forall|i: int| 0 <= i < n ==> #[trigger] x[i] == 0 as real,
    ensures
        dot(a, x, n) == 0 as real,
    decreases n,
{
    if n > 0 {
        lemma_dot_zeros(a, x, n - 1);
        assert(x[n - 1] == 0 as real);
        assert(a[n - 1] * (0 as real) == 0 as real) by (nonlinear_arith);
    }
}

proof fn lemma_dot_only(a: Seq<real>, x: Seq<real>, k: int, n: int)
    requires
        0 <= k < n,
        forall|i: int| 0 <= i < n && i != k ==> #[trigger] a[i] == 0 as real,
    ensures
        dot(a, x, n) == a[k] * x[k],
    decreases n,
{
    if n - 1 == k {
        lemma_dot_nothing(a, x, n - 1);
    } else {
        lemma_dot_only(a, x, k, n - 1);
        assert(a[n - 1] == 0 as real);
        assert((0 as real) * x[n - 1] == 0 as real) by (nonlinear_arith);
    }
}

proof fn lemma_dot_nothing(a: Seq<real>, x: Seq<real>, n: int)
    requires
        forall|i: int| 0 <= i < n ==> #[trigger] a[i] == 0 as real,
    ensures
        dot(a, x, n) == 0 as real,
    decreases n,
{
    if n > 0 {
        lemma_dot_nothing(a, x, n - 1);
        assert(a[n - 1] == 0 as real);
        assert((0 as real) * x[n - 1] == 0 as real) by (nonlinear_arith);
    }
}

// ── elimination ────────────────────────────────────────────────────

/// Whether numbers meet every equation of a square system, with the right-hand sides at
/// the end of the rows.
pub open spec fn solves(m: Seq<Seq<real>>, x: Seq<real>) -> bool {
    x.len() == m.len() && forall|i: int|
        0 <= i < m.len() ==> meets(#[trigger] m[i], x, m.len() as int)
}

/// Whether numbers meet one equation.
pub open spec fn meets(row: Seq<real>, x: Seq<real>, n: int) -> bool {
    dot(row, x, n) == row[n]
}

/// Whether the first `k` columns are clear but for their diagonal entries.
spec fn clear_to(m: Seq<Seq<real>>, k: int) -> bool {
    &&& forall|r: int, c: int|
        #![trigger m[r][c]]
        0 <= r < m.len() && 0 <= c < k && r != c ==> m[r][c] == 0 as real
    &&& forall|c: int| #![trigger m[c][c]] 0 <= c < k ==> m[c][c] != 0 as real
}

proof fn lemma_pivot_range(m: Seq<Seq<real>>, k: int, n: int)
    requires
        k < n,
    ensures
        k <= lstsq::pivot(m, k, n) < n,
    decreases n - k,
{
    if n > k + 1 {
        lemma_pivot_range(m, k, n - 1);
    }
}

proof fn lemma_taken_off(a: real, b: real, f: real, r: real, y: real, x: real)
    ensures
        (a - f * b) + (r - f * y) * x == (a + r * x) - f * (b + y * x),
{
    assert((a - f * b) + (r - f * y) * x == (a + r * x) - f * (b + y * x)) by (nonlinear_arith);
}

proof fn lemma_cleared_dot(row: Seq<real>, by: Seq<real>, x: Seq<real>, k: int, n: int)
    requires
        0 <= k < row.len(),
        row.len() == by.len(),
        0 <= n <= row.len(),
        forall|c: int| 0 <= c < k ==> #[trigger] by[c] == 0 as real,
    ensures
        dot(lstsq::cleared_row(row, by, k), x, n) == dot(row, x, n) - (row[k] / by[k]) * dot(
            by,
            x,
            n,
        ),
    decreases n,
{
    let f = row[k] / by[k];
    let new = lstsq::cleared_row(row, by, k);
    if n == 0 {
        assert(f * (0 as real) == 0 as real) by (nonlinear_arith);
    } else {
        let c = n - 1;
        lemma_cleared_dot(row, by, x, k, c);
        lemma_taken_off(dot(row, x, c), dot(by, x, c), f, row[c], by[c], x[c]);
        assert(f * (0 as real) == 0 as real) by (nonlinear_arith);
        assert((0 as real) * by[c] == 0 as real) by (nonlinear_arith);
        if f == 0 as real {
            assert(new[c] == row[c] - f * by[c]);
        } else {
            assert(new[c] == row[c] - f * by[c]);
        }
    }
}

proof fn lemma_same_solutions(a: Seq<Seq<real>>, k: int, x: Seq<real>)
    requires
        0 <= k < a.len(),
        lstsq::is_table(a, a.len(), a.len() + 1),
        clear_to(a, k),
        a[k][k] != 0 as real,
    ensures
        solves(a, x) <==> solves(lstsq::cleared(a, k), x),
        clear_to(lstsq::cleared(a, k), k + 1),
        lstsq::is_table(lstsq::cleared(a, k), a.len(), a.len() + 1),
{
    let n = a.len() as int;
    let b = lstsq::cleared(a, k);
    assert forall|r: int| 0 <= r < n && r != k implies (#[trigger] b[r]).len() == n + 1 && (meets(
        a[k],
        x,
        n,
    ) ==> (meets(b[r], x, n) <==> meets(a[r], x, n))) by {
        let f = a[r][k] / a[k][k];
        assert(a[r].len() == n + 1 && a[k].len() == n + 1);
        assert forall|c: int| 0 <= c < k implies #[trigger] a[k][c] == 0 as real by {
            assert(a[k][c] == 0 as real);
        }
        lemma_cleared_dot(a[r], a[k], x, k, n);
        assert((0 as real) * a[k][n] == 0 as real) by (nonlinear_arith);
        assert(b[r][n] == a[r][n] - f * a[k][n]);
    }
    assert(b[k] == a[k]);
    if solves(a, x) {
        assert(meets(a[k], x, n));
        assert forall|r: int| 0 <= r < n implies meets(#[trigger] b[r], x, n) by {
            assert(meets(a[r], x, n));
        }
    }
    if solves(b, x) {
        assert(meets(b[k], x, n));
        assert forall|r: int| 0 <= r < n implies meets(#[trigger] a[r], x, n) by {
            assert(meets(b[r], x, n));
        }
    }
    assert forall|r: int, c: int|
        #![trigger b[r][c]]
        0 <= r < n && 0 <= c < k + 1 && r != c implies b[r][c] == 0 as real by {
        assert(a[r].len() == n + 1 && a[k].len() == n + 1);
        if r != k {
            let f = a[r][k] / a[k][k];
            assert(f * a[k][k] == a[r][k]) by (nonlinear_arith)
                requires
                    f == a[r][k] / a[k][k],
                    a[k][k] != 0 as real,
            ;
            assert((0 as real) * a[k][k] == 0 as real) by (nonlinear_arith);
            if c < k {
                assert(a[r][c] == 0 as real);
                assert(b[r][c] == a[r][c]);
            } else {
                assert(b[r][c] == a[r][k] - f * a[k][k]);
            }
        } else {
            assert(a[k][c] == 0 as real);
        }
    }
    assert forall|c: int| #![trigger b[c][c]] 0 <= c < k + 1 implies b[c][c] != 0 as real by {
        assert(a[c].len() == n + 1);
        if c < k {
            assert(a[c][c] != 0 as real);
            assert(b[c][c] == a[c][c]);
        }
    }
    assert forall|r: int| 0 <= r < b.len() implies (#[trigger] b[r]).len() == n + 1 by {
        assert(a[r].len() == n + 1);
    }
}

proof fn lemma_exchanged(m: Seq<Seq<real>>, k: int, p: int, x: Seq<real>)
    requires
        0 <= k <= p < m.len(),
        lstsq::is_table(m, m.len(), m.len() + 1),
        clear_to(m, k),
    ensures
        solves(m, x) <==> solves(lstsq::exchanged(m, k, p), x),
        clear_to(lstsq::exchanged(m, k, p), k),
        lstsq::is_table(lstsq::exchanged(m, k, p), m.len(), m.len() + 1),
        lstsq::exchanged(m, k, p)[k] == m[p],
{
    let n = m.len() as int;
    let e = lstsq::exchanged(m, k, p);
    if solves(m, x) {
        assert forall|r: int| 0 <= r < n implies meets(#[trigger] e[r], x, n) by {
            assert(meets(m[r], x, n) && meets(m[k], x, n) && meets(m[p], x, n));
        }
    }
    if solves(e, x) {
        assert forall|r: int| 0 <= r < n implies meets(#[trigger] m[r], x, n) by {
            assert(meets(e[r], x, n) && meets(e[k], x, n) && meets(e[p], x, n));
        }
    }
    assert forall|r: int, c: int|
        #![trigger e[r][c]]
        0 <= r < n && 0 <= c < k && r != c implies e[r][c] == 0 as real by {
        assert(m[r][c] == 0 as real && m[k][c] == 0 as real && m[p][c] == 0 as real);
    }
    assert forall|c: int| #![trigger e[c][c]] 0 <= c < k implies e[c][c] != 0 as real by {
        assert(m[c][c] != 0 as real);
    }
}

proof fn lemma_reduced(m: Seq<Seq<real>>, k: int, x: Seq<real>)
    requires
        0 <= k <= m.len(),
        lstsq::is_table(m, m.len(), m.len() + 1),
        clear_to(m, k),
        lstsq::reduced(m, k) is Some,
    ensures
        lstsq::reduced(m, k)->0.len() == m.len(),
        clear_to(lstsq::reduced(m, k)->0, m.len() as int),
        solves(m, x) <==> solves(lstsq::reduced(m, k)->0, x),
    decreases m.len() - k,
{
    let n = m.len() as int;
    if k < n {
        let p = lstsq::pivot(m, k, n);
        lemma_pivot_range(m, k, n);
        lemma_exchanged(m, k, p, x);
        let e = lstsq::exchanged(m, k, p);
        lemma_same_solutions(e, k, x);
        lemma_reduced(lstsq::cleared(e, k), k + 1, x);
    }
}

/// The solution that elimination finds meets every equation of a square system, and no
/// other numbers do.
pub proof fn elimination_solves(m: Seq<Seq<real>>, y: Seq<real>)
    requires
        lstsq::is_table(m, m.len(), m.len() + 1),
        lstsq::solution(m) is Some,
    ensures
        solves(m, lstsq::solution(m)->0),
        solves(m, y) ==> y == lstsq::solution(m)->0,
{
    let n = m.len() as int;
    let x = lstsq::solution(m)->0;
    let r = lstsq::reduced(m, 0)->0;
    lemma_reduced(m, 0, x);
    lemma_reduced(m, 0, y);
    assert forall|i: int| 0 <= i < n implies meets(#[trigger] r[i], x, n) by {
        lemma_dot_only(r[i], x, i, n);
        assert(r[i][i] != 0 as real);
        assert(r[i][i] * x[i] == r[i][n]) by (nonlinear_arith)
            requires
                x[i] == r[i][n] / r[i][i],
                r[i][i] != 0 as real,
        ;
    }
    if solves(m, y) {
        assert forall|i: int| 0 <= i < n implies y[i] == x[i] by {
            assert(meets(r[i], y, n));
            lemma_dot_only(r[i], y, i, n);
            assert(r[i][i] != 0 as real);
            assert(y[i] == r[i][n] / r[i][i]) by (nonlinear_arith)
                requires
                    r[i][i] * y[i] == r[i][n],
                    r[i][i] != 0 as real,
            ;
        }
        assert(y =~= x);
    }
}

// ── least squares ──────────────────────────────────────────────────

/// The sum over the first `n` rows of their entry in a column times what is left of the
/// right-hand side after `w` columns with given factors.
pub open spec fn left_over(
    a: Seq<Seq<real>>,
    b: Seq<real>,
    x: Seq<real>,
    i: int,
    w: int,
    n: int,
) -> real
    decreases n,
{
    if n <= 0 {
        0 as real
    } else {
        left_over(a, b, x, i, w, n - 1) + a[n - 1][i] * (b[n - 1] - dot(a[n - 1], x, w))
    }
}

proof fn lemma_explained(cp: real, f: real, h: real, g: real, y: real)
    ensures
        f * (h - g * y) == f * h - f * (g * y),
        (cp + f * g) * y == cp * y + f * (g * y),
{
    assert(f * (h - g * y) == f * h - f * (g * y)) by (nonlinear_arith);
    assert((cp + f * g) * y == cp * y + f * (g * y)) by (nonlinear_arith);
}

proof fn lemma_one_column_less(
    a: Seq<Seq<real>>,
    b: Seq<real>,
    x: Seq<real>,
    i: int,
    w: int,
    n: int,
)
    requires
        w > 0,
    ensures
        left_over(a, b, x, i, w, n) == left_over(a, b, x, i, w - 1, n) - lstsq::column_product(
            a,
            i,
            w - 1,
            n,
        ) * x[w - 1],
    decreases n,
{
    if n > 0 {
        lemma_one_column_less(a, b, x, i, w, n - 1);
        let before = left_over(a, b, x, i, w - 1, n - 1);
        let cp = lstsq::column_product(a, i, w - 1, n - 1);
        lemma_explained(
            cp,
            a[n - 1][i],
            b[n - 1] - dot(a[n - 1], x, w - 1),
            a[n - 1][w - 1],
            x[w - 1],
        );
    } else {
        assert((0 as real) * x[w - 1] == 0 as real) by (nonlinear_arith);
    }
}

proof fn lemma_all_columns(
    a: Seq<Seq<real>>,
    b: Seq<real>,
    x: Seq<real>,
    i: int,
    w: nat,
    v: int,
)
    requires
        0 <= v <= w,
    ensures
        left_over(a, b, x, i, v, a.len() as int) == lstsq::column_times(
            a,
            i,
            b,
            a.len() as int,
        ) - dot(lstsq::normal_row(a, b, i, w), x, v),
    decreases v,
{
    if v == 0 {
        lemma_no_columns(a, b, x, i, a.len() as int);
    } else {
        lemma_all_columns(a, b, x, i, w, v - 1);
        lemma_one_column_less(a, b, x, i, v, a.len() as int);
        assert(lstsq::normal_row(a, b, i, w)[v - 1] == lstsq::column_product(
            a,
            i,
            v - 1,
            a.len() as int,
        ));
    }
}

proof fn lemma_no_columns(a: Seq<Seq<real>>, b: Seq<real>, x: Seq<real>, i: int, n: int)
    ensures
        left_over(a, b, x, i, 0, n) == lstsq::column_times(a, i, b, n),
    decreases n,
{
    if n > 0 {
        lemma_no_columns(a, b, x, i, n - 1);
    }
}

proof fn lemma_normal_table(a: Seq<Seq<real>>, b: Seq<real>, w: nat)
    ensures
        lstsq::is_table(lstsq::normal_equations(a, b, w), w, w + 1),
        lstsq::normal_equations(a, b, w).len() == w,
{
}

/// What the least-squares solution leaves of the right-hand sides is at right angles to
/// every column of the system: none of them could still explain any of it.
pub proof fn least_squares_leave_nothing_to_explain(
    a: Seq<Seq<real>>,
    b: Seq<real>,
    w: nat,
    i: int,
)
    requires
        lstsq::solution(lstsq::normal_equations(a, b, w)) is Some,
        0 <= i < w,
    ensures
        left_over(
            a,
            b,
            lstsq::solution(lstsq::normal_equations(a, b, w))->0,
            i,
            w as int,
            a.len() as int,
        ) == 0 as real,
{
    let m = lstsq::normal_equations(a, b, w);
    let x = lstsq::solution(m)->0;
    lemma_normal_table(a, b, w);
    elimination_solves(m, x);
    assert(meets(m[i], x, w as int));
    lemma_all_columns(a, b, x, i, w, w as int);
    assert(m[i] == lstsq::normal_row(a, b, i, w));
    assert(m[i][w as int] == lstsq::column_times(a, i, b, a.len() as int));
}

/// Numbers that meet every equation are the least-squares solution.
pub proof fn exact_solutions_are_found(a: Seq<Seq<real>>, b: Seq<real>, w: nat, y: Seq<real>)
    requires
        lstsq::solution(lstsq::normal_equations(a, b, w)) is Some,
        y.len() == w,
        forall|n: int| #![trigger a[n]] 0 <= n < a.len() ==> dot(a[n], y, w as int) == b[n],
    ensures
        lstsq::solution(lstsq::normal_equations(a, b, w)) == Some(y),
{
    let m = lstsq::normal_equations(a, b, w);
    lemma_normal_table(a, b, w);
    assert forall|i: int| 0 <= i < m.len() implies meets(#[trigger] m[i], y, w as int) by {
        lemma_all_columns(a, b, y, i, w, w as int);
        lemma_nothing_left(a, b, y, i, w as int, a.len() as int);
        assert(m[i] == lstsq::normal_row(a, b, i, w));
    }
    elimination_solves(m, y);
}

proof fn lemma_nothing_left(
    a: Seq<Seq<real>>,
    b: Seq<real>,
    x: Seq<real>,
    i: int,
    w: int,
    n: int,
)
    requires
        n <= a.len(),
        forall|r: int| #![trigger a[r]] 0 <= r < a.len() ==> dot(a[r], x, w) == b[r],
    ensures
        left_over(a, b, x, i, w, n) == 0 as real,
    decreases n,
{
    if n > 0 {
        lemma_nothing_left(a, b, x, i, w, n - 1);
        assert(dot(a[n - 1], x, w) == b[n - 1]);
        assert(a[n - 1][i] * (0 as real) == 0 as real) by (nonlinear_arith);
    }
}

// ── fitting ────────────────────────────────────────────────────────

/// The sum of the first `n` residues over the distances of `s` from their poles.
pub open spec fn pole_sum(s: real, poles: Seq<real>, residues: Seq<real>, n: int) -> real
    decreases n,
{
    if n <= 0 {
        0 as real
    } else {
        pole_sum(s, poles, residues, n - 1) + residues[n - 1] / (s - poles[n - 1])
    }
}

/// The value at `s` of poles with residues, a constant, and a term that grows with `s`.
pub open spec fn exact_model(
    s: real,
    poles: Seq<real>,
    residues: Seq<real>,
    d: real,
    e: real,
) -> real {
    pole_sum(s, poles, residues, poles.len() as int) + d + e * s
}

proof fn lemma_quotient(a: real, b: real)
    requires
        b != 0 as real,
    ensures
        (a / b) * b == a,
{
    let q = a / b;
    assert(q * b == a) by (nonlinear_arith)
        requires
            q == a / b,
            b != 0 as real,
    ;
}

proof fn lemma_inverse_times(g: real, r: real)
    requires
        g != 0 as real,
    ensures
        ((1 as real) / g) * r == r / g,
{
    lemma_quotient(1 as real, g);
    lemma_quotient(r, g);
    let t = (1 as real) / g;
    let q = r / g;
    assert(t * (q * g) == q * (t * g)) by (nonlinear_arith);
    assert(q * (1 as real) == q) by (nonlinear_arith);
}

proof fn lemma_zero_product(u: real, g: real)
    requires
        g != 0 as real,
        u * g == 0 as real,
    ensures
        u == 0 as real,
{
    lemma_quotient(1 as real, g);
    let t = (1 as real) / g;
    assert(u * (t * g) == t * (u * g)) by (nonlinear_arith);
    assert(u * (1 as real) == u) by (nonlinear_arith);
    assert(t * (0 as real) == 0 as real) by (nonlinear_arith);
}

/// Whether none of some numbers is at a pole.
pub open spec fn off_poles(ss: Seq<real>, poles: Seq<real>) -> bool {
    forall|n: int, k: int|
        #![trigger ss[n], poles[k]]
        0 <= n < ss.len() && 0 <= k < poles.len() ==> ss[n] != poles[k]
}

proof fn lemma_pole_terms(s: real, poles: Seq<real>, x: Seq<real>, n: int)
    requires
        0 <= n <= poles.len(),
        forall|k: int| 0 <= k < poles.len() ==> s != #[trigger] poles[k],
    ensures
        dot(vfit::pole_terms(s, poles), x, n) == pole_sum(s, poles, x, n),
    decreases n,
{
    if n > 0 {
        lemma_pole_terms(s, poles, x, n - 1);
        let g = s - poles[n - 1];
        let r = x[n - 1];
        assert(s != poles[n - 1]);
        lemma_inverse_times(g, r);
    }
}

proof fn lemma_basis_row(
    s: real,
    poles: Seq<real>,
    d: bool,
    e: bool,
    x: Seq<real>,
    r: Seq<real>,
    vd: real,
    ve: real,
)
    requires
        forall|k: int| 0 <= k < poles.len() ==> s != #[trigger] poles[k],
        r.len() == poles.len(),
        !d ==> vd == 0 as real,
        !e ==> ve == 0 as real,
        forall|k: int| 0 <= k < poles.len() ==> #[trigger] x[k] == r[k],
        d ==> x[poles.len() as int] == vd,
        e ==> x[vfit::terms(poles.len(), d, e) - 1] == ve,
    ensures
        dot(vfit::basis_row(s, poles, d, e), x, vfit::terms(poles.len(), d, e) as int)
            == exact_model(s, poles, r, vd, ve),
{
    let k = poles.len() as int;
    let w = vfit::terms(poles.len(), d, e) as int;
    let row = vfit::basis_row(s, poles, d, e);
    lemma_dot_same(row, x, vfit::pole_terms(s, poles), r, k);
    lemma_pole_terms(s, poles, r, k);
    assert((1 as real) * vd == vd) by (nonlinear_arith);
    assert(s * ve == ve * s) by (nonlinear_arith);
    assert((0 as real) * s == 0 as real) by (nonlinear_arith);
    if d {
        assert(row[k] == 1 as real);
        assert(dot(row, x, k + 1) == dot(row, x, k) + row[k] * x[k]);
    }
    if e {
        assert(row[w - 1] == s);
        assert(dot(row, x, w) == dot(row, x, w - 1) + row[w - 1] * x[w - 1]);
    }
}

/// Residues, constant and growing term of a response that they give exactly are what is
/// fitted to it.
pub proof fn exact_responses_give_their_residues(
    ss: Seq<real>,
    response: Seq<real>,
    poles: Seq<real>,
    d: bool,
    e: bool,
    residues: Seq<real>,
    vd: real,
    ve: real,
)
    requires
        ss.len() == response.len(),
        residues.len() == poles.len(),
        off_poles(ss, poles),
        !d ==> vd == 0 as real,
        !e ==> ve == 0 as real,
        forall|n: int|
            #![trigger response[n]]
            0 <= n < ss.len() ==> response[n] == exact_model(ss[n], poles, residues, vd, ve),
        vfit::best_parts(ss, response, poles, d, e) is Some,
    ensures
        vfit::best_parts(ss, response, poles, d, e) == Some((residues, vd, ve)),
{
    let k = poles.len() as int;
    let w = vfit::terms(poles.len(), d, e);
    let a = vfit::basis(ss, poles, d, e);
    let x = Seq::new(
        w,
        |i: int|
            if i < k {
                residues[i]
            } else if i == k && d {
                vd
            } else {
                ve
            },
    );
    assert forall|n: int| #![trigger a[n]] 0 <= n < a.len() implies dot(a[n], x, w as int)
        == response[n] by {
        assert forall|j: int| 0 <= j < poles.len() implies ss[n] != #[trigger] poles[j] by {
            assert(ss[n] != poles[j]);
        }
        lemma_basis_row(ss[n], poles, d, e, x, residues, vd, ve);
    }
    exact_solutions_are_found(a, response, w, x);
    assert(x.take(k) =~= residues);
}

proof fn lemma_weighed_down(t: real, h: real, r: real)
    ensures
        ((0 as real) - t * h) * r == -(h * (t * r)),
{
    assert((t * h) * r == h * (t * r)) by (nonlinear_arith);
    let u = t * h;
    assert(((0 as real) - u) * r == -(u * r)) by (nonlinear_arith);
}

proof fn lemma_weight_terms(s: real, h: real, poles: Seq<real>, x: Seq<real>, n: int)
    requires
        0 <= n <= poles.len(),
        forall|k: int| 0 <= k < poles.len() ==> s != #[trigger] poles[k],
    ensures
        dot(
            vfit::pole_terms(s, poles).map_values(|t: real| t.times(h).opposite()),
            x,
            n,
        ) == -(h * pole_sum(s, poles, x, n)),
    decreases n,
{
    let row = vfit::pole_terms(s, poles).map_values(|t: real| t.times(h).opposite());
    if n == 0 {
        assert(h * (0 as real) == 0 as real) by (nonlinear_arith);
    } else {
        lemma_weight_terms(s, h, poles, x, n - 1);
        let g = s - poles[n - 1];
        let r = x[n - 1];
        let before = pole_sum(s, poles, x, n - 1);
        let t = (1 as real) / g;
        assert(s != poles[n - 1]);
        assert(row[n - 1] == (0 as real) - t * h);
        lemma_inverse_times(g, r);
        lemma_weighed_down(t, h, r);
        lemma_spread(h, before, r / g);
    }
}

/// The weights that move poles are those with which the response, times one plus the sum
/// of the weights over the distances from the poles, is poles with residues, a constant
/// and a growing term. The latter two count only where they are asked for.
pub proof fn weights_turn_the_response_into_a_model(
    ss: Seq<real>,
    response: Seq<real>,
    poles: Seq<real>,
    d: bool,
    e: bool,
    residues: Seq<real>,
    vd: real,
    ve: real,
    sigma: Seq<real>,
)
    requires
        ss.len() == response.len(),
        residues.len() == poles.len(),
        sigma.len() == poles.len(),
        off_poles(ss, poles),
        !d ==> vd == 0 as real,
        !e ==> ve == 0 as real,
        forall|n: int|
            #![trigger response[n]]
            0 <= n < ss.len() ==> response[n] * ((1 as real) + pole_sum(
                ss[n],
                poles,
                sigma,
                poles.len() as int,
            )) == exact_model(ss[n], poles, residues, vd, ve),
        vfit::best_weights(ss, response, poles, d, e) is Some,
    ensures
        vfit::best_weights(ss, response, poles, d, e) == Some(sigma),
{
    let k = poles.len() as int;
    let t = vfit::terms(poles.len(), d, e);
    let w = t + poles.len();
    let a = vfit::relocation_system(ss, response, poles, d, e);
    let x = Seq::new(
        w,
        |i: int|
            if i < k {
                residues[i]
            } else if i >= t {
                sigma[i - t]
            } else if i == k && d {
                vd
            } else {
                ve
            },
    );
    assert(x.skip(t as int) =~= sigma);
    assert forall|n: int| #![trigger a[n]] 0 <= n < a.len() implies dot(a[n], x, w as int)
        == response[n] by {
        let s = ss[n];
        let h = response[n];
        assert forall|j: int| 0 <= j < poles.len() implies s != #[trigger] poles[j] by {
            assert(ss[n] != poles[j]);
        }
        let head = vfit::basis_row(s, poles, d, e);
        let tail = vfit::pole_terms(s, poles).map_values(|x: real| x.times(h).opposite());
        lemma_dot_joined(head, tail, x, k);
        lemma_basis_row(s, poles, d, e, x, residues, vd, ve);
        assert(tail =~= vfit::pole_terms(s, poles).map_values(
            |t: real| t.times(h).opposite(),
        ));
        lemma_weight_terms(s, h, poles, sigma, k);
        lemma_spread(h, 1 as real, pole_sum(s, poles, sigma, k));
        assert(h * (1 as real) == h) by (nonlinear_arith);
    }
    exact_solutions_are_found(a, response, w, x);
}

/// Poles that give a response exactly, with some residues, a constant and a growing term,
/// have no weights: they stay.
pub proof fn exact_responses_keep_their_poles(
    ss: Seq<real>,
    response: Seq<real>,
    poles: Seq<real>,
    d: bool,
    e: bool,
    residues: Seq<real>,
    vd: real,
    ve: real,
    x: real,
)
    requires
        ss.len() == response.len(),
        residues.len() == poles.len(),
        off_poles(ss, poles),
        !d ==> vd == 0 as real,
        !e ==> ve == 0 as real,
        forall|n: int|
            #![trigger response[n]]
            0 <= n < ss.len() ==> response[n] == exact_model(ss[n], poles, residues, vd, ve),
        vfit::best_weights(ss, response, poles, d, e) is Some,
    ensures
        vfit::best_weights(ss, response, poles, d, e) == Some(
            Seq::new(poles.len(), |i: int| 0 as real),
        ),
        forall|k: int|
            0 <= k < poles.len() && x == #[trigger] poles[k] ==> vfit::value_at(
                vfit::sigma_polynomial(
                    poles,
                    vfit::best_weights(ss, response, poles, d, e)->0,
                ),
                x,
                (poles.len() + 1) as int,
            ) == 0 as real,
{
    let sigma = Seq::new(poles.len(), |i: int| 0 as real);
    assert forall|n: int| #![trigger response[n]] 0 <= n < ss.len() implies response[n] * ((
    1 as real) + pole_sum(ss[n], poles, sigma, poles.len() as int)) == exact_model(
        ss[n],
        poles,
        residues,
        vd,
        ve,
    ) by {
        assert forall|j: int| 0 <= j < poles.len() implies ss[n] != #[trigger] poles[j] by {
            assert(ss[n] != poles[j]);
        }
        lemma_no_weights(ss[n], poles, sigma, poles.len() as int);
        assert(response[n] * ((1 as real) + (0 as real)) == response[n]) by (nonlinear_arith);
    }
    weights_turn_the_response_into_a_model(
        ss,
        response,
        poles,
        d,
        e,
        residues,
        vd,
        ve,
        sigma,
    );
    assert forall|k: int| 0 <= k < poles.len() && x == #[trigger] poles[k] implies vfit::value_at(
        vfit::sigma_polynomial(poles, sigma),
        x,
        (poles.len() + 1) as int,
    ) == 0 as real by {
        lemma_polynomial(poles, sigma, x);
        lemma_no_terms(poles, sigma, x, poles.len() as int);
        lemma_vanishes(x, poles, k, poles.len() as int);
    }
}

proof fn lemma_no_weights(s: real, poles: Seq<real>, sigma: Seq<real>, n: int)
    requires
        n <= sigma.len(),
        sigma.len() == poles.len(),
        forall|i: int| 0 <= i < sigma.len() ==> #[trigger] sigma[i] == 0 as real,
        forall|k: int| 0 <= k < poles.len() ==> s != #[trigger] poles[k],
    ensures
        pole_sum(s, poles, sigma, n) == 0 as real,
    decreases n,
{
    if n > 0 {
        lemma_no_weights(s, poles, sigma, n - 1);
        let g = s - poles[n - 1];
        assert(sigma[n - 1] == 0 as real);
        assert(s != poles[n - 1]);
        lemma_quotient(0 as real, g);
        lemma_zero_product((0 as real) / g, g);
    }
}

proof fn lemma_spread(a: real, q: real, z: real)
    ensures
        a * (q + z) == a * q + a * z,
{
    assert(a * (q + z) == a * q + a * z) by (nonlinear_arith);
}

// ── the polynomial of the weights ──────────────────────────────────

/// A product.
#[verifier::opaque]
pub open spec fn prod(a: real, b: real) -> real {
    a * b
}

proof fn lemma_prod_turns(a: real, b: real)
    ensures
        prod(a, b) == prod(b, a),
        prod(a, 0 as real) == 0 as real,
        prod(0 as real, a) == 0 as real,
        prod(a, 1 as real) == a,
{
    reveal(prod);
    assert(a * b == b * a) by (nonlinear_arith);
    assert(a * (0 as real) == 0 as real) by (nonlinear_arith);
    assert((0 as real) * a == 0 as real) by (nonlinear_arith);
    assert(a * (1 as real) == a) by (nonlinear_arith);
}

proof fn lemma_prod_regroups(a: real, b: real, c: real)
    ensures
        prod(prod(a, b), c) == prod(a, prod(b, c)),
{
    reveal(prod);
    assert((a * b) * c == a * (b * c)) by (nonlinear_arith);
}

proof fn lemma_prod_splits(a: real, b: real, c: real)
    ensures
        prod(a, b + c) == prod(a, b) + prod(a, c),
        prod(b + c, a) == prod(b, a) + prod(c, a),
        prod(a, b - c) == prod(a, b) - prod(a, c),
        prod(b - c, a) == prod(b, a) - prod(c, a),
{
    reveal(prod);
    assert(a * (b + c) == a * b + a * c) by (nonlinear_arith);
    assert((b + c) * a == b * a + c * a) by (nonlinear_arith);
    assert(a * (b - c) == a * b - a * c) by (nonlinear_arith);
    assert((b - c) * a == b * a - c * a) by (nonlinear_arith);
}

proof fn lemma_prod_not_zero(a: real, b: real)
    requires
        b != 0 as real,
        prod(a, b) == 0 as real,
    ensures
        a == 0 as real,
{
    reveal(prod);
    lemma_zero_product(a, b);
}

proof fn lemma_prod_quotient(a: real, b: real)
    requires
        b != 0 as real,
    ensures
        prod(a / b, b) == a,
{
    reveal(prod);
    lemma_quotient(a, b);
}

/// The product of the distances of `s` from the first `n` poles but the one at `skip`.
pub open spec fn distance_product(s: real, poles: Seq<real>, skip: int, n: int) -> real
    decreases n,
{
    if n <= 0 {
        1 as real
    } else if n - 1 == skip {
        distance_product(s, poles, skip, n - 1)
    } else {
        prod(distance_product(s, poles, skip, n - 1), s - poles[n - 1])
    }
}

/// The sum of the first `n` weights, each times the product of all distances but its own.
pub open spec fn weighted_products(s: real, poles: Seq<real>, sigma: Seq<real>, n: int) -> real
    decreases n,
{
    if n <= 0 {
        0 as real
    } else {
        weighted_products(s, poles, sigma, n - 1) + prod(
            sigma[n - 1],
            distance_product(s, poles, n - 1, poles.len() as int),
        )
    }
}

proof fn lemma_value_step(c: Seq<real>, s: real, n: int)
    requires
        n > 0,
    ensures
        vfit::value_at(c, s, n) == prod(vfit::value_at(c, s, n - 1), s) + c[n - 1],
{
    reveal(vfit::value_at);
    reveal(prod);
}

proof fn lemma_value_first(c: Seq<real>, s: real)
    ensures
        vfit::value_at(c, s, 0) == 0 as real,
        vfit::value_at(c, s, 1) == c[0],
{
    assert(vfit::value_at(c, s, 0) == 0 as real) by {
        reveal(vfit::value_at);
    }
    lemma_value_step(c, s, 1);
    lemma_prod_turns(s, s);
}

proof fn lemma_root_entries(c: Seq<real>, p: real, i: int)
    requires
        0 <= i <= c.len(),
        c.len() > 0,
    ensures
        vfit::times_root(c, p).len() == c.len() + 1,
        i == 0 ==> vfit::times_root(c, p)[i] == c[0],
        0 < i < c.len() ==> vfit::times_root(c, p)[i] == c[i] - prod(p, c[i - 1]),
        i == c.len() ==> vfit::times_root(c, p)[i] == -prod(p, c[i - 1]),
{
    reveal(vfit::times_root);
    reveal(prod);
}

proof fn lemma_times_root_head(c: Seq<real>, p: real, s: real, n: int)
    requires
        1 <= n <= c.len(),
    ensures
        vfit::value_at(vfit::times_root(c, p), s, n) == vfit::value_at(c, s, n) - prod(
            p,
            vfit::value_at(c, s, n - 1),
        ),
    decreases n,
{
    let t = vfit::times_root(c, p);
    lemma_root_entries(c, p, n - 1);
    if n > 1 {
        lemma_times_root_head(c, p, s, n - 1);
        lemma_value_step(t, s, n);
        lemma_value_step(c, s, n);
        lemma_value_step(c, s, n - 1);
        let u = vfit::value_at(c, s, n - 1);
        let v = vfit::value_at(c, s, n - 2);
        lemma_prod_splits(s, u, prod(p, v));
        lemma_prod_splits(p, prod(v, s), c[n - 2]);
        lemma_prod_regroups(p, v, s);
    } else {
        lemma_value_first(t, s);
        lemma_value_first(c, s);
        lemma_prod_turns(p, p);
    }
}

proof fn lemma_times_root(c: Seq<real>, p: real, s: real)
    requires
        c.len() >= 1,
    ensures
        vfit::value_at(vfit::times_root(c, p), s, (c.len() + 1) as int) == prod(
            vfit::value_at(c, s, c.len() as int),
            s - p,
        ),
{
    let n = c.len() as int;
    let t = vfit::times_root(c, p);
    lemma_times_root_head(c, p, s, n);
    lemma_value_step(t, s, n + 1);
    lemma_value_step(c, s, n);
    lemma_root_entries(c, p, n);
    let u = vfit::value_at(c, s, n);
    let v = vfit::value_at(c, s, n - 1);
    lemma_prod_splits(s, u, prod(p, v));
    lemma_prod_splits(p, prod(v, s), c[n - 1]);
    lemma_prod_regroups(p, v, s);
    lemma_prod_splits(u, s, p);
    lemma_prod_turns(u, p);
}

proof fn lemma_root_product(s: real, poles: Seq<real>, skip: int, n: int)
    requires
        0 <= n,
    ensures
        vfit::root_product(poles, skip, n).len() == (if 0 <= skip < n {
            n
        } else {
            n + 1
        }),
        vfit::value_at(
            vfit::root_product(poles, skip, n),
            s,
            vfit::root_product(poles, skip, n).len() as int,
        ) == distance_product(s, poles, skip, n),
    decreases n,
{
    if n == 0 {
        lemma_value_first(vfit::root_product(poles, skip, n), s);
    } else {
        lemma_root_product(s, poles, skip, n - 1);
        if n - 1 != skip {
            lemma_root_entries(vfit::root_product(poles, skip, n - 1), poles[n - 1], 0);
            lemma_times_root(vfit::root_product(poles, skip, n - 1), poles[n - 1], s);
        }
    }
}

proof fn lemma_value_adds(
    a: Seq<real>,
    b: Seq<real>,
    f: real,
    c: Seq<real>,
    s: real,
    n: int,
)
    requires
        0 <= n,
        forall|i: int| 0 <= i < n ==> #[trigger] c[i] == a[i] + prod(f, b[i]),
    ensures
        vfit::value_at(c, s, n) == vfit::value_at(a, s, n) + prod(f, vfit::value_at(b, s, n)),
    decreases n,
{
    if n > 0 {
        lemma_value_adds(a, b, f, c, s, n - 1);
        assert(c[n - 1] == a[n - 1] + prod(f, b[n - 1]));
        lemma_value_step(a, s, n);
        lemma_value_step(b, s, n);
        lemma_value_step(c, s, n);
        let u = vfit::value_at(a, s, n - 1);
        let v = vfit::value_at(b, s, n - 1);
        lemma_prod_splits(s, u, prod(f, v));
        lemma_prod_splits(f, prod(v, s), b[n - 1]);
        lemma_prod_regroups(f, v, s);
    } else {
        lemma_value_first(a, s);
        lemma_value_first(b, s);
        lemma_value_first(c, s);
        lemma_prod_turns(f, f);
    }
}

spec fn weight_coefficients(poles: Seq<real>, sigma: Seq<real>, n: int) -> Seq<real> {
    Seq::new(poles.len(), |i: int| vfit::weighted_sum(poles, sigma, i, n))
}

proof fn lemma_weighted_sum(poles: Seq<real>, sigma: Seq<real>, i: int, n: int)
    requires
        n > 0,
    ensures
        vfit::weighted_sum(poles, sigma, i, n) == vfit::weighted_sum(poles, sigma, i, n - 1)
            + prod(sigma[n - 1], vfit::root_product(poles, n - 1, poles.len() as int)[i]),
{
    reveal(prod);
}

proof fn lemma_zero_value(c: Seq<real>, s: real, n: int)
    requires
        0 <= n,
        forall|i: int| 0 <= i < n ==> #[trigger] c[i] == 0 as real,
    ensures
        vfit::value_at(c, s, n) == 0 as real,
    decreases n,
{
    if n > 0 {
        lemma_zero_value(c, s, n - 1);
        lemma_value_step(c, s, n);
        assert(c[n - 1] == 0 as real);
        lemma_prod_turns(s, s);
    } else {
        lemma_value_first(c, s);
    }
}

proof fn lemma_weighted(s: real, poles: Seq<real>, sigma: Seq<real>, n: int)
    requires
        0 <= n <= poles.len(),
    ensures
        vfit::value_at(weight_coefficients(poles, sigma, n), s, poles.len() as int)
            == weighted_products(s, poles, sigma, n),
    decreases n,
{
    let k = poles.len() as int;
    let now = weight_coefficients(poles, sigma, n);
    if n == 0 {
        lemma_zero_value(now, s, k);
    } else {
        lemma_weighted(s, poles, sigma, n - 1);
        lemma_root_product(s, poles, n - 1, k);
        let before = weight_coefficients(poles, sigma, n - 1);
        let p = vfit::root_product(poles, n - 1, k);
        assert forall|i: int| 0 <= i < k implies #[trigger] now[i] == before[i] + prod(
            sigma[n - 1],
            p[i],
        ) by {
            lemma_weighted_sum(poles, sigma, i, n);
        }
        lemma_value_adds(before, p, sigma[n - 1], now, s, k);
    }
}

proof fn lemma_shifted_sum(p: Seq<real>, b: Seq<real>, c: Seq<real>, s: real, n: int)
    requires
        0 <= n,
        c[0] == p[0],
        forall|i: int| 1 <= i <= n ==> #[trigger] c[i] == p[i] + b[i - 1],
    ensures
        vfit::value_at(c, s, n + 1) == vfit::value_at(p, s, n + 1) + vfit::value_at(b, s, n),
    decreases n,
{
    if n > 0 {
        lemma_shifted_sum(p, b, c, s, n - 1);
        assert(c[n] == p[n] + b[n - 1]);
        lemma_value_step(c, s, n + 1);
        lemma_value_step(p, s, n + 1);
        lemma_value_step(b, s, n);
        lemma_prod_splits(s, vfit::value_at(p, s, n), vfit::value_at(b, s, n - 1));
    } else {
        lemma_value_first(p, s);
        lemma_value_first(c, s);
        lemma_value_first(b, s);
    }
}

proof fn lemma_polynomial(poles: Seq<real>, sigma: Seq<real>, s: real)
    requires
        sigma.len() == poles.len(),
    ensures
        vfit::sigma_polynomial(poles, sigma).len() == poles.len() + 1,
        vfit::value_at(vfit::sigma_polynomial(poles, sigma), s, (poles.len() + 1) as int)
            == distance_product(s, poles, -1, poles.len() as int) + weighted_products(
            s,
            poles,
            sigma,
            poles.len() as int,
        ),
{
    let k = poles.len() as int;
    let p = vfit::root_product(poles, -1, k);
    let b = weight_coefficients(poles, sigma, k);
    let c = vfit::sigma_polynomial(poles, sigma);
    lemma_root_product(s, poles, -1, k);
    lemma_weighted(s, poles, sigma, k);
    assert forall|i: int| 1 <= i <= k implies #[trigger] c[i] == p[i] + b[i - 1] by {
        assert(b[i - 1] == vfit::weighted_sum(poles, sigma, i - 1, k));
    }
    lemma_shifted_sum(p, b, c, s, k);
}

proof fn lemma_left_out(s: real, poles: Seq<real>, j: int, n: int)
    requires
        0 <= j < n,
    ensures
        prod(distance_product(s, poles, j, n), s - poles[j]) == distance_product(
            s,
            poles,
            -1,
            n,
        ),
    decreases n,
{
    if n - 1 == j {
        lemma_none_left_out(s, poles, j, n - 1);
    } else {
        lemma_left_out(s, poles, j, n - 1);
        let u = distance_product(s, poles, j, n - 1);
        let g = s - poles[n - 1];
        let h = s - poles[j];
        lemma_prod_regroups(u, g, h);
        lemma_prod_regroups(u, h, g);
        lemma_prod_turns(g, h);
    }
}

proof fn lemma_none_left_out(s: real, poles: Seq<real>, j: int, n: int)
    requires
        n <= j,
    ensures
        distance_product(s, poles, j, n) == distance_product(s, poles, -1, n),
    decreases n,
{
    if n > 0 {
        lemma_none_left_out(s, poles, j, n - 1);
    }
}

proof fn lemma_vanishes(s: real, poles: Seq<real>, k: int, n: int)
    requires
        0 <= k < n <= poles.len(),
        s == poles[k],
    ensures
        distance_product(s, poles, -1, n) == 0 as real,
{
    lemma_left_out(s, poles, k, n);
    lemma_prod_turns(distance_product(s, poles, k, n), s);
}

proof fn lemma_no_terms(poles: Seq<real>, sigma: Seq<real>, s: real, n: int)
    requires
        n <= sigma.len(),
        forall|i: int| 0 <= i < sigma.len() ==> #[trigger] sigma[i] == 0 as real,
    ensures
        weighted_products(s, poles, sigma, n) == 0 as real,
    decreases n,
{
    if n > 0 {
        lemma_no_terms(poles, sigma, s, n - 1);
        assert(sigma[n - 1] == 0 as real);
        lemma_prod_turns(distance_product(s, poles, n - 1, poles.len() as int), s);
    }
}

proof fn lemma_weighted_over(s: real, poles: Seq<real>, sigma: Seq<real>, n: int)
    requires
        0 <= n <= poles.len(),
        sigma.len() == poles.len(),
        forall|k: int| 0 <= k < poles.len() ==> s != #[trigger] poles[k],
    ensures
        weighted_products(s, poles, sigma, n) == prod(
            distance_product(s, poles, -1, poles.len() as int),
            pole_sum(s, poles, sigma, n),
        ),
    decreases n,
{
    let all = distance_product(s, poles, -1, poles.len() as int);
    if n == 0 {
        lemma_prod_turns(all, all);
    } else {
        lemma_weighted_over(s, poles, sigma, n - 1);
        lemma_left_out(s, poles, n - 1, poles.len() as int);
        assert(s != poles[n - 1]);
        let u = distance_product(s, poles, n - 1, poles.len() as int);
        let g = s - poles[n - 1];
        let z = sigma[n - 1] / g;
        lemma_prod_quotient(sigma[n - 1], g);
        lemma_prod_turns(z, g);
        lemma_prod_turns(u, prod(g, z));
        lemma_prod_regroups(u, g, z);
        lemma_prod_splits(all, pole_sum(s, poles, sigma, n - 1), z);
    }
}

proof fn lemma_not_zero(s: real, poles: Seq<real>, n: int)
    requires
        0 <= n <= poles.len(),
        forall|k: int| 0 <= k < poles.len() ==> s != #[trigger] poles[k],
    ensures
        distance_product(s, poles, -1, n) != 0 as real,
    decreases n,
{
    if n > 0 {
        lemma_not_zero(s, poles, n - 1);
        assert(s != poles[n - 1]);
        let u = distance_product(s, poles, -1, n - 1);
        if prod(u, s - poles[n - 1]) == 0 as real {
            lemma_prod_not_zero(u, s - poles[n - 1]);
        }
    }
}

/// Away from the poles, the polynomial of the weights is zero exactly where one plus the
/// sum of the weights over the distances from the poles is.
pub proof fn polynomial_has_the_zeros_of_the_weights(
    poles: Seq<real>,
    sigma: Seq<real>,
    s: real,
)
    requires
        sigma.len() == poles.len(),
        forall|k: int| 0 <= k < poles.len() ==> s != #[trigger] poles[k],
    ensures
        vfit::sigma_polynomial(poles, sigma).len() == poles.len() + 1,
        vfit::value_at(vfit::sigma_polynomial(poles, sigma), s, (poles.len() + 1) as int) == 0 as real
            <==> (1 as real) + pole_sum(s, poles, sigma, poles.len() as int) == 0 as real,
{
    let k = poles.len() as int;
    let all = distance_product(s, poles, -1, k);
    let q = pole_sum(s, poles, sigma, k);
    lemma_polynomial(poles, sigma, s);
    lemma_weighted_over(s, poles, sigma, k);
    lemma_not_zero(s, poles, k);
    let z = (1 as real) + q;
    lemma_prod_splits(all, 1 as real, q);
    lemma_prod_turns(all, z);
    if prod(all, z) == 0 as real {
        lemma_prod_not_zero(z, all);
    }
}

} // verus!
