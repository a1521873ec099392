//! Least squares over the complex numbers: normal equations, solved by elimination with
//! pivots.

use crate::algebra::Algebra;
use crate::complex::C64;
use crate::double::Real;
use vstd::prelude::*;

verus! {

/// 1e-30: a pivot below it counts as zero.
pub const PIVOT_BITS: u64 = 0x39b4_484b_feeb_c2a0;

/// The rows of a matrix.
pub open spec fn rows_of(m: Seq<Vec<C64>>) -> Seq<Seq<C64>> {
    m.map_values(|r: Vec<C64>| r@)
}

/// Whether a matrix has `n` rows of `w` entries.
pub open spec fn is_table<F: Algebra>(m: Seq<Seq<F>>, n: nat, w: nat) -> bool {
    m.len() == n && forall|i: int| 0 <= i < n ==> (#[trigger] m[i]).len() == w
}

/// A column of a matrix, conjugated, times another one: the sum over the first `n` rows.
pub open spec fn column_product<F: Algebra>(a: Seq<Seq<F>>, i: int, j: int, n: int) -> F
    decreases n,
{
    if n <= 0 {
        F::nought()
    } else {
        column_product(a, i, j, n - 1).plus(a[n - 1][i].conjugate().times(a[n - 1][j]))
    }
}

/// A column of a matrix, conjugated, times a vector.
pub open spec fn column_times<F: Algebra>(a: Seq<Seq<F>>, i: int, b: Seq<F>, n: int) -> F
    decreases n,
{
    if n <= 0 {
        F::nought()
    } else {
        column_times(a, i, b, n - 1).plus(a[n - 1][i].conjugate().times(b[n - 1]))
    }
}

/// One row of the normal equations, with its right-hand side at the end.
pub open spec fn normal_row<F: Algebra>(a: Seq<Seq<F>>, b: Seq<F>, i: int, w: nat) -> Seq<F> {
    Seq::new(w, |j: int| column_product(a, i, j, a.len() as int)).push(
        column_times(a, i, b, a.len() as int),
    )
}

/// The normal equations.
pub open spec fn normal_equations<F: Algebra>(a: Seq<Seq<F>>, b: Seq<F>, w: nat) -> Seq<Seq<F>> {
    Seq::new(w, |i: int| normal_row(a, b, i, w))
}

fn product_of_columns(a: &Vec<Vec<C64>>, i: usize, j: usize, w: usize) -> (res: C64)
    requires
        is_table(rows_of(a@), a@.len(), w as nat),
        i < w,
        j < w,
    ensures
        res == column_product(rows_of(a@), i as int, j as int, a@.len() as int),
{
    let ghost m = rows_of(a@);
    let mut acc = C64::zero();
    let mut r: usize = 0;
    while r < a.len()
        invariant
            r <= a@.len(),
            m == rows_of(a@),
            is_table(m, a@.len(), w as nat),
            i < w,
            j < w,
            acc == column_product(m, i as int, j as int, r as int),
        decreases a@.len() - r,
    {
        assert(m[r as int] == a@[r as int]@);
        acc = acc.add(a[r][i].conj().mul(a[r][j]));
        r = r + 1;
    }
    acc
}

fn column_times_vector(a: &Vec<Vec<C64>>, i: usize, b: &Vec<C64>, w: usize) -> (res: C64)
    requires
        is_table(rows_of(a@), a@.len(), w as nat),
        i < w,
        b@.len() == a@.len(),
    ensures
        res == column_times(rows_of(a@), i as int, b@, a@.len() as int),
{
    let ghost m = rows_of(a@);
    let mut acc = C64::zero();
    let mut r: usize = 0;
    while r < a.len()
        invariant
            r <= a@.len(),
            m == rows_of(a@),
            is_table(m, a@.len(), w as nat),
            i < w,
            b@.len() == a@.len(),
            acc == column_times(m, i as int, b@, r as int),
        decreases a@.len() - r,
    {
        assert(m[r as int] == a@[r as int]@);
        acc = acc.add(a[r][i].conj().mul(b[r]));
        r = r + 1;
    }
    acc
}

fn build_normal_row(a: &Vec<Vec<C64>>, b: &Vec<C64>, i: usize, w: usize) -> (res: Vec<C64>)
    requires
        is_table(rows_of(a@), a@.len(), w as nat),
        i < w,
        b@.len() == a@.len(),
    ensures
        res@ == normal_row(rows_of(a@), b@, i as int, w as nat),
{
    let ghost m = rows_of(a@);
    let ghost all = Seq::new(w as nat, |j: int| column_product(m, i as int, j, m.len() as int));
    let mut row: Vec<C64> = Vec::new();
    let mut j: usize = 0;
    while j < w
        invariant
            j <= w,
            i < w,
            m == rows_of(a@),
            is_table(m, a@.len(), w as nat),
            all == Seq::new(w as nat, |j: int| column_product(m, i as int, j, m.len() as int)),
            row@ =~= all.take(j as int),
        decreases w - j,
    {
        row.push(product_of_columns(a, i, j, w));
        j = j + 1;
    }
    row.push(column_times_vector(a, i, b, w));
    assert(row@ =~= normal_row(m, b@, i as int, w as nat));
    row
}

fn build_normal_equations(a: &Vec<Vec<C64>>, b: &Vec<C64>, w: usize) -> (res: Vec<Vec<C64>>)
    requires
        is_table(rows_of(a@), a@.len(), w as nat),
        b@.len() == a@.len(),
    ensures
        rows_of(res@) == normal_equations(rows_of(a@), b@, w as nat),
{
    let ghost all = normal_equations(rows_of(a@), b@, w as nat);
    let mut out: Vec<Vec<C64>> = Vec::new();
    let mut i: usize = 0;
    while i < w
        invariant
            i <= w,
            is_table(rows_of(a@), a@.len(), w as nat),
            b@.len() == a@.len(),
            all == normal_equations(rows_of(a@), b@, w as nat),
            rows_of(out@) =~= all.take(i as int),
        decreases w - i,
    {
        let ghost before = out@;
        let row = build_normal_row(a, b, i, w);
        out.push(row);
        assert(rows_of(out@) =~= rows_of(before).push(all[i as int]));
        i = i + 1;
    }
    assert(all.take(w as int) =~= all);
    out
}

// ── elimination ────────────────────────────────────────────────────

/// The row with the largest entry in column `k`, among the `k`-th and those from there
/// before the `n`-th; the first of several.
pub open spec fn pivot<F: Algebra>(m: Seq<Seq<F>>, k: int, n: int) -> int
    decreases n - k,
{
    if n <= k + 1 {
        k
    } else {
        let best = pivot(m, k, n - 1);
        if m[best][k].smaller(m[n - 1][k]) {
            n - 1
        } else {
            best
        }
    }
}

/// A matrix with two rows exchanged.
pub open spec fn exchanged<F: Algebra>(m: Seq<Seq<F>>, i: int, j: int) -> Seq<Seq<F>> {
    m.update(i, m[j]).update(j, m[i])
}

/// A row with as much of row `k` taken off as clears its column `k`; nothing where that
/// column is clear.
pub open spec fn cleared_row<F: Algebra>(row: Seq<F>, by: Seq<F>, k: int) -> Seq<F> {
    let f = row[k].over(by[k]);
    if f.nothing() {
        row
    } else {
        Seq::new(
            row.len(),
            |c: int|
                if c < k {
                    row[c]
                } else {
                    row[c].less(f.times(by[c]))
                },
        )
    }
}

/// A matrix with column `k` cleared in all rows but the `k`-th.
pub open spec fn cleared<F: Algebra>(m: Seq<Seq<F>>, k: int) -> Seq<Seq<F>> {
    Seq::new(
        m.len(),
        |r: int|
            if r == k {
                m[k]
            } else {
                cleared_row(m[r], m[k], k)
            },
    )
}

/// One step of the elimination; none where there is no pivot.
pub open spec fn eliminated<F: Algebra>(m: Seq<Seq<F>>, k: int) -> Option<Seq<Seq<F>>> {
    let p = pivot(m, k, m.len() as int);
    if m[p][k].tiny() {
        None
    } else {
        Some(cleared(exchanged(m, k, p), k))
    }
}

/// A matrix after the steps from the `k`-th on.
pub open spec fn reduced<F: Algebra>(m: Seq<Seq<F>>, k: int) -> Option<Seq<Seq<F>>>
    decreases m.len() - k,
{
    if k < 0 || k >= m.len() {
        Some(m)
    } else {
        match eliminated(m, k) {
            None => None,
            Some(next) => if next.len() == m.len() {
                reduced(next, k + 1)
            } else {
                None
            },
        }
    }
}

/// The solution of a system, with its right-hand sides at the end of its rows; none where it
/// is singular.
pub open spec fn solution<F: Algebra>(m: Seq<Seq<F>>) -> Option<Seq<F>> {
    match reduced(m, 0) {
        None => None,
        Some(r) => Some(
            Seq::new(m.len(), |i: int| r[i][m.len() as int].over(r[i][i])),
        ),
    }
}

fn find_pivot(m: &Vec<Vec<C64>>, k: usize) -> (res: usize)
    requires
        is_table(rows_of(m@), m@.len(), m@.len() + 1),
        k < m@.len(),
    ensures
        res == pivot(rows_of(m@), k as int, m@.len() as int),
        k <= res < m@.len(),
{
    let ghost t = rows_of(m@);
    let n: usize = m.len();
    let mut best: usize = k;
    let mut r: usize = k + 1;
    while r < n
        invariant
            k <= best < r <= n,
            n == m@.len(),
            t == rows_of(m@),
            is_table(t, n as nat, (n + 1) as nat),
            best == pivot(t, k as int, r as int),
        decreases n - r,
    {
        assert(t[r as int] == m@[r as int]@ && t[best as int] == m@[best as int]@);
        if m[best][k].norm().lt(m[r][k].norm()) {
            best = r;
        }
        r = r + 1;
    }
    best
}

fn copy_row(row: &Vec<C64>) -> (res: Vec<C64>)
    ensures
        res@ == row@,
{
    let mut v: Vec<C64> = Vec::new();
    let mut i: usize = 0;
    while i < row.len()
        invariant
            i <= row@.len(),
            v@ =~= row@.take(i as int),
        decreases row@.len() - i,
    {
        v.push(row[i]);
        i = i + 1;
    }
    assert(v@ =~= row@);
    v
}

fn clear_row(row: &Vec<C64>, by: &Vec<C64>, k: usize) -> (res: Vec<C64>)
    requires
        row@.len() == by@.len(),
        k < row@.len(),
    ensures
        res@ == cleared_row(row@, by@, k as int),
        res@.len() == row@.len(),
{
    let f = row[k].div(by[k]);
    if f.norm().abs().to_bits() == 0 {
        return copy_row(row);
    }
    let mut v: Vec<C64> = Vec::new();
    let mut c: usize = 0;
    let ghost all = cleared_row(row@, by@, k as int);
    while c < row.len()
        invariant
            c <= row@.len(),
            row@.len() == by@.len(),
            f == row@[k as int].div_spec(by@[k as int]),
            f.norm_spec().magnitude() != 0,
            all == cleared_row(row@, by@, k as int),
            v@ =~= all.take(c as int),
        decreases row@.len() - c,
    {
        v.push(
            if c < k {
                row[c]
            } else {
                row[c].sub(f.mul(by[c]))
            },
        );
        c = c + 1;
    }
    assert(v@ =~= all);
    v
}

fn clear_column(m: &Vec<Vec<C64>>, k: usize) -> (res: Vec<Vec<C64>>)
    requires
        is_table(rows_of(m@), m@.len(), m@.len() + 1),
        k < m@.len(),
    ensures
        rows_of(res@) == cleared(rows_of(m@), k as int),
        is_table(rows_of(res@), m@.len(), m@.len() + 1),
{
    let ghost t = rows_of(m@);
    let ghost all = cleared(t, k as int);
    let n: usize = m.len();
    let mut out: Vec<Vec<C64>> = Vec::new();
    let mut r: usize = 0;
    while r < n
        invariant
            r <= n,
            n == m@.len(),
            k < n,
            t == rows_of(m@),
            is_table(t, n as nat, (n + 1) as nat),
            all == cleared(t, k as int),
            rows_of(out@) =~= all.take(r as int),
            forall|i: int| 0 <= i < r ==> (#[trigger] rows_of(out@)[i]).len() == n + 1,
        decreases n - r,
    {
        let ghost before = out@;
        assert(t[r as int] == m@[r as int]@ && t[k as int] == m@[k as int]@);
        let row: Vec<C64> = if r == k {
            copy_row(&m[k])
        } else {
            clear_row(&m[r], &m[k], k)
        };
        assert(row@ == all[r as int]);
        out.push(row);
        assert(rows_of(out@) =~= rows_of(before).push(row@));
        r = r + 1;
    }
    assert(all.take(n as int) =~= all);
    out
}

fn exchange(m: &Vec<Vec<C64>>, i: usize, j: usize) -> (res: Vec<Vec<C64>>)
    requires
        is_table(rows_of(m@), m@.len(), m@.len() + 1),
        i < m@.len(),
        j < m@.len(),
    ensures
        rows_of(res@) == exchanged(rows_of(m@), i as int, j as int),
        is_table(rows_of(res@), m@.len(), m@.len() + 1),
{
    let ghost t = rows_of(m@);
    let ghost all = exchanged(t, i as int, j as int);
    let n: usize = m.len();
    let mut out: Vec<Vec<C64>> = Vec::new();
    let mut r: usize = 0;
    while r < n
        invariant
            r <= n,
            n == m@.len(),
            i < n,
            j < n,
            t == rows_of(m@),
            is_table(t, n as nat, (n + 1) as nat),
            all == exchanged(t, i as int, j as int),
            rows_of(out@) =~= all.take(r as int),
            forall|q: int| 0 <= q < r ==> (#[trigger] rows_of(out@)[q]).len() == n + 1,
        decreases n - r,
    {
        let ghost before = out@;
        let from: usize = if r == j {
            i
        } else if r == i {
            j
        } else {
            r
        };
        assert(t[from as int] == m@[from as int]@);
        let row = copy_row(&m[from]);
        assert(row@ == all[r as int]);
        out.push(row);
        assert(rows_of(out@) =~= rows_of(before).push(row@));
        r = r + 1;
    }
    assert(all.take(n as int) =~= all);
    out
}

/// Solves a square system, with its right-hand sides at the end of its rows.
pub fn solve(m: Vec<Vec<C64>>) -> (res: Option<Vec<C64>>)
    requires
        is_table(rows_of(m@), m@.len(), m@.len() + 1),
    ensures
        match res {
            None => solution(rows_of(m@)) is None,
            Some(x) => solution(rows_of(m@)) == Some(x@) && x@.len() == m@.len(),
        },
{
    let ghost first = rows_of(m@);
    let n: usize = m.len();
    let mut cur = m;
    let mut k: usize = 0;
    while k < n
        invariant
            k <= n,
            n == cur@.len(),
            first == rows_of(m@),
            first.len() == n,
            is_table(rows_of(cur@), n as nat, (n + 1) as nat),
            reduced(first, 0) == reduced(rows_of(cur@), k as int),
        decreases n - k,
    {
        let ghost t = rows_of(cur@);
        let p: usize = find_pivot(&cur, k);
        assert(t[p as int] == cur@[p as int]@);
        if cur[p][k].norm().lt(Real { bits: PIVOT_BITS }) {
            assert(eliminated(t, k as int) is None);
            return None;
        }
        let e = exchange(&cur, k, p);
        assert(e@.len() == rows_of(e@).len());
        let c = clear_column(&e, k);
        assert(c@.len() == rows_of(c@).len());
        assert(eliminated(t, k as int) == Some(rows_of(c@)));
        cur = c;
        k = k + 1;
    }
    let ghost r = rows_of(cur@);
    assert(reduced(r, n as int) == Some(r));
    let ghost all = Seq::new(n as nat, |i: int| r[i][n as int].div_spec(r[i][i]));
    let mut x: Vec<C64> = Vec::new();
    let mut i: usize = 0;
    while i < n
        invariant
            i <= n,
            n == cur@.len(),
            r == rows_of(cur@),
            is_table(r, n as nat, (n + 1) as nat),
            all == Seq::new(n as nat, |i: int| r[i][n as int].div_spec(r[i][i])),
            x@ =~= all.take(i as int),
        decreases n - i,
    {
        assert(r[i as int] == cur@[i as int]@);
        x.push(cur[i][n].div(cur[i][i]));
        i = i + 1;
    }
    assert(x@ =~= all);
    Some(x)
}

/// Solves a system in the least-squares sense; none where its normal equations are
/// singular.
pub fn solve_complex_lstsq(a: &Vec<Vec<C64>>, b: &Vec<C64>, w: usize) -> (res: Option<Vec<C64>>)
    requires
        is_table(rows_of(a@), a@.len(), w as nat),
        b@.len() == a@.len(),
    ensures
        match res {
            None => solution(normal_equations(rows_of(a@), b@, w as nat)) is None,
            Some(x) => solution(normal_equations(rows_of(a@), b@, w as nat)) == Some(x@)
                && x@.len() == w,
        },
{
    let m = build_normal_equations(a, b, w);
    assert(m@.len() == rows_of(m@).len());
    solve(m)
}

} // verus!
