//! The mathematics of Gauss-Jordan elimination on an augmented matrix of real numbers.
//!
//! A grid is a sequence of rows. The functions here say which grid each step of the
//! elimination produces, when a step fails, and why the grid that comes out of a
//! successful run holds the one solution of the system that went in.

use vstd::prelude::*;
use crate::rational::{representable, in_range};
use crate::number_theory::{ratio, lemma_ratio_whole};

verus! {

/// Why a system could not be solved.
#[derive(Clone, Copy, Debug, PartialEq, Eq)]
pub enum SolveError {
    /// A pivot was zero when its row was to be normalised.
    Singular,
    /// An entry of the grid left the range of the number type.
    Overflow,
}

/// A grid of `n >= 1` rows with `n + 1` entries each.
pub open spec fn is_augmented(m: Seq<Seq<real>>) -> bool {
    &&& m.len() >= 1
    &&& forall|i: int| 0 <= i < m.len() ==> (#[trigger] m[i]).len() == m.len() + 1
}

/// Every entry of the row is in the range of the number type.
pub open spec fn row_fits(row: Seq<real>) -> bool {
    forall|c: int| 0 <= c < row.len() ==> representable(#[trigger] row[c])
}

/// Every entry of the grid is in the range of the number type.
pub open spec fn grid_fits(m: Seq<Seq<real>>) -> bool {
    forall|i: int| 0 <= i < m.len() ==> row_fits(#[trigger] m[i])
}

/// An augmented grid whose entries the number type can hold.
pub open spec fn is_system(m: Seq<Seq<real>>) -> bool {
    is_augmented(m) && grid_fits(m)
}

/// The row with every entry multiplied by `factor`.
pub open spec fn scaled_row(row: Seq<real>, factor: real) -> Seq<real> {
    Seq::new(row.len(), |c: int| row[c] * factor)
}

/// The row of the products `scale * source[c]`.
pub open spec fn multiple_row(source: Seq<real>, scale: real) -> Seq<real> {
    Seq::new(source.len(), |c: int| scale * source[c])
}

/// The row `target[c] - scale * source[c]`.
pub open spec fn combined_row(target: Seq<real>, source: Seq<real>, scale: real) -> Seq<real> {
    Seq::new(target.len(), |c: int| target[c] - scale * source[c])
}

/// Row `row` multiplied by `factor`.
pub open spec fn scale(m: Seq<Seq<real>>, row: int, factor: real) -> Result<
    Seq<Seq<real>>,
    SolveError,
> {
    if row_fits(scaled_row(m[row], factor)) {
        Ok(m.update(row, scaled_row(m[row], factor)))
    } else {
        Err(SolveError::Overflow)
    }
}

/// `scale` times row `source` subtracted from row `target`.
pub open spec fn combine(m: Seq<Seq<real>>, target: int, source: int, scale: real) -> Result<
    Seq<Seq<real>>,
    SolveError,
> {
    if row_fits(multiple_row(m[source], scale)) && row_fits(
        combined_row(m[target], m[source], scale),
    ) {
        Ok(m.update(target, combined_row(m[target], m[source], scale)))
    } else {
        Err(SolveError::Overflow)
    }
}

/// Row `i` divided by its diagonal entry.
pub open spec fn normalize(m: Seq<Seq<real>>, i: int) -> Result<Seq<Seq<real>>, SolveError> {
    if m[i][i] == 0real {
        Err(SolveError::Singular)
    } else {
        scale(m, i, 1real / m[i][i])
    }
}

/// Column `i` eliminated from the rows `j`, `j + 1`, ... by row `i`.
pub open spec fn clear_below(m: Seq<Seq<real>>, i: int, j: int) -> Result<
    Seq<Seq<real>>,
    SolveError,
>
    decreases m.len() - j,
    when j >= 0
{
    if j >= m.len() {
        Ok(m)
    } else {
        match combine(m, j, i, m[j][i]) {
            Ok(next) => clear_below(next, i, j + 1),
            Err(e) => Err(e),
        }
    }
}

/// Forward elimination with the pivots `i`, `i + 1`, ... up to the last row but one.
pub open spec fn forward(m: Seq<Seq<real>>, i: int) -> Result<Seq<Seq<real>>, SolveError>
    decreases m.len() - i,
    when i >= 0
{
    if i >= m.len() - 1 {
        Ok(m)
    } else {
        match normalize(m, i) {
            Err(e) => Err(e),
            Ok(a) => match clear_below(a, i, i + 1) {
                Err(e) => Err(e),
                Ok(b) => {
                    proof {
                        lemma_clear_below_len(a, i, i + 1);
                    }
                    forward(b, i + 1)
                },
            },
        }
    }
}

/// Column `i` eliminated from the rows `j`, `j - 1`, ... down to the first by row `i`.
pub open spec fn clear_above(m: Seq<Seq<real>>, i: int, j: int) -> Result<
    Seq<Seq<real>>,
    SolveError,
>
    decreases j + 1,
{
    if j < 0 {
        Ok(m)
    } else {
        match combine(m, j, i, m[j][i]) {
            Ok(next) => clear_above(next, i, j - 1),
            Err(e) => Err(e),
        }
    }
}

/// Back substitution with the pivots `i`, `i - 1`, ... down to the second row.
pub open spec fn backward(m: Seq<Seq<real>>, i: int) -> Result<Seq<Seq<real>>, SolveError>
    decreases i,
{
    if i < 1 {
        Ok(m)
    } else {
        match normalize(m, i) {
            Err(e) => Err(e),
            Ok(a) => match clear_above(a, i, i - 1) {
                Err(e) => Err(e),
                Ok(b) => backward(b, i - 1),
            },
        }
    }
}

/// The whole reduction: forward elimination, the last row normalised, back substitution.
pub open spec fn gauss_jordan(m: Seq<Seq<real>>) -> Result<Seq<Seq<real>>, SolveError> {
    match forward(m, 0) {
        Err(e) => Err(e),
        Ok(a) => match normalize(a, m.len() - 1) {
            Err(e) => Err(e),
            Ok(b) => backward(b, m.len() - 1),
        },
    }
}

/// The sum of `row[c] * v[c]` over the first `n` columns.
pub open spec fn dot(row: Seq<real>, v: Seq<real>, n: int) -> real
    decreases n,
{
    if n <= 0 {
        0real
    } else {
        dot(row, v, n - 1) + row[n - 1] * v[n - 1]
    }
}

/// `v` satisfies the equation that the row stands for.
pub open spec fn row_holds(row: Seq<real>, v: Seq<real>) -> bool {
    dot(row, v, v.len() as int) == row[v.len() as int]
}

/// `v` satisfies every equation of the system.
pub open spec fn solves(m: Seq<Seq<real>>, v: Seq<real>) -> bool {
    &&& v.len() == m.len()
    &&& forall|i: int| 0 <= i < m.len() ==> row_holds(#[trigger] m[i], v)
}

/// The two systems have the same solutions.
pub open spec fn same_solutions(a: Seq<Seq<real>>, b: Seq<Seq<real>>) -> bool {
    forall|v: Seq<real>| solves(a, v) <==> solves(b, v)
}

/// The last column of the grid.
pub open spec fn last_column(m: Seq<Seq<real>>) -> Seq<real> {
    Seq::new(m.len(), |i: int| m[i][m.len() as int])
}

/// The columns before `k` hold 1 on the diagonal and 0 below it.
pub open spec fn lower_cleared(m: Seq<Seq<real>>, k: int) -> bool {
    forall|r: int, c: int|
        0 <= c < k && c <= r < m.len() ==> #[trigger] m[r][c] == (if r == c {
            1real
        } else {
            0real
        })
}

/// The coefficient columns after `k` hold 0 above the diagonal.
pub open spec fn upper_cleared(m: Seq<Seq<real>>, k: int) -> bool {
    forall|r: int, c: int| k < c < m.len() && 0 <= r < c ==> #[trigger] m[r][c] == 0real
}

/// The coefficient block is the identity matrix.
pub open spec fn is_reduced(m: Seq<Seq<real>>) -> bool {
    forall|r: int, c: int|
        0 <= r < m.len() && 0 <= c < m.len() ==> #[trigger] m[r][c] == (if r == c {
            1real
        } else {
            0real
        })
}

/// Eliminating a column keeps the number of rows.
pub proof fn lemma_clear_below_len(m: Seq<Seq<real>>, i: int, j: int)
    requires
        j >= 0,
    ensures
        clear_below(m, i, j) matches Ok(r) ==> r.len() == m.len(),
    decreases m.len() - j,
{
    if j < m.len() {
        if let Ok(next) = combine(m, j, i, m[j][i]) {
            lemma_clear_below_len(next, i, j + 1);
        }
    }
}

/// The sum against a scaled row is the scaled sum.
proof fn lemma_dot_scaled(row: Seq<real>, f: real, v: Seq<real>, n: int)
    requires
        0 <= n <= row.len(),
    ensures
        dot(scaled_row(row, f), v, n) == dot(row, v, n) * f,
    decreases n,
{
    if n > 0 {
        lemma_dot_scaled(row, f, v, n - 1);
        let a: real = dot(row, v, n - 1);
        let b: real = row[n - 1];
        let c: real = v[n - 1];
        assert(a * f + (b * f) * c == (a + b * c) * f) by (nonlinear_arith);
    }
}

/// The sum against a combined row is the combination of the sums.
proof fn lemma_dot_combined(t: Seq<real>, s: Seq<real>, k: real, v: Seq<real>, n: int)
    requires
        0 <= n <= t.len(),
    ensures
        dot(combined_row(t, s, k), v, n) == dot(t, v, n) - k * dot(s, v, n),
    decreases n,
{
    if n > 0 {
        lemma_dot_combined(t, s, k, v, n - 1);
        let a: real = dot(t, v, n - 1);
        let b: real = dot(s, v, n - 1);
        let x: real = t[n - 1];
        let y: real = s[n - 1];
        let c: real = v[n - 1];
        assert((a - k * b) + (x - k * y) * c == (a + x * c) - k * (b + y * c))
            by (nonlinear_arith);
    }
}

/// Against a row that is 1 in column `i` and 0 elsewhere, the sum picks `v[i]`.
proof fn lemma_dot_unit(row: Seq<real>, v: Seq<real>, n: int, i: int)
    requires
        0 <= n <= row.len(),
        forall|c: int| 0 <= c < n ==> #[trigger] row[c] == (if c == i {
            1real
        } else {
            0real
        }),
    ensures
        dot(row, v, n) == (if 0 <= i < n {
            v[i]
        } else {
            0real
        }),
    decreases n,
{
    if n > 0 {
        lemma_dot_unit(row, v, n - 1, i);
        let b: real = row[n - 1];
        let c: real = v[n - 1];
        assert(b * c == (if n - 1 == i {
            c
        } else {
            0real
        })) by (nonlinear_arith)
            requires
                b == (if n - 1 == i {
                    1real
                } else {
                    0real
                }),
        ;
    }
}

/// Multiplying a row by a number other than zero keeps the solutions of the system.
pub proof fn lemma_scale_same_solutions(m: Seq<Seq<real>>, r: int, f: real)
    requires
        is_augmented(m),
        0 <= r < m.len(),
        f != 0real,
    ensures
        same_solutions(m, m.update(r, scaled_row(m[r], f))),
{
    let m2 = m.update(r, scaled_row(m[r], f));
    let n: int = m.len() as int;
    assert forall|v: Seq<real>| solves(m, v) <==> solves(m2, v) by {
        if v.len() == n {
            lemma_dot_scaled(m[r], f, v, n);
            let a: real = dot(m[r], v, n);
            let b: real = m[r][n];
            assert((a * f == b * f) <==> a == b) by (nonlinear_arith)
                requires
                    f != 0real,
            ;
            assert(row_holds(m2[r], v) <==> row_holds(m[r], v));
            if solves(m, v) {
                assert forall|i: int| 0 <= i < n implies row_holds(#[trigger] m2[i], v) by {
                    if i != r {
                        assert(m2[i] == m[i]);
                    }
                }
            }
            if solves(m2, v) {
                assert forall|i: int| 0 <= i < n implies row_holds(#[trigger] m[i], v) by {
                    assert(row_holds(m2[i], v));
                    if i != r {
                        assert(m2[i] == m[i]);
                    }
                }
            }
        }
    }
}

/// Subtracting a multiple of one row from another row keeps the solutions of the
/// system.
pub proof fn lemma_combine_same_solutions(m: Seq<Seq<real>>, t: int, s: int, k: real)
    requires
        is_augmented(m),
        0 <= t < m.len(),
        0 <= s < m.len(),
        t != s,
    ensures
        same_solutions(m, m.update(t, combined_row(m[t], m[s], k))),
{
    let m2 = m.update(t, combined_row(m[t], m[s], k));
    let n: int = m.len() as int;
    assert forall|v: Seq<real>| solves(m, v) <==> solves(m2, v) by {
        if v.len() == n {
            lemma_dot_combined(m[t], m[s], k, v, n);
            assert(m2[s] == m[s]);
            if solves(m, v) {
                assert(row_holds(m[s], v));
                assert(row_holds(m[t], v));
                assert forall|i: int| 0 <= i < n implies row_holds(#[trigger] m2[i], v) by {
                    if i != t {
                        assert(m2[i] == m[i]);
                    }
                }
            }
            if solves(m2, v) {
                assert(row_holds(m2[s], v));
                assert(row_holds(m2[t], v));
                assert forall|i: int| 0 <= i < n implies row_holds(#[trigger] m[i], v) by {
                    assert(row_holds(m2[i], v));
                    if i != t {
                        assert(m2[i] == m[i]);
                    }
                }
            }
        }
    }
}

/// What a successful scaling of row `r` leaves of a system.
proof fn lemma_scale_system(m: Seq<Seq<real>>, r: int, f: real)
    requires
        is_system(m),
        0 <= r < m.len(),
        scale(m, r, f) is Ok,
    ensures
        is_system(scale(m, r, f)->Ok_0),
        scale(m, r, f)->Ok_0.len() == m.len(),
{
    let m2 = scale(m, r, f)->Ok_0;
    assert forall|i: int| 0 <= i < m2.len() implies (#[trigger] m2[i]).len() == m2.len() + 1
        && row_fits(m2[i]) by {
        if i != r {
            assert(m2[i] == m[i]);
        }
    }
}

/// What a successful combination into row `t` leaves of a system.
proof fn lemma_combine_system(m: Seq<Seq<real>>, t: int, s: int, k: real)
    requires
        is_system(m),
        0 <= t < m.len(),
        0 <= s < m.len(),
        combine(m, t, s, k) is Ok,
    ensures
        is_system(combine(m, t, s, k)->Ok_0),
        combine(m, t, s, k)->Ok_0.len() == m.len(),
{
    let m2 = combine(m, t, s, k)->Ok_0;
    assert forall|i: int| 0 <= i < m2.len() implies (#[trigger] m2[i]).len() == m2.len() + 1
        && row_fits(m2[i]) by {
        if i != t {
            assert(m2[i] == m[i]);
        }
    }
}

/// Normalising row `i` keeps the cleared columns and the solutions, and sets the pivot to 1.
proof fn lemma_normalize(m: Seq<Seq<real>>, i: int)
    requires
        is_system(m),
        0 <= i < m.len(),
        lower_cleared(m, i),
    ensures
        match normalize(m, i) {
            Ok(r) => {
                &&& is_system(r)
                &&& r.len() == m.len()
                &&& same_solutions(m, r)
                &&& lower_cleared(r, i)
                &&& r[i][i] == 1real
            },
            Err(e) => true,
        },
{
    if let Ok(r) = normalize(m, i) {
        let p: real = m[i][i];
        let f: real = 1real / p;
        assert(f != 0real && p * f == 1real) by (nonlinear_arith)
            requires
                p != 0real,
                f == 1real / p,
        ;
        lemma_scale_system(m, i, f);
        lemma_scale_same_solutions(m, i, f);
        assert(r[i] == scaled_row(m[i], f));
        assert forall|x: int, c: int| 0 <= c < i && c <= x < r.len() implies #[trigger] r[x][c]
            == (if x == c {
            1real
        } else {
            0real
        }) by {
            if x == i {
                let e: real = m[i][c];
                assert(e * f == 0real) by (nonlinear_arith)
                    requires
                        e == 0real,
                ;
            } else {
                assert(r[x] == m[x]);
            }
        }
    }
}

/// Normalising a row whose pivot is already 1 changes nothing.
proof fn lemma_normalize_unit(m: Seq<Seq<real>>, i: int)
    requires
        is_system(m),
        0 <= i < m.len(),
        m[i][i] == 1real,
    ensures
        normalize(m, i) == Ok::<Seq<Seq<real>>, SolveError>(m),
{
    let f: real = 1real / m[i][i];
    assert(f == 1real) by (nonlinear_arith)
        requires
            f == 1real / m[i][i],
            m[i][i] == 1real,
    ;
    assert(scaled_row(m[i], f) =~= m[i]) by {
        assert forall|c: int| 0 <= c < m[i].len() implies scaled_row(m[i], f)[c] == m[i][c] by {
            let e: real = m[i][c];
            assert(e * f == e) by (nonlinear_arith)
                requires
                    f == 1real,
            ;
        }
    }
    assert(m.update(i, m[i]) =~= m);
}

/// Subtracting zero times a row changes nothing.
proof fn lemma_combine_zero(m: Seq<Seq<real>>, t: int, s: int)
    requires
        is_system(m),
        0 <= t < m.len(),
        0 <= s < m.len(),
    ensures
        combine(m, t, s, 0real) == Ok::<Seq<Seq<real>>, SolveError>(m),
{
    assert(representable(0real)) by {
        lemma_ratio_whole(0);
        assert(in_range(0, 1) && 0real == ratio(0, 1));
    }
    assert(row_fits(multiple_row(m[s], 0real)));
    assert(combined_row(m[t], m[s], 0real) =~= m[t]);
    assert(m.update(t, m[t]) =~= m);
}

/// Eliminating column `i` below the pivot clears it and keeps the solutions; it can
/// only fail by overflow.
proof fn lemma_clear_below(m: Seq<Seq<real>>, i: int, j: int)
    requires
        is_system(m),
        0 <= i < j <= m.len(),
        lower_cleared(m, i),
        m[i][i] == 1real,
        forall|r: int| i < r < j ==> (#[trigger] m[r])[i] == 0real,
    ensures
        match clear_below(m, i, j) {
            Ok(r) => {
                &&& is_system(r)
                &&& r.len() == m.len()
                &&& same_solutions(m, r)
                &&& lower_cleared(r, i + 1)
            },
            Err(e) => e == SolveError::Overflow,
        },
    decreases m.len() - j,
{
    if j >= m.len() {
        assert forall|r: int, c: int| 0 <= c < i + 1 && c <= r < m.len() implies #[trigger] m[r][c]
            == (if r == c {
            1real
        } else {
            0real
        }) by {
            if c == i && r != c {
                assert(m[r][i] == 0real);
            }
        }
    } else {
        let k: real = m[j][i];
        if let Ok(next) = combine(m, j, i, k) {
            lemma_combine_system(m, j, i, k);
            lemma_combine_same_solutions(m, j, i, k);
            assert(next[j] == combined_row(m[j], m[i], k));
            assert(next[i] == m[i]);
            assert forall|r: int, c: int| 0 <= c < i && c <= r < next.len() implies #[trigger] next[r][c]
                == (if r == c {
                1real
            } else {
                0real
            }) by {
                if r == j {
                    let e: real = m[i][c];
                    assert(k * e == 0real) by (nonlinear_arith)
                        requires
                            e == 0real,
                    ;
                    assert(m[j][c] == 0real);
                } else {
                    assert(next[r] == m[r]);
                }
            }
            assert forall|r: int| i < r < j + 1 implies (#[trigger] next[r])[i] == 0real by {
                if r == j {
                    let e: real = m[i][i];
                    assert(k - k * e == 0real) by (nonlinear_arith)
                        requires
                            e == 1real,
                    ;
                } else {
                    assert(next[r] == m[r]);
                }
            }
            lemma_clear_below(next, i, j + 1);
        }
    }
}

/// Forward elimination leaves every column but the last cleared below a unit diagonal
/// and keeps the solutions.
proof fn lemma_forward(m: Seq<Seq<real>>, i: int)
    requires
        is_system(m),
        0 <= i <= m.len() - 1,
        lower_cleared(m, i),
    ensures
        forward(m, i) matches Ok(r) ==> {
            &&& is_system(r)
            &&& r.len() == m.len()
            &&& same_solutions(m, r)
            &&& lower_cleared(r, m.len() - 1)
        },
    decreases m.len() - i,
{
    if i < m.len() - 1 {
        lemma_normalize(m, i);
        if let Ok(a) = normalize(m, i) {
            lemma_clear_below(a, i, i + 1);
            if let Ok(b) = clear_below(a, i, i + 1) {
                lemma_forward(b, i + 1);
            }
        }
    }
}

/// Eliminating column `i` above the pivot of a triangular grid clears it and keeps the
/// solutions; it can only fail by overflow.
proof fn lemma_clear_above(m: Seq<Seq<real>>, i: int, j: int)
    requires
        is_system(m),
        0 <= i < m.len(),
        -1 <= j < i,
        lower_cleared(m, m.len() as int),
        upper_cleared(m, i),
        forall|r: int| j < r < i ==> (#[trigger] m[r])[i] == 0real,
    ensures
        match clear_above(m, i, j) {
            Ok(r) => {
                &&& is_system(r)
                &&& r.len() == m.len()
                &&& same_solutions(m, r)
                &&& lower_cleared(r, m.len() as int)
                &&& upper_cleared(r, i - 1)
            },
            Err(e) => e == SolveError::Overflow,
        },
    decreases j + 1,
{
    let n: int = m.len() as int;
    if j < 0 {
        assert forall|r: int, c: int| i - 1 < c < n && 0 <= r < c implies #[trigger] m[r][c]
            == 0real by {
            if c == i {
                assert(m[r][i] == 0real);
            }
        }
    } else {
        let k: real = m[j][i];
        if let Ok(next) = combine(m, j, i, k) {
            lemma_combine_system(m, j, i, k);
            lemma_combine_same_solutions(m, j, i, k);
            assert(next[j] == combined_row(m[j], m[i], k));
            assert(next[i] == m[i]);
            // Row `i` is 1 in column `i` and 0 in every other coefficient column.
            assert forall|c: int| 0 <= c < n implies next[j][c] == (if c == i {
                0real
            } else {
                m[j][c]
            }) by {
                let e: real = m[i][c];
                assert(m[i][c] == (if c == i {
                    1real
                } else {
                    0real
                }));
                assert(k * e == (if c == i {
                    k
                } else {
                    0real
                })) by (nonlinear_arith)
                    requires
                        e == (if c == i {
                            1real
                        } else {
                            0real
                        }),
                ;
            }
            assert forall|r: int, c: int| 0 <= c < n && c <= r < next.len() implies #[trigger] next[r][c]
                == (if r == c {
                1real
            } else {
                0real
            }) by {
                if r == j {
                    assert(m[j][c] == (if j == c {
                        1real
                    } else {
                        0real
                    }));
                } else {
                    assert(next[r] == m[r]);
                }
            }
            assert forall|r: int, c: int| i < c < n && 0 <= r < c implies #[trigger] next[r][c]
                == 0real by {
                if r == j {
                    assert(m[j][c] == 0real);
                } else {
                    assert(next[r] == m[r]);
                }
            }
            assert forall|r: int| j - 1 < r < i implies (#[trigger] next[r])[i] == 0real by {
                if r != j {
                    assert(next[r] == m[r]);
                }
            }
            lemma_clear_above(next, i, j - 1);
        }
    }
}

/// Back substitution on a triangular grid with a unit diagonal leaves the identity and
/// keeps the solutions; it can only fail by overflow.
proof fn lemma_backward(m: Seq<Seq<real>>, i: int)
    requires
        is_system(m),
        0 <= i < m.len(),
        lower_cleared(m, m.len() as int),
        upper_cleared(m, i),
    ensures
        match backward(m, i) {
            Ok(r) => {
                &&& is_system(r)
                &&& r.len() == m.len()
                &&& same_solutions(m, r)
                &&& is_reduced(r)
            },
            Err(e) => e == SolveError::Overflow,
        },
    decreases i,
{
    if i < 1 {
        assert forall|r: int, c: int| 0 <= r < m.len() && 0 <= c < m.len() implies #[trigger] m[r][c]
            == (if r == c {
            1real
        } else {
            0real
        }) by {}
    } else {
        assert(m[i][i] == 1real);
        lemma_normalize_unit(m, i);
        lemma_clear_above(m, i, i - 1);
        if let Ok(b) = clear_above(m, i, i - 1) {
            lemma_backward(b, i - 1);
        }
    }
}

/// In a reduced system the last column is the one solution.
pub proof fn lemma_reduced_solution(m: Seq<Seq<real>>, v: Seq<real>)
    requires
        is_augmented(m),
        is_reduced(m),
    ensures
        solves(m, v) <==> v == last_column(m),
{
    let n: int = m.len() as int;
    if v.len() == n {
        assert forall|i: int| 0 <= i < n implies (row_holds(#[trigger] m[i], v) <==> v[i]
            == m[i][n]) by {
            assert forall|c: int| 0 <= c < n implies (#[trigger] m[i][c]) == (if c == i {
                1real
            } else {
                0real
            }) by {}
            lemma_dot_unit(m[i], v, n, i);
        }
        if solves(m, v) {
            assert forall|i: int| 0 <= i < n implies v[i] == last_column(m)[i] by {
                assert(row_holds(m[i], v));
            }
            assert(v =~= last_column(m));
        }
        if v == last_column(m) {
            assert forall|i: int| 0 <= i < n implies row_holds(#[trigger] m[i], v) by {
                assert(v[i] == m[i][n]);
            }
        }
    }
}

/// A successful reduction leaves the identity in the coefficient block, and its last
/// column is the one and only solution of the system that was given.
pub proof fn lemma_solution_recovered(m: Seq<Seq<real>>)
    requires
        is_system(m),
        gauss_jordan(m) is Ok,
    ensures
        is_system(gauss_jordan(m)->Ok_0),
        gauss_jordan(m)->Ok_0.len() == m.len(),
        is_reduced(gauss_jordan(m)->Ok_0),
        forall|v: Seq<real>| solves(m, v) <==> v == last_column(gauss_jordan(m)->Ok_0),
{
    let r = gauss_jordan(m)->Ok_0;
    let n: int = m.len() as int;
    lemma_forward(m, 0);
    let a = forward(m, 0)->Ok_0;
    lemma_normalize(a, n - 1);
    let b = normalize(a, n - 1)->Ok_0;
    assert(lower_cleared(b, n)) by {
        assert forall|x: int, c: int| 0 <= c < n && c <= x < b.len() implies #[trigger] b[x][c]
            == (if x == c {
            1real
        } else {
            0real
        }) by {}
    }
    lemma_backward(b, n - 1);
    assert forall|v: Seq<real>| solves(m, v) <==> v == last_column(r) by {
        lemma_reduced_solution(r, v);
        assert(solves(m, v) <==> solves(a, v));
        assert(solves(a, v) <==> solves(b, v));
        assert(solves(b, v) <==> solves(r, v));
    }
}

/// A system whose coefficient block is the identity comes out of the reduction unchanged.
pub proof fn lemma_identity_is_fixed(m: Seq<Seq<real>>)
    requires
        is_system(m),
        is_reduced(m),
    ensures
        gauss_jordan(m) == Ok::<Seq<Seq<real>>, SolveError>(m),
{
    let n: int = m.len() as int;
    lemma_forward_identity(m, 0);
    lemma_normalize_unit(m, n - 1);
    lemma_backward_identity(m, n - 1);
}

proof fn lemma_clear_below_identity(m: Seq<Seq<real>>, i: int, j: int)
    requires
        is_system(m),
        is_reduced(m),
        0 <= i < j <= m.len(),
    ensures
        clear_below(m, i, j) == Ok::<Seq<Seq<real>>, SolveError>(m),
    decreases m.len() - j,
{
    if j < m.len() {
        assert(m[j][i] == 0real);
        lemma_combine_zero(m, j, i);
        lemma_clear_below_identity(m, i, j + 1);
    }
}

proof fn lemma_forward_identity(m: Seq<Seq<real>>, i: int)
    requires
        is_system(m),
        is_reduced(m),
        0 <= i <= m.len() - 1,
    ensures
        forward(m, i) == Ok::<Seq<Seq<real>>, SolveError>(m),
    decreases m.len() - i,
{
    if i < m.len() - 1 {
        assert(m[i][i] == 1real);
        lemma_normalize_unit(m, i);
        lemma_clear_below_identity(m, i, i + 1);
        lemma_forward_identity(m, i + 1);
    }
}

proof fn lemma_clear_above_identity(m: Seq<Seq<real>>, i: int, j: int)
    requires
        is_system(m),
        is_reduced(m),
        0 <= i < m.len(),
        -1 <= j < i,
    ensures
        clear_above(m, i, j) == Ok::<Seq<Seq<real>>, SolveError>(m),
    decreases j + 1,
{
    if j >= 0 {
        assert(m[j][i] == 0real);
        lemma_combine_zero(m, j, i);
        lemma_clear_above_identity(m, i, j - 1);
    }
}

proof fn lemma_backward_identity(m: Seq<Seq<real>>, i: int)
    requires
        is_system(m),
        is_reduced(m),
        0 <= i < m.len(),
    ensures
        backward(m, i) == Ok::<Seq<Seq<real>>, SolveError>(m),
    decreases i,
{
    if i >= 1 {
        assert(m[i][i] == 1real);
        lemma_normalize_unit(m, i);
        lemma_clear_above_identity(m, i, i - 1);
        lemma_backward_identity(m, i - 1);
    }
}

/// A system whose first pivot is zero is reported as singular: no rows are exchanged.
pub proof fn lemma_zero_leading_pivot(m: Seq<Seq<real>>)
    requires
        is_augmented(m),
        m[0][0] == 0real,
    ensures
        gauss_jordan(m) == Err::<Seq<Seq<real>>, SolveError>(SolveError::Singular),
{
}

} // verus!
