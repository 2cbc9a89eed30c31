use vstd::prelude::*;

verus! {

/// Sum of `f(row[i], i, y)` over the first `n` entries of a row.
pub open spec fn row_total<T>(row: Seq<T>, y: int, f: spec_fn(T, int, int) -> int, n: int) -> int
    decreases n,
{
    if n <= 0 {
        0
    } else {
        row_total(row, y, f, n - 1) + f(row[n - 1], n - 1, y)
    }
}

/// Sum of `f(rows[y][x], x, y)` over every entry of the first `m` rows.
pub open spec fn grid_total<T>(rows: Seq<Seq<T>>, f: spec_fn(T, int, int) -> int, m: int) -> int
    decreases m,
{
    if m <= 0 {
        0
    } else {
        grid_total(rows, f, m - 1) + row_total(rows[m - 1], m - 1, f, rows[m - 1].len() as int)
    }
}

/// `rows` with the single entry at column `x` of row `y` replaced by `v`.
pub open spec fn grid_update<T>(rows: Seq<Seq<T>>, x: int, y: int, v: T) -> Seq<Seq<T>> {
    rows.update(y, rows[y].update(x, v))
}

pub proof fn lemma_row_total_update<T>(
    row: Seq<T>,
    y: int,
    f: spec_fn(T, int, int) -> int,
    n: int,
    x: int,
    v: T,
)
    requires
        0 <= x < row.len(),
        n <= row.len(),
    ensures
        row_total(row.update(x, v), y, f, n) == row_total(row, y, f, n) + (if x < n {
            f(v, x, y) - f(row[x], x, y)
        } else {
            0
        }),
    decreases n,
{
    if n > 0 {
        lemma_row_total_update(row, y, f, n - 1, x, v);
    }
}

/// Replacing one entry changes the total by the difference of its two values.
pub proof fn lemma_grid_total_update<T>(
    rows: Seq<Seq<T>>,
    f: spec_fn(T, int, int) -> int,
    m: int,
    x: int,
    y: int,
    v: T,
)
    requires
        0 <= y < rows.len(),
        0 <= x < rows[y].len(),
        m <= rows.len(),
    ensures
        grid_total(grid_update(rows, x, y, v), f, m) == grid_total(rows, f, m) + (if y < m {
            f(v, x, y) - f(rows[y][x], x, y)
        } else {
            0
        }),
    decreases m,
{
    if m > 0 {
        lemma_grid_total_update(rows, f, m - 1, x, y, v);
        let r2 = grid_update(rows, x, y, v);
        if m - 1 == y {
            lemma_row_total_update(rows[y], y, f, rows[y].len() as int, x, v);
        } else {
            assert(r2[m - 1] == rows[m - 1]);
        }
    }
}

pub proof fn lemma_row_total_bounds<T>(row: Seq<T>, y: int, f: spec_fn(T, int, int) -> int, n: int)
    requires
        0 <= n <= row.len(),
        forall|i: int| 0 <= i < n ==> 0 <= #[trigger] f(row[i], i, y) <= 1,
    ensures
        0 <= row_total(row, y, f, n) <= n,
        row_total(row, y, f, n) == n <==> forall|i: int| 0 <= i < n ==> #[trigger] f(row[i], i, y) == 1,
        row_total(row, y, f, n) == 0 <==> forall|i: int| 0 <= i < n ==> #[trigger] f(row[i], i, y) == 0,
    decreases n,
{
    if n > 0 {
        lemma_row_total_bounds(row, y, f, n - 1);
        if row_total(row, y, f, n) == n {
            assert forall|i: int| 0 <= i < n implies #[trigger] f(row[i], i, y) == 1 by {
                if i < n - 1 {
                    assert(f(row[i], i, y) == 1);
                }
            }
        }
        if row_total(row, y, f, n) == 0 {
            assert forall|i: int| 0 <= i < n implies #[trigger] f(row[i], i, y) == 0 by {
                if i < n - 1 {
                    assert(f(row[i], i, y) == 0);
                }
            }
        }
    }
}

/// For 0/1-valued `f` on a grid of rows of length `w`, the total lies in
/// `[0, m * w]`, is `m * w` exactly when every value is 1, and is 0 exactly
/// when every value is 0.
pub proof fn lemma_grid_total_bounds<T>(rows: Seq<Seq<T>>, f: spec_fn(T, int, int) -> int, m: int, w: int)
    requires
        0 <= m <= rows.len(),
        0 <= w,
        forall|j: int| 0 <= j < m ==> (#[trigger] rows[j]).len() == w,
        forall|i: int, j: int| 0 <= j < m && 0 <= i < w ==> 0 <= #[trigger] f(rows[j][i], i, j) <= 1,
    ensures
        0 <= grid_total(rows, f, m) <= m * w,
        grid_total(rows, f, m) == m * w <==> forall|i: int, j: int|
            0 <= j < m && 0 <= i < w ==> #[trigger] f(rows[j][i], i, j) == 1,
        grid_total(rows, f, m) == 0 <==> forall|i: int, j: int|
            0 <= j < m && 0 <= i < w ==> #[trigger] f(rows[j][i], i, j) == 0,
    decreases m,
{
    if m > 0 {
        lemma_grid_total_bounds(rows, f, m - 1, w);
        let j0 = m - 1;
        assert forall|i: int| 0 <= i < w implies 0 <= #[trigger] f(rows[j0][i], i, j0) <= 1 by {}
        lemma_row_total_bounds(rows[j0], j0, f, w);
        assert((m - 1) * w + w == m * w) by (nonlinear_arith);
        if grid_total(rows, f, m) == m * w {
            assert forall|i: int, j: int| 0 <= j < m && 0 <= i < w implies #[trigger] f(rows[j][i], i, j) == 1 by {
                if j < m - 1 {
                    assert(f(rows[j][i], i, j) == 1);
                } else {
                    assert(f(rows[j0][i], i, j0) == 1);
                }
            }
        }
        if forall|i: int, j: int| 0 <= j < m && 0 <= i < w ==> #[trigger] f(rows[j][i], i, j) == 1 {
            assert forall|i: int| 0 <= i < w implies #[trigger] f(rows[j0][i], i, j0) == 1 by {}
            assert forall|i: int, j: int| 0 <= j < m - 1 && 0 <= i < w implies #[trigger] f(rows[j][i], i, j) == 1 by {}
        }
        if grid_total(rows, f, m) == 0 {
            assert forall|i: int, j: int| 0 <= j < m && 0 <= i < w implies #[trigger] f(rows[j][i], i, j) == 0 by {
                if j < m - 1 {
                    assert(f(rows[j][i], i, j) == 0);
                } else {
                    assert(f(rows[j0][i], i, j0) == 0);
                }
            }
        }
        if forall|i: int, j: int| 0 <= j < m && 0 <= i < w ==> #[trigger] f(rows[j][i], i, j) == 0 {
            assert forall|i: int| 0 <= i < w implies #[trigger] f(rows[j0][i], i, j0) == 0 by {}
            assert forall|i: int, j: int| 0 <= j < m - 1 && 0 <= i < w implies #[trigger] f(rows[j][i], i, j) == 0 by {}
        }
    }
}

/// Totals over two grids of the same shape are equal when the values agree
/// entry by entry.
pub proof fn lemma_grid_total_agree<T, U>(
    rows1: Seq<Seq<T>>,
    f: spec_fn(T, int, int) -> int,
    rows2: Seq<Seq<U>>,
    g: spec_fn(U, int, int) -> int,
    m: int,
)
    requires
        m <= rows1.len(),
        m <= rows2.len(),
        forall|j: int| 0 <= j < m ==> (#[trigger] rows1[j]).len() == rows2[j].len(),
        forall|i: int, j: int|
            0 <= j < m && 0 <= i < rows1[j].len() ==> #[trigger] f(rows1[j][i], i, j) == g(rows2[j][i], i, j),
    ensures
        grid_total(rows1, f, m) == grid_total(rows2, g, m),
    decreases m,
{
    if m > 0 {
        lemma_grid_total_agree(rows1, f, rows2, g, m - 1);
        let j = m - 1;
        assert(rows1[j].len() == rows2[j].len());
        lemma_row_total_agree(rows1[j], f, rows2[j], g, j, rows1[j].len() as int);
    }
}

pub proof fn lemma_row_total_agree<T, U>(
    row1: Seq<T>,
    f: spec_fn(T, int, int) -> int,
    row2: Seq<U>,
    g: spec_fn(U, int, int) -> int,
    y: int,
    n: int,
)
    requires
        n <= row1.len(),
        n <= row2.len(),
        forall|i: int| 0 <= i < n ==> #[trigger] f(row1[i], i, y) == g(row2[i], i, y),
    ensures
        row_total(row1, y, f, n) == row_total(row2, y, g, n),
    decreases n,
{
    if n > 0 {
        lemma_row_total_agree(row1, f, row2, g, y, n - 1);
    }
}

/// With every value in `[0, k]`, the total over `m` rows of length `w` is at
/// most `k * m * w`, and each row prefix of length `n` at most `k * n`.
pub proof fn lemma_grid_total_at_most<T>(rows: Seq<Seq<T>>, f: spec_fn(T, int, int) -> int, m: int, w: int, k: int)
    requires
        0 <= m <= rows.len(),
        0 <= w,
        0 <= k,
        forall|j: int| 0 <= j < m ==> (#[trigger] rows[j]).len() == w,
        forall|i: int, j: int| 0 <= j < m && 0 <= i < w ==> 0 <= #[trigger] f(rows[j][i], i, j) <= k,
    ensures
        0 <= grid_total(rows, f, m) <= k * m * w,
    decreases m,
{
    if m > 0 {
        lemma_grid_total_at_most(rows, f, m - 1, w, k);
        let j = m - 1;
        assert forall|i: int| 0 <= i < w implies 0 <= #[trigger] f(rows[j][i], i, j) <= k by {}
        lemma_row_total_at_most(rows[j], j, f, w, k);
        assert(k * (m - 1) * w + k * w == k * m * w) by (nonlinear_arith);
    }
}

pub proof fn lemma_row_total_at_most<T>(row: Seq<T>, y: int, f: spec_fn(T, int, int) -> int, n: int, k: int)
    requires
        0 <= n <= row.len(),
        0 <= k,
        forall|i: int| 0 <= i < n ==> 0 <= #[trigger] f(row[i], i, y) <= k,
    ensures
        0 <= row_total(row, y, f, n) <= k * n,
    decreases n,
{
    if n > 0 {
        lemma_row_total_at_most(row, y, f, n - 1, k);
        assert(k * (n - 1) + k == k * n) by (nonlinear_arith);
    }
}

/// A total does not grow when every entry's value does not grow.
pub proof fn lemma_grid_total_le<T>(
    rows1: Seq<Seq<T>>,
    rows2: Seq<Seq<T>>,
    f: spec_fn(T, int, int) -> int,
    m: int,
)
    requires
        m <= rows1.len(),
        m <= rows2.len(),
        forall|j: int| 0 <= j < m ==> (#[trigger] rows1[j]).len() == rows2[j].len(),
        forall|i: int, j: int|
            0 <= j < m && 0 <= i < rows1[j].len() ==> #[trigger] f(rows2[j][i], i, j) <= f(rows1[j][i], i, j),
    ensures
        grid_total(rows2, f, m) <= grid_total(rows1, f, m),
    decreases m,
{
    if m > 0 {
        lemma_grid_total_le(rows1, rows2, f, m - 1);
        let j = m - 1;
        assert(rows1[j].len() == rows2[j].len());
        lemma_row_total_le(rows1[j], rows2[j], j, f, rows1[j].len() as int);
    }
}

pub proof fn lemma_row_total_le<T>(
    row1: Seq<T>,
    row2: Seq<T>,
    y: int,
    f: spec_fn(T, int, int) -> int,
    n: int,
)
    requires
        n <= row1.len(),
        n <= row2.len(),
        forall|i: int| 0 <= i < n ==> #[trigger] f(row2[i], i, y) <= f(row1[i], i, y),
    ensures
        row_total(row2, y, f, n) <= row_total(row1, y, f, n),
    decreases n,
{
    if n > 0 {
        lemma_row_total_le(row1, row2, y, f, n - 1);
    }
}

/// Raising the value at one entry by 1 raises the row total by 1 when the
/// entry lies among the first `n`.
pub proof fn lemma_row_total_bump<T>(
    row: Seq<T>,
    y: int,
    f: spec_fn(T, int, int) -> int,
    g: spec_fn(T, int, int) -> int,
    n: int,
    x0: int,
)
    requires
        n <= row.len(),
        forall|i: int| 0 <= i < n ==> #[trigger] g(row[i], i, y) == f(row[i], i, y) + (if i == x0 { 1int } else { 0int }),
    ensures
        row_total(row, y, g, n) == row_total(row, y, f, n) + (if 0 <= x0 < n { 1int } else { 0int }),
    decreases n,
{
    if n > 0 {
        lemma_row_total_bump(row, y, f, g, n - 1, x0);
    }
}

/// Raising the value at one entry of the grid by 1 raises the total by 1.
pub proof fn lemma_grid_total_bump<T>(
    rows: Seq<Seq<T>>,
    f: spec_fn(T, int, int) -> int,
    g: spec_fn(T, int, int) -> int,
    m: int,
    w: int,
    x0: int,
    y0: int,
)
    requires
        0 <= m <= rows.len(),
        forall|j: int| 0 <= j < m ==> (#[trigger] rows[j]).len() == w,
        0 <= x0 < w,
        0 <= y0 < m,
        forall|i: int, j: int|
            0 <= j < m && 0 <= i < w ==> #[trigger] g(rows[j][i], i, j) == f(rows[j][i], i, j) + (if i == x0 && j == y0 {
                1int
            } else {
                0int
            }),
    ensures
        grid_total(rows, g, m) == grid_total(rows, f, m) + 1,
    decreases m,
{
    let j = m - 1;
    assert(rows[j].len() == w);
    if j == y0 {
        assert forall|i: int, k: int| 0 <= k < j && 0 <= i < rows[k].len() implies #[trigger] g(rows[k][i], i, k) == f(
            rows[k][i],
            i,
            k,
        ) by {
            assert(rows[k].len() == w);
        }
        lemma_grid_total_agree(rows, g, rows, f, j);
        assert forall|i: int| 0 <= i < w implies #[trigger] g(rows[j][i], i, j) == f(rows[j][i], i, j) + (if i == x0 {
            1int
        } else {
            0int
        }) by {}
        lemma_row_total_bump(rows[j], j, f, g, w, x0);
    } else {
        lemma_grid_total_bump(rows, f, g, j, w, x0, y0);
        assert forall|i: int| 0 <= i < w implies #[trigger] g(rows[j][i], i, j) == f(rows[j][i], i, j) by {}
        lemma_row_total_agree(rows[j], g, rows[j], f, j, w);
    }
}

/// A row total does not exceed another when no entry does.
pub proof fn lemma_row_total_fn_le<T>(
    row: Seq<T>,
    y: int,
    f: spec_fn(T, int, int) -> int,
    g: spec_fn(T, int, int) -> int,
    n: int,
)
    requires
        n <= row.len(),
        forall|i: int| 0 <= i < n ==> #[trigger] f(row[i], i, y) <= g(row[i], i, y),
    ensures
        row_total(row, y, f, n) <= row_total(row, y, g, n),
    decreases n,
{
    if n > 0 {
        lemma_row_total_fn_le(row, y, f, g, n - 1);
    }
}

/// A row total falls short of another when no entry exceeds the other and
/// the entry `x0` falls short.
pub proof fn lemma_row_total_fn_lt<T>(
    row: Seq<T>,
    y: int,
    f: spec_fn(T, int, int) -> int,
    g: spec_fn(T, int, int) -> int,
    n: int,
    x0: int,
)
    requires
        n <= row.len(),
        0 <= x0 < n,
        forall|i: int| 0 <= i < n ==> #[trigger] f(row[i], i, y) <= g(row[i], i, y),
        f(row[x0], x0, y) < g(row[x0], x0, y),
    ensures
        row_total(row, y, f, n) < row_total(row, y, g, n),
    decreases n,
{
    if x0 < n - 1 {
        lemma_row_total_fn_lt(row, y, f, g, n - 1, x0);
    } else {
        lemma_row_total_fn_le(row, y, f, g, n - 1);
    }
}

/// A grid total does not exceed another when no entry does.
pub proof fn lemma_grid_total_fn_le<T>(
    rows: Seq<Seq<T>>,
    f: spec_fn(T, int, int) -> int,
    g: spec_fn(T, int, int) -> int,
    m: int,
    w: int,
)
    requires
        0 <= m <= rows.len(),
        forall|j: int| 0 <= j < m ==> (#[trigger] rows[j]).len() == w,
        forall|i: int, j: int| 0 <= j < m && 0 <= i < w ==> #[trigger] f(rows[j][i], i, j) <= g(rows[j][i], i, j),
    ensures
        grid_total(rows, f, m) <= grid_total(rows, g, m),
    decreases m,
{
    if m > 0 {
        let j = m - 1;
        lemma_grid_total_fn_le(rows, f, g, j, w);
        assert(rows[j].len() == w);
        assert forall|i: int| 0 <= i < w implies #[trigger] f(rows[j][i], i, j) <= g(rows[j][i], i, j) by {}
        lemma_row_total_fn_le(rows[j], j, f, g, w);
    }
}

/// With no entry above the other and the entries equal in total, every
/// entry is equal.
pub proof fn lemma_grid_total_fn_eq<T>(
    rows: Seq<Seq<T>>,
    f: spec_fn(T, int, int) -> int,
    g: spec_fn(T, int, int) -> int,
    m: int,
    w: int,
)
    requires
        0 <= m <= rows.len(),
        forall|j: int| 0 <= j < m ==> (#[trigger] rows[j]).len() == w,
        forall|i: int, j: int| 0 <= j < m && 0 <= i < w ==> #[trigger] f(rows[j][i], i, j) <= g(rows[j][i], i, j),
        grid_total(rows, f, m) == grid_total(rows, g, m),
    ensures
        forall|i: int, j: int| 0 <= j < m && 0 <= i < w ==> #[trigger] f(rows[j][i], i, j) == g(rows[j][i], i, j),
{
    assert forall|i: int, j: int| 0 <= j < m && 0 <= i < w implies #[trigger] f(rows[j][i], i, j) == g(rows[j][i], i, j) by {
        if f(rows[j][i], i, j) < g(rows[j][i], i, j) {
            lemma_grid_total_fn_lt(rows, f, g, m, w, i, j);
        }
    }
}

proof fn lemma_grid_total_fn_lt<T>(
    rows: Seq<Seq<T>>,
    f: spec_fn(T, int, int) -> int,
    g: spec_fn(T, int, int) -> int,
    m: int,
    w: int,
    x0: int,
    y0: int,
)
    requires
        0 <= m <= rows.len(),
        forall|j: int| 0 <= j < m ==> (#[trigger] rows[j]).len() == w,
        forall|i: int, j: int| 0 <= j < m && 0 <= i < w ==> #[trigger] f(rows[j][i], i, j) <= g(rows[j][i], i, j),
        0 <= x0 < w,
        0 <= y0 < m,
        f(rows[y0][x0], x0, y0) < g(rows[y0][x0], x0, y0),
    ensures
        grid_total(rows, f, m) < grid_total(rows, g, m),
    decreases m,
{
    let j = m - 1;
    assert(rows[j].len() == w);
    assert forall|i: int| 0 <= i < w implies #[trigger] f(rows[j][i], i, j) <= g(rows[j][i], i, j) by {}
    if j == y0 {
        lemma_grid_total_fn_le(rows, f, g, j, w);
        lemma_row_total_fn_lt(rows[j], j, f, g, w, x0);
    } else {
        lemma_grid_total_fn_lt(rows, f, g, j, w, x0, y0);
        lemma_row_total_fn_le(rows[j], j, f, g, w);
    }
}

} // verus!
