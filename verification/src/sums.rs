//! Sums over a square grid.

use vstd::prelude::*;

verus! {

/// The sum of `f(i, j)` over the first `cols` columns of row `i`.
pub open spec fn row_total(f: spec_fn(int, int) -> int, i: int, cols: nat) -> int
    decreases cols,
{
    if cols == 0 {
        0
    } else {
        row_total(f, i, (cols - 1) as nat) + f(i, cols - 1)
    }
}

/// The sum of `f(i, j)` over the first `rows` rows and `cols` columns.
pub open spec fn grid_total(f: spec_fn(int, int) -> int, rows: nat, cols: nat) -> int
    decreases rows,
{
    if rows == 0 {
        0
    } else {
        grid_total(f, (rows - 1) as nat, cols) + row_total(f, rows - 1, cols)
    }
}

/// The square of the row.
pub open spec fn row_squared() -> spec_fn(int, int) -> int {
    |i: int, j: int| i * i
}

/// The product of row and column.
pub open spec fn row_times_column() -> spec_fn(int, int) -> int {
    |i: int, j: int| i * j
}

/// The row.
pub open spec fn row_itself() -> spec_fn(int, int) -> int {
    |i: int, j: int| i
}

proof fn lemma_row_squared(i: int, cols: nat)
    ensures
        row_total(row_squared(), i, cols) == cols * (i * i),
    decreases cols,
{
    if cols > 0 {
        lemma_row_squared(i, (cols - 1) as nat);
        assert((cols - 1) * (i * i) + i * i == cols * (i * i)) by (nonlinear_arith);
    } else {
        assert(0 * (i * i) == 0);
    }
}

proof fn lemma_row_itself(i: int, cols: nat)
    ensures
        row_total(row_itself(), i, cols) == cols * i,
    decreases cols,
{
    if cols > 0 {
        lemma_row_itself(i, (cols - 1) as nat);
        assert((cols - 1) * i + i == cols * i) by (nonlinear_arith);
    } else {
        assert(0 * i == 0);
    }
}

proof fn lemma_row_times_column(i: int, cols: nat)
    ensures
        2 * row_total(row_times_column(), i, cols) == i * (cols * (cols - 1)),
    decreases cols,
{
    if cols > 0 {
        lemma_row_times_column(i, (cols - 1) as nat);
        assert(i * ((cols - 1) * (cols - 2)) + 2 * (i * (cols - 1)) == i * (cols * (cols - 1)))
            by (nonlinear_arith);
    } else {
        assert(i * (0 * (0 - 1int)) == 0) by (nonlinear_arith);
    }
}

proof fn lemma_grid_squared(rows: nat, cols: nat)
    ensures
        6 * grid_total(row_squared(), rows, cols) == cols * ((rows - 1) * rows * (2 * rows - 1)),
    decreases rows,
{
    if rows > 0 {
        let k = rows - 1;
        lemma_grid_squared(k as nat, cols);
        lemma_row_squared(k, cols);
        assert(cols * ((k - 1) * k * (2 * k - 1)) + 6 * (cols * (k * k)) == cols * (k * (k + 1) * (
        2 * (k + 1) - 1))) by (nonlinear_arith);
    } else {
        assert(cols * ((0 - 1int) * 0 * (0 - 1int)) == 0) by (nonlinear_arith);
    }
}

proof fn lemma_grid_product(rows: nat, cols: nat)
    ensures
        4 * grid_total(row_times_column(), rows, cols) == (cols * (cols - 1)) * (rows * (rows - 1)),
    decreases rows,
{
    let c = cols * (cols - 1);
    if rows > 0 {
        let k = rows - 1;
        lemma_grid_product(k as nat, cols);
        lemma_row_times_column(k, cols);
        assert(c * (k * (k - 1)) + 2 * (k * c) == c * ((k + 1) * k)) by (nonlinear_arith);
    } else {
        assert(c * (0 * (0 - 1int)) == 0) by (nonlinear_arith);
    }
}

proof fn lemma_grid_itself(rows: nat, cols: nat)
    ensures
        2 * grid_total(row_itself(), rows, cols) == cols * (rows * (rows - 1)),
    decreases rows,
{
    if rows > 0 {
        let k = rows - 1;
        lemma_grid_itself(k as nat, cols);
        lemma_row_itself(k, cols);
        assert(cols * (k * (k - 1)) + 2 * (cols * k) == cols * ((k + 1) * k)) by (nonlinear_arith);
    } else {
        assert(cols * (0 * (0 - 1int)) == 0) by (nonlinear_arith);
    }
}

/// The sums of the coordinate terms over an `n` x `n` grid depend on `n`
/// alone, so they need no summing.
pub proof fn law_coordinate_sums(n: nat)
    ensures
        6 * grid_total(row_squared(), n, n) == (n - 1) * (2 * n - 1) * (n * n),
        4 * grid_total(row_times_column(), n, n) == (n - 1) * (n - 1) * (n * n),
        2 * grid_total(row_itself(), n, n) == (n - 1) * (n * n),
{
    lemma_grid_squared(n, n);
    lemma_grid_product(n, n);
    lemma_grid_itself(n, n);
    let m = n - 1;
    assert(n * (m * n * (2 * n - 1)) == m * (2 * n - 1) * (n * n)) by (nonlinear_arith);
    assert((n * m) * (n * m) == m * m * (n * n)) by (nonlinear_arith);
    assert(n * (n * m) == m * (n * n)) by (nonlinear_arith);
}

/// A factor of every term of a row is a factor of its sum.
pub proof fn lemma_row_factor(
    f: spec_fn(int, int) -> int,
    g: spec_fn(int, int) -> int,
    i: int,
    cols: nat,
)
    requires
        forall|j: int| #[trigger] g(i, j) == i * f(i, j),
    ensures
        row_total(g, i, cols) == i * row_total(f, i, cols),
    decreases cols,
{
    if cols > 0 {
        lemma_row_factor(f, g, i, (cols - 1) as nat);
        assert(i * (row_total(f, i, (cols - 1) as nat) + f(i, cols - 1)) == i * row_total(
            f,
            i,
            (cols - 1) as nat,
        ) + i * f(i, cols - 1)) by (nonlinear_arith);
    } else {
        assert(i * 0 == 0);
    }
}

proof fn lemma_row_bound(f: spec_fn(int, int) -> int, i: int, cols: nat, top: int)
    requires
        forall|j: int| 0 <= j < cols ==> 0 <= #[trigger] f(i, j) <= top,
    ensures
        0 <= row_total(f, i, cols) <= top * cols,
    decreases cols,
{
    if cols > 0 {
        lemma_row_bound(f, i, (cols - 1) as nat, top);
        assert(0 <= f(i, cols - 1) <= top);
        assert(top * (cols - 1) + top == top * cols) by (nonlinear_arith);
    } else {
        assert(top * 0 == 0);
    }
}

/// Bounded terms have bounded sums.
pub proof fn lemma_bound(f: spec_fn(int, int) -> int, rows: nat, cols: nat, top: int)
    requires
        forall|i: int, j: int| 0 <= i < rows && 0 <= j < cols ==> 0 <= #[trigger] f(i, j) <= top,
    ensures
        0 <= grid_total(f, rows, cols) <= top * cols * rows,
    decreases rows,
{
    if rows > 0 {
        lemma_bound(f, (rows - 1) as nat, cols, top);
        lemma_row_bound(f, rows - 1, cols, top);
        assert(top * cols * (rows - 1) + top * cols == top * cols * rows) by (nonlinear_arith);
    } else {
        assert(top * cols * 0 == 0);
    }
}

proof fn lemma_same_row(
    f: spec_fn(int, int) -> int,
    g: spec_fn(int, int) -> int,
    i: int,
    k: int,
    cols: nat,
)
    requires
        forall|j: int| 0 <= j < cols ==> #[trigger] f(i, j) == g(k, j),
    ensures
        row_total(f, i, cols) == row_total(g, k, cols),
    decreases cols,
{
    if cols > 0 {
        lemma_same_row(f, g, i, k, (cols - 1) as nat);
        assert(f(i, cols - 1) == g(k, cols - 1));
    }
}

/// The same terms have the same sum.
pub proof fn lemma_same_total(
    f: spec_fn(int, int) -> int,
    g: spec_fn(int, int) -> int,
    rows: nat,
    cols: nat,
)
    requires
        forall|i: int, j: int|
            0 <= i < rows && 0 <= j < cols ==> #[trigger] f(i, j) == g(i, j),
    ensures
        grid_total(f, rows, cols) == grid_total(g, rows, cols),
    decreases rows,
{
    if rows > 0 {
        lemma_same_total(f, g, (rows - 1) as nat, cols);
        lemma_same_row(f, g, rows - 1, rows - 1, cols);
    }
}

/// A row is the sum of its parts.
proof fn lemma_split_row(
    f: spec_fn(int, int) -> int,
    g: spec_fn(int, int) -> int,
    i: int,
    a: nat,
    b: nat,
)
    requires
        forall|i: int, j: int| #[trigger] g(i, j) == f(i, j + a),
    ensures
        row_total(f, i, a + b) == row_total(f, i, a) + row_total(g, i, b),
    decreases b,
{
    if b > 0 {
        lemma_split_row(f, g, i, a, (b - 1) as nat);
        assert(g(i, b - 1) == f(i, b - 1 + a));
        assert((a + b - 1) as nat == a + (b - 1) as nat);
    }
}

/// A grid is the sum of its left and right parts.
proof fn lemma_split_columns(
    f: spec_fn(int, int) -> int,
    g: spec_fn(int, int) -> int,
    rows: nat,
    a: nat,
    b: nat,
)
    requires
        forall|i: int, j: int| #[trigger] g(i, j) == f(i, j + a),
    ensures
        grid_total(f, rows, a + b) == grid_total(f, rows, a) + grid_total(g, rows, b),
    decreases rows,
{
    if rows > 0 {
        lemma_split_columns(f, g, (rows - 1) as nat, a, b);
        lemma_split_row(f, g, rows - 1, a, b);
    }
}

/// A grid is the sum of its upper and lower parts.
proof fn lemma_split_rows(
    f: spec_fn(int, int) -> int,
    g: spec_fn(int, int) -> int,
    a: nat,
    b: nat,
    cols: nat,
)
    requires
        forall|i: int, j: int| #[trigger] g(i, j) == f(i + a, j),
    ensures
        grid_total(f, a + b, cols) == grid_total(f, a, cols) + grid_total(g, b, cols),
    decreases b,
{
    if b > 0 {
        lemma_split_rows(f, g, a, (b - 1) as nat, cols);
        assert((a + b - 1) as nat == a + (b - 1) as nat);
        assert forall|j: int| 0 <= j < cols implies #[trigger] g(b - 1, j) == f(a + b - 1, j) by {
            assert(g(b - 1, j) == f(b - 1 + a, j));
        }
        lemma_same_row(g, f, b - 1, a + b - 1, cols);
    }
}

/// A square grid is the sum of its four quadrants.
pub proof fn lemma_quadrants_total(
    f: spec_fn(int, int) -> int,
    right: spec_fn(int, int) -> int,
    below: spec_fn(int, int) -> int,
    across: spec_fn(int, int) -> int,
    m: nat,
)
    requires
        forall|i: int, j: int| #[trigger] right(i, j) == f(i, j + m),
        forall|i: int, j: int| #[trigger] below(i, j) == f(i + m, j),
        forall|i: int, j: int| #[trigger] across(i, j) == f(i + m, j + m),
    ensures
        grid_total(f, 2 * m, 2 * m) == grid_total(f, m, m) + grid_total(right, m, m) + grid_total(
            below,
            m,
            m,
        ) + grid_total(across, m, m),
{
    lemma_split_rows(f, below, m, m, 2 * m);
    lemma_split_columns(f, right, m, m, m);
    assert forall|i: int, j: int| #[trigger] across(i, j) == below(i, j + m) by {}
    lemma_split_columns(below, across, m, m, m);
}

/// Where terms that are not negative sum up to zero, each is zero.
pub proof fn lemma_zero_term(f: spec_fn(int, int) -> int, rows: nat, cols: nat, i: int, j: int)
    requires
        forall|i: int, j: int| 0 <= #[trigger] f(i, j),
        grid_total(f, rows, cols) <= 0,
        0 <= i < rows,
        0 <= j < cols,
    ensures
        f(i, j) == 0,
    decreases rows,
{
    lemma_not_negative(f, (rows - 1) as nat, cols);
    lemma_row_not_negative(f, rows - 1, cols);
    if i == rows - 1 {
        lemma_zero_in_row(f, i, cols, j);
    } else {
        lemma_zero_term(f, (rows - 1) as nat, cols, i, j);
    }
}

proof fn lemma_zero_in_row(f: spec_fn(int, int) -> int, i: int, cols: nat, j: int)
    requires
        forall|i: int, j: int| 0 <= #[trigger] f(i, j),
        row_total(f, i, cols) <= 0,
        0 <= j < cols,
    ensures
        f(i, j) == 0,
    decreases cols,
{
    lemma_row_not_negative(f, i, (cols - 1) as nat);
    assert(0 <= f(i, cols - 1));
    if j < cols - 1 {
        lemma_zero_in_row(f, i, (cols - 1) as nat, j);
    }
}

/// Terms that are not negative have sums that are not.
pub proof fn lemma_not_negative(f: spec_fn(int, int) -> int, rows: nat, cols: nat)
    requires
        forall|i: int, j: int| 0 <= #[trigger] f(i, j),
    ensures
        0 <= grid_total(f, rows, cols),
    decreases rows,
{
    if rows > 0 {
        lemma_not_negative(f, (rows - 1) as nat, cols);
        lemma_row_not_negative(f, rows - 1, cols);
    }
}

proof fn lemma_row_not_negative(f: spec_fn(int, int) -> int, i: int, cols: nat)
    requires
        forall|i: int, j: int| 0 <= #[trigger] f(i, j),
    ensures
        0 <= row_total(f, i, cols),
    decreases cols,
{
    if cols > 0 {
        lemma_row_not_negative(f, i, (cols - 1) as nat);
        assert(0 <= f(i, cols - 1));
    }
}

proof fn lemma_one_term_of_row(
    f: spec_fn(int, int) -> int,
    g: spec_fn(int, int) -> int,
    row: int,
    cols: nat,
    j: int,
)
    requires
        0 <= j < cols,
        forall|b: int| 0 <= b < cols && b != j ==> #[trigger] f(row, b) == g(row, b),
    ensures
        row_total(g, row, cols) - row_total(f, row, cols) == g(row, j) - f(row, j),
    decreases cols,
{
    if j == cols - 1 {
        lemma_same_row(f, g, row, row, (cols - 1) as nat);
    } else {
        lemma_one_term_of_row(f, g, row, (cols - 1) as nat, j);
        assert(f(row, cols - 1) == g(row, cols - 1));
    }
}

/// Where one term changes, the sum changes by as much.
pub proof fn lemma_one_term(
    f: spec_fn(int, int) -> int,
    g: spec_fn(int, int) -> int,
    rows: nat,
    cols: nat,
    i: int,
    j: int,
)
    requires
        0 <= i < rows,
        0 <= j < cols,
        forall|a: int, b: int|
            0 <= a < rows && 0 <= b < cols && !(a == i && b == j) ==> #[trigger] f(a, b) == g(
                a,
                b,
            ),
    ensures
        grid_total(g, rows, cols) - grid_total(f, rows, cols) == g(i, j) - f(i, j),
    decreases rows,
{
    let last = rows - 1;
    if i == last {
        lemma_same_total(f, g, last as nat, cols);
        lemma_one_term_of_row(f, g, last, cols, j);
    } else {
        lemma_one_term(f, g, last as nat, cols, i, j);
        lemma_same_row(f, g, last, last, cols);
    }
}

} // verus!
