//! What solving the normal equations means.
//!
//! Coefficients are fractions with a common denominator: `a / d`, `b / d` and
//! `c / d`.

use crate::canvas::{inside, lemma_pixel_inside};
use crate::fit::{
    column_pixels, law_single_pixel_is_exact, lemma_edge_products, lemma_places_differ, may_fit,
    normal_sums, pixels, row_pixels, squared_distances, squared_error, NormalSums, MAX_EDGE,
};
use crate::plane::Plane;
use crate::sums::{
    grid_total, law_coordinate_sums, lemma_bound, lemma_not_negative, lemma_one_term, row_itself,
    row_squared, row_times_column, row_total,
};
use vstd::prelude::*;

verus! {

/// The plane with coefficients `a / d`, `b / d` and `c / d` solves the normal
/// equations.
pub open spec fn solves(sums: NormalSums, a: int, b: int, c: int, d: int) -> bool {
    &&& 2 * sums.sxx6 * a + 3 * sums.syx4 * b + 6 * sums.sx2 * c == 12 * (d * sums.sxz)
    &&& 3 * sums.syx4 * a + 2 * sums.sxx6 * b + 6 * sums.sx2 * c == 12 * (d * sums.syz)
    &&& sums.sx2 * a + sums.sx2 * b + 2 * sums.sn * c == 2 * (d * sums.sz)
}

/// How far the plane lies above each pixel, `d` times.
pub open spec fn residuals(
    z: spec_fn(int, int) -> int,
    a: int,
    b: int,
    c: int,
    d: int,
) -> spec_fn(int, int) -> int {
    |i: int, j: int| a * i + b * j + c - d * z(i, j)
}

/// The sum of the squared distances between a plane and an `n` x `n` square of
/// pixels, `d * d` times.
pub open spec fn distance(
    z: spec_fn(int, int) -> int,
    n: nat,
    a: int,
    b: int,
    c: int,
    d: int,
) -> int {
    grid_total(|i: int, j: int| residuals(z, a, b, c, d)(i, j) * residuals(z, a, b, c, d)(i, j), n, n)
}

proof fn lemma_row_combine(
    f: spec_fn(int, int) -> int,
    g: spec_fn(int, int) -> int,
    h: spec_fn(int, int) -> int,
    k: int,
    i: int,
    cols: nat,
)
    requires
        forall|i: int, j: int| #[trigger] h(i, j) == f(i, j) + k * g(i, j),
    ensures
        row_total(h, i, cols) == row_total(f, i, cols) + k * row_total(g, i, cols),
    decreases cols,
{
    if cols > 0 {
        let less = (cols - 1) as nat;
        lemma_row_combine(f, g, h, k, i, less);
        assert(h(i, cols - 1) == f(i, cols - 1) + k * g(i, cols - 1));
        assert(k * (row_total(g, i, less) + g(i, cols - 1)) == k * row_total(g, i, less) + k * g(
            i,
            cols - 1,
        )) by (nonlinear_arith);
    } else {
        assert(k * 0 == 0);
    }
}

/// Sums over a grid are linear.
proof fn lemma_combine(
    f: spec_fn(int, int) -> int,
    g: spec_fn(int, int) -> int,
    h: spec_fn(int, int) -> int,
    k: int,
    rows: nat,
    cols: nat,
)
    requires
        forall|i: int, j: int| #[trigger] h(i, j) == f(i, j) + k * g(i, j),
    ensures
        grid_total(h, rows, cols) == grid_total(f, rows, cols) + k * grid_total(g, rows, cols),
    decreases rows,
{
    if rows > 0 {
        let less = (rows - 1) as nat;
        lemma_combine(f, g, h, k, less, cols);
        lemma_row_combine(f, g, h, k, rows - 1, cols);
        assert(k * (grid_total(g, less, cols) + row_total(g, rows - 1, cols)) == k * grid_total(
            g,
            less,
            cols,
        ) + k * row_total(g, rows - 1, cols)) by (nonlinear_arith);
    } else {
        assert(k * 0 == 0);
    }
}

/// The column.
spec fn column_itself() -> spec_fn(int, int) -> int {
    |i: int, j: int| j
}

/// The square of the column.
spec fn column_squared() -> spec_fn(int, int) -> int {
    |i: int, j: int| j * j
}

proof fn lemma_row_of_columns(i: int, cols: nat)
    ensures
        2 * row_total(column_itself(), i, cols) == cols * (cols - 1),
        6 * row_total(column_squared(), i, cols) == (cols - 1) * cols * (2 * cols - 1),
    decreases cols,
{
    if cols > 0 {
        let k = cols - 1;
        lemma_row_of_columns(i, k as nat);
        assert(k * (k - 1) + 2 * k == (k + 1) * k) by (nonlinear_arith);
        assert((k - 1) * k * (2 * k - 1) + 6 * (k * k) == k * (k + 1) * (2 * (k + 1) - 1))
            by (nonlinear_arith);
    }
}

proof fn lemma_grid_of_columns(rows: nat, cols: nat)
    ensures
        2 * grid_total(column_itself(), rows, cols) == rows * (cols * (cols - 1)),
        6 * grid_total(column_squared(), rows, cols) == rows * ((cols - 1) * cols * (2 * cols - 1)),
    decreases rows,
{
    let (s, t) = (cols * (cols - 1), (cols - 1) * cols * (2 * cols - 1));
    if rows > 0 {
        lemma_grid_of_columns((rows - 1) as nat, cols);
        lemma_row_of_columns(rows - 1, cols);
        assert((rows - 1) * s + s == rows * s) by (nonlinear_arith);
        assert((rows - 1) * t + t == rows * t) by (nonlinear_arith);
    } else {
        assert(0 * s == 0 && 0 * t == 0);
    }
}

/// Over a square grid, columns sum up as rows do.
proof fn lemma_columns_as_rows(n: nat)
    ensures
        grid_total(column_itself(), n, n) == grid_total(row_itself(), n, n),
        grid_total(column_squared(), n, n) == grid_total(row_squared(), n, n),
{
    lemma_grid_of_columns(n, n);
    law_coordinate_sums(n);
    let m = n - 1;
    assert(n * (n * m) == m * (n * n)) by (nonlinear_arith);
    assert(n * (m * n * (2 * n - 1)) == m * (2 * n - 1) * (n * n)) by (nonlinear_arith);
}

/// One at every pixel.
spec fn ones() -> spec_fn(int, int) -> int {
    |i: int, j: int| 1
}

proof fn lemma_ones(rows: nat, cols: nat)
    ensures
        grid_total(ones(), rows, cols) == cols * rows,
    decreases rows,
{
    if rows > 0 {
        lemma_ones((rows - 1) as nat, cols);
        lemma_row_of_ones(rows - 1, cols);
        assert(cols * (rows - 1) + cols == cols * rows) by (nonlinear_arith);
    } else {
        assert(cols * 0 == 0);
    }
}

proof fn lemma_row_of_ones(i: int, cols: nat)
    ensures
        row_total(ones(), i, cols) == cols,
    decreases cols,
{
    if cols > 0 {
        lemma_row_of_ones(i, (cols - 1) as nat);
    }
}

/// The sums of a sub-image, without the limits of 64 bits.
proof fn lemma_sums(image: Seq<u8>, width: nat, x: int, y: int, n: nat)
    requires
        n <= MAX_EDGE,
    ensures
        ({
            let sums = normal_sums(image, width, x, y, n);
            &&& sums.sxx6 == 6 * grid_total(row_squared(), n, n)
            &&& sums.syx4 == 4 * grid_total(row_times_column(), n, n)
            &&& sums.sx2 == 2 * grid_total(row_itself(), n, n)
            &&& sums.sn == n * n
            &&& sums.sxz == grid_total(row_pixels(image, width, x, y), n, n)
            &&& sums.syz == grid_total(column_pixels(image, width, x, y), n, n)
            &&& sums.sz == grid_total(pixels(image, width, x, y), n, n)
        }),
{
    law_coordinate_sums(n);
    lemma_edge_products(n as int);
    let top: int = 11_816_955;
    let (z, iz, jz) = (
        pixels(image, width, x, y),
        row_pixels(image, width, x, y),
        column_pixels(image, width, x, y),
    );
    assert forall|i: int, j: int| 0 <= i < n && 0 <= j < n implies 0 <= #[trigger] iz(i, j)
        <= top by {
        let v = z(i, j);
        assert(0 <= i * v <= 11_816_955) by (nonlinear_arith)
            requires
                0 <= i <= 46341,
                0 <= v <= 255,
        ;
    }
    assert forall|i: int, j: int| 0 <= i < n && 0 <= j < n implies 0 <= #[trigger] jz(i, j)
        <= top by {
        let v = z(i, j);
        assert(0 <= j * v <= 11_816_955) by (nonlinear_arith)
            requires
                0 <= j <= 46341,
                0 <= v <= 255,
        ;
    }
    lemma_bound(z, n, n, top);
    lemma_bound(iz, n, n, top);
    lemma_bound(jz, n, n, top);
    assert(top * n * n <= i64::MAX) by (nonlinear_arith)
        requires
            top == 11_816_955,
            0 <= n <= 46341,
    ;
}

/// Weighed residuals, summed up.
proof fn lemma_residual_sum(
    z: spec_fn(int, int) -> int,
    weight: spec_fn(int, int) -> int,
    weighed_rows: spec_fn(int, int) -> int,
    weighed_columns: spec_fn(int, int) -> int,
    weighed_pixels: spec_fn(int, int) -> int,
    weighed_residuals: spec_fn(int, int) -> int,
    n: nat,
    a: int,
    b: int,
    c: int,
    d: int,
)
    requires
        forall|i: int, j: int| #[trigger] weighed_rows(i, j) == i * weight(i, j),
        forall|i: int, j: int| #[trigger] weighed_columns(i, j) == j * weight(i, j),
        forall|i: int, j: int| #[trigger] weighed_pixels(i, j) == z(i, j) * weight(i, j),
        forall|i: int, j: int| #[trigger]
            weighed_residuals(i, j) == residuals(z, a, b, c, d)(i, j) * weight(i, j),
    ensures
        grid_total(weighed_residuals, n, n) == a * grid_total(weighed_rows, n, n) + b * grid_total(
            weighed_columns,
            n,
            n,
        ) + c * grid_total(weight, n, n) - d * grid_total(weighed_pixels, n, n),
{
    let none = |i: int, j: int| 0int;
    let f1 = |i: int, j: int| a * weighed_rows(i, j);
    let f2 = |i: int, j: int| a * weighed_rows(i, j) + b * weighed_columns(i, j);
    let f3 = |i: int, j: int| a * weighed_rows(i, j) + b * weighed_columns(i, j) + c * weight(i, j);
    assert forall|i: int, j: int| #[trigger] f1(i, j) == none(i, j) + a * weighed_rows(i, j) by {}
    lemma_combine(none, weighed_rows, f1, a, n, n);
    lemma_combine(f1, weighed_columns, f2, b, n, n);
    lemma_combine(f2, weight, f3, c, n, n);
    assert forall|i: int, j: int| #[trigger] weighed_residuals(i, j) == f3(i, j) + (-d) * weighed_pixels(
        i,
        j,
    ) by {
        let (v, t) = (z(i, j), weight(i, j));
        let (ai, bj, dv) = (a * i, b * j, d * v);
        assert((ai + bj + c - dv) * t == ai * t + bj * t + c * t - dv * t) by (nonlinear_arith);
        assert(ai * t == a * (i * t)) by (nonlinear_arith)
            requires
                ai == a * i,
        ;
        assert(bj * t == b * (j * t)) by (nonlinear_arith)
            requires
                bj == b * j,
        ;
        assert(dv * t == -((-d) * (v * t))) by (nonlinear_arith)
            requires
                dv == d * v,
        ;
    }
    lemma_combine(f3, weighed_pixels, weighed_residuals, -d, n, n);
    lemma_bound(none, n, n, 0);
    let total = grid_total(weighed_pixels, n, n);
    assert((-d) * total == -(d * total)) by (nonlinear_arith);
    assert(0 * n * n == 0) by (nonlinear_arith);
}

/// The residuals of a plane, alone, and weighed by row or by column, summed up.
proof fn lemma_weighed_sums(
    image: Seq<u8>,
    width: nat,
    x: int,
    y: int,
    n: nat,
    a: int,
    b: int,
    c: int,
    d: int,
)
    ensures
        ({
            let e = residuals(pixels(image, width, x, y), a, b, c, d);
            let (sxx, sxy, sx) = (
                grid_total(row_squared(), n, n),
                grid_total(row_times_column(), n, n),
                grid_total(row_itself(), n, n),
            );
            &&& grid_total(e, n, n) == a * sx + b * sx + c * (n * n) - d * grid_total(
                pixels(image, width, x, y),
                n,
                n,
            )
            &&& grid_total(|i: int, j: int| i * e(i, j), n, n) == a * sxx + b * sxy + c * sx - d
                * grid_total(row_pixels(image, width, x, y), n, n)
            &&& grid_total(|i: int, j: int| j * e(i, j), n, n) == a * sxy + b * sxx + c * sx - d
                * grid_total(column_pixels(image, width, x, y), n, n)
        }),
{
    let z = pixels(image, width, x, y);
    let e = residuals(z, a, b, c, d);
    let ie = |i: int, j: int| i * e(i, j);
    let je = |i: int, j: int| j * e(i, j);
    let (one, row, col) = (ones(), row_itself(), column_itself());
    let (rr, rc, cc) = (row_squared(), row_times_column(), column_squared());
    let (rz, cz) = (row_pixels(image, width, x, y), column_pixels(image, width, x, y));
    lemma_columns_as_rows(n);
    lemma_ones(n, n);
    assert forall|i: int, j: int| #[trigger] rc(i, j) == j * row(i, j) by {
        assert(i * j == j * i) by (nonlinear_arith);
    }
    assert forall|i: int, j: int| #[trigger] rz(i, j) == z(i, j) * row(i, j) by {
        let v = z(i, j);
        assert(i * v == v * i) by (nonlinear_arith);
    }
    assert forall|i: int, j: int| #[trigger] cz(i, j) == z(i, j) * col(i, j) by {
        let v = z(i, j);
        assert(j * v == v * j) by (nonlinear_arith);
    }
    assert forall|i: int, j: int| #[trigger] ie(i, j) == e(i, j) * row(i, j) by {
        let v = e(i, j);
        assert(i * v == v * i) by (nonlinear_arith);
    }
    assert forall|i: int, j: int| #[trigger] je(i, j) == e(i, j) * col(i, j) by {
        let v = e(i, j);
        assert(j * v == v * j) by (nonlinear_arith);
    }
    lemma_residual_sum(z, one, row, col, z, e, n, a, b, c, d);
    lemma_residual_sum(z, row, rr, rc, rz, ie, n, a, b, c, d);
    lemma_residual_sum(z, col, rc, cc, cz, je, n, a, b, c, d);
}

/// The residuals of a solution are balanced: alone, and weighed by row or by
/// column, they sum up to zero.
proof fn lemma_balanced(
    image: Seq<u8>,
    width: nat,
    x: int,
    y: int,
    n: nat,
    a: int,
    b: int,
    c: int,
    d: int,
)
    requires
        n <= MAX_EDGE,
        solves(normal_sums(image, width, x, y, n), a, b, c, d),
    ensures
        ({
            let e = residuals(pixels(image, width, x, y), a, b, c, d);
            &&& grid_total(e, n, n) == 0
            &&& grid_total(|i: int, j: int| i * e(i, j), n, n) == 0
            &&& grid_total(|i: int, j: int| j * e(i, j), n, n) == 0
        }),
{
    lemma_sums(image, width, x, y, n);
    lemma_weighed_sums(image, width, x, y, n, a, b, c, d);
    let (sxx, sxy, sx) = (
        grid_total(row_squared(), n, n),
        grid_total(row_times_column(), n, n),
        grid_total(row_itself(), n, n),
    );
    let sums = normal_sums(image, width, x, y, n);
    let (sxz, syz, sz) = (sums.sxz as int, sums.syz as int, sums.sz as int);
    let sn = n * n;
    assert(a * sxx + b * sxy + c * sx == d * sxz) by (nonlinear_arith)
        requires
            2 * (6 * sxx) * a + 3 * (4 * sxy) * b + 6 * (2 * sx) * c == 12 * (d * sxz),
    ;
    assert(a * sxy + b * sxx + c * sx == d * syz) by (nonlinear_arith)
        requires
            3 * (4 * sxy) * a + 2 * (6 * sxx) * b + 6 * (2 * sx) * c == 12 * (d * syz),
    ;
    assert(a * sx + b * sx + c * sn == d * sz) by (nonlinear_arith)
        requires
            (2 * sx) * a + (2 * sx) * b + 2 * sn * c == 2 * (d * sz),
    ;
}

/// Whatever solves the normal equations of a sub-image is its plane of least
/// squares: no other plane lies closer to its pixels.
pub proof fn law_solution_is_least_squares(
    image: Seq<u8>,
    width: nat,
    x: int,
    y: int,
    n: nat,
    a: int,
    b: int,
    c: int,
    d: int,
    p: int,
    q: int,
    r: int,
)
    requires
        n <= MAX_EDGE,
        solves(normal_sums(image, width, x, y, n), a, b, c, d),
    ensures
        distance(pixels(image, width, x, y), n, a, b, c, d) <= distance(
            pixels(image, width, x, y),
            n,
            p,
            q,
            r,
            d,
        ),
{
    let z = pixels(image, width, x, y);
    let (e, g) = (residuals(z, a, b, c, d), residuals(z, p, q, r, d));
    let (u, v, w) = (p - a, q - b, r - c);
    let ee = |i: int, j: int| e(i, j) * e(i, j);
    let gg = |i: int, j: int| g(i, j) * g(i, j);
    let ie = |i: int, j: int| i * e(i, j);
    let je = |i: int, j: int| j * e(i, j);
    let tt = |i: int, j: int| (u * i + v * j + w) * (u * i + v * j + w);
    let h1 = |i: int, j: int| tt(i, j) + (2 * u) * ie(i, j);
    let h2 = |i: int, j: int| h1(i, j) + (2 * v) * je(i, j);
    let h3 = |i: int, j: int| h2(i, j) + (2 * w) * e(i, j);
    lemma_balanced(image, width, x, y, n, a, b, c, d);
    lemma_combine(tt, ie, h1, 2 * u, n, n);
    lemma_combine(h1, je, h2, 2 * v, n, n);
    lemma_combine(h2, e, h3, 2 * w, n, n);
    assert forall|i: int, j: int| #[trigger] gg(i, j) == h3(i, j) + 1 * ee(i, j) by {
        let (s, t) = (e(i, j), u * i + v * j + w);
        assert(g(i, j) == s + t) by (nonlinear_arith)
            requires
                g(i, j) == p * i + q * j + r - d * z(i, j),
                s == a * i + b * j + c - d * z(i, j),
                t == (p - a) * i + (q - b) * j + (r - c),
        ;
        let (ui, vj) = (u * i, v * j);
        assert((s + t) * (s + t) == t * t + 2 * (s * t) + s * s) by (nonlinear_arith);
        assert(s * t == s * ui + s * vj + s * w) by (nonlinear_arith)
            requires
                t == ui + vj + w,
        ;
        assert(2 * (s * ui) == (2 * u) * (i * s)) by (nonlinear_arith)
            requires
                ui == u * i,
        ;
        assert(2 * (s * vj) == (2 * v) * (j * s)) by (nonlinear_arith)
            requires
                vj == v * j,
        ;
        assert(2 * (s * w) == (2 * w) * s) by (nonlinear_arith);
    }
    lemma_combine(h3, ee, gg, 1, n, n);
    assert forall|i: int, j: int| 0 <= #[trigger] tt(i, j) by {
        let t = u * i + v * j + w;
        assert(0 <= t * t) by (nonlinear_arith);
    }
    lemma_not_negative(tt, n, n);
    assert((2 * u) * 0 == 0 && (2 * v) * 0 == 0 && (2 * w) * 0 == 0) by (nonlinear_arith);
    assert(distance(z, n, a, b, c, d) == grid_total(ee, n, n));
    assert(distance(z, n, p, q, r, d) == grid_total(gg, n, n));
}

/// The plane that pixels lie on solves their normal equations.
proof fn lemma_exact_plane_solves(
    image: Seq<u8>,
    width: nat,
    x: int,
    y: int,
    n: nat,
    a: int,
    b: int,
    c: int,
)
    requires
        n <= MAX_EDGE,
        forall|i: int, j: int|
            0 <= i < n && 0 <= j < n ==> #[trigger] pixels(image, width, x, y)(i, j) == a * i + b
                * j + c,
    ensures
        solves(normal_sums(image, width, x, y, n), a, b, c, 1),
{
    let z = pixels(image, width, x, y);
    let e = residuals(z, a, b, c, 1);
    let ie = |i: int, j: int| i * e(i, j);
    let je = |i: int, j: int| j * e(i, j);
    assert forall|i: int, j: int| 0 <= i < n && 0 <= j < n implies #[trigger] e(i, j) == 0 by {
        assert(z(i, j) == a * i + b * j + c);
    }
    assert forall|i: int, j: int| 0 <= i < n && 0 <= j < n implies #[trigger] ie(i, j) == 0 by {
        assert(e(i, j) == 0);
    }
    assert forall|i: int, j: int| 0 <= i < n && 0 <= j < n implies #[trigger] je(i, j) == 0 by {
        assert(e(i, j) == 0);
    }
    lemma_bound(e, n, n, 0);
    lemma_bound(ie, n, n, 0);
    lemma_bound(je, n, n, 0);
    assert(0 * n * n == 0) by (nonlinear_arith);
    lemma_weighed_sums(image, width, x, y, n, a, b, c, 1);
    lemma_sums(image, width, x, y, n);
    let sums = normal_sums(image, width, x, y, n);
    let (sxx, sxy, sx) = (
        grid_total(row_squared(), n, n),
        grid_total(row_times_column(), n, n),
        grid_total(row_itself(), n, n),
    );
    let sn = n * n;
    assert(2 * (6 * sxx) * a + 3 * (4 * sxy) * b + 6 * (2 * sx) * c == 12 * (a * sxx + b * sxy + c
        * sx)) by (nonlinear_arith);
    assert(3 * (4 * sxy) * a + 2 * (6 * sxx) * b + 6 * (2 * sx) * c == 12 * (a * sxy + b * sxx + c
        * sx)) by (nonlinear_arith);
    assert((2 * sx) * a + (2 * sx) * b + 2 * sn * c == 2 * (a * sx + b * sx + c * sn))
        by (nonlinear_arith);
}

/// Where the pixels of a sub-image lie on a plane, the normal equations have
/// that plane as their only solution, and it is fitted without error.
pub proof fn law_exact_plane_is_recovered(
    image: Seq<u8>,
    width: nat,
    x: int,
    y: int,
    n: nat,
    plane: Plane,
)
    requires
        2 <= n <= MAX_EDGE,
        forall|i: int, j: int|
            0 <= i < n && 0 <= j < n ==> #[trigger] pixels(image, width, x, y)(i, j) == plane.a * i
                + plane.b * j + plane.c,
    ensures
        ({
            let sums = normal_sums(image, width, x, y, n);
            &&& solves(sums, plane.a as int, plane.b as int, plane.c as int, 1)
            &&& forall|p: int, q: int, r: int| #[trigger]
                solves(sums, p, q, r, 1) ==> p == plane.a && q == plane.b && r == plane.c
        }),
        squared_error(image, width, x, y, n, plane) == 0,
{
    let z = pixels(image, width, x, y);
    let (a, b, c) = (plane.a as int, plane.b as int, plane.c as int);
    let sums = normal_sums(image, width, x, y, n);
    lemma_exact_plane_solves(image, width, x, y, n, a, b, c);
    assert forall|p: int, q: int, r: int| #[trigger] solves(sums, p, q, r, 1) implies p == a && q
        == b && r == c by {
        lemma_sums(image, width, x, y, n);
        lemma_only_solution(sums, n as int, a, b, c, p, q, r);
    }
    let f = squared_distances(image, width, x, y, plane);
    assert forall|i: int, j: int| 0 <= i < n && 0 <= j < n implies #[trigger] f(i, j) == 0 by {
        assert(z(i, j) == plane.a * i + plane.b * j + plane.c);
        assert(plane.pixel(i, j) == z(i, j));
        assert(0 * 0 == 0int);
    }
    lemma_bound(f, n, n, 0);
    assert(0 * n * n == 0) by (nonlinear_arith);
}

proof fn lemma_scaled(k: int, n: int, u: int, sxx6: int, syx4: int)
    requires
        sxx6 == k * (2 * n - 1),
        syx4 == k * (n - 1),
    ensures
        2 * sxx6 * u == k * (4 * (n * u) - 2 * u),
        3 * syx4 * u == k * (3 * (n * u) - 3 * u),
{
    assert(2 * (k * (2 * n - 1)) * u == k * (4 * (n * u) - 2 * u)) by (nonlinear_arith);
    assert(3 * (k * (n - 1)) * u == k * (3 * (n * u) - 3 * u)) by (nonlinear_arith);
}

/// The normal equations have one solution at most.
proof fn lemma_only_solution(
    sums: NormalSums,
    n: int,
    a: int,
    b: int,
    c: int,
    p: int,
    q: int,
    r: int,
)
    requires
        n >= 2,
        sums.sxx6 == 6 * grid_total(row_squared(), n as nat, n as nat),
        sums.syx4 == 4 * grid_total(row_times_column(), n as nat, n as nat),
        sums.sx2 == 2 * grid_total(row_itself(), n as nat, n as nat),
        sums.sn == n * n,
        solves(sums, a, b, c, 1),
        solves(sums, p, q, r, 1),
    ensures
        p == a,
        q == b,
        r == c,
{
    law_coordinate_sums(n as nat);
    let (m, s) = (n - 1, n * n);
    let k = m * s;
    let (u, v, w) = (p - a, q - b, r - c);
    let (nu, nv) = (n * u, n * v);
    assert(s > 0 && k > 0) by (nonlinear_arith)
        requires
            n >= 2,
            m == n - 1,
            s == n * n,
            k == m * s,
    ;
    let (sxx6, syx4, sx2) = (sums.sxx6 as int, sums.syx4 as int, sums.sx2 as int);
    assert(sxx6 == k * (2 * n - 1)) by (nonlinear_arith)
        requires
            sxx6 == m * (2 * n - 1) * s,
            k == m * s,
    ;
    assert(syx4 == k * m) by (nonlinear_arith)
        requires
            syx4 == m * m * s,
            k == m * s,
    ;
    assert(2 * sxx6 * u + 3 * syx4 * v + 6 * sx2 * w == 0) by (nonlinear_arith)
        requires
            2 * sxx6 * a + 3 * syx4 * b + 6 * sx2 * c == 2 * sxx6 * p + 3 * syx4 * q + 6 * sx2 * r,
            u == p - a,
            v == q - b,
            w == r - c,
    ;
    assert(3 * syx4 * u + 2 * sxx6 * v + 6 * sx2 * w == 0) by (nonlinear_arith)
        requires
            3 * syx4 * a + 2 * sxx6 * b + 6 * sx2 * c == 3 * syx4 * p + 2 * sxx6 * q + 6 * sx2 * r,
            u == p - a,
            v == q - b,
            w == r - c,
    ;
    assert(sx2 * u + sx2 * v + 2 * s * w == 0) by (nonlinear_arith)
        requires
            sx2 * a + sx2 * b + 2 * s * c == sx2 * p + sx2 * q + 2 * s * r,
            u == p - a,
            v == q - b,
            w == r - c,
    ;
    let first = 4 * nu - 2 * u + 3 * nv - 3 * v + 6 * w;
    let second = 3 * nu - 3 * u + 4 * nv - 2 * v + 6 * w;
    let third = nu - u + nv - v + 2 * w;
    lemma_scaled(k, n, u, sxx6, syx4);
    lemma_scaled(k, n, v, sxx6, syx4);
    assert(6 * sx2 * w == k * (6 * w)) by (nonlinear_arith)
        requires
            sx2 == k,
    ;
    assert(k * first == k * (4 * nu - 2 * u) + k * (3 * nv - 3 * v) + k * (6 * w))
        by (nonlinear_arith)
        requires
            first == (4 * nu - 2 * u) + (3 * nv - 3 * v) + 6 * w,
    ;
    assert(k * second == k * (3 * nu - 3 * u) + k * (4 * nv - 2 * v) + k * (6 * w))
        by (nonlinear_arith)
        requires
            second == (3 * nu - 3 * u) + (4 * nv - 2 * v) + 6 * w,
    ;
    assert(s * third == 0) by (nonlinear_arith)
        requires
            sx2 * u + sx2 * v + 2 * s * w == 0,
            sx2 == m * s,
            m == n - 1,
            third == n * u - u + n * v - v + 2 * w,
    ;
    assert(first == 0) by (nonlinear_arith)
        requires
            k * first == 0,
            k > 0,
    ;
    assert(second == 0) by (nonlinear_arith)
        requires
            k * second == 0,
            k > 0,
    ;
    assert(third == 0) by (nonlinear_arith)
        requires
            s * third == 0,
            s > 0,
    ;
    assert(u == 0) by (nonlinear_arith)
        requires
            n * u + u == 0,
            n >= 2,
    ;
    assert(v == 0) by (nonlinear_arith)
        requires
            n * v + v == 0,
            n >= 2,
    ;
}

/// The plane is the only integral solution of the normal equations.
pub open spec fn is_only_solution(sums: NormalSums, plane: Plane) -> bool {
    &&& solves(sums, plane.a as int, plane.b as int, plane.c as int, 1)
    &&& forall|p: int, q: int, r: int| #[trigger]
        solves(sums, p, q, r, 1) ==> p == plane.a && q == plane.b && r == plane.c
}

/// Where the normal equations have an integral solution and no other, the
/// solver gives it.
pub open spec fn finds_integral_solutions<S: Fn(NormalSums) -> Plane>(solve: S) -> bool {
    forall|sums: NormalSums, given: Plane, only: Plane|
        #![trigger call_ensures(solve, (sums,), given), is_only_solution(sums, only)]
        call_ensures(solve, (sums,), given) && is_only_solution(sums, only) ==> given == only
}

/// A sub-image of more than one pixel whose pixels are exactly `a*i + b*j + c`
/// is fitted with that plane, and without error, by any solver that finds
/// integral solutions: `a` goes with the row, `b` with the column.
pub proof fn law_exact_plane_is_fitted<S: Fn(NormalSums) -> Plane>(
    solve: S,
    image: Seq<u8>,
    width: nat,
    x: int,
    y: int,
    n: nat,
    a: i64,
    b: i64,
    c: i64,
    plane: Plane,
)
    requires
        2 <= n <= MAX_EDGE,
        finds_integral_solutions(solve),
        forall|i: int, j: int|
            0 <= i < n && 0 <= j < n ==> #[trigger] image[(x + i) * width + y + j] == a * i + b * j
                + c,
        may_fit(solve, image, width, x, y, n, plane),
    ensures
        plane.a == a,
        plane.b == b,
        plane.c == c,
        squared_error(image, width, x, y, n, plane) == 0,
{
    let exact = Plane { a, b, c };
    let sums = normal_sums(image, width, x, y, n);
    assert forall|i: int, j: int| 0 <= i < n && 0 <= j < n implies #[trigger] pixels(
        image,
        width,
        x,
        y,
    )(i, j) == exact.a * i + exact.b * j + exact.c by {
        assert(image[(x + i) * width + y + j] == a * i + b * j + c);
    }
    law_exact_plane_is_recovered(image, width, x, y, n, exact);
    assert(is_only_solution(sums, exact));
}

/// A flat sub-image is fitted with its grey, and without error.
pub proof fn law_flat_image_is_fitted<S: Fn(NormalSums) -> Plane>(
    solve: S,
    image: Seq<u8>,
    width: nat,
    x: int,
    y: int,
    n: nat,
    grey: u8,
    plane: Plane,
)
    requires
        1 <= n <= MAX_EDGE,
        finds_integral_solutions(solve),
        forall|i: int, j: int|
            0 <= i < n && 0 <= j < n ==> #[trigger] image[(x + i) * width + y + j] == grey,
        may_fit(solve, image, width, x, y, n, plane),
    ensures
        plane.a == 0,
        plane.b == 0,
        plane.c == grey,
        squared_error(image, width, x, y, n, plane) == 0,
{
    if n == 1 {
        assert(image[(x + 0) * width + y + 0] == grey);
        law_single_pixel_is_exact(solve, image, width, x, y, plane);
    } else {
        assert forall|i: int, j: int| 0 <= i < n && 0 <= j < n implies #[trigger] image[(x + i)
            * width + y + j] == 0i64 * i + 0i64 * j + grey as i64 by {
            assert(0i64 * i == 0 && 0i64 * j == 0) by (nonlinear_arith);
        }
        law_exact_plane_is_fitted(solve, image, width, x, y, n, 0, 0, grey as i64, plane);
    }
}

/// The sums of the coordinate terms depend on the edge alone. A black
/// sub-image has no other sums.
pub proof fn law_sums_of_a_black_square(image: Seq<u8>, width: nat, x: int, y: int, n: nat)
    requires
        n <= MAX_EDGE,
    ensures
        ({
            let sums = normal_sums(image, width, x, y, n);
            &&& sums.sxx6 == (n - 1) * (2 * n - 1) * (n * n)
            &&& sums.syx4 == (n - 1) * (n - 1) * (n * n)
            &&& sums.sx2 == (n - 1) * (n * n)
            &&& sums.sn == n * n
            &&& (forall|i: int, j: int|
                0 <= i < n && 0 <= j < n ==> #[trigger] image[(x + i) * width + y + j] == 0)
                ==> sums.sxz == 0 && sums.syz == 0 && sums.sz == 0
        }),
{
    lemma_sums(image, width, x, y, n);
    law_coordinate_sums(n);
    if forall|i: int, j: int|
        0 <= i < n && 0 <= j < n ==> #[trigger] image[(x + i) * width + y + j] == 0 {
        let (z, iz, jz) = (
            pixels(image, width, x, y),
            row_pixels(image, width, x, y),
            column_pixels(image, width, x, y),
        );
        assert forall|i: int, j: int| 0 <= i < n && 0 <= j < n implies 0 <= #[trigger] z(i, j)
            <= 0 by {
            assert(image[(x + i) * width + y + j] == 0);
        }
        assert forall|i: int, j: int| 0 <= i < n && 0 <= j < n implies 0 <= #[trigger] iz(i, j)
            <= 0 by {
            assert(image[(x + i) * width + y + j] == 0);
            assert(i * 0 == 0);
        }
        assert forall|i: int, j: int| 0 <= i < n && 0 <= j < n implies 0 <= #[trigger] jz(i, j)
            <= 0 by {
            assert(image[(x + i) * width + y + j] == 0);
            assert(j * 0 == 0);
        }
        lemma_bound(z, n, n, 0);
        lemma_bound(iz, n, n, 0);
        lemma_bound(jz, n, n, 0);
        assert(0 * n * n == 0) by (nonlinear_arith);
    }
}

/// Each pixel counts once in the sums: a brighter one adds as much to the sum
/// of the pixels, its row times as much to the sum by rows, and its column
/// times as much to the sum by columns.
pub proof fn law_sums_follow_each_pixel(
    image: Seq<u8>,
    width: nat,
    x: int,
    y: int,
    n: nat,
    i: int,
    j: int,
    value: u8,
)
    requires
        n <= MAX_EDGE,
        0 <= x,
        0 <= y,
        0 <= i < n,
        0 <= j < n <= width,
        inside(image.len(), width, x, y, n as int),
    ensures
        ({
            let k = (x + i) * width + y + j;
            let more = value - image[k];
            let (now, then) = (
                normal_sums(image, width, x, y, n),
                normal_sums(image.update(k, value), width, x, y, n),
            );
            &&& then.sz - now.sz == more
            &&& then.sxz - now.sxz == i * more
            &&& then.syz - now.syz == j * more
            &&& then.sxx6 == now.sxx6 && then.syx4 == now.syx4
            &&& then.sx2 == now.sx2 && then.sn == now.sn
        }),
{
    let k = (x + i) * width + y + j;
    let other = image.update(k, value);
    lemma_sums(image, width, x, y, n);
    lemma_sums(other, width, x, y, n);
    lemma_pixel_inside(image.len(), width, x, y, n as int, i, j);
    let (z, iz, jz) = (
        pixels(image, width, x, y),
        row_pixels(image, width, x, y),
        column_pixels(image, width, x, y),
    );
    let (u, iu, ju) = (
        pixels(other, width, x, y),
        row_pixels(other, width, x, y),
        column_pixels(other, width, x, y),
    );
    assert forall|a: int, b: int| 0 <= a < n && 0 <= b < n && !(a == i && b == j) implies #[trigger] z(
        a,
        b,
    ) == u(a, b) by {
        let l = (x + a) * width + y + b;
        if l == k {
            lemma_places_differ(width, x, y, i, j, a, b);
        }
        lemma_pixel_inside(image.len(), width, x, y, n as int, a, b);
        assert(other[l] == image[l]);
    }
    assert forall|a: int, b: int| 0 <= a < n && 0 <= b < n && !(a == i && b == j) implies #[trigger] iz(
        a,
        b,
    ) == iu(a, b) by {
        assert(z(a, b) == u(a, b));
    }
    assert forall|a: int, b: int| 0 <= a < n && 0 <= b < n && !(a == i && b == j) implies #[trigger] jz(
        a,
        b,
    ) == ju(a, b) by {
        assert(z(a, b) == u(a, b));
    }
    lemma_one_term(z, u, n, n, i, j);
    lemma_one_term(iz, iu, n, n, i, j);
    lemma_one_term(jz, ju, n, n, i, j);
    let (was, now) = (image[k] as int, value as int);
    assert(i * now - i * was == i * (now - was)) by (nonlinear_arith);
    assert(j * now - j * was == j * (now - was)) by (nonlinear_arith);
}

} // verus!
