//! Fitting a plane to a square sub-image by least squares.
//!
//! The sums of the normal equations and the squared error of a plane are exact
//! integers and are computed here. Solving the equations and weighing the mean
//! error against a bound are left to a [`Fitter`].

use crate::canvas::{inside, lemma_pixel_inside};
use crate::plane::Plane;
use crate::sums::{
    grid_total, law_coordinate_sums, lemma_bound, lemma_one_term, lemma_row_factor, lemma_zero_term,
    row_itself, row_squared, row_times_column, row_total,
};
use vstd::prelude::*;

verus! {

/// The largest edge for which the sums of the coordinate terms fit 64 bits.
pub const MAX_EDGE: usize = 46341;

/// The pixel at row `i` and column `j` of a sub-image.
pub open spec fn pixels(image: Seq<u8>, width: nat, x: int, y: int) -> spec_fn(int, int) -> int {
    |i: int, j: int| image[(x + i) * width + y + j] as int
}

/// The pixels of a sub-image, each times its row.
pub open spec fn row_pixels(image: Seq<u8>, width: nat, x: int, y: int) -> spec_fn(
    int,
    int,
) -> int {
    |i: int, j: int| i * pixels(image, width, x, y)(i, j)
}

/// The pixels of a sub-image, each times its column.
pub open spec fn column_pixels(image: Seq<u8>, width: nat, x: int, y: int) -> spec_fn(
    int,
    int,
) -> int {
    |i: int, j: int| j * pixels(image, width, x, y)(i, j)
}

/// The squared distances between a plane and the pixels of a sub-image.
pub open spec fn squared_distances(
    image: Seq<u8>,
    width: nat,
    x: int,
    y: int,
    plane: Plane,
) -> spec_fn(int, int) -> int {
    |i: int, j: int|
        (plane.pixel(i, j) - pixels(image, width, x, y)(i, j)) * (plane.pixel(i, j) - pixels(
            image,
            width,
            x,
            y,
        )(i, j))
}

/// The sums of the normal equations of a least-squares fit, over the rows `i`
/// and columns `j` of a square sub-image with pixels `z`.
#[derive(Clone, Copy, Debug)]
pub struct NormalSums {
    /// Six times the sum of `i * i` (and of `j * j`).
    pub sxx6: i64,
    /// Four times the sum of `i * j`.
    pub syx4: i64,
    /// Twice the sum of `i` (and of `j`).
    pub sx2: i64,
    /// The number of pixels.
    pub sn: i64,
    /// The sum of `i * z`.
    pub sxz: i64,
    /// The sum of `j * z`.
    pub syz: i64,
    /// The sum of `z`.
    pub sz: i64,
}

/// The sums of the normal equations of a sub-image.
pub open spec fn normal_sums(image: Seq<u8>, width: nat, x: int, y: int, n: nat) -> NormalSums {
    NormalSums {
        sxx6: (6 * grid_total(row_squared(), n, n)) as i64,
        syx4: (4 * grid_total(row_times_column(), n, n)) as i64,
        sx2: (2 * grid_total(row_itself(), n, n)) as i64,
        sn: (n * n) as i64,
        sxz: grid_total(row_pixels(image, width, x, y), n, n) as i64,
        syz: grid_total(column_pixels(image, width, x, y), n, n) as i64,
        sz: grid_total(pixels(image, width, x, y), n, n) as i64,
    }
}

/// The sum of the squared distances between a plane and a sub-image.
pub open spec fn squared_error(
    image: Seq<u8>,
    width: nat,
    x: int,
    y: int,
    n: nat,
    plane: Plane,
) -> int {
    grid_total(squared_distances(image, width, x, y, plane), n, n)
}

/// Sum up one sub-image for a least-squares fit.
pub fn sum_up(image: &[u8], width: usize, x_offset: usize, y_offset: usize, n: usize) -> (sums:
    NormalSums)
    requires
        inside(image@.len(), width as nat, x_offset as int, y_offset as int, n as int),
        n <= MAX_EDGE,
    ensures
        sums == normal_sums(image@, width as nat, x_offset as int, y_offset as int, n as nat),
{
    let ni: i64 = n as i64;
    let m: i64 = ni - 1;
    proof {
        law_coordinate_sums(n as nat);
        lemma_edge_products(n as int);
    }
    let sn: i64 = ni * ni;

    // Sums of the coordinate terms over an n x n grid.
    let sxx6: i64 = m * (2 * ni - 1) * sn;
    let syx4: i64 = m * m * sn;
    let sx2: i64 = m * sn;

    let ghost (w, gx, gy) = (width as nat, x_offset as int, y_offset as int);
    let ghost z = pixels(image@, w, gx, gy);
    let ghost iz = row_pixels(image@, w, gx, gy);
    let ghost jz = column_pixels(image@, w, gx, gy);
    let mut sxz: i64 = 0;
    let mut syz: i64 = 0;
    let mut sz: i64 = 0;
    for i in 0..n
        invariant
            inside(image@.len(), w, gx, gy, n as int),
            (w, gx, gy) == (width as nat, x_offset as int, y_offset as int),
            n <= MAX_EDGE,
            z == pixels(image@, w, gx, gy),
            iz == row_pixels(image@, w, gx, gy),
            jz == column_pixels(image@, w, gx, gy),
            sxz == grid_total(iz, i as nat, n as nat),
            syz == grid_total(jz, i as nat, n as nat),
            sz == grid_total(z, i as nat, n as nat),
            0 <= sxz <= 547_609_511_655 * i,
            0 <= syz <= 547_609_511_655 * i,
            0 <= sz <= 11_816_955 * i,
    {
        proof {
            lemma_pixel_inside(image@.len(), w, gx, gy, n as int, i as int, 0);
            assert(image.len() <= usize::MAX);
        }
        let base: usize = (x_offset + i) * width + y_offset;
        let mut row_sum: i64 = 0;
        let mut row_jz: i64 = 0;
        for j in 0..n
            invariant
                inside(image@.len(), w, gx, gy, n as int),
                (w, gx, gy) == (width as nat, x_offset as int, y_offset as int),
                n <= MAX_EDGE,
                i < n,
                base == (x_offset + i) * width + y_offset,
                z == pixels(image@, w, gx, gy),
                jz == column_pixels(image@, w, gx, gy),
                row_sum == row_total(z, i as int, j as nat),
                row_jz == row_total(jz, i as int, j as nat),
                0 <= row_sum <= 255 * j,
                0 <= row_jz <= 11_816_955 * j,
        {
            proof {
                lemma_pixel_inside(image@.len(), w, gx, gy, n as int, i as int, j as int);
                assert(image.len() <= usize::MAX);
            }
            let pixel: i64 = image[base + j] as i64;
            assert(pixel == z(i as int, j as int));
            assert(0 <= j * pixel <= 11_816_955) by (nonlinear_arith)
                requires
                    0 <= j <= 46341,
                    0 <= pixel <= 255,
            ;
            assert(jz(i as int, j as int) == j * pixel);
            row_sum = row_sum + pixel;
            row_jz = row_jz + j as i64 * pixel;
        }
        proof {
            lemma_row_factor(z, iz, i as int, n as nat);
            assert(0 <= i * row_sum <= 547_609_511_655) by (nonlinear_arith)
                requires
                    0 <= i <= 46341,
                    0 <= row_sum <= 11_816_955,
            ;
        }
        sxz = sxz + i as i64 * row_sum;
        syz = syz + row_jz;
        sz = sz + row_sum;
    }
    NormalSums { sxx6, syx4, sx2, sn, sxz, syz, sz }
}

/// The products that the coordinate sums go through fit 64 bits.
pub(crate) proof fn lemma_edge_products(n: int)
    requires
        0 <= n <= MAX_EDGE,
    ensures
        0 <= n * n <= 2_147_488_281,
        i64::MIN <= (n - 1) * (2 * n - 1) <= i64::MAX,
        0 <= (n - 1) * (2 * n - 1) * (n * n) <= i64::MAX,
        0 <= (n - 1) * (n - 1) <= i64::MAX,
        0 <= (n - 1) * (n - 1) * (n * n) <= i64::MAX,
        i64::MIN <= (n - 1) * (n * n) <= i64::MAX,
{
    assert(0 <= n * n <= 2_147_488_281) by (nonlinear_arith)
        requires
            0 <= n <= 46341,
    ;
    let a = (n - 1) * (2 * n - 1);
    let b = (n - 1) * (n - 1);
    assert(0 <= a <= 4_294_837_540) by (nonlinear_arith)
        requires
            0 <= n <= 46341,
            a == (n - 1) * (2 * n - 1),
    ;
    assert(0 <= b <= 4_294_837_540) by (nonlinear_arith)
        requires
            0 <= n <= 46341,
            b == (n - 1) * (n - 1),
    ;
    let s = n * n;
    assert(0 <= a * s <= 4_294_837_540 * 2_147_488_281) by (nonlinear_arith)
        requires
            0 <= a <= 4_294_837_540,
            0 <= s <= 2_147_488_281,
    ;
    assert(0 <= b * s <= 4_294_837_540 * 2_147_488_281) by (nonlinear_arith)
        requires
            0 <= b <= 4_294_837_540,
            0 <= s <= 2_147_488_281,
    ;
    assert(-2_147_488_281 <= (n - 1) * s <= 46341 * 2_147_488_281) by (nonlinear_arith)
        requires
            0 <= n <= 46341,
            0 <= s <= 2_147_488_281,
    ;
}

/// The sum of the squared distances between a plane and one sub-image.
pub fn plane_error(
    image: &[u8],
    width: usize,
    x_offset: usize,
    y_offset: usize,
    n: usize,
    plane: &Plane,
) -> (error: i64)
    requires
        inside(image@.len(), width as nat, x_offset as int, y_offset as int, n as int),
        n <= MAX_EDGE,
    ensures
        error == squared_error(
            image@,
            width as nat,
            x_offset as int,
            y_offset as int,
            n as nat,
            *plane,
        ),
        error >= 0,
{
    let ghost (w, gx, gy) = (width as nat, x_offset as int, y_offset as int);
    let ghost f = squared_distances(image@, w, gx, gy, *plane);
    let mut err: i64 = 0;
    for i in 0..n
        invariant
            inside(image@.len(), w, gx, gy, n as int),
            (w, gx, gy) == (width as nat, x_offset as int, y_offset as int),
            n <= MAX_EDGE,
            f == squared_distances(image@, w, gx, gy, *plane),
            err == grid_total(f, i as nat, n as nat),
            0 <= err <= 3_013_323_525 * i,
    {
        proof {
            lemma_pixel_inside(image@.len(), w, gx, gy, n as int, i as int, 0);
            assert(image.len() <= usize::MAX);
        }
        let base: usize = (x_offset + i) * width + y_offset;
        let ghost above = err;
        for j in 0..n
            invariant
                inside(image@.len(), w, gx, gy, n as int),
                (w, gx, gy) == (width as nat, x_offset as int, y_offset as int),
                n <= MAX_EDGE,
                i < n,
                base == (x_offset + i) * width + y_offset,
                f == squared_distances(image@, w, gx, gy, *plane),
                0 <= above <= 3_013_323_525 * i,
                err == above + row_total(f, i as int, j as nat),
                above <= err <= above + 65025 * j,
        {
            proof {
                lemma_pixel_inside(image@.len(), w, gx, gy, n as int, i as int, j as int);
                assert(image.len() <= usize::MAX);
            }
            let e: i64 = plane.pixel_at(i, j) as i64 - image[base + j] as i64;
            assert(0 <= e * e <= 65025) by (nonlinear_arith)
                requires
                    -255 <= e <= 255,
            ;
            assert(f(i as int, j as int) == e * e);
            err = err + e * e;
        }
    }
    err
}

/// The parts of a fit that are not integer arithmetic.
pub struct Fitter<S, E> {
    /// Solve the normal equations, and round the coefficients.
    pub solve: S,
    /// Whether a total squared error, over a number of pixels, makes a mean
    /// that exceeds a bound given by its bits.
    pub exceeds: E,
}

/// The result of fitting a plane to one sub-image.
#[derive(Clone, Copy, Debug)]
pub struct Fit {
    pub plane: Plane,
    /// Sum of the squared distances between the clamped plane and the source
    /// pixels; the mean-squared error is this over `pixels`.
    pub error: i64,
    /// Number of source pixels.
    pub pixels: i64,
}

/// `plane` is one that `solve` may give for a sub-image. A single pixel is its
/// own plane.
pub open spec fn may_fit<S: Fn(NormalSums) -> Plane>(
    solve: S,
    image: Seq<u8>,
    width: nat,
    x: int,
    y: int,
    n: nat,
    plane: Plane,
) -> bool {
    if n == 1 {
        plane == (Plane { a: 0, b: 0, c: image[x * width + y] as i64 })
    } else {
        call_ensures(solve, (normal_sums(image, width, x, y, n),), plane)
    }
}

/// A single pixel is fitted without error.
pub proof fn law_single_pixel_is_exact<S: Fn(NormalSums) -> Plane>(
    solve: S,
    image: Seq<u8>,
    width: nat,
    x: int,
    y: int,
    plane: Plane,
)
    requires
        may_fit(solve, image, width, x, y, 1, plane),
    ensures
        squared_error(image, width, x, y, 1, plane) == 0,
{
    let f = squared_distances(image, width, x, y, plane);
    reveal_with_fuel(grid_total, 2);
    reveal_with_fuel(row_total, 2);
    assert(0 * 0 == 0int);
    assert(plane.pixel(0, 0) == image[x * width + y]);
    assert(f(0, 0) == 0);
}

/// Fit the plane `pixel = a*i + b*j + c` to the `n` x `n` sub-image whose
/// top-left corner is `(x_offset, y_offset)`, using ordinary least squares.
///
/// The normal-equations matrix only depends on `n`, which avoids re-summing
/// the pixel coordinates.
pub fn find_plane<S: Fn(NormalSums) -> Plane>(
    image: &[u8],
    width: usize,
    x_offset: usize,
    y_offset: usize,
    n: usize,
    solve: &S,
) -> (fit: Fit)
    requires
        inside(image@.len(), width as nat, x_offset as int, y_offset as int, n as int),
        n <= MAX_EDGE,
        forall|sums: NormalSums| call_requires(*solve, (sums,)),
    ensures
        may_fit(
            *solve,
            image@,
            width as nat,
            x_offset as int,
            y_offset as int,
            n as nat,
            fit.plane,
        ),
        fit.error == squared_error(
            image@,
            width as nat,
            x_offset as int,
            y_offset as int,
            n as nat,
            fit.plane,
        ),
        fit.error >= 0,
        fit.pixels == n * n,
{
    let ghost (w, gx, gy) = (width as nat, x_offset as int, y_offset as int);
    // A single pixel has a singular normal-equations matrix (the row and
    // column terms are all zero). The minimum-norm solution is simply the
    // pixel value at the origin.
    if n == 1 {
        proof {
            lemma_pixel_inside(image@.len(), w, gx, gy, 1, 0, 0);
            assert(image.len() <= usize::MAX);
        }
        let z: i64 = image[x_offset * width + y_offset] as i64;
        let plane = Plane { a: 0, b: 0, c: z };
        proof {
            law_single_pixel_is_exact(*solve, image@, w, gx, gy, plane);
        }
        return Fit { plane, error: 0, pixels: 1 };
    }
    let sums = sum_up(image, width, x_offset, y_offset, n);
    let plane = solve(sums);
    let error = plane_error(image, width, x_offset, y_offset, n, &plane);
    proof {
        lemma_edge_products(n as int);
    }
    Fit { plane, error, pixels: n as i64 * n as i64 }
}

/// A single pixel is its own plane; any other square gets the plane that the
/// solver gives for its sums, as the solver gives it.
pub proof fn law_plane_is_the_solvers<S: Fn(NormalSums) -> Plane>(
    solve: S,
    image: Seq<u8>,
    width: nat,
    x: int,
    y: int,
    n: nat,
    plane: Plane,
)
    requires
        may_fit(solve, image, width, x, y, n, plane),
    ensures
        n == 1 ==> plane.a == 0 && plane.b == 0 && plane.c == image[x * width + y],
        n != 1 ==> call_ensures(solve, (normal_sums(image, width, x, y, n),), plane),
{
}

/// Two places of a sub-image are two pixels of the image.
pub(crate) proof fn lemma_places_differ(width: nat, x: int, y: int, i: int, j: int, a: int, b: int)
    requires
        0 <= j < width,
        0 <= b < width,
        (x + i) * width + y + j == (x + a) * width + y + b,
    ensures
        i == a,
        j == b,
{
    let d = i - a;
    let w = width as int;
    assert(d * w == b - j) by (nonlinear_arith)
        requires
            (x + i) * w + y + j == (x + a) * w + y + b,
            d == i - a,
    ;
    assert(d == 0) by (nonlinear_arith)
        requires
            d * w == b - j,
            -w < b - j < w,
    ;
}

/// Each pixel counts with the square of its distance from the plane, and with
/// nothing else: changing one pixel changes the error by the difference of the
/// two squares.
pub proof fn law_error_follows_each_pixel(
    image: Seq<u8>,
    width: nat,
    x: int,
    y: int,
    n: nat,
    plane: Plane,
    i: int,
    j: int,
    value: u8,
)
    requires
        0 <= x,
        0 <= y,
        0 <= i < n,
        0 <= j < n <= width,
        inside(image.len(), width, x, y, n as int),
    ensures
        ({
            let k = (x + i) * width + y + j;
            let (now, then) = (plane.pixel(i, j) - image[k], plane.pixel(i, j) - value);
            squared_error(image.update(k, value), width, x, y, n, plane) - squared_error(
                image,
                width,
                x,
                y,
                n,
                plane,
            ) == then * then - now * now
        }),
{
    let k = (x + i) * width + y + j;
    let other = image.update(k, value);
    let f = squared_distances(image, width, x, y, plane);
    let g = squared_distances(other, width, x, y, plane);
    lemma_pixel_inside(image.len(), width, x, y, n as int, i, j);
    assert forall|a: int, b: int| 0 <= a < n && 0 <= b < n && !(a == i && b == j) implies #[trigger] f(
        a,
        b,
    ) == g(a, b) by {
        let l = (x + a) * width + y + b;
        if l == k {
            lemma_places_differ(width, x, y, i, j, a, b);
        }
        lemma_pixel_inside(image.len(), width, x, y, n as int, a, b);
        assert(other[l] == image[l]);
    }
    lemma_one_term(f, g, n, n, i, j);
}

/// A plane is without error if and only if it gives every pixel of the
/// sub-image.
pub proof fn law_no_error_means_every_pixel(
    image: Seq<u8>,
    width: nat,
    x: int,
    y: int,
    n: nat,
    plane: Plane,
)
    ensures
        squared_error(image, width, x, y, n, plane) >= 0,
        squared_error(image, width, x, y, n, plane) == 0 <==> forall|i: int, j: int|
            0 <= i < n && 0 <= j < n ==> plane.pixel(i, j) == #[trigger] image[(x + i) * width + y
                + j],
{
    let f = squared_distances(image, width, x, y, plane);
    assert forall|i: int, j: int| 0 <= #[trigger] f(i, j) <= 65025 by {
        let e = plane.pixel(i, j) - image[(x + i) * width + y + j];
        assert(0 <= e * e <= 65025) by (nonlinear_arith)
            requires
                -255 <= e <= 255,
        ;
    }
    lemma_bound(f, n, n, 65025);
    if squared_error(image, width, x, y, n, plane) == 0 {
        assert forall|i: int, j: int| 0 <= i < n && 0 <= j < n implies plane.pixel(i, j)
            == #[trigger] image[(x + i) * width + y + j] by {
            lemma_zero_term(f, n, n, i, j);
            let e = plane.pixel(i, j) - image[(x + i) * width + y + j];
            assert(e == 0) by (nonlinear_arith)
                requires
                    e * e == 0,
            ;
        }
    } else if forall|i: int, j: int|
        0 <= i < n && 0 <= j < n ==> plane.pixel(i, j) == #[trigger] image[(x + i) * width + y
            + j] {
        assert forall|i: int, j: int| 0 <= i < n && 0 <= j < n implies 0 <= #[trigger] f(i, j)
            <= 0 by {
            assert(plane.pixel(i, j) == image[(x + i) * width + y + j]);
            assert(0 * 0 == 0int);
        }
        lemma_bound(f, n, n, 0);
        assert(0 * n * n == 0) by (nonlinear_arith);
    }
}

/// The largest edge is the largest one for which six times the sum of the
/// squared rows fits 64 bits.
pub proof fn law_largest_edge(n: int)
    requires
        n >= 1,
    ensures
        n <= MAX_EDGE <==> (n - 1) * (2 * n - 1) * (n * n) <= i64::MAX,
{
    if n <= MAX_EDGE {
        lemma_edge_products(n);
    } else {
        let (a, s) = ((n - 1) * (2 * n - 1), n * n);
        assert(a >= 4_295_022_903) by (nonlinear_arith)
            requires
                n >= 46342,
                a == (n - 1) * (2 * n - 1),
        ;
        assert(s >= 2_147_580_964) by (nonlinear_arith)
            requires
                n >= 46342,
                s == n * n,
        ;
        assert(a * s >= 9_223_909_426_426_818_492) by (nonlinear_arith)
            requires
                a >= 4_295_022_903,
                s >= 2_147_580_964,
        ;
    }
}

} // verus!
