//! How close a decoded image comes to its source.
//!
//! A bound is met plane by plane: what holds of the error of each leaf holds
//! of the error of the whole plane.

use crate::canvas::{blank, lemma_paint_all_len, Leaf};
use crate::codec::{can_decode, decoded, info_of, lemma_plane_grown, rendered, Encoded};
use crate::fit::{squared_distances, squared_error, Fitter, NormalSums};
use crate::header::PieInfo;
use crate::image::{half_up, Options, PieError, Picture};
use crate::laws::{edge_and_colour, law_decoding_undoes_encoding, lemma_halve_power};
use crate::plane::Plane;
use crate::quadtree::QuadTree;
use crate::sums::{
    grid_total, lemma_bound, lemma_quadrants_total, lemma_same_total, lemma_zero_term,
};
use crate::tiling::{covers, law_render_shows_every_leaf};
use vstd::arithmetic::div_mod::{lemma_div_pos_is_pos, lemma_fundamental_div_mod, lemma_mod_bound};
use vstd::arithmetic::power2::pow2;
use vstd::prelude::*;

verus! {

/// The squared differences between two images, over a square region.
pub open spec fn differences(
    source: Seq<u8>,
    shown: Seq<u8>,
    width: nat,
    x: int,
    y: int,
) -> spec_fn(int, int) -> int {
    |i: int, j: int|
        (shown[(x + i) * width + (y + j)] - source[(x + i) * width + (y + j)]) * (shown[(x + i)
            * width + (y + j)] - source[(x + i) * width + (y + j)])
}

/// The sum of the squared differences between two images, over a square
/// region.
pub open spec fn region_error(
    source: Seq<u8>,
    shown: Seq<u8>,
    width: nat,
    x: int,
    y: int,
    n: int,
) -> int {
    grid_total(differences(source, shown, width, x, y), n as nat, n as nat)
}

/// The mean of the squared differences between two planes of `n` pixels an
/// edge is at most `num / den`.
pub open spec fn is_within(source: Seq<u8>, shown: Seq<u8>, n: nat, num: int, den: int) -> bool {
    region_error(source, shown, n, 0, 0, n as int) * den <= num * (n * n)
}

impl<S: Fn(NormalSums) -> Plane, E: Fn(i64, i64, u64) -> bool> Fitter<S, E> {
    /// A mean error that does not exceed the bound is at most `num / den`.
    pub open spec fn tolerates(&self, bound: u64, num: int, den: int) -> bool {
        forall|error: i64, pixels: i64|
            error >= 0 && pixels >= 0 && #[trigger] call_ensures(
                self.exceeds,
                (error, pixels, bound),
                false,
            ) ==> error * den <= num * pixels
    }

    /// No error at all is tolerated.
    pub open spec fn tolerates_nothing(&self, bound: u64) -> bool {
        forall|error: i64, pixels: i64|
            error > 0 ==> !#[trigger] call_ensures(self.exceeds, (error, pixels, bound), false)
    }
}

/// An image shows each of some leaves.
spec fn shows(image: Seq<u8>, width: nat, leaves: Seq<Leaf>) -> bool {
    forall|a: int, i: int, j: int|
        0 <= a < leaves.len() && #[trigger] covers(leaves[a], i, j) ==> image[i * width + j]
            == leaves[a].plane.pixel(i - leaves[a].x, j - leaves[a].y) as u8
}

/// The leaf of a tree that was not split is off by its squared error.
proof fn lemma_leaf_error(
    source: Seq<u8>,
    shown: Seq<u8>,
    width: nat,
    x: int,
    y: int,
    n: int,
    plane: Plane,
)
    requires
        0 <= n <= 46341,
        0 <= x,
        0 <= y,
        x + n <= usize::MAX,
        y + n <= usize::MAX,
        shows(shown, width, QuadTree::Leaf(plane).leaves(x, y, n)),
    ensures
        region_error(source, shown, width, x, y, n) == squared_error(
            source,
            width,
            x,
            y,
            n as nat,
            plane,
        ),
        0 <= squared_error(source, width, x, y, n as nat, plane) <= i64::MAX,
{
    let f = differences(source, shown, width, x, y);
    let g = squared_distances(source, width, x, y, plane);
    let leaves = QuadTree::Leaf(plane).leaves(x, y, n);
    assert forall|i: int, j: int| 0 <= i < n && 0 <= j < n implies #[trigger] f(i, j) == g(i, j) by {
        assert(covers(leaves[0], x + i, y + j));
        assert(shown[(x + i) * width + (y + j)] == plane.pixel(i, j) as u8);
        assert((x + i) * width + (y + j) == (x + i) * width + y + j);
    }
    lemma_same_total(f, g, n as nat, n as nat);
    assert forall|i: int, j: int| 0 <= i < n && 0 <= j < n implies 0 <= #[trigger] g(i, j)
        <= 65025 by {
        let e = plane.pixel(i, j) - source[(x + i) * width + y + j];
        assert(0 <= e * e <= 65025) by (nonlinear_arith)
            requires
                -255 <= e <= 255,
        ;
    }
    lemma_bound(g, n as nat, n as nat, 65025);
    assert(65025 * n * n <= i64::MAX) by (nonlinear_arith)
        requires
            0 <= n <= 46341,
    ;
}

/// The error of a region is the sum of the errors of its quadrants.
proof fn lemma_region_quadrants(
    source: Seq<u8>,
    shown: Seq<u8>,
    width: nat,
    x: int,
    y: int,
    m: int,
)
    requires
        m >= 0,
    ensures
        region_error(source, shown, width, x, y, 2 * m) == region_error(
            source,
            shown,
            width,
            x,
            y,
            m,
        ) + region_error(source, shown, width, x, y + m, m) + region_error(
            source,
            shown,
            width,
            x + m,
            y,
            m,
        ) + region_error(source, shown, width, x + m, y + m, m),
{
    let f = differences(source, shown, width, x, y);
    let right = differences(source, shown, width, x, y + m);
    let below = differences(source, shown, width, x + m, y);
    let across = differences(source, shown, width, x + m, y + m);
    assert forall|i: int, j: int| #[trigger] right(i, j) == f(i, j + m) by {
        assert(y + m + j == y + (j + m));
    }
    assert forall|i: int, j: int| #[trigger] below(i, j) == f(i + m, j) by {
        assert(x + m + i == x + (i + m));
    }
    assert forall|i: int, j: int| #[trigger] across(i, j) == f(i + m, j + m) by {
        assert(x + m + i == x + (i + m));
        assert(y + m + j == y + (j + m));
    }
    lemma_quadrants_total(f, right, below, across, m as nat);
}

/// What holds of the error of every leaf holds of the error of the region.
proof fn lemma_region_is_within<S: Fn(NormalSums) -> Plane, E: Fn(i64, i64, u64) -> bool>(
    fitter: Fitter<S, E>,
    source: Seq<u8>,
    shown: Seq<u8>,
    width: nat,
    x: int,
    y: int,
    k: nat,
    bound: u64,
    tree: QuadTree,
    num: int,
    den: int,
)
    requires
        fitter.tolerates(bound, num, den),
        fitter.may_grow(source, width, x, y, pow2(k) as int, bound, tree),
        0 <= x,
        0 <= y,
        x + pow2(k) <= usize::MAX,
        y + pow2(k) <= usize::MAX,
        shows(shown, width, tree.leaves(x, y, pow2(k) as int)),
    ensures
        region_error(source, shown, width, x, y, pow2(k) as int) * den <= num * (pow2(k)
            * pow2(k)),
    decreases tree,
{
    let n = pow2(k) as int;
    lemma_halve_power(k);
    match tree {
        QuadTree::Leaf(plane) => {
            lemma_leaf_error(source, shown, width, x, y, n, plane);
            assert(0 <= n * n <= 2_147_488_281) by (nonlinear_arith)
                requires
                    0 <= n <= 46341,
            ;
            assert(fitter.may_judge(source, width, x, y, n, bound, plane, false));
            let error = squared_error(source, width, x, y, n as nat, plane) as i64;
            let pixels = (n * n) as i64;
            assert(call_ensures(fitter.exceeds, (error, pixels, bound), false));
        },
        QuadTree::Split(q0, q1, q2, q3) => {
            let less = (k - 1) as nat;
            let m = pow2(less) as int;
            lemma_halve_power(less);
            let (v0, v1, v2, v3) = (
                q0.leaves(x, y, m),
                q1.leaves(x, y + m, m),
                q2.leaves(x + m, y, m),
                q3.leaves(x + m, y + m, m),
            );
            lemma_shows_part(shown, width, Seq::empty(), v0, v1 + v2 + v3);
            lemma_shows_part(shown, width, v0, v1, v2 + v3);
            lemma_shows_part(shown, width, v0 + v1, v2, v3);
            lemma_shows_part(shown, width, v0 + v1 + v2, v3, Seq::empty());
            let all = tree.leaves(x, y, n);
            assert(Seq::<Leaf>::empty() + v0 + (v1 + v2 + v3) =~= all);
            assert(v0 + v1 + (v2 + v3) =~= all);
            assert(v0 + v1 + v2 + v3 + Seq::<Leaf>::empty() =~= all);
            lemma_region_is_within(fitter, source, shown, width, x, y, less, bound, *q0, num, den);
            lemma_region_is_within(
                fitter,
                source,
                shown,
                width,
                x,
                y + m,
                less,
                bound,
                *q1,
                num,
                den,
            );
            lemma_region_is_within(
                fitter,
                source,
                shown,
                width,
                x + m,
                y,
                less,
                bound,
                *q2,
                num,
                den,
            );
            lemma_region_is_within(
                fitter,
                source,
                shown,
                width,
                x + m,
                y + m,
                less,
                bound,
                *q3,
                num,
                den,
            );
            lemma_region_quadrants(source, shown, width, x, y, m);
            let (e0, e1, e2, e3) = (
                region_error(source, shown, width, x, y, m),
                region_error(source, shown, width, x, y + m, m),
                region_error(source, shown, width, x + m, y, m),
                region_error(source, shown, width, x + m, y + m, m),
            );
            assert((e0 + e1 + e2 + e3) * den == e0 * den + e1 * den + e2 * den + e3 * den)
                by (nonlinear_arith);
            assert(num * (n * n) == 4 * (num * (m * m))) by (nonlinear_arith)
                requires
                    n == 2 * m,
            ;
        },
    }
}

/// An image that shows some leaves shows a part of them.
proof fn lemma_shows_part(
    image: Seq<u8>,
    width: nat,
    before: Seq<Leaf>,
    part: Seq<Leaf>,
    after: Seq<Leaf>,
)
    ensures
        shows(image, width, before + part + after) ==> shows(image, width, part),
{
    let all = before + part + after;
    if shows(image, width, all) {
        assert forall|a: int, i: int, j: int|
            0 <= a < part.len() && #[trigger] covers(part[a], i, j) implies image[i * width + j]
            == part[a].plane.pixel(i - part[a].x, j - part[a].y) as u8 by {
            assert(all[before.len() + a] == part[a]);
            assert(covers(all[before.len() + a], i, j));
        }
    }
}

/// Where the edge is a power of two, the mean error of a whole rendered plane
/// is within whatever the bound stands for.
pub proof fn law_rendered_plane_is_within_bound<
    S: Fn(NormalSums) -> Plane,
    E: Fn(i64, i64, u64) -> bool,
>(
    fitter: Fitter<S, E>,
    data: Seq<u8>,
    k: nat,
    bound: u64,
    tree: QuadTree,
    num: int,
    den: int,
)
    requires
        fitter.tolerates(bound, num, den),
        fitter.may_grow_plane(data, pow2(k), bound, tree),
    ensures
        is_within(data, rendered(tree, pow2(k)), pow2(k), num, den),
{
    let n = pow2(k);
    let source = data.take((n * n) as int);
    let shown = rendered(tree, n);
    lemma_plane_grown(fitter, data, n, bound, tree);
    let leaves = tree.leaves(0, 0, n as int);
    assert forall|a: int, i: int, j: int|
        0 <= a < leaves.len() && #[trigger] covers(leaves[a], i, j) implies shown[i * n + j]
        == leaves[a].plane.pixel(i - leaves[a].x, j - leaves[a].y) as u8 by {
        law_render_shows_every_leaf(tree, k, a, i, j);
    }
    lemma_region_is_within(fitter, source, shown, n, 0, 0, k, bound, tree, num, den);
    let f = differences(source, shown, n, 0, 0);
    let g = differences(data, shown, n, 0, 0);
    assert forall|i: int, j: int| 0 <= i < n && 0 <= j < n implies #[trigger] f(i, j) == g(i, j) by {
        assert(0 <= (0 + i) * n + (0 + j) < n * n) by (nonlinear_arith)
            requires
                0 <= i <= n - 1,
                0 <= j < n,
        ;
    }
    lemma_same_total(f, g, n, n);
}

/// Where the edge is a power of two and the bound tolerates nothing, a plane is
/// rendered unchanged.
pub proof fn law_exact_bound_loses_nothing<
    S: Fn(NormalSums) -> Plane,
    E: Fn(i64, i64, u64) -> bool,
>(fitter: Fitter<S, E>, data: Seq<u8>, k: nat, bound: u64, tree: QuadTree)
    requires
        fitter.tolerates_nothing(bound),
        fitter.may_grow_plane(data, pow2(k), bound, tree),
    ensures
        rendered(tree, pow2(k)) == data.take((pow2(k) * pow2(k)) as int),
{
    let n = pow2(k);
    let shown = rendered(tree, n);
    let w = n as int;
    assert forall|error: i64, pixels: i64|
        error >= 0 && pixels >= 0 && #[trigger] call_ensures(
            fitter.exceeds,
            (error, pixels, bound),
            false,
        ) implies error * 1 <= 0 * pixels by {}
    lemma_halve_power(k);
    lemma_plane_grown(fitter, data, n, bound, tree);
    law_rendered_plane_is_within_bound(fitter, data, k, bound, tree, 0, 1);
    assert(0 * (n * n) == 0) by (nonlinear_arith);
    lemma_paint_all_len(blank(n, n), n, tree.leaves(0, 0, w));
    let f = differences(data, shown, n, 0, 0);
    assert forall|i: int, j: int| 0 <= #[trigger] f(i, j) by {
        let e = shown[(0 + i) * n + (0 + j)] - data[(0 + i) * n + (0 + j)];
        assert(0 <= e * e) by (nonlinear_arith);
    }
    assert forall|q: int| 0 <= q < n * n implies #[trigger] shown[q] == data[q] by {
        let (i, j) = (q / w, q % w);
        lemma_fundamental_div_mod(q, w);
        lemma_mod_bound(q, w);
        lemma_div_pos_is_pos(q, w);
        assert(i < n) by (nonlinear_arith)
            requires
                q < n * n,
                q == w * i + j,
                j >= 0,
                w == n,
                n > 0,
        ;
        lemma_zero_term(f, n, n, i, j);
        assert((0 + i) * w + (0 + j) == q) by (nonlinear_arith)
            requires
                q == w * i + j,
        ;
        let e = shown[q] - data[q];
        assert(e * e == 0);
        assert(e == 0) by (nonlinear_arith)
            requires
                e * e == 0,
        ;
    }
    assert(shown =~= data.take((n * n) as int));
}

/// A picture of the same kind and size, each plane within its tolerance: the
/// first for greyscale or luma, the second for chroma.
pub open spec fn is_close(
    image: Picture,
    back: Picture,
    luma: (int, int),
    chroma: (int, int),
) -> bool {
    match (image, back) {
        (
            Picture::Grey { width, height, data },
            Picture::Grey { width: w, height: h, data: shown },
        ) => w == width && h == height && is_within(data, shown, width, luma.0, luma.1),
        (
            Picture::Colour { width, height, y, cb, cr },
            Picture::Colour { width: w, height: h, y: shown, cb: shown_cb, cr: shown_cr },
        ) => {
            let half = half_up(width as int) as nat;
            &&& w == width
            &&& h == height
            &&& is_within(y, shown, width, luma.0, luma.1)
            &&& is_within(cb, shown_cb, half, chroma.0, chroma.1)
            &&& is_within(cr, shown_cr, half, chroma.0, chroma.1)
        },
        _ => false,
    }
}

/// Where `luma` or `chroma` is set, the planes of that part are the same.
pub open spec fn is_unchanged(image: Picture, back: Picture, luma: bool, chroma: bool) -> bool {
    match (image, back) {
        (Picture::Grey { width, data, .. }, Picture::Grey { data: shown, .. }) => luma ==> shown
            == data.take((width * width) as int),
        (
            Picture::Colour { width, y, cb, cr, .. },
            Picture::Colour { y: shown, cb: shown_cb, cr: shown_cr, .. },
        ) => {
            let half = half_up(width as int);
            &&& luma ==> shown == y.take((width * width) as int)
            &&& chroma ==> shown_cb == cb.take(half * half) && shown_cr == cr.take(half * half)
        },
        _ => false,
    }
}

/// An image whose edge is a power of two decodes to one of the same kind and
/// size. The mean error of each plane is within whatever its bound stands for:
/// the luma bound for greyscale and luma, the chroma bound for Cb and Cr. A
/// plane whose bound tolerates nothing comes back unchanged.
pub proof fn law_decoded_image_is_within_bounds<
    S: Fn(NormalSums) -> Plane,
    E: Fn(i64, i64, u64) -> bool,
>(
    fitter: Fitter<S, E>,
    image: Picture,
    options: Options,
    encoded: Encoded,
    k: nat,
    luma: (int, int),
    chroma: (int, int),
) -> (back: Picture)
    requires
        edge_and_colour(image).0 == pow2(k),
        pow2(k) * pow2(k) <= isize::MAX,
        fitter.may_encode(image, options, Ok(encoded)),
        fitter.tolerates(options.max_error, luma.0, luma.1),
        edge_and_colour(image).1 ==> fitter.tolerates(
            options.chroma_max_error,
            chroma.0,
            chroma.1,
        ),
    ensures
        can_decode(encoded.bytes@),
        decoded(encoded.bytes@) == Some(
            Ok::<(Picture, PieInfo), PieError>(
                (back, info_of(edge_and_colour(image).1, pow2(k), options)),
            ),
        ),
        is_close(image, back, luma, chroma),
        is_unchanged(
            image,
            back,
            fitter.tolerates_nothing(options.max_error),
            fitter.tolerates_nothing(options.chroma_max_error),
        ),
{
    lemma_halve_power(k);
    let back = law_decoding_undoes_encoding(fitter, image, options, encoded);
    let exact = fitter.tolerates_nothing(options.max_error);
    let exact_chroma = fitter.tolerates_nothing(options.chroma_max_error);
    match image {
        Picture::Grey { width, height, data } => {
            let bound = options.max_error;
            let tree = choose|tree: QuadTree| #[trigger]
                fitter.may_grow_plane(data, width, bound, tree) && back == (Picture::Grey {
                    width,
                    height,
                    data: rendered(tree, width),
                });
            law_rendered_plane_is_within_bound(fitter, data, k, bound, tree, luma.0, luma.1);
            if exact {
                law_exact_bound_loses_nothing(fitter, data, k, bound, tree);
            }
        },
        Picture::Colour { width, height, y, cb, cr } => {
            let half = half_up(width as int) as nat;
            let less = if k > 0 {
                (k - 1) as nat
            } else {
                0
            };
            lemma_halve_power(less);
            assert(half == pow2(less));
            let (bound, loose) = (options.max_error, options.chroma_max_error);
            let (ty, tb, tr) = choose|ty: QuadTree, tb: QuadTree, tr: QuadTree|
                #![trigger
                    fitter.may_grow_plane(y, width, bound, ty),
                    fitter.may_grow_plane(cb, half, loose, tb),
                    fitter.may_grow_plane(cr, half, loose, tr)]
                {
                    &&& fitter.may_grow_plane(y, width, bound, ty)
                    &&& fitter.may_grow_plane(cb, half, loose, tb)
                    &&& fitter.may_grow_plane(cr, half, loose, tr)
                    &&& back == (Picture::Colour {
                        width,
                        height,
                        y: rendered(ty, width),
                        cb: rendered(tb, half),
                        cr: rendered(tr, half),
                    })
                };
            law_rendered_plane_is_within_bound(fitter, y, k, bound, ty, luma.0, luma.1);
            law_rendered_plane_is_within_bound(fitter, cb, less, loose, tb, chroma.0, chroma.1);
            law_rendered_plane_is_within_bound(fitter, cr, less, loose, tr, chroma.0, chroma.1);
            if exact {
                law_exact_bound_loses_nothing(fitter, y, k, bound, ty);
            }
            if exact_chroma {
                law_exact_bound_loses_nothing(fitter, cb, less, loose, tb);
                law_exact_bound_loses_nothing(fitter, cr, less, loose, tr);
            }
        },
    }
    back
}

} // verus!
