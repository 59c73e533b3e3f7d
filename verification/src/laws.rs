//! What holds of encoding and decoding as a whole.

use crate::canvas::{
    blank, inside, law_render_shows_the_last_leaf, lemma_paint_all_len, paint_all,
};
use crate::codec::{
    can_decode, decoded, holdable, info_of, is_colour_file, is_grey_file, law_colour_round_trips,
    law_grey_round_trips, lemma_plane_grown, rendered, Encoded,
};
use crate::compress::{is_rendered, Compressed};
use crate::fit::{law_single_pixel_is_exact, may_fit, squared_error, Fitter, NormalSums, MAX_EDGE};
use crate::header::{
    header_bytes, header_info, lemma_header_len, PieInfo, HEADER_LEN, MODE_COLOUR, MODE_GREY,
};
use crate::image::{half_up, Colour, Grey, Image, Options, PieError, Picture, MAX_ERROR};
use crate::interval::{big_endian, Cursor, Interval};
use crate::least_squares::{
    finds_integral_solutions, law_exact_plane_is_fitted, law_flat_image_is_fitted,
};
use crate::plane::Plane;
use crate::quadtree::{half, law_listing_lengths, lemma_half, lemma_leaves_len, QuadTree};
use crate::recon::Canvas;
use crate::tiling::prunes;
use crate::tree::{
    addressable, read_leaf, read_plane, read_split, read_tree, write_plane, Reader, TreeModels,
};
use crate::walk::{law_within_bound_is_one_leaf, Subtree};
use vstd::arithmetic::power2::{lemma2_to64, lemma_pow2_pos, lemma_pow2_unfold, pow2};
use vstd::prelude::*;

verus! {

/// The edge of a picture, and whether it is colour.
pub open spec fn edge_and_colour(image: Picture) -> (nat, bool) {
    match image {
        Picture::Grey { width, .. } => (width, false),
        Picture::Colour { width, .. } => (width, true),
    }
}

impl<S: Fn(NormalSums) -> Plane, E: Fn(i64, i64, u64) -> bool> Fitter<S, E> {
    /// `back` shows what rendering the leaves of trees gives that may be grown
    /// over the planes of `image`.
    pub open spec fn may_render(&self, image: Picture, options: Options, back: Picture) -> bool {
        match image {
            Picture::Grey { width, height, data } => exists|tree: QuadTree| #[trigger]
                self.may_grow_plane(data, width, options.max_error, tree) && back
                    == (Picture::Grey { width, height, data: rendered(tree, width) }),
            Picture::Colour { width, height, y, cb, cr } => {
                let half = half_up(width as int) as nat;
                exists|ty: QuadTree, tb: QuadTree, tr: QuadTree|
                    #![trigger
                        self.may_grow_plane(y, width, options.max_error, ty),
                        self.may_grow_plane(cb, half, options.chroma_max_error, tb),
                        self.may_grow_plane(cr, half, options.chroma_max_error, tr)]
                    {
                        &&& self.may_grow_plane(y, width, options.max_error, ty)
                        &&& self.may_grow_plane(cb, half, options.chroma_max_error, tb)
                        &&& self.may_grow_plane(cr, half, options.chroma_max_error, tr)
                        &&& back == (Picture::Colour {
                            width,
                            height,
                            y: rendered(ty, width),
                            cb: rendered(tb, half),
                            cr: rendered(tr, half),
                        })
                    }
            },
        }
    }

    /// The fitter gives one answer to each question.
    pub open spec fn deterministic(&self) -> bool {
        &&& forall|sums: NormalSums, p: Plane, q: Plane|
            #![trigger call_ensures(self.solve, (sums,), p), call_ensures(self.solve, (sums,), q)]
            call_ensures(self.solve, (sums,), p) && call_ensures(self.solve, (sums,), q) ==> p == q
        &&& forall|error: i64, pixels: i64, bound: u64|
            !(call_ensures(self.exceeds, (error, pixels, bound), true) && #[trigger] call_ensures(
                self.exceeds,
                (error, pixels, bound),
                false,
            ))
    }

    /// Whatever exceeds the bound `loose` exceeds the bound `tight`.
    pub open spec fn at_least_as_loose(&self, loose: u64, tight: u64) -> bool {
        forall|error: i64, pixels: i64|
            call_ensures(self.exceeds, (error, pixels, loose), true) ==> #[trigger] call_ensures(
                self.exceeds,
                (error, pixels, tight),
                true,
            )
    }

    /// A pixel that is fitted exactly does not exceed the bound.
    pub open spec fn settles(&self, bound: u64) -> bool {
        !call_ensures(self.exceeds, (0i64, 1i64, bound), true)
    }
}

/// Decoding undoes encoding up to the fit: the file of an image that is not
/// empty decodes to what rendering its trees gives, pixel for pixel, and tells
/// the dimensions and options it was encoded with.
pub proof fn law_decoding_undoes_encoding<
    S: Fn(NormalSums) -> Plane,
    E: Fn(i64, i64, u64) -> bool,
>(fitter: Fitter<S, E>, image: Picture, options: Options, encoded: Encoded) -> (back: Picture)
    requires
        edge_and_colour(image).0 > 0,
        edge_and_colour(image).0 * edge_and_colour(image).0 <= isize::MAX,
        fitter.may_encode(image, options, Ok(encoded)),
    ensures
        fitter.may_render(image, options, back),
        can_decode(encoded.bytes@),
        decoded(encoded.bytes@) == Some(
            Ok::<(Picture, PieInfo), PieError>(
                (back, info_of(edge_and_colour(image).1, edge_and_colour(image).0, options)),
            ),
        ),
{
    match image {
        Picture::Grey { width, height, data } => {
            let tree = choose|tree: QuadTree| #[trigger]
                fitter.may_grow_plane(data, width, options.max_error, tree) && is_grey_file(
                    encoded,
                    width,
                    options,
                    tree,
                );
            lemma_plane_grown(fitter, data, width, options.max_error, tree);
            law_grey_round_trips(encoded, width, options, tree);
            Picture::Grey { width, height, data: rendered(tree, width) }
        },
        Picture::Colour { width, height, y, cb, cr } => {
            let half = half_up(width as int) as nat;
            let (ty, tb, tr) = choose|ty: QuadTree, tb: QuadTree, tr: QuadTree|
                #![trigger
                    fitter.may_grow_plane(y, width, options.max_error, ty),
                    fitter.may_grow_plane(cb, half, options.chroma_max_error, tb),
                    fitter.may_grow_plane(cr, half, options.chroma_max_error, tr)]
                {
                    &&& fitter.may_grow_plane(y, width, options.max_error, ty)
                    &&& fitter.may_grow_plane(cb, half, options.chroma_max_error, tb)
                    &&& fitter.may_grow_plane(cr, half, options.chroma_max_error, tr)
                    &&& is_colour_file(encoded, width, options, ty, tb, tr)
                };
            lemma_plane_grown(fitter, y, width, options.max_error, ty);
            lemma_plane_grown(fitter, cb, half, options.chroma_max_error, tb);
            lemma_plane_grown(fitter, cr, half, options.chroma_max_error, tr);
            law_colour_round_trips(encoded, width, options, ty, tb, tr);
            Picture::Colour {
                width,
                height,
                y: rendered(ty, width),
                cb: rendered(tb, half),
                cr: rendered(tr, half),
            }
        },
    }
}

/// A pruned tree has no more nodes.
proof fn lemma_pruned_is_smaller(coarse: QuadTree, fine: QuadTree)
    requires
        prunes(coarse, fine),
    ensures
        coarse.leaf_count() <= fine.leaf_count(),
        coarse.split_count() <= fine.split_count(),
    decreases coarse,
{
    match (coarse, fine) {
        (QuadTree::Split(c0, c1, c2, c3), QuadTree::Split(f0, f1, f2, f3)) => {
            lemma_pruned_is_smaller(*c0, *f0);
            lemma_pruned_is_smaller(*c1, *f1);
            lemma_pruned_is_smaller(*c2, *f2);
            lemma_pruned_is_smaller(*c3, *f3);
        },
        _ => {
            lemma_leaves_len(fine, 0, 0, 0);
        },
    }
}

/// Trees that prune each other are the same.
proof fn lemma_prunes_antisymmetric(s: QuadTree, t: QuadTree)
    requires
        prunes(s, t),
        prunes(t, s),
    ensures
        s == t,
    decreases s,
{
    match (s, t) {
        (QuadTree::Split(s0, s1, s2, s3), QuadTree::Split(t0, t1, t2, t3)) => {
            lemma_prunes_antisymmetric(*s0, *t0);
            lemma_prunes_antisymmetric(*s1, *t1);
            lemma_prunes_antisymmetric(*s2, *t2);
            lemma_prunes_antisymmetric(*s3, *t3);
        },
        _ => {},
    }
}

/// A larger bound tolerates a coarser fit, so fewer regions are subdivided:
/// the tree grown under the looser bound is the other one pruned, and its
/// plain listing is no longer.
pub proof fn law_looser_bound_prunes<S: Fn(NormalSums) -> Plane, E: Fn(i64, i64, u64) -> bool>(
    fitter: Fitter<S, E>,
    image: Seq<u8>,
    width: nat,
    x: int,
    y: int,
    n: int,
    loose: u64,
    tight: u64,
    coarse: QuadTree,
    fine: QuadTree,
)
    requires
        fitter.deterministic(),
        fitter.at_least_as_loose(loose, tight),
        fitter.may_grow(image, width, x, y, n, loose, coarse),
        fitter.may_grow(image, width, x, y, n, tight, fine),
    ensures
        prunes(coarse, fine),
        coarse.leaf_count() <= fine.leaf_count(),
        coarse.tree_len() <= fine.tree_len(),
        coarse.params_len() <= fine.params_len(),
    decreases coarse,
{
    match (coarse, fine) {
        (QuadTree::Leaf(p), QuadTree::Leaf(q)) => {},
        (QuadTree::Leaf(_), QuadTree::Split(..)) => {},
        (QuadTree::Split(..), QuadTree::Leaf(q)) => {
            let p = choose|p: Plane| #[trigger]
                fitter.may_judge(image, width, x, y, n, loose, p, true);
            assert(fitter.may_judge(image, width, x, y, n, tight, q, false));
            assert(p == q);
        },
        (QuadTree::Split(c0, c1, c2, c3), QuadTree::Split(f0, f1, f2, f3)) => {
            let m = half(n);
            law_looser_bound_prunes(fitter, image, width, x, y, m, loose, tight, *c0, *f0);
            law_looser_bound_prunes(fitter, image, width, x, y + m, m, loose, tight, *c1, *f1);
            law_looser_bound_prunes(fitter, image, width, x + m, y, m, loose, tight, *c2, *f2);
            law_looser_bound_prunes(fitter, image, width, x + m, y + m, m, loose, tight, *c3, *f3);
        },
    }
    lemma_pruned_is_smaller(coarse, fine);
}

/// The tree of a plane under a looser bound is pruned, and its plain listing is
/// no longer.
proof fn lemma_looser_plane<S: Fn(NormalSums) -> Plane, E: Fn(i64, i64, u64) -> bool>(
    fitter: Fitter<S, E>,
    data: Seq<u8>,
    n: nat,
    loose: u64,
    tight: u64,
    coarse: QuadTree,
    fine: QuadTree,
)
    requires
        fitter.deterministic(),
        fitter.at_least_as_loose(loose, tight),
        fitter.may_grow_plane(data, n, loose, coarse),
        fitter.may_grow_plane(data, n, tight, fine),
    ensures
        prunes(coarse, fine),
        coarse.tree_len() <= fine.tree_len(),
        coarse.params_len() <= fine.params_len(),
{
    let plane = data.take((n * n) as int);
    law_looser_bound_prunes(fitter, plane, n, 0, 0, n as int, loose, tight, coarse, fine);
}

/// A larger bound never makes the estimated size of an image larger.
pub proof fn law_looser_bounds_shrink_the_estimate<
    S: Fn(NormalSums) -> Plane,
    E: Fn(i64, i64, u64) -> bool,
>(
    fitter: Fitter<S, E>,
    image: Picture,
    loose: Options,
    tight: Options,
    coarse: Encoded,
    fine: Encoded,
)
    requires
        fitter.deterministic(),
        fitter.at_least_as_loose(loose.max_error, tight.max_error),
        fitter.at_least_as_loose(loose.chroma_max_error, tight.chroma_max_error),
        fitter.may_encode(image, loose, Ok(coarse)),
        fitter.may_encode(image, tight, Ok(fine)),
    ensures
        coarse.estimate <= fine.estimate,
{
    match image {
        Picture::Grey { width, data, .. } => {
            let c = choose|tree: QuadTree| #[trigger]
                fitter.may_grow_plane(data, width, loose.max_error, tree) && is_grey_file(
                    coarse,
                    width,
                    loose,
                    tree,
                );
            let f = choose|tree: QuadTree| #[trigger]
                fitter.may_grow_plane(data, width, tight.max_error, tree) && is_grey_file(
                    fine,
                    width,
                    tight,
                    tree,
                );
            lemma_looser_plane(fitter, data, width, loose.max_error, tight.max_error, c, f);
        },
        Picture::Colour { width, y, cb, cr, .. } => {
            let half = half_up(width as int) as nat;
            let (cy, cb_tree, cr_tree) = choose|ty: QuadTree, tb: QuadTree, tr: QuadTree|
                #![trigger
                    fitter.may_grow_plane(y, width, loose.max_error, ty),
                    fitter.may_grow_plane(cb, half, loose.chroma_max_error, tb),
                    fitter.may_grow_plane(cr, half, loose.chroma_max_error, tr)]
                {
                    &&& fitter.may_grow_plane(y, width, loose.max_error, ty)
                    &&& fitter.may_grow_plane(cb, half, loose.chroma_max_error, tb)
                    &&& fitter.may_grow_plane(cr, half, loose.chroma_max_error, tr)
                    &&& is_colour_file(coarse, width, loose, ty, tb, tr)
                };
            let (fy, fb_tree, fr_tree) = choose|ty: QuadTree, tb: QuadTree, tr: QuadTree|
                #![trigger
                    fitter.may_grow_plane(y, width, tight.max_error, ty),
                    fitter.may_grow_plane(cb, half, tight.chroma_max_error, tb),
                    fitter.may_grow_plane(cr, half, tight.chroma_max_error, tr)]
                {
                    &&& fitter.may_grow_plane(y, width, tight.max_error, ty)
                    &&& fitter.may_grow_plane(cb, half, tight.chroma_max_error, tb)
                    &&& fitter.may_grow_plane(cr, half, tight.chroma_max_error, tr)
                    &&& is_colour_file(fine, width, tight, ty, tb, tr)
                };
            let (luma, chroma) = (loose.max_error, loose.chroma_max_error);
            lemma_looser_plane(fitter, y, width, luma, tight.max_error, cy, fy);
            lemma_looser_plane(
                fitter,
                cb,
                half,
                chroma,
                tight.chroma_max_error,
                cb_tree,
                fb_tree,
            );
            lemma_looser_plane(
                fitter,
                cr,
                half,
                chroma,
                tight.chroma_max_error,
                cr_tree,
                fr_tree,
            );
        },
    }
}

/// With one answer to each question there is one tree: walking an image twice,
/// in parallel or not, gives the same.
pub proof fn law_tree_is_determined<S: Fn(NormalSums) -> Plane, E: Fn(i64, i64, u64) -> bool>(
    fitter: Fitter<S, E>,
    image: Seq<u8>,
    width: nat,
    x: int,
    y: int,
    n: int,
    bound: u64,
    s: QuadTree,
    t: QuadTree,
)
    requires
        fitter.deterministic(),
        fitter.may_grow(image, width, x, y, n, bound, s),
        fitter.may_grow(image, width, x, y, n, bound, t),
    ensures
        s == t,
{
    law_looser_bound_prunes(fitter, image, width, x, y, n, bound, bound, s, t);
    law_looser_bound_prunes(fitter, image, width, x, y, n, bound, bound, t, s);
    lemma_prunes_antisymmetric(s, t);
}

/// With one answer to each question an image is rendered in one way: what a
/// file decodes to is what walking the image again and rendering the leaves
/// gives.
pub proof fn law_render_is_determined<S: Fn(NormalSums) -> Plane, E: Fn(i64, i64, u64) -> bool>(
    fitter: Fitter<S, E>,
    image: Picture,
    options: Options,
    one: Picture,
    other: Picture,
)
    requires
        fitter.deterministic(),
        fitter.may_render(image, options, one),
        fitter.may_render(image, options, other),
    ensures
        one == other,
{
    match image {
        Picture::Grey { width, height, data } => {
            let bound = options.max_error;
            let s = choose|tree: QuadTree| #[trigger]
                fitter.may_grow_plane(data, width, bound, tree) && one == (Picture::Grey {
                    width,
                    height,
                    data: rendered(tree, width),
                });
            let t = choose|tree: QuadTree| #[trigger]
                fitter.may_grow_plane(data, width, bound, tree) && other == (Picture::Grey {
                    width,
                    height,
                    data: rendered(tree, width),
                });
            lemma_plane_is_determined(fitter, data, width, bound, s, t);
        },
        Picture::Colour { width, height, y, cb, cr } => {
            let half = half_up(width as int) as nat;
            let (luma, chroma) = (options.max_error, options.chroma_max_error);
            let (sy, sb, sr) = choose|ty: QuadTree, tb: QuadTree, tr: QuadTree|
                #![trigger
                    fitter.may_grow_plane(y, width, luma, ty),
                    fitter.may_grow_plane(cb, half, chroma, tb),
                    fitter.may_grow_plane(cr, half, chroma, tr)]
                {
                    &&& fitter.may_grow_plane(y, width, luma, ty)
                    &&& fitter.may_grow_plane(cb, half, chroma, tb)
                    &&& fitter.may_grow_plane(cr, half, chroma, tr)
                    &&& one == (Picture::Colour {
                        width,
                        height,
                        y: rendered(ty, width),
                        cb: rendered(tb, half),
                        cr: rendered(tr, half),
                    })
                };
            let (ty, tb, tr) = choose|ty: QuadTree, tb: QuadTree, tr: QuadTree|
                #![trigger
                    fitter.may_grow_plane(y, width, luma, ty),
                    fitter.may_grow_plane(cb, half, chroma, tb),
                    fitter.may_grow_plane(cr, half, chroma, tr)]
                {
                    &&& fitter.may_grow_plane(y, width, luma, ty)
                    &&& fitter.may_grow_plane(cb, half, chroma, tb)
                    &&& fitter.may_grow_plane(cr, half, chroma, tr)
                    &&& other == (Picture::Colour {
                        width,
                        height,
                        y: rendered(ty, width),
                        cb: rendered(tb, half),
                        cr: rendered(tr, half),
                    })
                };
            lemma_plane_is_determined(fitter, y, width, luma, sy, ty);
            lemma_plane_is_determined(fitter, cb, half, chroma, sb, tb);
            lemma_plane_is_determined(fitter, cr, half, chroma, sr, tr);
        },
    }
}

/// With one answer to each question there is one tree for a plane.
proof fn lemma_plane_is_determined<S: Fn(NormalSums) -> Plane, E: Fn(i64, i64, u64) -> bool>(
    fitter: Fitter<S, E>,
    data: Seq<u8>,
    n: nat,
    bound: u64,
    s: QuadTree,
    t: QuadTree,
)
    requires
        fitter.deterministic(),
        fitter.may_grow_plane(data, n, bound, s),
        fitter.may_grow_plane(data, n, bound, t),
    ensures
        s == t,
{
    law_tree_is_determined(fitter, data.take((n * n) as int), n, 0, 0, n as int, bound, s, t);
}

/// The quadrants of a square with an even edge lie inside an image with it.
proof fn lemma_quadrants_inside(len: nat, width: nat, x: int, y: int, m: int)
    requires
        m >= 1,
        x >= 0,
        y >= 0,
        inside(len, width, x, y, 2 * m),
    ensures
        inside(len, width, x, y, m),
        inside(len, width, x, y + m, m),
        inside(len, width, x + m, y, m),
        inside(len, width, x + m, y + m, m),
{
    assert((x + m - 1) * width <= (x + 2 * m - 1) * width) by (nonlinear_arith)
        requires
            m >= 1,
            width >= 0,
    ;
}

/// A power of two above one is twice the power before.
pub(crate) proof fn lemma_halve_power(k: nat)
    ensures
        pow2(k) >= 1,
        k > 0 ==> pow2(k) == 2 * pow2((k - 1) as nat),
        k > 0 ==> half(pow2(k) as int) == pow2((k - 1) as nat),
        k > 0 ==> half_up(pow2(k) as int) == pow2((k - 1) as nat),
        k == 0 ==> pow2(k) == 1,
{
    lemma_pow2_pos(k);
    if k > 0 {
        lemma_pow2_unfold(k);
    } else {
        lemma2_to64();
    }
}

/// Growing a tree over a square inside an image stays inside it where the edge
/// is a power of two, as long as no exact fit exceeds the bound.
pub proof fn law_power_of_two_stays_inside<
    S: Fn(NormalSums) -> Plane,
    E: Fn(i64, i64, u64) -> bool,
>(fitter: Fitter<S, E>, image: Seq<u8>, width: nat, x: int, y: int, k: nat, bound: u64)
    requires
        fitter.settles(bound),
        pow2(k) <= MAX_EDGE,
        x >= 0,
        y >= 0,
        inside(image.len(), width, x, y, pow2(k) as int),
    ensures
        fitter.stays_inside(image, width, x, y, pow2(k) as int, bound),
    decreases k,
{
    let n = pow2(k) as int;
    lemma_halve_power(k);
    if k == 0 {
        assert forall|plane: Plane| !(#[trigger] fitter.may_judge(
            image,
            width,
            x,
            y,
            n,
            bound,
            plane,
            true,
        )) by {
            if fitter.may_judge(image, width, x, y, n, bound, plane, true) {
                law_single_pixel_is_exact(fitter.solve, image, width, x, y, plane);
            }
        }
    } else {
        let less = (k - 1) as nat;
        let m = pow2(less) as int;
        lemma_halve_power(less);
        lemma_quadrants_inside(image.len(), width, x, y, m);
        law_power_of_two_stays_inside(fitter, image, width, x, y, less, bound);
        law_power_of_two_stays_inside(fitter, image, width, x, y + m, less, bound);
        law_power_of_two_stays_inside(fitter, image, width, x + m, y, less, bound);
        law_power_of_two_stays_inside(fitter, image, width, x + m, y + m, less, bound);
    }
}

/// A plane with all its pixels can be walked where its edge is a power of two.
proof fn lemma_power_of_two_walks<S: Fn(NormalSums) -> Plane, E: Fn(i64, i64, u64) -> bool>(
    fitter: Fitter<S, E>,
    data: Seq<u8>,
    k: nat,
    bound: u64,
)
    requires
        fitter.settles(bound),
        pow2(k) <= MAX_EDGE,
        pow2(k) * pow2(k) <= data.len(),
    ensures
        fitter.can_walk_plane(data, pow2(k), bound),
{
    let n = pow2(k) as int;
    lemma_halve_power(k);
    lemma_whole_inside(n);
    law_power_of_two_stays_inside(fitter, data.take(n * n), n as nat, 0, 0, k, bound);
}

/// A whole square image lies inside itself.
proof fn lemma_whole_inside(n: int)
    requires
        1 <= n <= usize::MAX,
    ensures
        n * n >= 0,
        inside((n * n) as nat, n as nat, 0, 0, n),
{
    assert(n * n >= 0) by (nonlinear_arith);
    assert((n - 1) * n + (n - 1) < n * n) by (nonlinear_arith);
}

/// The planes of a picture have all their pixels.
pub open spec fn is_whole(image: Picture) -> bool {
    match image {
        Picture::Grey { width, height, data } => width == height && data.len() >= width * width,
        Picture::Colour { width, height, y, cb, cr } => {
            let half = half_up(width as int);
            &&& width == height
            &&& y.len() >= width * width
            &&& cb.len() >= half * half
            &&& cr.len() >= half * half
        },
    }
}

/// An image whose edge is a power of two can be encoded, as long as no exact
/// fit exceeds the bounds.
pub proof fn law_power_of_two_encodes<S: Fn(NormalSums) -> Plane, E: Fn(i64, i64, u64) -> bool>(
    fitter: Fitter<S, E>,
    image: Picture,
    options: Options,
    k: nat,
)
    requires
        fitter.settles(options.max_error),
        fitter.settles(options.chroma_max_error),
        is_whole(image),
        edge_and_colour(image).0 == pow2(k),
        pow2(k) <= MAX_EDGE,
    ensures
        fitter.can_encode(image, options),
{
    lemma_halve_power(k);
    match image {
        Picture::Grey { data, .. } => {
            lemma_power_of_two_walks(fitter, data, k, options.max_error);
        },
        Picture::Colour { y, cb, cr, .. } => {
            let less = if k > 0 {
                (k - 1) as nat
            } else {
                0
            };
            lemma_halve_power(less);
            lemma_power_of_two_walks(fitter, y, k, options.max_error);
            lemma_power_of_two_walks(fitter, cb, less, options.chroma_max_error);
            lemma_power_of_two_walks(fitter, cr, less, options.chroma_max_error);
        },
    }
}

/// Reading a tree over a square inside the canvas succeeds where the edge is a
/// power of two, and keeps the size of the canvas.
proof fn lemma_power_of_two_reads(r: Reader, x: int, y: int, k: nat, depth: nat, prev_split: bool)
    requires
        x >= 0,
        y >= 0,
        inside(r.canvas.pixels.len(), r.canvas.width, x, y, pow2(k) as int),
    ensures
        read_tree(r, x, y, pow2(k) as int, depth, prev_split) matches Some((_, next))
            && next.canvas.pixels.len() == r.canvas.pixels.len() && next.canvas.width
            == r.canvas.width,
    decreases k,
{
    reveal(read_split);
    reveal(read_leaf);
    let n = pow2(k) as int;
    lemma_halve_power(k);
    let (split, after) = read_split(r, n, depth, prev_split);
    if split && n > 1 {
        let less = (k - 1) as nat;
        let m = pow2(less) as int;
        let deeper = depth + 1;
        lemma_halve_power(less);
        lemma_quadrants_inside(r.canvas.pixels.len(), r.canvas.width, x, y, m);
        lemma_power_of_two_reads(after, x, y, less, deeper, false);
        let (q0, r0) = read_tree(after, x, y, m, deeper, false)->0;
        lemma_power_of_two_reads(r0, x, y + m, less, deeper, q0 is Split);
        let (q1, r1) = read_tree(r0, x, y + m, m, deeper, q0 is Split)->0;
        lemma_power_of_two_reads(r1, x + m, y, less, deeper, q1 is Split);
        let (q2, r2) = read_tree(r1, x + m, y, m, deeper, q1 is Split)->0;
        lemma_power_of_two_reads(r2, x + m, y + m, less, deeper, q2 is Split);
    }
}

/// A plane whose edge is a power of two can be read from whatever bytes.
proof fn lemma_power_of_two_plane(c: Cursor, k: nat)
    requires
        pow2(k) <= usize::MAX,
    ensures
        read_plane(c, pow2(k), pow2(k), pow2(k) as int) is Some,
{
    let n = pow2(k);
    let r = Reader {
        c,
        models: TreeModels::fresh(),
        canvas: Canvas::empty(n, n),
    };
    lemma_halve_power(k);
    lemma_whole_inside(n as int);
    lemma_power_of_two_reads(r, 0, 0, k, 0, false);
}

/// Whatever bytes follow, a file that declares a square whose edge is a power
/// of two decodes: a truncated or damaged payload shows a wrong image, and
/// never leads out of it.
pub proof fn law_power_of_two_decodes(file: Seq<u8>, k: nat)
    requires
        header_info(file) matches Ok(info) && info.width == info.height && info.width == pow2(k),
        holdable(file),
    ensures
        can_decode(file),
        decoded(file) matches Some(Ok(_)),
{
    let info = header_info(file)->Ok_0;
    let payload = file.skip(HEADER_LEN as int);
    let n = pow2(k);
    lemma_halve_power(k);
    assert(n <= usize::MAX) by (nonlinear_arith)
        requires
            n * n <= isize::MAX,
    ;
    lemma_power_of_two_plane(Cursor::start(payload), k);
    if info.colour {
        let less = if k > 0 {
            (k - 1) as nat
        } else {
            0
        };
        lemma_halve_power(less);
        let h = pow2(less);
        let (_, _, c1) = read_plane(Cursor::start(payload), n, n, n as int)->0;
        lemma_power_of_two_plane(c1, less);
        let (_, _, c2) = read_plane(c1, h, h, h as int)->0;
        lemma_power_of_two_plane(c2, less);
    }
}

/// What a decoded file shows, without what its header says of the bounds.
pub open spec fn shown(out: Option<Result<(Picture, PieInfo), PieError>>) -> Option<
    Result<Picture, PieError>,
> {
    match out {
        None => None,
        Some(Err(error)) => Some(Err(error)),
        Some(Ok((picture, _))) => Some(Ok(picture)),
    }
}

/// The error bounds are metadata: files that differ in nothing else show the
/// same.
pub proof fn law_bounds_are_metadata(file: Seq<u8>, other: Seq<u8>)
    requires
        file.len() == other.len(),
        forall|i: int|
            0 <= i < file.len() && !(13 <= i < HEADER_LEN) ==> #[trigger] file[i] == other[i],
    ensures
        shown(decoded(file)) == shown(decoded(other)),
{
    if file.len() >= HEADER_LEN {
        assert(file.subrange(0, 4) =~= other.subrange(0, 4));
        assert(file.subrange(5, 9) =~= other.subrange(5, 9));
        assert(file.subrange(9, 13) =~= other.subrange(9, 13));
        assert(file.skip(HEADER_LEN as int) =~= other.skip(HEADER_LEN as int));
        assert(file[4] == other[4]);
    }
}

/// Every leaf of a grown tree is a fit that did not exceed the bound.
pub proof fn law_every_leaf_is_within_bound<
    S: Fn(NormalSums) -> Plane,
    E: Fn(i64, i64, u64) -> bool,
>(
    fitter: Fitter<S, E>,
    image: Seq<u8>,
    width: nat,
    x: int,
    y: int,
    n: int,
    bound: u64,
    tree: QuadTree,
    k: int,
)
    requires
        fitter.may_grow(image, width, x, y, n, bound, tree),
        0 <= x,
        0 <= y,
        0 <= n,
        addressable(x, y, n),
        0 <= k < tree.leaves(x, y, n).len(),
    ensures
        ({
            let leaf = tree.leaves(x, y, n)[k];
            fitter.may_judge(
                image,
                width,
                leaf.x as int,
                leaf.y as int,
                leaf.n as int,
                bound,
                leaf.plane,
                false,
            )
        }),
    decreases tree,
{
    if let QuadTree::Split(q0, q1, q2, q3) = tree {
        let m = half(n);
        let (v0, v1, v2, v3) = (
            q0.leaves(x, y, m),
            q1.leaves(x, y + m, m),
            q2.leaves(x + m, y, m),
            q3.leaves(x + m, y + m, m),
        );
        let (a, b, c) = (v0.len(), v0.len() + v1.len(), v0.len() + v1.len() + v2.len());
        let leaf = tree.leaves(x, y, n)[k];
        if k < a {
            assert(leaf == v0[k]);
            law_every_leaf_is_within_bound(fitter, image, width, x, y, m, bound, *q0, k);
        } else if k < b {
            assert(leaf == v1[k - a]);
            law_every_leaf_is_within_bound(fitter, image, width, x, y + m, m, bound, *q1, k - a);
        } else if k < c {
            assert(leaf == v2[k - b]);
            law_every_leaf_is_within_bound(fitter, image, width, x + m, y, m, bound, *q2, k - b);
        } else {
            assert(leaf == v3[k - c]);
            law_every_leaf_is_within_bound(
                fitter,
                image,
                width,
                x + m,
                y + m,
                m,
                bound,
                *q3,
                k - c,
            );
        }
    }
}

/// A decoded greyscale file is, bit for bit, the reference render of the image
/// under the same bound.
pub proof fn law_decoded_is_the_reference_render<
    S: Fn(NormalSums) -> Plane,
    E: Fn(i64, i64, u64) -> bool,
>(
    fitter: Fitter<S, E>,
    image: Grey,
    options: Options,
    encoded: Encoded,
    compressed: Compressed,
)
    requires
        fitter.deterministic(),
        options.max_error == MAX_ERROR,
        image.width > 0,
        image.width * image.width <= isize::MAX,
        fitter.may_encode(Image::Grey(image)@, options, Ok(encoded)),
        fitter.may_compress(image, Ok(compressed)),
    ensures
        shown(decoded(encoded.bytes@)) == Some(
            Ok::<Picture, PieError>(
                Picture::Grey {
                    width: image.width as nat,
                    height: image.height as nat,
                    data: compressed.pixels@,
                },
            ),
        ),
        compressed.raw == encoded.raw,
        compressed.estimate == encoded.estimate,
{
    let n = image.width as nat;
    let s = choose|tree: QuadTree| #[trigger]
        fitter.may_grow_plane(image.data@, n, MAX_ERROR, tree) && is_rendered(compressed, n, tree);
    let t = choose|tree: QuadTree| #[trigger]
        fitter.may_grow_plane(image.data@, n, MAX_ERROR, tree) && is_grey_file(
            encoded,
            n,
            options,
            tree,
        );
    lemma_plane_is_determined(fitter, image.data@, n, MAX_ERROR, s, t);
    lemma_plane_grown(fitter, image.data@, n, MAX_ERROR, t);
    law_grey_round_trips(encoded, n, options, t);
}

/// A flat sub-image is a single leaf with its grey, whatever its edge, as long
/// as no error at all does not exceed the bound.
pub proof fn law_flat_image_is_one_leaf<S: Fn(NormalSums) -> Plane, E: Fn(i64, i64, u64) -> bool>(
    fitter: Fitter<S, E>,
    image: Seq<u8>,
    width: nat,
    x: int,
    y: int,
    n: int,
    bound: u64,
    grey: u8,
    subtree: Subtree,
)
    requires
        finds_integral_solutions(fitter.solve),
        !call_ensures(fitter.exceeds, (0i64, (n * n) as i64, bound), true),
        0 <= x <= usize::MAX,
        0 <= y <= usize::MAX,
        1 <= n <= MAX_EDGE,
        forall|i: int, j: int|
            0 <= i < n && 0 <= j < n ==> #[trigger] image[(x + i) * width + y + j] == grey,
        fitter.may_come_to(image, width, x, y, n, bound, Some(subtree)),
    ensures
        subtree.leaves@.len() == 1,
        subtree.leaves@[0].x == x,
        subtree.leaves@[0].y == y,
        subtree.leaves@[0].n == n,
        subtree.leaves@[0].plane.a == 0,
        subtree.leaves@[0].plane.b == 0,
        subtree.leaves@[0].plane.c == grey,
        subtree.tree_len == 1,
        subtree.params_len == 3,
{
    assert forall|plane: Plane| #[trigger]
        may_fit(fitter.solve, image, width, x, y, n as nat, plane) implies plane.a == 0 && plane.b
        == 0 && plane.c == grey && squared_error(image, width, x, y, n as nat, plane) == 0 by {
        law_flat_image_is_fitted(fitter.solve, image, width, x, y, n as nat, grey, plane);
    }
    assert(fitter.is_content(image, width, x, y, n, bound));
    law_within_bound_is_one_leaf(fitter, image, width, x, y, n, bound, subtree);
}

/// A sub-image of more than one pixel whose pixels are exactly `a*i + b*j + c`
/// is a single leaf with that plane, as long as no error at all does not exceed
/// the bound.
pub proof fn law_exact_plane_is_one_leaf<S: Fn(NormalSums) -> Plane, E: Fn(i64, i64, u64) -> bool>(
    fitter: Fitter<S, E>,
    image: Seq<u8>,
    width: nat,
    x: int,
    y: int,
    n: int,
    bound: u64,
    a: i64,
    b: i64,
    c: i64,
    subtree: Subtree,
)
    requires
        finds_integral_solutions(fitter.solve),
        !call_ensures(fitter.exceeds, (0i64, (n * n) as i64, bound), true),
        0 <= x <= usize::MAX,
        0 <= y <= usize::MAX,
        2 <= n <= MAX_EDGE,
        forall|i: int, j: int|
            0 <= i < n && 0 <= j < n ==> #[trigger] image[(x + i) * width + y + j] == a * i + b * j
                + c,
        fitter.may_come_to(image, width, x, y, n, bound, Some(subtree)),
    ensures
        subtree.leaves@.len() == 1,
        subtree.leaves@[0].x == x,
        subtree.leaves@[0].y == y,
        subtree.leaves@[0].n == n,
        subtree.leaves@[0].plane.a == a,
        subtree.leaves@[0].plane.b == b,
        subtree.leaves@[0].plane.c == c,
        subtree.tree_len == 1,
        subtree.params_len == 3,
{
    assert forall|plane: Plane| #[trigger]
        may_fit(fitter.solve, image, width, x, y, n as nat, plane) implies plane.a == a && plane.b
        == b && plane.c == c && squared_error(image, width, x, y, n as nat, plane) == 0 by {
        law_exact_plane_is_fitted(fitter.solve, image, width, x, y, n as nat, a, b, c, plane);
    }
    assert(fitter.is_content(image, width, x, y, n, bound));
    law_within_bound_is_one_leaf(fitter, image, width, x, y, n, bound, subtree);
}

/// A square image is encoded, one that is not square is refused with its
/// dimensions, and so it is when it is only rendered.
pub proof fn law_only_squares_are_encoded<S: Fn(NormalSums) -> Plane, E: Fn(i64, i64, u64) -> bool>(
    fitter: Fitter<S, E>,
    image: Image,
    options: Options,
    out: Result<Encoded, PieError>,
    grey: Grey,
    compressed: Result<Compressed, PieError>,
)
    requires
        fitter.may_encode(image@, options, out),
        fitter.may_compress(grey, compressed),
    ensures
        ({
            let (width, height) = match image {
                Image::Grey(img) => (img.width, img.height),
                Image::Colour(img) => (img.width, img.height),
            };
            &&& width == height ==> out is Ok
            &&& width != height ==> out == Err::<Encoded, PieError>(
                PieError::NotSquare { width, height },
            )
        }),
        grey.width == grey.height ==> compressed is Ok,
        grey.width != grey.height ==> compressed == Err::<Compressed, PieError>(
            PieError::NotSquare { width: grey.width, height: grey.height },
        ),
{
}

/// What is reported of a greyscale file: a byte for every pixel, and an estimate
/// that follows from the number of leaves, `leaves`: an entry for each and two
/// for each split, of a bit each, three bytes for each of either, and two more.
pub proof fn law_sizes_of_a_greyscale_file<
    S: Fn(NormalSums) -> Plane,
    E: Fn(i64, i64, u64) -> bool,
>(fitter: Fitter<S, E>, image: Grey, options: Options, encoded: Encoded) -> (tree: QuadTree)
    requires
        fitter.may_encode(Image::Grey(image)@, options, Ok(encoded)),
    ensures
        fitter.may_grow_plane(image.data@, image.width as nat, options.max_error, tree),
        ({
            let leaves = tree.leaves(0, 0, image.width as int).len() as int;
            let splits = (leaves - 1) / 3;
            &&& encoded.raw == image.width * image.height
            &&& encoded.estimate == (leaves + 2 * splits) / 8 + 3 * (leaves + splits) + 2
            &&& !encoded.colour
        }),
{
    let n = image.width as nat;
    let tree = choose|tree: QuadTree| #[trigger]
        fitter.may_grow_plane(image.data@, n, options.max_error, tree) && is_grey_file(
            encoded,
            n,
            options,
            tree,
        );
    law_listing_lengths(tree);
    lemma_leaves_len(tree, 0, 0, n as int);
    tree
}

/// The same for a colour file, with three bytes for every pixel, and the leaves
/// of all three planes, the chroma planes at half the edge under their own
/// bound.
pub proof fn law_sizes_of_a_colour_file<S: Fn(NormalSums) -> Plane, E: Fn(i64, i64, u64) -> bool>(
    fitter: Fitter<S, E>,
    image: Colour,
    options: Options,
    half: nat,
    encoded: Encoded,
) -> (trees: (QuadTree, QuadTree, QuadTree))
    requires
        fitter.may_encode(Image::Colour(image)@, options, Ok(encoded)),
        image.width <= 2 * half <= image.width + 1,
    ensures
        fitter.may_grow_plane(image.y@, image.width as nat, options.max_error, trees.0),
        fitter.may_grow_plane(image.cb@, half, options.chroma_max_error, trees.1),
        fitter.may_grow_plane(image.cr@, half, options.chroma_max_error, trees.2),
        ({
            let leaves = trees.0.leaves(0, 0, image.width as int).len() + trees.1.leaves(
                0,
                0,
                half as int,
            ).len() + trees.2.leaves(0, 0, half as int).len();
            let splits = (leaves - 3) / 3;
            &&& encoded.raw == 3 * (image.width * image.height)
            &&& encoded.estimate == (leaves + 2 * splits) / 8 + 3 * (leaves + splits) + 2
            &&& encoded.colour
        }),
{
    let n = image.width as nat;
    let (bound, loose) = (options.max_error, options.chroma_max_error);
    assert(half == half_up(n as int) as nat);
    let (ty, tb, tr) = choose|ty: QuadTree, tb: QuadTree, tr: QuadTree|
        #![trigger
            fitter.may_grow_plane(image.y@, n, bound, ty),
            fitter.may_grow_plane(image.cb@, half, loose, tb),
            fitter.may_grow_plane(image.cr@, half, loose, tr)]
        {
            &&& fitter.may_grow_plane(image.y@, n, bound, ty)
            &&& fitter.may_grow_plane(image.cb@, half, loose, tb)
            &&& fitter.may_grow_plane(image.cr@, half, loose, tr)
            &&& is_colour_file(encoded, n, options, ty, tb, tr)
        };
    law_listing_lengths(ty);
    law_listing_lengths(tb);
    law_listing_lengths(tr);
    lemma_leaves_len(ty, 0, 0, n as int);
    lemma_leaves_len(tb, 0, 0, half as int);
    lemma_leaves_len(tr, 0, 0, half as int);
    (ty, tb, tr)
}

/// The same for a rendered image, under the default bound.
pub proof fn law_sizes_of_a_rendered_image<
    S: Fn(NormalSums) -> Plane,
    E: Fn(i64, i64, u64) -> bool,
>(fitter: Fitter<S, E>, image: Grey, compressed: Compressed) -> (tree: QuadTree)
    requires
        fitter.may_compress(image, Ok(compressed)),
    ensures
        fitter.may_grow_plane(image.data@, image.width as nat, MAX_ERROR, tree),
        ({
            let leaves = tree.leaves(0, 0, image.width as int);
            let splits = (leaves.len() - 1) / 3;
            &&& compressed.raw == image.width * image.height
            &&& compressed.estimate == (leaves.len() + 2 * splits) / 8 + 3 * (leaves.len() + splits)
                + 2
            &&& compressed.pixels@ == paint_all(
                blank(image.width as nat, image.height as nat),
                image.width as nat,
                leaves,
            )
        }),
{
    let n = image.width as nat;
    let tree = choose|tree: QuadTree| #[trigger]
        fitter.may_grow_plane(image.data@, n, MAX_ERROR, tree) && is_rendered(compressed, n, tree);
    law_listing_lengths(tree);
    lemma_leaves_len(tree, 0, 0, n as int);
    tree
}

/// Reading a tree keeps the size of the canvas.
proof fn lemma_reading_keeps_the_size(
    r: Reader,
    x: int,
    y: int,
    n: int,
    depth: nat,
    prev_split: bool,
)
    ensures
        read_tree(r, x, y, n, depth, prev_split) matches Some((_, next)) ==> {
            &&& next.canvas.pixels.len() == r.canvas.pixels.len()
            &&& next.canvas.width == r.canvas.width
        },
    decreases n,
{
    reveal(read_split);
    reveal(read_leaf);
    let (split, after) = read_split(r, n, depth, prev_split);
    if split && n > 1 {
        let m = half(n);
        let deeper = depth + 1;
        lemma_half(n);
        lemma_reading_keeps_the_size(after, x, y, m, deeper, false);
        if let Some((q0, r0)) = read_tree(after, x, y, m, deeper, false) {
            lemma_reading_keeps_the_size(r0, x, y + m, m, deeper, q0 is Split);
            if let Some((q1, r1)) = read_tree(r0, x, y + m, m, deeper, q0 is Split) {
                lemma_reading_keeps_the_size(r1, x + m, y, m, deeper, q1 is Split);
                if let Some((q2, r2)) = read_tree(r1, x + m, y, m, deeper, q1 is Split) {
                    lemma_reading_keeps_the_size(r2, x + m, y + m, m, deeper, q2 is Split);
                }
            }
        }
    }
}

/// A plane that is read has all its pixels.
proof fn lemma_read_plane_is_whole(c: Cursor, width: nat, height: nat, n: int)
    ensures
        read_plane(c, width, height, n) matches Some((_, pixels, _)) ==> pixels.len() == width
            * height,
{
    let r = Reader { c, models: TreeModels::fresh(), canvas: Canvas::empty(width, height) };
    lemma_reading_keeps_the_size(r, 0, 0, n, 0, false);
}

/// Whatever a file decodes to has the kind and size that its header declares: a
/// pixel for each place, and for chroma for each two by two of them.
pub proof fn law_decoded_picture_is_whole(file: Seq<u8>, half: nat)
    requires
        decoded(file) matches Some(Ok((_, info))) && info.width <= 2 * half <= info.width + 1,
    ensures
        decoded(file) matches Some(Ok((picture, info))) && {
            &&& header_info(file) == Ok::<PieInfo, PieError>(info)
            &&& info.width == info.height
            &&& match picture {
                Picture::Grey { width, height, data } => {
                    &&& !info.colour
                    &&& width == info.width && height == info.height
                    &&& data.len() == info.width * info.height
                },
                Picture::Colour { width, height, y, cb, cr } => {
                    &&& info.colour
                    &&& width == info.width && height == info.height
                    &&& y.len() == info.width * info.height
                    &&& cb.len() == half * half && cr.len() == half * half
                },
            }
        },
{
    let info = header_info(file)->Ok_0;
    let payload = file.skip(HEADER_LEN as int);
    let n = info.width as nat;
    let c = Cursor::start(payload);
    lemma_read_plane_is_whole(c, n, n, n as int);
    if info.colour {
        let h = half_up(n as int) as nat;
        assert(half == h);
        let (_, _, c1) = read_plane(c, n, n, n as int)->0;
        lemma_read_plane_is_whole(c1, h, h, h as int);
        let (_, _, c2) = read_plane(c1, h, h, h as int)->0;
        lemma_read_plane_is_whole(c2, h, h, h as int);
    }
}

/// A greyscale image whose pixels are exactly `a*i + b*j + c` comes back
/// unchanged, whatever its edge, as long as no error at all does not exceed the
/// bound.
pub proof fn law_exact_plane_comes_back<S: Fn(NormalSums) -> Plane, E: Fn(i64, i64, u64) -> bool>(
    fitter: Fitter<S, E>,
    image: Grey,
    options: Options,
    a: i64,
    b: i64,
    c: i64,
    encoded: Encoded,
    i: int,
    j: int,
)
    requires
        finds_integral_solutions(fitter.solve),
        image.width >= 2,
        image.width * image.width <= isize::MAX,
        !call_ensures(
            fitter.exceeds,
            (0i64, (image.width * image.width) as i64, options.max_error),
            true,
        ),
        forall|i: int, j: int|
            0 <= i < image.width && 0 <= j < image.width ==> #[trigger] image.data@[i * image.width
                + j] == a * i + b * j + c,
        fitter.may_encode(Image::Grey(image)@, options, Ok(encoded)),
        0 <= i < image.width,
        0 <= j < image.width,
    ensures
        decoded(encoded.bytes@) matches Some(Ok((Picture::Grey { width, height, data }, _)))
            && width == image.width && height == image.width && data[i * image.width + j]
            == image.data@[i * image.width + j],
{
    let n = image.width as nat;
    let bound = options.max_error;
    let tree = choose|tree: QuadTree| #[trigger]
        fitter.may_grow_plane(image.data@, n, bound, tree) && is_grey_file(
            encoded,
            n,
            options,
            tree,
        );
    lemma_plane_grown(fitter, image.data@, n, bound, tree);
    law_grey_round_trips(encoded, n, options, tree);
    let plane = image.data@.take((n * n) as int);
    assert forall|p: int, q: int| 0 <= p < n && 0 <= q < n implies #[trigger] plane[(0 + p) * n + 0
        + q] == a * p + b * q + c by {
        assert(0 <= p * n + q < n * n) by (nonlinear_arith)
            requires
                0 <= p <= n - 1,
                0 <= q < n,
        ;
        assert(image.data@[p * n + q] == a * p + b * q + c);
    }
    assert(tree is Leaf) by {
        if let QuadTree::Split(..) = tree {
            let judged = choose|judged: Plane| #[trigger]
                fitter.may_judge(plane, n, 0, 0, n as int, bound, judged, true);
            law_exact_plane_is_fitted(fitter.solve, plane, n, 0, 0, n, a, b, c, judged);
        }
    }
    let fitted = tree->Leaf_0;
    law_exact_plane_is_fitted(fitter.solve, plane, n, 0, 0, n, a, b, c, fitted);
    let leaves = tree.leaves(0, 0, n as int);
    assert(plane[(0 + i) * n + 0 + j] == a * i + b * j + c);
    assert(0 <= i * n + j < n * n) by (nonlinear_arith)
        requires
            0 <= i <= n - 1,
            0 <= j < n,
    ;
    lemma_paint_all_len(blank(n, n), n, leaves);
    law_render_shows_the_last_leaf(n, n, leaves, 0, i, j);
}

/// What can be encoded or rendered: an image that is refused, and one whose
/// planes have all their pixels and can be walked.
pub proof fn law_what_can_be_encoded<S: Fn(NormalSums) -> Plane, E: Fn(i64, i64, u64) -> bool>(
    fitter: Fitter<S, E>,
    grey: Grey,
    colour: Colour,
    half: nat,
    options: Options,
)
    requires
        colour.width <= 2 * half <= colour.width + 1,
    ensures
        ({
            let walks = |data: Seq<u8>, n: nat, bound: u64|
                n * n <= data.len() && fitter.stays_inside(
                    data.take((n * n) as int),
                    n,
                    0,
                    0,
                    n as int,
                    bound,
                );
            let (w, v) = (grey.width as nat, colour.width as nat);
            let (bound, loose) = (options.max_error, options.chroma_max_error);
            &&& fitter.can_encode(Image::Grey(grey)@, options) <==> grey.width != grey.height
                || walks(grey.data@, w, bound)
            &&& fitter.can_compress(grey) <==> grey.width != grey.height || walks(
                grey.data@,
                w,
                MAX_ERROR,
            )
            &&& fitter.can_encode(Image::Colour(colour)@, options) <==> colour.width
                != colour.height || walks(colour.y@, v, bound) && walks(colour.cb@, half, loose)
                && walks(colour.cr@, half, loose)
        }),
{
    assert(half == half_up(colour.width as int) as nat);
}

/// What a greyscale file is made of: the header, with mode 0, and the digits of
/// the interval that its tree is coded to from the start.
pub proof fn law_layout_of_a_greyscale_file<
    S: Fn(NormalSums) -> Plane,
    E: Fn(i64, i64, u64) -> bool,
>(fitter: Fitter<S, E>, image: Grey, options: Options, encoded: Encoded) -> (tree: QuadTree)
    requires
        fitter.may_encode(Image::Grey(image)@, options, Ok(encoded)),
    ensures
        fitter.may_grow_plane(image.data@, image.width as nat, options.max_error, tree),
        ({
            let n = image.width as nat;
            let end = write_plane(Interval::start(), tree, n, n, n as int);
            let payload = encoded.bytes@.skip(29);
            &&& encoded.bytes@.take(29) == header_bytes(0, n as u32, n as u32, options)
            &&& payload.len() == end.len
            &&& big_endian(payload) == end.low
        }),
{
    let n = image.width as nat;
    let tree = choose|tree: QuadTree| #[trigger]
        fitter.may_grow_plane(image.data@, n, options.max_error, tree) && is_grey_file(
            encoded,
            n,
            options,
            tree,
        );
    let header = header_bytes(MODE_GREY, n as u32, n as u32, options);
    lemma_header_len(MODE_GREY, n as u32, n as u32, options);
    assert(encoded.bytes@.take(29) =~= header);
    tree
}

/// What a colour file is made of: the header, with mode 1, and the digits of
/// the interval that its trees are coded to one after the other, luma first,
/// then Cb, then Cr.
pub proof fn law_layout_of_a_colour_file<S: Fn(NormalSums) -> Plane, E: Fn(i64, i64, u64) -> bool>(
    fitter: Fitter<S, E>,
    image: Colour,
    options: Options,
    half: nat,
    encoded: Encoded,
) -> (trees: (QuadTree, QuadTree, QuadTree))
    requires
        fitter.may_encode(Image::Colour(image)@, options, Ok(encoded)),
        image.width <= 2 * half <= image.width + 1,
    ensures
        fitter.may_grow_plane(image.y@, image.width as nat, options.max_error, trees.0),
        fitter.may_grow_plane(image.cb@, half, options.chroma_max_error, trees.1),
        fitter.may_grow_plane(image.cr@, half, options.chroma_max_error, trees.2),
        ({
            let n = image.width as nat;
            let luma = write_plane(Interval::start(), trees.0, n, n, n as int);
            let blue = write_plane(luma, trees.1, half, half, half as int);
            let end = write_plane(blue, trees.2, half, half, half as int);
            let payload = encoded.bytes@.skip(29);
            &&& encoded.bytes@.take(29) == header_bytes(1, n as u32, n as u32, options)
            &&& payload.len() == end.len
            &&& big_endian(payload) == end.low
        }),
{
    let n = image.width as nat;
    let (bound, loose) = (options.max_error, options.chroma_max_error);
    assert(half == half_up(n as int) as nat);
    let (ty, tb, tr) = choose|ty: QuadTree, tb: QuadTree, tr: QuadTree|
        #![trigger
            fitter.may_grow_plane(image.y@, n, bound, ty),
            fitter.may_grow_plane(image.cb@, half, loose, tb),
            fitter.may_grow_plane(image.cr@, half, loose, tr)]
        {
            &&& fitter.may_grow_plane(image.y@, n, bound, ty)
            &&& fitter.may_grow_plane(image.cb@, half, loose, tb)
            &&& fitter.may_grow_plane(image.cr@, half, loose, tr)
            &&& is_colour_file(encoded, n, options, ty, tb, tr)
        };
    let header = header_bytes(MODE_COLOUR, n as u32, n as u32, options);
    lemma_header_len(MODE_COLOUR, n as u32, n as u32, options);
    assert(encoded.bytes@.take(29) =~= header);
    (ty, tb, tr)
}

/// A plane is walked over its first `n` rows of `n` pixels, and only there.
pub proof fn law_planes_are_walked_whole<S: Fn(NormalSums) -> Plane, E: Fn(i64, i64, u64) -> bool>(
    fitter: Fitter<S, E>,
    data: Seq<u8>,
    n: nat,
    bound: u64,
    tree: QuadTree,
)
    ensures
        fitter.may_grow_plane(data, n, bound, tree) <==> n * n <= data.len() && fitter.may_grow(
            data.take((n * n) as int),
            n,
            0,
            0,
            n as int,
            bound,
            tree,
        ),
{
}

/// How a file is decoded: it is refused for its header, or for not being
/// square; else its planes are read one after the other from behind the header,
/// luma first, then Cb, then Cr at half the edge.
pub proof fn law_files_are_read_in_order(file: Seq<u8>, half: nat)
    ensures
        match header_info(file) {
            Err(error) => decoded(file) == Some(Err::<(Picture, PieInfo), PieError>(error)),
            Ok(info) => {
                let n = info.width as nat;
                let y = read_plane(Cursor::start(file.skip(29)), n, n, n as int);
                let cb = read_plane(y->Some_0.2, half, half, half as int);
                let cr = read_plane(cb->Some_0.2, half, half, half as int);
                let square = info.width == info.height;
                let halved = info.width <= 2 * half <= info.width + 1;
                &&& !square ==> decoded(file) == Some(
                    Err::<(Picture, PieInfo), PieError>(
                        PieError::NotSquare {
                            width: info.width as usize,
                            height: info.height as usize,
                        },
                    ),
                )
                &&& square && !info.colour ==> decoded(file) == if y is Some {
                    Some(
                        Ok::<(Picture, PieInfo), PieError>(
                            (Picture::Grey { width: n, height: n, data: y->Some_0.1 }, info),
                        ),
                    )
                } else {
                    None
                }
                &&& square && info.colour && halved ==> decoded(file) == if y is Some && cb is Some
                    && cr is Some {
                    Some(
                        Ok::<(Picture, PieInfo), PieError>(
                            (
                                Picture::Colour {
                                    width: n,
                                    height: n,
                                    y: y->Some_0.1,
                                    cb: cb->Some_0.1,
                                    cr: cr->Some_0.1,
                                },
                                info,
                            ),
                        ),
                    )
                } else {
                    None
                }
            },
        },
{
    if let Ok(info) = header_info(file) {
        if info.width <= 2 * half <= info.width + 1 {
            assert(half == half_up(info.width as int) as nat);
        }
    }
}

/// A file can be decoded or is refused if it is refused for its header or for
/// not being square, or its pixels can be held in memory and its leaves lie
/// inside the image.
pub proof fn law_what_can_be_decoded(file: Seq<u8>)
    ensures
        match header_info(file) {
            Err(_) => can_decode(file),
            Ok(info) => {
                &&& info.width != info.height ==> can_decode(file)
                &&& info.width == info.height ==> (can_decode(file) <==> info.width * info.height
                    <= isize::MAX && decoded(file) is Some)
            },
        },
{
}

} // verus!
