//! Fitting a greyscale image and rendering the fit.

use crate::canvas::render;
use crate::codec::{lemma_plane_grown, rendered, try_walk_plane};
use crate::fit::{Fitter, NormalSums};
use crate::image::{square_edge, Grey, PieError, MAX_ERROR};
use crate::plane::Plane;
use crate::quadtree::{lemma_leaves_paintable, QuadTree};
use vstd::pervasive::unreached;
use vstd::prelude::*;

verus! {

/// A fitted image, plus the numbers needed to report on it.
pub struct Compressed {
    /// The rendered leaves, one byte per pixel.
    pub pixels: Vec<u8>,
    /// Size of the raw image, one byte per pixel.
    pub raw: u64,
    /// About how many bytes the quadtree takes.
    pub estimate: u64,
}

/// The rendered leaves of a tree over `n` pixels an edge, and its sizes.
pub open spec fn is_rendered(compressed: Compressed, n: nat, tree: QuadTree) -> bool {
    &&& compressed.pixels@ == rendered(tree, n)
    &&& compressed.raw == n * n
    &&& compressed.estimate == tree.tree_len() / 8 + tree.params_len() + 2
}

impl<S: Fn(NormalSums) -> Plane, E: Fn(i64, i64, u64) -> bool> Fitter<S, E> {
    /// Whatever the fitter gives, an image can be fitted or is refused.
    pub open spec fn can_compress(&self, image: Grey) -> bool {
        image.width == image.height ==> self.can_walk_plane(
            image.data@,
            image.width as nat,
            MAX_ERROR,
        )
    }

    /// What fitting an image may come to: a tree that may be grown over it, or
    /// a refusal if and only if it is not square.
    pub open spec fn may_compress(&self, image: Grey, out: Result<Compressed, PieError>) -> bool {
        if image.width != image.height {
            out == Err::<Compressed, PieError>(
                PieError::NotSquare { width: image.width, height: image.height },
            )
        } else {
            out matches Ok(compressed) && exists|tree: QuadTree| #[trigger]
                self.may_grow_plane(image.data@, image.width as nat, MAX_ERROR, tree)
                    && is_rendered(compressed, image.width as nat, tree)
        }
    }
}

/// Fit an image and render the fit.
///
/// `None` where walking leaves the image.
pub fn try_compress<
    S: Fn(NormalSums) -> Plane + Sync,
    E: Fn(i64, i64, u64) -> bool + Sync,
>(image: &Grey, fitter: &Fitter<S, E>) -> (out: Option<Result<Compressed, PieError>>)
    requires
        fitter.total(),
    ensures
        match out {
            None => !fitter.can_compress(*image),
            Some(result) => fitter.may_compress(*image, result),
        },
{
    let n = match square_edge(image.width, image.height) {
        Ok(n) => n,
        Err(error) => return Some(Err(error)),
    };
    let root = match try_walk_plane(&image.data, n, MAX_ERROR, fitter) {
        Some(root) => root,
        None => return None,
    };
    let ghost tree = choose|tree: QuadTree| #[trigger]
        fitter.may_grow_plane(image.data@, n as nat, MAX_ERROR, tree) && root.flattens(
            tree,
            0,
            0,
            n as int,
        );
    proof {
        lemma_plane_grown(*fitter, image.data@, n as nat, MAX_ERROR, tree);
        lemma_leaves_paintable(tree, (n * n) as nat, n as nat, 0, 0, n as int);
    }
    let estimate: u64 = root.tree_len / 8 + root.params_len + 2;
    let raw: u64 = (image.width * image.height) as u64;
    let pixels = render(image.width, image.height, root.leaves.as_slice());
    let compressed = Compressed { pixels, raw, estimate };
    assert(is_rendered(compressed, n as nat, tree));
    Some(Ok(compressed))
}

/// Fit an image and render the fit.
pub fn compress<
    S: Fn(NormalSums) -> Plane + Sync,
    E: Fn(i64, i64, u64) -> bool + Sync,
>(image: &Grey, fitter: &Fitter<S, E>) -> (result: Result<Compressed, PieError>)
    requires
        fitter.total(),
        fitter.can_compress(*image),
    ensures
        fitter.may_compress(*image, result),
{
    match try_compress(image, fitter) {
        Some(result) => result,
        None => unreached(),
    }
}

} // verus!
