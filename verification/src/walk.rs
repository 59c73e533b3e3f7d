//! Growing the quadtree of an image.
//!
//! A plane is fitted to a square sub-image. If its mean-squared error exceeds
//! a bound the sub-image is split into four quadrants and the process repeats
//! on each.

use crate::canvas::{inside, is_inside, lemma_pixel_inside, Leaf};
use crate::fit::{find_plane, may_fit, squared_error, Fitter, NormalSums, MAX_EDGE};
use crate::parallel::par_map;
use crate::plane::Plane;
use crate::quadtree::{
    half, law_listing_lengths, lemma_half, lemma_leaf_bound, lemma_leaves_len, quadrant,
    split_range_into_quad, QuadTree,
};
use vstd::pervasive::unreached;
use vstd::prelude::*;

verus! {

/// Below this edge length the quadtree is walked serially. Larger sub-images
/// are split across threads; the recursion is only 4-way, so this keeps the
/// number of tasks modest.
const PARALLEL_MIN_EDGE: usize = 128;

/// The quadtree produced for one sub-image, flattened into its leaves plus the
/// lengths of a plain listing, which estimate the compressed size.
pub struct Subtree {
    pub leaves: Vec<Leaf>,
    /// Entries of a plain listing of the tree's shape.
    pub tree_len: u64,
    /// Entries of a plain listing of the planes.
    pub params_len: u64,
}

impl Subtree {
    /// This is the flattened `tree` over the square range `(x, y, n)`.
    pub open spec fn flattens(&self, tree: QuadTree, x: int, y: int, n: int) -> bool {
        &&& self.leaves@ == tree.leaves(x, y, n)
        &&& self.tree_len == tree.tree_len()
        &&& self.params_len == tree.params_len()
    }
}

impl Subtree {
    /// A leaf counts one and three entries, an inner node two and three.
    pub open spec fn is_listed(&self) -> bool {
        let leaves = self.leaves@.len();
        &&& leaves % 3 == 1
        &&& self.params_len == 4 * leaves - 1
        &&& 3 * self.tree_len == 5 * leaves - 2
    }
}

/// The listing lengths of a flattened tree follow from its number of leaves.
pub proof fn law_flattened_is_listed(subtree: Subtree, tree: QuadTree, x: int, y: int, n: int)
    requires
        subtree.flattens(tree, x, y, n),
    ensures
        subtree.is_listed(),
{
    law_listing_lengths(tree);
    lemma_leaves_len(tree, x, y, n);
}

impl<S: Fn(NormalSums) -> Plane, E: Fn(i64, i64, u64) -> bool> Fitter<S, E> {
    /// The fitter accepts whatever it is asked.
    pub open spec fn total(&self) -> bool {
        &&& forall|sums: NormalSums| call_requires(self.solve, (sums,))
        &&& forall|error: i64, pixels: i64, bound: u64|
            call_requires(self.exceeds, (error, pixels, bound))
    }

    /// The fitter may give `plane` for a sub-image and then find, or not find,
    /// that its error exceeds the bound.
    pub open spec fn may_judge(
        &self,
        image: Seq<u8>,
        width: nat,
        x: int,
        y: int,
        n: int,
        bound: u64,
        plane: Plane,
        verdict: bool,
    ) -> bool {
        &&& may_fit(self.solve, image, width, x, y, n as nat, plane)
        &&& call_ensures(
            self.exceeds,
            (
                squared_error(image, width, x, y, n as nat, plane) as i64,
                (n * n) as i64,
                bound,
            ),
            verdict,
        )
    }

    /// `tree` is one that fitting and splitting may grow over a sub-image.
    pub open spec fn may_grow(
        &self,
        image: Seq<u8>,
        width: nat,
        x: int,
        y: int,
        n: int,
        bound: u64,
        tree: QuadTree,
    ) -> bool
        decreases tree,
    {
        &&& n <= MAX_EDGE
        &&& inside(image.len(), width, x, y, n)
        &&& match tree {
            QuadTree::Leaf(plane) => self.may_judge(image, width, x, y, n, bound, plane, false),
            QuadTree::Split(q0, q1, q2, q3) => {
                let m = half(n);
                &&& n > 1
                &&& exists|plane: Plane| #[trigger]
                    self.may_judge(image, width, x, y, n, bound, plane, true)
                &&& self.may_grow(image, width, x, y, m, bound, *q0)
                &&& self.may_grow(image, width, x, y + m, m, bound, *q1)
                &&& self.may_grow(image, width, x + m, y, m, bound, *q2)
                &&& self.may_grow(image, width, x + m, y + m, m, bound, *q3)
            },
        }
    }

    /// Whatever the fitter gives, growing a tree over a sub-image stays inside
    /// the image, and splits no single pixel.
    ///
    /// An edge that is a power of two is enough, as long as no error exceeds
    /// the bound at a single pixel. The quadrants of an odd edge overlap the
    /// pixels beyond it, which are not there along the bottom of an image.
    pub open spec fn stays_inside(
        &self,
        image: Seq<u8>,
        width: nat,
        x: int,
        y: int,
        n: int,
        bound: u64,
    ) -> bool
        decreases n,
    {
        &&& n <= MAX_EDGE
        &&& inside(image.len(), width, x, y, n)
        &&& forall|plane: Plane| #[trigger]
            self.may_judge(image, width, x, y, n, bound, plane, true) ==> {
                let m = half(n);
                &&& n > 1
                &&& self.stays_inside(image, width, x, y, m, bound)
                &&& self.stays_inside(image, width, x, y + m, m, bound)
                &&& self.stays_inside(image, width, x + m, y, m, bound)
                &&& self.stays_inside(image, width, x + m, y + m, m, bound)
            }
    }

    /// What walking a sub-image may come to: a flattened tree, or nothing where
    /// the image was left.
    pub open spec fn may_come_to(
        &self,
        image: Seq<u8>,
        width: nat,
        x: int,
        y: int,
        n: int,
        bound: u64,
        out: Option<Subtree>,
    ) -> bool {
        match out {
            Some(subtree) => exists|tree: QuadTree| #[trigger]
                self.may_grow(image, width, x, y, n, bound, tree) && subtree.flattens(
                    tree,
                    x,
                    y,
                    n,
                ),
            None => !self.stays_inside(image, width, x, y, n, bound),
        }
    }
}

/// A tree that was grown splits no single pixel and lies inside the image.
pub proof fn lemma_grown<S: Fn(NormalSums) -> Plane, E: Fn(i64, i64, u64) -> bool>(
    fitter: Fitter<S, E>,
    image: Seq<u8>,
    width: nat,
    x: int,
    y: int,
    n: int,
    bound: u64,
    tree: QuadTree,
)
    requires
        fitter.may_grow(image, width, x, y, n, bound, tree),
    ensures
        tree.divisible(n),
        tree.fits(image.len(), width, x, y, n),
    decreases tree,
{
    match tree {
        QuadTree::Leaf(_) => {},
        QuadTree::Split(q0, q1, q2, q3) => {
            let m = half(n);
            lemma_grown(fitter, image, width, x, y, m, bound, *q0);
            lemma_grown(fitter, image, width, x, y + m, m, bound, *q1);
            lemma_grown(fitter, image, width, x + m, y, m, bound, *q2);
            lemma_grown(fitter, image, width, x + m, y + m, m, bound, *q3);
        },
    }
}

/// Join the flattened quadrants of a sub-image; `None` if one is missing.
fn join(children: &Vec<Option<Subtree>>) -> (joined: Option<Subtree>)
    requires
        children@.len() == 4,
        forall|k: int|
            0 <= k < 4 ==> (#[trigger] children@[k] matches Some(child) ==> child.tree_len
                <= 0x1000_0000_0000 && child.params_len <= 0x1000_0000_0000),
    ensures
        match joined {
            None => exists|k: int| 0 <= k < 4 && #[trigger] children@[k] is None,
            Some(subtree) => {
                &&& forall|k: int| 0 <= k < 4 ==> #[trigger] children@[k] is Some
                &&& subtree.leaves@ == children@[0]->0.leaves@ + children@[1]->0.leaves@
                    + children@[2]->0.leaves@ + children@[3]->0.leaves@
                &&& subtree.tree_len == 2 + children@[0]->0.tree_len + children@[1]->0.tree_len
                    + children@[2]->0.tree_len + children@[3]->0.tree_len
                &&& subtree.params_len == 3 + children@[0]->0.params_len
                    + children@[1]->0.params_len + children@[2]->0.params_len
                    + children@[3]->0.params_len
            },
        },
{
    let mut leaves: Vec<Leaf> = Vec::new();
    // A marker before the children and one after them.
    let mut tree_len: u64 = 2;
    let mut params_len: u64 = 3;
    match (&children[0], &children[1], &children[2], &children[3]) {
        (Some(c0), Some(c1), Some(c2), Some(c3)) => {
            leaves.extend_from_slice(c0.leaves.as_slice());
            leaves.extend_from_slice(c1.leaves.as_slice());
            leaves.extend_from_slice(c2.leaves.as_slice());
            leaves.extend_from_slice(c3.leaves.as_slice());
            assert(leaves@ =~= c0.leaves@ + c1.leaves@ + c2.leaves@ + c3.leaves@);
            tree_len = tree_len + c0.tree_len + c1.tree_len + c2.tree_len + c3.tree_len;
            params_len = params_len + c0.params_len + c1.params_len + c2.params_len + c3.params_len;
            Some(Subtree { leaves, tree_len, params_len })
        },
        _ => None,
    }
}

/// The listing of a tree over a square of `n` pixels an edge is short.
pub proof fn lemma_listing_bound(tree: QuadTree, n: int)
    requires
        tree.divisible(n),
        0 <= n <= MAX_EDGE,
    ensures
        tree.leaf_count() <= 0x400_0000_0000,
        tree.tree_len() <= 0x1000_0000_0000,
        tree.params_len() <= 0x1000_0000_0000,
{
    lemma_leaf_bound(tree, n);
    assert(n >= 2 ==> (n - 1) * (n - 1) <= 46341 * 46341) by (nonlinear_arith)
        requires
            n <= 46341,
    ;
}

/// The quadtree of one sub-image, by fitting and splitting.
///
/// `None` where that leaves the image, or would split a single pixel.
/// `max_error` is the error bound by its bits.
pub fn try_walk<
    S: Fn(NormalSums) -> Plane + Sync,
    E: Fn(i64, i64, u64) -> bool + Sync,
>(
    image: &[u8],
    width: usize,
    x: usize,
    y: usize,
    n: usize,
    max_error: u64,
    fitter: &Fitter<S, E>,
) -> (out: Option<Subtree>)
    requires
        fitter.total(),
    ensures
        fitter.may_come_to(image@, width as nat, x as int, y as int, n as int, max_error, out),
        out matches Some(subtree) ==> subtree.is_listed(),
    decreases n,
{
    let ghost (w, gx, gy, gn) = (width as nat, x as int, y as int, n as int);
    if n > MAX_EDGE || !is_inside(image.len(), width, x, y, n) {
        return None;
    }
    let fit = find_plane(image, width, x, y, n, &fitter.solve);
    let exceeds = (fitter.exceeds)(fit.error, fit.pixels, max_error);
    assert(fitter.may_judge(image@, w, gx, gy, gn, max_error, fit.plane, exceeds));
    if !exceeds {
        let leaves = vec![Leaf { x, y, n, plane: fit.plane }];
        let subtree = Subtree { leaves, tree_len: 1, params_len: 3 };
        proof {
            let tree = QuadTree::Leaf(fit.plane);
            assert(subtree.leaves@ =~= tree.leaves(gx, gy, gn));
            assert(fitter.may_grow(image@, w, gx, gy, gn, max_error, tree));
            assert(subtree.flattens(tree, gx, gy, gn));
        }
        return Some(subtree);
    }
    if n <= 1 {
        return None;
    }
    proof {
        lemma_half(gn);
        lemma_pixel_inside(image@.len(), w, gx, gy, gn, gn - 1, gn - 1);
        assert(image.len() <= usize::MAX);
    }
    let quads = split_range_into_quad(x, y, n);
    let children: Vec<Option<Subtree>>;
    if n >= PARALLEL_MIN_EDGE {
        let visit = |q: &(usize, usize, usize)| -> (child: Option<Subtree>)
            requires
                n > q.2,
            ensures
                fitter.may_come_to(
                    image@,
                    width as nat,
                    q.0 as int,
                    q.1 as int,
                    q.2 as int,
                    max_error,
                    child,
                ),
        {
            try_walk(image, width, q.0, q.1, q.2, max_error, fitter)
        };
        children = par_map(quads.as_slice(), visit);
    } else {
        let mut list: Vec<Option<Subtree>> = Vec::new();
        for k in 0..4usize
            invariant
                fitter.total(),
                list@.len() == k,
                forall|i: int| 0 <= i < 4 ==> n > (#[trigger] quads@[i]).2,
                forall|i: int|
                    0 <= i < k ==> fitter.may_come_to(
                        image@,
                        width as nat,
                        quads@[i].0 as int,
                        quads@[i].1 as int,
                        quads@[i].2 as int,
                        max_error,
                        #[trigger] list@[i],
                    ),
        {
            let (qx, qy, qn) = quads[k];
            list.push(try_walk(image, width, qx, qy, qn, max_error, fitter));
        }
        children = list;
    }
    proof {
        assert forall|k: int| 0 <= k < 4 implies ({
            let (qx, qy, qn) = quadrant(gx, gy, gn, k);
            fitter.may_come_to(image@, w, qx, qy, qn, max_error, #[trigger] children@[k])
        }) by {
            let q = quads@[k];
        }
        assert forall|k: int| 0 <= k < 4 implies (#[trigger] children@[k] matches Some(child)
            ==> child.tree_len <= 0x1000_0000_0000 && child.params_len <= 0x1000_0000_0000) by {
            let (qx, qy, qn) = quadrant(gx, gy, gn, k);
            lemma_child_bound(*fitter, image@, w, qx, qy, qn, max_error, children@[k]);
        }
    }
    let joined = join(&children);
    proof {
        lemma_joined(
            *fitter,
            image@,
            w,
            gx,
            gy,
            gn,
            max_error,
            fit.plane,
            children@,
            joined,
        );
        if joined is Some {
            let subtree = joined->0;
            let tree = choose|tree: QuadTree| #[trigger]
                fitter.may_grow(image@, w, gx, gy, gn, max_error, tree) && subtree.flattens(
                    tree,
                    gx,
                    gy,
                    gn,
                );
            law_flattened_is_listed(subtree, tree, gx, gy, gn);
        }
    }
    joined
}

/// A flattened quadrant has a short listing.
proof fn lemma_child_bound<S: Fn(NormalSums) -> Plane, E: Fn(i64, i64, u64) -> bool>(
    fitter: Fitter<S, E>,
    image: Seq<u8>,
    width: nat,
    x: int,
    y: int,
    n: int,
    bound: u64,
    child: Option<Subtree>,
)
    requires
        fitter.may_come_to(image, width, x, y, n, bound, child),
        0 <= n <= MAX_EDGE,
    ensures
        child matches Some(subtree) ==> subtree.tree_len <= 0x1000_0000_0000 && subtree.params_len
            <= 0x1000_0000_0000,
{
    if let Some(subtree) = child {
        let tree = choose|tree: QuadTree| #[trigger]
            fitter.may_grow(image, width, x, y, n, bound, tree) && subtree.flattens(tree, x, y, n);
        lemma_grown(fitter, image, width, x, y, n, bound, tree);
        lemma_listing_bound(tree, n);
    }
}

/// Joining what the quadrants came to is what their square may come to.
proof fn lemma_joined<S: Fn(NormalSums) -> Plane, E: Fn(i64, i64, u64) -> bool>(
    fitter: Fitter<S, E>,
    image: Seq<u8>,
    width: nat,
    x: int,
    y: int,
    n: int,
    bound: u64,
    plane: Plane,
    children: Seq<Option<Subtree>>,
    joined: Option<Subtree>,
)
    requires
        1 < n <= MAX_EDGE,
        inside(image.len(), width, x, y, n),
        fitter.may_judge(image, width, x, y, n, bound, plane, true),
        children.len() == 4,
        forall|k: int|
            0 <= k < 4 ==> ({
                let (qx, qy, qn) = quadrant(x, y, n, k);
                fitter.may_come_to(image, width, qx, qy, qn, bound, #[trigger] children[k])
            }),
        match joined {
            None => exists|k: int| 0 <= k < 4 && #[trigger] children[k] is None,
            Some(subtree) => {
                &&& forall|k: int| 0 <= k < 4 ==> #[trigger] children[k] is Some
                &&& subtree.leaves@ == children[0]->0.leaves@ + children[1]->0.leaves@
                    + children[2]->0.leaves@ + children[3]->0.leaves@
                &&& subtree.tree_len == 2 + children[0]->0.tree_len + children[1]->0.tree_len
                    + children[2]->0.tree_len + children[3]->0.tree_len
                &&& subtree.params_len == 3 + children[0]->0.params_len + children[1]->0.params_len
                    + children[2]->0.params_len + children[3]->0.params_len
            },
        },
    ensures
        fitter.may_come_to(image, width, x, y, n, bound, joined),
{
    let m = half(n);
    assert(quadrant(x, y, n, 0) == (x, y, m));
    assert(quadrant(x, y, n, 1) == (x, y + m, m));
    assert(quadrant(x, y, n, 2) == (x + m, y, m));
    assert(quadrant(x, y, n, 3) == (x + m, y + m, m));
    match joined {
        None => {
            let k = choose|k: int| 0 <= k < 4 && #[trigger] children[k] is None;
            let (qx, qy, qn) = quadrant(x, y, n, k);
            assert(!fitter.stays_inside(image, width, qx, qy, qn, bound));
        },
        Some(subtree) => {
            let (c0, c1, c2, c3) = (
                children[0]->0,
                children[1]->0,
                children[2]->0,
                children[3]->0,
            );
            assert(children[0] is Some && children[1] is Some);
            assert(children[2] is Some && children[3] is Some);
            let q0 = choose|tree: QuadTree| #[trigger]
                fitter.may_grow(image, width, x, y, m, bound, tree) && c0.flattens(tree, x, y, m);
            let q1 = choose|tree: QuadTree| #[trigger]
                fitter.may_grow(image, width, x, y + m, m, bound, tree) && c1.flattens(
                    tree,
                    x,
                    y + m,
                    m,
                );
            let q2 = choose|tree: QuadTree| #[trigger]
                fitter.may_grow(image, width, x + m, y, m, bound, tree) && c2.flattens(
                    tree,
                    x + m,
                    y,
                    m,
                );
            let q3 = choose|tree: QuadTree| #[trigger]
                fitter.may_grow(image, width, x + m, y + m, m, bound, tree) && c3.flattens(
                    tree,
                    x + m,
                    y + m,
                    m,
                );
            let tree = QuadTree::Split(Box::new(q0), Box::new(q1), Box::new(q2), Box::new(q3));
            assert(fitter.may_grow(image, width, x, y, n, bound, tree));
            assert(subtree.flattens(tree, x, y, n));
        },
    }
}

/// The quadtree of one sub-image, by fitting and splitting.
///
/// `max_error` is the error bound by its bits.
pub fn walk<
    S: Fn(NormalSums) -> Plane + Sync,
    E: Fn(i64, i64, u64) -> bool + Sync,
>(
    image: &[u8],
    width: usize,
    x: usize,
    y: usize,
    n: usize,
    max_error: u64,
    fitter: &Fitter<S, E>,
) -> (subtree: Subtree)
    requires
        fitter.total(),
        fitter.stays_inside(image@, width as nat, x as int, y as int, n as int, max_error),
    ensures
        exists|tree: QuadTree| #[trigger]
            fitter.may_grow(
                image@,
                width as nat,
                x as int,
                y as int,
                n as int,
                max_error,
                tree,
            ) && subtree.flattens(tree, x as int, y as int, n as int),
        subtree.is_listed(),
{
    match try_walk(image, width, x, y, n, max_error, fitter) {
        Some(subtree) => {
            proof {
                let tree = choose|tree: QuadTree| #[trigger]
                    fitter.may_grow(
                        image@,
                        width as nat,
                        x as int,
                        y as int,
                        n as int,
                        max_error,
                        tree,
                    ) && subtree.flattens(tree, x as int, y as int, n as int);
                law_flattened_is_listed(subtree, tree, x as int, y as int, n as int);
            }
            subtree
        },
        None => unreached(),
    }
}

impl<S: Fn(NormalSums) -> Plane, E: Fn(i64, i64, u64) -> bool> Fitter<S, E> {
    /// Whatever plane the fitter gives for a sub-image, its mean error is not
    /// found to exceed the bound.
    pub open spec fn is_content(
        &self,
        image: Seq<u8>,
        width: nat,
        x: int,
        y: int,
        n: int,
        bound: u64,
    ) -> bool {
        forall|plane: Plane| #[trigger]
            may_fit(self.solve, image, width, x, y, n as nat, plane) ==> !call_ensures(
                self.exceeds,
                (
                    squared_error(image, width, x, y, n as nat, plane) as i64,
                    (n * n) as i64,
                    bound,
                ),
                true,
            )
    }

    /// Whatever plane the fitter gives for a sub-image, its mean error is found
    /// to exceed the bound.
    pub open spec fn is_discontent(
        &self,
        image: Seq<u8>,
        width: nat,
        x: int,
        y: int,
        n: int,
        bound: u64,
    ) -> bool {
        forall|plane: Plane| #[trigger]
            may_fit(self.solve, image, width, x, y, n as nat, plane) ==> !call_ensures(
                self.exceeds,
                (
                    squared_error(image, width, x, y, n as nat, plane) as i64,
                    (n * n) as i64,
                    bound,
                ),
                false,
            )
    }
}

/// A sub-image whose fitted plane has a mean error that does not exceed the
/// bound grows into a single leaf: the whole square, with that plane.
pub proof fn law_within_bound_is_one_leaf<
    S: Fn(NormalSums) -> Plane,
    E: Fn(i64, i64, u64) -> bool,
>(
    fitter: Fitter<S, E>,
    image: Seq<u8>,
    width: nat,
    x: int,
    y: int,
    n: int,
    bound: u64,
    subtree: Subtree,
)
    requires
        0 <= x <= usize::MAX,
        0 <= y <= usize::MAX,
        0 <= n <= usize::MAX,
        fitter.is_content(image, width, x, y, n, bound),
        fitter.may_come_to(image, width, x, y, n, bound, Some(subtree)),
    ensures
        subtree.leaves@.len() == 1,
        subtree.leaves@[0].x == x,
        subtree.leaves@[0].y == y,
        subtree.leaves@[0].n == n,
        may_fit(fitter.solve, image, width, x, y, n as nat, subtree.leaves@[0].plane),
        subtree.tree_len == 1,
        subtree.params_len == 3,
{
    let tree = choose|tree: QuadTree| #[trigger]
        fitter.may_grow(image, width, x, y, n, bound, tree) && subtree.flattens(tree, x, y, n);
    if let QuadTree::Split(..) = tree {
        let plane = choose|plane: Plane| #[trigger]
            fitter.may_judge(image, width, x, y, n, bound, plane, true);
        assert(may_fit(fitter.solve, image, width, x, y, n as nat, plane));
    }
}

/// Such a sub-image can be walked wherever it lies inside the image.
pub proof fn law_within_bound_is_walked<S: Fn(NormalSums) -> Plane, E: Fn(i64, i64, u64) -> bool>(
    fitter: Fitter<S, E>,
    image: Seq<u8>,
    width: nat,
    x: int,
    y: int,
    n: int,
    bound: u64,
    out: Option<Subtree>,
)
    requires
        n <= MAX_EDGE,
        inside(image.len(), width, x, y, n),
        fitter.is_content(image, width, x, y, n, bound),
        fitter.may_come_to(image, width, x, y, n, bound, out),
    ensures
        out is Some,
{
    assert forall|plane: Plane| !(#[trigger] fitter.may_judge(
        image,
        width,
        x,
        y,
        n,
        bound,
        plane,
        true,
    )) by {
        assert(may_fit(fitter.solve, image, width, x, y, n as nat, plane) ==> !call_ensures(
            fitter.exceeds,
            (
                squared_error(image, width, x, y, n as nat, plane) as i64,
                (n * n) as i64,
                bound,
            ),
            true,
        ));
    }
    assert(fitter.stays_inside(image, width, x, y, n, bound));
}

/// A sub-image whose fitted plane has a mean error that exceeds the bound is
/// split: it comes to the leaves of its four quadrants, each walked under the
/// same bound, and their listings with two and three more entries.
pub proof fn law_beyond_bound_is_split<S: Fn(NormalSums) -> Plane, E: Fn(i64, i64, u64) -> bool>(
    fitter: Fitter<S, E>,
    image: Seq<u8>,
    width: nat,
    x: int,
    y: int,
    n: int,
    m: int,
    bound: u64,
    subtree: Subtree,
) -> (quads: (QuadTree, QuadTree, QuadTree, QuadTree))
    requires
        n <= 2 * m <= n + 1,
        fitter.is_discontent(image, width, x, y, n, bound),
        fitter.may_come_to(image, width, x, y, n, bound, Some(subtree)),
    ensures
        n > 1,
        fitter.may_grow(image, width, x, y, m, bound, quads.0),
        fitter.may_grow(image, width, x, y + m, m, bound, quads.1),
        fitter.may_grow(image, width, x + m, y, m, bound, quads.2),
        fitter.may_grow(image, width, x + m, y + m, m, bound, quads.3),
        subtree.leaves@ == quads.0.leaves(x, y, m) + quads.1.leaves(x, y + m, m) + quads.2.leaves(
            x + m,
            y,
            m,
        ) + quads.3.leaves(x + m, y + m, m),
        subtree.leaves@.len() >= 4,
        subtree.tree_len == 2 + quads.0.tree_len() + quads.1.tree_len() + quads.2.tree_len()
            + quads.3.tree_len(),
        subtree.params_len == 3 + quads.0.params_len() + quads.1.params_len()
            + quads.2.params_len() + quads.3.params_len(),
{
    let tree = choose|tree: QuadTree| #[trigger]
        fitter.may_grow(image, width, x, y, n, bound, tree) && subtree.flattens(tree, x, y, n);
    match tree {
        QuadTree::Leaf(plane) => {
            assert(may_fit(fitter.solve, image, width, x, y, n as nat, plane));
            (tree, tree, tree, tree)
        },
        QuadTree::Split(q0, q1, q2, q3) => {
            lemma_leaves_len(*q0, x, y, m);
            lemma_leaves_len(*q1, x, y + m, m);
            lemma_leaves_len(*q2, x + m, y, m);
            lemma_leaves_len(*q3, x + m, y + m, m);
            (*q0, *q1, *q2, *q3)
        },
    }
}

/// A sub-image can be walked where it lies inside the image and its quadrants
/// can be walked, whatever the fitter finds.
pub proof fn law_walking_goes_by_quadrants<S: Fn(NormalSums) -> Plane, E: Fn(i64, i64, u64) -> bool>(
    fitter: Fitter<S, E>,
    image: Seq<u8>,
    width: nat,
    x: int,
    y: int,
    n: int,
    m: int,
    bound: u64,
)
    requires
        1 < n <= MAX_EDGE,
        n <= 2 * m <= n + 1,
        inside(image.len(), width, x, y, n),
        fitter.stays_inside(image, width, x, y, m, bound),
        fitter.stays_inside(image, width, x, y + m, m, bound),
        fitter.stays_inside(image, width, x + m, y, m, bound),
        fitter.stays_inside(image, width, x + m, y + m, m, bound),
    ensures
        fitter.stays_inside(image, width, x, y, n, bound),
{
}

} // verus!
