//! Quadtrees of planes over a square image.

use crate::canvas::{inside, paintable, Leaf};
use crate::plane::Plane;
use vstd::prelude::*;

verus! {

/// The edge of a quadrant: half of `n`, rounded up.
pub open spec fn half(n: int) -> int {
    (n + 1) / 2
}

/// The `k`th quadrant of a square range.
pub open spec fn quadrant(x: int, y: int, n: int, k: int) -> (int, int, int) {
    let m = half(n);
    (
        if k < 2 {
            x
        } else {
            x + m
        },
        if k == 0 || k == 2 {
            y
        } else {
            y + m
        },
        m,
    )
}

/// Split the square range `(x, y, n)` into four quadrants.
pub fn split_range_into_quad(x: usize, y: usize, n: usize) -> (quads: [(usize, usize, usize); 4])
    requires
        n < usize::MAX,
        x + half(n as int) <= usize::MAX,
        y + half(n as int) <= usize::MAX,
    ensures
        forall|k: int|
            0 <= k < 4 ==> {
                let (qx, qy, qn) = #[trigger] quads@[k];
                (qx as int, qy as int, qn as int) == quadrant(x as int, y as int, n as int, k)
            },
        n <= 2 * quads@[0].2 <= n + 1,
        quads@[0].0 == x && quads@[0].1 == y,
        quads@[1].0 == x && quads@[1].1 == y + quads@[0].2 && quads@[1].2 == quads@[0].2,
        quads@[2].0 == x + quads@[0].2 && quads@[2].1 == y && quads@[2].2 == quads@[0].2,
        quads@[3].0 == x + quads@[0].2 && quads@[3].1 == y + quads@[0].2 && quads@[3].2
            == quads@[0].2,
{
    let m: usize = (n + 1) / 2;
    [(x, y, m), (x, y + m, m), (x + m, y, m), (x + m, y + m, m)]
}

/// A quadtree: a plane, or one tree for each quadrant.
pub enum QuadTree {
    Leaf(Plane),
    Split(Box<QuadTree>, Box<QuadTree>, Box<QuadTree>, Box<QuadTree>),
}

impl QuadTree {
    /// The leaves of the tree over the square range `(x, y, n)`, depth first.
    pub open spec fn leaves(self, x: int, y: int, n: int) -> Seq<Leaf>
        decreases self,
    {
        match self {
            QuadTree::Leaf(plane) => seq![
                Leaf { x: x as usize, y: y as usize, n: n as usize, plane },
            ],
            QuadTree::Split(q0, q1, q2, q3) => {
                let m = half(n);
                q0.leaves(x, y, m) + q1.leaves(x, y + m, m) + q2.leaves(x + m, y, m) + q3.leaves(
                    x + m,
                    y + m,
                    m,
                )
            },
        }
    }

    /// Only squares of more than one pixel are split.
    pub open spec fn divisible(self, n: int) -> bool
        decreases self,
    {
        match self {
            QuadTree::Leaf(_) => true,
            QuadTree::Split(q0, q1, q2, q3) => {
                let m = half(n);
                n > 1 && q0.divisible(m) && q1.divisible(m) && q2.divisible(m) && q3.divisible(m)
            },
        }
    }

    /// Every leaf lies inside an image of `len` pixels.
    pub open spec fn fits(self, len: nat, width: nat, x: int, y: int, n: int) -> bool
        decreases self,
    {
        match self {
            QuadTree::Leaf(_) => inside(len, width, x, y, n),
            QuadTree::Split(q0, q1, q2, q3) => {
                let m = half(n);
                &&& q0.fits(len, width, x, y, m)
                &&& q1.fits(len, width, x, y + m, m)
                &&& q2.fits(len, width, x + m, y, m)
                &&& q3.fits(len, width, x + m, y + m, m)
            },
        }
    }

    /// The number of leaves.
    pub open spec fn leaf_count(self) -> nat
        decreases self,
    {
        match self {
            QuadTree::Leaf(_) => 1,
            QuadTree::Split(q0, q1, q2, q3) => q0.leaf_count() + q1.leaf_count() + q2.leaf_count()
                + q3.leaf_count(),
        }
    }

    /// The number of inner nodes.
    pub open spec fn split_count(self) -> nat
        decreases self,
    {
        match self {
            QuadTree::Leaf(_) => 0,
            QuadTree::Split(q0, q1, q2, q3) => 1 + q0.split_count() + q1.split_count()
                + q2.split_count() + q3.split_count(),
        }
    }

    /// Entries of a plain listing of the tree's shape: one per leaf, and an
    /// opening and a closing one per inner node.
    pub open spec fn tree_len(self) -> nat {
        self.leaf_count() + 2 * self.split_count()
    }

    /// Entries of a plain listing of the planes: three per node.
    pub open spec fn params_len(self) -> nat {
        3 * (self.leaf_count() + self.split_count())
    }
}

/// Twice rounding up while halving leaves a square of more than one pixel
/// smaller, and within one pixel of its parent.
pub proof fn lemma_half(n: int)
    requires
        n > 1,
    ensures
        1 <= half(n) < n,
        n <= 2 * half(n) <= n + 1,
        3 * half(n) <= 2 * n,
{
}

pub proof fn lemma_leaves_len(tree: QuadTree, x: int, y: int, n: int)
    ensures
        tree.leaves(x, y, n).len() == tree.leaf_count(),
        tree.leaf_count() >= 1,
    decreases tree,
{
    match tree {
        QuadTree::Leaf(_) => {},
        QuadTree::Split(q0, q1, q2, q3) => {
            let m = half(n);
            lemma_leaves_len(*q0, x, y, m);
            lemma_leaves_len(*q1, x, y + m, m);
            lemma_leaves_len(*q2, x + m, y, m);
            lemma_leaves_len(*q3, x + m, y + m, m);
        },
    }
}

/// The first leaf is no larger than the square, and smaller once it is split.
pub proof fn lemma_first_leaf(tree: QuadTree, x: int, y: int, n: int)
    requires
        tree.divisible(n),
        0 <= n <= usize::MAX,
    ensures
        tree.leaves(x, y, n).len() > 0,
        tree.leaves(x, y, n)[0].n <= n,
        tree is Split ==> tree.leaves(x, y, n)[0].n < n,
    decreases tree,
{
    match tree {
        QuadTree::Leaf(_) => {},
        QuadTree::Split(q0, q1, q2, q3) => {
            lemma_first_leaf(*q0, x, y, half(n));
            lemma_leaves_len(tree, x, y, n);
        },
    }
}

/// `head` is a beginning of `s`.
pub open spec fn starts(s: Seq<Leaf>, head: Seq<Leaf>) -> bool {
    head.len() <= s.len() && s.take(head.len() as int) == head
}

/// A list of leaves that begins with `a` and goes on with `b` begins with `a`,
/// and goes on with `b`.
pub proof fn lemma_starts_concat(s: Seq<Leaf>, a: Seq<Leaf>, b: Seq<Leaf>)
    requires
        starts(s, a + b),
    ensures
        starts(s, a),
        starts(s.skip(a.len() as int), b),
{
    assert(s.take(a.len() as int) =~= (a + b).take(a.len() as int));
    assert((a + b).take(a.len() as int) =~= a);
    assert(s.skip(a.len() as int).take(b.len() as int) =~= (a + b).skip(a.len() as int));
    assert((a + b).skip(a.len() as int) =~= b);
}

/// A list of leaves begins with at most one tree: the depth-first list of
/// leaves determines the tree.
pub proof fn lemma_leaves_unique(
    t1: QuadTree,
    t2: QuadTree,
    x: int,
    y: int,
    n: int,
    s: Seq<Leaf>,
)
    requires
        t1.divisible(n),
        t2.divisible(n),
        0 <= n <= usize::MAX,
        starts(s, t1.leaves(x, y, n)),
        starts(s, t2.leaves(x, y, n)),
    ensures
        t1 == t2,
    decreases t1,
{
    lemma_first_leaf(t1, x, y, n);
    lemma_first_leaf(t2, x, y, n);
    assert(s[0] == s.take(t1.leaves(x, y, n).len() as int)[0]);
    assert(s[0] == s.take(t2.leaves(x, y, n).len() as int)[0]);
    match (t1, t2) {
        (QuadTree::Split(a0, a1, a2, a3), QuadTree::Split(b0, b1, b2, b3)) => {
            let m = half(n);
            let (u0, u1, u2, u3) = (
                a0.leaves(x, y, m),
                a1.leaves(x, y + m, m),
                a2.leaves(x + m, y, m),
                a3.leaves(x + m, y + m, m),
            );
            let (v0, v1, v2, v3) = (
                b0.leaves(x, y, m),
                b1.leaves(x, y + m, m),
                b2.leaves(x + m, y, m),
                b3.leaves(x + m, y + m, m),
            );
            lemma_starts_concat(s, u0 + u1 + u2, u3);
            lemma_starts_concat(s, u0 + u1, u2);
            lemma_starts_concat(s, u0, u1);
            lemma_starts_concat(s, v0 + v1 + v2, v3);
            lemma_starts_concat(s, v0 + v1, v2);
            lemma_starts_concat(s, v0, v1);
            lemma_leaves_unique(*a0, *b0, x, y, m, s);
            lemma_leaves_unique(*a1, *b1, x, y + m, m, s.skip(u0.len() as int));
            lemma_leaves_unique(*a2, *b2, x + m, y, m, s.skip((u0 + u1).len() as int));
            lemma_leaves_unique(*a3, *b3, x + m, y + m, m, s.skip((u0 + u1 + u2).len() as int));
        },
        _ => {},
    }
}

/// A tree over a square of `n` pixels an edge has at most `4 * n * n` leaves,
/// or a single one.
pub proof fn lemma_leaf_bound(tree: QuadTree, n: int)
    requires
        tree.divisible(n),
        n >= 0,
    ensures
        n <= 1 ==> tree.leaf_count() == 1,
        n >= 2 ==> tree.leaf_count() <= 4 * ((n - 1) * (n - 1)),
        tree.split_count() * 3 + 1 == tree.leaf_count(),
    decreases tree,
{
    assert(n >= 2 ==> 1 <= (n - 1) * (n - 1)) by (nonlinear_arith);
    match tree {
        QuadTree::Leaf(_) => {},
        QuadTree::Split(q0, q1, q2, q3) => {
            let m = half(n);
            lemma_leaf_bound(*q0, m);
            lemma_leaf_bound(*q1, m);
            lemma_leaf_bound(*q2, m);
            lemma_leaf_bound(*q3, m);
            if m >= 2 {
                assert(4 * ((m - 1) * (m - 1)) <= (n - 1) * (n - 1)) by (nonlinear_arith)
                    requires
                        0 <= 2 * (m - 1) <= n - 1,
                ;
            }
        },
    }
}

/// Every split makes four of one, so the lengths of the plain listings follow
/// from the number of leaves.
pub proof fn law_listing_lengths(tree: QuadTree)
    ensures
        tree.leaf_count() == 3 * tree.split_count() + 1,
        tree.leaf_count() % 3 == 1,
        tree.params_len() == 4 * tree.leaf_count() - 1,
        3 * tree.tree_len() == 5 * tree.leaf_count() - 2,
    decreases tree,
{
    if let QuadTree::Split(q0, q1, q2, q3) = tree {
        law_listing_lengths(*q0);
        law_listing_lengths(*q1);
        law_listing_lengths(*q2);
        law_listing_lengths(*q3);
    }
}

/// Every leaf of a fitting tree over a square no wider than the image can be
/// painted.
pub proof fn lemma_leaves_paintable(
    tree: QuadTree,
    len: nat,
    width: nat,
    x: int,
    y: int,
    n: int,
)
    requires
        tree.divisible(n),
        tree.fits(len, width, x, y, n),
        0 <= x,
        0 <= y,
        0 <= n <= width,
        n <= i64::MAX,
        len <= usize::MAX,
        width <= usize::MAX,
        x + 2 * n <= usize::MAX,
        y + 2 * n <= usize::MAX,
    ensures
        forall|i: int|
            0 <= i < tree.leaves(x, y, n).len() ==> paintable(
                len,
                width,
                #[trigger] tree.leaves(x, y, n)[i],
            ),
    decreases tree,
{
    match tree {
        QuadTree::Leaf(_) => {},
        QuadTree::Split(q0, q1, q2, q3) => {
            let m = half(n);
            lemma_half(n);
            lemma_leaves_paintable(*q0, len, width, x, y, m);
            lemma_leaves_paintable(*q1, len, width, x, y + m, m);
            lemma_leaves_paintable(*q2, len, width, x + m, y, m);
            lemma_leaves_paintable(*q3, len, width, x + m, y + m, m);
            let (v0, v1, v2, v3) = (
                q0.leaves(x, y, m),
                q1.leaves(x, y + m, m),
                q2.leaves(x + m, y, m),
                q3.leaves(x + m, y + m, m),
            );
            assert forall|i: int| 0 <= i < tree.leaves(x, y, n).len() implies paintable(
                len,
                width,
                #[trigger] tree.leaves(x, y, n)[i],
            ) by {
                let leaf = tree.leaves(x, y, n)[i];
                if i < v0.len() {
                    assert(leaf == v0[i]);
                } else if i < v0.len() + v1.len() {
                    assert(leaf == v1[i - v0.len()]);
                } else if i < v0.len() + v1.len() + v2.len() {
                    assert(leaf == v2[i - v0.len() - v1.len()]);
                } else {
                    assert(leaf == v3[i - v0.len() - v1.len() - v2.len()]);
                }
            }
        },
    }
}

/// The quadrants of a square have half its edge, rounded up. They lie at its
/// corner, to the right of that, below it, and across from it, in this order.
pub proof fn law_quadrants_of_a_square(x: int, y: int, n: int)
    ensures
        n <= 2 * half(n) <= n + 1,
        quadrant(x, y, n, 0) == (x, y, half(n)),
        quadrant(x, y, n, 1) == (x, y + half(n), half(n)),
        quadrant(x, y, n, 2) == (x + half(n), y, half(n)),
        quadrant(x, y, n, 3) == (x + half(n), y + half(n), half(n)),
{
}

/// The quadrants of a square with an even edge are its four quarters: each of
/// its pixels belongs to exactly one of them, and no other pixel to any.
pub proof fn law_even_squares_are_quartered(x: int, y: int, m: int, i: int, j: int)
    requires
        m >= 0,
    ensures
        ({
            let within = |k: int| {
                let (qx, qy, qn) = quadrant(x, y, 2 * m, k);
                qx <= i < qx + qn && qy <= j < qy + qn
            };
            let count = (if within(0) { 1int } else { 0 }) + (if within(1) { 1int } else { 0 }) + (
            if within(2) { 1int } else { 0 }) + (if within(3) { 1int } else { 0 });
            count == if x <= i < x + 2 * m && y <= j < y + 2 * m { 1int } else { 0 }
        }),
{
}

/// A tree is listed depth first: a leaf is itself over the whole square, and a
/// split lists its quadrants one after the other, at the corner first, then to
/// the right, below and across.
pub proof fn law_leaves_are_listed_depth_first(tree: QuadTree, x: int, y: int, n: int, m: int)
    requires
        0 <= x <= usize::MAX,
        0 <= y <= usize::MAX,
        0 <= n <= usize::MAX,
        n <= 2 * m <= n + 1,
    ensures
        match tree {
            QuadTree::Leaf(plane) => {
                let leaves = tree.leaves(x, y, n);
                &&& leaves.len() == 1
                &&& leaves[0].x == x
                &&& leaves[0].y == y
                &&& leaves[0].n == n
                &&& leaves[0].plane == plane
            },
            QuadTree::Split(q0, q1, q2, q3) => tree.leaves(x, y, n) == q0.leaves(x, y, m)
                + q1.leaves(x, y + m, m) + q2.leaves(x + m, y, m) + q3.leaves(x + m, y + m, m),
        },
{
}

} // verus!
