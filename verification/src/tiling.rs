//! The leaves of a quadtree tile its square.

use crate::canvas::{blank, lemma_paint_all_len, paint_all, shade, touches, Leaf};
use crate::codec::rendered;
use crate::quadtree::{half, QuadTree};
use vstd::arithmetic::div_mod::lemma_fundamental_div_mod_converse;
use vstd::arithmetic::power2::{lemma2_to64, lemma_pow2_pos, lemma_pow2_unfold, pow2};
use vstd::prelude::*;

verus! {

/// The pixel at row `i` and column `j` belongs to the leaf.
pub open spec fn covers(leaf: Leaf, i: int, j: int) -> bool {
    leaf.x <= i < leaf.x + leaf.n && leaf.y <= j < leaf.y + leaf.n
}

/// How many of the leaves the pixel at row `i` and column `j` belongs to.
pub open spec fn coverings(leaves: Seq<Leaf>, i: int, j: int) -> nat
    decreases leaves.len(),
{
    if leaves.len() == 0 {
        0
    } else {
        coverings(leaves.drop_last(), i, j) + if covers(leaves.last(), i, j) {
            1nat
        } else {
            0
        }
    }
}

proof fn lemma_coverings_concat(a: Seq<Leaf>, b: Seq<Leaf>, i: int, j: int)
    ensures
        coverings(a + b, i, j) == coverings(a, i, j) + coverings(b, i, j),
    decreases b.len(),
{
    if b.len() == 0 {
        assert(a + b =~= a);
    } else {
        assert((a + b).drop_last() =~= a + b.drop_last());
        lemma_coverings_concat(a, b.drop_last(), i, j);
    }
}

/// Where the edge is a power of two, the leaves of a tree tile its square: each
/// pixel of the square belongs to exactly one leaf, and no other pixel to any.
pub proof fn law_leaves_tile(tree: QuadTree, x: int, y: int, k: nat, i: int, j: int)
    requires
        tree.divisible(pow2(k) as int),
        0 <= x,
        0 <= y,
        x + pow2(k) <= usize::MAX,
        y + pow2(k) <= usize::MAX,
    ensures
        coverings(tree.leaves(x, y, pow2(k) as int), i, j) == if x <= i < x + pow2(k) && y <= j < y
            + pow2(k) {
            1nat
        } else {
            0nat
        },
    decreases tree,
{
    let n = pow2(k) as int;
    lemma_pow2_pos(k);
    match tree {
        QuadTree::Leaf(_) => {
            let leaves = tree.leaves(x, y, n);
            assert(leaves.drop_last() =~= seq![]);
            assert(coverings(leaves.drop_last(), i, j) == 0);
        },
        QuadTree::Split(q0, q1, q2, q3) => {
            lemma2_to64();
            lemma_pow2_unfold(k);
            let less = (k - 1) as nat;
            let m = pow2(less) as int;
            assert(half(n) == m);
            lemma_pow2_pos(less);
            law_leaves_tile(*q0, x, y, less, i, j);
            law_leaves_tile(*q1, x, y + m, less, i, j);
            law_leaves_tile(*q2, x + m, y, less, i, j);
            law_leaves_tile(*q3, x + m, y + m, less, i, j);
            let (v0, v1, v2, v3) = (
                q0.leaves(x, y, m),
                q1.leaves(x, y + m, m),
                q2.leaves(x + m, y, m),
                q3.leaves(x + m, y + m, m),
            );
            lemma_coverings_concat(v0 + v1 + v2, v3, i, j);
            lemma_coverings_concat(v0 + v1, v2, i, j);
            lemma_coverings_concat(v0, v1, i, j);
        },
    }
}

/// A leaf that does not reach beyond the right edge touches the pixels that
/// belong to it, and paints its plane there.
proof fn lemma_touches_covers(leaf: Leaf, width: nat, i: int, j: int)
    requires
        0 <= j < width,
        leaf.y + leaf.n <= width,
    ensures
        touches(width, leaf.x as int, leaf.y as int, leaf.n as int, i * width + j) == covers(
            leaf,
            i,
            j,
        ),
        covers(leaf, i, j) ==> shade(
            leaf.plane,
            width,
            leaf.x as int,
            leaf.y as int,
            i * width + j,
        ) == leaf.plane.pixel(i - leaf.x, j - leaf.y) as u8,
{
    let w = width as int;
    let (di, dj) = (i - leaf.x, j - leaf.y);
    let r = i * width + j - (leaf.x * width + leaf.y);
    if dj >= 0 {
        assert(r == di * w + dj) by (nonlinear_arith)
            requires
                r == i * w + j - (leaf.x * w + leaf.y),
                di == i - leaf.x,
                dj == j - leaf.y,
        ;
        lemma_fundamental_div_mod_converse(r, w, di, dj);
        assert(r >= 0 <==> di >= 0) by (nonlinear_arith)
            requires
                r == di * w + dj,
                0 <= dj < w,
        ;
    } else {
        assert(r == (di - 1) * w + (dj + w)) by (nonlinear_arith)
            requires
                r == i * w + j - (leaf.x * w + leaf.y),
                di == i - leaf.x,
                dj == j - leaf.y,
        ;
        lemma_fundamental_div_mod_converse(r, w, di - 1, dj + w);
    }
}

/// A pixel shows the plane of the one leaf that it belongs to.
proof fn lemma_painted_pixel(image: Seq<u8>, width: nat, leaves: Seq<Leaf>, i: int, j: int)
    requires
        0 <= i,
        0 <= j < width,
        i * width + j < image.len(),
        forall|a: int|
            0 <= a < leaves.len() ==> (#[trigger] leaves[a]).y + leaves[a].n <= width,
        coverings(leaves, i, j) <= 1,
    ensures
        coverings(leaves, i, j) == 0 ==> paint_all(image, width, leaves)[i * width + j]
            == image[i * width + j],
        forall|a: int|
            0 <= a < leaves.len() && covers(#[trigger] leaves[a], i, j) ==> paint_all(
                image,
                width,
                leaves,
            )[i * width + j] == leaves[a].plane.pixel(i - leaves[a].x, j - leaves[a].y) as u8,
    decreases leaves.len(),
{
    assert(i * width >= 0) by (nonlinear_arith)
        requires
            i >= 0,
            width >= 0,
    ;
    if leaves.len() > 0 {
        let front = leaves.drop_last();
        assert forall|a: int| 0 <= a < front.len() implies (#[trigger] front[a]).y + front[a].n
            <= width by {
            assert(front[a] == leaves[a]);
        }
        lemma_painted_pixel(image, width, front, i, j);
        lemma_paint_all_len(image, width, front);
        lemma_touches_covers(leaves.last(), width, i, j);
        assert forall|a: int|
            0 <= a < leaves.len() && covers(#[trigger] leaves[a], i, j) implies paint_all(
            image,
            width,
            leaves,
        )[i * width + j] == leaves[a].plane.pixel(i - leaves[a].x, j - leaves[a].y) as u8 by {
            if a < front.len() {
                assert(front[a] == leaves[a]);
                lemma_counted(front, a, i, j);
            }
        }
    }
}

/// A leaf that a pixel belongs to is counted.
proof fn lemma_counted(leaves: Seq<Leaf>, a: int, i: int, j: int)
    requires
        0 <= a < leaves.len(),
        covers(leaves[a], i, j),
    ensures
        coverings(leaves, i, j) >= 1,
    decreases leaves.len(),
{
    if a < leaves.len() - 1 {
        assert(leaves.drop_last()[a] == leaves[a]);
        lemma_counted(leaves.drop_last(), a, i, j);
    }
}

/// A leaf lies within a square.
pub open spec fn lies_within(leaf: Leaf, x: int, y: int, n: int) -> bool {
    &&& x <= leaf.x && leaf.x + leaf.n <= x + n
    &&& y <= leaf.y && leaf.y + leaf.n <= y + n
}

/// The quadrant that a leaf of a split tree belongs to, and its place among
/// the leaves of that quadrant.
proof fn lemma_leaf_of_quadrant(tree: QuadTree, x: int, y: int, n: int, a: int) -> (place: (
    int,
    int,
))
    requires
        tree is Split,
        0 <= a < tree.leaves(x, y, n).len(),
    ensures
        ({
            let m = half(n);
            let (quad, b) = place;
            let leaf = tree.leaves(x, y, n)[a];
            let (v0, v1, v2, v3) = (
                tree->Split_0.leaves(x, y, m),
                tree->Split_1.leaves(x, y + m, m),
                tree->Split_2.leaves(x + m, y, m),
                tree->Split_3.leaves(x + m, y + m, m),
            );
            ||| quad == 0 && 0 <= b < v0.len() && leaf == v0[b]
            ||| quad == 1 && 0 <= b < v1.len() && leaf == v1[b]
            ||| quad == 2 && 0 <= b < v2.len() && leaf == v2[b]
            ||| quad == 3 && 0 <= b < v3.len() && leaf == v3[b]
        }),
{
    let m = half(n);
    let (v0, v1, v2) = (
        tree->Split_0.leaves(x, y, m),
        tree->Split_1.leaves(x, y + m, m),
        tree->Split_2.leaves(x + m, y, m),
    );
    if a < v0.len() {
        (0, a)
    } else if a < v0.len() + v1.len() {
        (1, a - v0.len())
    } else if a < v0.len() + v1.len() + v2.len() {
        (2, a - v0.len() - v1.len())
    } else {
        (3, a - v0.len() - v1.len() - v2.len())
    }
}

/// Where the edge is a power of two, the leaves of a tree lie within its
/// square.
pub proof fn lemma_leaf_lies_within(tree: QuadTree, x: int, y: int, k: nat, a: int)
    requires
        tree.divisible(pow2(k) as int),
        0 <= x,
        0 <= y,
        x + pow2(k) <= usize::MAX,
        y + pow2(k) <= usize::MAX,
        0 <= a < tree.leaves(x, y, pow2(k) as int).len(),
    ensures
        lies_within(tree.leaves(x, y, pow2(k) as int)[a], x, y, pow2(k) as int),
    decreases tree,
{
    let n = pow2(k) as int;
    lemma_pow2_pos(k);
    if let QuadTree::Split(q0, q1, q2, q3) = tree {
        lemma2_to64();
        lemma_pow2_unfold(k);
        let less = (k - 1) as nat;
        let m = pow2(less) as int;
        assert(half(n) == m);
        lemma_pow2_pos(less);
        let (quad, b) = lemma_leaf_of_quadrant(tree, x, y, n, a);
        if quad == 0 {
            lemma_leaf_lies_within(*q0, x, y, less, b);
        } else if quad == 1 {
            lemma_leaf_lies_within(*q1, x, y + m, less, b);
        } else if quad == 2 {
            lemma_leaf_lies_within(*q2, x + m, y, less, b);
        } else {
            lemma_leaf_lies_within(*q3, x + m, y + m, less, b);
        }
    }
}

/// `coarse` is `fine` with some inner nodes made leaves.
pub open spec fn prunes(coarse: QuadTree, fine: QuadTree) -> bool
    decreases coarse,
{
    match (coarse, fine) {
        (QuadTree::Leaf(p), QuadTree::Leaf(q)) => p == q,
        (QuadTree::Leaf(_), QuadTree::Split(..)) => true,
        (QuadTree::Split(..), QuadTree::Leaf(_)) => false,
        (QuadTree::Split(c0, c1, c2, c3), QuadTree::Split(f0, f1, f2, f3)) => {
            &&& prunes(*c0, *f0)
            &&& prunes(*c1, *f1)
            &&& prunes(*c2, *f2)
            &&& prunes(*c3, *f3)
        },
    }
}

/// Where the edge is a power of two, every leaf of a tree lies within one leaf
/// of a pruned tree. Since the leaves of both tile the square, every leaf of
/// the pruned tree is a union of leaves of the other.
pub proof fn law_pruned_leaves_are_unions(
    coarse: QuadTree,
    fine: QuadTree,
    x: int,
    y: int,
    k: nat,
    a: int,
) -> (b: int)
    requires
        prunes(coarse, fine),
        coarse.divisible(pow2(k) as int),
        fine.divisible(pow2(k) as int),
        0 <= x,
        0 <= y,
        x + pow2(k) <= usize::MAX,
        y + pow2(k) <= usize::MAX,
        0 <= a < fine.leaves(x, y, pow2(k) as int).len(),
    ensures
        ({
            let n = pow2(k) as int;
            &&& 0 <= b < coarse.leaves(x, y, n).len()
            &&& ({
                let outer = coarse.leaves(x, y, n)[b];
                lies_within(
                    fine.leaves(x, y, n)[a],
                    outer.x as int,
                    outer.y as int,
                    outer.n as int,
                )
            })
        }),
    decreases coarse,
{
    let n = pow2(k) as int;
    lemma_pow2_pos(k);
    match (coarse, fine) {
        (QuadTree::Split(c0, c1, c2, c3), QuadTree::Split(f0, f1, f2, f3)) => {
            lemma2_to64();
            lemma_pow2_unfold(k);
            let less = (k - 1) as nat;
            let m = pow2(less) as int;
            assert(half(n) == m);
            lemma_pow2_pos(less);
            let (v0, v1, v2, v3) = (
                c0.leaves(x, y, m),
                c1.leaves(x, y + m, m),
                c2.leaves(x + m, y, m),
                c3.leaves(x + m, y + m, m),
            );
            let leaves = coarse.leaves(x, y, n);
            let (quad, d) = lemma_leaf_of_quadrant(fine, x, y, n, a);
            if quad == 0 {
                let b = law_pruned_leaves_are_unions(*c0, *f0, x, y, less, d);
                assert(leaves[b] == v0[b]);
                b
            } else if quad == 1 {
                let b = law_pruned_leaves_are_unions(*c1, *f1, x, y + m, less, d);
                assert(leaves[v0.len() + b] == v1[b]);
                v0.len() + b
            } else if quad == 2 {
                let b = law_pruned_leaves_are_unions(*c2, *f2, x + m, y, less, d);
                assert(leaves[v0.len() + v1.len() + b] == v2[b]);
                v0.len() + v1.len() + b
            } else {
                let b = law_pruned_leaves_are_unions(*c3, *f3, x + m, y + m, less, d);
                assert(leaves[v0.len() + v1.len() + v2.len() + b] == v3[b]);
                v0.len() + v1.len() + v2.len() + b
            }
        },
        _ => {
            lemma_leaf_lies_within(fine, x, y, k, a);
            0
        },
    }
}

/// Where the edge is a power of two, every leaf of a rendered tree shows its
/// own plane: no leaf hides another.
pub proof fn law_render_shows_every_leaf(tree: QuadTree, k: nat, a: int, i: int, j: int)
    requires
        tree.divisible(pow2(k) as int),
        pow2(k) <= usize::MAX,
        0 <= a < tree.leaves(0, 0, pow2(k) as int).len(),
        covers(tree.leaves(0, 0, pow2(k) as int)[a], i, j),
    ensures
        ({
            let leaf = tree.leaves(0, 0, pow2(k) as int)[a];
            rendered(tree, pow2(k))[i * pow2(k) + j] == leaf.plane.pixel(
                i - leaf.x,
                j - leaf.y,
            ) as u8
        }),
{
    let n = pow2(k) as int;
    let leaves = tree.leaves(0, 0, n);
    law_leaves_tile(tree, 0, 0, k, i, j);
    lemma_counted(leaves, a, i, j);
    assert forall|c: int| 0 <= c < leaves.len() implies (#[trigger] leaves[c]).y + leaves[c].n
        <= n by {
        lemma_leaf_lies_within(tree, 0, 0, k, c);
    }
    assert(0 <= i * n && i * n + j < n * n) by (nonlinear_arith)
        requires
            0 <= i <= n - 1,
            0 <= j < n,
    ;
    lemma_painted_pixel(blank(n as nat, n as nat), n as nat, leaves, i, j);
}

} // verus!
