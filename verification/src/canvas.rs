//! Square regions of a row-major image, and painting planes over them.

use crate::plane::{law_pixel_is_the_nearest_byte, Plane};
use vstd::arithmetic::div_mod::{
    lemma_div_pos_is_pos, lemma_fundamental_div_mod, lemma_fundamental_div_mod_converse, lemma_mod_bound,
};
use vstd::prelude::*;

verus! {

/// One leaf of the quadtree: a square sub-image described by a single plane.
#[derive(Clone, Copy, Debug, PartialEq, Eq, Structural)]
pub struct Leaf {
    pub x: usize,
    pub y: usize,
    pub n: usize,
    pub plane: Plane,
}

/// The `n` x `n` region whose top-left pixel is at row `x` and column `y` has
/// its last pixel among the first `len` of an image of this width.
pub open spec fn inside(len: nat, width: nat, x: int, y: int, n: int) -> bool {
    n == 0 || {
        &&& (x + n - 1) * width + (y + n - 1) < len
        &&& x + n <= usize::MAX
    }
}

/// Whether a region lies inside an image.
pub fn is_inside(len: usize, width: usize, x: usize, y: usize, n: usize) -> (fits: bool)
    ensures
        fits == inside(len as nat, width as nat, x as int, y as int, n as int),
{
    if n == 0 {
        return true;
    }
    let row = match x.checked_add(n) {
        Some(end) => end - 1,
        None => return false,
    };
    assert(row * width >= 0) by (nonlinear_arith)
        requires
            row >= 0,
            width >= 0,
    ;
    let col = match y.checked_add(n) {
        Some(end) => end - 1,
        None => return false,
    };
    match row.checked_mul(width) {
        None => false,
        Some(start) => match start.checked_add(col) {
            None => false,
            Some(last) => last < len,
        },
    }
}

/// A smaller region at the same corner of an inside region is inside.
pub proof fn lemma_pixel_inside(
    len: nat,
    width: nat,
    x: int,
    y: int,
    n: int,
    i: int,
    j: int,
)
    requires
        inside(len, width, x, y, n),
        0 <= x,
        0 <= y,
        0 <= i < n,
        0 <= j < n,
    ensures
        0 <= x * width <= (x + i) * width,
        (x + i) * width + y + j < len,
        x * width + i * width == (x + i) * width,
{
    assert((x + i) * width <= (x + n - 1) * width) by (nonlinear_arith)
        requires
            x + i <= x + n - 1,
            width >= 0,
    ;
    assert(0 <= x * width <= (x + i) * width && x * width + i * width == (x + i) * width)
        by (nonlinear_arith)
        requires
            0 <= x,
            0 <= i,
            width >= 0,
    ;
}

/// The pixel with index `k` belongs to the region.
pub open spec fn touches(width: nat, x: int, y: int, n: int, k: int) -> bool {
    let r = k - (x * width + y);
    &&& width > 0
    &&& r >= 0
    &&& r / (width as int) < n
    &&& r % (width as int) < n
}

/// What a plane painted over a region leaves at the pixel with index `k`.
pub open spec fn shade(plane: Plane, width: nat, x: int, y: int, k: int) -> u8 {
    let r = k - (x * width + y);
    plane.pixel(r / (width as int), r % (width as int)) as u8
}

/// The image after a plane was painted over a region.
pub open spec fn paint(
    image: Seq<u8>,
    width: nat,
    plane: Plane,
    x: int,
    y: int,
    n: int,
) -> Seq<u8> {
    Seq::new(
        image.len(),
        |k: int|
            if touches(width, x, y, n, k) {
                shade(plane, width, x, y, k)
            } else {
                image[k]
            },
    )
}

/// The pixels touched so far after the plane was painted over a region.
pub open spec fn touch(mask: Seq<bool>, width: nat, x: int, y: int, n: int) -> Seq<bool> {
    Seq::new(mask.len(), |k: int| mask[k] || touches(width, x, y, n, k))
}

/// The pixel with index `k` belongs to the first `i` rows of the region, or to
/// the first `j` pixels of the row after them.
spec fn passed(width: nat, x: int, y: int, n: int, i: int, j: int, k: int) -> bool {
    let r = k - (x * width + y);
    let row = r / (width as int);
    let col = r % (width as int);
    width > 0 && r >= 0 && col < n && (row < i || row == i && col < j)
}

/// Passing the pixel at row `i` and column `j` adds it and no other.
proof fn lemma_pass(width: nat, x: int, y: int, n: int, i: int, j: int)
    requires
        0 <= i < n,
        0 <= j < n <= width,
    ensures
        ({
            let at = (x + i) * width + y + j;
            &&& (at - (x * width + y)) / (width as int) == i
            &&& (at - (x * width + y)) % (width as int) == j
            &&& passed(width, x, y, n, i, j + 1, at)
            &&& forall|k: int|
                k != at ==> passed(width, x, y, n, i, j + 1, k) == #[trigger] passed(
                    width,
                    x,
                    y,
                    n,
                    i,
                    j,
                    k,
                )
        }),
{
    let w = width as int;
    let at = (x + i) * width + y + j;
    assert((x + i) * w == x * w + i * w) by (nonlinear_arith);
    assert(0 <= i * w) by (nonlinear_arith)
        requires
            0 <= i,
            0 <= w,
    ;
    lemma_fundamental_div_mod_converse(i * w + j, w, i, j);
    assert forall|k: int| k != at implies passed(width, x, y, n, i, j + 1, k)
        == #[trigger] passed(width, x, y, n, i, j, k) by {
        let r = k - (x * width + y);
        lemma_fundamental_div_mod(r, w);
        if r / w == i && r % w == j {
            assert(w * i == i * w) by (nonlinear_arith);
        }
    }
}

proof fn lemma_rows_from_zero(width: nat, r: int)
    requires
        width > 0 && r >= 0,
    ensures
        r / (width as int) >= 0,
        0 <= r % (width as int) < width,
{
    lemma_div_pos_is_pos(r, width as int);
    lemma_mod_bound(r, width as int);
}

/// Passing a whole row is passing all `n` of its pixels.
proof fn lemma_pass_row(width: nat, x: int, y: int, n: int, i: int, k: int)
    ensures
        passed(width, x, y, n, i, n, k) == passed(width, x, y, n, i + 1, 0, k),
{
    if width > 0 {
        let r = k - (x * width + y);
        lemma_mod_bound(r, width as int);
    }
}

/// Paint a plane over a region.
pub(crate) fn paint_region(
    buf: &mut Vec<u8>,
    width: usize,
    plane: &Plane,
    x: usize,
    y: usize,
    n: usize,
)
    requires
        inside(old(buf)@.len(), width as nat, x as int, y as int, n as int),
        n <= width,
        n <= i64::MAX,
    ensures
        final(buf)@ == paint(old(buf)@, width as nat, *plane, x as int, y as int, n as int),
{
    let ghost before = buf@;
    proof {
        assert forall|k: int| !(#[trigger] passed(
            width as nat,
            x as int,
            y as int,
            n as int,
            0,
            0,
            k,
        )) by {
            if width > 0 && k >= x * width + y {
                lemma_rows_from_zero(width as nat, k - (x * width + y));
            }
        }
    }
    for i in 0..n
        invariant
            inside(before.len(), width as nat, x as int, y as int, n as int),
            n <= width,
            n <= i64::MAX,
            buf.len() == before.len(),
            forall|k: int|
                0 <= k < before.len() ==> #[trigger] buf@[k] == (if passed(
                    width as nat,
                    x as int,
                    y as int,
                    n as int,
                    i as int,
                    0,
                    k,
                ) {
                    shade(*plane, width as nat, x as int, y as int, k)
                } else {
                    before[k]
                }),
    {
        proof {
            lemma_pixel_inside(before.len(), width as nat, x as int, y as int, n as int, i as int, 0);
        }
        let base: usize = (x + i) * width + y;
        for j in 0..n
            invariant
                inside(before.len(), width as nat, x as int, y as int, n as int),
                n <= width,
                n <= i64::MAX,
                i < n,
                base == (x + i) * width + y,
                buf.len() == before.len(),
                forall|k: int|
                    0 <= k < before.len() ==> #[trigger] buf@[k] == (if passed(
                        width as nat,
                        x as int,
                        y as int,
                        n as int,
                        i as int,
                        j as int,
                        k,
                    ) {
                        shade(*plane, width as nat, x as int, y as int, k)
                    } else {
                        before[k]
                    }),
        {
            proof {
                lemma_pixel_inside(
                    before.len(),
                    width as nat,
                    x as int,
                    y as int,
                    n as int,
                    i as int,
                    j as int,
                );
                lemma_pass(width as nat, x as int, y as int, n as int, i as int, j as int);
            }
            let value = plane.pixel_at(i, j);
            buf[base + j] = value;
            assert(shade(*plane, width as nat, x as int, y as int, base + j) == value);
        }
        proof {
            assert forall|k: int| passed(
                width as nat,
                x as int,
                y as int,
                n as int,
                i as int,
                n as int,
                k,
            ) == #[trigger] passed(
                width as nat,
                x as int,
                y as int,
                n as int,
                i + 1,
                0,
                k,
            ) by {
                lemma_pass_row(width as nat, x as int, y as int, n as int, i as int, k);
            }
        }
    }
    proof {
        assert forall|k: int| 0 <= k < before.len() implies #[trigger] buf@[k] == paint(
            before,
            width as nat,
            *plane,
            x as int,
            y as int,
            n as int,
        )[k] by {
            if width > 0 && k >= x * width + y {
                lemma_rows_from_zero(width as nat, k - (x * width + y));
            }
        }
        assert(buf@ =~= paint(before, width as nat, *plane, x as int, y as int, n as int));
    }
}

/// Mark the pixels of a region.
pub(crate) fn mark_region(mask: &mut Vec<bool>, width: usize, x: usize, y: usize, n: usize)
    requires
        inside(old(mask)@.len(), width as nat, x as int, y as int, n as int),
        n <= width,
    ensures
        final(mask)@ == touch(old(mask)@, width as nat, x as int, y as int, n as int),
{
    let ghost before = mask@;
    let ghost (w, gx, gy, gn) = (width as nat, x as int, y as int, n as int);
    proof {
        assert forall|k: int| !(#[trigger] passed(w, gx, gy, gn, 0, 0, k)) by {
            if width > 0 && k >= x * width + y {
                lemma_rows_from_zero(w, k - (x * width + y));
            }
        }
    }
    for i in 0..n
        invariant
            inside(before.len(), w, gx, gy, gn),
            (w, gx, gy, gn) == (width as nat, x as int, y as int, n as int),
            n <= width,
            mask.len() == before.len(),
            forall|k: int|
                0 <= k < before.len() ==> #[trigger] mask@[k] == (before[k] || passed(
                    w,
                    gx,
                    gy,
                    gn,
                    i as int,
                    0,
                    k,
                )),
    {
        proof {
            lemma_pixel_inside(before.len(), w, gx, gy, gn, i as int, 0);
        }
        let base: usize = (x + i) * width + y;
        for j in 0..n
            invariant
                inside(before.len(), w, gx, gy, gn),
                (w, gx, gy, gn) == (width as nat, x as int, y as int, n as int),
                n <= width,
                i < n,
                base == (x + i) * width + y,
                mask.len() == before.len(),
                forall|k: int|
                    0 <= k < before.len() ==> #[trigger] mask@[k] == (before[k] || passed(
                        w,
                        gx,
                        gy,
                        gn,
                        i as int,
                        j as int,
                        k,
                    )),
        {
            proof {
                lemma_pixel_inside(before.len(), w, gx, gy, gn, i as int, j as int);
                lemma_pass(w, gx, gy, gn, i as int, j as int);
            }
            mask[base + j] = true;
        }
        proof {
            assert forall|k: int| passed(w, gx, gy, gn, i as int, gn, k) == #[trigger] passed(
                w,
                gx,
                gy,
                gn,
                i + 1,
                0,
                k,
            ) by {
                lemma_pass_row(w, gx, gy, gn, i as int, k);
            }
        }
    }
    proof {
        assert forall|k: int| 0 <= k < before.len() implies #[trigger] mask@[k] == touch(
            before,
            w,
            gx,
            gy,
            gn,
        )[k] by {
            if width > 0 && k >= x * width + y {
                lemma_rows_from_zero(w, k - (x * width + y));
            }
        }
        assert(mask@ =~= touch(before, w, gx, gy, gn));
    }
}

/// The image after the leaves were painted one after another.
pub open spec fn paint_all(image: Seq<u8>, width: nat, leaves: Seq<Leaf>) -> Seq<u8>
    decreases leaves.len(),
{
    if leaves.len() == 0 {
        image
    } else {
        let leaf = leaves.last();
        paint(
            paint_all(image, width, leaves.drop_last()),
            width,
            leaf.plane,
            leaf.x as int,
            leaf.y as int,
            leaf.n as int,
        )
    }
}

/// An image of zeros.
pub open spec fn blank(width: nat, height: nat) -> Seq<u8> {
    Seq::new(width * height, |k: int| 0u8)
}

/// The leaf can be painted on an image of this many pixels and this width.
pub open spec fn paintable(len: nat, width: nat, leaf: Leaf) -> bool {
    &&& inside(len, width, leaf.x as int, leaf.y as int, leaf.n as int)
    &&& leaf.n <= width
    &&& leaf.n <= i64::MAX
}

pub proof fn lemma_paint_all_len(image: Seq<u8>, width: nat, leaves: Seq<Leaf>)
    ensures
        paint_all(image, width, leaves).len() == image.len(),
    decreases leaves.len(),
{
    if leaves.len() > 0 {
        lemma_paint_all_len(image, width, leaves.drop_last());
    }
}

/// A vector of `len` copies of the same byte.
pub(crate) fn zeros(len: usize) -> (v: Vec<u8>)
    ensures
        v@ == Seq::new(len as nat, |k: int| 0u8),
{
    let v = vec![0u8; len];
    assert(v@ =~= Seq::new(len as nat, |k: int| 0u8));
    v
}

/// Render the quadtree: every leaf paints its plane over its own sub-image.
/// Leaves tile the whole image, so no parent region is needed.
pub fn render(width: usize, height: usize, leaves: &[Leaf]) -> (out: Vec<u8>)
    requires
        width * height <= usize::MAX,
        forall|i: int|
            0 <= i < leaves@.len() ==> paintable(
                (width * height) as nat,
                width as nat,
                #[trigger] leaves@[i],
            ),
    ensures
        out@ == paint_all(blank(width as nat, height as nat), width as nat, leaves@),
{
    assert(0 <= width * height) by (nonlinear_arith)
        requires
            0 <= width,
            0 <= height,
    ;
    let mut out = zeros(width * height);
    let ghost start = out@;
    assert(start =~= blank(width as nat, height as nat));
    assert(leaves@.take(0) =~= Seq::empty());
    for at in 0..leaves.len()
        invariant
            start.len() == width * height,
            forall|i: int|
                0 <= i < leaves@.len() ==> paintable(
                    (width * height) as nat,
                    width as nat,
                    #[trigger] leaves@[i],
                ),
            out@ == paint_all(start, width as nat, leaves@.take(at as int)),
    {
        proof {
            lemma_paint_all_len(start, width as nat, leaves@.take(at as int));
            assert(leaves@.take(at + 1).drop_last() =~= leaves@.take(at as int));
        }
        let leaf = leaves[at];
        paint_region(&mut out, width, &leaf.plane, leaf.x, leaf.y, leaf.n);
    }
    assert(leaves@.take(leaves@.len() as int) =~= leaves@);
    out
}

/// A region lies inside an image if and only if each of its pixels does, and
/// the row after it can be numbered.
pub proof fn law_inside_is_every_pixel_inside(len: nat, width: nat, x: int, y: int, n: int)
    requires
        0 <= x,
        0 <= y,
        0 <= n,
    ensures
        n > 0 ==> (inside(len, width, x, y, n) <==> x + n <= usize::MAX && forall|i: int, j: int|
            0 <= i < n && 0 <= j < n ==> #[trigger] ((x + i) * width + y + j) < len),
        n == 0 ==> inside(len, width, x, y, n),
{
    if n > 0 {
        if inside(len, width, x, y, n) {
            assert forall|i: int, j: int| 0 <= i < n && 0 <= j < n implies #[trigger] ((x + i)
                * width + y + j) < len by {
                lemma_pixel_inside(len, width, x, y, n, i, j);
            }
        } else if forall|i: int, j: int|
            0 <= i < n && 0 <= j < n ==> #[trigger] ((x + i) * width + y + j) < len {
            assert((x + (n - 1)) * width + y + (n - 1) < len);
            assert(x + (n - 1) == x + n - 1);
        }
    }
}

/// The pixel at row `i` and column `j` of a painted region is the nearest byte
/// to the plane there.
pub proof fn law_painting_shows_the_plane(
    image: Seq<u8>,
    width: nat,
    plane: Plane,
    x: int,
    y: int,
    n: int,
    i: int,
    j: int,
)
    requires
        0 <= i < n,
        0 <= j < n <= width,
        0 <= (x + i) * width + y + j < image.len(),
        i64::MIN <= plane.a * i + plane.b * j + plane.c <= i64::MAX,
    ensures
        ({
            let value = plane.a * i + plane.b * j + plane.c;
            let shown = paint(image, width, plane, x, y, n)[(x + i) * width + y + j];
            &&& value >= 255 ==> shown == 255
            &&& value <= 0 ==> shown == 0
            &&& 0 <= value <= 255 ==> shown == value
        }),
{
    lemma_painted(image, width, plane, x, y, n, i, j);
    law_pixel_is_the_nearest_byte(plane, i, j);
}

/// What painting leaves at a pixel of the region.
proof fn lemma_painted(
    image: Seq<u8>,
    width: nat,
    plane: Plane,
    x: int,
    y: int,
    n: int,
    i: int,
    j: int,
)
    requires
        0 <= i < n,
        0 <= j < n <= width,
        0 <= (x + i) * width + y + j < image.len(),
    ensures
        paint(image, width, plane, x, y, n)[(x + i) * width + y + j] == plane.pixel(i, j) as u8,
{
    let k = (x + i) * width + y + j;
    lemma_pass(width, x, y, n, i, j);
    assert(k - (x * width + y) == i * width + j) by (nonlinear_arith)
        requires
            k == (x + i) * width + y + j,
    ;
    assert(i * width >= 0) by (nonlinear_arith)
        requires
            i >= 0,
            width >= 0,
    ;
    assert(touches(width, x, y, n, k));
}

/// Painting a region changes no pixel outside it, and not the size.
pub proof fn law_painting_leaves_the_rest(
    image: Seq<u8>,
    width: nat,
    plane: Plane,
    x: int,
    y: int,
    n: int,
    k: int,
)
    requires
        0 <= k < image.len(),
        forall|i: int, j: int|
            0 <= i < n && 0 <= j < n ==> k != #[trigger] ((x + i) * width + y + j),
    ensures
        paint(image, width, plane, x, y, n).len() == image.len(),
        paint(image, width, plane, x, y, n)[k] == image[k],
{
    if touches(width, x, y, n, k) {
        let w = width as int;
        let r = k - (x * width + y);
        let (i, j) = (r / w, r % w);
        lemma_rows_from_zero(width, r);
        lemma_fundamental_div_mod(r, w);
        assert((x + i) * w + y + j == k) by (nonlinear_arith)
            requires
                r == w * i + j,
                r == k - (x * w + y),
        ;
        assert(k != (x + i) * width + y + j);
    }
}

/// A rendered pixel shows the last leaf that reaches it: the nearest byte to
/// that leaf's plane there.
pub proof fn law_render_shows_the_last_leaf(
    width: nat,
    height: nat,
    leaves: Seq<Leaf>,
    a: int,
    i: int,
    j: int,
)
    requires
        0 <= a < leaves.len(),
        0 <= i < leaves[a].n,
        0 <= j < leaves[a].n <= width,
        (leaves[a].x + i) * width + leaves[a].y + j < width * height,
        forall|b: int, p: int, q: int|
            a < b < leaves.len() && 0 <= p < leaves[b].n && 0 <= q < leaves[b].n ==> (leaves[a].x
                + i) * width + leaves[a].y + j != #[trigger] ((leaves[b].x + p) * width
                + leaves[b].y + q),
        i64::MIN <= leaves[a].plane.a * i + leaves[a].plane.b * j + leaves[a].plane.c <= i64::MAX,
    ensures
        ({
            let value = leaves[a].plane.a * i + leaves[a].plane.b * j + leaves[a].plane.c;
            let shown = paint_all(blank(width, height), width, leaves)[(leaves[a].x + i) * width
                + leaves[a].y + j];
            &&& value >= 255 ==> shown == 255
            &&& value <= 0 ==> shown == 0
            &&& 0 <= value <= 255 ==> shown == value
        }),
    decreases leaves.len(),
{
    let k = (leaves[a].x + i) * width + leaves[a].y + j;
    assert(k >= 0) by (nonlinear_arith)
        requires
            k == (leaves[a].x + i) * width + leaves[a].y + j,
            i >= 0,
            j >= 0,
            width >= 0,
    ;
    let front = leaves.drop_last();
    let leaf = leaves.last();
    let before = paint_all(blank(width, height), width, front);
    lemma_paint_all_len(blank(width, height), width, front);
    if a == leaves.len() - 1 {
        law_painting_shows_the_plane(
            before,
            width,
            leaf.plane,
            leaf.x as int,
            leaf.y as int,
            leaf.n as int,
            i,
            j,
        );
    } else {
        assert(front[a] == leaves[a]);
        assert forall|b: int, p: int, q: int|
            a < b < front.len() && 0 <= p < front[b].n && 0 <= q < front[b].n implies (front[a].x
            + i) * width + front[a].y + j != #[trigger] ((front[b].x + p) * width + front[b].y
            + q) by {
            assert(front[b] == leaves[b]);
            assert(k != ((leaves[b].x + p) * width + leaves[b].y + q));
        }
        law_render_shows_the_last_leaf(width, height, front, a, i, j);
        let b = leaves.len() - 1;
        assert forall|p: int, q: int| 0 <= p < leaf.n && 0 <= q < leaf.n implies k != #[trigger] ((
        leaf.x as int + p) * width + leaf.y as int + q) by {
            assert(k != ((leaves[b].x + p) * width + leaves[b].y + q));
        }
        law_painting_leaves_the_rest(
            before,
            width,
            leaf.plane,
            leaf.x as int,
            leaf.y as int,
            leaf.n as int,
            k,
        );
    }
}

/// A rendered pixel that no leaf reaches is black, and the image has the size
/// asked for.
pub proof fn law_render_leaves_the_rest_black(
    width: nat,
    height: nat,
    leaves: Seq<Leaf>,
    k: int,
)
    requires
        0 <= k < width * height,
        forall|b: int, p: int, q: int|
            0 <= b < leaves.len() && 0 <= p < leaves[b].n && 0 <= q < leaves[b].n ==> k
                != #[trigger] ((leaves[b].x + p) * width + leaves[b].y + q),
    ensures
        paint_all(blank(width, height), width, leaves).len() == width * height,
        paint_all(blank(width, height), width, leaves)[k] == 0,
    decreases leaves.len(),
{
    lemma_paint_all_len(blank(width, height), width, leaves);
    if leaves.len() > 0 {
        let front = leaves.drop_last();
        let leaf = leaves.last();
        let last = leaves.len() - 1;
        assert forall|b: int, p: int, q: int|
            0 <= b < front.len() && 0 <= p < front[b].n && 0 <= q < front[b].n implies k
            != #[trigger] ((front[b].x + p) * width + front[b].y + q) by {
            assert(front[b] == leaves[b]);
            assert(k != ((leaves[b].x + p) * width + leaves[b].y + q));
        }
        law_render_leaves_the_rest_black(width, height, front, k);
        assert forall|p: int, q: int| 0 <= p < leaf.n && 0 <= q < leaf.n implies k != #[trigger] ((
        leaf.x as int + p) * width + leaf.y as int + q) by {
            assert(k != ((leaves[last].x + p) * width + leaves[last].y + q));
        }
        law_painting_leaves_the_rest(
            paint_all(blank(width, height), width, front),
            width,
            leaf.plane,
            leaf.x as int,
            leaf.y as int,
            leaf.n as int,
            k,
        );
    }
}

/// The pixels that a region touches are those at its rows and columns.
pub(crate) proof fn lemma_touches_places(width: nat, x: int, y: int, n: int, k: int)
    requires
        n <= width,
    ensures
        touches(width, x, y, n, k) <==> exists|i: int, j: int|
            0 <= i < n && 0 <= j < n && k == #[trigger] ((x + i) * width + y + j),
{
    let w = width as int;
    if touches(width, x, y, n, k) {
        let r = k - (x * width + y);
        let (i, j) = (r / w, r % w);
        lemma_rows_from_zero(width, r);
        lemma_fundamental_div_mod(r, w);
        assert((x + i) * w + y + j == k) by (nonlinear_arith)
            requires
                r == w * i + j,
                r == k - (x * w + y),
        ;
        assert(k == ((x + i) * width + y + j));
    }
    if exists|i: int, j: int|
        0 <= i < n && 0 <= j < n && k == #[trigger] ((x + i) * width + y + j) {
        let (i, j) = choose|i: int, j: int|
            0 <= i < n && 0 <= j < n && k == #[trigger] ((x + i) * width + y + j);
        lemma_pass(width, x, y, n, i, j);
        assert(k - (x * width + y) == i * width + j) by (nonlinear_arith)
            requires
                k == (x + i) * width + y + j,
        ;
        assert(i * width >= 0) by (nonlinear_arith)
            requires
                i >= 0,
                width >= 0,
        ;
    }
}

} // verus!
