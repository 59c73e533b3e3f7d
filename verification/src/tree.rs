//! Coding one plane's quadtree.
//!
//! Nodes are visited depth first. Every inner node codes one *split* bit
//! (0 = leaf, 1 = split); a 1x1 node can never split, so its split bit is
//! implied and not coded. A leaf then codes its plane `pixel = a*i + b*j + c`
//! as three integers, the constant `c` as its distance from a prediction.
//!
//! The decoder paints each leaf it decodes into the same reconstruction buffer
//! the encoder used, so the predictor sees identical pixels on both sides.

use crate::canvas::{blank, inside, is_inside, lemma_pixel_inside, paint_all, Leaf};
use crate::gamma::{
    fold_sign, lemma_signed_follows, lemma_write_value, read_signed, write_signed, Gamma,
    IntModels,
};
use crate::interval::{
    all_usable, code_at, lemma_code_at, lemma_code_at_follows, lemma_low_end_covered,
    lemma_start_follows, read_at, spells, Cursor, Interval,
};
use crate::plane::{wrap, Plane};
use crate::quadtree::{
    half, lemma_first_leaf, lemma_half, lemma_leaves_len, lemma_leaves_unique,
    lemma_starts_concat, split_range_into_quad, starts, QuadTree,
};
use crate::range::{decode_at, encode_at, probabilities, BitModel, Decoder, Encoder};
use crate::recon::{Canvas, Recon};
use vstd::prelude::*;

verus! {

/// Number of tree depths that get their own split-probability model.
pub const MAX_DEPTH: usize = 24;

/// Two split models per depth.
pub const SPLIT_MODELS: usize = 48;

/// The models of one plane's quadtree.
pub struct TreeModels {
    pub split: Seq<int>,
    pub a: Gamma,
    pub b: Gamma,
    pub c: Gamma,
}

impl TreeModels {
    /// Every model still at one half.
    pub open spec fn fresh() -> TreeModels {
        TreeModels {
            split: Seq::new(SPLIT_MODELS as nat, |i: int| 1024),
            a: Gamma::fresh(),
            b: Gamma::fresh(),
            c: Gamma::fresh(),
        }
    }

    pub open spec fn wf(self) -> bool {
        &&& self.split.len() == SPLIT_MODELS
        &&& all_usable(self.split)
        &&& self.a.wf()
        &&& self.b.wf()
        &&& self.c.wf()
    }
}

/// The model of a split decision: one per depth, up to a limit, and per
/// decision of the sibling before.
pub open spec fn split_model(depth: nat, prev_split: bool) -> int {
    let level = if depth < MAX_DEPTH {
        depth as int
    } else {
        MAX_DEPTH - 1
    };
    level * 2 + (if prev_split {
        1int
    } else {
        0int
    })
}

/// Where the encoder of a tree stands.
pub struct Writer {
    pub st: Interval,
    pub models: TreeModels,
    pub canvas: Canvas,
}

/// Where the decoder of a tree stands.
pub struct Reader {
    pub c: Cursor,
    pub models: TreeModels,
    pub canvas: Canvas,
}

impl Writer {
    /// The decoder of `s` that has followed this encoder.
    pub open spec fn reader(self, s: Seq<u8>) -> Reader {
        Reader { c: self.st.cursor(s), models: self.models, canvas: self.canvas }
    }

    pub open spec fn wf(self) -> bool {
        &&& self.st.wide()
        &&& self.models.wf()
        &&& self.canvas.wf()
    }
}

impl Reader {
    pub open spec fn wf(self) -> bool {
        &&& self.c.wide()
        &&& self.models.wf()
        &&& self.canvas.wf()
    }
}

/// Write the split bit of a square of more than one pixel.
#[verifier::opaque]
pub open spec fn write_split(w: Writer, n: int, depth: nat, prev_split: bool, bit: bool) -> Writer {
    if n > 1 {
        let (st, split) = code_at(w.st, w.models.split, split_model(depth, prev_split), bit);
        Writer { st, models: TreeModels { split, ..w.models }, canvas: w.canvas }
    } else {
        w
    }
}

/// Write a leaf's plane, and paint it.
#[verifier::opaque]
pub open spec fn write_leaf(w: Writer, plane: Plane, x: int, y: int, n: int) -> Writer {
    let (st, a) = write_signed(w.st, w.models.a, plane.a as int);
    let (st, b) = write_signed(st, w.models.b, plane.b as int);
    let (st, c) = write_signed(st, w.models.c, wrap(plane.c - w.canvas.prediction(x, y)));
    Writer {
        st,
        models: TreeModels { split: w.models.split, a, b, c },
        canvas: w.canvas.paint(plane, x, y, n),
    }
}

/// Write a tree over the square range `(x, y, n)`.
pub open spec fn write_tree(
    w: Writer,
    tree: QuadTree,
    x: int,
    y: int,
    n: int,
    depth: nat,
    prev_split: bool,
) -> Writer
    decreases tree,
{
    let w = write_split(w, n, depth, prev_split, tree is Split);
    match tree {
        QuadTree::Leaf(plane) => write_leaf(w, plane, x, y, n),
        QuadTree::Split(q0, q1, q2, q3) => {
            let m = half(n);
            let w = write_tree(w, *q0, x, y, m, depth + 1, false);
            let w = write_tree(w, *q1, x, y + m, m, depth + 1, *q0 is Split);
            let w = write_tree(w, *q2, x + m, y, m, depth + 1, *q1 is Split);
            write_tree(w, *q3, x + m, y + m, m, depth + 1, *q2 is Split)
        },
    }
}

/// Read the split bit of a square of more than one pixel; a single pixel is
/// not split.
#[verifier::opaque]
pub open spec fn read_split(r: Reader, n: int, depth: nat, prev_split: bool) -> (bool, Reader) {
    if n > 1 {
        let (bit, c, split) = read_at(r.c, r.models.split, split_model(depth, prev_split));
        (bit, Reader { c, models: TreeModels { split, ..r.models }, canvas: r.canvas })
    } else {
        (false, r)
    }
}

/// Read a leaf's plane, and paint it. The leaf has to lie inside the image.
#[verifier::opaque]
pub open spec fn read_leaf(r: Reader, x: int, y: int, n: int) -> Option<(Plane, Reader)> {
    if inside(r.canvas.pixels.len(), r.canvas.width, x, y, n) {
        let (a, c, models_a) = read_signed(r.c, r.models.a);
        let (b, c, models_b) = read_signed(c, r.models.b);
        let (residual, c, models_c) = read_signed(c, r.models.c);
        let plane = Plane {
            a: a as i64,
            b: b as i64,
            c: wrap(residual + r.canvas.prediction(x, y)) as i64,
        };
        Some(
            (
                plane,
                Reader {
                    c,
                    models: TreeModels {
                        split: r.models.split,
                        a: models_a,
                        b: models_b,
                        c: models_c,
                    },
                    canvas: r.canvas.paint(plane, x, y, n),
                },
            ),
        )
    } else {
        None
    }
}

/// Read a tree over the square range `(x, y, n)`, if all its leaves lie inside
/// the image.
pub open spec fn read_tree(
    r: Reader,
    x: int,
    y: int,
    n: int,
    depth: nat,
    prev_split: bool,
) -> Option<(QuadTree, Reader)>
    decreases n,
{
    let (split, r) = read_split(r, n, depth, prev_split);
    if !split || n <= 1 {
        match read_leaf(r, x, y, n) {
            None => None,
            Some((plane, r)) => Some((QuadTree::Leaf(plane), r)),
        }
    } else {
        let m = half(n);
        match read_tree(r, x, y, m, depth + 1, false) {
            None => None,
            Some((q0, r)) => match read_tree(r, x, y + m, m, depth + 1, q0 is Split) {
                None => None,
                Some((q1, r)) => match read_tree(r, x + m, y, m, depth + 1, q1 is Split) {
                    None => None,
                    Some((q2, r)) => match read_tree(
                        r,
                        x + m,
                        y + m,
                        m,
                        depth + 1,
                        q2 is Split,
                    ) {
                        None => None,
                        Some((q3, r)) => Some(
                            (
                                QuadTree::Split(
                                    Box::new(q0),
                                    Box::new(q1),
                                    Box::new(q2),
                                    Box::new(q3),
                                ),
                                r,
                            ),
                        ),
                    },
                },
            },
        }
    }
}

proof fn lemma_write_split(w: Writer, n: int, depth: nat, prev_split: bool, bit: bool)
    requires
        w.wf(),
    ensures
        write_split(w, n, depth, prev_split, bit).wf(),
        w.st.len <= write_split(w, n, depth, prev_split, bit).st.len <= w.st.len + 1,
        write_split(w, n, depth, prev_split, bit).canvas == w.canvas,
{
    reveal(write_split);
    lemma_code_at(w.st, w.models.split, split_model(depth, prev_split), bit);
}

proof fn lemma_write_signed(st: Interval, models: Gamma, value: int)
    requires
        st.wide(),
        models.wf(),
        i64::MIN <= value <= i64::MAX,
    ensures
        ({
            let (next, adapted) = write_signed(st, models, value);
            &&& next.wide()
            &&& st.len <= next.len <= st.len + 128
            &&& adapted.wf()
        }),
{
    lemma_write_value(st, models, fold_sign(value) as nat);
}

proof fn lemma_write_leaf(w: Writer, plane: Plane, x: int, y: int, n: int)
    requires
        w.wf(),
    ensures
        write_leaf(w, plane, x, y, n).wf(),
        w.st.len <= write_leaf(w, plane, x, y, n).st.len <= w.st.len + 384,
        write_leaf(w, plane, x, y, n).canvas == w.canvas.paint(plane, x, y, n),
{
    reveal(write_leaf);
    lemma_write_signed(w.st, w.models.a, plane.a as int);
    let (st, a) = write_signed(w.st, w.models.a, plane.a as int);
    lemma_write_signed(st, w.models.b, plane.b as int);
    let (st, b) = write_signed(st, w.models.b, plane.b as int);
    lemma_write_signed(st, w.models.c, wrap(plane.c - w.canvas.prediction(x, y)));
}

/// Writing a tree keeps the encoder well formed, only appends bytes, and costs
/// at most 386 of them per leaf.
pub proof fn lemma_write_tree(
    w: Writer,
    tree: QuadTree,
    x: int,
    y: int,
    n: int,
    depth: nat,
    prev_split: bool,
)
    requires
        w.wf(),
    ensures
        ({
            let out = write_tree(w, tree, x, y, n, depth, prev_split);
            &&& out.wf()
            &&& w.st.len <= out.st.len
            &&& out.st.len + 1 <= w.st.len + 386 * tree.leaf_count()
            &&& out.canvas.width == w.canvas.width
            &&& out.canvas.pixels.len() == w.canvas.pixels.len()
        }),
    decreases tree,
{
    lemma_write_split(w, n, depth, prev_split, tree is Split);
    let w = write_split(w, n, depth, prev_split, tree is Split);
    match tree {
        QuadTree::Leaf(plane) => {
            lemma_write_leaf(w, plane, x, y, n);
        },
        QuadTree::Split(q0, q1, q2, q3) => {
            let m = half(n);
            lemma_write_tree(w, *q0, x, y, m, depth + 1, false);
            let w = write_tree(w, *q0, x, y, m, depth + 1, false);
            lemma_write_tree(w, *q1, x, y + m, m, depth + 1, *q0 is Split);
            let w = write_tree(w, *q1, x, y + m, m, depth + 1, *q0 is Split);
            lemma_write_tree(w, *q2, x + m, y, m, depth + 1, *q1 is Split);
            let w = write_tree(w, *q2, x + m, y, m, depth + 1, *q1 is Split);
            lemma_write_tree(w, *q3, x + m, y + m, m, depth + 1, *q2 is Split);
        },
    }
}

/// Taking a number away and adding it again, both wrapped, changes nothing.
proof fn lemma_wrap_back(value: i64, by: int)
    ensures
        wrap(wrap(value - by) + by) == value,
        i64::MIN <= wrap(value - by) <= i64::MAX,
{
}

/// A decoder of bytes that fall into the interval reached by writing a leaf
/// reads that leaf, and stays in step.
proof fn lemma_leaf_follows(w: Writer, plane: Plane, x: int, y: int, n: int, s: Seq<u8>)
    requires
        w.wf(),
        inside(w.canvas.pixels.len(), w.canvas.width, x, y, n),
        write_leaf(w, plane, x, y, n).st.covers(s),
    ensures
        w.st.covers(s),
        read_leaf(w.reader(s), x, y, n) == Some((plane, write_leaf(w, plane, x, y, n).reader(s))),
{
    reveal(write_leaf);
    reveal(read_leaf);
    let residual = wrap(plane.c - w.canvas.prediction(x, y)) as i64;
    let (st0, a) = write_signed(w.st, w.models.a, plane.a as int);
    let (st1, b) = write_signed(st0, w.models.b, plane.b as int);
    lemma_write_signed(w.st, w.models.a, plane.a as int);
    lemma_write_signed(st0, w.models.b, plane.b as int);
    lemma_signed_follows(st1, w.models.c, residual, s);
    lemma_signed_follows(st0, w.models.b, plane.b, s);
    lemma_signed_follows(w.st, w.models.a, plane.a, s);
    lemma_wrap_back(plane.c, w.canvas.prediction(x, y));
}

/// The same for a split bit, which a single pixel has not.
proof fn lemma_split_follows(
    w: Writer,
    n: int,
    depth: nat,
    prev_split: bool,
    bit: bool,
    s: Seq<u8>,
)
    requires
        w.wf(),
        bit ==> n > 1,
        write_split(w, n, depth, prev_split, bit).st.covers(s),
    ensures
        w.st.covers(s),
        read_split(w.reader(s), n, depth, prev_split) == (
            bit,
            write_split(w, n, depth, prev_split, bit).reader(s),
        ),
{
    reveal(write_split);
    reveal(read_split);
    if n > 1 {
        lemma_code_at_follows(w.st, w.models.split, split_model(depth, prev_split), bit, s);
    }
}

/// A decoder of bytes that fall into the interval reached by writing a tree
/// reads that tree, and stays in step.
pub proof fn lemma_tree_follows(
    w: Writer,
    tree: QuadTree,
    x: int,
    y: int,
    n: int,
    depth: nat,
    prev_split: bool,
    s: Seq<u8>,
)
    requires
        w.wf(),
        tree.divisible(n),
        tree.fits(w.canvas.pixels.len(), w.canvas.width, x, y, n),
        write_tree(w, tree, x, y, n, depth, prev_split).st.covers(s),
    ensures
        w.st.covers(s),
        read_tree(w.reader(s), x, y, n, depth, prev_split) == Some(
            (tree, write_tree(w, tree, x, y, n, depth, prev_split).reader(s)),
        ),
    decreases tree,
{
    let start = w;
    lemma_write_split(w, n, depth, prev_split, tree is Split);
    let w = write_split(w, n, depth, prev_split, tree is Split);
    match tree {
        QuadTree::Leaf(plane) => {
            lemma_leaf_follows(w, plane, x, y, n, s);
        },
        QuadTree::Split(q0, q1, q2, q3) => {
            let m = half(n);
            lemma_write_tree(w, *q0, x, y, m, depth + 1, false);
            let w0 = write_tree(w, *q0, x, y, m, depth + 1, false);
            lemma_write_tree(w0, *q1, x, y + m, m, depth + 1, *q0 is Split);
            let w1 = write_tree(w0, *q1, x, y + m, m, depth + 1, *q0 is Split);
            lemma_write_tree(w1, *q2, x + m, y, m, depth + 1, *q1 is Split);
            let w2 = write_tree(w1, *q2, x + m, y, m, depth + 1, *q1 is Split);
            lemma_tree_follows(w2, *q3, x + m, y + m, m, depth + 1, *q2 is Split, s);
            lemma_tree_follows(w1, *q2, x + m, y, m, depth + 1, *q1 is Split, s);
            lemma_tree_follows(w0, *q1, x, y + m, m, depth + 1, *q0 is Split, s);
            lemma_tree_follows(w, *q0, x, y, m, depth + 1, false, s);
        },
    }
    lemma_split_follows(start, n, depth, prev_split, tree is Split, s);
}

/// The decoder of a tree ends where its encoder ended. From whatever models
/// and canvas a tree is written into a fresh coder, reading the bytes that the
/// coder is flushed to, from the same models and canvas, gives the same tree,
/// models and reconstructed pixels, and takes in every byte.
pub proof fn law_tree_round_trips(
    models: TreeModels,
    canvas: Canvas,
    tree: QuadTree,
    x: int,
    y: int,
    n: int,
    depth: nat,
    prev_split: bool,
    bytes: Seq<u8>,
)
    requires
        models.wf(),
        canvas.wf(),
        tree.divisible(n),
        tree.fits(canvas.pixels.len(), canvas.width, x, y, n),
        spells(
            bytes,
            write_tree(
                Writer { st: Interval::start(), models, canvas },
                tree,
                x,
                y,
                n,
                depth,
                prev_split,
            ).st,
        ),
    ensures
        ({
            let written = write_tree(
                Writer { st: Interval::start(), models, canvas },
                tree,
                x,
                y,
                n,
                depth,
                prev_split,
            );
            &&& read_tree(
                Reader { c: Cursor::start(bytes), models, canvas },
                x,
                y,
                n,
                depth,
                prev_split,
            ) matches Some((read, end))
            &&& read == tree
            &&& end.models == written.models
            &&& end.canvas == written.canvas
            &&& end.c.rest.len() == 0
        }),
{
    let w = Writer { st: Interval::start(), models, canvas };
    lemma_write_tree(w, tree, x, y, n, depth, prev_split);
    lemma_low_end_covered(write_tree(w, tree, x, y, n, depth, prev_split).st, bytes);
    lemma_tree_follows(w, tree, x, y, n, depth, prev_split, bytes);
    lemma_start_follows(bytes);
}

/// Painting two lists of leaves is painting the one after the other.
pub proof fn lemma_paint_all_concat(image: Seq<u8>, width: nat, a: Seq<Leaf>, b: Seq<Leaf>)
    ensures
        paint_all(image, width, a + b) == paint_all(paint_all(image, width, a), width, b),
    decreases b.len(),
{
    if b.len() == 0 {
        assert(a + b =~= a);
    } else {
        lemma_paint_all_concat(image, width, a, b.drop_last());
        assert((a + b).drop_last() =~= a + b.drop_last());
        assert((a + b).last() == b.last());
    }
}

/// Coding a tree paints its leaves, depth first.
pub proof fn lemma_tree_paints(
    w: Writer,
    tree: QuadTree,
    x: int,
    y: int,
    n: int,
    depth: nat,
    prev_split: bool,
)
    requires
        w.wf(),
        tree.divisible(n),
        0 <= x,
        0 <= y,
        0 <= n,
        x + 2 * n <= usize::MAX,
        y + 2 * n <= usize::MAX,
    ensures
        write_tree(w, tree, x, y, n, depth, prev_split).canvas.pixels == paint_all(
            w.canvas.pixels,
            w.canvas.width,
            tree.leaves(x, y, n),
        ),
        write_tree(w, tree, x, y, n, depth, prev_split).canvas.width == w.canvas.width,
    decreases tree,
{
    lemma_write_split(w, n, depth, prev_split, tree is Split);
    let width = w.canvas.width;
    let image = w.canvas.pixels;
    let w = write_split(w, n, depth, prev_split, tree is Split);
    match tree {
        QuadTree::Leaf(plane) => {
            lemma_write_leaf(w, plane, x, y, n);
            let leaves = tree.leaves(x, y, n);
            assert(leaves.drop_last() =~= Seq::<Leaf>::empty());
            assert(paint_all(image, width, Seq::<Leaf>::empty()) == image);
            let leaf = leaves.last();
            assert(leaf.x as int == x && leaf.y as int == y && leaf.n as int == n);
        },
        QuadTree::Split(q0, q1, q2, q3) => {
            let m = half(n);
            lemma_half(n);
            let w0 = write_tree(w, *q0, x, y, m, depth + 1, false);
            let w1 = write_tree(w0, *q1, x, y + m, m, depth + 1, *q0 is Split);
            let w2 = write_tree(w1, *q2, x + m, y, m, depth + 1, *q1 is Split);
            lemma_write_tree(w, *q0, x, y, m, depth + 1, false);
            lemma_write_tree(w0, *q1, x, y + m, m, depth + 1, *q0 is Split);
            lemma_write_tree(w1, *q2, x + m, y, m, depth + 1, *q1 is Split);
            lemma_tree_paints(w, *q0, x, y, m, depth + 1, false);
            lemma_tree_paints(w0, *q1, x, y + m, m, depth + 1, *q0 is Split);
            lemma_tree_paints(w1, *q2, x + m, y, m, depth + 1, *q1 is Split);
            lemma_tree_paints(w2, *q3, x + m, y + m, m, depth + 1, *q2 is Split);
            let (v0, v1, v2, v3) = (
                q0.leaves(x, y, m),
                q1.leaves(x, y + m, m),
                q2.leaves(x + m, y, m),
                q3.leaves(x + m, y + m, m),
            );
            lemma_paint_all_concat(image, width, v0 + v1 + v2, v3);
            lemma_paint_all_concat(image, width, v0 + v1, v2);
            lemma_paint_all_concat(image, width, v0, v1);
        },
    }
}

/// Models for one plane's quadtree.
pub struct PlaneModels {
    /// Split decision, indexed by `depth * 2 + previous_sibling_split`.
    split: [BitModel; SPLIT_MODELS],
    a: IntModels,
    b: IntModels,
    c: IntModels,
}

impl View for PlaneModels {
    type V = TreeModels;

    closed spec fn view(&self) -> TreeModels {
        TreeModels {
            split: probabilities(self.split@),
            a: self.a@,
            b: self.b@,
            c: self.c@,
        }
    }
}

impl PlaneModels {
    pub fn new() -> (models: Self)
        ensures
            models@ == TreeModels::fresh(),
            models@.wf(),
    {
        let model = BitModel::new();
        let models = PlaneModels {
            split: [model; SPLIT_MODELS],
            a: IntModels::new(),
            b: IntModels::new(),
            c: IntModels::new(),
        };
        assert(models@.split =~= TreeModels::fresh().split);
        models
    }

    fn split_index(&self, depth: usize, prev_split: bool) -> (index: usize)
        ensures
            index == split_model(depth as nat, prev_split),
            index < SPLIT_MODELS,
    {
        let level = if depth < MAX_DEPTH {
            depth
        } else {
            MAX_DEPTH - 1
        };
        level * 2 + (if prev_split {
            1
        } else {
            0
        })
    }
}

/// A square range whose quadrants can be addressed.
pub open spec fn addressable(x: int, y: int, n: int) -> bool {
    &&& x + 2 * n <= usize::MAX
    &&& y + 2 * n <= usize::MAX
    &&& n <= i64::MAX
}

/// The encoder state of a tree's writer.
pub open spec fn writer_of(enc: &Encoder, models: &PlaneModels, recon: &Recon) -> Writer {
    Writer { st: enc.interval(), models: models@, canvas: recon@ }
}

/// Encode one leaf's plane, and paint it.
fn encode_leaf(
    enc: &mut Encoder,
    models: &mut PlaneModels,
    recon: &mut Recon,
    plane: &Plane,
    x: usize,
    y: usize,
    n: usize,
)
    requires
        old(enc).wf(),
        old(models)@.wf(),
        old(recon)@.wf(),
        inside(old(recon)@.pixels.len(), old(recon)@.width, x as int, y as int, n as int),
        n == 0 ==> x == 0 && y == 0,
        n <= old(recon)@.width,
        n <= i64::MAX,
        write_leaf(
            writer_of(old(enc), old(models), old(recon)),
            *plane,
            x as int,
            y as int,
            n as int,
        ).st.len <= u64::MAX,
    ensures
        final(enc).wf(),
        final(models)@.wf(),
        final(recon)@.wf(),
        writer_of(final(enc), final(models), final(recon)) == write_leaf(
            writer_of(old(enc), old(models), old(recon)),
            *plane,
            x as int,
            y as int,
            n as int,
        ),
{
    proof {
        reveal(write_leaf);
        enc.lemma_wide();
        let (st0, a) = write_signed(enc.interval(), models@.a, plane.a as int);
        let (st1, b) = write_signed(st0, models@.b, plane.b as int);
        lemma_write_signed(enc.interval(), models@.a, plane.a as int);
        lemma_write_signed(st0, models@.b, plane.b as int);
        lemma_write_signed(st1, models@.c, wrap(plane.c - recon@.prediction(x as int, y as int)));
        if n > 0 {
            lemma_corner(recon@, x as int, y as int, n as int);
        }
    }
    let pred = recon.predict(x, y);
    models.a.encode_signed(enc, plane.a);
    models.b.encode_signed(enc, plane.b);
    let residual: i64 = plane.c.wrapping_sub(pred);
    assert(residual == wrap(plane.c - pred));
    models.c.encode_signed(enc, residual);
    recon.paint(plane, x, y, n);
}

/// The top-left pixel of a region inside the image is one of its pixels.
proof fn lemma_corner(canvas: Canvas, x: int, y: int, n: int)
    requires
        inside(canvas.pixels.len(), canvas.width, x, y, n),
        0 <= x,
        0 <= y,
        0 < n,
    ensures
        x * canvas.width + y < canvas.pixels.len(),
{
    lemma_pixel_inside(canvas.pixels.len(), canvas.width, x, y, n, 0, 0);
}

/// Encode one plane's leaves. `idx` walks the DFS-ordered leaf list.
pub fn encode_node(
    enc: &mut Encoder,
    models: &mut PlaneModels,
    recon: &mut Recon,
    leaves: &[Leaf],
    idx: &mut usize,
    x: usize,
    y: usize,
    n: usize,
    depth: usize,
    prev_split: bool,
    Ghost(tree): Ghost<QuadTree>,
) -> (is_leaf: bool)
    requires
        old(enc).wf(),
        old(models)@.wf(),
        old(recon)@.wf(),
        *old(idx) <= leaves@.len(),
        starts(leaves@.skip(*old(idx) as int), tree.leaves(x as int, y as int, n as int)),
        tree.divisible(n as int),
        tree.fits(old(recon)@.pixels.len(), old(recon)@.width, x as int, y as int, n as int),
        n == 0 ==> x == 0 && y == 0,
        n <= old(recon)@.width,
        addressable(x as int, y as int, n as int),
        depth + n <= usize::MAX,
        write_tree(
            writer_of(old(enc), old(models), old(recon)),
            tree,
            x as int,
            y as int,
            n as int,
            depth as nat,
            prev_split,
        ).st.len <= u64::MAX,
    ensures
        final(enc).wf(),
        final(models)@.wf(),
        final(recon)@.wf(),
        *final(idx) == *old(idx) + tree.leaf_count(),
        *final(idx) <= leaves@.len(),
        writer_of(final(enc), final(models), final(recon)) == write_tree(
            writer_of(old(enc), old(models), old(recon)),
            tree,
            x as int,
            y as int,
            n as int,
            depth as nat,
            prev_split,
        ),
        is_leaf == (tree is Leaf),
    decreases tree,
{
    let ghost start = writer_of(enc, models, recon);
    let ghost rest = leaves@.skip(*idx as int);
    let ghost own = tree.leaves(x as int, y as int, n as int);
    let ghost w = write_split(start, n as int, depth as nat, prev_split, tree is Split);
    let ghost all = write_tree(
        start,
        tree,
        x as int,
        y as int,
        n as int,
        depth as nat,
        prev_split,
    );
    proof {
        enc.lemma_wide();
        lemma_first_leaf(tree, x as int, y as int, n as int);
        lemma_leaves_len(tree, x as int, y as int, n as int);
        assert(rest[0] == rest.take(own.len() as int)[0]);
        lemma_write_split(start, n as int, depth as nat, prev_split, tree is Split);
        lemma_written_grows(w, tree, x as int, y as int, n as int, depth as nat);
    }
    let leaf = leaves[*idx];
    let is_leaf = leaf.x == x && leaf.y == y && leaf.n == n;
    assert(is_leaf == (tree is Leaf));

    if n > 1 {
        let ctx = models.split_index(depth, prev_split);
        proof {
            reveal(write_split);
        }
        encode_at(
            enc,
            &mut models.split,
            ctx,
            if is_leaf {
                0
            } else {
                1
            },
        );
    }
    assert(writer_of(enc, models, recon) == w) by {
        reveal(write_split);
    }

    if is_leaf {
        *idx = *idx + 1;
        encode_leaf(enc, models, recon, &leaf.plane, x, y, n);
        true
    } else {
        let quads = split_range_into_quad(x, y, n);
        let (qx0, qy0, m) = quads[0];
        let (qx1, qy1, m1) = quads[1];
        let (qx2, qy2, m2) = quads[2];
        let (qx3, qy3, m3) = quads[3];
        let ghost q0 = *tree->Split_0;
        let ghost q1 = *tree->Split_1;
        let ghost q2 = *tree->Split_2;
        let ghost q3 = *tree->Split_3;
        proof {
            lemma_half(n as int);
            let h = m as int;
            let (v0, v1, v2, v3) = (
                q0.leaves(x as int, y as int, h),
                q1.leaves(x as int, y + h, h),
                q2.leaves(x + h, y as int, h),
                q3.leaves(x + h, y + h, h),
            );
            lemma_starts_concat(rest, v0 + v1 + v2, v3);
            lemma_starts_concat(rest, v0 + v1, v2);
            lemma_starts_concat(rest, v0, v1);
            lemma_leaves_len(q0, x as int, y as int, h);
            lemma_leaves_len(q1, x as int, y + h, h);
            lemma_leaves_len(q2, x + h, y as int, h);
            let at = *idx as int;
            let k1 = at + v0.len();
            let k2 = k1 + v1.len();
            let k3 = k2 + v2.len();
            assert(rest.skip(v0.len() as int) =~= leaves@.skip(k1));
            assert(rest.skip((v0 + v1).len() as int) =~= leaves@.skip(k2));
            assert(rest.skip((v0 + v1 + v2).len() as int) =~= leaves@.skip(k3));
        }
        let leaf0 = encode_node(
            enc,
            models,
            recon,
            leaves,
            idx,
            qx0,
            qy0,
            m,
            depth + 1,
            false,
            Ghost(q0),
        );
        let leaf1 = encode_node(
            enc,
            models,
            recon,
            leaves,
            idx,
            qx1,
            qy1,
            m1,
            depth + 1,
            !leaf0,
            Ghost(q1),
        );
        let leaf2 = encode_node(
            enc,
            models,
            recon,
            leaves,
            idx,
            qx2,
            qy2,
            m2,
            depth + 1,
            !leaf1,
            Ghost(q2),
        );
        encode_node(
            enc,
            models,
            recon,
            leaves,
            idx,
            qx3,
            qy3,
            m3,
            depth + 1,
            !leaf2,
            Ghost(q3),
        );
        false
    }
}

/// The encoder after each quadrant of a tree stays within what the whole tree
/// takes.
proof fn lemma_written_grows(w: Writer, tree: QuadTree, x: int, y: int, n: int, depth: nat)
    requires
        w.wf(),
    ensures
        match tree {
            QuadTree::Leaf(plane) => w.st.len <= write_leaf(w, plane, x, y, n).st.len,
            QuadTree::Split(q0, q1, q2, q3) => {
                let m = half(n);
                let w0 = write_tree(w, *q0, x, y, m, depth + 1, false);
                let w1 = write_tree(w0, *q1, x, y + m, m, depth + 1, *q0 is Split);
                let w2 = write_tree(w1, *q2, x + m, y, m, depth + 1, *q1 is Split);
                let w3 = write_tree(w2, *q3, x + m, y + m, m, depth + 1, *q2 is Split);
                &&& w.st.len <= w0.st.len <= w1.st.len <= w2.st.len <= w3.st.len
                &&& w0.canvas.width == w.canvas.width
                &&& w0.canvas.pixels.len() == w.canvas.pixels.len()
                &&& w1.canvas.width == w.canvas.width
                &&& w1.canvas.pixels.len() == w.canvas.pixels.len()
                &&& w2.canvas.width == w.canvas.width
                &&& w2.canvas.pixels.len() == w.canvas.pixels.len()
            },
        },
{
    match tree {
        QuadTree::Leaf(plane) => {
            lemma_write_leaf(w, plane, x, y, n);
        },
        QuadTree::Split(q0, q1, q2, q3) => {
            let m = half(n);
            lemma_write_tree(w, *q0, x, y, m, depth + 1, false);
            let w0 = write_tree(w, *q0, x, y, m, depth + 1, false);
            lemma_write_tree(w0, *q1, x, y + m, m, depth + 1, *q0 is Split);
            let w1 = write_tree(w0, *q1, x, y + m, m, depth + 1, *q0 is Split);
            lemma_write_tree(w1, *q2, x + m, y, m, depth + 1, *q1 is Split);
            let w2 = write_tree(w1, *q2, x + m, y, m, depth + 1, *q1 is Split);
            lemma_write_tree(w2, *q3, x + m, y + m, m, depth + 1, *q2 is Split);
        },
    }
}

/// The decoder state of a tree's reader.
pub open spec fn reader_of(dec: &Decoder, models: &PlaneModels, recon: &Recon) -> Reader {
    Reader { c: dec.cursor(), models: models@, canvas: recon@ }
}

/// Decode one leaf's plane, and paint it; `false` if it does not lie inside
/// the image.
fn decode_leaf(
    dec: &mut Decoder,
    models: &mut PlaneModels,
    recon: &mut Recon,
    x: usize,
    y: usize,
    n: usize,
) -> (painted: bool)
    requires
        old(dec).wf(),
        old(models)@.wf(),
        old(recon)@.wf(),
        n == 0 ==> x == 0 && y == 0,
        n <= old(recon)@.width,
        n <= i64::MAX,
    ensures
        final(dec).wf(),
        final(models)@.wf(),
        final(recon)@.wf(),
        final(recon)@.width == old(recon)@.width,
        match read_leaf(
            reader_of(old(dec), old(models), old(recon)),
            x as int,
            y as int,
            n as int,
        ) {
            None => !painted,
            Some((plane, reader)) => painted && reader == reader_of(
                final(dec),
                final(models),
                final(recon),
            ),
        },
{
    proof {
        reveal(read_leaf);
    }
    if !is_inside(recon.len(), recon.width(), x, y, n) {
        return false;
    }
    proof {
        if n > 0 {
            lemma_corner(recon@, x as int, y as int, n as int);
        }
    }
    let a = models.a.decode_signed(dec);
    let b = models.b.decode_signed(dec);
    let pred = recon.predict(x, y);
    let residual = models.c.decode_signed(dec);
    let c: i64 = residual.wrapping_add(pred);
    assert(c == wrap(residual + pred));
    recon.paint(&Plane { a, b, c }, x, y, n);
    true
}

/// Decode one plane's tree; `None` if a leaf does not lie inside the image,
/// else whether the tree is a single leaf.
pub fn decode_node(
    dec: &mut Decoder,
    models: &mut PlaneModels,
    recon: &mut Recon,
    x: usize,
    y: usize,
    n: usize,
    depth: usize,
    prev_split: bool,
) -> (is_leaf: Option<bool>)
    requires
        old(dec).wf(),
        old(models)@.wf(),
        old(recon)@.wf(),
        n == 0 ==> x == 0 && y == 0,
        n <= old(recon)@.width,
        addressable(x as int, y as int, n as int),
        depth + n <= usize::MAX,
    ensures
        final(dec).wf(),
        final(models)@.wf(),
        final(recon)@.wf(),
        final(recon)@.width == old(recon)@.width,
        match read_tree(
            reader_of(old(dec), old(models), old(recon)),
            x as int,
            y as int,
            n as int,
            depth as nat,
            prev_split,
        ) {
            None => is_leaf is None,
            Some((tree, reader)) => {
                &&& is_leaf == Some(tree is Leaf)
                &&& reader == reader_of(final(dec), final(models), final(recon))
            },
        },
    decreases n,
{
    let ghost start = reader_of(dec, models, recon);
    let is_leaf = if n <= 1 {
        true
    } else {
        let ctx = models.split_index(depth, prev_split);
        decode_at(dec, &mut models.split, ctx) == 0
    };
    assert(read_split(start, n as int, depth as nat, prev_split) == (
        !is_leaf,
        reader_of(dec, models, recon),
    )) by {
        reveal(read_split);
    }

    if is_leaf {
        if decode_leaf(dec, models, recon, x, y, n) {
            Some(true)
        } else {
            None
        }
    } else {
        proof {
            lemma_half(n as int);
        }
        let quads = split_range_into_quad(x, y, n);
        let (qx0, qy0, m) = quads[0];
        let (qx1, qy1, m1) = quads[1];
        let (qx2, qy2, m2) = quads[2];
        let (qx3, qy3, m3) = quads[3];
        let leaf0 = match decode_node(dec, models, recon, qx0, qy0, m, depth + 1, false) {
            Some(leaf) => leaf,
            None => return None,
        };
        let leaf1 = match decode_node(dec, models, recon, qx1, qy1, m1, depth + 1, !leaf0) {
            Some(leaf) => leaf,
            None => return None,
        };
        let leaf2 = match decode_node(dec, models, recon, qx2, qy2, m2, depth + 1, !leaf1) {
            Some(leaf) => leaf,
            None => return None,
        };
        match decode_node(dec, models, recon, qx3, qy3, m3, depth + 1, !leaf2) {
            Some(_) => Some(false),
            None => None,
        }
    }
}

/// The writer of a plane that has not been written yet.
pub open spec fn plane_writer(st: Interval, width: nat, height: nat) -> Writer {
    Writer { st, models: TreeModels::fresh(), canvas: Canvas::empty(width, height) }
}

/// Write one plane's tree with fresh models.
pub open spec fn write_plane(
    st: Interval,
    tree: QuadTree,
    width: nat,
    height: nat,
    n: int,
) -> Interval {
    write_tree(plane_writer(st, width, height), tree, 0, 0, n, 0, false).st
}

/// Read one plane's tree with fresh models: the tree, the pixels it paints, and
/// the reader after it.
pub open spec fn read_plane(c: Cursor, width: nat, height: nat, n: int) -> Option<
    (QuadTree, Seq<u8>, Cursor),
> {
    let r = Reader { c, models: TreeModels::fresh(), canvas: Canvas::empty(width, height) };
    match read_tree(r, 0, 0, n, 0, false) {
        None => None,
        Some((tree, r)) => Some((tree, r.canvas.pixels, r.c)),
    }
}

/// Writing a plane keeps the interval wide, and costs at most 386 bytes per
/// leaf.
pub proof fn lemma_write_plane(st: Interval, tree: QuadTree, width: nat, height: nat, n: int)
    requires
        st.wide(),
    ensures
        write_plane(st, tree, width, height, n).wide(),
        st.len <= write_plane(st, tree, width, height, n).len <= st.len + 386 * tree.leaf_count(),
{
    lemma_write_tree(plane_writer(st, width, height), tree, 0, 0, n, 0, false);
}

/// A reader of bytes that fall into the interval reached by writing a plane
/// reads its tree, stays in step, and has painted the tree's leaves.
pub proof fn lemma_plane_follows(
    st: Interval,
    tree: QuadTree,
    width: nat,
    height: nat,
    n: int,
    s: Seq<u8>,
)
    requires
        st.wide(),
        tree.divisible(n),
        tree.fits(width * height, width, 0, 0, n),
        0 <= n,
        addressable(0, 0, n),
        write_plane(st, tree, width, height, n).covers(s),
    ensures
        st.covers(s),
        read_plane(st.cursor(s), width, height, n) == Some(
            (
                tree,
                paint_all(blank(width, height), width, tree.leaves(0, 0, n)),
                write_plane(st, tree, width, height, n).cursor(s),
            ),
        ),
{
    let w = plane_writer(st, width, height);
    lemma_tree_follows(w, tree, 0, 0, n, 0, false, s);
    lemma_tree_paints(w, tree, 0, 0, n, 0, false);
}

/// Encode one plane of `n x n` tiles, appending to the shared coder.
///
/// `leaves` has to be the depth-first list of the leaves of some tree, all of
/// them inside the plane.
pub fn encode_plane(enc: &mut Encoder, leaves: &[Leaf], w: usize, h: usize, n: usize)
    requires
        old(enc).wf(),
        w * h <= usize::MAX,
        n <= w,
        addressable(0, 0, n as int),
        exists|tree: QuadTree| #[trigger]
            is_leaf_list(leaves@, tree, n as int) && tree.fits(
                (w * h) as nat,
                w as nat,
                0,
                0,
                n as int,
            ),
        old(enc).interval().len + 386 * leaves@.len() <= u64::MAX,
    ensures
        final(enc).wf(),
        forall|tree: QuadTree| #[trigger]
            is_leaf_list(leaves@, tree, n as int) ==> final(enc).interval() == write_plane(
                old(enc).interval(),
                tree,
                w as nat,
                h as nat,
                n as int,
            ),
{
    let ghost start = enc.interval();
    let ghost tree = choose|tree: QuadTree| #[trigger]
        is_leaf_list(leaves@, tree, n as int) && tree.fits((w * h) as nat, w as nat, 0, 0, n as int);
    let mut models = PlaneModels::new();
    let mut recon = Recon::new(w, h);
    let mut idx: usize = 0;
    proof {
        enc.lemma_wide();
        lemma_write_tree(
            plane_writer(start, w as nat, h as nat),
            tree,
            0,
            0,
            n as int,
            0,
            false,
        );
        lemma_leaves_len(tree, 0, 0, n as int);
        assert(leaves@.skip(0) =~= leaves@);
        assert(leaves@.take(leaves@.len() as int) =~= leaves@);
    }
    encode_node(enc, &mut models, &mut recon, leaves, &mut idx, 0, 0, n, 0, false, Ghost(tree));
    proof {
        assert forall|other: QuadTree| #[trigger]
            is_leaf_list(leaves@, other, n as int) implies other == tree by {
            lemma_leaves_unique(other, tree, 0, 0, n as int, leaves@);
        }
    }
}

/// `leaves` lists the leaves of `tree`, which has a square of `n` pixels an
/// edge at the top-left corner.
pub open spec fn is_leaf_list(leaves: Seq<Leaf>, tree: QuadTree, n: int) -> bool {
    &&& tree.divisible(n)
    &&& leaves == tree.leaves(0, 0, n)
}

/// Decode one plane of `n x n` tiles from the shared coder; `None` if a leaf
/// does not lie inside the plane.
pub fn decode_plane(dec: &mut Decoder, w: usize, h: usize, n: usize) -> (plane: Option<Vec<u8>>)
    requires
        old(dec).wf(),
        w * h <= usize::MAX,
        n <= w,
        addressable(0, 0, n as int),
    ensures
        final(dec).wf(),
        match read_plane(old(dec).cursor(), w as nat, h as nat, n as int) {
            None => plane is None,
            Some((tree, pixels, cursor)) => {
                &&& plane matches Some(read) && read@ == pixels
                &&& final(dec).cursor() == cursor
            },
        },
{
    let mut models = PlaneModels::new();
    let mut recon = Recon::new(w, h);
    match decode_node(dec, &mut models, &mut recon, 0, 0, n, 0, false) {
        Some(_) => Some(recon.into_pixels()),
        None => None,
    }
}

/// A split decision has a model of its own for each of the first 24 depths, and
/// for whether the sibling before was split; deeper ones share the last.
pub proof fn law_models_of_split_decisions(depth: nat, other: nat, split: bool, before: bool)
    ensures
        depth < 24 ==> split_model(depth, false) == 2 * depth,
        depth >= 23 ==> split_model(depth, false) == 46,
        split_model(depth, true) == split_model(depth, false) + 1,
        0 <= split_model(depth, split) < 48,
        depth < 24 && other < 24 && split_model(depth, split) == split_model(other, before)
            ==> depth == other && split == before,
{
}

/// Every model of a plane starts at one half, and nothing of it is painted.
pub proof fn law_planes_start_afresh(
    st: Interval,
    tree: QuadTree,
    width: nat,
    height: nat,
    n: int,
    k: int,
)
    ensures
        ({
            let fresh = TreeModels::fresh();
            let canvas = Canvas::empty(width, height);
            &&& fresh.split.len() == 48
            &&& 0 <= k < 48 ==> fresh.split[k] == 1024
            &&& fresh.a == Gamma::fresh() && fresh.b == Gamma::fresh() && fresh.c
                == Gamma::fresh()
            &&& write_plane(st, tree, width, height, n) == write_tree(
                Writer { st, models: fresh, canvas },
                tree,
                0,
                0,
                n,
                0,
                false,
            ).st
        }),
{
}

/// A leaf is written as its row slope, its column slope and the distance of its
/// constant from the prediction, wrapped to 64 bits, each with its own models;
/// the split models stay. Then it is painted.
pub proof fn law_leaf_is_three_integers(
    w: Writer,
    plane: Plane,
    x: int,
    y: int,
    n: int,
    residual: int,
)
    requires
        i64::MIN <= residual <= i64::MAX,
        (plane.c - w.canvas.prediction(x, y) - residual) % 0x1_0000_0000_0000_0000 == 0,
    ensures
        ({
            let (st0, a) = write_signed(w.st, w.models.a, plane.a as int);
            let (st1, b) = write_signed(st0, w.models.b, plane.b as int);
            let (st2, c) = write_signed(st1, w.models.c, residual);
            let out = write_leaf(w, plane, x, y, n);
            &&& out.st == st2
            &&& out.models.a == a && out.models.b == b && out.models.c == c
            &&& out.models.split == w.models.split
            &&& out.canvas == w.canvas.paint(plane, x, y, n)
        }),
{
    reveal(write_leaf);
    assert(wrap(plane.c - w.canvas.prediction(x, y)) == residual);
}

/// A split bit is written for a square of more than one pixel, and for no
/// other: a one if it is split.
pub proof fn law_split_bits(w: Writer, n: int, depth: nat, prev_split: bool, bit: bool)
    ensures
        ({
            let out = write_split(w, n, depth, prev_split, bit);
            let (st, split) = code_at(w.st, w.models.split, split_model(depth, prev_split), bit);
            &&& n <= 1 ==> out == w
            &&& n > 1 ==> out.st == st && out.models.split == split
            &&& out.models.a == w.models.a && out.models.b == w.models.b && out.models.c
                == w.models.c
            &&& out.canvas == w.canvas
        }),
{
    reveal(write_split);
}

/// A tree is written depth first: its split bit, and then its leaf, or its
/// quadrants at the corner, to the right, below and across, each told whether
/// the one before was split.
pub proof fn law_trees_are_written_depth_first(
    w: Writer,
    tree: QuadTree,
    x: int,
    y: int,
    n: int,
    m: int,
    depth: nat,
    prev_split: bool,
)
    requires
        n <= 2 * m <= n + 1,
    ensures
        ({
            let out = write_tree(w, tree, x, y, n, depth, prev_split);
            match tree {
                QuadTree::Leaf(plane) => out == write_leaf(
                    write_split(w, n, depth, prev_split, false),
                    plane,
                    x,
                    y,
                    n,
                ),
                QuadTree::Split(q0, q1, q2, q3) => {
                    let start = write_split(w, n, depth, prev_split, true);
                    let w0 = write_tree(start, *q0, x, y, m, depth + 1, false);
                    let w1 = write_tree(w0, *q1, x, y + m, m, depth + 1, *q0 is Split);
                    let w2 = write_tree(w1, *q2, x + m, y, m, depth + 1, *q1 is Split);
                    out == write_tree(w2, *q3, x + m, y + m, m, depth + 1, *q2 is Split)
                },
            }
        }),
{
}

/// A leaf is read if and only if it lies inside the image: its row slope, its
/// column slope and the distance of its constant from the prediction, wrapped
/// to 64 bits, each with its own models; the split models stay. Then it is
/// painted.
pub proof fn law_leaf_is_read_from_three_integers(r: Reader, x: int, y: int, n: int)
    ensures
        read_leaf(r, x, y, n) is Some <==> inside(
            r.canvas.pixels.len(),
            r.canvas.width,
            x,
            y,
            n,
        ),
        read_leaf(r, x, y, n) matches Some((plane, next)) ==> {
            let (a, c0, models_a) = read_signed(r.c, r.models.a);
            let (b, c1, models_b) = read_signed(c0, r.models.b);
            let (residual, c2, models_c) = read_signed(c1, r.models.c);
            &&& plane.a == a as i64
            &&& plane.b == b as i64
            &&& (residual + r.canvas.prediction(x, y) - plane.c) % 0x1_0000_0000_0000_0000 == 0
            &&& next.c == c2
            &&& next.models.split == r.models.split
            &&& next.models.a == models_a
            &&& next.models.b == models_b
            &&& next.models.c == models_c
            &&& next.canvas == r.canvas.paint(plane, x, y, n)
        },
{
    reveal(read_leaf);
}

/// A split bit is read for a square of more than one pixel, and for no other,
/// which is not split.
pub proof fn law_split_bits_are_read(r: Reader, n: int, depth: nat, prev_split: bool)
    ensures
        ({
            let (bit, c, split) = read_at(r.c, r.models.split, split_model(depth, prev_split));
            let (found, next) = read_split(r, n, depth, prev_split);
            &&& n <= 1 ==> !found && next == r
            &&& n > 1 ==> found == bit && next.c == c && next.models.split == split
            &&& next.models.a == r.models.a && next.models.b == r.models.b && next.models.c
                == r.models.c
            &&& next.canvas == r.canvas
        }),
{
    reveal(read_split);
}

/// A tree is read in the order in which it is written, if all its leaves lie
/// inside the image.
pub proof fn law_trees_are_read_depth_first(
    r: Reader,
    x: int,
    y: int,
    n: int,
    m: int,
    depth: nat,
    prev_split: bool,
)
    requires
        n <= 2 * m <= n + 1,
    ensures
        ({
            let (split, start) = read_split(r, n, depth, prev_split);
            let out = read_tree(r, x, y, n, depth, prev_split);
            let r0 = read_tree(start, x, y, m, depth + 1, false);
            let r1 = read_tree(r0->Some_0.1, x, y + m, m, depth + 1, r0->Some_0.0 is Split);
            let r2 = read_tree(r1->Some_0.1, x + m, y, m, depth + 1, r1->Some_0.0 is Split);
            let r3 = read_tree(r2->Some_0.1, x + m, y + m, m, depth + 1, r2->Some_0.0 is Split);
            let all = r0 is Some && r1 is Some && r2 is Some && r3 is Some;
            &&& !split ==> match read_leaf(start, x, y, n) {
                None => out is None,
                Some((plane, next)) => out == Some((QuadTree::Leaf(plane), next)),
            }
            &&& split && n > 1 ==> (out is Some <==> all)
            &&& split && n > 1 && all ==> out == Some(
                (
                    QuadTree::Split(
                        Box::new(r0->Some_0.0),
                        Box::new(r1->Some_0.0),
                        Box::new(r2->Some_0.0),
                        Box::new(r3->Some_0.0),
                    ),
                    r3->Some_0.1,
                ),
            )
        }),
{
    reveal(read_split);
}

/// A plane is read with models at one half, on an empty canvas.
pub proof fn law_planes_are_read_afresh(c: Cursor, width: nat, height: nat, n: int)
    ensures
        ({
            let r = Reader { c, models: TreeModels::fresh(), canvas: Canvas::empty(width, height) };
            match read_tree(r, 0, 0, n, 0, false) {
                None => read_plane(c, width, height, n) is None,
                Some((tree, end)) => read_plane(c, width, height, n) == Some(
                    (tree, end.canvas.pixels, end.c),
                ),
            }
        }),
{
}

} // verus!
