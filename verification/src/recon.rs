//! The partially reconstructed plane that both sides of the codec predict from.

use crate::canvas::{
    blank, inside, lemma_touches_places, mark_region, paint, paint_region, touch, zeros,
};
use crate::plane::Plane;
use vstd::prelude::*;

verus! {

/// A partially reconstructed plane: its width, its pixels, and which of them
/// have been painted.
pub struct Canvas {
    pub width: nat,
    pub pixels: Seq<u8>,
    pub known: Seq<bool>,
}

impl Canvas {
    /// Nothing painted yet.
    pub open spec fn empty(width: nat, height: nat) -> Canvas {
        Canvas {
            width,
            pixels: blank(width, height),
            known: Seq::new(width * height, |k: int| false),
        }
    }

    pub open spec fn wf(self) -> bool {
        self.pixels.len() == self.known.len()
    }

    /// The index of the pixel at row `x` and column `y`.
    pub open spec fn at(self, x: int, y: int) -> int {
        x * self.width + y
    }

    /// One if the pixel with index `k` may be looked at and is known.
    pub open spec fn count(self, allowed: bool, k: int) -> int {
        if allowed && self.known[k] {
            1
        } else {
            0
        }
    }

    /// The pixel with index `k` if it may be looked at and is known.
    pub open spec fn value(self, allowed: bool, k: int) -> int {
        if allowed && self.known[k] {
            self.pixels[k] as int
        } else {
            0
        }
    }

    /// The mean, rounded to nearest, of the known pixels above-left, above,
    /// above-right and left of `(x, y)`; 128 where none is known.
    #[verifier::opaque]
    pub open spec fn prediction(self, x: int, y: int) -> int {
        let count = self.count(x > 0 && y > 0, self.at(x - 1, y - 1)) + self.count(
            x > 0,
            self.at(x - 1, y),
        ) + self.count(x > 0 && y + 1 < self.width, self.at(x - 1, y + 1)) + self.count(
            y > 0,
            self.at(x, y - 1),
        );
        let sum = self.value(x > 0 && y > 0, self.at(x - 1, y - 1)) + self.value(
            x > 0,
            self.at(x - 1, y),
        ) + self.value(x > 0 && y + 1 < self.width, self.at(x - 1, y + 1)) + self.value(
            y > 0,
            self.at(x, y - 1),
        );
        if count == 0 {
            128
        } else {
            (sum + count / 2) / count
        }
    }

    /// The canvas after a plane was painted over a region.
    pub open spec fn paint(self, plane: Plane, x: int, y: int, n: int) -> Canvas {
        Canvas {
            width: self.width,
            pixels: paint(self.pixels, self.width, plane, x, y, n),
            known: touch(self.known, self.width, x, y, n),
        }
    }
}

/// The mean of up to four pixels, rounded to nearest.
fn rounded_mean(sum: i64, count: i64) -> (mean: i64)
    requires
        1 <= count <= 4,
        0 <= sum <= 255 * count,
    ensures
        mean == (sum + count / 2) / (count as int),
        0 <= mean <= 255,
{
    if count == 1 {
        assert((sum + 0) / 1 == sum);
    } else if count == 2 {
        assert(0 <= (sum + 1) / 2 <= 255);
    } else if count == 3 {
        assert(0 <= (sum + 1) / 3 <= 255);
    } else {
        assert(0 <= (sum + 2) / 4 <= 255);
    }
    (sum + count / 2) / count
}

/// A partially reconstructed plane, painted leaf by leaf as it is coded.
pub struct Recon {
    w: usize,
    buf: Vec<u8>,
    mask: Vec<bool>,
}

impl View for Recon {
    type V = Canvas;

    closed spec fn view(&self) -> Canvas {
        Canvas { width: self.w as nat, pixels: self.buf@, known: self.mask@ }
    }
}

impl Recon {
    pub fn new(w: usize, h: usize) -> (recon: Self)
        requires
            w * h <= usize::MAX,
        ensures
            recon@ == Canvas::empty(w as nat, h as nat),
            recon@.wf(),
    {
        assert(0 <= w * h) by (nonlinear_arith)
            requires
                0 <= w,
                0 <= h,
        ;
        let recon = Recon { w, buf: zeros(w * h), mask: vec![false; w * h] };
        assert(recon@.pixels =~= blank(w as nat, h as nat));
        assert(recon@.known =~= Canvas::empty(w as nat, h as nat).known);
        recon
    }

    /// Predict a leaf's constant term from the reconstructed pixels above-left,
    /// above, above-right and left of its top-left corner.
    ///
    /// `c` is the plane's value at `(x, y)`, so this is a smooth-image
    /// predictor: neighbouring pixels are a good guess for it. Because `c` is a
    /// least-squares intercept (already smoothed over the whole leaf), a plain
    /// mean beats an edge-preserving predictor like JPEG-LS's MED here.
    pub fn predict(&self, x: usize, y: usize) -> (c: i64)
        requires
            self@.wf(),
            x == 0 && y == 0 || x * self@.width + y < self@.pixels.len(),
            x > 0 ==> self@.width > 0,
        ensures
            c == self@.prediction(x as int, y as int),
            0 <= c <= 255,
    {
        let ghost (c, gx, gy) = (self@, x as int, y as int);
        let mut sum: i64 = 0;
        let mut count: i64 = 0;
        proof {
            reveal(Canvas::prediction);
            let w = self.w as int;
            assert((x - 1) * w == x * w - w) by (nonlinear_arith);
            assert(0 <= x * w) by (nonlinear_arith)
                requires
                    0 <= x,
                    0 <= w,
            ;
            assert(x > 0 ==> 0 <= (x - 1) * w) by (nonlinear_arith)
                requires
                    0 <= w,
            ;
            assert(self.buf.len() <= usize::MAX);
        }
        let ghost (s0, n0) = (
            c.value(x > 0 && y > 0, c.at(gx - 1, gy - 1)),
            c.count(x > 0 && y > 0, c.at(gx - 1, gy - 1)),
        );
        let ghost (s1, n1) = (c.value(x > 0, c.at(gx - 1, gy)), c.count(x > 0, c.at(gx - 1, gy)));
        let ghost (s2, n2) = (
            c.value(x > 0 && gy + 1 < c.width, c.at(gx - 1, gy + 1)),
            c.count(x > 0 && gy + 1 < c.width, c.at(gx - 1, gy + 1)),
        );
        let ghost (s3, n3) = (c.value(y > 0, c.at(gx, gy - 1)), c.count(y > 0, c.at(gx, gy - 1)));
        if x > 0 {
            let row: usize = (x - 1) * self.w;
            if y > 0 && self.mask[row + y - 1] {
                sum = sum + self.buf[row + y - 1] as i64;
                count = count + 1;
            }
            assert(sum == s0 && count == n0);
            if self.mask[row + y] {
                sum = sum + self.buf[row + y] as i64;
                count = count + 1;
            }
            assert(sum == s0 + s1 && count == n0 + n1);
            if y + 1 < self.w && self.mask[row + y + 1] {
                sum = sum + self.buf[row + y + 1] as i64;
                count = count + 1;
            }
        }
        assert(sum == s0 + s1 + s2 && count == n0 + n1 + n2);
        if y > 0 {
            let idx: usize = x * self.w + y - 1;
            if self.mask[idx] {
                sum = sum + self.buf[idx] as i64;
                count = count + 1;
            }
        }
        assert(sum == s0 + s1 + s2 + s3 && count == n0 + n1 + n2 + n3);
        if count == 0 {
            128
        } else {
            rounded_mean(sum, count)
        }
    }

    /// Paint a leaf's plane over its sub-image, exactly as
    /// [`crate::canvas::render`] would.
    pub fn paint(&mut self, plane: &Plane, x: usize, y: usize, n: usize)
        requires
            old(self)@.wf(),
            inside(old(self)@.pixels.len(), old(self)@.width, x as int, y as int, n as int),
            n <= old(self)@.width,
            n <= i64::MAX,
        ensures
            final(self)@.wf(),
            final(self)@ == old(self)@.paint(*plane, x as int, y as int, n as int),
    {
        paint_region(&mut self.buf, self.w, plane, x, y, n);
        mark_region(&mut self.mask, self.w, x, y, n);
    }

    /// The number of pixels.
    pub fn len(&self) -> (len: usize)
        ensures
            len == self@.pixels.len(),
    {
        self.buf.len()
    }

    /// The number of pixels of a row.
    pub fn width(&self) -> (width: usize)
        ensures
            width == self@.width,
    {
        self.w
    }

    /// The reconstructed pixels.
    pub fn into_pixels(self) -> (pixels: Vec<u8>)
        ensures
            pixels@ == self@.pixels,
    {
        self.buf
    }
}

/// The prediction is the mean of the neighbours that are known, above-left,
/// above, above-right and left, rounded to the nearest integer, halves up; 128
/// where none is known.
pub proof fn law_prediction_is_the_rounded_mean(canvas: Canvas, x: int, y: int)
    ensures
        ({
            let w = canvas.width;
            let (k0, k1, k2, k3) = (
                (x - 1) * w + (y - 1),
                (x - 1) * w + y,
                (x - 1) * w + (y + 1),
                x * w + (y - 1),
            );
            let n0: int = if x > 0 && y > 0 && canvas.known[k0] { 1 } else { 0 };
            let n1: int = if x > 0 && canvas.known[k1] { 1 } else { 0 };
            let n2: int = if x > 0 && y + 1 < w && canvas.known[k2] { 1 } else { 0 };
            let n3: int = if y > 0 && canvas.known[k3] { 1 } else { 0 };
            let count = n0 + n1 + n2 + n3;
            let sum = n0 * canvas.pixels[k0] + n1 * canvas.pixels[k1] + n2 * canvas.pixels[k2] + n3
                * canvas.pixels[k3];
            let mean = canvas.prediction(x, y);
            &&& count == 0 ==> mean == 128
            &&& count > 0 ==> 2 * sum - count < 2 * count * mean <= 2 * sum + count
        }),
{
    reveal(Canvas::prediction);
    let w = canvas.width;
    let (k0, k1, k2, k3) = (
        (x - 1) * w + (y - 1),
        (x - 1) * w + y,
        (x - 1) * w + (y + 1),
        x * w + (y - 1),
    );
    let n0: int = if x > 0 && y > 0 && canvas.known[k0] { 1 } else { 0 };
    let n1: int = if x > 0 && canvas.known[k1] { 1 } else { 0 };
    let n2: int = if x > 0 && y + 1 < w && canvas.known[k2] { 1 } else { 0 };
    let n3: int = if y > 0 && canvas.known[k3] { 1 } else { 0 };
    let count = n0 + n1 + n2 + n3;
    let (p0, p1, p2, p3) = (
        canvas.pixels[k0] as int,
        canvas.pixels[k1] as int,
        canvas.pixels[k2] as int,
        canvas.pixels[k3] as int,
    );
    assert(n0 * p0 == if n0 == 1 { p0 } else { 0 }) by (nonlinear_arith)
        requires
            n0 == 0 || n0 == 1,
    ;
    assert(n1 * p1 == if n1 == 1 { p1 } else { 0 }) by (nonlinear_arith)
        requires
            n1 == 0 || n1 == 1,
    ;
    assert(n2 * p2 == if n2 == 1 { p2 } else { 0 }) by (nonlinear_arith)
        requires
            n2 == 0 || n2 == 1,
    ;
    assert(n3 * p3 == if n3 == 1 { p3 } else { 0 }) by (nonlinear_arith)
        requires
            n3 == 0 || n3 == 1,
    ;
    let sum = n0 * p0 + n1 * p1 + n2 * p2 + n3 * p3;
    let mean = canvas.prediction(x, y);
    if count > 0 {
        assert(mean == (sum + count / 2) / count);
        lemma_rounds_to_nearest(sum, count);
    }
}

/// Adding half of the count before dividing rounds to nearest.
proof fn lemma_rounds_to_nearest(sum: int, count: int)
    requires
        1 <= count <= 4,
    ensures
        2 * sum - count < 2 * count * ((sum + count / 2) / count) <= 2 * sum + count,
{
    if count == 1 {
        assert((sum + 0) / 1 == sum);
    } else if count == 2 {
        assert(2 * sum - 2 < 4 * ((sum + 1) / 2) <= 2 * sum + 2);
    } else if count == 3 {
        assert(2 * sum - 3 < 6 * ((sum + 1) / 3) <= 2 * sum + 3);
    } else {
        assert(2 * sum - 4 < 8 * ((sum + 2) / 4) <= 2 * sum + 4);
    }
}

/// Painting makes the pixels of the region known, and no others. Nothing is
/// known of an empty canvas.
pub proof fn law_painting_makes_known(
    canvas: Canvas,
    plane: Plane,
    x: int,
    y: int,
    n: int,
    k: int,
)
    requires
        canvas.wf(),
        n <= canvas.width,
        0 <= k < canvas.pixels.len(),
    ensures
        canvas.paint(plane, x, y, n).width == canvas.width,
        canvas.paint(plane, x, y, n).pixels == paint(
            canvas.pixels,
            canvas.width,
            plane,
            x,
            y,
            n,
        ),
        canvas.paint(plane, x, y, n).known[k] <==> canvas.known[k] || exists|i: int, j: int|
            0 <= i < n && 0 <= j < n && k == #[trigger] ((x + i) * canvas.width + y + j),
{
    lemma_touches_places(canvas.width, x, y, n, k);
}

/// The empty canvas is black, and nothing of it is known.
pub proof fn law_empty_canvas(width: nat, height: nat, k: int)
    requires
        0 <= k < width * height,
    ensures
        Canvas::empty(width, height).width == width,
        Canvas::empty(width, height).pixels.len() == width * height,
        Canvas::empty(width, height).known.len() == width * height,
        Canvas::empty(width, height).pixels[k] == 0,
        !Canvas::empty(width, height).known[k],
{
}

} // verus!
