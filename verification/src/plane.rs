//! Planes with integer coefficients, and the pixels they give.

use vstd::prelude::*;

verus! {

/// A fitted plane `pixel = a*i + b*j + c` with integer coefficients, where
/// `i` is the row offset and `j` the column offset within the sub-image.
#[derive(Clone, Copy, Debug, PartialEq, Eq, Structural)]
pub struct Plane {
    pub a: i64,
    pub b: i64,
    pub c: i64,
}

/// The 64-bit two's complement integer that `v` wraps around to.
pub open spec fn wrap(v: int) -> int {
    let low = v % 0x1_0000_0000_0000_0000;
    if low < 0x8000_0000_0000_0000 {
        low
    } else {
        low - 0x1_0000_0000_0000_0000
    }
}

/// The nearest value that a pixel can hold.
pub open spec fn clamp(v: int) -> int {
    if v < 0 {
        0
    } else if v > 255 {
        255
    } else {
        v
    }
}

impl Plane {
    /// The plane's pixel at row `i` and column `j` of its sub-image. Sums that
    /// leave 64 bits wrap around.
    pub open spec fn pixel(self, i: int, j: int) -> int {
        clamp(wrap(self.a * i + self.b * j + self.c))
    }

    /// The plane's pixel at row `i` and column `j` of its sub-image.
    pub fn pixel_at(&self, i: usize, j: usize) -> (pixel: u8)
        requires
            i <= i64::MAX,
            j <= i64::MAX,
        ensures
            pixel == self.pixel(i as int, j as int),
            i64::MIN <= self.a * i + self.b * j + self.c <= i64::MAX ==> {
                &&& self.a * i + self.b * j + self.c >= 255 ==> pixel == 255
                &&& self.a * i + self.b * j + self.c <= 0 ==> pixel == 0
                &&& 0 <= self.a * i + self.b * j + self.c <= 255 ==> pixel == self.a * i + self.b
                    * j + self.c
            },
    {
        let ai: i64 = self.a.wrapping_mul(i as i64).wrapping_add(self.c);
        let value: i64 = ai.wrapping_add(self.b.wrapping_mul(j as i64));
        let ghost rows = self.a * (i as int);
        let ghost cols = self.b * (j as int);
        assert(value == wrap(rows + cols + self.c)) by {
            assert(self.a.wrapping_mul(i as i64) == wrap(rows));
            assert(self.b.wrapping_mul(j as i64) == wrap(cols));
        }
        proof {
            if i64::MIN <= rows + cols + self.c <= i64::MAX {
                law_pixel_is_the_nearest_byte(*self, i as int, j as int);
            }
        }
        if value < 0 {
            0
        } else if value > 255 {
            255
        } else {
            value as u8
        }
    }
}

/// A pixel is the nearest byte to the plane: 255 where the plane lies above all
/// bytes, 0 where it lies below them, and the plane itself in between.
pub proof fn law_pixel_is_the_nearest_byte(plane: Plane, i: int, j: int)
    requires
        i64::MIN <= plane.a * i + plane.b * j + plane.c <= i64::MAX,
    ensures
        plane.a * i + plane.b * j + plane.c >= 255 ==> plane.pixel(i, j) == 255,
        plane.a * i + plane.b * j + plane.c <= 0 ==> plane.pixel(i, j) == 0,
        0 <= plane.a * i + plane.b * j + plane.c <= 255 ==> plane.pixel(i, j) == plane.a * i
            + plane.b * j + plane.c,
        0 <= plane.pixel(i, j) <= 255,
{
}

/// A pixel never decreases when the value of the plane grows, whichever planes
/// and places the two values are of.
pub proof fn law_pixels_grow_with_the_plane(p: Plane, i: int, j: int, q: Plane, k: int, l: int)
    requires
        i64::MIN <= p.a * i + p.b * j + p.c,
        p.a * i + p.b * j + p.c <= q.a * k + q.b * l + q.c,
        q.a * k + q.b * l + q.c <= i64::MAX,
    ensures
        p.pixel(i, j) <= q.pixel(k, l),
{
}

/// Values that are the same in their low 64 bits give the same pixel: what
/// leaves 64 bits wraps around.
pub proof fn law_values_wrap_around(p: Plane, i: int, j: int, q: Plane, k: int, l: int)
    requires
        (p.a * i + p.b * j + p.c) % 0x1_0000_0000_0000_0000 == (q.a * k + q.b * l + q.c)
            % 0x1_0000_0000_0000_0000,
    ensures
        p.pixel(i, j) == q.pixel(k, l),
{
}

} // verus!
