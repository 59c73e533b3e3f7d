//! Bytes past the end of a file read as zero.

use crate::codec::decoded;
use crate::gamma::{read_length, read_mantissa, read_signed, read_value, Gamma};
use crate::header::{header_info, HEADER_LEN};
use crate::image::half_up;
use crate::interval::{read_at, Cursor, TOP};
use crate::quadtree::half;
use crate::recon::Canvas;
use crate::tree::{read_leaf, read_plane, read_split, read_tree, split_model, Reader, TreeModels};
use vstd::prelude::*;

verus! {

/// The byte at `i`; zero past the end.
pub open spec fn byte_at(s: Seq<u8>, i: int) -> u8 {
    if 0 <= i < s.len() {
        s[i]
    } else {
        0
    }
}

/// Two byte strings that read the same.
pub open spec fn read_alike(s: Seq<u8>, t: Seq<u8>) -> bool {
    forall|i: int| i >= 0 ==> #[trigger] byte_at(s, i) == byte_at(t, i)
}

/// Two readers that stand at the same place of byte strings that read the
/// same.
spec fn agree(c: Cursor, d: Cursor) -> bool {
    &&& c.code == d.code
    &&& c.range == d.range
    &&& read_alike(c.rest, d.rest)
}

proof fn lemma_feed(c: Cursor, d: Cursor)
    requires
        agree(c, d),
    ensures
        c.next() == d.next(),
        agree(c.feed(), d.feed()),
{
    assert(byte_at(c.rest, 0) == byte_at(d.rest, 0));
    assert forall|i: int| i >= 0 implies #[trigger] byte_at(c.feed().rest, i) == byte_at(
        d.feed().rest,
        i,
    ) by {
        assert(byte_at(c.rest, i + 1) == byte_at(d.rest, i + 1));
    }
}

proof fn lemma_widen(c: Cursor, d: Cursor)
    requires
        agree(c, d),
    ensures
        agree(c.widen(), d.widen()),
    decreases 0x1_0000_0000 - c.range,
{
    if 0 < c.range < TOP {
        lemma_feed(c, d);
        lemma_widen(
            Cursor { code: c.feed().code, range: c.range * 256, rest: c.feed().rest },
            Cursor { code: d.feed().code, range: d.range * 256, rest: d.feed().rest },
        );
    }
}

proof fn lemma_read_at(c: Cursor, d: Cursor, models: Seq<int>, k: int)
    requires
        agree(c, d),
    ensures
        read_at(c, models, k).0 == read_at(d, models, k).0,
        read_at(c, models, k).2 == read_at(d, models, k).2,
        agree(read_at(c, models, k).1, read_at(d, models, k).1),
{
    lemma_widen(c.narrow(models[k]), d.narrow(models[k]));
}

proof fn lemma_length(c: Cursor, d: Cursor, models: Seq<int>, k: nat)
    requires
        agree(c, d),
    ensures
        read_length(c, models, k).0 == read_length(d, models, k).0,
        read_length(c, models, k).2 == read_length(d, models, k).2,
        agree(read_length(c, models, k).1, read_length(d, models, k).1),
    decreases 65 - k,
{
    if k <= 64 {
        lemma_read_at(c, d, models, k as int);
        let (bit, next, adapted) = read_at(c, models, k as int);
        if bit {
            lemma_length(next, read_at(d, models, k as int).1, adapted, k + 1);
        }
    }
}

proof fn lemma_mantissa(c: Cursor, d: Cursor, models: Seq<int>, value: nat, pos: nat, left: nat)
    requires
        agree(c, d),
    ensures
        ({
            let (read, next, adapted) = read_mantissa(c, models, value, pos, left);
            let (other, after, learned) = read_mantissa(d, models, value, pos, left);
            read == other && adapted == learned && agree(next, after)
        }),
    decreases left,
{
    if left > 0 {
        lemma_read_at(c, d, models, pos as int);
        let (bit, next, adapted) = read_at(c, models, pos as int);
        let low: nat = if bit {
            1
        } else {
            0
        };
        lemma_mantissa(
            next,
            read_at(d, models, pos as int).1,
            adapted,
            value * 2 + low,
            pos + 1,
            (left - 1) as nat,
        );
    }
}

proof fn lemma_signed(c: Cursor, d: Cursor, models: Gamma)
    requires
        agree(c, d),
    ensures
        ({
            let (value, next, adapted) = read_signed(c, models);
            let (other, after, learned) = read_signed(d, models);
            value == other && adapted == learned && agree(next, after)
        }),
{
    reveal(read_value);
    lemma_length(c, d, models.length, 0);
    let (bits, next, _) = read_length(c, models.length, 0);
    let after = read_length(d, models.length, 0).1;
    let left = if bits > 64 {
        63
    } else {
        (bits - 1) as nat
    };
    lemma_mantissa(next, after, models.mantissa, 1, 0, left);
}

/// Two decoders of a tree that stand at the same place.
spec fn in_step(r: Reader, q: Reader) -> bool {
    &&& agree(r.c, q.c)
    &&& r.models == q.models
    &&& r.canvas == q.canvas
}

proof fn lemma_split(r: Reader, q: Reader, n: int, depth: nat, prev_split: bool)
    requires
        in_step(r, q),
    ensures
        read_split(r, n, depth, prev_split).0 == read_split(q, n, depth, prev_split).0,
        in_step(read_split(r, n, depth, prev_split).1, read_split(q, n, depth, prev_split).1),
{
    reveal(read_split);
    lemma_read_at(r.c, q.c, r.models.split, split_model(depth, prev_split));
}

proof fn lemma_leaf(r: Reader, q: Reader, x: int, y: int, n: int)
    requires
        in_step(r, q),
    ensures
        match (read_leaf(r, x, y, n), read_leaf(q, x, y, n)) {
            (None, None) => true,
            (Some((plane, next)), Some((other, after))) => plane == other && in_step(next, after),
            _ => false,
        },
{
    reveal(read_leaf);
    lemma_signed(r.c, q.c, r.models.a);
    let (c1, d1) = (read_signed(r.c, r.models.a).1, read_signed(q.c, r.models.a).1);
    lemma_signed(c1, d1, r.models.b);
    let (c2, d2) = (read_signed(c1, r.models.b).1, read_signed(d1, r.models.b).1);
    lemma_signed(c2, d2, r.models.c);
}

proof fn lemma_tree(r: Reader, q: Reader, x: int, y: int, n: int, depth: nat, prev_split: bool)
    requires
        in_step(r, q),
    ensures
        match (
            read_tree(r, x, y, n, depth, prev_split),
            read_tree(q, x, y, n, depth, prev_split),
        ) {
            (None, None) => true,
            (Some((tree, next)), Some((other, after))) => tree == other && in_step(next, after),
            _ => false,
        },
    decreases n,
{
    lemma_split(r, q, n, depth, prev_split);
    let (split, r0) = read_split(r, n, depth, prev_split);
    let (_, q0) = read_split(q, n, depth, prev_split);
    if !split || n <= 1 {
        lemma_leaf(r0, q0, x, y, n);
    } else {
        let m = half(n);
        let deeper = depth + 1;
        lemma_tree(r0, q0, x, y, m, deeper, false);
        if let Some((t0, r1)) = read_tree(r0, x, y, m, deeper, false) {
            let (_, q1) = read_tree(q0, x, y, m, deeper, false)->0;
            lemma_tree(r1, q1, x, y + m, m, deeper, t0 is Split);
            if let Some((t1, r2)) = read_tree(r1, x, y + m, m, deeper, t0 is Split) {
                let (_, q2) = read_tree(q1, x, y + m, m, deeper, t0 is Split)->0;
                lemma_tree(r2, q2, x + m, y, m, deeper, t1 is Split);
                if let Some((t2, r3)) = read_tree(r2, x + m, y, m, deeper, t1 is Split) {
                    let (_, q3) = read_tree(q2, x + m, y, m, deeper, t1 is Split)->0;
                    lemma_tree(r3, q3, x + m, y + m, m, deeper, t2 is Split);
                }
            }
        }
    }
}

proof fn lemma_plane(c: Cursor, d: Cursor, width: nat, height: nat, n: int)
    requires
        agree(c, d),
    ensures
        match (read_plane(c, width, height, n), read_plane(d, width, height, n)) {
            (None, None) => true,
            (Some((tree, pixels, next)), Some((other, shown, after))) => tree == other && pixels
                == shown && agree(next, after),
            _ => false,
        },
{
    let canvas = Canvas::empty(width, height);
    lemma_tree(
        Reader { c, models: TreeModels::fresh(), canvas },
        Reader { c: d, models: TreeModels::fresh(), canvas },
        0,
        0,
        n,
        0,
        false,
    );
}

/// A file with a whole header decodes in the same way with zeros appended, or
/// with trailing zeros of its payload cut off: past the end of a file bytes
/// read as zero.
pub proof fn law_missing_bytes_read_as_zero(file: Seq<u8>, zeros: Seq<u8>)
    requires
        file.len() >= HEADER_LEN,
        forall|i: int| 0 <= i < zeros.len() ==> zeros[i] == 0,
    ensures
        decoded(file + zeros) == decoded(file),
{
    let longer = file + zeros;
    assert(longer.subrange(0, 4) =~= file.subrange(0, 4));
    assert(longer.subrange(5, 9) =~= file.subrange(5, 9));
    assert(longer.subrange(9, 13) =~= file.subrange(9, 13));
    assert(longer.subrange(13, 21) =~= file.subrange(13, 21));
    assert(longer.subrange(21, 29) =~= file.subrange(21, 29));
    assert(header_info(longer) == header_info(file));
    if let Ok(info) = header_info(file) {
        let n = info.width as nat;
        let half = half_up(n as int);
        let h = half as nat;
        let (s, t) = (file.skip(HEADER_LEN as int), longer.skip(HEADER_LEN as int));
        lemma_start(s, t);
        let (c0, d0) = (Cursor::start(s), Cursor::start(t));
        lemma_plane(c0, d0, n, n, n as int);
        if info.colour {
            if let Some((_, _, c1)) = read_plane(c0, n, n, n as int) {
                let (_, _, d1) = read_plane(d0, n, n, n as int)->0;
                lemma_plane(c1, d1, h, h, half);
                if let Some((_, _, c2)) = read_plane(c1, h, h, half) {
                    let (_, _, d2) = read_plane(d1, h, h, half)->0;
                    lemma_plane(c2, d2, h, h, half);
                }
            }
        }
    }
}

/// Readers of byte strings that read the same start at the same place.
proof fn lemma_start(s: Seq<u8>, t: Seq<u8>)
    requires
        read_alike(s, t),
    ensures
        agree(Cursor::start(s), Cursor::start(t)),
{
    let c = Cursor { code: 0, range: 0xFFFF_FFFF, rest: s };
    let d = Cursor { code: 0, range: 0xFFFF_FFFF, rest: t };
    lemma_feed(c, d);
    lemma_feed(c.feed(), d.feed());
    lemma_feed(c.feed().feed(), d.feed().feed());
    lemma_feed(c.feed().feed().feed(), d.feed().feed().feed());
    lemma_feed(c.feed().feed().feed().feed(), d.feed().feed().feed().feed());
}

} // verus!
