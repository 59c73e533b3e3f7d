//! The `.pie` container: serialise a compressed quadtree to bytes and back.
//!
//! The payload is a single range-coded stream. The planes (luma, and for
//! colour Cb and then Cr) are coded one after the other into one coder, which
//! is flushed once at the end. Each plane uses its own fresh set of probability
//! models, and is decoded until its tree is exhausted; the next one goes on
//! from there.

use crate::canvas::{blank, paint_all};
use crate::fit::{Fitter, NormalSums, MAX_EDGE};
use crate::header::{
    header_bytes, header_info, law_header_round_trips, lemma_header_len, read_header, write_header,
    PieInfo, HEADER_LEN, MODE_COLOUR, MODE_GREY,
};
use crate::image::{half_up, square_edge, Colour, Grey, Image, Options, PieError, Picture};
use crate::interval::{lemma_low_end_covered, lemma_start_follows, spells, Cursor, Interval};
use crate::plane::Plane;
use crate::quadtree::{lemma_leaves_len, QuadTree};
use crate::range::{Decoder, Encoder};
use crate::tree::{
    addressable, decode_plane, encode_plane, is_leaf_list, lemma_plane_follows, lemma_write_plane,
    read_plane, write_plane,
};
use crate::walk::{lemma_grown, lemma_listing_bound, try_walk, Subtree};
use vstd::pervasive::unreached;
use vstd::prelude::*;
use vstd::slice::slice_subrange;

verus! {

/// A compressed image, plus the numbers needed to report on it.
pub struct Encoded {
    /// The complete `.pie` file: header followed by the coded payload.
    pub bytes: Vec<u8>,
    /// Size of the equivalent raw bitmap, in bytes.
    pub raw: u64,
    /// The plain "one bit of tree, three bytes per leaf" size estimate.
    pub estimate: u64,
    /// Whether the source was colour.
    pub colour: bool,
}

/// The interval that a greyscale image of `n` pixels an edge is coded to.
pub open spec fn grey_interval(tree: QuadTree, n: nat) -> Interval {
    write_plane(Interval::start(), tree, n, n, n as int)
}

/// The interval that a colour image of `n` pixels an edge is coded to.
pub open spec fn colour_interval(y: QuadTree, cb: QuadTree, cr: QuadTree, n: nat) -> Interval {
    let half = half_up(n as int);
    let st = write_plane(Interval::start(), y, n, n, n as int);
    let st = write_plane(st, cb, half as nat, half as nat, half);
    write_plane(st, cr, half as nat, half as nat, half)
}

/// The file of a greyscale image of `n` pixels an edge, and its sizes.
pub open spec fn is_grey_file(encoded: Encoded, n: nat, options: Options, tree: QuadTree) -> bool {
    let payload = encoded.bytes@.skip(HEADER_LEN as int);
    &&& encoded.bytes@ == header_bytes(MODE_GREY, n as u32, n as u32, options) + payload
    &&& spells(payload, grey_interval(tree, n))
    &&& encoded.raw == n * n
    &&& encoded.estimate == tree.tree_len() / 8 + tree.params_len() + 2
    &&& !encoded.colour
}

/// The file of a colour image of `n` pixels an edge, and its sizes.
pub open spec fn is_colour_file(
    encoded: Encoded,
    n: nat,
    options: Options,
    y: QuadTree,
    cb: QuadTree,
    cr: QuadTree,
) -> bool {
    let payload = encoded.bytes@.skip(HEADER_LEN as int);
    &&& encoded.bytes@ == header_bytes(MODE_COLOUR, n as u32, n as u32, options) + payload
    &&& spells(payload, colour_interval(y, cb, cr, n))
    &&& encoded.raw == 3 * (n * n)
    &&& encoded.estimate == (y.tree_len() + cb.tree_len() + cr.tree_len()) / 8 + (y.params_len()
        + cb.params_len() + cr.params_len()) + 2
    &&& encoded.colour
}

impl<S: Fn(NormalSums) -> Plane, E: Fn(i64, i64, u64) -> bool> Fitter<S, E> {
    /// Whatever the fitter gives, a plane of `n` pixels an edge can be walked.
    pub open spec fn can_walk_plane(&self, data: Seq<u8>, n: nat, bound: u64) -> bool {
        &&& n * n <= data.len()
        &&& self.stays_inside(data.take((n * n) as int), n, 0, 0, n as int, bound)
    }

    /// `tree` is one that may be grown over a plane of `n` pixels an edge.
    pub open spec fn may_grow_plane(
        &self,
        data: Seq<u8>,
        n: nat,
        bound: u64,
        tree: QuadTree,
    ) -> bool {
        &&& n * n <= data.len()
        &&& self.may_grow(data.take((n * n) as int), n, 0, 0, n as int, bound, tree)
    }

    /// Whatever the fitter gives, an image can be encoded or is refused.
    pub open spec fn can_encode(&self, image: Picture, options: Options) -> bool {
        match image {
            Picture::Grey { width, height, data } => width == height ==> self.can_walk_plane(
                data,
                width,
                options.max_error,
            ),
            Picture::Colour { width, height, y, cb, cr } => width == height ==> {
                let half = half_up(width as int) as nat;
                &&& self.can_walk_plane(y, width, options.max_error)
                &&& self.can_walk_plane(cb, half, options.chroma_max_error)
                &&& self.can_walk_plane(cr, half, options.chroma_max_error)
            },
        }
    }

    /// `encoded` is the file of a tree that may be grown over a greyscale image
    /// of `n` pixels an edge.
    pub open spec fn may_encode_grey(
        &self,
        data: Seq<u8>,
        n: nat,
        options: Options,
        encoded: Encoded,
    ) -> bool {
        exists|tree: QuadTree| #[trigger]
            self.may_grow_plane(data, n, options.max_error, tree) && is_grey_file(
                encoded,
                n,
                options,
                tree,
            )
    }

    /// `encoded` is the file of trees that may be grown over the planes of a
    /// colour image of `n` pixels an edge.
    pub open spec fn may_encode_colour(
        &self,
        y: Seq<u8>,
        cb: Seq<u8>,
        cr: Seq<u8>,
        n: nat,
        options: Options,
        encoded: Encoded,
    ) -> bool {
        let half = half_up(n as int) as nat;
        exists|ty: QuadTree, tb: QuadTree, tr: QuadTree|
            #![trigger
                self.may_grow_plane(y, n, options.max_error, ty),
                self.may_grow_plane(cb, half, options.chroma_max_error, tb),
                self.may_grow_plane(cr, half, options.chroma_max_error, tr)]
            {
                &&& self.may_grow_plane(y, n, options.max_error, ty)
                &&& self.may_grow_plane(cb, half, options.chroma_max_error, tb)
                &&& self.may_grow_plane(cr, half, options.chroma_max_error, tr)
                &&& is_colour_file(encoded, n, options, ty, tb, tr)
            }
    }

    /// What encoding an image may come to: the file of trees grown over its
    /// planes, or a refusal if and only if it is not square.
    pub open spec fn may_encode(
        &self,
        image: Picture,
        options: Options,
        out: Result<Encoded, PieError>,
    ) -> bool {
        match image {
            Picture::Grey { width, height, data } => if width != height {
                out == Err::<Encoded, PieError>(
                    PieError::NotSquare { width: width as usize, height: height as usize },
                )
            } else {
                out matches Ok(encoded) && self.may_encode_grey(data, width, options, encoded)
            },
            Picture::Colour { width, height, y, cb, cr } => if width != height {
                out == Err::<Encoded, PieError>(
                    PieError::NotSquare { width: width as usize, height: height as usize },
                )
            } else {
                out matches Ok(encoded) && self.may_encode_colour(
                    y,
                    cb,
                    cr,
                    width,
                    options,
                    encoded,
                )
            },
        }
    }
}

/// Walk a whole plane of `n` pixels an edge.
pub(crate) fn try_walk_plane<
    S: Fn(NormalSums) -> Plane + Sync,
    E: Fn(i64, i64, u64) -> bool + Sync,
>(
    data: &Vec<u8>,
    n: usize,
    max_error: u64,
    fitter: &Fitter<S, E>,
) -> (out: Option<Subtree>)
    requires
        fitter.total(),
    ensures
        match out {
            None => !fitter.can_walk_plane(data@, n as nat, max_error),
            Some(subtree) => exists|tree: QuadTree| #[trigger]
                fitter.may_grow_plane(data@, n as nat, max_error, tree) && subtree.flattens(
                    tree,
                    0,
                    0,
                    n as int,
                ),
        },
{
    assert(data.len() <= usize::MAX);
    let count = match n.checked_mul(n) {
        Some(count) => count,
        None => return None,
    };
    if count > data.len() {
        return None;
    }
    let plane = slice_subrange(data.as_slice(), 0, count);
    assert(plane@ =~= data@.take((n * n) as int));
    let out = try_walk(plane, n, 0, 0, n, max_error, fitter);
    proof {
        if out is Some {
            let subtree = out->0;
            let tree = choose|tree: QuadTree| #[trigger]
                fitter.may_grow(plane@, n as nat, 0, 0, n as int, max_error, tree)
                    && subtree.flattens(tree, 0, 0, n as int);
            assert(fitter.may_grow_plane(data@, n as nat, max_error, tree));
        }
    }
    out
}

/// Encode a walked plane.
fn encode_walked(enc: &mut Encoder, subtree: &Subtree, n: usize, Ghost(tree): Ghost<QuadTree>)
    requires
        old(enc).wf(),
        n <= MAX_EDGE,
        n * n <= usize::MAX,
        subtree.flattens(tree, 0, 0, n as int),
        tree.divisible(n as int),
        tree.fits((n * n) as nat, n as nat, 0, 0, n as int),
        old(enc).interval().len <= 0x1000_0000_0000_0000,
    ensures
        final(enc).wf(),
        final(enc).interval() == write_plane(
            old(enc).interval(),
            tree,
            n as nat,
            n as nat,
            n as int,
        ),
        final(enc).interval().len <= old(enc).interval().len + 386 * 0x400_0000_0000,
{
    proof {
        lemma_listing_bound(tree, n as int);
        lemma_leaves_len(tree, 0, 0, n as int);
        assert(is_leaf_list(subtree.leaves@, tree, n as int));
        enc.lemma_wide();
        lemma_write_plane(enc.interval(), tree, n as nat, n as nat, n as int);
    }
    encode_plane(enc, subtree.leaves.as_slice(), n, n, n);
}

/// Put a header in front of the payload of an encoder.
fn assemble(enc: Encoder, mode: u8, width: u32, height: u32, options: Options) -> (bytes: Vec<u8>)
    requires
        enc.wf(),
        enc.interval().len <= u64::MAX,
    ensures
        bytes@ == header_bytes(mode, width, height, options) + bytes@.skip(HEADER_LEN as int),
        spells(bytes@.skip(HEADER_LEN as int), enc.interval()),
{
    let payload = enc.finish();
    let mut bytes: Vec<u8> = Vec::new();
    write_header(&mut bytes, mode, width, height, options);
    let ghost header = header_bytes(mode, width, height, options);
    proof {
        lemma_header_len(mode, width, height, options);
        assert(bytes@ =~= header);
    }
    bytes.extend_from_slice(payload.as_slice());
    proof {
        assert(bytes@ =~= header + payload@);
        assert(bytes@.skip(HEADER_LEN as int) =~= payload@);
    }
    bytes
}

/// Compress an already-decoded [`Image`] into a `.pie` file image.
///
/// `None` where walking a plane leaves the image.
pub fn try_encode_to_vec<
    S: Fn(NormalSums) -> Plane + Sync,
    E: Fn(i64, i64, u64) -> bool + Sync,
>(image: &Image, options: Options, fitter: &Fitter<S, E>) -> (out: Option<Result<Encoded, PieError>>)
    requires
        fitter.total(),
    ensures
        match out {
            None => !fitter.can_encode(image@, options),
            Some(result) => fitter.may_encode(image@, options, result),
        },
{
    let mut enc = Encoder::new();
    match image {
        Image::Grey(img) => {
            let n = match square_edge(img.width, img.height) {
                Ok(n) => n,
                Err(error) => return Some(Err(error)),
            };
            let subtree = match try_walk_plane(&img.data, n, options.max_error, fitter) {
                Some(subtree) => subtree,
                None => return None,
            };
            let ghost tree = choose|tree: QuadTree| #[trigger]
                fitter.may_grow_plane(img.data@, n as nat, options.max_error, tree)
                    && subtree.flattens(tree, 0, 0, n as int);
            proof {
                lemma_plane_grown(*fitter, img.data@, n as nat, options.max_error, tree);
            }
            let estimate: u64 = subtree.tree_len / 8 + subtree.params_len + 2;
            encode_walked(&mut enc, &subtree, n, Ghost(tree));
            let bytes = assemble(enc, MODE_GREY, img.width as u32, img.height as u32, options);
            let raw: u64 = (img.width * img.height) as u64;
            let encoded = Encoded { bytes, raw, estimate, colour: false };
            assert(is_grey_file(encoded, n as nat, options, tree));
            assert(fitter.may_encode_grey(img.data@, n as nat, options, encoded));
            Some(Ok(encoded))
        },
        Image::Colour(img) => {
            let n = match square_edge(img.width, img.height) {
                Ok(n) => n,
                Err(error) => return Some(Err(error)),
            };
            let (cw, ch) = img.chroma_dims();

            // Luma gets the tight bound; the quarter-size chroma planes get
            // the looser one.
            let y_tree = match try_walk_plane(&img.y, n, options.max_error, fitter) {
                Some(subtree) => subtree,
                None => return None,
            };
            let cb_tree = match try_walk_plane(&img.cb, cw, options.chroma_max_error, fitter) {
                Some(subtree) => subtree,
                None => return None,
            };
            let cr_tree = match try_walk_plane(&img.cr, cw, options.chroma_max_error, fitter) {
                Some(subtree) => subtree,
                None => return None,
            };
            let ghost ty = choose|tree: QuadTree| #[trigger]
                fitter.may_grow_plane(img.y@, n as nat, options.max_error, tree)
                    && y_tree.flattens(tree, 0, 0, n as int);
            let ghost tb = choose|tree: QuadTree| #[trigger]
                fitter.may_grow_plane(img.cb@, cw as nat, options.chroma_max_error, tree)
                    && cb_tree.flattens(tree, 0, 0, cw as int);
            let ghost tr = choose|tree: QuadTree| #[trigger]
                fitter.may_grow_plane(img.cr@, cw as nat, options.chroma_max_error, tree)
                    && cr_tree.flattens(tree, 0, 0, cw as int);
            proof {
                lemma_plane_grown(*fitter, img.y@, n as nat, options.max_error, ty);
                lemma_plane_grown(*fitter, img.cb@, cw as nat, options.chroma_max_error, tb);
                lemma_plane_grown(*fitter, img.cr@, cw as nat, options.chroma_max_error, tr);
            }
            let estimate: u64 = (y_tree.tree_len + cb_tree.tree_len + cr_tree.tree_len) / 8 + (
            y_tree.params_len + cb_tree.params_len + cr_tree.params_len) + 2;

            encode_walked(&mut enc, &y_tree, n, Ghost(ty));
            encode_walked(&mut enc, &cb_tree, cw, Ghost(tb));
            encode_walked(&mut enc, &cr_tree, cw, Ghost(tr));
            let bytes = assemble(enc, MODE_COLOUR, img.width as u32, img.height as u32, options);
            let raw: u64 = (img.width * img.height) as u64 * 3;
            let encoded = Encoded { bytes, raw, estimate, colour: true };
            assert(is_colour_file(encoded, n as nat, options, ty, tb, tr));
            assert(fitter.may_encode_colour(
                img.y@,
                img.cb@,
                img.cr@,
                n as nat,
                options,
                encoded,
            )) by {
                let half = half_up(n as int) as nat;
                assert(fitter.may_grow_plane(img.cb@, half, options.chroma_max_error, tb));
                assert(fitter.may_grow_plane(img.cr@, half, options.chroma_max_error, tr));
            }
            Some(Ok(encoded))
        },
    }
}

/// A tree grown over a plane splits no single pixel, lies inside the plane,
/// and has a short listing.
pub(crate) proof fn lemma_plane_grown<S: Fn(NormalSums) -> Plane, E: Fn(i64, i64, u64) -> bool>(
    fitter: Fitter<S, E>,
    data: Seq<u8>,
    n: nat,
    bound: u64,
    tree: QuadTree,
)
    requires
        fitter.may_grow_plane(data, n, bound, tree),
    ensures
        n <= MAX_EDGE,
        n * n <= 2_147_488_281,
        tree.divisible(n as int),
        tree.fits(n * n, n, 0, 0, n as int),
        tree.leaf_count() <= 0x400_0000_0000,
        tree.tree_len() <= 0x1000_0000_0000,
        tree.params_len() <= 0x1000_0000_0000,
{
    lemma_grown(fitter, data.take((n * n) as int), n, 0, 0, n as int, bound, tree);
    lemma_listing_bound(tree, n as int);
    assert(n * n <= 2_147_488_281) by (nonlinear_arith)
        requires
            0 <= n <= 46341,
    ;
}

/// Compress an already-decoded [`Image`] into a `.pie` file image.
pub fn encode_to_vec<
    S: Fn(NormalSums) -> Plane + Sync,
    E: Fn(i64, i64, u64) -> bool + Sync,
>(image: &Image, options: Options, fitter: &Fitter<S, E>) -> (result: Result<Encoded, PieError>)
    requires
        fitter.total(),
        fitter.can_encode(image@, options),
    ensures
        fitter.may_encode(image@, options, result),
{
    match try_encode_to_vec(image, options, fitter) {
        Some(result) => result,
        None => unreached(),
    }
}

/// The pixels of a greyscale payload.
pub open spec fn read_grey(payload: Seq<u8>, n: nat) -> Option<Picture> {
    match read_plane(Cursor::start(payload), n, n, n as int) {
        None => None,
        Some((_, data, _)) => Some(Picture::Grey { width: n, height: n, data }),
    }
}

/// The pixels of a colour payload.
pub open spec fn read_colour(payload: Seq<u8>, n: nat) -> Option<Picture> {
    let half = half_up(n as int);
    match read_plane(Cursor::start(payload), n, n, n as int) {
        None => None,
        Some((_, y, c)) => match read_plane(c, half as nat, half as nat, half) {
            None => None,
            Some((_, cb, c)) => match read_plane(c, half as nat, half as nat, half) {
                None => None,
                Some((_, cr, _)) => Some(Picture::Colour { width: n, height: n, y, cb, cr }),
            },
        },
    }
}

/// What a file decodes to, or why it is refused. Nothing where a leaf does not
/// lie inside the image.
pub open spec fn decoded(file: Seq<u8>) -> Option<Result<(Picture, PieInfo), PieError>> {
    match header_info(file) {
        Err(error) => Some(Err(error)),
        Ok(info) => if info.width != info.height {
            Some(
                Err(
                    PieError::NotSquare {
                        width: info.width as usize,
                        height: info.height as usize,
                    },
                ),
            )
        } else {
            let payload = file.skip(HEADER_LEN as int);
            let picture = if info.colour {
                read_colour(payload, info.width as nat)
            } else {
                read_grey(payload, info.width as nat)
            };
            match picture {
                None => None,
                Some(picture) => Some(Ok((picture, info))),
            }
        },
    }
}

/// The image that a file declares can be held in memory.
pub open spec fn holdable(file: Seq<u8>) -> bool {
    header_info(file) matches Ok(info) ==> info.width == info.height ==> info.width as nat
        * info.height as nat <= isize::MAX
}

/// A file can be decoded or is refused: the image that it declares can be held
/// in memory, and all leaves lie inside it.
pub open spec fn can_decode(file: Seq<u8>) -> bool {
    holdable(file) && decoded(file) is Some
}

/// Decode a `.pie` image into reconstructed planes.
///
/// `None` where the image cannot be held in memory, or a leaf does not lie
/// inside it.
pub fn try_decode_to_image(data: &[u8]) -> (out: Option<Result<(Image, PieInfo), PieError>>)
    ensures
        out is Some == can_decode(data@),
        out matches Some(result) ==> match decoded(data@)->0 {
            Err(error) => result == Err::<(Image, PieInfo), PieError>(error),
            Ok((picture, info)) => result matches Ok((image, read)) && image@ == picture && read
                == info,
        },
{
    let (info, payload) = match read_header(data) {
        Ok(header) => header,
        Err(error) => return Some(Err(error)),
    };
    let width = info.width as usize;
    let height = info.height as usize;
    if width != height {
        return Some(Err(PieError::NotSquare { width, height }));
    }
    match width.checked_mul(height) {
        None => return None,
        Some(pixels) => {
            if pixels > isize::MAX as usize {
                return None;
            }
        },
    }
    proof {
        lemma_edge_addressable(width as int);
    }
    let mut dec = Decoder::new(payload);
    if info.colour {
        let cw: usize = width / 2 + width % 2;
        proof {
            lemma_half_smaller(width as int, cw as int);
        }
        let y = match decode_plane(&mut dec, width, height, width) {
            Some(plane) => plane,
            None => return None,
        };
        let cb = match decode_plane(&mut dec, cw, cw, cw) {
            Some(plane) => plane,
            None => return None,
        };
        let cr = match decode_plane(&mut dec, cw, cw, cw) {
            Some(plane) => plane,
            None => return None,
        };
        Some(Ok((Image::Colour(Colour { width, height, y, cb, cr }), info)))
    } else {
        let plane = match decode_plane(&mut dec, width, height, width) {
            Some(plane) => plane,
            None => return None,
        };
        Some(Ok((Image::Grey(Grey { width, height, data: plane }), info)))
    }
}

/// The quadrants of an image that can be held in memory can be addressed.
proof fn lemma_edge_addressable(n: int)
    requires
        0 <= n <= u32::MAX,
        n * n <= isize::MAX,
    ensures
        addressable(0, 0, n),
{
    assert(n >= 2 ==> 2 * n <= n * n) by (nonlinear_arith);
}

/// The chroma planes are no larger than the luma plane.
proof fn lemma_half_smaller(n: int, half: int)
    requires
        1 <= n,
        half == half_up(n),
        n * n <= isize::MAX,
    ensures
        0 <= half <= n,
        half * half <= isize::MAX,
{
    assert(half * half <= n * n) by (nonlinear_arith)
        requires
            0 <= half <= n,
    ;
}

/// Decode a `.pie` image into reconstructed planes.
pub fn decode_to_image(data: &[u8]) -> (result: Result<(Image, PieInfo), PieError>)
    requires
        can_decode(data@),
    ensures
        match decoded(data@)->0 {
            Err(error) => result == Err::<(Image, PieInfo), PieError>(error),
            Ok((picture, info)) => result matches Ok((image, read)) && image@ == picture && read
                == info,
        },
{
    match try_decode_to_image(data) {
        Some(result) => result,
        None => unreached(),
    }
}

/// What a header with these dimensions and options says.
pub open spec fn info_of(colour: bool, n: nat, options: Options) -> PieInfo {
    PieInfo {
        colour,
        width: n as u32,
        height: n as u32,
        max_error: options.max_error,
        chroma_max_error: options.chroma_max_error,
    }
}

/// The image that the leaves of a tree render to.
pub open spec fn rendered(tree: QuadTree, n: nat) -> Seq<u8> {
    paint_all(blank(n, n), n, tree.leaves(0, 0, n as int))
}

/// A greyscale file decodes to what rendering the leaves of its tree gives,
/// and to the options it was written with.
pub proof fn law_grey_round_trips(encoded: Encoded, n: nat, options: Options, tree: QuadTree)
    requires
        0 < n <= MAX_EDGE,
        n * n <= isize::MAX,
        tree.divisible(n as int),
        tree.fits(n * n, n, 0, 0, n as int),
        is_grey_file(encoded, n, options, tree),
    ensures
        can_decode(encoded.bytes@),
        decoded(encoded.bytes@) == Some(
            Ok::<(Picture, PieInfo), PieError>(
                (
                    Picture::Grey { width: n, height: n, data: rendered(tree, n) },
                    info_of(false, n, options),
                ),
            ),
        ),
{
    let payload = encoded.bytes@.skip(HEADER_LEN as int);
    let st = Interval::start();
    law_header_round_trips(MODE_GREY, n as u32, n as u32, options, payload);
    lemma_edge_addressable(n as int);
    lemma_write_plane(st, tree, n, n, n as int);
    lemma_low_end_covered(grey_interval(tree, n), payload);
    lemma_plane_follows(st, tree, n, n, n as int, payload);
    lemma_start_follows(payload);
}

/// A colour file decodes to what rendering the leaves of its trees gives, and
/// to the options it was written with.
pub proof fn law_colour_round_trips(
    encoded: Encoded,
    n: nat,
    options: Options,
    y: QuadTree,
    cb: QuadTree,
    cr: QuadTree,
)
    requires
        0 < n <= MAX_EDGE,
        n * n <= isize::MAX,
        y.divisible(n as int),
        y.fits(n * n, n, 0, 0, n as int),
        ({
            let half = half_up(n as int);
            &&& cb.divisible(half)
            &&& cb.fits((half * half) as nat, half as nat, 0, 0, half)
            &&& cr.divisible(half)
            &&& cr.fits((half * half) as nat, half as nat, 0, 0, half)
        }),
        is_colour_file(encoded, n, options, y, cb, cr),
    ensures
        can_decode(encoded.bytes@),
        decoded(encoded.bytes@) == Some(
            Ok::<(Picture, PieInfo), PieError>(
                (
                    Picture::Colour {
                        width: n,
                        height: n,
                        y: rendered(y, n),
                        cb: rendered(cb, half_up(n as int) as nat),
                        cr: rendered(cr, half_up(n as int) as nat),
                    },
                    info_of(true, n, options),
                ),
            ),
        ),
{
    let payload = encoded.bytes@.skip(HEADER_LEN as int);
    let half = half_up(n as int);
    let h = half as nat;
    law_header_round_trips(MODE_COLOUR, n as u32, n as u32, options, payload);
    lemma_edge_addressable(n as int);
    let st0 = Interval::start();
    let st1 = write_plane(st0, y, n, n, n as int);
    let st2 = write_plane(st1, cb, h, h, half);
    let st3 = write_plane(st2, cr, h, h, half);
    lemma_write_plane(st0, y, n, n, n as int);
    lemma_write_plane(st1, cb, h, h, half);
    lemma_write_plane(st2, cr, h, h, half);
    lemma_low_end_covered(st3, payload);
    lemma_plane_follows(st2, cr, h, h, half, payload);
    lemma_plane_follows(st1, cb, h, h, half, payload);
    lemma_plane_follows(st0, y, n, n, n as int, payload);
    lemma_start_follows(payload);
}

} // verus!
