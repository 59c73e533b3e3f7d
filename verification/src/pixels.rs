//! PNG files as greyscale pixels and back.

use crate::image::Grey;
use vstd::arithmetic::div_mod::{lemma_div_by_multiple, lemma_fundamental_div_mod};
use vstd::prelude::*;
use vstd::string::StringExecFns;

verus! {

/// How the samples of a pixel are laid out.
#[derive(Clone, Copy, Debug, PartialEq, Eq, Structural)]
pub enum ColourType {
    Grayscale,
    Rgb,
    Indexed,
    GrayscaleAlpha,
    Rgba,
}

impl ColourType {
    /// The number of samples of one pixel.
    pub open spec fn samples(self) -> nat {
        match self {
            ColourType::Grayscale => 1,
            ColourType::Rgb => 3,
            ColourType::Indexed => 1,
            ColourType::GrayscaleAlpha => 2,
            ColourType::Rgba => 4,
        }
    }

    /// The grey of the pixel whose samples start at `at`: its grey sample, or
    /// the mean of its red, green and blue.
    pub open spec fn grey(self, data: Seq<u8>, at: int) -> u8 {
        if self is Rgb || self is Rgba {
            ((data[at] + data[at + 1] + data[at + 2]) / 3) as u8
        } else {
            data[at]
        }
    }
}

/// The 8-bit samples of a picture, row by row.
pub struct Samples {
    pub colour_type: ColourType,
    pub width: u32,
    pub height: u32,
    pub data: Vec<u8>,
}

/// The grey of each whole pixel of `data`.
pub open spec fn greys(colour_type: ColourType, data: Seq<u8>) -> Seq<u8> {
    Seq::new(
        data.len() / colour_type.samples(),
        |i: int| colour_type.grey(data, i * colour_type.samples()),
    )
}

/// Why a PNG could not be read or written.
pub enum PngError {
    Decoding(png::DecodingError),
    Encoding(png::EncodingError),
    Unsupported(String),
}

/// `png::DecodingError`, carried through unread.
#[verifier::external_type_specification]
#[verifier::external_body]
pub struct ExDecodingError(png::DecodingError);

/// `png::EncodingError`, carried through unread.
#[verifier::external_type_specification]
#[verifier::external_body]
pub struct ExEncodingError(png::EncodingError);

/// The colour type, width, height and 8-bit samples of the first frame of a
/// PNG file, or nothing where the file cannot be decoded.
pub uninterp spec fn decoded_png(file: Seq<u8>) -> Option<(ColourType, u32, u32, Seq<u8>)>;

/// The PNG file for 8-bit samples.
pub uninterp spec fn encoded_png(
    colour_type: ColourType,
    width: u32,
    height: u32,
    data: Seq<u8>,
) -> Seq<u8>;

/// Whether samples make up a picture that is not empty, without a palette.
pub open spec fn is_complete(
    colour_type: ColourType,
    width: u32,
    height: u32,
    data: Seq<u8>,
) -> bool {
    &&& colour_type !is Indexed
    &&& width > 0
    &&& height > 0
    &&& data.len() == width * height * colour_type.samples()
}

/// Whether the encoder can count with the sizes of a picture. The number of
/// samples is below the greatest `usize`. Where they are all there, a row with
/// one more byte in front of it is counted in 32 bits, and all such rows
/// together fit an allocation.
pub open spec fn fits_encoder(
    colour_type: ColourType,
    width: u32,
    height: u32,
    data: Seq<u8>,
) -> bool {
    &&& width * height * colour_type.samples() < usize::MAX
    &&& is_complete(colour_type, width, height, data) ==> {
        &&& width * colour_type.samples() < u32::MAX
        &&& (width * colour_type.samples() + 1) * height <= isize::MAX
    }
}

/// The chunk type `IHDR`, which says how the pixels are laid out.
pub const IHDR: u32 = 0x4948_4452;

/// The chunk type `PLTE`, which holds the palette.
pub const PLTE: u32 = 0x504C_5445;

/// The chunk type `IDAT`, which holds the pixels.
pub const IDAT: u32 = 0x4944_4154;

/// The chunk type `fdAT`, which holds the pixels of a frame.
pub const FDAT: u32 = 0x6664_4154;

/// The chunk type `IEND`, which ends the file.
pub const IEND: u32 = 0x4945_4E44;

/// The big-endian integer in the four bytes from `at` on.
pub open spec fn word(file: Seq<u8>, at: int) -> int {
    file[at] * 0x100_0000 + file[at + 1] * 0x1_0000 + file[at + 2] * 0x100 + file[at + 3]
}

/// Whether the palette that the pixels of a file refer to is made of whole
/// colours, 256 at most, as far as the chunks from `at` on show.
///
/// A chunk is its length, its type, as many bytes as its length says, and a
/// checksum. Only pixels of colour type 3 refer to a palette: that of the first
/// `PLTE` that is not empty, before any pixels.
pub open spec fn palette_fits(file: Seq<u8>, at: int) -> bool
    decreases file.len() - at,
{
    if at < 0 || at + 8 > file.len() {
        true
    } else {
        let len = word(file, at);
        let kind = word(file, at + 4);
        if kind == IDAT || kind == FDAT || kind == IEND || at + 12 + len > file.len() {
            true
        } else if kind == IHDR && len >= 10 && file[at + 17] != 3 {
            true
        } else if kind == PLTE && len > 0 {
            len % 3 == 0 && len <= 768
        } else {
            palette_fits(file, at + 12 + len)
        }
    }
}

/// `png::Decoder::new` on the bytes of a file, with palettes and bit depths
/// normalised to 8-bit samples, then `read_info` and `next_frame`: the result
/// depends on the bytes alone, and on success holds every sample of every
/// pixel. Spreading a palette out panics where it is not made of whole colours
/// or holds more than 256, so such files are left out.
#[verifier::external_body]
fn decode_png(file: &[u8]) -> (decoded: Result<Samples, png::DecodingError>)
    requires
        palette_fits(file@, 8),
    ensures
        match decoded {
            Err(_) => decoded_png(file@) is None,
            Ok(s) => {
                &&& decoded_png(file@) == Some((s.colour_type, s.width, s.height, s.data@))
                &&& s.data@.len() == s.width * s.height * s.colour_type.samples()
            },
        },
{
    let mut decoder = png::Decoder::new(file);
    decoder.set_transformations(png::Transformations::EXPAND | png::Transformations::STRIP_16);
    let mut reader = decoder.read_info()?;
    let mut data = vec![0; reader.output_buffer_size()];
    let info = reader.next_frame(&mut data)?;
    data.truncate(info.buffer_size());
    let colour_type = match info.color_type {
        png::ColorType::Grayscale => ColourType::Grayscale,
        png::ColorType::Rgb => ColourType::Rgb,
        png::ColorType::Indexed => ColourType::Indexed,
        png::ColorType::GrayscaleAlpha => ColourType::GrayscaleAlpha,
        png::ColorType::Rgba => ColourType::Rgba,
    };
    Ok(Samples { colour_type, width: info.width, height: info.height, data })
}

/// `png::Encoder::new` into memory at eight bits per sample, then
/// `write_header` and `write_image_data`: succeeds exactly on a picture
/// without a palette that is not empty and has all its samples, with a file
/// that depends on the arguments alone. Sizes that overflow its counters are
/// left out.
#[verifier::external_body]
fn encode_png(colour_type: ColourType, width: u32, height: u32, data: &[u8]) -> (encoded: Result<
    Vec<u8>,
    png::EncodingError,
>)
    requires
        fits_encoder(colour_type, width, height, data@),
    ensures
        match encoded {
            Ok(file) => {
                &&& is_complete(colour_type, width, height, data@)
                &&& file@ == encoded_png(colour_type, width, height, data@)
            },
            Err(_) => !is_complete(colour_type, width, height, data@),
        },
{
    let mut file = Vec::new();
    let mut encoder = png::Encoder::new(&mut file, width, height);
    encoder.set_color(match colour_type {
        ColourType::Grayscale => png::ColorType::Grayscale,
        ColourType::Rgb => png::ColorType::Rgb,
        ColourType::Indexed => png::ColorType::Indexed,
        ColourType::GrayscaleAlpha => png::ColorType::GrayscaleAlpha,
        ColourType::Rgba => png::ColorType::Rgba,
    });
    encoder.set_depth(png::BitDepth::Eight);
    let mut writer = encoder.write_header()?;
    writer.write_image_data(data)?;
    drop(writer);
    Ok(file)
}

/// The message for a PNG with a palette.
pub open spec fn unsupported_text() -> Seq<char> {
    "unsupported PNG colour type: Indexed"@
}

/// The message for a PNG whose palette is not made of whole colours, or of more
/// than can be referred to.
pub open spec fn palette_text() -> Seq<char> {
    "unsupported PNG palette length"@
}

/// The grey of each whole pixel. RGB(A) pixels are averaged as
/// `(r + g + b) / 3`.
pub fn to_greyscale(colour_type: ColourType, data: &[u8]) -> (grey: Result<Vec<u8>, String>)
    ensures
        match grey {
            Err(message) => colour_type is Indexed && message@ == unsupported_text(),
            Ok(grey) => colour_type !is Indexed && grey@ == greys(colour_type, data@),
        },
{
    let step: usize = match colour_type {
        ColourType::Grayscale => 1,
        ColourType::GrayscaleAlpha => 2,
        ColourType::Rgb => 3,
        ColourType::Rgba => 4,
        ColourType::Indexed => {
            return Err(String::from_str("unsupported PNG colour type: Indexed"));
        },
    };
    let coloured = step > 2;
    let count = data.len() / step;
    let mut grey: Vec<u8> = Vec::new();
    let mut at: usize = 0;
    proof {
        lemma_fundamental_div_mod(data@.len() as int, step as int);
    }
    while grey.len() < count
        invariant
            1 <= step <= 4,
            step == colour_type.samples(),
            coloured == (colour_type is Rgb || colour_type is Rgba),
            coloured ==> step >= 3,
            count * step <= data@.len(),
            grey@.len() <= count,
            at == grey@.len() * step,
            forall|i: int|
                0 <= i < grey@.len() ==> #[trigger] grey@[i] == colour_type.grey(data@, i * step),
        decreases count - grey@.len(),
    {
        let ghost done = grey@.len();
        assert(done * step + step <= count * step) by (nonlinear_arith)
            requires
                done < count,
                step >= 1,
        ;
        assert((done + 1) * step == done * step + step) by (nonlinear_arith);
        let value = if coloured {
            ((data[at] as u16 + data[at + 1] as u16 + data[at + 2] as u16) / 3) as u8
        } else {
            data[at]
        };
        grey.push(value);
        at = at + step;
    }
    assert(grey@ =~= greys(colour_type, data@));
    Ok(grey)
}

/// The greyscale picture of some samples.
pub open spec fn is_grey_of(
    grey: Grey,
    colour_type: ColourType,
    width: u32,
    height: u32,
    data: Seq<u8>,
) -> bool {
    &&& grey.width == width
    &&& grey.height == height
    &&& grey.data@ == greys(colour_type, data)
}

/// Convert samples to 8-bit greyscale.
pub fn grey_from_samples(samples: &Samples) -> (grey: Result<Grey, String>)
    ensures
        match grey {
            Err(message) => samples.colour_type is Indexed && message@ == unsupported_text(),
            Ok(grey) => samples.colour_type !is Indexed && is_grey_of(
                grey,
                samples.colour_type,
                samples.width,
                samples.height,
                samples.data@,
            ),
        },
{
    match to_greyscale(samples.colour_type, samples.data.as_slice()) {
        Err(message) => Err(message),
        Ok(data) => Ok(
            Grey { width: samples.width as usize, height: samples.height as usize, data },
        ),
    }
}

/// Read the big-endian integer in the four bytes from `at` on.
fn read_word(file: &[u8], at: usize) -> (value: u32)
    requires
        at + 4 <= file@.len(),
    ensures
        value == word(file@, at as int),
{
    assert(file.len() <= usize::MAX);
    file[at] as u32 * 0x100_0000 + file[at + 1] as u32 * 0x1_0000 + file[at + 2] as u32 * 0x100
        + file[at + 3] as u32
}

/// Whether the palette that the pixels of a PNG file refer to, if any, is made
/// of whole colours, 256 at most.
pub fn check_palette(file: &[u8]) -> (fits: bool)
    ensures
        fits == palette_fits(file@, 8),
{
    let mut at: usize = 8;
    while at <= file.len() && file.len() - at >= 8
        invariant
            8 <= at,
            palette_fits(file@, at as int) == palette_fits(file@, 8),
        decreases file@.len() + 1 - at,
    {
        assert(file.len() <= usize::MAX);
        let left: usize = file.len() - at - 8;
        let len = read_word(file, at);
        let kind = read_word(file, at + 4);
        if kind == IDAT || kind == FDAT || kind == IEND {
            return true;
        }
        if left < 4 || left - 4 < len as usize {
            return true;
        }
        if kind == IHDR && len >= 10 && file[at + 17] != 3 {
            return true;
        }
        if kind == PLTE && len > 0 {
            return len % 3 == 0 && len <= 768;
        }
        at = at + 12 + len as usize;
    }
    true
}

/// Read the samples of a PNG file, every one of every pixel.
pub fn read_samples(file: &[u8]) -> (samples: Result<Samples, PngError>)
    ensures
        if !palette_fits(file@, 8) {
            samples matches Err(PngError::Unsupported(message)) && message@ == palette_text()
        } else {
            match decoded_png(file@) {
                None => samples matches Err(PngError::Decoding(_)),
                Some((colour_type, width, height, data)) => {
                    &&& samples matches Ok(s)
                    &&& s.colour_type == colour_type
                    &&& s.width == width
                    &&& s.height == height
                    &&& s.data@ == data
                    &&& s.data@.len() == s.width * s.height * s.colour_type.samples()
                },
            }
        },
{
    if !check_palette(file) {
        return Err(PngError::Unsupported(String::from_str("unsupported PNG palette length")));
    }
    match decode_png(file) {
        Err(error) => Err(PngError::Decoding(error)),
        Ok(samples) => Ok(samples),
    }
}

/// Read a PNG file and convert it to 8-bit greyscale.
///
/// The picture has a byte for every pixel.
pub fn read_greyscale(file: &[u8]) -> (grey: Result<Grey, PngError>)
    ensures
        if !palette_fits(file@, 8) {
            grey matches Err(PngError::Unsupported(message)) && message@ == palette_text()
        } else {
            match decoded_png(file@) {
                None => grey matches Err(PngError::Decoding(_)),
                Some((colour_type, width, height, data)) => if colour_type is Indexed {
                    &&& grey matches Err(PngError::Unsupported(message))
                    &&& message@ == unsupported_text()
                } else {
                    &&& grey matches Ok(grey)
                    &&& is_grey_of(grey, colour_type, width, height, data)
                    &&& grey.width == width
                    &&& grey.height == height
                    &&& grey.data@ == greys(colour_type, data)
                    &&& grey.data@.len() == grey.width * grey.height
                },
            }
        },
{
    let samples = match read_samples(file) {
        Err(error) => return Err(error),
        Ok(samples) => samples,
    };
    match grey_from_samples(&samples) {
        Err(message) => Err(PngError::Unsupported(message)),
        Ok(grey) => {
            proof {
                let pixels = samples.width * samples.height;
                let step = samples.colour_type.samples() as int;
                lemma_div_by_multiple(pixels, step);
            }
            Ok(grey)
        },
    }
}

/// Whether the encoder can count with the sizes of a picture.
pub fn check_sizes(colour_type: ColourType, width: u32, height: u32, data: &[u8]) -> (fits: bool)
    ensures
        fits == fits_encoder(colour_type, width, height, data@),
{
    let step: u128 = match colour_type {
        ColourType::Grayscale => 1,
        ColourType::Rgb => 3,
        ColourType::Indexed => 1,
        ColourType::GrayscaleAlpha => 2,
        ColourType::Rgba => 4,
    };
    proof {
        lemma_sizes(width, height, step);
    }
    let row: u128 = width as u128 * step;
    let samples: u128 = width as u128 * height as u128 * step;
    let complete = !matches!(colour_type, ColourType::Indexed) && width > 0 && height > 0
        && data.len() as u128 == samples;
    let rows: u128 = (row + 1) * height as u128;
    samples < usize::MAX as u128 && (!complete || row < u32::MAX as u128 && rows
        <= isize::MAX as u128)
}

/// The sizes of a picture are far from the end of 128 bits.
proof fn lemma_sizes(width: u32, height: u32, step: u128)
    requires
        1 <= step <= 4,
    ensures
        0 <= width * step <= 0x4_0000_0000,
        0 <= width * height < 0x1_0000_0000_0000_0000,
        0 <= width * height * step < 0x4_0000_0000_0000_0000,
        0 <= (width * step + 1) * height <= 0x8_0000_0000_0000_0000,
{
    assert(0 <= width * step <= 0x4_0000_0000) by (nonlinear_arith)
        requires
            1 <= step <= 4,
    ;
    assert(0 <= width * height < 0x1_0000_0000_0000_0000) by (nonlinear_arith);
    let pixels = width * height;
    assert(0 <= pixels * step < 0x4_0000_0000_0000_0000) by (nonlinear_arith)
        requires
            0 <= pixels < 0x1_0000_0000_0000_0000,
            1 <= step <= 4,
    ;
    let row = width * step + 1;
    assert(0 <= row * height <= 0x8_0000_0000_0000_0000) by (nonlinear_arith)
        requires
            0 <= row <= 0x4_0000_0001,
    ;
}

/// An 8-bit greyscale PNG file.
pub fn write_greyscale(width: u32, height: u32, data: &[u8]) -> (file: Result<Vec<u8>, PngError>)
    requires
        fits_encoder(ColourType::Grayscale, width, height, data@),
    ensures
        match file {
            Ok(file) => {
                &&& is_complete(ColourType::Grayscale, width, height, data@)
                &&& file@ == encoded_png(ColourType::Grayscale, width, height, data@)
            },
            Err(error) => {
                &&& error is Encoding
                &&& !is_complete(ColourType::Grayscale, width, height, data@)
            },
        },
        file is Ok <==> width > 0 && height > 0 && data@.len() == width * height,
{
    match encode_png(ColourType::Grayscale, width, height, data) {
        Ok(file) => Ok(file),
        Err(error) => Err(PngError::Encoding(error)),
    }
}

/// An 8-bit RGB PNG file.
pub fn write_rgb(width: u32, height: u32, data: &[u8]) -> (file: Result<Vec<u8>, PngError>)
    requires
        fits_encoder(ColourType::Rgb, width, height, data@),
    ensures
        match file {
            Ok(file) => {
                &&& is_complete(ColourType::Rgb, width, height, data@)
                &&& file@ == encoded_png(ColourType::Rgb, width, height, data@)
            },
            Err(error) => {
                &&& error is Encoding
                &&& !is_complete(ColourType::Rgb, width, height, data@)
            },
        },
        file is Ok <==> width > 0 && height > 0 && data@.len() == width * height * 3,
{
    match encode_png(ColourType::Rgb, width, height, data) {
        Ok(file) => Ok(file),
        Err(error) => Err(PngError::Encoding(error)),
    }
}

/// The grey of a colour pixel is the mean of its red, green and blue, rounded
/// down. There is one for every three samples, or every four with alpha.
pub proof fn law_grey_is_the_mean_of_the_colours(colour_type: ColourType, data: Seq<u8>, i: int)
    requires
        colour_type is Rgb || colour_type is Rgba,
        0 <= i < greys(colour_type, data).len(),
    ensures
        ({
            let step: int = if colour_type is Rgba { 4 } else { 3 };
            let grey = greys(colour_type, data)[i];
            let sum = data[step * i] + data[step * i + 1] + data[step * i + 2];
            &&& greys(colour_type, data).len() == data.len() as int / step
            &&& 3 * grey <= sum < 3 * grey + 3
        }),
{
}

/// The grey of a pixel without colour is its first sample. There is one for
/// every sample, or every two with alpha.
pub proof fn law_grey_is_the_first_sample(colour_type: ColourType, data: Seq<u8>, i: int)
    requires
        colour_type is Grayscale || colour_type is GrayscaleAlpha,
        0 <= i < greys(colour_type, data).len(),
    ensures
        ({
            let step: int = if colour_type is GrayscaleAlpha { 2 } else { 1 };
            &&& greys(colour_type, data).len() == data.len() as int / step
            &&& greys(colour_type, data)[i] == data[step * i]
        }),
{
}

/// Exchanging two of red, green and blue, in every pixel, changes no grey.
pub proof fn law_colours_may_be_exchanged(
    colour_type: ColourType,
    data: Seq<u8>,
    other: Seq<u8>,
    step: int,
    p: int,
    q: int,
    r: int,
)
    requires
        colour_type is Rgb && step == 3 || colour_type is Rgba && step == 4,
        0 <= p < 3,
        0 <= q < 3,
        0 <= r < 3,
        p != q && q != r && p != r,
        data.len() == other.len(),
        forall|i: int|
            0 <= i < data.len() as int / step ==> {
                &&& #[trigger] other[step * i + p] == data[step * i + q]
                &&& other[step * i + q] == data[step * i + p]
                &&& other[step * i + r] == data[step * i + r]
            },
    ensures
        greys(colour_type, other) == greys(colour_type, data),
{
    let (one, two) = (greys(colour_type, other), greys(colour_type, data));
    assert forall|i: int| 0 <= i < one.len() implies one[i] == two[i] by {
        assert(other[step * i + p] == data[step * i + q]);
        law_grey_is_the_mean_of_the_colours(colour_type, data, i);
        law_grey_is_the_mean_of_the_colours(colour_type, other, i);
    }
    assert(one =~= two);
}

/// Alpha never matters: pictures with the same colours have the same greys,
/// with it or without it, whatever it is.
pub proof fn law_alpha_does_not_matter(count: int, colours: Seq<u8>, alpha: Seq<u8>)
    requires
        colours.len() == 3 * count,
        alpha.len() == 4 * count,
        forall|i: int|
            0 <= i < count ==> {
                &&& #[trigger] alpha[4 * i] == colours[3 * i]
                &&& alpha[4 * i + 1] == colours[3 * i + 1]
                &&& alpha[4 * i + 2] == colours[3 * i + 2]
            },
    ensures
        greys(ColourType::Rgba, alpha) == greys(ColourType::Rgb, colours),
{
    let (one, two) = (greys(ColourType::Rgba, alpha), greys(ColourType::Rgb, colours));
    assert(ColourType::Rgba.samples() == 4 && ColourType::Rgb.samples() == 3);
    assert(one.len() == count && two.len() == count);
    assert forall|i: int| 0 <= i < one.len() implies one[i] == two[i] by {
        assert(alpha[4 * i] == colours[3 * i]);
        law_grey_is_the_mean_of_the_colours(ColourType::Rgba, alpha, i);
        law_grey_is_the_mean_of_the_colours(ColourType::Rgb, colours, i);
    }
    assert(one =~= two);
}

/// The same without colour.
pub proof fn law_alpha_of_greys_does_not_matter(plain: Seq<u8>, alpha: Seq<u8>)
    requires
        alpha.len() == 2 * plain.len(),
        forall|i: int| 0 <= i < plain.len() ==> #[trigger] alpha[2 * i] == plain[i],
    ensures
        greys(ColourType::GrayscaleAlpha, alpha) == plain,
        greys(ColourType::Grayscale, plain) == plain,
{
    let one = greys(ColourType::GrayscaleAlpha, alpha);
    assert(ColourType::GrayscaleAlpha.samples() == 2);
    assert(one.len() == alpha.len() / 2);
    assert(one.len() == plain.len());
    assert forall|i: int| 0 <= i < one.len() implies one[i] == plain[i] by {
        assert(alpha[2 * i] == plain[i]);
    }
    assert(one =~= plain);
    assert(greys(ColourType::Grayscale, plain) =~= plain);
}

/// A whole chunk stands at `at`: its length, big-endian, its type, as many
/// bytes, and a checksum.
pub open spec fn is_chunk(file: Seq<u8>, at: int, len: int, kind: Seq<u8>) -> bool {
    &&& 0 <= at
    &&& at + 12 + len <= file.len()
    &&& len == file[at] * 0x100_0000 + file[at + 1] * 0x1_0000 + file[at + 2] * 0x100 + file[at + 3]
    &&& kind == file.subrange(at + 4, at + 8)
}

/// The type of a chunk is its four letters.
proof fn lemma_kind(file: Seq<u8>, at: int, len: int, kind: Seq<u8>)
    requires
        is_chunk(file, at, len, kind),
    ensures
        word(file, at) == len,
        word(file, at + 4) == IHDR <==> kind == seq![73u8, 72, 68, 82],
        word(file, at + 4) == PLTE <==> kind == seq![80u8, 76, 84, 69],
        word(file, at + 4) == IDAT <==> kind == seq![73u8, 68, 65, 84],
        word(file, at + 4) == FDAT <==> kind == seq![102u8, 100, 65, 84],
        word(file, at + 4) == IEND <==> kind == seq![73u8, 69, 78, 68],
{
    assert(kind[0] == file[at + 4] && kind[1] == file[at + 5] && kind[2] == file[at + 6] && kind[3]
        == file[at + 7]);
    if word(file, at + 4) == IHDR {
        assert(kind =~= seq![73u8, 72, 68, 82]);
    }
    if word(file, at + 4) == PLTE {
        assert(kind =~= seq![80u8, 76, 84, 69]);
    }
    if word(file, at + 4) == IDAT {
        assert(kind =~= seq![73u8, 68, 65, 84]);
    }
    if word(file, at + 4) == FDAT {
        assert(kind =~= seq![102u8, 100, 65, 84]);
    }
    if word(file, at + 4) == IEND {
        assert(kind =~= seq![73u8, 69, 78, 68]);
    }
}

/// How a PNG file is searched for its palette. `PLTE` holds it, unless it is
/// empty: whole colours of three bytes, 256 at most. `IDAT`, `fdAT` and `IEND`
/// end the search, and so does an `IHDR` with another colour type than 3. Any
/// other chunk is passed over.
pub proof fn law_palette_is_the_first_before_the_pixels(
    file: Seq<u8>,
    at: int,
    len: int,
    kind: Seq<u8>,
)
    requires
        is_chunk(file, at, len, kind),
    ensures
        ({
            let plte = kind == seq![80u8, 76, 84, 69] && len > 0;
            let ends = kind == seq![73u8, 68, 65, 84] || kind == seq![102u8, 100, 65, 84] || kind
                == seq![73u8, 69, 78, 68];
            let plain = kind == seq![73u8, 72, 68, 82] && len >= 10 && file[at + 17] != 3;
            &&& plte ==> (palette_fits(file, at) <==> len % 3 == 0 && len / 3 <= 256)
            &&& ends || plain ==> palette_fits(file, at)
            &&& !plte && !ends && !plain ==> palette_fits(file, at) == palette_fits(
                file,
                at + 12 + len,
            )
        }),
{
    lemma_kind(file, at, len, kind);
}

/// Where no whole chunk is left, there is no palette.
pub proof fn law_no_palette_past_the_end(file: Seq<u8>, at: int)
    requires
        0 <= at,
        at + 8 > file.len() || at + 12 + file[at] * 0x100_0000 + file[at + 1] * 0x1_0000 + file[at
            + 2] * 0x100 + file[at + 3] > file.len(),
    ensures
        palette_fits(file, at),
{
}

/// What the encoder can count with: any picture of less than two gigabytes,
/// with a byte for every row; of a complete one, no row that takes more than 32
/// bits to count.
pub proof fn law_sizes_that_fit(colour_type: ColourType, width: u32, height: u32, data: Seq<u8>)
    ensures
        ({
            let step: int = match colour_type {
                ColourType::Grayscale | ColourType::Indexed => 1,
                ColourType::GrayscaleAlpha => 2,
                ColourType::Rgb => 3,
                ColourType::Rgba => 4,
            };
            let samples = width * height * step;
            let whole = !(colour_type is Indexed) && width > 0 && height > 0 && data.len()
                == samples;
            &&& samples < usize::MAX && !whole ==> fits_encoder(colour_type, width, height, data)
            &&& samples + height <= 0x7FFF_FFFF ==> fits_encoder(colour_type, width, height, data)
            &&& samples >= usize::MAX ==> !fits_encoder(colour_type, width, height, data)
            &&& whole && width * step >= u32::MAX ==> !fits_encoder(
                colour_type,
                width,
                height,
                data,
            )
            &&& whole && samples + height > isize::MAX ==> !fits_encoder(
                colour_type,
                width,
                height,
                data,
            )
        }),
{
    let step = colour_type.samples() as int;
    let samples = width * height * step;
    assert((width * step + 1) * height == samples + height) by (nonlinear_arith)
        requires
            samples == width * height * step,
    ;
    if width > 0 && height > 0 {
        assert(width * step <= samples) by (nonlinear_arith)
            requires
                samples == width * height * step,
                height >= 1,
                step >= 1,
                width >= 1,
        ;
    }
}

/// A greyscale picture has the size of its source, and its greys.
pub proof fn law_greyscale_keeps_the_size(
    grey: Grey,
    colour_type: ColourType,
    width: u32,
    height: u32,
    data: Seq<u8>,
)
    ensures
        is_grey_of(grey, colour_type, width, height, data) <==> grey.width == width && grey.height
            == height && grey.data@ == greys(colour_type, data),
        unsupported_text() == "unsupported PNG colour type: Indexed"@,
        palette_text() == "unsupported PNG palette length"@,
{
}

} // verus!
