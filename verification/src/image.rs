//! Images, options and errors.

use crate::text::{decimal, decimal_text};
use vstd::prelude::*;
use vstd::string::StringExecFns;

verus! {

/// Maximum mean-squared error tolerated by a fitted plane before the
/// sub-image is subdivided, as the bits of the number 32.
pub const MAX_ERROR: u64 = 0x4040_0000_0000_0000;

/// The looser bound for the chroma planes, as the bits of the number 64: the
/// eye is far less sensitive to colour detail than to brightness.
pub const CHROMA_MAX_ERROR: u64 = 0x4050_0000_0000_0000;

/// Error bounds, each as the bits of an IEEE 754 double.
#[derive(Clone, Copy, Debug, PartialEq, Eq, Structural)]
pub struct Options {
    /// The luma (and greyscale) bound.
    pub max_error: u64,
    /// The chroma bound.
    pub chroma_max_error: u64,
}

impl Default for Options {
    fn default() -> (options: Self)
        ensures
            options.max_error == MAX_ERROR,
            options.chroma_max_error == CHROMA_MAX_ERROR,
    {
        Options { max_error: MAX_ERROR, chroma_max_error: CHROMA_MAX_ERROR }
    }
}

/// An 8-bit greyscale image in row-major order.
pub struct Grey {
    pub width: usize,
    pub height: usize,
    pub data: Vec<u8>,
}

/// A 4:2:0 YCbCr image: luma at full resolution, chroma at half of it.
pub struct Colour {
    pub width: usize,
    pub height: usize,
    pub y: Vec<u8>,
    pub cb: Vec<u8>,
    pub cr: Vec<u8>,
}

/// Half of an edge, rounded up.
pub open spec fn half_up(edge: int) -> int {
    (edge + 1) / 2
}

impl Colour {
    /// The dimensions of the chroma planes.
    pub fn chroma_dims(&self) -> (dims: (usize, usize))
        ensures
            dims.0 == half_up(self.width as int),
            dims.1 == half_up(self.height as int),
    {
        (self.width / 2 + self.width % 2, self.height / 2 + self.height % 2)
    }
}

/// An image of either kind.
pub enum Image {
    Grey(Grey),
    Colour(Colour),
}

/// What an image shows.
pub enum Picture {
    Grey { width: nat, height: nat, data: Seq<u8> },
    Colour { width: nat, height: nat, y: Seq<u8>, cb: Seq<u8>, cr: Seq<u8> },
}

impl View for Image {
    type V = Picture;

    open spec fn view(&self) -> Picture {
        match self {
            Image::Grey(img) => Picture::Grey {
                width: img.width as nat,
                height: img.height as nat,
                data: img.data@,
            },
            Image::Colour(img) => Picture::Colour {
                width: img.width as nat,
                height: img.height as nat,
                y: img.y@,
                cb: img.cb@,
                cr: img.cr@,
            },
        }
    }
}

/// Why an image or a file is refused.
#[derive(Clone, Copy, Debug, PartialEq, Eq, Structural)]
pub enum PieError {
    /// The file has no room for a header.
    TooShort,
    /// The file does not start with the magic.
    BadMagic,
    /// The mode byte is none of the known ones.
    UnknownMode(u8),
    /// Width or height is zero.
    Degenerate,
    /// Width and height differ.
    NotSquare { width: usize, height: usize },
}

impl PieError {
    /// The text of an error.
    pub open spec fn text(self) -> Seq<char> {
        match self {
            PieError::TooShort => "file is too short to be a .pie file"@,
            PieError::BadMagic => "not a .pie file (bad magic)"@,
            PieError::UnknownMode(mode) => "unknown .pie mode "@ + decimal(mode as nat),
            PieError::Degenerate => "degenerate .pie dimensions"@,
            PieError::NotSquare { width, height } => "image must be square, got "@ + decimal(
                width as nat,
            ) + "x"@ + decimal(height as nat),
        }
    }

    /// The error as a message.
    pub fn message(&self) -> (message: String)
        ensures
            message@ == self.text(),
    {
        match self {
            PieError::TooShort => String::from_str("file is too short to be a .pie file"),
            PieError::BadMagic => String::from_str("not a .pie file (bad magic)"),
            PieError::UnknownMode(mode) => String::from_str("unknown .pie mode ").concat(
                decimal_text(*mode as usize).as_str(),
            ),
            PieError::Degenerate => String::from_str("degenerate .pie dimensions"),
            PieError::NotSquare { width, height } => String::from_str(
                "image must be square, got ",
            ).concat(decimal_text(*width).as_str()).concat("x").concat(
                decimal_text(*height).as_str(),
            ),
        }
    }
}

/// The edge of a square image.
pub fn square_edge(width: usize, height: usize) -> (edge: Result<usize, PieError>)
    ensures
        edge == (if width == height {
            Ok::<usize, PieError>(height)
        } else {
            Err(PieError::NotSquare { width, height })
        }),
{
    if width != height {
        Err(PieError::NotSquare { width, height })
    } else {
        Ok(height)
    }
}

/// Half of an edge, rounded up, is the smallest edge that is doubled no less.
pub proof fn law_half_of_an_edge(edge: int)
    ensures
        edge <= 2 * half_up(edge) <= edge + 1,
{
}

/// The texts of the errors, with their numbers in decimal.
pub proof fn law_texts_of_errors(mode: u8, width: usize, height: usize)
    ensures
        PieError::TooShort.text() == "file is too short to be a .pie file"@,
        PieError::BadMagic.text() == "not a .pie file (bad magic)"@,
        PieError::UnknownMode(mode).text() == "unknown .pie mode "@ + decimal(mode as nat),
        PieError::Degenerate.text() == "degenerate .pie dimensions"@,
        (PieError::NotSquare { width, height }).text() == "image must be square, got "@ + decimal(
            width as nat,
        ) + "x"@ + decimal(height as nat),
{
}

/// An image shows its own planes, at its own size.
pub proof fn law_images_show_their_planes(grey: Grey, colour: Colour)
    ensures
        Image::Grey(grey)@ == (Picture::Grey {
            width: grey.width as nat,
            height: grey.height as nat,
            data: grey.data@,
        }),
        Image::Colour(colour)@ == (Picture::Colour {
            width: colour.width as nat,
            height: colour.height as nat,
            y: colour.y@,
            cb: colour.cb@,
            cr: colour.cr@,
        }),
{
}

} // verus!
