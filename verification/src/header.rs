//! The header of a `.pie` file.
//!
//! ```text
//! offset  size  field
//! 0       4     magic "PIE1"
//! 4       1     mode: 0 = greyscale, 1 = colour (4:2:0 YCbCr)
//! 5       4     width, little-endian u32
//! 9       4     height, little-endian u32
//! 13      8     luma max error as f64 bits, little-endian (metadata)
//! 21      8     chroma max error as f64 bits, little-endian (metadata)
//! 29      ..    range-coded quadtree payload
//! ```

use crate::bytes::{
    byte_limit, from_little_endian, law_eight_little_endian_bytes, law_four_little_endian_bytes,
    law_little_endian_round_trips, lemma_little_endian_len, little_endian, push_little_endian,
    read_little_endian,
};
use crate::image::{Options, PieError};
use vstd::prelude::*;
use vstd::slice::slice_subrange;

verus! {

pub const MODE_GREY: u8 = 0;

pub const MODE_COLOUR: u8 = 1;

/// magic + mode + width + height + max_error + chroma_max_error.
pub const HEADER_LEN: usize = 29;

/// File magic, "PIE1"; the trailing digit is the format version.
pub open spec fn magic() -> Seq<u8> {
    seq![0x50u8, 0x49u8, 0x45u8, 0x31u8]
}

/// Metadata read back out of a `.pie` header.
#[derive(Clone, Copy, Debug, PartialEq, Eq, Structural)]
pub struct PieInfo {
    pub colour: bool,
    pub width: u32,
    pub height: u32,
    /// The luma bound, as the bits of an IEEE 754 double.
    pub max_error: u64,
    /// The chroma bound, as the bits of an IEEE 754 double.
    pub chroma_max_error: u64,
}

/// The bytes of a header.
pub open spec fn header_bytes(mode: u8, width: u32, height: u32, options: Options) -> Seq<u8> {
    magic() + seq![mode] + little_endian(width as nat, 4) + little_endian(height as nat, 4)
        + little_endian(options.max_error as nat, 8) + little_endian(
        options.chroma_max_error as nat,
        8,
    )
}

/// What the header of a file says, or why it is refused.
pub open spec fn header_info(data: Seq<u8>) -> Result<PieInfo, PieError> {
    if data.len() < HEADER_LEN {
        Err(PieError::TooShort)
    } else if data.subrange(0, 4) != magic() {
        Err(PieError::BadMagic)
    } else if data[4] != MODE_GREY && data[4] != MODE_COLOUR {
        Err(PieError::UnknownMode(data[4]))
    } else {
        let width = from_little_endian(data.subrange(5, 9)) as u32;
        let height = from_little_endian(data.subrange(9, 13)) as u32;
        if width == 0 || height == 0 {
            Err(PieError::Degenerate)
        } else {
            Ok(
                PieInfo {
                    colour: data[4] == MODE_COLOUR,
                    width,
                    height,
                    max_error: from_little_endian(data.subrange(13, 21)) as u64,
                    chroma_max_error: from_little_endian(data.subrange(21, 29)) as u64,
                },
            )
        }
    }
}

/// Append a header.
pub fn write_header(buf: &mut Vec<u8>, mode: u8, width: u32, height: u32, options: Options)
    ensures
        final(buf)@ == old(buf)@ + header_bytes(mode, width, height, options),
{
    let ghost before = buf@;
    buf.push(0x50);
    buf.push(0x49);
    buf.push(0x45);
    buf.push(0x31);
    buf.push(mode);
    push_little_endian(buf, width as u64, 4);
    push_little_endian(buf, height as u64, 4);
    push_little_endian(buf, options.max_error, 8);
    push_little_endian(buf, options.chroma_max_error, 8);
    assert(buf@ =~= before + header_bytes(mode, width, height, options));
}

/// Read a header: what it says, and the payload after it.
pub fn read_header(data: &[u8]) -> (header: Result<(PieInfo, &[u8]), PieError>)
    ensures
        match header_info(data@) {
            Err(error) => header == Err::<(PieInfo, &[u8]), PieError>(error),
            Ok(info) => header matches Ok((read, payload)) && read == info && payload@
                == data@.skip(HEADER_LEN as int),
        },
{
    if data.len() < HEADER_LEN {
        return Err(PieError::TooShort);
    }
    if data[0] != 0x50 || data[1] != 0x49 || data[2] != 0x45 || data[3] != 0x31 {
        assert(data@.subrange(0, 4) != magic()) by {
            let found = data@.subrange(0, 4);
            assert(found[0] == data@[0] && found[1] == data@[1] && found[2] == data@[2] && found[3]
                == data@[3]);
        }
        return Err(PieError::BadMagic);
    }
    assert(data@.subrange(0, 4) =~= magic());
    let mode = data[4];
    if mode != MODE_GREY && mode != MODE_COLOUR {
        return Err(PieError::UnknownMode(mode));
    }
    proof {
        reveal_with_fuel(byte_limit, 9);
    }
    let width = read_little_endian(data, 5, 4) as u32;
    let height = read_little_endian(data, 9, 4) as u32;
    if width == 0 || height == 0 {
        return Err(PieError::Degenerate);
    }
    let max_error = read_little_endian(data, 13, 8);
    let chroma_max_error = read_little_endian(data, 21, 8);
    let info = PieInfo { colour: mode == MODE_COLOUR, width, height, max_error, chroma_max_error };
    let payload = slice_subrange(data, HEADER_LEN, data.len());
    assert(payload@ =~= data@.skip(HEADER_LEN as int));
    Ok((info, payload))
}

pub proof fn lemma_header_len(mode: u8, width: u32, height: u32, options: Options)
    ensures
        header_bytes(mode, width, height, options).len() == HEADER_LEN,
{
    lemma_little_endian_len(width as nat, 4);
    lemma_little_endian_len(height as nat, 4);
    lemma_little_endian_len(options.max_error as nat, 8);
    lemma_little_endian_len(options.chroma_max_error as nat, 8);
}

/// A header says what was written into it, whatever follows it.
pub proof fn law_header_round_trips(
    mode: u8,
    width: u32,
    height: u32,
    options: Options,
    payload: Seq<u8>,
)
    requires
        mode == MODE_GREY || mode == MODE_COLOUR,
        width > 0,
        height > 0,
    ensures
        ({
            let file = header_bytes(mode, width, height, options) + payload;
            &&& header_info(file) == Ok::<PieInfo, PieError>(
                PieInfo {
                    colour: mode == MODE_COLOUR,
                    width,
                    height,
                    max_error: options.max_error,
                    chroma_max_error: options.chroma_max_error,
                },
            )
            &&& file.skip(HEADER_LEN as int) == payload
        }),
{
    let file = header_bytes(mode, width, height, options) + payload;
    let (w, h) = (little_endian(width as nat, 4), little_endian(height as nat, 4));
    let (e, c) = (
        little_endian(options.max_error as nat, 8),
        little_endian(options.chroma_max_error as nat, 8),
    );
    lemma_little_endian_len(width as nat, 4);
    lemma_little_endian_len(height as nat, 4);
    lemma_little_endian_len(options.max_error as nat, 8);
    lemma_little_endian_len(options.chroma_max_error as nat, 8);
    reveal_with_fuel(byte_limit, 9);
    law_little_endian_round_trips(width as nat, 4);
    law_little_endian_round_trips(height as nat, 4);
    law_little_endian_round_trips(options.max_error as nat, 8);
    law_little_endian_round_trips(options.chroma_max_error as nat, 8);
    assert(file.subrange(0, 4) =~= magic());
    assert(file[4] == mode);
    assert(file.subrange(5, 9) =~= w);
    assert(file.subrange(9, 13) =~= h);
    assert(file.subrange(13, 21) =~= e);
    assert(file.subrange(21, 29) =~= c);
    assert(file.skip(HEADER_LEN as int) =~= payload);
}

/// The number in the four bytes from `at` on, the least significant first.
pub open spec fn four_bytes(file: Seq<u8>, at: int) -> int {
    file[at] + 0x100 * file[at + 1] + 0x1_0000 * file[at + 2] + 0x100_0000 * file[at + 3]
}

proof fn lemma_four_bytes(file: Seq<u8>, at: int)
    requires
        0 <= at,
        at + 4 <= file.len(),
    ensures
        from_little_endian(file.subrange(at, at + 4)) == four_bytes(file, at),
{
    law_four_little_endian_bytes(file.subrange(at, at + 4));
}

proof fn lemma_eight_bytes(file: Seq<u8>, at: int)
    requires
        0 <= at,
        at + 8 <= file.len(),
    ensures
        from_little_endian(file.subrange(at, at + 8)) == four_bytes(file, at) + 0x1_0000_0000
            * four_bytes(file, at + 4),
{
    let s = file.subrange(at, at + 8);
    law_eight_little_endian_bytes(s);
    lemma_four_bytes(file, at);
    lemma_four_bytes(file, at + 4);
    assert(s.take(4) =~= file.subrange(at, at + 4));
    assert(s.skip(4) =~= file.subrange(at + 4, at + 8));
}

/// Where a header holds what: "PIE1", the mode, the width, the height and the
/// two bounds, each number with its least significant byte first.
pub proof fn law_header_layout(mode: u8, width: u32, height: u32, options: Options)
    ensures
        ({
            let header = header_bytes(mode, width, height, options);
            &&& header.len() == 29
            &&& header[0] == 0x50 && header[1] == 0x49 && header[2] == 0x45 && header[3] == 0x31
            &&& header[4] == mode
            &&& four_bytes(header, 5) == width
            &&& four_bytes(header, 9) == height
            &&& four_bytes(header, 13) + 0x1_0000_0000 * four_bytes(header, 17)
                == options.max_error
            &&& four_bytes(header, 21) + 0x1_0000_0000 * four_bytes(header, 25)
                == options.chroma_max_error
        }),
{
    let header = header_bytes(mode, width, height, options);
    let (w, h) = (little_endian(width as nat, 4), little_endian(height as nat, 4));
    let (e, c) = (
        little_endian(options.max_error as nat, 8),
        little_endian(options.chroma_max_error as nat, 8),
    );
    lemma_little_endian_len(width as nat, 4);
    lemma_little_endian_len(height as nat, 4);
    lemma_little_endian_len(options.max_error as nat, 8);
    lemma_little_endian_len(options.chroma_max_error as nat, 8);
    reveal_with_fuel(byte_limit, 9);
    law_little_endian_round_trips(width as nat, 4);
    law_little_endian_round_trips(height as nat, 4);
    law_little_endian_round_trips(options.max_error as nat, 8);
    law_little_endian_round_trips(options.chroma_max_error as nat, 8);
    assert(header.subrange(5, 9) =~= w);
    assert(header.subrange(9, 13) =~= h);
    assert(header.subrange(13, 21) =~= e);
    assert(header.subrange(21, 29) =~= c);
    lemma_four_bytes(header, 5);
    lemma_four_bytes(header, 9);
    lemma_eight_bytes(header, 13);
    lemma_eight_bytes(header, 21);
}

/// Why a file is refused by its header, and what any other header says, byte
/// by byte.
pub proof fn law_header_is_read_byte_by_byte(file: Seq<u8>)
    ensures
        ({
            let short = file.len() < 29;
            let named = file[0] == 0x50 && file[1] == 0x49 && file[2] == 0x45 && file[3] == 0x31;
            let known = file[4] == 0 || file[4] == 1;
            let empty = four_bytes(file, 5) == 0 || four_bytes(file, 9) == 0;
            let info = header_info(file);
            &&& short ==> info == Err::<PieInfo, PieError>(PieError::TooShort)
            &&& !short && !named ==> info == Err::<PieInfo, PieError>(PieError::BadMagic)
            &&& !short && named && !known ==> info == Err::<PieInfo, PieError>(
                PieError::UnknownMode(file[4]),
            )
            &&& !short && named && known && empty ==> info == Err::<PieInfo, PieError>(
                PieError::Degenerate,
            )
            &&& !short && named && known && !empty ==> {
                &&& info matches Ok(read)
                &&& read.colour == (file[4] == 1)
                &&& read.width == four_bytes(file, 5)
                &&& read.height == four_bytes(file, 9)
                &&& read.max_error == four_bytes(file, 13) + 0x1_0000_0000 * four_bytes(file, 17)
                &&& read.chroma_max_error == four_bytes(file, 21) + 0x1_0000_0000 * four_bytes(
                    file,
                    25,
                )
            }
        }),
{
    if file.len() >= 29 {
        let found = file.subrange(0, 4);
        assert(found[0] == file[0] && found[1] == file[1] && found[2] == file[2] && found[3]
            == file[3]);
        if file[0] == 0x50 && file[1] == 0x49 && file[2] == 0x45 && file[3] == 0x31 {
            assert(found =~= magic());
        }
        lemma_four_bytes(file, 5);
        lemma_four_bytes(file, 9);
        lemma_eight_bytes(file, 13);
        lemma_eight_bytes(file, 21);
    }
}

} // verus!
