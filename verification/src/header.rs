//! The image header: dimensions, channel count and colorspace.

use crate::error::DecoderError;
use crate::input::{be_u32_value, starts_with};
use vstd::prelude::*;

verus! {

/// How many channels each pixel of the image has.
#[derive(Debug, Clone, Copy, PartialEq, Eq, Structural)]
pub enum Channels {
    /// Red, green and blue: three bytes per pixel.
    Rgb,
    /// Red, green, blue and alpha: four bytes per pixel.
    Rgba,
}

/// The colorspace that the header announces. It is carried through and has
/// no effect on decoding.
#[derive(Debug, Clone, Copy, PartialEq, Eq, Structural)]
pub enum Colorspace {
    /// sRGB with linear alpha.
    Srgb,
    /// All channels linear.
    Linear,
}

/// The parsed header of an image.
#[derive(Debug, Clone, Copy, PartialEq, Eq, Structural)]
pub struct Header {
    pub width: u32,
    pub height: u32,
    pub channels: Channels,
    pub colorspace: Colorspace,
}

impl Channels {
    /// The byte that stands for this channel count in a header, which is
    /// also the number of bytes per decoded pixel.
    pub open spec fn code(self) -> u8 {
        match self {
            Channels::Rgb => 3,
            Channels::Rgba => 4,
        }
    }

    /// Whether decoded pixels carry an alpha byte.
    pub open spec fn has_alpha(self) -> bool {
        self == Channels::Rgba
    }

    /// The number of bytes that each decoded pixel takes.
    pub fn count(&self) -> (n: u8)
        ensures
            n == self.code(),
    {
        match self {
            Channels::Rgb => 3,
            Channels::Rgba => 4,
        }
    }
}

impl Colorspace {
    /// The byte that stands for this colorspace in a header.
    pub open spec fn code(self) -> u8 {
        match self {
            Colorspace::Srgb => 0,
            Colorspace::Linear => 1,
        }
    }
}

impl Header {
    /// The number of pixels in the image.
    pub open spec fn pixel_count(self) -> nat {
        (self.width * self.height) as nat
    }

    /// The number of bytes in the decoded image.
    pub open spec fn byte_count(self) -> nat {
        (self.width * self.height * self.channels.code()) as nat
    }

    /// Width and height of the image, in pixels.
    pub fn dimensions(&self) -> (size: (u32, u32))
        ensures
            size == (self.width, self.height),
    {
        (self.width, self.height)
    }
}

/// The four bytes that open every image: the letters `qoif`.
pub open spec fn magic() -> Seq<u8> {
    seq![0x71u8, 0x6fu8, 0x69u8, 0x66u8]
}

/// What a header's bytes mean. The fields are read in order, and the first
/// that is missing or wrong decides the error: the magic, the width, the
/// height, the channel count, the colorspace. Bytes after the fourteenth
/// are not looked at.
pub open spec fn header_of(bytes: Seq<u8>) -> Result<Header, DecoderError> {
    if bytes.len() < 4 {
        Err(DecoderError::TooShortHeader)
    } else if !starts_with(bytes, magic()) {
        Err(DecoderError::InvalidMagic)
    } else if bytes.len() < 13 {
        Err(DecoderError::TooShortHeader)
    } else if bytes[12] != 3 && bytes[12] != 4 {
        Err(DecoderError::InvalidChannels)
    } else if bytes.len() < 14 {
        Err(DecoderError::TooShortHeader)
    } else if bytes[13] != 0 && bytes[13] != 1 {
        Err(DecoderError::InvalidColorspace)
    } else {
        Ok(
            Header {
                width: be_u32_value(bytes[4], bytes[5], bytes[6], bytes[7]) as u32,
                height: be_u32_value(bytes[8], bytes[9], bytes[10], bytes[11]) as u32,
                channels: if bytes[12] == 3 {
                    Channels::Rgb
                } else {
                    Channels::Rgba
                },
                colorspace: if bytes[13] == 0 {
                    Colorspace::Srgb
                } else {
                    Colorspace::Linear
                },
            },
        )
    }
}

/// The four bytes of `value`, most significant first.
pub open spec fn be_bytes(value: u32) -> Seq<u8> {
    seq![
        (value / 0x100_0000) as u8,
        ((value / 0x1_0000) % 256) as u8,
        ((value / 0x100) % 256) as u8,
        (value % 256) as u8,
    ]
}

/// The fourteen bytes that stand for `header`.
pub open spec fn header_bytes(header: Header) -> Seq<u8> {
    magic() + be_bytes(header.width) + be_bytes(header.height) + seq![
        header.channels.code(),
        header.colorspace.code(),
    ]
}

/// Reading four bytes as a big-endian number undoes writing the number as
/// four bytes.
pub proof fn lemma_be_round_trip(value: u32)
    ensures
        be_bytes(value).len() == 4,
        be_u32_value(
            be_bytes(value)[0],
            be_bytes(value)[1],
            be_bytes(value)[2],
            be_bytes(value)[3],
        ) == value,
{
}

/// Every header is recovered from its bytes, field by field, whatever
/// follows them.
pub proof fn lemma_header_round_trip(header: Header, rest: Seq<u8>)
    ensures
        header_bytes(header).len() == 14,
        header_of(header_bytes(header) + rest) == Ok::<Header, DecoderError>(header),
{
    let bytes = header_bytes(header) + rest;
    lemma_be_round_trip(header.width);
    lemma_be_round_trip(header.height);
    assert(bytes.take(4) =~= magic());
    assert(bytes[4] == be_bytes(header.width)[0]);
    assert(bytes[5] == be_bytes(header.width)[1]);
    assert(bytes[6] == be_bytes(header.width)[2]);
    assert(bytes[7] == be_bytes(header.width)[3]);
    assert(bytes[8] == be_bytes(header.height)[0]);
    assert(bytes[9] == be_bytes(header.height)[1]);
    assert(bytes[10] == be_bytes(header.height)[2]);
    assert(bytes[11] == be_bytes(header.height)[3]);
    assert(bytes[12] == header.channels.code());
    assert(bytes[13] == header.colorspace.code());
}

/// Writing a number as four bytes undoes reading four bytes as a big-endian
/// number.
pub proof fn lemma_be_bytes_of_value(b0: u8, b1: u8, b2: u8, b3: u8)
    ensures
        0 <= be_u32_value(b0, b1, b2, b3) <= u32::MAX,
        be_bytes(be_u32_value(b0, b1, b2, b3) as u32) == seq![b0, b1, b2, b3],
{
    let value = be_u32_value(b0, b1, b2, b3);
    let low = b1 * 0x1_0000 + b2 * 0x100 + b3;
    assert(value == b0 * 0x100_0000 + low && 0 <= low < 0x100_0000);
    assert(value / 0x100_0000 == b0);
    let mid = value / 0x1_0000;
    assert(mid == b0 * 0x100 + b1);
    assert(mid % 256 == b1);
    let high = value / 0x100;
    assert(high == b0 * 0x1_0000 + b1 * 0x100 + b2);
    assert(high % 256 == b2);
    assert(value % 256 == b3);
    assert(be_bytes(value as u32) =~= seq![b0, b1, b2, b3]);
}

/// Every header that parses is made of the fields that its bytes hold: the
/// first fourteen bytes are those that stand for the header.
pub proof fn lemma_header_fields(bytes: Seq<u8>)
    requires
        header_of(bytes) is Ok,
    ensures
        bytes.len() >= 14,
        bytes.take(14) == header_bytes(header_of(bytes)->Ok_0),
{
    let header = header_of(bytes)->Ok_0;
    lemma_be_bytes_of_value(bytes[4], bytes[5], bytes[6], bytes[7]);
    lemma_be_bytes_of_value(bytes[8], bytes[9], bytes[10], bytes[11]);
    let width = seq![bytes[4], bytes[5], bytes[6], bytes[7]];
    let height = seq![bytes[8], bytes[9], bytes[10], bytes[11]];
    let tail = seq![bytes[12], bytes[13]];
    assert(be_bytes(header.width) == width);
    assert(be_bytes(header.height) == height);
    assert(seq![header.channels.code(), header.colorspace.code()] =~= tail);
    assert(bytes.take(4) == magic());
    assert(bytes.take(14) =~= bytes.take(4) + width + height + tail);
}

/// Wrong magic is reported as such whatever the other fields hold, and
/// however many of them are there.
pub proof fn lemma_wrong_magic(bytes: Seq<u8>)
    requires
        bytes.len() >= 4,
        bytes.take(4) != magic(),
    ensures
        header_of(bytes) == Err::<Header, DecoderError>(DecoderError::InvalidMagic),
{
}

/// After the right magic, a channel byte other than 3 and 4 is reported as
/// such, whatever the colorspace byte holds and whether or not it is there.
pub proof fn lemma_wrong_channels(bytes: Seq<u8>)
    requires
        bytes.len() >= 13,
        bytes.take(4) == magic(),
        bytes[12] != 3,
        bytes[12] != 4,
    ensures
        header_of(bytes) == Err::<Header, DecoderError>(DecoderError::InvalidChannels),
{
}

/// After the right magic and a channel byte of 3 or 4, a colorspace byte
/// other than 0 and 1 is reported as such.
pub proof fn lemma_wrong_colorspace(bytes: Seq<u8>)
    requires
        bytes.len() >= 14,
        bytes.take(4) == magic(),
        bytes[12] == 3 || bytes[12] == 4,
        bytes[13] != 0,
        bytes[13] != 1,
    ensures
        header_of(bytes) == Err::<Header, DecoderError>(DecoderError::InvalidColorspace),
{
}

} // verus!
