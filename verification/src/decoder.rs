//! A decoder for one image held in memory.

use crate::error::DecoderError;
use crate::header::{header_of, Channels, Header};
use crate::parser::{decoded_image, parse_image_content, parse_image_header};
use vstd::prelude::*;
use vstd::slice::slice_subrange;

verus! {

/// The number of bytes that a header takes.
pub const QOIF_HEADER_LENGTH: usize = 14;

/// An image whose header has been parsed and whose pixel stream has not yet
/// been decoded.
pub struct QoiDecoder<'a> {
    /// The parsed header.
    pub header: Header,
    /// The bytes that follow the header.
    pub content: &'a [u8],
}

impl<'a> QoiDecoder<'a> {
    /// Parses the header at the front of `image_bytes` and keeps the bytes
    /// behind it for decoding.
    pub fn new(image_bytes: &'a [u8]) -> (result: Result<QoiDecoder<'a>, DecoderError>)
        ensures
            match result {
                Ok(decoder) => {
                    &&& header_of(image_bytes@) == Ok::<Header, DecoderError>(decoder.header)
                    &&& decoder.content@ == image_bytes@.skip(14)
                },
                Err(e) => header_of(image_bytes@) == Err::<Header, DecoderError>(e),
            },
    {
        match parse_image_header(image_bytes) {
            Ok(header) => Ok(
                QoiDecoder {
                    header,
                    content: slice_subrange(image_bytes, QOIF_HEADER_LENGTH, image_bytes.len()),
                },
            ),
            Err(e) => Err(e),
        }
    }

    /// Width and height of the image, in pixels.
    pub fn dimensions(&self) -> (size: (u32, u32))
        ensures
            size == (self.header.width, self.header.height),
    {
        (self.header.width, self.header.height)
    }

    /// The channels that each pixel of the decoded buffer holds.
    pub fn channels(&self) -> (channels: Channels)
        ensures
            channels == self.header.channels,
    {
        self.header.channels
    }

    /// Decodes the pixel stream into a flat buffer of width times height
    /// pixels.
    pub fn decode(&self) -> (result: Result<Vec<u8>, DecoderError>)
        ensures
            match result {
                Ok(buffer) => {
                    &&& decoded_image(self.content@, self.header) == Ok::<Seq<u8>, DecoderError>(
                        buffer@,
                    )
                    &&& buffer@.len() == self.header.byte_count()
                },
                Err(e) => decoded_image(self.content@, self.header) == Err::<
                    Seq<u8>,
                    DecoderError,
                >(e),
            },
    {
        parse_image_content(self.content, self.header)
    }
}

} // verus!
