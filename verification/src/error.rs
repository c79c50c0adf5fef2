//! The ways in which decoding fails.

use vstd::prelude::*;

verus! {

/// Why an image could not be decoded.
#[derive(Debug, Clone, Copy, PartialEq, Eq, Structural)]
pub enum DecoderError {
    /// The input does not start with the four bytes `qoif`.
    InvalidMagic,
    /// The channel count is neither 3 nor 4.
    InvalidChannels,
    /// The colorspace is neither 0 nor 1.
    InvalidColorspace,
    /// The input ends before the field being read.
    TooShortHeader,
    /// No opcode matches the byte at the front of the stream.
    InvalidPixel,
    /// The stream ends before every pixel of the image has been produced.
    TooFewPixels,
    /// The stream holds more pixels than the image has.
    TooManyPixels,
}

/// Why a single read or opcode did not apply.
#[derive(Debug, Clone, Copy, PartialEq, Eq, Structural)]
pub enum ParserError {
    /// The input is well formed but is not what this reader accepts; another
    /// one may be tried on the same bytes.
    Recoverable,
    /// The input ends too early.
    Invalid,
}

impl DecoderError {
    /// The variant's name as a sequence of characters.
    pub open spec fn name(self) -> Seq<char> {
        match self {
            DecoderError::InvalidMagic => "InvalidMagic"@,
            DecoderError::InvalidChannels => "InvalidChannels"@,
            DecoderError::InvalidColorspace => "InvalidColorspace"@,
            DecoderError::TooShortHeader => "TooShortHeader"@,
            DecoderError::InvalidPixel => "InvalidPixel"@,
            DecoderError::TooFewPixels => "TooFewPixels"@,
            DecoderError::TooManyPixels => "TooManyPixels"@,
        }
    }

    /// The text shown for this error: the name of its variant.
    pub fn message(&self) -> (text: &'static str)
        ensures
            text@ == self.name(),
    {
        match self {
            DecoderError::InvalidMagic => "InvalidMagic",
            DecoderError::InvalidChannels => "InvalidChannels",
            DecoderError::InvalidColorspace => "InvalidColorspace",
            DecoderError::TooShortHeader => "TooShortHeader",
            DecoderError::InvalidPixel => "InvalidPixel",
            DecoderError::TooFewPixels => "TooFewPixels",
            DecoderError::TooManyPixels => "TooManyPixels",
        }
    }
}

} // verus!
