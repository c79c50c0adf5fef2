//! Parsing a header, and decoding the pixel stream that follows it.

use crate::buffer::{
    bytes_per_pixel, lemma_packed_concat, lemma_packed_empty, lemma_packed_len, packed, repeated,
};
use crate::chunks::{
    chunk_applied, end_marker, lemma_chunk_bounds, lemma_chunk_kinds, lemma_chunk_prefix,
    lemma_marker_alone, lemma_marker_appended, lemma_skip_appended, next_chunk, qoi_op_diff,
    qoi_op_end, qoi_op_index, qoi_op_luma, qoi_op_rgb, qoi_op_rgba, qoi_op_run, Chunk,
};
use crate::error::{DecoderError, ParserError};
use crate::header::{header_of, magic, Channels, Colorspace, Header};
use crate::input::{be_u32, tag, u8};
use crate::pixel::Pixel;
use crate::state::{DecodeState, ParserState};
use vstd::prelude::*;

verus! {

/// Parses the header at the front of `header_bytes`.
pub fn parse_image_header(header_bytes: &[u8]) -> (result: Result<Header, DecoderError>)
    ensures
        result == header_of(header_bytes@),
{
    let qoif_magic: [u8; 4] = [0x71, 0x6f, 0x69, 0x66];
    assert(qoif_magic@ =~= magic());
    let bytes_left = match tag(&qoif_magic, header_bytes) {
        Ok(rest) => rest,
        Err(ParserError::Recoverable) => return Err(DecoderError::InvalidMagic),
        Err(ParserError::Invalid) => return Err(DecoderError::TooShortHeader),
    };
    let (width, bytes_left) = match be_u32(bytes_left) {
        Ok(read) => read,
        Err(_) => return Err(DecoderError::TooShortHeader),
    };
    let (height, bytes_left) = match be_u32(bytes_left) {
        Ok(read) => read,
        Err(_) => return Err(DecoderError::TooShortHeader),
    };
    let (channels, bytes_left) = match u8(bytes_left) {
        Ok(read) => read,
        Err(_) => return Err(DecoderError::TooShortHeader),
    };
    let channels = match channels {
        3 => Channels::Rgb,
        4 => Channels::Rgba,
        _ => {
            return Err(DecoderError::InvalidChannels);
        },
    };
    let (colorspace, _) = match u8(bytes_left) {
        Ok(read) => read,
        Err(_) => return Err(DecoderError::TooShortHeader),
    };
    let colorspace = match colorspace {
        0 => Colorspace::Srgb,
        1 => Colorspace::Linear,
        _ => return Err(DecoderError::InvalidColorspace),
    };
    Ok(Header { width, height, channels, colorspace })
}

/// `pixels` followed by what `rest` decodes to; an error in `rest` stands.
pub open spec fn prepend(pixels: Seq<Pixel>, rest: Result<Seq<Pixel>, DecoderError>) -> Result<
    Seq<Pixel>,
    DecoderError,
> {
    match rest {
        Ok(more) => Ok(pixels + more),
        Err(e) => Err(e),
    }
}

/// The pixels of a stream, read from `state` on, of which `owed` pixels are
/// still to come.
///
/// Chunks are read until the stream is empty, and after each the count is
/// checked: one that produces more pixels than are owed is an error. An
/// end marker is passed over wherever it is met, whether or not pixels are
/// owed; it need not be there.
pub open spec fn decode_from(stream: Seq<u8>, state: DecodeState, owed: nat) -> Result<
    Seq<Pixel>,
    DecoderError,
>
    decreases stream.len(),
{
    if stream.len() == 0 {
        if owed == 0 {
            Ok(Seq::empty())
        } else {
            Err(DecoderError::TooFewPixels)
        }
    } else {
        match next_chunk(stream, state) {
            Chunk::Mismatch => Err(DecoderError::InvalidPixel),
            Chunk::Truncated => Err(DecoderError::TooFewPixels),
            Chunk::Marker => decode_from(stream.skip(8), state, owed),
            Chunk::Pixels { pixel, run, len } => {
                if run > owed {
                    Err(DecoderError::TooManyPixels)
                } else {
                    prepend(
                        repeated(pixel, run),
                        decode_from(
                            stream.skip(len as int),
                            state.record(pixel),
                            (owed - run) as nat,
                        ),
                    )
                }
            },
        }
    }
}

/// The pixels of the image whose header is `header` and whose stream is
/// `content`.
pub open spec fn decoded_pixels(content: Seq<u8>, header: Header) -> Result<
    Seq<Pixel>,
    DecoderError,
> {
    decode_from(content, DecodeState::initial(), header.pixel_count())
}

/// The decoded image as a flat buffer: its pixels in order, three bytes
/// each for an RGB image and four for an RGBA image.
pub open spec fn decoded_image(content: Seq<u8>, header: Header) -> Result<Seq<u8>, DecoderError> {
    match decoded_pixels(content, header) {
        Ok(pixels) => Ok(packed(pixels, header.channels.has_alpha())),
        Err(e) => Err(e),
    }
}

/// Decodes the chunk at the front of `input`: the opcodes are tried in
/// their order of priority, and the first that matches decides.
pub fn qoi_op_any<'a>(input: &'a [u8], pixels: &mut Vec<u8>, state: &mut ParserState) -> (result:
    Result<&'a [u8], ParserError>)
    ensures
        chunk_applied(
            next_chunk(input@, old(state)@),
            input@,
            result,
            old(pixels)@,
            final(pixels)@,
            *old(state),
            *final(state),
        ),
{
    match qoi_op_rgb(input, pixels, state) {
        Err(ParserError::Recoverable) => {},
        decided => return decided,
    }
    match qoi_op_rgba(input, pixels, state) {
        Err(ParserError::Recoverable) => {},
        decided => return decided,
    }
    match qoi_op_end(input, pixels, state) {
        Err(ParserError::Recoverable) => {},
        decided => return decided,
    }
    match qoi_op_index(input, pixels, state) {
        Err(ParserError::Recoverable) => {},
        decided => return decided,
    }
    match qoi_op_diff(input, pixels, state) {
        Err(ParserError::Recoverable) => {},
        decided => return decided,
    }
    match qoi_op_luma(input, pixels, state) {
        Err(ParserError::Recoverable) => {},
        decided => return decided,
    }
    qoi_op_run(input, pixels, state)
}

/// When no bytes are left, the image is complete if no pixel is owed, and
/// too short otherwise.
pub proof fn lemma_step_empty(state: DecodeState, owed: nat)
    ensures
        decode_from(Seq::empty(), state, owed) == if owed == 0 {
            Ok::<Seq<Pixel>, DecoderError>(Seq::empty())
        } else {
            Err::<Seq<Pixel>, DecoderError>(DecoderError::TooFewPixels)
        },
{
}

/// While bytes are left, the chunk at the front of the stream is read. The
/// end marker is passed over. The pixels of any other chunk come first, and
/// the rest of the stream is decoded from the state that the chunk leaves.
pub proof fn lemma_step_chunk(stream: Seq<u8>, state: DecodeState, owed: nat)
    requires
        stream.len() > 0,
    ensures
        decode_from(stream, state, owed) == match next_chunk(stream, state) {
            Chunk::Mismatch => Err(DecoderError::InvalidPixel),
            Chunk::Truncated => Err(DecoderError::TooFewPixels),
            Chunk::Marker => decode_from(stream.skip(8), state, owed),
            Chunk::Pixels { pixel, run, len } => {
                if run > owed {
                    Err(DecoderError::TooManyPixels)
                } else {
                    prepend(
                        repeated(pixel, run),
                        decode_from(
                            stream.skip(len as int),
                            state.record(pixel),
                            (owed - run) as nat,
                        ),
                    )
                }
            },
        },
{
}

/// Pixels in front of pixels in front of a result are their concatenation
/// in front of it.
pub proof fn lemma_prepend_twice(
    done: Seq<Pixel>,
    fresh: Seq<Pixel>,
    rest: Result<Seq<Pixel>, DecoderError>,
)
    ensures
        prepend(done, prepend(fresh, rest)) == prepend(done + fresh, rest),
{
    if rest is Ok {
        assert(done + (fresh + rest->Ok_0) =~= (done + fresh) + rest->Ok_0);
    }
}

/// Decodes the pixel stream `content_bytes` of the image that `header`
/// describes into a flat buffer of its pixels.
pub fn parse_image_content(content_bytes: &[u8], header: Header) -> (result: Result<
    Vec<u8>,
    DecoderError,
>)
    ensures
        match result {
            Ok(buffer) => {
                &&& decoded_image(content_bytes@, header) == Ok::<Seq<u8>, DecoderError>(buffer@)
                &&& buffer@.len() == header.byte_count()
            },
            Err(e) => {
                &&& decoded_image(content_bytes@, header) == Err::<Seq<u8>, DecoderError>(e)
                &&& e == DecoderError::TooFewPixels || e == DecoderError::TooManyPixels
            },
        },
{
    proof {
        lemma_decoded_size(content_bytes@, header);
        lemma_decode_from_errors(content_bytes@, DecodeState::initial(), header.pixel_count());
    }
    let is_alpha = match header.channels {
        Channels::Rgba => true,
        Channels::Rgb => false,
    };
    let pixel_len: usize = if is_alpha {
        4
    } else {
        3
    };
    assert(header.width * header.height <= 0xFFFF_FFFF * 0xFFFF_FFFF) by (nonlinear_arith)
        requires
            header.width <= 0xFFFF_FFFF,
            header.height <= 0xFFFF_FFFF,
    ;
    let result_len: u64 = (header.width as u64) * (header.height as u64);

    let mut pixels: Vec<u8> = Vec::new();
    let mut bytes_left = content_bytes;
    let mut state = ParserState::new(is_alpha);
    let ghost mut done: Seq<Pixel> = Seq::empty();
    proof {
        lemma_packed_empty(is_alpha);
        lemma_prepend_twice(
            done,
            Seq::empty(),
            decode_from(bytes_left@, state@, result_len as nat),
        );
        assert(done + Seq::<Pixel>::empty() =~= done);
    }

    while !bytes_left.is_empty()
        invariant
            pixel_len == bytes_per_pixel(is_alpha),
            state.is_alpha == is_alpha,
            pixels@ == packed(done, is_alpha),
            done.len() <= result_len,
            decoded_pixels(content_bytes@, header) == prepend(
                done,
                decode_from(bytes_left@, state@, (result_len - done.len()) as nat),
            ),
        decreases bytes_left@.len(),
    {
        let ghost stream = bytes_left@;
        let ghost before = state@;
        let ghost owed = (result_len - done.len()) as nat;
        proof {
            lemma_step_chunk(stream, before, owed);
            lemma_chunk_bounds(stream, before);
        }
        match qoi_op_any(bytes_left, &mut pixels, &mut state) {
            Err(ParserError::Recoverable) => return Err(DecoderError::InvalidPixel),
            Err(ParserError::Invalid) => return Err(DecoderError::TooFewPixels),
            Ok(rest) => {
                bytes_left = rest;
            },
        }
        let ghost fresh = match next_chunk(stream, before) {
            Chunk::Pixels { pixel, run, .. } => repeated(pixel, run),
            _ => Seq::empty(),
        };
        proof {
            lemma_packed_concat(done, fresh, is_alpha);
            lemma_packed_empty(is_alpha);
            assert(packed(done, is_alpha) + Seq::<u8>::empty() =~= packed(done, is_alpha));
            lemma_packed_len(done + fresh, is_alpha);
        }
        if (pixels.len() / pixel_len) as u64 > result_len {
            return Err(DecoderError::TooManyPixels);
        }
        proof {
            lemma_prepend_twice(
                done,
                fresh,
                decode_from(bytes_left@, state@, (owed - fresh.len()) as nat),
            );
            if next_chunk(stream, before) is Marker {
                assert(done + fresh =~= done);
            }
            done = done + fresh;
        }
    }

    proof {
        lemma_packed_len(done, is_alpha);
    }
    if ((pixels.len() / pixel_len) as u64) < result_len {
        return Err(DecoderError::TooFewPixels);
    }
    proof {
        assert(done + Seq::<Pixel>::empty() =~= done);
    }
    Ok(pixels)
}

/// A stream that decodes yields exactly the pixels that were owed.
pub proof fn lemma_decode_from_len(stream: Seq<u8>, state: DecodeState, owed: nat)
    ensures
        decode_from(stream, state, owed) matches Ok(pixels) ==> pixels.len() == owed,
    decreases stream.len(),
{
    if stream.len() > 0 {
        lemma_chunk_bounds(stream, state);
        match next_chunk(stream, state) {
            Chunk::Marker => {
                lemma_decode_from_len(stream.skip(8), state, owed);
            },
            Chunk::Pixels { pixel, run, len } => {
                if run <= owed {
                    lemma_decode_from_len(
                        stream.skip(len as int),
                        state.record(pixel),
                        (owed - run) as nat,
                    );
                }
            },
            _ => {},
        }
    }
}

/// No stream fails for want of an opcode: whatever byte stands at the front
/// opens some chunk.
pub proof fn lemma_decode_from_errors(stream: Seq<u8>, state: DecodeState, owed: nat)
    ensures
        decode_from(stream, state, owed) matches Err(e) ==> e == DecoderError::TooFewPixels || e
            == DecoderError::TooManyPixels,
    decreases stream.len(),
{
    if stream.len() > 0 {
        lemma_chunk_kinds(stream, state);
        lemma_chunk_bounds(stream, state);
        match next_chunk(stream, state) {
            Chunk::Marker => {
                lemma_decode_from_errors(stream.skip(8), state, owed);
            },
            Chunk::Pixels { pixel, run, len } => {
                if run <= owed {
                    lemma_decode_from_errors(
                        stream.skip(len as int),
                        state.record(pixel),
                        (owed - run) as nat,
                    );
                }
            },
            _ => {},
        }
    }
}

/// The number of pixels that a stream of complete chunks stands for, read
/// from `state` on: the runs of its chunks added up, end markers counting
/// for nothing. A stream that ends inside a chunk has no such number.
pub open spec fn pixels_in(stream: Seq<u8>, state: DecodeState) -> Option<nat>
    decreases stream.len(),
{
    if stream.len() == 0 {
        Some(0)
    } else {
        match next_chunk(stream, state) {
            Chunk::Marker => pixels_in(stream.skip(8), state),
            Chunk::Pixels { pixel, run, len } => match pixels_in(
                stream.skip(len as int),
                state.record(pixel),
            ) {
                Some(more) => Some(run + more),
                None => None,
            },
            _ => None,
        }
    }
}

/// A stream of complete chunks decodes exactly when it stands for as many
/// pixels as are owed. With fewer it has too few pixels, with more it has
/// too many, wherever its end markers stand and whether or not it has any.
pub proof fn lemma_decode_by_count(stream: Seq<u8>, state: DecodeState, owed: nat)
    requires
        pixels_in(stream, state) is Some,
    ensures
        ({
            let count = pixels_in(stream, state)->Some_0;
            &&& count == owed ==> decode_from(stream, state, owed) is Ok
            &&& count < owed ==> decode_from(stream, state, owed) == Err::<
                Seq<Pixel>,
                DecoderError,
            >(DecoderError::TooFewPixels)
            &&& count > owed ==> decode_from(stream, state, owed) == Err::<
                Seq<Pixel>,
                DecoderError,
            >(DecoderError::TooManyPixels)
        }),
    decreases stream.len(),
{
    if stream.len() > 0 {
        lemma_chunk_bounds(stream, state);
        match next_chunk(stream, state) {
            Chunk::Marker => {
                lemma_decode_by_count(stream.skip(8), state, owed);
            },
            Chunk::Pixels { pixel, run, len } => {
                if run <= owed {
                    lemma_decode_by_count(
                        stream.skip(len as int),
                        state.record(pixel),
                        (owed - run) as nat,
                    );
                }
            },
            _ => {},
        }
    }
}

/// While bytes are left, the count of a stream is that of what follows its
/// first chunk, and the run of that chunk more if it holds pixels.
pub proof fn lemma_count_step(stream: Seq<u8>, state: DecodeState)
    requires
        stream.len() > 0,
    ensures
        pixels_in(stream, state) == match next_chunk(stream, state) {
            Chunk::Marker => pixels_in(stream.skip(8), state),
            Chunk::Pixels { pixel, run, len } => match pixels_in(
                stream.skip(len as int),
                state.record(pixel),
            ) {
                Some(more) => Some(run + more),
                None => None,
            },
            _ => None,
        },
{
}

/// An end marker behind a stream of complete chunks adds no pixel.
pub proof fn lemma_marker_adds_no_pixel(stream: Seq<u8>, state: DecodeState)
    requires
        pixels_in(stream, state) is Some,
    ensures
        pixels_in(stream + end_marker(), state) == pixels_in(stream, state),
    decreases stream.len(),
{
    let marked = stream + end_marker();
    if stream.len() == 0 {
        assert(stream =~= Seq::<u8>::empty());
        lemma_marker_alone();
        lemma_chunk_kinds(marked, state);
        lemma_count_step(marked, state);
    } else {
        lemma_count_step(stream, state);
        lemma_count_step(marked, state);
        lemma_chunk_bounds(stream, state);
        lemma_marker_appended(stream);
        let chunk = next_chunk(stream, state);
        assert(chunk is Marker || chunk is Pixels);
        lemma_chunk_prefix(stream, end_marker(), state);
        assert(next_chunk(marked, state) == chunk);
        if chunk is Marker {
            lemma_skip_appended(stream, end_marker(), 8);
            lemma_marker_adds_no_pixel(stream.skip(8), state);
        } else {
            let len = chunk->len as int;
            lemma_skip_appended(stream, end_marker(), len);
            lemma_marker_adds_no_pixel(stream.skip(len), state.record(chunk->pixel));
        }
    }
}

/// The end marker is optional: a stream that decodes without it decodes
/// to the same pixels with it.
pub proof fn lemma_marker_is_optional(stream: Seq<u8>, state: DecodeState, owed: nat)
    requires
        decode_from(stream, state, owed) is Ok,
    ensures
        decode_from(stream + end_marker(), state, owed) == decode_from(stream, state, owed),
    decreases stream.len(),
{
    let marked = stream + end_marker();
    if stream.len() == 0 {
        assert(stream =~= Seq::<u8>::empty());
        lemma_marker_alone();
        lemma_chunk_kinds(marked, state);
        lemma_step_chunk(marked, state, owed);
    } else {
        lemma_step_chunk(stream, state, owed);
        lemma_step_chunk(marked, state, owed);
        lemma_chunk_bounds(stream, state);
        lemma_marker_appended(stream);
        let chunk = next_chunk(stream, state);
        assert(chunk is Marker || chunk is Pixels);
        lemma_chunk_prefix(stream, end_marker(), state);
        assert(next_chunk(marked, state) == chunk);
        if chunk is Marker {
            lemma_skip_appended(stream, end_marker(), 8);
            lemma_marker_is_optional(stream.skip(8), state, owed);
        } else {
            let len = chunk->len as int;
            let run = chunk->run;
            assert(run <= owed);
            lemma_skip_appended(stream, end_marker(), len);
            lemma_marker_is_optional(
                stream.skip(len),
                state.record(chunk->pixel),
                (owed - run) as nat,
            );
        }
    }
}

/// A decoded image has as many pixels as its header announces, width times
/// height, and its buffer holds three or four bytes for each of them.
pub proof fn lemma_decoded_size(content: Seq<u8>, header: Header)
    ensures
        decoded_pixels(content, header) matches Ok(pixels) ==> pixels.len() == header.width
            * header.height,
        decoded_image(content, header) matches Ok(buffer) ==> buffer.len() == header.width
            * header.height * header.channels.code(),
{
    lemma_decode_from_len(content, DecodeState::initial(), header.pixel_count());
    if decoded_pixels(content, header) is Ok {
        let pixels = decoded_pixels(content, header)->Ok_0;
        lemma_packed_len(pixels, header.channels.has_alpha());
        assert(header.width * header.height >= 0) by (nonlinear_arith);
    }
}

} // verus!
