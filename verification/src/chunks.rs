//! The chunks of a pixel stream: what each opcode means, and the functions
//! that decode them.

use crate::buffer::{lemma_packed_one, packed, push_pixel, push_pixels, repeated};
use crate::error::ParserError;
use crate::input::{starts_with, tag, u8};
use crate::pixel::Pixel;
use crate::state::{update_state, DecodeState, ParserState};
use vstd::arithmetic::div_mod::lemma_fundamental_div_mod_converse;
use vstd::prelude::*;

verus! {

/// What an opcode makes of the bytes at the front of the stream.
pub enum Chunk {
    /// The bytes belong to another opcode.
    Mismatch,
    /// The opcode is the right one, but the stream ends inside the chunk.
    Truncated,
    /// The end marker: it takes eight bytes and stands for no pixel.
    Marker,
    /// The chunk takes `len` bytes and stands for `run` copies of `pixel`.
    Pixels { pixel: Pixel, run: nat, len: nat },
}

/// The byte that opens a chunk of three literal channels.
pub const TAG_RGB: u8 = 0xFE;

/// The byte that opens a chunk of four literal channels.
pub const TAG_RGBA: u8 = 0xFF;

/// The eight bytes of the end marker.
pub open spec fn end_marker() -> Seq<u8> {
    seq![0u8, 0u8, 0u8, 0u8, 0u8, 0u8, 0u8, 1u8]
}

/// A channel moved by `delta`, modulo 256.
pub open spec fn wrapped(channel: u8, delta: int) -> u8 {
    ((channel + delta) % 256) as u8
}

/// Whether `after` is `before` moved by `delta`, up to a multiple of 256.
pub open spec fn differ_by(after: u8, before: u8, delta: int) -> bool {
    (after - before - delta) % 256 == 0
}

/// RGB: the tag byte `0xFE`, then red, green and blue. Alpha stays as it was.
pub open spec fn chunk_rgb(input: Seq<u8>, state: DecodeState) -> Chunk {
    if input.len() == 0 {
        Chunk::Truncated
    } else if input[0] != TAG_RGB {
        Chunk::Mismatch
    } else if input.len() < 4 {
        Chunk::Truncated
    } else {
        Chunk::Pixels {
            pixel: Pixel {
                red: input[1],
                green: input[2],
                blue: input[3],
                alpha: state.prev.alpha,
            },
            run: 1,
            len: 4,
        }
    }
}

/// RGBA: the tag byte `0xFF`, then red, green, blue and alpha.
pub open spec fn chunk_rgba(input: Seq<u8>, state: DecodeState) -> Chunk {
    if input.len() == 0 {
        Chunk::Truncated
    } else if input[0] != TAG_RGBA {
        Chunk::Mismatch
    } else if input.len() < 5 {
        Chunk::Truncated
    } else {
        Chunk::Pixels {
            pixel: Pixel { red: input[1], green: input[2], blue: input[3], alpha: input[4] },
            run: 1,
            len: 5,
        }
    }
}

/// INDEX: the top two bits are `00`; the low six bits name a slot of the
/// cache, and the pixel is whatever that slot holds.
pub open spec fn chunk_index(input: Seq<u8>, state: DecodeState) -> Chunk {
    if input.len() == 0 {
        Chunk::Truncated
    } else if input[0] / 64 != 0 {
        Chunk::Mismatch
    } else {
        Chunk::Pixels { pixel: state.seen[input[0] as int], run: 1, len: 1 }
    }
}

/// DIFF: the top two bits are `01`; three two-bit fields hold the changes of
/// red, green and blue, each stored with a bias of 2. Alpha stays as it was.
pub open spec fn chunk_diff(input: Seq<u8>, state: DecodeState) -> Chunk {
    if input.len() == 0 {
        Chunk::Truncated
    } else if input[0] / 64 != 1 {
        Chunk::Mismatch
    } else {
        let byte = input[0];
        Chunk::Pixels {
            pixel: Pixel {
                red: wrapped(state.prev.red, (byte / 16) % 4 - 2),
                green: wrapped(state.prev.green, (byte / 4) % 4 - 2),
                blue: wrapped(state.prev.blue, byte % 4 - 2),
                alpha: state.prev.alpha,
            },
            run: 1,
            len: 1,
        }
    }
}

/// LUMA: the top two bits are `10`; the low six bits hold the change of
/// green with a bias of 32. The two halves of a second byte hold, each with
/// a bias of 8, by how much the changes of red and of blue differ from that
/// of green. Alpha stays as it was.
pub open spec fn chunk_luma(input: Seq<u8>, state: DecodeState) -> Chunk {
    if input.len() == 0 {
        Chunk::Truncated
    } else if input[0] / 64 != 2 {
        Chunk::Mismatch
    } else if input.len() < 2 {
        Chunk::Truncated
    } else {
        let green_delta = input[0] % 64 - 32;
        Chunk::Pixels {
            pixel: Pixel {
                red: wrapped(state.prev.red, green_delta + input[1] / 16 - 8),
                green: wrapped(state.prev.green, green_delta),
                blue: wrapped(state.prev.blue, green_delta + input[1] % 16 - 8),
                alpha: state.prev.alpha,
            },
            run: 1,
            len: 2,
        }
    }
}

/// RUN: the top two bits are `11`; the previous pixel is repeated, one time
/// more than the low six bits say.
pub open spec fn chunk_run(input: Seq<u8>, state: DecodeState) -> Chunk {
    if input.len() == 0 {
        Chunk::Truncated
    } else if input[0] / 64 != 3 {
        Chunk::Mismatch
    } else {
        Chunk::Pixels { pixel: state.prev, run: (input[0] % 64 + 1) as nat, len: 1 }
    }
}

/// END: the eight bytes of the end marker. It stands for no pixel and
/// leaves the state alone. Bytes that fall short of the marker are not one.
pub open spec fn chunk_end(input: Seq<u8>) -> Chunk {
    if starts_with(input, end_marker()) {
        Chunk::Marker
    } else {
        Chunk::Mismatch
    }
}

/// The first of two readings of the same bytes that is not a mismatch.
pub open spec fn or_else(first: Chunk, second: Chunk) -> Chunk {
    if first is Mismatch {
        second
    } else {
        first
    }
}

/// The chunk at the front of the stream: the opcodes are tried in the order
/// RGB, RGBA, END, INDEX, DIFF, LUMA, RUN, and the first that matches
/// decides. So the two tag bytes are never runs, and the eight bytes of the
/// end marker are never INDEX chunks.
pub open spec fn next_chunk(input: Seq<u8>, state: DecodeState) -> Chunk {
    or_else(
        chunk_rgb(input, state),
        or_else(
            chunk_rgba(input, state),
            or_else(
                chunk_end(input),
                or_else(
                    chunk_index(input, state),
                    or_else(
                        chunk_diff(input, state),
                        or_else(chunk_luma(input, state), chunk_run(input, state)),
                    ),
                ),
            ),
        ),
    )
}

/// What a function that decodes a chunk owes its caller, given the reading
/// `chunk` of its input: on a mismatch or a truncated chunk it reports so and
/// changes nothing; on the end marker it hands back what follows the marker
/// and changes nothing; otherwise it hands back the rest of the input,
/// appends the chunk's pixels to the buffer and records the pixel in the
/// state.
pub open spec fn chunk_applied(
    chunk: Chunk,
    input: Seq<u8>,
    result: Result<&[u8], ParserError>,
    buffer_before: Seq<u8>,
    buffer_after: Seq<u8>,
    state_before: ParserState,
    state_after: ParserState,
) -> bool {
    match chunk {
        Chunk::Mismatch => {
            &&& result matches Err(ParserError::Recoverable)
            &&& buffer_after == buffer_before
            &&& state_after == state_before
        },
        Chunk::Truncated => {
            &&& result matches Err(ParserError::Invalid)
            &&& buffer_after == buffer_before
            &&& state_after == state_before
        },
        Chunk::Marker => {
            &&& result matches Ok(rest)
            &&& rest@ == input.skip(8)
            &&& buffer_after == buffer_before
            &&& state_after == state_before
        },
        Chunk::Pixels { pixel, run, len } => {
            &&& result matches Ok(rest)
            &&& rest@ == input.skip(len as int)
            &&& buffer_after == buffer_before + packed(
                repeated(pixel, run),
                state_before.is_alpha,
            )
            &&& state_after@ == state_before@.record(pixel)
            &&& state_after.is_alpha == state_before.is_alpha
        },
    }
}

/// How the fields of a tag byte, cut out with masks and shifts, read as
/// quotients and remainders.
proof fn lemma_tag_fields(byte: u8)
    by (bit_vector)
    ensures
        (byte & 0b11000000) >> 6 == byte / 64,
        byte & 0b00111111 == byte % 64,
        (byte & 0b00110000) >> 4 == (byte / 16) % 4,
        (byte & 0b00001100) >> 2 == (byte / 4) % 4,
        byte & 0b00000011 == byte % 4,
        (byte & 0b11110000) >> 4 == byte / 16,
        byte & 0b00001111 == byte % 16,
{
}

/// Moving a channel by a change of less than 256 either way never
/// saturates: a result above 255 or below 0 comes back into range by 256.
pub proof fn lemma_wrapped_cases(channel: u8, delta: int)
    requires
        -256 <= delta <= 256,
    ensures
        wrapped(channel, delta) == if channel + delta > 255 {
            channel + delta - 256
        } else if channel + delta < 0 {
            channel + delta + 256
        } else {
            channel + delta
        },
{
    let moved = channel + delta;
    if moved > 255 {
        lemma_fundamental_div_mod_converse(moved, 256, 1, moved - 256);
    } else if moved < 0 {
        lemma_fundamental_div_mod_converse(moved, 256, -1, moved + 256);
    } else {
        lemma_fundamental_div_mod_converse(moved, 256, 0, moved);
    }
}

/// Every stream that is not empty has a chunk at its front, and which one
/// is decided by its first byte, and for a first byte of zero by whether
/// the end marker stands there: the two tag bytes open RGB and RGBA, the
/// marker is the marker, and every other stream opens with the chunk that
/// the top two bits of its first byte name.
pub proof fn lemma_chunk_kinds(input: Seq<u8>, state: DecodeState)
    requires
        input.len() > 0,
    ensures
        !(next_chunk(input, state) is Mismatch),
        input[0] == TAG_RGB ==> next_chunk(input, state) == chunk_rgb(input, state),
        input[0] == TAG_RGBA ==> next_chunk(input, state) == chunk_rgba(input, state),
        starts_with(input, end_marker()) <==> next_chunk(input, state) is Marker,
        starts_with(input, end_marker()) ==> input[0] == 0,
        input[0] / 64 == 0 && !starts_with(input, end_marker()) ==> next_chunk(input, state)
            == chunk_index(input, state),
        input[0] / 64 == 1 ==> next_chunk(input, state) == chunk_diff(input, state),
        input[0] / 64 == 2 ==> next_chunk(input, state) == chunk_luma(input, state),
        input[0] / 64 == 3 && input[0] != TAG_RGB && input[0] != TAG_RGBA ==> next_chunk(
            input,
            state,
        ) == chunk_run(input, state),
{
    if starts_with(input, end_marker()) {
        assert(input.take(8)[0] == input[0]);
    }
}

/// Every chunk takes at least one byte and no more than the stream holds.
/// One that holds pixels stands for at least one and at most 62; the end
/// marker takes eight bytes.
pub proof fn lemma_chunk_bounds(input: Seq<u8>, state: DecodeState)
    ensures
        next_chunk(input, state) matches Chunk::Pixels { len, run, .. } ==> 0 < len
            <= input.len() && 0 < run <= 62,
        next_chunk(input, state) is Marker ==> 8 <= input.len(),
{
}

/// Eight bytes are the end marker exactly when the first seven are zero
/// and the eighth is one.
pub proof fn lemma_marker_bytes(input: Seq<u8>)
    ensures
        starts_with(input, end_marker()) <==> {
            &&& input.len() >= 8
            &&& forall|i: int| 0 <= i < 7 ==> input[i] == 0
            &&& input[7] == 1
        },
{
    if starts_with(input, end_marker()) {
        assert forall|i: int| 0 <= i < 8 implies input[i] == end_marker()[i] by {
            assert(input.take(8)[i] == input[i]);
        }
    } else if input.len() >= 8 && input[7] == 1 && (forall|i: int| 0 <= i < 7 ==> input[i] == 0) {
        assert(input.take(8) =~= end_marker());
    }
}

/// An end marker behind a stream never joins with the end of the stream to
/// make a marker further to the front: with the marker appended, a stream
/// that is not empty begins with the marker exactly when it did before.
pub proof fn lemma_marker_appended(input: Seq<u8>)
    requires
        input.len() > 0,
    ensures
        starts_with(input + end_marker(), end_marker()) <==> starts_with(input, end_marker()),
{
    let longer = input + end_marker();
    lemma_marker_bytes(input);
    lemma_marker_bytes(longer);
    if input.len() >= 8 {
        assert forall|i: int| 0 <= i < 8 implies longer[i] == input[i] by {}
    } else {
        assert(longer[7] == end_marker()[7 - input.len()]);
        assert(longer[7] == 0);
    }
}

/// The end marker alone is a marker with nothing behind it.
pub proof fn lemma_marker_alone()
    ensures
        Seq::<u8>::empty() + end_marker() == end_marker(),
        starts_with(end_marker(), end_marker()),
        end_marker().skip(8) == Seq::<u8>::empty(),
{
    assert(Seq::<u8>::empty() + end_marker() =~= end_marker());
    assert(end_marker().take(8) =~= end_marker());
    assert(end_marker().skip(8) =~= Seq::<u8>::empty());
}

/// Taking bytes off the front of a stream leaves what was appended to it
/// in place.
pub proof fn lemma_skip_appended(input: Seq<u8>, more: Seq<u8>, n: int)
    requires
        0 <= n <= input.len(),
    ensures
        (input + more).skip(n) == input.skip(n) + more,
{
    assert((input + more).skip(n) =~= input.skip(n) + more);
}

/// A chunk is read from its own bytes alone: whatever follows a complete
/// chunk does not change how it reads, unless it completes an end marker.
pub proof fn lemma_chunk_prefix(input: Seq<u8>, more: Seq<u8>, state: DecodeState)
    requires
        next_chunk(input, state) is Pixels || next_chunk(input, state) is Marker,
        starts_with(input + more, end_marker()) <==> starts_with(input, end_marker()),
    ensures
        next_chunk(input + more, state) == next_chunk(input, state),
{
    let longer = input + more;
    assert(input.len() > 0);
    assert(longer[0] == input[0]);
    if input.len() >= 2 {
        assert(longer[1] == input[1]);
    }
    if input.len() >= 4 {
        assert(longer[2] == input[2]);
        assert(longer[3] == input[3]);
    }
    if input.len() >= 5 {
        assert(longer[4] == input[4]);
    }
}

/// An INDEX chunk yields whatever its slot of the cache holds, be it the
/// pixel whose hash is that slot or any other.
pub proof fn lemma_index_reads_slot(input: Seq<u8>, state: DecodeState)
    requires
        input.len() > 0,
        input[0] < 64,
        !starts_with(input, end_marker()),
    ensures
        next_chunk(input, state) == (Chunk::Pixels {
            pixel: state.seen[input[0] as int],
            run: 1,
            len: 1,
        }),
{
}

/// The changes that a DIFF chunk holds lie between -2 and 1, and each
/// channel of the pixel is the previous one moved by its change modulo 256:
/// it wraps around and never saturates.
pub proof fn lemma_diff_wraps(input: Seq<u8>, state: DecodeState)
    requires
        chunk_diff(input, state) is Pixels,
    ensures
        ({
            let pixel = chunk_diff(input, state)->pixel;
            let prev = state.prev;
            let red_change = (input[0] / 16) % 4 - 2;
            let green_change = (input[0] / 4) % 4 - 2;
            let blue_change = input[0] % 4 - 2;
            &&& -2 <= red_change <= 1
            &&& -2 <= green_change <= 1
            &&& -2 <= blue_change <= 1
            &&& differ_by(pixel.red, prev.red, red_change)
            &&& differ_by(pixel.green, prev.green, green_change)
            &&& differ_by(pixel.blue, prev.blue, blue_change)
            &&& pixel.alpha == prev.alpha
        }),
{
    let prev = state.prev;
    lemma_wrapped_differs(prev.red, (input[0] / 16) % 4 - 2);
    lemma_wrapped_differs(prev.green, (input[0] / 4) % 4 - 2);
    lemma_wrapped_differs(prev.blue, input[0] % 4 - 2);
}

/// The change of green that a LUMA chunk holds lies between -32 and 31,
/// those of red and blue differ from it by between -8 and 7, and each
/// channel of the pixel is the previous one moved by its change modulo 256:
/// it wraps around and never saturates.
pub proof fn lemma_luma_wraps(input: Seq<u8>, state: DecodeState)
    requires
        chunk_luma(input, state) is Pixels,
    ensures
        ({
            let pixel = chunk_luma(input, state)->pixel;
            let prev = state.prev;
            let green_change = input[0] % 64 - 32;
            let red_change = green_change + input[1] / 16 - 8;
            let blue_change = green_change + input[1] % 16 - 8;
            &&& -32 <= green_change <= 31
            &&& -8 <= red_change - green_change <= 7
            &&& -8 <= blue_change - green_change <= 7
            &&& differ_by(pixel.red, prev.red, red_change)
            &&& differ_by(pixel.green, prev.green, green_change)
            &&& differ_by(pixel.blue, prev.blue, blue_change)
            &&& pixel.alpha == prev.alpha
        }),
{
    let prev = state.prev;
    let green_change = input[0] % 64 - 32;
    lemma_wrapped_differs(prev.red, green_change + input[1] / 16 - 8);
    lemma_wrapped_differs(prev.green, green_change);
    lemma_wrapped_differs(prev.blue, green_change + input[1] % 16 - 8);
}

/// A channel moved by `delta` differs from where it was by `delta`, up to
/// a multiple of 256.
pub proof fn lemma_wrapped_differs(channel: u8, delta: int)
    requires
        -256 <= delta <= 256,
    ensures
        differ_by(wrapped(channel, delta), channel, delta),
{
    lemma_wrapped_cases(channel, delta);
    let moved = channel + delta;
    if moved > 255 {
        lemma_fundamental_div_mod_converse(-256, 256, -1, 0);
    } else if moved < 0 {
        lemma_fundamental_div_mod_converse(256, 256, 1, 0);
    } else {
        lemma_fundamental_div_mod_converse(0, 256, 0, 0);
    }
}

/// Taking the bias off a stored field and adding the outcome to a channel,
/// both in wrapping arithmetic, moves the channel by the field less the
/// bias, modulo 256.
proof fn lemma_biased_change(channel: u8, field: u8, bias: u8)
    ensures
        channel.wrapping_add(field.wrapping_sub(bias)) == wrapped(channel, field - bias),
{
    lemma_wrapped_cases(channel, field - bias);
}

/// The same for a change made of a field with a bias of 32 and one with a
/// bias of 8.
proof fn lemma_biased_changes(channel: u8, green_field: u8, field: u8)
    requires
        green_field < 64,
        field < 16,
    ensures
        channel.wrapping_add(green_field.wrapping_sub(32).wrapping_add(field.wrapping_sub(8)))
            == wrapped(channel, green_field - 32 + field - 8),
{
    let change = green_field - 32 + field - 8;
    let stored = green_field.wrapping_sub(32).wrapping_add(field.wrapping_sub(8));
    assert(stored == if change < 0 {
        change + 256
    } else {
        change
    });
    lemma_wrapped_cases(channel, change);
}

/// A slice of one byte begins `input` exactly when it is the first byte.
proof fn lemma_starts_with_byte(input: Seq<u8>, literal: Seq<u8>, byte: u8)
    requires
        literal.len() == 1,
        literal[0] == byte,
    ensures
        starts_with(input, literal) <==> input.len() > 0 && input[0] == byte,
{
    if input.len() > 0 {
        assert(input.take(1)[0] == input[0]);
        if input[0] == byte {
            assert(input.take(1) =~= literal);
        }
    }
}

/// Decodes an RGB chunk.
pub fn qoi_op_rgb<'a>(input: &'a [u8], pixels: &mut Vec<u8>, state: &mut ParserState) -> (result:
    Result<&'a [u8], ParserError>)
    ensures
        chunk_applied(
            chunk_rgb(input@, old(state)@),
            input@,
            result,
            old(pixels)@,
            final(pixels)@,
            *old(state),
            *final(state),
        ),
{
    let tag_rgb: [u8; 1] = [TAG_RGB];
    proof {
        lemma_starts_with_byte(input@, tag_rgb@, TAG_RGB);
    }
    let rest = tag(&tag_rgb, input)?;
    let (red, rest) = u8(rest)?;
    let (green, rest) = u8(rest)?;
    let (blue, rest) = u8(rest)?;
    let pixel = Pixel { red, green, blue, alpha: state.prev.alpha };
    push_pixel(pixels, pixel, state.is_alpha);
    update_state(pixel, state);
    proof {
        lemma_packed_one(pixel, state.is_alpha);
        assert(rest@ =~= input@.skip(4));
    }
    Ok(rest)
}

/// Decodes an RGBA chunk.
pub fn qoi_op_rgba<'a>(input: &'a [u8], pixels: &mut Vec<u8>, state: &mut ParserState) -> (result:
    Result<&'a [u8], ParserError>)
    ensures
        chunk_applied(
            chunk_rgba(input@, old(state)@),
            input@,
            result,
            old(pixels)@,
            final(pixels)@,
            *old(state),
            *final(state),
        ),
{
    let tag_rgba: [u8; 1] = [TAG_RGBA];
    proof {
        lemma_starts_with_byte(input@, tag_rgba@, TAG_RGBA);
    }
    let rest = tag(&tag_rgba, input)?;
    let (red, rest) = u8(rest)?;
    let (green, rest) = u8(rest)?;
    let (blue, rest) = u8(rest)?;
    let (alpha, rest) = u8(rest)?;
    let pixel = Pixel { red, green, blue, alpha };
    push_pixel(pixels, pixel, state.is_alpha);
    update_state(pixel, state);
    proof {
        lemma_packed_one(pixel, state.is_alpha);
        assert(rest@ =~= input@.skip(5));
    }
    Ok(rest)
}

/// Decodes an INDEX chunk.
pub fn qoi_op_index<'a>(input: &'a [u8], pixels: &mut Vec<u8>, state: &mut ParserState) -> (result:
    Result<&'a [u8], ParserError>)
    ensures
        chunk_applied(
            chunk_index(input@, old(state)@),
            input@,
            result,
            old(pixels)@,
            final(pixels)@,
            *old(state),
            *final(state),
        ),
{
    let (byte, rest) = u8(input)?;
    proof {
        lemma_tag_fields(byte);
    }
    if (byte & 0b11000000) >> 6 != 0b00 {
        return Err(ParserError::Recoverable);
    }
    let pixel = state.seen[byte as usize];
    push_pixel(pixels, pixel, state.is_alpha);
    update_state(pixel, state);
    proof {
        lemma_packed_one(pixel, state.is_alpha);
    }
    Ok(rest)
}

/// Decodes a DIFF chunk.
pub fn qoi_op_diff<'a>(input: &'a [u8], pixels: &mut Vec<u8>, state: &mut ParserState) -> (result:
    Result<&'a [u8], ParserError>)
    ensures
        chunk_applied(
            chunk_diff(input@, old(state)@),
            input@,
            result,
            old(pixels)@,
            final(pixels)@,
            *old(state),
            *final(state),
        ),
{
    let (byte, rest) = u8(input)?;
    proof {
        lemma_tag_fields(byte);
    }
    if (byte & 0b11000000) >> 6 != 0b01 {
        return Err(ParserError::Recoverable);
    }
    let dr = ((byte & 0b00110000) >> 4).wrapping_sub(2);
    let dg = ((byte & 0b00001100) >> 2).wrapping_sub(2);
    let db = (byte & 0b00000011).wrapping_sub(2);
    let pixel = Pixel {
        red: state.prev.red.wrapping_add(dr),
        green: state.prev.green.wrapping_add(dg),
        blue: state.prev.blue.wrapping_add(db),
        alpha: state.prev.alpha,
    };
    proof {
        lemma_biased_change(state.prev.red, (byte & 0b00110000) >> 4, 2);
        lemma_biased_change(state.prev.green, (byte & 0b00001100) >> 2, 2);
        lemma_biased_change(state.prev.blue, byte & 0b00000011, 2);
    }
    push_pixel(pixels, pixel, state.is_alpha);
    update_state(pixel, state);
    proof {
        lemma_packed_one(pixel, state.is_alpha);
    }
    Ok(rest)
}

/// Decodes a LUMA chunk.
pub fn qoi_op_luma<'a>(input: &'a [u8], pixels: &mut Vec<u8>, state: &mut ParserState) -> (result:
    Result<&'a [u8], ParserError>)
    ensures
        chunk_applied(
            chunk_luma(input@, old(state)@),
            input@,
            result,
            old(pixels)@,
            final(pixels)@,
            *old(state),
            *final(state),
        ),
{
    let (byte1, rest) = u8(input)?;
    proof {
        lemma_tag_fields(byte1);
    }
    if (byte1 & 0b11000000) >> 6 != 0b10 {
        return Err(ParserError::Recoverable);
    }
    let dg = (byte1 & 0b00111111).wrapping_sub(32);

    let (byte2, rest) = u8(rest)?;
    proof {
        lemma_tag_fields(byte2);
    }
    let dr = dg.wrapping_add(((byte2 & 0b11110000) >> 4).wrapping_sub(8));
    let db = dg.wrapping_add((byte2 & 0b00001111).wrapping_sub(8));

    let pixel = Pixel {
        red: state.prev.red.wrapping_add(dr),
        green: state.prev.green.wrapping_add(dg),
        blue: state.prev.blue.wrapping_add(db),
        alpha: state.prev.alpha,
    };
    proof {
        lemma_biased_change(state.prev.green, byte1 & 0b00111111, 32);
        lemma_biased_changes(state.prev.red, byte1 & 0b00111111, (byte2 & 0b11110000) >> 4);
        lemma_biased_changes(state.prev.blue, byte1 & 0b00111111, byte2 & 0b00001111);
    }
    push_pixel(pixels, pixel, state.is_alpha);
    update_state(pixel, state);
    proof {
        lemma_packed_one(pixel, state.is_alpha);
        assert(rest@ =~= input@.skip(2));
    }
    Ok(rest)
}

/// Decodes a RUN chunk.
pub fn qoi_op_run<'a>(input: &'a [u8], pixels: &mut Vec<u8>, state: &mut ParserState) -> (result:
    Result<&'a [u8], ParserError>)
    ensures
        chunk_applied(
            chunk_run(input@, old(state)@),
            input@,
            result,
            old(pixels)@,
            final(pixels)@,
            *old(state),
            *final(state),
        ),
{
    let (byte, rest) = u8(input)?;
    proof {
        lemma_tag_fields(byte);
    }
    if (byte & 0b11000000) >> 6 != 0b11 {
        return Err(ParserError::Recoverable);
    }
    let run = (byte & 0b00111111).wrapping_add(1);

    push_pixels(pixels, state.prev, run as usize, state.is_alpha);

    update_state(state.prev, state);

    Ok(rest)
}

/// Takes the end marker off the front of the stream, if it is there. It
/// stands for no pixel: the buffer and the state stay as they are.
pub fn qoi_op_end<'a>(input: &'a [u8], pixels: &mut Vec<u8>, state: &mut ParserState) -> (result:
    Result<&'a [u8], ParserError>)
    ensures
        chunk_applied(
            chunk_end(input@),
            input@,
            result,
            old(pixels)@,
            final(pixels)@,
            *old(state),
            *final(state),
        ),
{
    let marker: [u8; 8] = [0, 0, 0, 0, 0, 0, 0, 1];
    assert(marker@ =~= end_marker());
    match tag(&marker, input) {
        Ok(rest) => Ok(rest),
        Err(_) => Err(ParserError::Recoverable),
    }
}

} // verus!
