//! Readers that take a fixed-size item off the front of a byte slice.

use crate::error::ParserError;
use vstd::prelude::*;
use vstd::slice::slice_subrange;

verus! {

/// The value of four bytes read as a big-endian 32-bit number.
pub open spec fn be_u32_value(b0: u8, b1: u8, b2: u8, b3: u8) -> int {
    b0 * 0x100_0000 + b1 * 0x1_0000 + b2 * 0x100 + b3
}

/// Whether `input` begins with the bytes of `tag`.
pub open spec fn starts_with(input: Seq<u8>, tag: Seq<u8>) -> bool {
    tag.len() <= input.len() && input.take(tag.len() as int) == tag
}

/// Takes the bytes of `literal` off the front of `input`.
///
/// Fails with `Invalid` when `input` is shorter than `literal`, and with
/// `Recoverable` when it is long enough but begins with other bytes.
pub fn tag<'a>(literal: &[u8], input: &'a [u8]) -> (result: Result<&'a [u8], ParserError>)
    ensures
        match result {
            Ok(rest) => starts_with(input@, literal@) && rest@ == input@.skip(literal@.len() as int),
            Err(ParserError::Recoverable) => literal@.len() <= input@.len() && !starts_with(
                input@,
                literal@,
            ),
            Err(ParserError::Invalid) => input@.len() < literal@.len(),
        },
{
    if input.len() < literal.len() {
        return Err(ParserError::Invalid);
    }
    let mut i: usize = 0;
    while i < literal.len()
        invariant
            i <= literal@.len() <= input@.len(),
            input@.take(i as int) == literal@.take(i as int),
        decreases literal@.len() - i,
    {
        if input[i] != literal[i] {
            proof {
                let n = literal@.len() as int;
                assert(input@.take(n)[i as int] != literal@[i as int]);
            }
            return Err(ParserError::Recoverable);
        }
        proof {
            assert(input@.take(i + 1) == input@.take(i as int).push(input@[i as int]));
            assert(literal@.take(i + 1) == literal@.take(i as int).push(literal@[i as int]));
        }
        i += 1;
    }
    proof {
        assert(literal@.take(literal@.len() as int) == literal@);
    }
    Ok(slice_subrange(input, literal.len(), input.len()))
}

/// Takes a big-endian 32-bit number off the front of `input`.
///
/// Fails with `Invalid` when fewer than four bytes are left.
pub fn be_u32(input: &[u8]) -> (result: Result<(u32, &[u8]), ParserError>)
    ensures
        match result {
            Ok((value, rest)) => {
                &&& input@.len() >= 4
                &&& value == be_u32_value(input@[0], input@[1], input@[2], input@[3])
                &&& rest@ == input@.skip(4)
            },
            Err(e) => input@.len() < 4 && e == ParserError::Invalid,
        },
{
    if input.len() < 4 {
        return Err(ParserError::Invalid);
    }
    let value: u32 = (input[0] as u32) * 0x100_0000 + (input[1] as u32) * 0x1_0000 + (
    input[2] as u32) * 0x100 + (input[3] as u32);
    Ok((value, slice_subrange(input, 4, input.len())))
}

/// Takes one byte off the front of `input`.
///
/// Fails with `Invalid` when `input` is empty.
pub fn u8(input: &[u8]) -> (result: Result<(u8, &[u8]), ParserError>)
    ensures
        match result {
            Ok((byte, rest)) => input@.len() > 0 && byte == input@[0] && rest@ == input@.skip(1),
            Err(e) => input@.len() == 0 && e == ParserError::Invalid,
        },
{
    if input.is_empty() {
        return Err(ParserError::Invalid);
    }
    let num = input[0];
    Ok((num, slice_subrange(input, 1, input.len())))
}

} // verus!
