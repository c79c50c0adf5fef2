//! Packing pixels into the flat byte buffer of a decoded image.

use crate::pixel::Pixel;
use vstd::prelude::*;

verus! {

/// The number of bytes that one pixel takes in the buffer.
pub open spec fn bytes_per_pixel(is_alpha: bool) -> nat {
    if is_alpha {
        4
    } else {
        3
    }
}

/// Channel `k` of `pixel`, in the order red, green, blue, alpha.
pub open spec fn channel(pixel: Pixel, k: int) -> u8 {
    if k == 0 {
        pixel.red
    } else if k == 1 {
        pixel.green
    } else if k == 2 {
        pixel.blue
    } else {
        pixel.alpha
    }
}

/// The bytes of one pixel as they stand in the buffer: red, green, blue, and
/// alpha where the image has it.
pub open spec fn pixel_bytes(pixel: Pixel, is_alpha: bool) -> Seq<u8> {
    if is_alpha {
        seq![pixel.red, pixel.green, pixel.blue, pixel.alpha]
    } else {
        seq![pixel.red, pixel.green, pixel.blue]
    }
}

/// The buffer that holds `pixels` in order: byte `i` is channel
/// `i % width` of pixel `i / width`, where `width` is the number of bytes per
/// pixel.
pub open spec fn packed(pixels: Seq<Pixel>, is_alpha: bool) -> Seq<u8> {
    let width = bytes_per_pixel(is_alpha);
    Seq::new(pixels.len() * width, |i: int| channel(pixels[i / width as int], i % width as int))
}

/// `run` copies of `pixel`.
pub open spec fn repeated(pixel: Pixel, run: nat) -> Seq<Pixel> {
    Seq::new(run, |i: int| pixel)
}

/// The buffer of some pixels holds three or four bytes for each.
pub proof fn lemma_packed_len(pixels: Seq<Pixel>, is_alpha: bool)
    ensures
        packed(pixels, is_alpha).len() == pixels.len() * bytes_per_pixel(is_alpha),
{
}

/// The buffer of a single pixel is that pixel's bytes.
pub proof fn lemma_packed_one(pixel: Pixel, is_alpha: bool)
    ensures
        packed(seq![pixel], is_alpha) == pixel_bytes(pixel, is_alpha),
        packed(repeated(pixel, 1), is_alpha) == pixel_bytes(pixel, is_alpha),
{
    assert(repeated(pixel, 1) =~= seq![pixel]);
    assert(packed(seq![pixel], is_alpha) =~= pixel_bytes(pixel, is_alpha));
}

/// The buffer of no pixels is empty.
pub proof fn lemma_packed_empty(is_alpha: bool)
    ensures
        packed(Seq::<Pixel>::empty(), is_alpha) == Seq::<u8>::empty(),
{
    assert(packed(Seq::<Pixel>::empty(), is_alpha) =~= Seq::<u8>::empty());
}

/// Packing keeps the order of concatenation: the buffer of `a` followed by
/// `b` is the buffer of `a` followed by the buffer of `b`.
pub proof fn lemma_packed_concat(a: Seq<Pixel>, b: Seq<Pixel>, is_alpha: bool)
    ensures
        packed(a + b, is_alpha) == packed(a, is_alpha) + packed(b, is_alpha),
{
    let whole = packed(a + b, is_alpha);
    let parts = packed(a, is_alpha) + packed(b, is_alpha);
    if is_alpha {
        assert(whole.len() == parts.len());
        assert forall|i: int| 0 <= i < whole.len() implies whole[i] == parts[i] by {
            if i >= a.len() * 4 {
                let j = i - a.len() * 4;
                assert(j / 4 == i / 4 - a.len() && j % 4 == i % 4);
            }
        }
    } else {
        assert(whole.len() == parts.len());
        assert forall|i: int| 0 <= i < whole.len() implies whole[i] == parts[i] by {
            if i >= a.len() * 3 {
                let j = i - a.len() * 3;
                assert(j / 3 == i / 3 - a.len() && j % 3 == i % 3);
            }
        }
    }
    assert(whole =~= parts);
}

/// Appends the bytes of `pixel` to the buffer.
pub fn push_pixel(pixels: &mut Vec<u8>, pixel: Pixel, is_alpha: bool)
    ensures
        final(pixels)@ == old(pixels)@ + pixel_bytes(pixel, is_alpha),
{
    pixels.push(pixel.red);
    pixels.push(pixel.green);
    pixels.push(pixel.blue);
    if is_alpha {
        pixels.push(pixel.alpha);
    }
    assert(pixels@ =~= old(pixels)@ + pixel_bytes(pixel, is_alpha));
}

/// Appends the bytes of `run` copies of `pixel` to the buffer.
pub fn push_pixels(pixels: &mut Vec<u8>, pixel: Pixel, run: usize, is_alpha: bool)
    ensures
        final(pixels)@ == old(pixels)@ + packed(repeated(pixel, run as nat), is_alpha),
{
    proof {
        lemma_packed_empty(is_alpha);
        assert(repeated(pixel, 0) =~= Seq::<Pixel>::empty());
    }
    let mut done: usize = 0;
    while done < run
        invariant
            done <= run,
            pixels@ == old(pixels)@ + packed(repeated(pixel, done as nat), is_alpha),
        decreases run - done,
    {
        push_pixel(pixels, pixel, is_alpha);
        proof {
            lemma_packed_one(pixel, is_alpha);
            lemma_packed_concat(repeated(pixel, done as nat), repeated(pixel, 1), is_alpha);
            assert(repeated(pixel, done as nat) + repeated(pixel, 1) =~= repeated(
                pixel,
                (done + 1) as nat,
            ));
            assert(pixels@ =~= old(pixels)@ + packed(
                repeated(pixel, (done + 1) as nat),
                is_alpha,
            ));
        }
        done += 1;
    }
}

} // verus!
