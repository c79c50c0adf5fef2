//! Pixels and the hash that places them in the decoder's cache.

use vstd::arithmetic::div_mod::{lemma_add_mod_noop, lemma_mod_mod};
use vstd::prelude::*;

verus! {

/// One pixel: four 8-bit channels.
#[derive(Clone, Copy, Debug, PartialEq, Eq, Structural)]
pub struct Pixel {
    pub red: u8,
    pub green: u8,
    pub blue: u8,
    pub alpha: u8,
}

/// Number of slots in the recent-pixel cache.
pub const CACHE_SLOTS: usize = 64;

/// The cache slot of a pixel: a weighted sum of its channels, modulo the
/// number of slots.
pub open spec fn hash_index(pixel: Pixel) -> int {
    (pixel.red * 3 + pixel.green * 5 + pixel.blue * 7 + pixel.alpha * 11) % 64
}

/// Computes the cache slot of `pixel` in 8-bit wrapping arithmetic.
pub fn hash_pixel(pixel: Pixel) -> (slot: usize)
    ensures
        slot == hash_index(pixel),
        slot < CACHE_SLOTS,
{
    let r: u8 = pixel.red.wrapping_mul(3);
    let g: u8 = pixel.green.wrapping_mul(5);
    let b: u8 = pixel.blue.wrapping_mul(7);
    let a: u8 = pixel.alpha.wrapping_mul(11);
    let sum: u8 = r.wrapping_add(g).wrapping_add(b).wrapping_add(a);
    proof {
        lemma_wrapped_sum_slot(
            pixel.red * 3,
            pixel.green * 5,
            pixel.blue * 7,
            pixel.alpha * 11,
            r,
            g,
            b,
            a,
        );
    }
    (sum % 64) as usize
}

/// Reducing every intermediate result modulo 256 does not change a sum of
/// four terms modulo 64.
proof fn lemma_wrapped_sum_slot(w: int, x: int, y: int, z: int, r: u8, g: u8, b: u8, a: u8)
    requires
        r == w % 256,
        g == x % 256,
        b == y % 256,
        a == z % 256,
    ensures
        r.wrapping_add(g) == (w + x) % 256,
        r.wrapping_add(g).wrapping_add(b) == (w + x + y) % 256,
        r.wrapping_add(g).wrapping_add(b).wrapping_add(a) == (w + x + y + z) % 256,
        r.wrapping_add(g).wrapping_add(b).wrapping_add(a) % 64 == (w + x + y + z) % 64,
{
    let rg = r.wrapping_add(g);
    let rgb = rg.wrapping_add(b);
    let sum = rgb.wrapping_add(a);
    assert(rg == (r + g) % 256);
    assert(rgb == (rg + b) % 256);
    assert(sum == (rgb + a) % 256);
    lemma_add_mod_noop(w, x, 256);
    lemma_add_mod_noop(w + x, y, 256);
    lemma_add_mod_noop(w + x + y, z, 256);
    lemma_mod_mod(w + x + y + z, 64, 4);
}

} // verus!
