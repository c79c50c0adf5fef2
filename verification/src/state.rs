//! The decoder's memory: the previous pixel and the recent-pixel cache.

use crate::pixel::{hash_index, hash_pixel, Pixel};
use vstd::prelude::*;

verus! {

/// What the decoder remembers between two chunks of the stream.
#[derive(Clone, Copy, Debug)]
pub struct ParserState {
    /// The pixel produced last.
    pub prev: Pixel,
    /// The cache: each slot holds the pixel with that hash that was produced
    /// last, or the zero pixel if there was none.
    pub seen: [Pixel; 64],
    /// Whether the output carries an alpha byte per pixel.
    pub is_alpha: bool,
}

/// The mathematical content of a `ParserState`.
pub struct DecodeState {
    pub prev: Pixel,
    pub seen: Seq<Pixel>,
}

impl DecodeState {
    /// The state before the first chunk: the previous pixel is opaque black
    /// and every slot of the cache holds the zero pixel.
    pub open spec fn initial() -> DecodeState {
        DecodeState {
            prev: Pixel { red: 0, green: 0, blue: 0, alpha: 255 },
            seen: Seq::new(64, |i: int| Pixel { red: 0, green: 0, blue: 0, alpha: 0 }),
        }
    }

    /// The cache has its 64 slots.
    pub open spec fn wf(self) -> bool {
        self.seen.len() == 64
    }

    /// The state after `pixel` was produced: it is the previous pixel, and it
    /// replaces whatever its slot of the cache held.
    pub open spec fn record(self, pixel: Pixel) -> DecodeState {
        DecodeState { prev: pixel, seen: self.seen.update(hash_index(pixel), pixel) }
    }
}

impl View for ParserState {
    type V = DecodeState;

    open spec fn view(&self) -> DecodeState {
        DecodeState { prev: self.prev, seen: self.seen@ }
    }
}

impl ParserState {
    /// The state before the first chunk of a stream.
    pub fn new(is_alpha: bool) -> (state: ParserState)
        ensures
            state@ == DecodeState::initial(),
            state.is_alpha == is_alpha,
    {
        let state = ParserState {
            prev: Pixel { red: 0, green: 0, blue: 0, alpha: 255 },
            seen: [Pixel { red: 0, green: 0, blue: 0, alpha: 0 };64],
            is_alpha,
        };
        assert(state.seen@ =~= DecodeState::initial().seen);
        state
    }
}

/// Records that `pixel` was produced.
pub fn update_state(pixel: Pixel, state: &mut ParserState)
    ensures
        final(state)@ == old(state)@.record(pixel),
        final(state).is_alpha == old(state).is_alpha,
{
    state.prev = pixel;
    state.seen[hash_pixel(pixel)] = pixel;
}

/// After a pixel is recorded it is the previous pixel and it occupies its
/// own slot of the cache; every other slot holds what it held before.
pub proof fn lemma_record(state: DecodeState, pixel: Pixel)
    requires
        state.wf(),
    ensures
        state.record(pixel).wf(),
        state.record(pixel).prev == pixel,
        state.record(pixel).seen[hash_index(pixel)] == pixel,
        forall|slot: int|
            0 <= slot < 64 && slot != hash_index(pixel) ==> state.record(pixel).seen[slot]
                == state.seen[slot],
{
}

/// Recording the same pixel again changes nothing: the repetitions of a run
/// leave the state as the first of them left it.
pub proof fn lemma_record_again(state: DecodeState, pixel: Pixel)
    requires
        state.wf(),
    ensures
        state.record(pixel).record(pixel) == state.record(pixel),
{
    assert(state.record(pixel).record(pixel).seen =~= state.record(pixel).seen);
}

/// A slot of the cache holds the pixel that was recorded into it last: a
/// later pixel with the same hash replaces an earlier one, and a later
/// pixel with another hash leaves it alone.
pub proof fn lemma_record_overwrites(state: DecodeState, earlier: Pixel, later: Pixel)
    requires
        state.wf(),
    ensures
        state.record(earlier).record(later).seen[hash_index(earlier)] == if hash_index(later)
            == hash_index(earlier) {
            later
        } else {
            earlier
        },
{
}

/// The state before the first chunk has its 64 slots.
pub proof fn lemma_initial_wf()
    ensures
        DecodeState::initial().wf(),
{
}

} // verus!
