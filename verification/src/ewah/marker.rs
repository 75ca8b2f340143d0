use vstd::prelude::*;
use crate::word::Word;
use super::format::{max_run, max_lits, run_bit, run_len, lit_len, packed};

verus! {

/// The fields of a marker word.
#[derive(Debug, Clone, Copy, PartialEq, Eq)]
pub(crate) struct Marker {
    pub(crate) uniform_bit: bool,
    pub(crate) uniform_words: u64,
    pub(crate) literal_words: u64,
}

impl Marker {
    pub(crate) fn max_uniform_words<W: Word>() -> (r: u64)
        ensures
            r == max_run(W::BITS),
    {
        proof { W::lemma_word(W::ZERO); }
        let half = W::BITS / 2;
        proof {
            if W::BITS == 8 {
                assert(half == 4);
                assert((1u64 << 3u32) - 1 == 7) by (bit_vector);
            } else if W::BITS == 16 {
                assert(half == 8);
                assert((1u64 << 7u32) - 1 == 127) by (bit_vector);
            } else if W::BITS == 32 {
                assert(half == 16);
                assert((1u64 << 15u32) - 1 == 0x7fff) by (bit_vector);
            } else {
                assert(half == 32);
                assert((1u64 << 31u32) - 1 == 0x7fff_ffff) by (bit_vector);
            }
        }
        (1u64 << (half - 1)) - 1
    }

    pub(crate) fn max_literal_words<W: Word>() -> (r: u64)
        ensures
            r == max_lits(W::BITS),
    {
        proof { W::lemma_word(W::ZERO); }
        let half = W::BITS / 2;
        proof {
            if W::BITS == 8 {
                assert(half == 4);
                assert((1u64 << 4u32) - 1 == 15) by (bit_vector);
            } else if W::BITS == 16 {
                assert(half == 8);
                assert((1u64 << 8u32) - 1 == 255) by (bit_vector);
            } else if W::BITS == 32 {
                assert(half == 16);
                assert((1u64 << 16u32) - 1 == 0xffff) by (bit_vector);
            } else {
                assert(half == 32);
                assert((1u64 << 32u32) - 1 == 0xffff_ffff) by (bit_vector);
            }
        }
        (1u64 << half) - 1
    }

    /// The marker word; its fields must fit.
    pub(crate) fn pack<W: Word>(self) -> (r: W)
        requires
            self.uniform_words <= max_run(W::BITS),
            self.literal_words <= max_lits(W::BITS),
        ensures
            r.val() == packed(self.uniform_bit, self.uniform_words, self.literal_words, W::BITS),
            r == W::from_val(packed(self.uniform_bit, self.uniform_words, self.literal_words, W::BITS)),
    {
        proof {
            W::lemma_word(W::ZERO);
            super::format::lemma_packed(self.uniform_bit, self.uniform_words, self.literal_words, W::BITS);
        }
        let uniform_bit = self.uniform_bit && self.uniform_words != 0;
        let low: u64 = if uniform_bit { 1 } else { 0 };
        let half = W::BITS / 2;
        let lw = self.literal_words;
        let packed = low | (self.uniform_words << 1u64) | (lw << half);
        proof {
            assert(half as u64 == ((W::BITS / 2) as u64));
            assert(lw << half == lw << (half as u64)) by (bit_vector);
        }
        let r = W::from_u64(packed);
        proof { W::lemma_word(r); }
        r
    }

    /// The fields of a marker word.
    pub(crate) fn unpack<W: Word>(word: W) -> (r: Self)
        ensures
            r.uniform_bit == run_bit(word.val()),
            r.uniform_words == run_len(word.val(), W::BITS),
            r.literal_words == lit_len(word.val(), W::BITS),
    {
        proof { W::lemma_word(word); }
        let packed = word.to_u64();
        let half = W::BITS / 2;
        proof {
            assert((packed & 1 != 0) == (packed & 1 == 1)) by (bit_vector);
            assert(half as u64 == ((W::BITS / 2) as u64));
            assert(packed >> half == packed >> (half as u64)) by (bit_vector);
        }
        Self {
            uniform_bit: packed & 1 != 0,
            uniform_words: (packed >> 1u64) & Self::max_uniform_words::<W>(),
            literal_words: packed >> half,
        }
    }
}

} // verus!
