use vstd::prelude::*;
use crate::bits::{pop, count_ones, lemma_pop_bound, lemma_bit_xor};

mod sealed;

verus! {

/// The all-ones value of a word `bits` wide.
pub open spec fn word_max(bits: u32) -> u64 {
    if bits == 8 {
        0xff
    } else if bits == 16 {
        0xffff
    } else if bits == 32 {
        0xffff_ffff
    } else {
        0xffff_ffff_ffff_ffff
    }
}

/// Bits of a narrow value at or above its width are clear.
proof fn lemma_high_bits(v: u64, j: u64)
    by (bit_vector)
    ensures
        v <= 0xff && 8 <= j < 64 ==> (v >> j) & 1u64 != 1u64,
        v <= 0xffff && 16 <= j < 64 ==> (v >> j) & 1u64 != 1u64,
        v <= 0xffff_ffff && 32 <= j < 64 ==> (v >> j) & 1u64 != 1u64,
{
}

/// The all-ones value of each width has its bits set below the width; zero has none.
proof fn lemma_low_bits(j: u64)
    by (bit_vector)
    ensures
        j < 8 ==> (0xffu64 >> j) & 1u64 == 1u64,
        j < 16 ==> (0xffffu64 >> j) & 1u64 == 1u64,
        j < 32 ==> (0xffff_ffffu64 >> j) & 1u64 == 1u64,
        j < 64 ==> (0xffff_ffff_ffff_ffffu64 >> j) & 1u64 == 1u64,
        (0u64 >> j) & 1u64 != 1u64,
{
}

/// Above its width a word's bits are clear.
proof fn lemma_pop_high(v: u64, b: u32, k: int)
    requires
        b == 8 || b == 16 || b == 32 || b == 64,
        v <= word_max(b),
        b <= k <= 64,
    ensures
        pop(v, k) == pop(v, b as int),
    decreases k,
{
    if k > b {
        lemma_pop_high(v, b, k - 1);
        let j = (k - 1) as u64;
        lemma_high_bits(v, j);
    }
}

/// Below its width the all-ones word has every bit set.
proof fn lemma_pop_max(b: u32, k: int)
    requires
        b == 8 || b == 16 || b == 32 || b == 64,
        0 <= k <= b,
    ensures
        pop(word_max(b), k) == k,
    decreases k,
{
    if k > 0 {
        lemma_pop_max(b, k - 1);
        let j = (k - 1) as u64;
        lemma_low_bits(j);
    }
}

proof fn lemma_pop_zero(k: int)
    requires
        0 <= k <= 64,
    ensures
        pop(0, k) == 0,
    decreases k,
{
    if k > 0 {
        lemma_pop_zero(k - 1);
        let j = (k - 1) as u64;
        lemma_low_bits(j);
    }
}

/// Below the width, a value and its complement have every bit set once between them.
proof fn lemma_pop_complement_below(v: u64, b: u32, k: int)
    requires
        b == 8 || b == 16 || b == 32 || b == 64,
        0 <= k <= b,
    ensures
        pop(v ^ word_max(b), k) + pop(v, k) == k,
    decreases k,
{
    if k > 0 {
        lemma_pop_complement_below(v, b, k - 1);
        let j = (k - 1) as u64;
        lemma_low_bits(j);
        lemma_bit_xor(v, word_max(b), j);
    }
}

/// Within a word `b` bits wide, a value and its complement count every bit
/// once between them.
pub proof fn lemma_pop_complement(v: u64, b: u32)
    requires
        b == 8 || b == 16 || b == 32 || b == 64,
        v <= word_max(b),
        v ^ word_max(b) <= word_max(b),
    ensures
        pop(v ^ word_max(b), 64) + pop(v, 64) == b,
{
    lemma_pop_complement_below(v, b, b as int);
    lemma_pop_high(v, b, 64);
    lemma_pop_high(v ^ word_max(b), b, 64);
}

/// A word has at most as many set bits as it is wide; the all-ones word has
/// exactly that many, the zero word none.
pub proof fn lemma_pop_word<W: Word>(w: W)
    ensures
        pop(w.val(), 64) <= W::BITS,
        pop(W::ONES.val(), 64) == W::BITS,
        pop(W::ZERO.val(), 64) == 0,
{
    W::lemma_word(w);
    W::lemma_word(W::ONES);
    lemma_pop_high(w.val(), W::BITS, 64);
    lemma_pop_bound(w.val(), W::BITS as int);
    lemma_pop_high(W::ONES.val(), W::BITS, 64);
    lemma_pop_max(W::BITS, W::BITS as int);
    lemma_pop_zero(64);
}

/// An unsigned machine word that a compressed bitmap is made of.
pub trait Word: sealed::Sealed + Copy + Eq + core::fmt::Debug {
    const BITS: u32;
    const ZERO: Self;
    const ONES: Self;

    /// The word read as an unsigned number.
    spec fn val(self) -> u64;

    /// The word that holds the number `v`.
    spec fn from_val(v: u64) -> Self;

    /// A word is its number, and the constants are what their names say.
    proof fn lemma_word(w: Self)
        ensures
            Self::BITS == 8 || Self::BITS == 16 || Self::BITS == 32 || Self::BITS == 64,
            Self::ZERO.val() == 0,
            Self::ONES.val() == word_max(Self::BITS),
            w.val() <= word_max(Self::BITS),
            Self::from_val(w.val()) == w,
    ;

    proof fn lemma_from_val(v: u64)
        requires
            v <= word_max(Self::BITS),
        ensures
            Self::from_val(v).val() == v,
    ;

    fn to_u64(self) -> (r: u64)
        ensures
            r == self.val(),
    ;

    fn from_u64(value: u64) -> (r: Self)
        requires
            value <= word_max(Self::BITS),
        ensures
            r.val() == value,
    ;

    fn count_ones(self) -> (r: u32)
        ensures
            r == pop(self.val(), 64),
    ;

    fn bit_and(self, other: Self) -> (r: Self)
        ensures
            r.val() == self.val() & other.val(),
    ;

    fn bit_or(self, other: Self) -> (r: Self)
        ensures
            r.val() == self.val() | other.val(),
    ;

    fn bit_xor(self, other: Self) -> (r: Self)
        ensures
            r.val() == self.val() ^ other.val(),
    ;

    fn bit_not(self) -> (r: Self)
        ensures
            r.val() == self.val() ^ word_max(Self::BITS),
    ;

    /// All bits clear or all bits set.
    fn is_uniform(self) -> (r: bool)
        ensures
            r == (self.val() == 0 || self.val() == word_max(Self::BITS)),
    {
        proof { Self::lemma_word(self); }
        let v = self.to_u64();
        v == 0 || v == Self::ONES.to_u64()
    }
}

/// How the operations of a `u8` read as a `u64`.
proof fn lemma_u8_bits(a: u8, b: u8, v: u64)
    by (bit_vector)
    ensures
        (a & b) as u64 == (a as u64) & (b as u64),
        (a | b) as u64 == (a as u64) | (b as u64),
        (a ^ b) as u64 == (a as u64) ^ (b as u64),
        (!a) as u64 == (a as u64) ^ 0xffu64,
        (a as u64) as u8 == a,
        v <= 0xffu64 ==> (v as u8) as u64 == v,
{
}

impl Word for u8 {
    const BITS: u32 = 8;
    const ZERO: Self = 0;
    const ONES: Self = 0xff;

    open spec fn val(self) -> u64 {
        self as u64
    }

    open spec fn from_val(v: u64) -> Self {
        v as u8
    }

    proof fn lemma_word(w: Self) {
        assert(Self::ZERO == 0);
        assert(Self::ONES == 0xff);
        lemma_u8_bits(w, w, 0);
        assert(Self::from_val(w.val()) == w);
    }

    proof fn lemma_from_val(v: u64) {
        lemma_u8_bits(0, 0, v);
    }

    fn to_u64(self) -> (r: u64) {
        self as u64
    }

    fn from_u64(value: u64) -> (r: Self) {
        value as u8
    }

    fn count_ones(self) -> (r: u32) {
        count_ones(self as u64)
    }

    fn bit_and(self, other: Self) -> (r: Self) {
        proof { lemma_u8_bits(self, other, 0); }
        self & other
    }

    fn bit_or(self, other: Self) -> (r: Self) {
        proof { lemma_u8_bits(self, other, 0); }
        self | other
    }

    fn bit_xor(self, other: Self) -> (r: Self) {
        proof { lemma_u8_bits(self, other, 0); }
        self ^ other
    }

    fn bit_not(self) -> (r: Self) {
        proof { lemma_u8_bits(self, self, 0); }
        !self
    }
}

/// How the operations of a `u16` read as a `u64`.
proof fn lemma_u16_bits(a: u16, b: u16, v: u64)
    by (bit_vector)
    ensures
        (a & b) as u64 == (a as u64) & (b as u64),
        (a | b) as u64 == (a as u64) | (b as u64),
        (a ^ b) as u64 == (a as u64) ^ (b as u64),
        (!a) as u64 == (a as u64) ^ 0xffffu64,
        (a as u64) as u16 == a,
        v <= 0xffffu64 ==> (v as u16) as u64 == v,
{
}

impl Word for u16 {
    const BITS: u32 = 16;
    const ZERO: Self = 0;
    const ONES: Self = 0xffff;

    open spec fn val(self) -> u64 {
        self as u64
    }

    open spec fn from_val(v: u64) -> Self {
        v as u16
    }

    proof fn lemma_word(w: Self) {
        assert(Self::ZERO == 0);
        assert(Self::ONES == 0xffff);
        lemma_u16_bits(w, w, 0);
        assert(Self::from_val(w.val()) == w);
    }

    proof fn lemma_from_val(v: u64) {
        lemma_u16_bits(0, 0, v);
    }

    fn to_u64(self) -> (r: u64) {
        self as u64
    }

    fn from_u64(value: u64) -> (r: Self) {
        value as u16
    }

    fn count_ones(self) -> (r: u32) {
        count_ones(self as u64)
    }

    fn bit_and(self, other: Self) -> (r: Self) {
        proof { lemma_u16_bits(self, other, 0); }
        self & other
    }

    fn bit_or(self, other: Self) -> (r: Self) {
        proof { lemma_u16_bits(self, other, 0); }
        self | other
    }

    fn bit_xor(self, other: Self) -> (r: Self) {
        proof { lemma_u16_bits(self, other, 0); }
        self ^ other
    }

    fn bit_not(self) -> (r: Self) {
        proof { lemma_u16_bits(self, self, 0); }
        !self
    }
}

/// How the operations of a `u32` read as a `u64`.
proof fn lemma_u32_bits(a: u32, b: u32, v: u64)
    by (bit_vector)
    ensures
        (a & b) as u64 == (a as u64) & (b as u64),
        (a | b) as u64 == (a as u64) | (b as u64),
        (a ^ b) as u64 == (a as u64) ^ (b as u64),
        (!a) as u64 == (a as u64) ^ 0xffff_ffffu64,
        (a as u64) as u32 == a,
        v <= 0xffff_ffffu64 ==> (v as u32) as u64 == v,
{
}

impl Word for u32 {
    const BITS: u32 = 32;
    const ZERO: Self = 0;
    const ONES: Self = 0xffff_ffff;

    open spec fn val(self) -> u64 {
        self as u64
    }

    open spec fn from_val(v: u64) -> Self {
        v as u32
    }

    proof fn lemma_word(w: Self) {
        assert(Self::ZERO == 0);
        assert(Self::ONES == 0xffff_ffff);
        lemma_u32_bits(w, w, 0);
        assert(Self::from_val(w.val()) == w);
    }

    proof fn lemma_from_val(v: u64) {
        lemma_u32_bits(0, 0, v);
    }

    fn to_u64(self) -> (r: u64) {
        self as u64
    }

    fn from_u64(value: u64) -> (r: Self) {
        value as u32
    }

    fn count_ones(self) -> (r: u32) {
        count_ones(self as u64)
    }

    fn bit_and(self, other: Self) -> (r: Self) {
        proof { lemma_u32_bits(self, other, 0); }
        self & other
    }

    fn bit_or(self, other: Self) -> (r: Self) {
        proof { lemma_u32_bits(self, other, 0); }
        self | other
    }

    fn bit_xor(self, other: Self) -> (r: Self) {
        proof { lemma_u32_bits(self, other, 0); }
        self ^ other
    }

    fn bit_not(self) -> (r: Self) {
        proof { lemma_u32_bits(self, self, 0); }
        !self
    }
}

impl Word for u64 {
    const BITS: u32 = 64;
    const ZERO: Self = 0;
    const ONES: Self = 0xffff_ffff_ffff_ffff;

    open spec fn val(self) -> u64 {
        self
    }

    open spec fn from_val(v: u64) -> Self {
        v
    }

    proof fn lemma_word(w: Self) {
        assert(Self::ZERO == 0);
        assert(Self::ONES == 0xffff_ffff_ffff_ffff);
        assert(Self::from_val(w.val()) == w);
    }

    proof fn lemma_from_val(v: u64) {
    }

    fn to_u64(self) -> (r: u64) {
        self
    }

    fn from_u64(value: u64) -> (r: Self) {
        value
    }

    fn count_ones(self) -> (r: u32) {
        count_ones(self)
    }

    fn bit_and(self, other: Self) -> (r: Self) {
        self & other
    }

    fn bit_or(self, other: Self) -> (r: Self) {
        self | other
    }

    fn bit_xor(self, other: Self) -> (r: Self) {
        self ^ other
    }

    fn bit_not(self) -> (r: Self) {
        let r = !self;
        assert(r == self ^ 0xffff_ffff_ffff_ffffu64) by (bit_vector)
            requires r == !self;
        r
    }
}

} // verus!
