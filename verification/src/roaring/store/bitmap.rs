use vstd::prelude::*;
use crate::bits::{bit, pop, group_bits, lemma_pop_bound, count_ones};
use super::array::{ArrayStore, increasing, values_set, closed_range, lemma_increasing_len};

verus! {

broadcast use group_bits;

/// Number of 64-bit words in a bitmap container.
pub const BITMAP_WORDS: usize = 1024;

/// The values whose bits are set in `words`.
pub open spec fn bitmap_set(words: Seq<u64>) -> Set<int> {
    Set::new(|x: int| 0 <= x < 64 * words.len() && bit(words[x / 64], (x % 64) as u64))
}

/// Total number of set bits in `words`.
pub open spec fn card(words: Seq<u64>) -> nat
    decreases words.len(),
{
    if words.len() == 0 {
        0
    } else {
        card(words.drop_last()) + pop(words.last(), 64)
    }
}

/// The values `base + j` with bit `j` of `w` set, for `j < k`.
pub open spec fn word_set(w: u64, base: int, k: int) -> Set<int> {
    Set::new(|x: int| base <= x < base + k && bit(w, (x - base) as u64))
}

proof fn lemma_word_set_len(w: u64, base: int, k: int)
    requires
        0 <= k <= 64,
    ensures
        word_set(w, base, k).finite(),
        word_set(w, base, k).len() == pop(w, k),
    decreases k,
{
    if k == 0 {
        assert(word_set(w, base, k) =~= Set::empty());
    } else {
        lemma_word_set_len(w, base, k - 1);
        if bit(w, (k - 1) as u64) {
            assert(word_set(w, base, k) =~= word_set(w, base, k - 1).insert(base + k - 1));
        } else {
            assert(word_set(w, base, k) =~= word_set(w, base, k - 1));
        }
    }
}

proof fn lemma_div64(x: int, q: int)
    requires
        64 * q <= x < 64 * q + 64,
    ensures
        x / 64 == q,
        x % 64 == x - 64 * q,
{
}

/// The values of a bitmap are as many as its set bits.
pub proof fn lemma_bitmap_len(words: Seq<u64>)
    ensures
        bitmap_set(words).finite(),
        bitmap_set(words).len() == card(words),
        card(words) <= 64 * words.len(),
        forall|x: int| bitmap_set(words).contains(x) ==> 0 <= x < 64 * words.len(),
    decreases words.len(),
{
    if words.len() == 0 {
        assert(bitmap_set(words) =~= Set::empty());
    } else {
        let n = words.len() - 1;
        let t = words.drop_last();
        lemma_bitmap_len(t);
        lemma_word_set_len(words.last(), 64 * n, 64);
        lemma_pop_bound(words.last(), 64);
        let ws = word_set(words.last(), 64 * n, 64);
        assert forall|x: int| bitmap_set(words).contains(x) <==> #[trigger] bitmap_set(t).union(ws).contains(x) by {
            if 0 <= x < 64 * n {
                assert(x / 64 < n) by {
                    if x / 64 >= n { assert(x >= 64 * (x / 64)); }
                }
                assert(t[x / 64] == words[x / 64]);
            } else if 64 * n <= x < 64 * n + 64 {
                lemma_div64(x, n);
            }
        }
        assert(bitmap_set(words) =~= bitmap_set(t).union(ws));
        assert(bitmap_set(t).disjoint(ws));
        vstd::set_lib::lemma_set_disjoint_lens(bitmap_set(t), ws);
    }
}

/// Replacing one word changes the total by the difference of the words' counts.
pub proof fn lemma_card_update(words: Seq<u64>, i: int, w: u64)
    requires
        0 <= i < words.len(),
    ensures
        card(words.update(i, w)) + pop(words[i], 64) == card(words) + pop(w, 64),
    decreases words.len(),
{
    let u = words.update(i, w);
    if i == words.len() - 1 {
        assert(u.drop_last() =~= words.drop_last());
    } else {
        lemma_card_update(words.drop_last(), i, w);
        assert(u.drop_last() =~= words.drop_last().update(i, w));
    }
}

/// A word whose set bits include those of another has at least as many.
pub proof fn lemma_pop_mono(a: u64, b: u64, k: int)
    requires
        forall|j: u64| j < 64 && bit(a, j) ==> bit(b, j),
        k <= 64,
    ensures
        pop(a, k) <= pop(b, k),
    decreases k,
{
    if k > 0 {
        lemma_pop_mono(a, b, k - 1);
    }
}

/// Bit `j` of the new word is that of the old one, or lies within `[start, end]`.
pub open spec fn word_inserted(o: u64, n: u64, base: int, start: int, end: int) -> bool {
    forall|j: u64| j < 64 ==> bit(n, j) == (bit(o, j) || (start <= base + j <= end))
}

/// Bit `j` of the new word is that of the old one, unless it lies within `[start, end]`.
pub open spec fn word_removed(o: u64, n: u64, base: int, start: int, end: int) -> bool {
    forall|j: u64| j < 64 ==> bit(n, j) == (bit(o, j) && !(start <= base + j <= end))
}

proof fn lemma_inserted_set(o: Seq<u64>, n: Seq<u64>, start: int, end: int)
    requires
        o.len() == n.len(),
        0 <= start <= end < 64 * o.len(),
        forall|wi: int| 0 <= wi < o.len() ==> word_inserted(#[trigger] o[wi], n[wi], 64 * wi, start, end),
    ensures
        bitmap_set(n) == bitmap_set(o).union(closed_range(start, end)),
{
    assert forall|x: int| bitmap_set(n).contains(x) <==> #[trigger] bitmap_set(o).union(closed_range(start, end)).contains(x) by {
        if 0 <= x < 64 * o.len() {
            let wi = x / 64;
            lemma_div64(x, wi);
            assert(word_inserted(o[wi], n[wi], 64 * wi, start, end));
            assert(x == 64 * wi + (x % 64));
        }
    }
    assert(bitmap_set(n) =~= bitmap_set(o).union(closed_range(start, end)));
}

proof fn lemma_removed_set(o: Seq<u64>, n: Seq<u64>, start: int, end: int)
    requires
        o.len() == n.len(),
        forall|wi: int| 0 <= wi < o.len() ==> word_removed(#[trigger] o[wi], n[wi], 64 * wi, start, end),
    ensures
        bitmap_set(n) == bitmap_set(o).difference(closed_range(start, end)),
{
    assert forall|x: int| bitmap_set(n).contains(x) <==> #[trigger] bitmap_set(o).difference(closed_range(start, end)).contains(x) by {
        if 0 <= x < 64 * o.len() {
            let wi = x / 64;
            lemma_div64(x, wi);
            assert(word_removed(o[wi], n[wi], 64 * wi, start, end));
            assert(x == 64 * wi + (x % 64));
        }
    }
    assert(bitmap_set(n) =~= bitmap_set(o).difference(closed_range(start, end)));
}

/// The word holding `value` and the mask selecting its bit.
pub fn word_and_mask(value: u16) -> (r: (usize, u64))
    ensures
        r.0 == value as int / 64,
        r.0 < BITMAP_WORDS,
        r.1 == 1u64 << ((value as int % 64) as u64),
        forall|j: u64| j < 64 ==> bit(r.1, j) == (j == value as int % 64),
{
    let word_index = (value as usize) / 64;
    let bit_index = (value as u64) % 64;
    (word_index, 1u64 << bit_index)
}

/// The bits from `bit` upward.
pub fn mask_from(b: u32) -> (r: u64)
    requires
        b < 64,
    ensures
        forall|j: u64| j < 64 ==> bit(r, j) == (j >= b),
{
    let r = 0xffff_ffff_ffff_ffffu64 << b;
    assert forall|j: u64| j < 64 implies bit(r, j) == (j >= b) by {
        assert(((0xffff_ffff_ffff_ffffu64 << b) >> j) & 1u64 == 1u64 <==> j >= b) by (bit_vector)
            requires
                b < 64,
                j < 64,
        ;
    }
    r
}

/// The bits up to and including `bit`.
pub fn mask_through(b: u32) -> (r: u64)
    requires
        b < 64,
    ensures
        forall|j: u64| j < 64 ==> bit(r, j) == (j <= b),
{
    if b == 63 {
        0xffff_ffff_ffff_ffffu64
    } else {
        assert((1u64 << (b + 1)) >= 1u64) by (bit_vector)
            requires
                b < 63,
        ;
        let r = (1u64 << (b + 1)) - 1;
        assert forall|j: u64| j < 64 implies bit(r, j) == (j <= b) by {
            assert(((((1u64 << (b + 1)) - 1u64) as u64) >> j) & 1u64 == 1u64 <==> j <= b) by (bit_vector)
                requires
                    b < 63,
                    j < 64,
            ;
        }
        r
    }
}

/// The bits from `start_bit` through `end_bit`.
pub fn mask_between(start_bit: u32, end_bit: u32) -> (r: u64)
    requires
        start_bit < 64,
        end_bit < 64,
    ensures
        forall|j: u64| j < 64 ==> bit(r, j) == (start_bit <= j <= end_bit),
{
    let a = mask_from(start_bit);
    let b = mask_through(end_bit);
    a & b
}

/// A container's values as one bit each in 1024 words.
#[derive(Debug)]
pub struct BitmapStore {
    words: Vec<u64>,
    cardinality: u32,
}

impl BitmapStore {
    pub closed spec fn words_seq(&self) -> Seq<u64> {
        self.words@
    }

    pub closed spec fn cardinality_field(&self) -> u32 {
        self.cardinality
    }

    pub open spec fn wf(&self) -> bool {
        &&& self.words_seq().len() == BITMAP_WORDS
        &&& self.cardinality_field() == card(self.words_seq())
    }

    pub open spec fn view(&self) -> Set<int> {
        bitmap_set(self.words_seq())
    }

    pub proof fn lemma_view(&self)
        requires
            self.wf(),
        ensures
            self@.finite(),
            self@.len() == self.cardinality_field(),
            self@.len() <= 0x10000,
            forall|x: int| self@.contains(x) ==> 0 <= x < 0x10000,
    {
        lemma_bitmap_len(self.words_seq());
    }

    pub fn new() -> (r: Self)
        ensures
            r.wf(),
            r@ == Set::<int>::empty(),
    {
        let mut words: Vec<u64> = Vec::new();
        let mut i: usize = 0;
        while i < BITMAP_WORDS
            invariant
                i <= BITMAP_WORDS,
                words@.len() == i,
                forall|k: int| 0 <= k < i ==> words@[k] == 0,
                card(words@) == 0,
            decreases BITMAP_WORDS - i,
        {
            let ghost prev = words@;
            words.push(0);
            proof {
                assert(words@.drop_last() =~= prev);
                assert(pop(0u64, 64) == 0) by {
                    assert forall|k: int| 0 <= k <= 64 implies pop(0u64, k) == 0 by {
                        lemma_pop_zero(k);
                    }
                }
            }
            i += 1;
        }
        let r = BitmapStore { words, cardinality: 0 };
        assert(r@ =~= Set::<int>::empty());
        r
    }

    pub fn len(&self) -> (r: u32)
        requires
            self.wf(),
        ensures
            r == self@.len(),
    {
        proof { self.lemma_view(); }
        self.cardinality
    }

    pub fn is_empty(&self) -> (r: bool)
        requires
            self.wf(),
        ensures
            r == (self@.len() == 0),
    {
        proof { self.lemma_view(); }
        self.cardinality == 0
    }

    pub fn contains(&self, value: u16) -> (r: bool)
        requires
            self.wf(),
        ensures
            r == self@.contains(value as int),
    {
        let (word_index, mask) = word_and_mask(value);
        let r = self.words[word_index] & mask != 0;
        proof {
            let w = self.words@[word_index as int];
            let j = (value as int % 64) as u64;
            lemma_mask_test(w, j);
        }
        r
    }

    pub open spec fn shaped(&self) -> bool {
        self.words_seq().len() == BITMAP_WORDS
    }

    pub fn insert(&mut self, value: u16) -> (r: bool)
        requires
            old(self).wf(),
        ensures
            final(self).wf(),
            final(self)@ == old(self)@.insert(value as int),
            r == !old(self)@.contains(value as int),
    {
        proof { self.lemma_view(); }
        let ghost old_words = self.words@;
        let (word_index, mask) = word_and_mask(value);
        let w = self.words[word_index];
        proof { lemma_mask_test(w, (value as int % 64) as u64); }
        if w & mask != 0 {
            proof {
                assert(self@.contains(value as int));
                assert(self@ =~= self@.insert(value as int));
            }
            return false;
        }
        self.words.set(word_index, w | mask);
        proof {
            let v = value as int;
            assert forall|wi: int| 0 <= wi < old_words.len() implies
                word_inserted(#[trigger] old_words[wi], self.words@[wi], 64 * wi, v, v) by {
                if wi != word_index {
                    lemma_word_same(old_words[wi], 64 * wi, v, v);
                }
            }
            lemma_inserted_set(old_words, self.words@, v, v);
            assert(closed_range(v, v) =~= Set::empty().insert(v));
            lemma_bitmap_len(self.words@);
            assert(bitmap_set(self.words@) =~= bitmap_set(old_words).insert(v));
            assert(bitmap_set(self.words@).len() == bitmap_set(old_words).len() + 1);
        }
        self.cardinality = self.cardinality + 1;
        true
    }

    pub fn remove(&mut self, value: u16) -> (r: bool)
        requires
            old(self).wf(),
        ensures
            final(self).wf(),
            final(self)@ == old(self)@.remove(value as int),
            r == old(self)@.contains(value as int),
    {
        proof { self.lemma_view(); }
        let ghost old_words = self.words@;
        let (word_index, mask) = word_and_mask(value);
        let w = self.words[word_index];
        proof { lemma_mask_test(w, (value as int % 64) as u64); }
        if w & mask == 0 {
            proof {
                assert(!self@.contains(value as int));
                assert(self@ =~= self@.remove(value as int));
            }
            return false;
        }
        self.words.set(word_index, w & !mask);
        proof {
            let v = value as int;
            assert forall|wi: int| 0 <= wi < old_words.len() implies
                word_removed(#[trigger] old_words[wi], self.words@[wi], 64 * wi, v, v) by {
                if wi != word_index {
                    lemma_word_same(old_words[wi], 64 * wi, v, v);
                }
            }
            lemma_removed_set(old_words, self.words@, v, v);
            assert(bitmap_set(old_words).difference(closed_range(v, v)) =~= bitmap_set(old_words).remove(v));
            lemma_bitmap_len(self.words@);
            assert(bitmap_set(self.words@).len() + 1 == bitmap_set(old_words).len());
        }
        self.cardinality = self.cardinality - 1;
        true
    }

    /// Sets every bit from `start` through `end`; returns how many were clear.
    pub fn insert_range(&mut self, start: u16, end: u16) -> (r: u32)
        requires
            old(self).wf(),
            start <= end,
        ensures
            final(self).wf(),
            final(self)@ == old(self)@.union(closed_range(start as int, end as int)),
            r == final(self)@.len() - old(self)@.len(),
    {
        proof { self.lemma_view(); }
        let ghost old_words = self.words@;
        let ghost s = start as int;
        let ghost e = end as int;
        let first = (start as usize) / 64;
        let last = (end as usize) / 64;
        let start_bit = (start as u32) % 64;
        let end_bit = (end as u32) % 64;
        let mut added: u32 = 0;
        if first == last {
            let old = self.words[first];
            let new = old | mask_between(start_bit, end_bit);
            proof { lemma_pop_mono(old, new, 64); }
            added = count_ones(new) - count_ones(old);
            self.words.set(first, new);
            proof {
                lemma_card_update(old_words, first as int, new);
                assert forall|wi: int| 0 <= wi < old_words.len() implies
                    word_inserted(#[trigger] old_words[wi], self.words@[wi], 64 * wi, s, e) by {
                    if wi != first {
                        lemma_word_same(old_words[wi], 64 * wi, s, e);
                    }
                }
            }
        } else {
            let old = self.words[first];
            let new = old | mask_from(start_bit);
            proof { lemma_pop_mono(old, new, 64); }
            added = count_ones(new) - count_ones(old);
            self.words.set(first, new);
            proof {
                lemma_card_update(old_words, first as int, new);
                lemma_bitmap_len(self.words@);
            }
            let mut k: usize = first + 1;
            while k < last
                invariant
                    first < k <= last < BITMAP_WORDS,
                    first == s / 64,
                    last == e / 64,
                    0 <= s <= e < 0x10000,
                    self.words@.len() == BITMAP_WORDS,
                    old_words.len() == BITMAP_WORDS,
                    word_inserted(old_words[first as int], self.words@[first as int], 64 * first, s, e),
                    forall|i: int| first < i < k ==> self.words@[i] == 0xffff_ffff_ffff_ffffu64,
                    forall|i: int| 0 <= i < BITMAP_WORDS && (i < first || i >= k) ==> self.words@[i] == old_words[i],
                    card(self.words@) == card(old_words) + added,
                    self.cardinality == card(old_words),
                decreases last - k,
            {
                let w = self.words[k];
                proof {
                    lemma_pop_bound(w, 64);
                    lemma_card_update(self.words@, k as int, 0xffff_ffff_ffff_ffffu64);
                    lemma_pop_full(64);
                    lemma_bitmap_len(self.words@.update(k as int, 0xffff_ffff_ffff_ffffu64));
                    lemma_bitmap_len(old_words);
                }
                added = added + (64 - count_ones(w));
                self.words.set(k, 0xffff_ffff_ffff_ffffu64);
                k += 1;
            }
            let old = self.words[last];
            let new = old | mask_through(end_bit);
            proof { lemma_pop_mono(old, new, 64); }
            let ghost before = self.words@;
            proof {
                lemma_card_update(before, last as int, new);
                lemma_bitmap_len(before.update(last as int, new));
                lemma_bitmap_len(old_words);
            }
            added = added + (count_ones(new) - count_ones(old));
            self.words.set(last, new);
            proof {
                assert forall|wi: int| 0 <= wi < old_words.len() implies
                    word_inserted(#[trigger] old_words[wi], self.words@[wi], 64 * wi, s, e) by {
                    if wi < first || wi > last {
                        lemma_word_same(old_words[wi], 64 * wi, s, e);
                    } else if first < wi < last {
                        lemma_word_full(old_words[wi], 64 * wi, s, e);
                    }
                }
            }
        }
        proof {
            lemma_inserted_set(old_words, self.words@, s, e);
            lemma_bitmap_len(self.words@);
            lemma_bitmap_len(old_words);
            assert(card(self.words@) == card(old_words) + added);
            assert(self.words@.len() == BITMAP_WORDS);
            assert(card(self.words@) <= 65536);
            assert(self.cardinality == card(old_words));
        }
        self.cardinality = self.cardinality + added;
        added
    }

    /// Clears every bit from `start` through `end`; returns how many were set.
    pub fn remove_range(&mut self, start: u16, end: u16) -> (r: u32)
        requires
            old(self).wf(),
            start <= end,
        ensures
            final(self).wf(),
            final(self)@ == old(self)@.difference(closed_range(start as int, end as int)),
            r == old(self)@.len() - final(self)@.len(),
    {
        proof { self.lemma_view(); }
        let ghost old_words = self.words@;
        let ghost s = start as int;
        let ghost e = end as int;
        let first = (start as usize) / 64;
        let last = (end as usize) / 64;
        let start_bit = (start as u32) % 64;
        let end_bit = (end as u32) % 64;
        let mut removed: u32 = 0;
        if first == last {
            let old = self.words[first];
            let new = old & !mask_between(start_bit, end_bit);
            proof { lemma_pop_mono(new, old, 64); }
            removed = count_ones(old) - count_ones(new);
            self.words.set(first, new);
            proof {
                lemma_card_update(old_words, first as int, new);
                assert forall|wi: int| 0 <= wi < old_words.len() implies
                    word_removed(#[trigger] old_words[wi], self.words@[wi], 64 * wi, s, e) by {
                    if wi != first {
                        lemma_word_same(old_words[wi], 64 * wi, s, e);
                    }
                }
            }
        } else {
            let old = self.words[first];
            let new = old & !mask_from(start_bit);
            proof { lemma_pop_mono(new, old, 64); }
            removed = count_ones(old) - count_ones(new);
            self.words.set(first, new);
            proof {
                lemma_card_update(old_words, first as int, new);
            }
            let mut k: usize = first + 1;
            while k < last
                invariant
                    first < k <= last < BITMAP_WORDS,
                    first == s / 64,
                    last == e / 64,
                    0 <= s <= e < 0x10000,
                    self.words@.len() == BITMAP_WORDS,
                    old_words.len() == BITMAP_WORDS,
                    word_removed(old_words[first as int], self.words@[first as int], 64 * first, s, e),
                    forall|i: int| first < i < k ==> self.words@[i] == 0u64,
                    forall|i: int| 0 <= i < BITMAP_WORDS && (i < first || i >= k) ==> self.words@[i] == old_words[i],
                    card(self.words@) + removed == card(old_words),
                    self.cardinality == card(old_words),
                decreases last - k,
            {
                let w = self.words[k];
                proof {
                    lemma_card_update(self.words@, k as int, 0u64);
                    lemma_pop_zero(64);
                    lemma_bitmap_len(old_words);
                }
                removed = removed + count_ones(w);
                self.words.set(k, 0u64);
                k += 1;
            }
            let old = self.words[last];
            let new = old & !mask_through(end_bit);
            proof { lemma_pop_mono(new, old, 64); }
            let ghost before = self.words@;
            proof {
                lemma_card_update(before, last as int, new);
                lemma_bitmap_len(old_words);
            }
            removed = removed + (count_ones(old) - count_ones(new));
            self.words.set(last, new);
            proof {
                assert forall|wi: int| 0 <= wi < old_words.len() implies
                    word_removed(#[trigger] old_words[wi], self.words@[wi], 64 * wi, s, e) by {
                    if wi < first || wi > last {
                        lemma_word_same(old_words[wi], 64 * wi, s, e);
                    } else if first < wi < last {
                        lemma_word_full(old_words[wi], 64 * wi, s, e);
                    }
                }
            }
        }
        proof {
            lemma_removed_set(old_words, self.words@, s, e);
            lemma_bitmap_len(self.words@);
            lemma_bitmap_len(old_words);
            assert(card(self.words@) + removed == card(old_words));
        }
        self.cardinality = self.cardinality - removed;
        removed
    }
    pub fn words(&self) -> (r: &Vec<u64>)
        ensures
            r@ == self.words_seq(),
    {
        &self.words
    }

    /// Builds a store from its 1024 words, counting their set bits.
    pub fn from_words(words: Vec<u64>) -> (r: Self)
        requires
            words@.len() == BITMAP_WORDS,
        ensures
            r.wf(),
            r.words_seq() == words@,
    {
        let mut cardinality: u32 = 0;
        let mut i: usize = 0;
        while i < words.len()
            invariant
                i <= words@.len() == BITMAP_WORDS,
                cardinality == card(words@.subrange(0, i as int)),
            decreases words@.len() - i,
        {
            proof {
                let p = words@.subrange(0, i as int + 1);
                assert(p.drop_last() =~= words@.subrange(0, i as int));
                lemma_bitmap_len(p);
            }
            cardinality = cardinality + count_ones(words[i]);
            i += 1;
        }
        proof { assert(words@.subrange(0, i as int) =~= words@); }
        BitmapStore { words, cardinality }
    }

    /// Sets the bit of every value of an array store.
    pub fn from_array(array: ArrayStore) -> (r: Self)
        requires
            array.wf(),
        ensures
            r.wf(),
            r@ == array@,
    {
        proof { array.lemma_view(); }
        let card_a = array.len();
        let values = array.into_values();
        let mut bitmap = Self::new();
        let mut i: usize = 0;
        while i < values.len()
            invariant
                i <= values@.len(),
                bitmap.words_seq().len() == BITMAP_WORDS,
                bitmap@ == values_set(values@.subrange(0, i as int)),
            decreases values@.len() - i,
        {
            let v = values[i];
            let ghost old_words = bitmap.words@;
            let (word_index, mask) = word_and_mask(v);
            let w = bitmap.words[word_index];
            bitmap.words.set(word_index, w | mask);
            proof {
                let x = v as int;
                assert forall|wi: int| 0 <= wi < old_words.len() implies
                    word_inserted(#[trigger] old_words[wi], bitmap.words@[wi], 64 * wi, x, x) by {
                    if wi != word_index {
                        lemma_word_same(old_words[wi], 64 * wi, x, x);
                    }
                }
                lemma_inserted_set(old_words, bitmap.words@, x, x);
                let p = values@.subrange(0, i as int + 1);
                assert forall|y: int| values_set(p).contains(y) <==>
                    #[trigger] values_set(values@.subrange(0, i as int)).union(closed_range(x, x)).contains(y) by {
                    if values_set(p).contains(y) {
                        let k = choose|k: int| 0 <= k < p.len() && p[k] as int == y;
                        if k < i {
                            assert(values@.subrange(0, i as int)[k] as int == y);
                        }
                    }
                    if values_set(values@.subrange(0, i as int)).contains(y) {
                        let k = choose|k: int| 0 <= k < i && values@.subrange(0, i as int)[k] as int == y;
                        assert(p[k] as int == y);
                    }
                    if y == x {
                        assert(p[i as int] as int == y);
                    }
                }
                assert(values_set(p) =~= values_set(values@.subrange(0, i as int)).union(closed_range(x, x)));
            }
            i += 1;
        }
        proof {
            assert(values@.subrange(0, i as int) =~= values@);
            lemma_bitmap_len(bitmap.words@);
        }
        bitmap.cardinality = card_a;
        bitmap
    }

    /// The values in increasing order.
    pub fn iter(&self) -> (r: Vec<u16>)
        requires
            self.wf(),
        ensures
            increasing(r@),
            values_set(r@) == self@,
    {
        proof { self.lemma_view(); }
        let mut out: Vec<u16> = Vec::new();
        let mut x: u32 = 0;
        while x < 0x10000
            invariant
                x <= 0x10000,
                self.wf(),
                increasing(out@),
                forall|k: int| 0 <= k < out@.len() ==> out@[k] < x,
                values_set(out@) == self@.intersect(closed_range(0, x - 1)),
            decreases 0x10000 - x,
        {
            let ghost prev = out@;
            if self.contains(x as u16) {
                out.push(x as u16);
            }
            proof {
                assert forall|y: int| values_set(out@).contains(y) <==>
                    #[trigger] self@.intersect(closed_range(0, x as int)).contains(y) by {
                    if values_set(out@).contains(y) {
                        let k = choose|k: int| 0 <= k < out@.len() && out@[k] as int == y;
                        if k < prev.len() {
                            assert(values_set(prev).contains(y));
                        }
                    }
                    if self@.intersect(closed_range(0, x as int)).contains(y) && y < x {
                        assert(values_set(prev).contains(y));
                        let k = choose|k: int| 0 <= k < prev.len() && prev[k] as int == y;
                        assert(out@[k] as int == y);
                    }
                    if self@.intersect(closed_range(0, x as int)).contains(y) && y == x {
                        assert(out@[out@.len() - 1] as int == y);
                    }
                }
                assert(values_set(out@) =~= self@.intersect(closed_range(0, x as int)));
            }
            x += 1;
        }
        proof {
            assert(self@.intersect(closed_range(0, 0xffff)) =~= self@);
        }
        out
    }

    /// Lists the values as an array store.
    pub fn into_array(self) -> (r: ArrayStore)
        requires
            self.wf(),
        ensures
            r.wf(),
            r@ == self@,
    {
        ArrayStore::from_sorted_values(self.iter())
    }

    /// Checks that the count matches the set bits.
    pub fn validate(&self) -> (r: bool)
        requires
            self.shaped(),
        ensures
            r == (self.cardinality_field() == card(self.words_seq())),
    {
        let mut calc: u32 = 0;
        let mut i: usize = 0;
        while i < self.words.len()
            invariant
                i <= self.words@.len() == BITMAP_WORDS,
                calc == card(self.words@.subrange(0, i as int)),
            decreases self.words@.len() - i,
        {
            proof {
                let p = self.words@.subrange(0, i as int + 1);
                assert(p.drop_last() =~= self.words@.subrange(0, i as int));
                lemma_bitmap_len(p);
            }
            calc = calc + count_ones(self.words[i]);
            i += 1;
        }
        proof { assert(self.words@.subrange(0, i as int) =~= self.words@); }
        calc == self.cardinality
    }
}

impl Clone for BitmapStore {
    fn clone(&self) -> (r: Self)
        ensures
            r.words_seq() == self.words_seq(),
            r.cardinality_field() == self.cardinality_field(),
    {
        BitmapStore { words: self.words.clone(), cardinality: self.cardinality }
    }
}

impl Default for BitmapStore {
    fn default() -> (r: Self)
        ensures
            r.wf(),
            r@ == Set::<int>::empty(),
    {
        Self::new()
    }
}

/// Testing a word against a one-bit mask reads that bit.
pub proof fn lemma_mask_test(w: u64, j: u64)
    requires
        j < 64,
    ensures
        (w & (1u64 << j) != 0) == bit(w, j),
        (w & (1u64 << j) == 0) == !bit(w, j),
{
    assert((w & (1u64 << j) != 0) <==> ((w >> j) & 1u64 == 1u64)) by (bit_vector)
        requires
            j < 64,
    ;
}

proof fn lemma_pop_full(k: int)
    requires
        k <= 64,
    ensures
        pop(0xffff_ffff_ffff_ffffu64, k) == if k < 0 { 0 } else { k },
    decreases k,
{
    if k > 0 {
        lemma_pop_full(k - 1);
    }
}

proof fn lemma_word_same(o: u64, base: int, start: int, end: int)
    requires
        base + 63 < start || base > end,
    ensures
        word_inserted(o, o, base, start, end),
        word_removed(o, o, base, start, end),
{
}

proof fn lemma_word_full(o: u64, base: int, start: int, end: int)
    requires
        start <= base,
        base + 63 <= end,
    ensures
        word_inserted(o, 0xffff_ffff_ffff_ffffu64, base, start, end),
        word_removed(o, 0u64, base, start, end),
{
}

proof fn lemma_pop_zero(k: int)
    requires
        k <= 64,
    ensures
        pop(0u64, k) == 0,
    decreases k,
{
    if k > 0 {
        lemma_pop_zero(k - 1);
    }
}

} // verus!
