use vstd::prelude::*;
use crate::word::{Word, word_max, lemma_pop_word, lemma_pop_complement};
use crate::bits::{pop, lemma_pop_bound};
use super::marker::Marker;
use super::{Decoder, Encoder, check_words, lemma_check_words};
use super::format::{canonical_encoding, decode_words, run_bit, run_len, lit_len, fill, lemma_fields,
    lemma_canonical_encoding_unique};

verus! {

/// Words combined pairwise, bit by bit, by `f`.
pub open spec fn combined<W: Word>(a: Seq<W>, b: Seq<W>, f: spec_fn(u64, u64) -> u64) -> Seq<W> {
    Seq::new(a.len(), |i: int| W::from_val(f(a[i].val(), b[i].val())))
}

/// Every bit of every word flipped.
pub open spec fn complemented<W: Word>(a: Seq<W>) -> Seq<W> {
    Seq::new(a.len(), |i: int| W::from_val(a[i].val() ^ word_max(W::BITS)))
}

/// The set bits of a sequence of words.
pub open spec fn ones<W: Word>(s: Seq<W>) -> nat
    decreases s.len(),
{
    if s.len() == 0 {
        0
    } else {
        ones(s.drop_last()) + pop(s.last().val(), 64)
    }
}

/// A bitmap of a whole number of words, held in compressed form.
pub struct EwahBitmap<W: Word> {
    encoded: Vec<W>,
    bit_len: usize,
}

/// The two bitmaps of a binary operation differ in length.
#[derive(Debug, Clone, Copy, PartialEq, Eq)]
pub struct LengthMismatch {
    pub left_bits: usize,
    pub right_bits: usize,
}

impl<W: Word> View for EwahBitmap<W> {
    type V = Seq<W>;

    /// The words the bitmap holds.
    closed spec fn view(&self) -> Seq<W> {
        decode_words(self.encoded@)->0
    }
}

impl<W: Word> EwahBitmap<W> {
    /// Length in bits.
    pub closed spec fn len_bits(&self) -> usize {
        self.bit_len
    }

    /// The stored encoding.
    pub closed spec fn encoding(&self) -> Seq<W> {
        self.encoded@
    }

    /// The encoding is the canonical one of the words, and the length counts them.
    pub closed spec fn wf(&self) -> bool {
        &&& canonical_encoding(self.encoded@)
        &&& decode_words(self.encoded@) is Some
        &&& self.bit_len == self@.len() * W::BITS
    }

    pub fn new() -> (r: Self)
        ensures
            r.wf(),
            r@ == Seq::<W>::empty(),
    {
        let r = Self { encoded: Vec::new(), bit_len: 0 };
        proof {
            super::format::lemma_empty_encoding::<W>();
            assert(r.encoded@ =~= Seq::<W>::empty());
            assert(canonical_encoding(r.encoded@));
            assert(r@.len() == 0);
            assert(r@.len() * W::BITS == 0);
        }
        r
    }

    /// The bitmap of the given words.
    pub fn from_words(words: &[W]) -> (r: Self)
        requires
            words@.len() * W::BITS <= usize::MAX,
        ensures
            r.wf(),
            r@ == words@,
    {
        proof { W::lemma_word(W::ZERO); }
        let bits = W::BITS as usize;
        let bit_len = words.len() * bits;
        Self { encoded: Encoder::new(words).encode(), bit_len }
    }

    /// The words, decompressed.
    pub fn to_words(&self) -> (r: Vec<W>)
        requires
            self.wf(),
        ensures
            r@ == self@,
    {
        proof {
            W::lemma_word(W::ZERO);
            let n = self@.len();
            let b = W::BITS as int;
            assert((n * b) / b == n) by (nonlinear_arith) requires b > 0;
            lemma_check_words(self.encoded@, n as int);
        }
        let word_count = self.bit_len / (W::BITS as usize);
        let mut output = vec![W::ZERO; word_count];
        let result = Decoder::new(self.encoded.as_slice()).decode_into(output.as_mut_slice());
        result.expect("internally generated EWAH encoding is valid");
        output
    }

    /// The compressed words, in the canonical encoding of the bitmap's words.
    pub fn encoded_words(&self) -> (r: &[W])
        requires
            self.wf(),
        ensures
            r@ == self.encoding(),
            canonical_encoding(r@),
            decode_words(r@) == Some(self@),
    {
        self.encoded.as_slice()
    }

    pub fn bit_len(&self) -> (r: usize)
        requires
            self.wf(),
        ensures
            r == self.len_bits(),
            r == self@.len() * W::BITS,
    {
        self.bit_len
    }

    pub fn is_empty(&self) -> (r: bool)
        requires
            self.wf(),
        ensures
            r == (self@.len() == 0),
    {
        proof {
            W::lemma_word(W::ZERO);
            let n = self@.len();
            let b = W::BITS as int;
            assert(n * b == 0 <==> n == 0) by (nonlinear_arith) requires b > 0;
        }
        self.bit_len == 0
    }

    /// Empties the bitmap.
    pub fn clear(&mut self)
        ensures
            final(self).wf(),
            final(self)@ == Seq::<W>::empty(),
    {
        self.encoded.clear();
        self.bit_len = 0;
        proof {
            super::format::lemma_empty_encoding::<W>();
            assert(self.encoded@ =~= Seq::<W>::empty());
            assert(canonical_encoding(self.encoded@));
            assert(self@.len() == 0);
            assert(self@.len() * W::BITS == 0);
        }
    }

    /// Number of set bits.
    pub fn count_ones(&self) -> (r: u64)
        requires
            self.wf(),
        ensures
            r == ones(self@),
    {
        let ghost enc = self.encoded@;
        let ghost full = self@;
        proof {
            lemma_ones_bound(full);
            assert(enc.subrange(0, enc.len() as int) =~= enc);
        }
        let mut total: u64 = 0;
        let mut index: usize = 0;
        while index < self.encoded.len()
            invariant
                enc == self.encoded@,
                full == decode_words(enc)->0,
                ones(full) <= usize::MAX,
                index <= enc.len(),
                decode_words(enc.subrange(index as int, enc.len() as int)) is Some,
                total + ones(decode_words(enc.subrange(index as int, enc.len() as int))->0) == ones(full),
            decreases enc.len() - index,
        {
            let ghost tail = enc.subrange(index as int, enc.len() as int);
            let word = self.encoded[index];
            proof {
                assert(tail[0] == word);
                W::lemma_word(word);
                lemma_fields(word.val(), W::BITS);
            }
            let marker = Marker::unpack(word);
            index = index + 1;
            let literal_count = marker.literal_words as usize;
            let end = index + literal_count;
            let ghost lits = enc.subrange(index as int, end as int);
            let ghost rest = decode_words(enc.subrange(end as int, enc.len() as int))->0;
            let ghost run = Seq::new(marker.uniform_words as nat, |i: int| fill::<W>(marker.uniform_bit));
            proof {
                let l = literal_count as int;
                assert(tail.subrange(1 + l, tail.len() as int) =~= enc.subrange(end as int, enc.len() as int));
                assert(tail.subrange(1, 1 + l) =~= lits);
                assert(decode_words(tail)->0 == run + lits + rest);
                lemma_ones_append(run + lits, rest);
                lemma_ones_append(run, lits);
                lemma_ones_fill::<W>(marker.uniform_words as nat, marker.uniform_bit);
            }
            if marker.uniform_bit {
                proof { W::lemma_word(W::ZERO); }
                total = total + marker.uniform_words * (W::BITS as u64);
            }
            let mut j = index;
            while j < end
                invariant
                    enc == self.encoded@,
                    index <= j <= end,
                    end <= enc.len(),
                    ones(full) <= usize::MAX,
                    total + ones(enc.subrange(j as int, end as int)) + ones(rest) == ones(full),
                decreases end - j,
            {
                proof {
                    let s = enc.subrange(j as int, end as int);
                    assert(s =~= seq![enc[j as int]] + enc.subrange(j + 1, end as int));
                    lemma_ones_append(seq![enc[j as int]], enc.subrange(j + 1, end as int));
                    assert(seq![enc[j as int]].drop_last() =~= Seq::<W>::empty());
                    assert(ones(seq![enc[j as int]]) == ones(Seq::<W>::empty()) + pop(enc[j as int].val(), 64));
                    assert(ones(Seq::<W>::empty()) == 0);
                }
                let c = self.encoded[j].count_ones();
                total = total + c as u64;
                j = j + 1;
            }
            proof {
                assert(enc.subrange(end as int, end as int) =~= Seq::<W>::empty());
            }
            index = end;
        }
        proof {
            assert(enc.subrange(index as int, enc.len() as int) =~= Seq::<W>::empty());
        }
        total
    }

    /// Applies `operation` to the words of the two bitmaps pair by pair.
    fn combine<F>(&self, other: &Self, operation: F) -> (r: Result<Self, LengthMismatch>)
        where
            F: Fn(W, W) -> W,
        requires
            self.wf(),
            other.wf(),
            forall|a: W, b: W| operation.requires((a, b)),
        ensures
            self.bit_len != other.bit_len ==> (r matches Err(e)
                && e.left_bits == self.bit_len && e.right_bits == other.bit_len),
            self.bit_len == other.bit_len ==> (r matches Ok(c) && c.wf() && c@.len() == self@.len()
                && forall|i: int| 0 <= i < c@.len() ==> operation.ensures((self@[i], other@[i]), #[trigger] c@[i])),
    {
        if self.bit_len != other.bit_len {
            return Err(LengthMismatch { left_bits: self.bit_len, right_bits: other.bit_len });
        }
        proof {
            W::lemma_word(W::ZERO);
            let b = W::BITS as int;
            let (n, m) = (self@.len() as int, other@.len() as int);
            assert(n * b == m * b ==> n == m) by (nonlinear_arith) requires b > 0;
        }
        let mut left = self.to_words();
        let right = other.to_words();
        let n = left.len();
        let mut i: usize = 0;
        while i < n
            invariant
                n == left@.len(),
                n == right@.len(),
                n == self@.len(),
                right@ == other@,
                i <= n,
                forall|a: W, b: W| operation.requires((a, b)),
                forall|j: int| i <= j < n ==> left@[j] == self@[j],
                forall|j: int| 0 <= j < i ==> operation.ensures((self@[j], other@[j]), #[trigger] left@[j]),
            decreases n - i,
        {
            let c = operation(left[i], right[i]);
            left.set(i, c);
            i = i + 1;
        }
        Ok(Self::from_words(left.as_slice()))
    }

    pub fn and(&self, other: &Self) -> (r: Result<Self, LengthMismatch>)
        requires
            self.wf(),
            other.wf(),
        ensures
            self.len_bits() != other.len_bits() ==> (r matches Err(e)
                && e.left_bits == self.len_bits() && e.right_bits == other.len_bits()),
            self.len_bits() == other.len_bits() ==> (r matches Ok(c) && c.wf()
                && c@ == combined(self@, other@, |x: u64, y: u64| x & y)),
    {
        let r = self.combine(other, |a: W, b: W| -> (c: W)
            ensures c.val() == a.val() & b.val(),
            { a.bit_and(b) });
        proof { lemma_combined(self@, other@, r, |x: u64, y: u64| x & y); }
        r
    }

    pub fn or(&self, other: &Self) -> (r: Result<Self, LengthMismatch>)
        requires
            self.wf(),
            other.wf(),
        ensures
            self.len_bits() != other.len_bits() ==> (r matches Err(e)
                && e.left_bits == self.len_bits() && e.right_bits == other.len_bits()),
            self.len_bits() == other.len_bits() ==> (r matches Ok(c) && c.wf()
                && c@ == combined(self@, other@, |x: u64, y: u64| x | y)),
    {
        let r = self.combine(other, |a: W, b: W| -> (c: W)
            ensures c.val() == a.val() | b.val(),
            { a.bit_or(b) });
        proof { lemma_combined(self@, other@, r, |x: u64, y: u64| x | y); }
        r
    }

    pub fn xor(&self, other: &Self) -> (r: Result<Self, LengthMismatch>)
        requires
            self.wf(),
            other.wf(),
        ensures
            self.len_bits() != other.len_bits() ==> (r matches Err(e)
                && e.left_bits == self.len_bits() && e.right_bits == other.len_bits()),
            self.len_bits() == other.len_bits() ==> (r matches Ok(c) && c.wf()
                && c@ == combined(self@, other@, |x: u64, y: u64| x ^ y)),
    {
        let r = self.combine(other, |a: W, b: W| -> (c: W)
            ensures c.val() == a.val() ^ b.val(),
            { a.bit_xor(b) });
        proof { lemma_combined(self@, other@, r, |x: u64, y: u64| x ^ y); }
        r
    }

    pub fn and_not(&self, other: &Self) -> (r: Result<Self, LengthMismatch>)
        requires
            self.wf(),
            other.wf(),
        ensures
            self.len_bits() != other.len_bits() ==> (r matches Err(e)
                && e.left_bits == self.len_bits() && e.right_bits == other.len_bits()),
            self.len_bits() == other.len_bits() ==> (r matches Ok(c) && c.wf()
                && c@ == combined(self@, other@, |x: u64, y: u64| x & (y ^ word_max(W::BITS)))),
    {
        let r = self.combine(other, |a: W, b: W| -> (c: W)
            ensures c.val() == a.val() & (b.val() ^ word_max(W::BITS)),
            { a.bit_and(b.bit_not()) });
        proof { lemma_combined(self@, other@, r, |x: u64, y: u64| x & (y ^ word_max(W::BITS))); }
        r
    }

    /// Every bit flipped.
    pub fn not(&self) -> (r: Self)
        requires
            self.wf(),
        ensures
            r.wf(),
            r@ == complemented(self@),
    {
        let mut words = self.to_words();
        let n = words.len();
        let mut i: usize = 0;
        while i < n
            invariant
                n == words@.len(),
                n == self@.len(),
                i <= n,
                forall|j: int| i <= j < n ==> words@[j] == self@[j],
                forall|j: int| 0 <= j < i ==> (#[trigger] words@[j]).val() == self@[j].val() ^ word_max(W::BITS),
            decreases n - i,
        {
            let w = words[i].bit_not();
            words.set(i, w);
            i = i + 1;
        }
        proof {
            assert forall|j: int| 0 <= j < n implies words@[j] == complemented(self@)[j] by {
                W::lemma_word(words@[j]);
            }
            assert(words@ =~= complemented(self@));
        }
        Self::from_words(words.as_slice())
    }

    pub fn nand(&self, other: &Self) -> (r: Result<Self, LengthMismatch>)
        requires
            self.wf(),
            other.wf(),
        ensures
            self.len_bits() != other.len_bits() ==> (r matches Err(e)
                && e.left_bits == self.len_bits() && e.right_bits == other.len_bits()),
            self.len_bits() == other.len_bits() ==> (r matches Ok(c) && c.wf()
                && c@ == combined(self@, other@, |x: u64, y: u64| (x & y) ^ word_max(W::BITS))),
    {
        let r = self.combine(other, |a: W, b: W| -> (c: W)
            ensures c.val() == (a.val() & b.val()) ^ word_max(W::BITS),
            { a.bit_and(b).bit_not() });
        proof { lemma_combined(self@, other@, r, |x: u64, y: u64| (x & y) ^ word_max(W::BITS)); }
        r
    }

    pub fn nor(&self, other: &Self) -> (r: Result<Self, LengthMismatch>)
        requires
            self.wf(),
            other.wf(),
        ensures
            self.len_bits() != other.len_bits() ==> (r matches Err(e)
                && e.left_bits == self.len_bits() && e.right_bits == other.len_bits()),
            self.len_bits() == other.len_bits() ==> (r matches Ok(c) && c.wf()
                && c@ == combined(self@, other@, |x: u64, y: u64| (x | y) ^ word_max(W::BITS))),
    {
        let r = self.combine(other, |a: W, b: W| -> (c: W)
            ensures c.val() == (a.val() | b.val()) ^ word_max(W::BITS),
            { a.bit_or(b).bit_not() });
        proof { lemma_combined(self@, other@, r, |x: u64, y: u64| (x | y) ^ word_max(W::BITS)); }
        r
    }

    pub fn xnor(&self, other: &Self) -> (r: Result<Self, LengthMismatch>)
        requires
            self.wf(),
            other.wf(),
        ensures
            self.len_bits() != other.len_bits() ==> (r matches Err(e)
                && e.left_bits == self.len_bits() && e.right_bits == other.len_bits()),
            self.len_bits() == other.len_bits() ==> (r matches Ok(c) && c.wf()
                && c@ == combined(self@, other@, |x: u64, y: u64| (x ^ y) ^ word_max(W::BITS))),
    {
        let r = self.combine(other, |a: W, b: W| -> (c: W)
            ensures c.val() == (a.val() ^ b.val()) ^ word_max(W::BITS),
            { a.bit_xor(b).bit_not() });
        proof { lemma_combined(self@, other@, r, |x: u64, y: u64| (x ^ y) ^ word_max(W::BITS)); }
        r
    }
}

impl<W: Word> Default for EwahBitmap<W> {
    fn default() -> (r: Self)
        ensures
            r.wf(),
            r@ == Seq::<W>::empty(),
    {
        Self::new()
    }
}

/// Words that match `f` bit for bit are the combined words.
proof fn lemma_combined<W: Word>(a: Seq<W>, b: Seq<W>, r: Result<EwahBitmap<W>, LengthMismatch>, f: spec_fn(u64, u64) -> u64)
    requires
        r matches Ok(c) ==> c@.len() == a.len() && forall|i: int| 0 <= i < c@.len() ==> (#[trigger] c@[i]).val() == f(a[i].val(), b[i].val()),
    ensures
        r matches Ok(c) ==> c@ == combined(a, b, f),
{
    if let Ok(c) = r {
        assert forall|i: int| 0 <= i < c@.len() implies c@[i] == combined(a, b, f)[i] by {
            W::lemma_word(c@[i]);
        }
        assert(c@ =~= combined(a, b, f));
    }
}

pub proof fn lemma_ones_append<W: Word>(a: Seq<W>, b: Seq<W>)
    ensures
        ones(a + b) == ones(a) + ones(b),
    decreases b.len(),
{
    if b.len() == 0 {
        assert(a + b =~= a);
    } else {
        lemma_ones_append(a, b.drop_last());
        assert((a + b).drop_last() =~= a + b.drop_last());
    }
}

/// A run of `n` uniform words has `n` times the width set bits when of ones, none else.
pub proof fn lemma_ones_fill<W: Word>(n: nat, bit: bool)
    ensures
        ones(Seq::new(n, |i: int| fill::<W>(bit))) == if bit { n * W::BITS } else { 0 },
    decreases n,
{
    lemma_pop_word(W::ZERO);
    if n > 0 {
        lemma_ones_fill::<W>((n - 1) as nat, bit);
        assert(Seq::new(n, |i: int| fill::<W>(bit)).drop_last() =~= Seq::new((n - 1) as nat, |i: int| fill::<W>(bit)));
        let b = W::BITS as int;
        assert((n - 1) * b + b == n * b) by (nonlinear_arith);
    }
}

/// Words have at most as many set bits as they have bits.
pub proof fn lemma_ones_bound<W: Word>(s: Seq<W>)
    ensures
        ones(s) <= s.len() * W::BITS,
    decreases s.len(),
{
    if s.len() > 0 {
        lemma_ones_bound(s.drop_last());
        lemma_pop_word(s.last());
        let b = W::BITS as int;
        let n = s.len() as int;
        assert((n - 1) * b + b == n * b) by (nonlinear_arith);
    }
}


/// Facts of `&`, `|`, `^` on numbers no wider than an all-ones mask `m`.
proof fn lemma_masked_bits(v: u64, w: u64, m: u64)
    by (bit_vector)
    requires
        m == 0xff || m == 0xffff || m == 0xffff_ffff || m == 0xffff_ffff_ffff_ffff,
        v <= m,
        w <= m,
    ensures
        (v ^ m) ^ m == v,
        v ^ m <= m,
        v & w <= m,
        v | w <= m,
        v ^ w <= m,
{
}

/// Flipping every bit twice gives the words back.
pub proof fn lemma_complement_involutive<W: Word>(s: Seq<W>)
    ensures
        complemented(complemented(s)) == s,
{
    let m = word_max(W::BITS);
    assert forall|i: int| 0 <= i < s.len() implies #[trigger] complemented(complemented(s))[i] == s[i] by {
        let v = s[i].val();
        W::lemma_word(s[i]);
        lemma_masked_bits(v, v, m);
        W::lemma_from_val(v ^ m);
    }
    assert(complemented(complemented(s)) =~= s);
}

/// `nand`, `nor` and `xnor` give the words of `and`, `or` and `xor` with
/// every bit flipped, and `and_not` gives those of `and` with the second
/// operand flipped.
pub proof fn lemma_negated_ops<W: Word>(a: Seq<W>, b: Seq<W>)
    requires
        a.len() == b.len(),
    ensures
        combined(a, b, |x: u64, y: u64| (x & y) ^ word_max(W::BITS)) == complemented(combined(a, b, |x: u64, y: u64| x & y)),
        combined(a, b, |x: u64, y: u64| (x | y) ^ word_max(W::BITS)) == complemented(combined(a, b, |x: u64, y: u64| x | y)),
        combined(a, b, |x: u64, y: u64| (x ^ y) ^ word_max(W::BITS)) == complemented(combined(a, b, |x: u64, y: u64| x ^ y)),
        combined(a, b, |x: u64, y: u64| x & (y ^ word_max(W::BITS))) == combined(a, complemented(b), |x: u64, y: u64| x & y),
{
    let m = word_max(W::BITS);
    let f_and = |x: u64, y: u64| x & y;
    let f_or = |x: u64, y: u64| x | y;
    let f_xor = |x: u64, y: u64| x ^ y;
    let f_nand = |x: u64, y: u64| (x & y) ^ word_max(W::BITS);
    let f_nor = |x: u64, y: u64| (x | y) ^ word_max(W::BITS);
    let f_xnor = |x: u64, y: u64| (x ^ y) ^ word_max(W::BITS);
    let f_and_not = |x: u64, y: u64| x & (y ^ word_max(W::BITS));
    let nb = complemented(b);
    assert forall|i: int| 0 <= i < a.len() implies
        #[trigger] combined(a, b, f_nand)[i] == complemented(combined(a, b, f_and))[i]
        && combined(a, b, f_nor)[i] == complemented(combined(a, b, f_or))[i]
        && combined(a, b, f_xnor)[i] == complemented(combined(a, b, f_xor))[i]
        && combined(a, b, f_and_not)[i] == combined(a, nb, f_and)[i] by {
        let v = a[i].val();
        let w = b[i].val();
        W::lemma_word(a[i]);
        W::lemma_word(b[i]);
        lemma_masked_bits(v, w, m);
        lemma_masked_bits(w, w, m);
        W::lemma_from_val(v & w);
        W::lemma_from_val(v | w);
        W::lemma_from_val(v ^ w);
        W::lemma_from_val(w ^ m);
    }
    assert forall|i: int| 0 <= i < a.len() implies #[trigger] combined(a, b, f_nor)[i] == complemented(combined(a, b, f_or))[i] by {
        assert(combined(a, b, f_nand)[i] == complemented(combined(a, b, f_and))[i]);
    }
    assert forall|i: int| 0 <= i < a.len() implies #[trigger] combined(a, b, f_xnor)[i] == complemented(combined(a, b, f_xor))[i] by {
        assert(combined(a, b, f_nand)[i] == complemented(combined(a, b, f_and))[i]);
    }
    assert forall|i: int| 0 <= i < a.len() implies #[trigger] combined(a, b, f_and_not)[i] == combined(a, nb, f_and)[i] by {
        assert(combined(a, b, f_nand)[i] == complemented(combined(a, b, f_and))[i]);
    }
    assert(combined(a, b, f_nand) =~= complemented(combined(a, b, f_and)));
    assert(combined(a, b, f_nor) =~= complemented(combined(a, b, f_or)));
    assert(combined(a, b, f_xnor) =~= complemented(combined(a, b, f_xor)));
    assert(combined(a, b, f_and_not) =~= combined(a, nb, f_and));
}

/// A bitmap's encoding is fixed by its words: bitmaps that hold the same
/// words hold the same encoding and the same length.
pub proof fn lemma_encoding_determined<W: Word>(a: &EwahBitmap<W>, b: &EwahBitmap<W>)
    requires
        a.wf(),
        b.wf(),
        a@ == b@,
    ensures
        a.encoding() == b.encoding(),
        a.len_bits() == b.len_bits(),
{
    lemma_canonical_encoding_unique(a.encoded@, b.encoded@);
}

/// Flipping every bit flips which bits are set: a bitmap and its complement
/// have as many set bits between them as the bitmap has bits.
pub proof fn lemma_ones_complement<W: Word>(s: Seq<W>)
    ensures
        ones(complemented(s)) + ones(s) == s.len() * W::BITS,
    decreases s.len(),
{
    if s.len() > 0 {
        let t = s.drop_last();
        lemma_ones_complement(t);
        assert(complemented(s).drop_last() =~= complemented(t));
        let v = s.last().val();
        let m = word_max(W::BITS);
        W::lemma_word(s.last());
        lemma_masked_bits(v, v, m);
        W::lemma_from_val(v ^ m);
        assert(complemented(s).last().val() == v ^ m);
        lemma_pop_complement(v, W::BITS);
        let b = W::BITS as int;
        let n = s.len() as int;
        assert((n - 1) * b + b == n * b) by (nonlinear_arith);
    }
}

} // verus!
