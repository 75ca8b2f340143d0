use vstd::prelude::*;
use crate::word::Word;
use super::marker::Marker;
use super::format::{max_run, max_lits, run_bit, run_len, lit_len, fill, decode_words, lemma_fields};

verus! {

/// Why an encoding cannot be decoded into a given output.
#[derive(Debug, Clone, Copy, PartialEq, Eq)]
pub enum DecodeError {
    CountTooLarge,
    TruncatedLiterals,
    OutputTooSmall,
    OutputLengthMismatch,
}

impl DecodeError {
    /// The error in words.
    pub fn message(&self) -> (r: &'static str)
        ensures
            *self is CountTooLarge ==> r@ == "marker count cannot fit in usize"@,
            *self is TruncatedLiterals ==> r@ == "marker reference missing literal words"@,
            *self is OutputTooSmall ==> r@ == "decoded words exceed output capacity"@,
            *self is OutputLengthMismatch ==> r@ == "decoded words do not fill the output"@,
    {
        match self {
            DecodeError::CountTooLarge => "marker count cannot fit in usize",
            DecodeError::TruncatedLiterals => "marker reference missing literal words",
            DecodeError::OutputTooSmall => "decoded words exceed output capacity",
            DecodeError::OutputLengthMismatch => "decoded words do not fill the output",
        }
    }
}

/// What checking an encoding against an output of `room` words finds, marker
/// by marker: a marker whose literal words are missing, a marker whose words
/// overflow the output, or, at the end, an output that is not filled.
pub open spec fn check_words<W: Word>(enc: Seq<W>, room: int) -> Result<(), DecodeError>
    decreases enc.len(),
{
    if enc.len() == 0 {
        if room == 0 { Ok(()) } else { Err(DecodeError::OutputLengthMismatch) }
    } else {
        let m = enc[0].val();
        let u = run_len(m, W::BITS) as int;
        let l = lit_len(m, W::BITS) as int;
        if l > enc.len() - 1 {
            Err(DecodeError::TruncatedLiterals)
        } else if u > room || l > room - u {
            Err(DecodeError::OutputTooSmall)
        } else {
            check_words(enc.subrange(1 + l, enc.len() as int), room - u - l)
        }
    }
}

/// The check passes exactly when the encoding decodes to `room` words.
pub proof fn lemma_check_words<W: Word>(enc: Seq<W>, room: int)
    ensures
        (check_words(enc, room) is Ok) == (decode_words(enc) matches Some(s) && s.len() == room),
    decreases enc.len(),
{
    if enc.len() > 0 {
        let m = enc[0].val();
        let u = run_len(m, W::BITS) as int;
        let l = lit_len(m, W::BITS) as int;
        if l <= enc.len() - 1 {
            let tail = enc.subrange(1 + l, enc.len() as int);
            lemma_check_words(tail, room - u - l);
            lemma_check_words(tail, 0);
            if let Some(rest) = decode_words(tail) {
                lemma_check_words(tail, rest.len() as int);
            }
        }
    }
}

/// How many words the markers of an encoding promise, uniform and literal
/// together; none when a marker promises more literal words than follow it.
pub open spec fn promised<W: Word>(enc: Seq<W>) -> Option<int>
    decreases enc.len(),
{
    if enc.len() == 0 {
        Some(0)
    } else {
        let m = enc[0].val();
        let u = run_len(m, W::BITS) as int;
        let l = lit_len(m, W::BITS) as int;
        if l > enc.len() - 1 {
            None
        } else {
            match promised(enc.subrange(1 + l, enc.len() as int)) {
                Some(t) => Some(u + l + t),
                None => None,
            }
        }
    }
}

/// Decoding into `room` words succeeds exactly when no marker promises more
/// literal words than follow it and the markers promise `room` words in all;
/// when they promise more the output is too small, when fewer it is not filled.
pub proof fn lemma_decode_counts<W: Word>(enc: Seq<W>, room: int)
    requires
        0 <= room,
    ensures
        (check_words(enc, room) is Ok) == (promised(enc) == Some(room)),
        promised(enc) matches Some(t) && t > room ==> check_words(enc, room) == Err::<(), DecodeError>(DecodeError::OutputTooSmall),
        promised(enc) matches Some(t) && t < room ==> check_words(enc, room) == Err::<(), DecodeError>(DecodeError::OutputLengthMismatch),
        promised(enc) matches Some(t) ==> t >= 0,
    decreases enc.len(),
{
    if enc.len() > 0 {
        let m = enc[0].val();
        let u = run_len(m, W::BITS) as int;
        let l = lit_len(m, W::BITS) as int;
        if l <= enc.len() - 1 {
            let tail = enc.subrange(1 + l, enc.len() as int);
            lemma_decode_counts(tail, 0);
            if u <= room && l <= room - u {
                lemma_decode_counts(tail, room - u - l);
            }
        }
    }
}

/// Reads an encoding back into words.
pub struct Decoder<'a, W> {
    encoded: &'a [W],
}

/// Walks the words an encoding stands for, one at a time.
pub(crate) struct WordIter<'a, W: Word> {
    encoded: &'a [W],
    source_index: usize,
    uniform_value: W,
    uniform_remaining: usize,
    literal_remaining: usize,
}

impl<'a, W: Word> WordIter<'a, W> {
    /// The words still to come.
    pub closed spec fn rest(&self) -> Seq<W> {
        let tail_start = self.source_index + self.literal_remaining;
        Seq::new(self.uniform_remaining as nat, |i: int| self.uniform_value)
            + self.encoded@.subrange(self.source_index as int, tail_start)
            + decode_words(self.encoded@.subrange(tail_start, self.encoded@.len() as int))->0
    }

    pub closed spec fn wf(&self) -> bool {
        &&& self.source_index + self.literal_remaining <= self.encoded@.len()
        &&& decode_words(self.encoded@.subrange(
            self.source_index + self.literal_remaining,
            self.encoded@.len() as int,
        )) is Some
    }

    pub(crate) fn new(encoded: &'a [W]) -> (r: Self)
        requires
            decode_words(encoded@) is Some,
        ensures
            r.wf(),
            r.rest() == decode_words(encoded@)->0,
    {
        let r = Self {
            encoded,
            source_index: 0,
            uniform_value: W::ZERO,
            uniform_remaining: 0,
            literal_remaining: 0,
        };
        proof {
            assert(encoded@.subrange(0, encoded@.len() as int) =~= encoded@);
            assert(r.rest() =~= decode_words(encoded@)->0);
        }
        r
    }

    /// Reads the next marker; returns false at the end of the encoding.
    fn load_marker(&mut self) -> (r: bool)
        requires
            old(self).wf(),
            old(self).uniform_remaining == 0,
            old(self).literal_remaining == 0,
        ensures
            final(self).wf(),
            final(self).rest() == old(self).rest(),
            final(self).encoded == old(self).encoded,
            r == (old(self).source_index < old(self).encoded@.len()),
            r ==> final(self).source_index == old(self).source_index + 1,
            !r ==> *final(self) == *old(self),
    {
        if self.source_index >= self.encoded.len() {
            return false;
        }
        let word = self.encoded[self.source_index];
        let ghost s = self.source_index as int;
        let ghost enc = self.encoded@;
        let ghost tail = enc.subrange(s, enc.len() as int);
        self.source_index = self.source_index + 1;
        let marker = Marker::unpack(word);
        proof {
            W::lemma_word(word);
            W::lemma_word(W::ZERO);
            lemma_fields(word.val(), W::BITS);
            assert(tail[0] == word);
        }
        self.uniform_value = if marker.uniform_bit { W::ONES } else { W::ZERO };
        self.uniform_remaining = marker.uniform_words as usize;
        self.literal_remaining = marker.literal_words as usize;
        proof {
            let l = self.literal_remaining as int;
            assert(tail.subrange(1 + l, tail.len() as int) =~= enc.subrange(s + 1 + l, enc.len() as int));
            assert(tail.subrange(1, 1 + l) =~= enc.subrange(s + 1, s + 1 + l));
            assert(self.uniform_value == fill::<W>(run_bit(word.val())));
            assert(Seq::new(self.uniform_remaining as nat, |i: int| self.uniform_value)
                =~= Seq::new(run_len(word.val(), W::BITS) as nat, |i: int| fill::<W>(run_bit(word.val()))));
            assert(old(self).rest() =~= decode_words(tail)->0);
            assert(self.rest() =~= old(self).rest());
        }
        true
    }

    /// The next word, or `None` at the end.
    pub(crate) fn next(&mut self) -> (r: Option<W>)
        requires
            old(self).wf(),
        ensures
            final(self).wf(),
            old(self).rest().len() == 0 ==> r is None && final(self).rest().len() == 0,
            old(self).rest().len() > 0 ==> r == Some(old(self).rest()[0])
                && final(self).rest() == old(self).rest().drop_first(),
    {
        let ghost start = self.rest();
        loop
            invariant
                self.wf(),
                self.rest() == start,
                start == old(self).rest(),
            decreases self.encoded@.len() - self.source_index, self.uniform_remaining + self.literal_remaining,
        {
            if self.uniform_remaining != 0 {
                self.uniform_remaining = self.uniform_remaining - 1;
                proof {
                    assert(self.rest() =~= start.drop_first());
                }
                return Some(self.uniform_value);
            }
            if self.literal_remaining != 0 {
                let word = self.encoded[self.source_index];
                self.source_index = self.source_index + 1;
                self.literal_remaining = self.literal_remaining - 1;
                proof {
                    assert(start[0] == word);
                    assert(self.rest() =~= start.drop_first());
                }
                return Some(word);
            }
            if !self.load_marker() {
                proof {
                    let enc = self.encoded@;
                    assert(enc.subrange(self.source_index as int, enc.len() as int) =~= Seq::<W>::empty());
                    assert(self.rest() =~= Seq::<W>::empty());
                }
                return None;
            }
        }
    }
}

impl<'a, W: Word> Decoder<'a, W> {
    /// The encoding being read.
    pub closed spec fn encoded(&self) -> Seq<W> {
        self.encoded@
    }

    pub fn new(encoded: &'a [W]) -> (r: Self)
        ensures
            r.encoded() == encoded@,
    {
        Self { encoded }
    }

    /// The fields of a marker as counts.
    fn marker_counts(word: W) -> (r: Result<(bool, usize, usize), DecodeError>)
        ensures
            r is Ok,
            r->Ok_0.0 == run_bit(word.val()),
            r->Ok_0.1 == run_len(word.val(), W::BITS),
            r->Ok_0.2 == lit_len(word.val(), W::BITS),
    {
        proof {
            W::lemma_word(word);
            lemma_fields(word.val(), W::BITS);
        }
        let marker = Marker::unpack(word);
        if marker.uniform_words > usize::MAX as u64 || marker.literal_words > usize::MAX as u64 {
            return Err(DecodeError::CountTooLarge);
        }
        Ok((marker.uniform_bit, marker.uniform_words as usize, marker.literal_words as usize))
    }

    /// Checks that the encoding decodes to exactly `expected_words` words.
    fn validate(&self, expected_words: usize) -> (r: Result<(), DecodeError>)
        ensures
            r == check_words(self.encoded@, expected_words as int),
    {
        let mut index: usize = 0;
        let mut remaining: usize = expected_words;
        let ghost enc = self.encoded@;
        proof { assert(enc.subrange(0, enc.len() as int) =~= enc); }
        while index < self.encoded.len()
            invariant
                enc == self.encoded@,
                index <= enc.len(),
                check_words(enc, expected_words as int)
                    == check_words(enc.subrange(index as int, enc.len() as int), remaining as int),
            decreases enc.len() - index,
        {
            let ghost tail = enc.subrange(index as int, enc.len() as int);
            proof { assert(tail[0] == enc[index as int]); }
            let (_, uniform_words, literal_words) = match Self::marker_counts(self.encoded[index]) {
                Ok(counts) => counts,
                Err(e) => { return Err(e); }
            };
            index = index + 1;
            if literal_words > self.encoded.len() - index {
                return Err(DecodeError::TruncatedLiterals);
            }
            if uniform_words > remaining {
                return Err(DecodeError::OutputTooSmall);
            }
            remaining = remaining - uniform_words;
            if literal_words > remaining {
                return Err(DecodeError::OutputTooSmall);
            }
            remaining = remaining - literal_words;
            index = index + literal_words;
            proof {
                let l = literal_words as int;
                assert(tail.subrange(1 + l, tail.len() as int) =~= enc.subrange(index as int, enc.len() as int));
            }
        }
        if remaining != 0 {
            return Err(DecodeError::OutputLengthMismatch);
        }
        Ok(())
    }

    /// Decodes into `output`, which the encoding must fill exactly; on an
    /// error `output` is left as it was.
    pub fn decode_into(&self, output: &mut [W]) -> (r: Result<(), DecodeError>)
        ensures
            r == check_words(self.encoded(), old(output)@.len() as int),
            r is Ok ==> final(output)@ == decode_words(self.encoded())->0,
            r is Err ==> final(output)@ == old(output)@,
    {
        let checked = self.validate(output.len());
        if checked.is_err() {
            return checked;
        }
        let ghost enc = self.encoded@;
        let ghost full = decode_words(enc)->0;
        proof {
            lemma_check_words(enc, output@.len() as int);
            assert(enc.subrange(0, enc.len() as int) =~= enc);
            assert(output@.subrange(0, 0) + full =~= full);
        }
        let total = output.len();
        let mut source_index: usize = 0;
        let mut output_index: usize = 0;
        while source_index < self.encoded.len()
            invariant
                enc == self.encoded@,
                total == output@.len(),
                checked == check_words(self.encoded(), old(output)@.len() as int),
                checked is Ok,
                full == decode_words(enc)->0,
                output@.len() == full.len(),
                source_index <= enc.len(),
                output_index <= output@.len(),
                decode_words(enc.subrange(source_index as int, enc.len() as int)) is Some,
                output@.subrange(0, output_index as int)
                    + decode_words(enc.subrange(source_index as int, enc.len() as int))->0 == full,
            decreases enc.len() - source_index,
        {
            let ghost tail = enc.subrange(source_index as int, enc.len() as int);
            let ghost tail_words = decode_words(tail)->0;
            proof { assert(tail[0] == enc[source_index as int]); }
            let word = self.encoded[source_index];
            let (uniform_bit, uniform_words, literal_words) = match Self::marker_counts(word) {
                Ok(counts) => counts,
                Err(e) => { return Err(e); }
            };
            proof {
                W::lemma_word(W::ZERO);
                W::lemma_word(W::ONES);
                assert(output@.subrange(0, output_index as int).len() == output_index);
                assert(output_index + tail_words.len() == output@.len());
            }
            source_index = source_index + 1;
            let uniform_value = if uniform_bit { W::ONES } else { W::ZERO };
            let ghost rest_tail = enc.subrange(source_index + literal_words, enc.len() as int);
            proof {
                let l = literal_words as int;
                assert(tail.subrange(1 + l, tail.len() as int) =~= rest_tail);
                assert(tail.subrange(1, 1 + l) =~= enc.subrange(source_index as int, source_index + l));
                assert(uniform_value == fill::<W>(run_bit(word.val())));
                assert(Seq::new(uniform_words as nat, |i: int| uniform_value)
                    =~= Seq::new(run_len(word.val(), W::BITS) as nat, |i: int| fill::<W>(run_bit(word.val()))));
                assert(tail_words =~= Seq::new(uniform_words as nat, |i: int| uniform_value)
                    + enc.subrange(source_index as int, source_index + l) + decode_words(rest_tail)->0);
                assert(tail_words.len() == uniform_words + literal_words + (decode_words(rest_tail)->0).len());
            }
            let ghost prefix = output@.subrange(0, output_index as int);
            let run_end = output_index + uniform_words;
            let mut k = output_index;
            while k < run_end
                invariant
                    output_index <= k <= run_end,
                    run_end <= output@.len(),
                    output@.len() == full.len(),
                    output@.subrange(0, output_index as int) == prefix,
                    forall|i: int| output_index <= i < k ==> output@[i] == uniform_value,
                decreases run_end - k,
            {
                output[k] = uniform_value;
                proof { assert(output@.subrange(0, output_index as int) =~= prefix); }
                k = k + 1;
            }
            proof {
                assert(output@.subrange(0, run_end as int)
                    =~= prefix + Seq::new(uniform_words as nat, |i: int| uniform_value));
            }
            output_index = run_end;
            let ghost prefix2 = output@.subrange(0, output_index as int);
            let mut j: usize = 0;
            while j < literal_words
                invariant
                    j <= literal_words,
                    enc == self.encoded@,
                    total == output@.len(),
                    source_index + literal_words <= enc.len(),
                    output_index + literal_words <= output@.len(),
                    output@.len() == full.len(),
                    output@.subrange(0, output_index as int) == prefix2,
                    forall|i: int| 0 <= i < j ==> #[trigger] output@[output_index + i] == enc[source_index + i],
                decreases literal_words - j,
            {
                output[output_index + j] = self.encoded[source_index + j];
                proof { assert(output@.subrange(0, output_index as int) =~= prefix2); }
                j = j + 1;
            }
            proof {
                let l = literal_words as int;
                assert forall|i: int| output_index <= i < output_index + l implies
                    output@[i] == enc[source_index + i - output_index] by {
                    let t = i - output_index;
                    assert(output@[output_index + t] == enc[source_index + t]);
                }
                assert(output@.subrange(0, output_index + l)
                    =~= prefix2 + enc.subrange(source_index as int, source_index + l));
            }
            source_index = source_index + literal_words;
            output_index = output_index + literal_words;
        }
        proof {
            assert(enc.subrange(source_index as int, enc.len() as int) =~= Seq::<W>::empty());
            assert(output@.subrange(0, output_index as int) =~= full);
            assert(output@ =~= full);
        }
        checked
    }
}

} // verus!
