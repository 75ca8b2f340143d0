use vstd::prelude::*;
use crate::word::Word;
use super::builder::Builder;
use super::format::{canonical_encoding, decode_words};

verus! {

/// Writes the compressed encoding of a slice of words.
pub struct Encoder<'a, W: Word> {
    source: &'a [W],
}

impl<'a, W: Word> Encoder<'a, W> {
    /// The words to encode.
    pub closed spec fn source(&self) -> Seq<W> {
        self.source@
    }

    pub fn new(source: &'a [W]) -> (r: Self)
        ensures
            r.source() == source@,
    {
        Self { source }
    }

    /// The canonical encoding of the source words: it decodes back to them.
    pub fn encode(&self) -> (r: Vec<W>)
        ensures
            canonical_encoding(r@),
            decode_words(r@) == Some(self.source()),
    {
        let mut builder = Builder::new();
        let mut i: usize = 0;
        while i < self.source.len()
            invariant
                builder.wf(),
                i <= self.source@.len(),
                builder.contents() == self.source@.subrange(0, i as int),
            decreases self.source@.len() - i,
        {
            builder.push(self.source[i]);
            i = i + 1;
            proof {
                assert(builder.contents() =~= self.source@.subrange(0, i as int));
            }
        }
        proof {
            assert(self.source@.subrange(0, i as int) =~= self.source@);
        }
        builder.finish()
    }
}

} // verus!
