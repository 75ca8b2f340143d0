use vstd::prelude::*;
use crate::word::{Word, word_max};
use super::marker::Marker;
use super::format::{Group, max_run, max_lits, uniform, fill, group_words, group_code, expand, emit,
    parse, decode_words, group_ok, follows, closed, canonical, canonical_encoding, lemma_emit_push,
    lemma_parse_emit};

verus! {

/// Writes the encoding of the words pushed into it, group by group.
pub(crate) struct Builder<W: Word> {
    encoded: Vec<W>,
    uniform_word: Option<W>,
    uniform_words: u64,
    literals: Vec<W>,
    groups: Ghost<Seq<Group<W>>>,
}

impl<W: Word> Builder<W> {
    /// The group being gathered and not yet written.
    pub closed spec fn pending(&self) -> Group<W> {
        (
            self.uniform_word matches Some(w) && w.val() == word_max(W::BITS),
            self.uniform_words as nat,
            self.literals@,
        )
    }

    /// Every word pushed so far.
    pub closed spec fn contents(&self) -> Seq<W> {
        expand(self.groups@) + group_words(self.pending())
    }

    /// The state `flush` works from.
    spec fn ready(&self) -> bool {
        &&& self.encoded@ == emit(self.groups@)
        &&& canonical(self.groups@)
        &&& (self.uniform_word is None <==> self.uniform_words == 0)
        &&& self.uniform_word matches Some(w) ==> uniform(w)
        &&& self.uniform_words <= max_run(W::BITS)
        &&& self.literals@.len() <= max_lits(W::BITS)
        &&& self.uniform_words == max_run(W::BITS) ==> self.literals@.len() == 0
        &&& forall|i: int| 0 <= i < self.literals@.len() ==> !uniform(#[trigger] self.literals@[i])
        &&& self.uniform_words + self.literals@.len() > 0 && self.groups@.len() > 0
            ==> follows(self.groups@.last(), self.pending())
    }

    /// Between calls: no group is full, and an empty pending group may start anew.
    pub closed spec fn wf(&self) -> bool {
        &&& self.ready()
        &&& self.uniform_words < max_run(W::BITS)
        &&& self.literals@.len() < max_lits(W::BITS)
        &&& self.uniform_words + self.literals@.len() == 0 && self.groups@.len() > 0
            ==> closed(self.groups@.last())
    }

    pub(crate) fn new() -> (r: Self)
        ensures
            r.wf(),
            r.contents() == Seq::<W>::empty(),
    {
        proof { W::lemma_word(W::ZERO); }
        let r = Self {
            encoded: Vec::new(),
            uniform_word: None,
            uniform_words: 0,
            literals: Vec::new(),
            groups: Ghost(Seq::empty()),
        };
        proof {
            assert(r.encoded@ =~= emit(Seq::<Group<W>>::empty()));
            assert(r.contents() =~= Seq::<W>::empty());
        }
        r
    }

    pub(crate) fn push(&mut self, word: W)
        requires
            old(self).wf(),
        ensures
            final(self).wf(),
            final(self).contents() == old(self).contents().push(word),
    {
        if word.is_uniform() {
            self.push_uniform(word)
        } else {
            self.push_literal(word)
        }
    }

    fn push_uniform(&mut self, word: W)
        requires
            old(self).wf(),
            uniform(word),
        ensures
            final(self).wf(),
            final(self).contents() == old(self).contents().push(word),
    {
        proof {
            W::lemma_word(word);
            W::lemma_word(W::ONES);
            W::lemma_word(W::ZERO);
            assert(fill::<W>(word.val() == word_max(W::BITS)) == word);
        }
        if self.literals.len() > 0 {
            self.flush();
        }
        let ghost mid = self.contents();
        match self.uniform_word {
            Some(current) => {
                if current.to_u64() == word.to_u64() {
                    proof { W::lemma_word(current); }
                    self.uniform_words = self.uniform_words + 1;
                    proof {
                        let g = self.pending();
                        assert(g.2 =~= Seq::<W>::empty());
                        assert(Seq::new(g.1, |i: int| fill::<W>(g.0))
                            =~= Seq::new((g.1 - 1) as nat, |i: int| fill::<W>(g.0)).push(word));
                        assert(self.contents() =~= mid.push(word));
                    }
                } else {
                    proof { W::lemma_word(current); }
                    self.flush();
                    self.uniform_word = Some(word);
                    self.uniform_words = 1;
                    proof {
                        assert(group_words(self.pending()) =~= seq![word]);
                        assert(self.contents() =~= mid.push(word));
                    }
                }
            }
            None => {
                self.uniform_word = Some(word);
                self.uniform_words = 1;
                proof {
                    assert(group_words(self.pending()) =~= seq![word]);
                    assert(self.contents() =~= mid.push(word));
                }
            }
        }
        if self.uniform_words == Marker::max_uniform_words::<W>() {
            self.flush();
        }
    }

    fn push_literal(&mut self, word: W)
        requires
            old(self).wf(),
            !uniform(word),
        ensures
            final(self).wf(),
            final(self).contents() == old(self).contents().push(word),
    {
        let ghost before = self.contents();
        self.literals.push(word);
        proof {
            let g = self.pending();
            assert(group_words(g) =~= group_words(old(self).pending()).push(word));
            assert(self.contents() =~= before.push(word));
        }
        if self.literals.len() as u64 == Marker::max_literal_words::<W>() {
            self.flush();
        }
    }

    /// Writes the pending group, if it holds any word.
    fn flush(&mut self)
        requires
            old(self).ready(),
        ensures
            final(self).ready(),
            final(self).uniform_words == 0,
            final(self).literals@.len() == 0,
            final(self).contents() == old(self).contents(),
            old(self).uniform_words + old(self).literals@.len() > 0
                ==> final(self).groups@ == old(self).groups@.push(old(self).pending()),
            old(self).uniform_words + old(self).literals@.len() == 0
                ==> final(self).groups@ == old(self).groups@,
    {
        if self.uniform_words == 0 && self.literals.len() == 0 {
            return;
        }
        let ghost g = self.pending();
        let ghost gs = self.groups@;
        let uniform_bit = match self.uniform_word {
            Some(word) => word.to_u64() == W::ONES.to_u64(),
            None => false,
        };
        proof { W::lemma_word(W::ONES); }
        let marker = Marker {
            uniform_bit,
            uniform_words: self.uniform_words,
            literal_words: self.literals.len() as u64,
        };
        self.encoded.push(marker.pack::<W>());
        self.encoded.append(&mut self.literals);
        self.uniform_word = None;
        self.uniform_words = 0;
        self.groups = Ghost(gs.push(g));
        proof {
            lemma_emit_push(gs, g);
            assert(group_ok(g));
            assert forall|i: int| 0 <= i < self.groups@.len() implies group_ok(#[trigger] self.groups@[i]) by {
                if i < gs.len() { assert(self.groups@[i] == gs[i]); }
            }
            assert forall|i: int| 0 <= i < self.groups@.len() - 1 implies follows(#[trigger] self.groups@[i], self.groups@[i + 1]) by {
                if i < gs.len() - 1 {
                    assert(self.groups@[i] == gs[i]);
                    assert(self.groups@[i + 1] == gs[i + 1]);
                } else {
                    assert(self.groups@[i] == gs.last());
                }
            }
            assert(self.encoded@ =~= emit(self.groups@));
            assert(group_words(self.pending()) =~= Seq::<W>::empty());
            assert(self.contents() =~= old(self).contents());
        }
    }

    pub(crate) fn finish(self) -> (r: Vec<W>)
        requires
            self.wf(),
        ensures
            canonical_encoding(r@),
            decode_words(r@) == Some(self.contents()),
    {
        let mut this = self;
        this.flush();
        proof {
            let gs = this.groups@;
            assert(group_words(this.pending()) =~= Seq::<W>::empty());
            assert(this.contents() =~= expand(gs));
            lemma_parse_emit(gs);
        }
        this.encoded
    }
}

impl<W: Word> Default for Builder<W> {
    fn default() -> (r: Self)
        ensures
            r.wf(),
            r.contents() == Seq::<W>::empty(),
    {
        Self::new()
    }
}

} // verus!
