use vstd::prelude::*;
use crate::word::{Word, word_max};

verus! {

/// The longest run of uniform words that one marker counts.
pub open spec fn max_run(bits: u32) -> u64 {
    if bits == 8 {
        7
    } else if bits == 16 {
        127
    } else if bits == 32 {
        0x7fff
    } else {
        0x7fff_ffff
    }
}

/// The most literal words that one marker announces.
pub open spec fn max_lits(bits: u32) -> u64 {
    if bits == 8 {
        15
    } else if bits == 16 {
        255
    } else if bits == 32 {
        0xffff
    } else {
        0xffff_ffff
    }
}

/// Marker field: the run is of set words.
pub open spec fn run_bit(m: u64) -> bool {
    m & 1 == 1
}

/// Marker field: how many uniform words the run has.
pub open spec fn run_len(m: u64, bits: u32) -> u64 {
    (m >> 1u64) & max_run(bits)
}

/// Marker field: how many literal words follow the marker.
pub open spec fn lit_len(m: u64, bits: u32) -> u64 {
    m >> ((bits / 2) as u64)
}

/// The marker with the given fields: the run's bit in bit 0 (clear for an
/// empty run), the run's length above it, the literal count in the upper half.
pub open spec fn packed(bit: bool, run: u64, lits: u64, bits: u32) -> u64 {
    (if bit && run != 0 { 1u64 } else { 0u64 }) | (run << 1u64) | (lits << ((bits / 2) as u64))
}

pub open spec fn word_width(bits: u32) -> bool {
    bits == 8 || bits == 16 || bits == 32 || bits == 64
}

/// Fields that fit are read back from their marker.
pub proof fn lemma_packed(bit: bool, run: u64, lits: u64, bits: u32)
    requires
        word_width(bits),
        run <= max_run(bits),
        lits <= max_lits(bits),
    ensures
        packed(bit, run, lits, bits) <= word_max(bits),
        run_bit(packed(bit, run, lits, bits)) == (bit && run != 0),
        run_len(packed(bit, run, lits, bits), bits) == run,
        lit_len(packed(bit, run, lits, bits), bits) == lits,
{
    let b: u64 = if bit && run != 0 { 1u64 } else { 0u64 };
    let p = packed(bit, run, lits, bits);
    if bits == 8 {
        assert(p == b | (run << 1u64) | (lits << 4u64));
        assert(p <= 0xff && ((p & 1 == 1) == (b == 1)) && ((p >> 1u64) & 7 == run) && (p >> 4u64 == lits))
            by (bit_vector)
            requires p == b | (run << 1u64) | (lits << 4u64), b <= 1, run <= 7, lits <= 15;
    } else if bits == 16 {
        assert(p == b | (run << 1u64) | (lits << 8u64));
        assert(p <= 0xffff && ((p & 1 == 1) == (b == 1)) && ((p >> 1u64) & 127 == run) && (p >> 8u64 == lits))
            by (bit_vector)
            requires p == b | (run << 1u64) | (lits << 8u64), b <= 1, run <= 127, lits <= 255;
    } else if bits == 32 {
        assert(p == b | (run << 1u64) | (lits << 16u64));
        assert(p <= 0xffff_ffff && ((p & 1 == 1) == (b == 1)) && ((p >> 1u64) & 0x7fff == run) && (p >> 16u64 == lits))
            by (bit_vector)
            requires p == b | (run << 1u64) | (lits << 16u64), b <= 1, run <= 0x7fff, lits <= 0xffff;
    } else {
        assert(p == b | (run << 1u64) | (lits << 32u64));
        assert(((p & 1 == 1) == (b == 1)) && ((p >> 1u64) & 0x7fff_ffff == run) && (p >> 32u64 == lits))
            by (bit_vector)
            requires p == b | (run << 1u64) | (lits << 32u64), b <= 1, run <= 0x7fff_ffff, lits <= 0xffff_ffff;
    }
}

/// Whatever a word holds, its marker fields are in range.
pub proof fn lemma_fields(m: u64, bits: u32)
    requires
        word_width(bits),
        m <= word_max(bits),
    ensures
        run_len(m, bits) <= max_run(bits),
        lit_len(m, bits) <= max_lits(bits),
{
    if bits == 8 {
        assert((m >> 1u64) & 7 <= 7 && m >> 4u64 <= 15) by (bit_vector) requires m <= 0xff;
    } else if bits == 16 {
        assert((m >> 1u64) & 127 <= 127 && m >> 8u64 <= 255) by (bit_vector) requires m <= 0xffff;
    } else if bits == 32 {
        assert((m >> 1u64) & 0x7fff <= 0x7fff && m >> 16u64 <= 0xffff) by (bit_vector) requires m <= 0xffff_ffff;
    } else {
        assert((m >> 1u64) & 0x7fff_ffff <= 0x7fff_ffff && m >> 32u64 <= 0xffff_ffff) by (bit_vector);
    }
}

/// All bits of the word clear or all set.
pub open spec fn uniform<W: Word>(w: W) -> bool {
    w.val() == 0 || w.val() == word_max(W::BITS)
}

/// The uniform word of a run.
pub open spec fn fill<W: Word>(bit: bool) -> W {
    if bit { W::ONES } else { W::ZERO }
}

/// A group of the encoding: a run of `g.1` uniform words, set ones when `g.0`,
/// then the literal words `g.2`.
pub type Group<W> = (bool, nat, Seq<W>);

/// The words a group stands for.
pub open spec fn group_words<W: Word>(g: Group<W>) -> Seq<W> {
    Seq::new(g.1, |i: int| fill::<W>(g.0)) + g.2
}

/// The words a sequence of groups stands for.
pub open spec fn expand<W: Word>(gs: Seq<Group<W>>) -> Seq<W>
    decreases gs.len(),
{
    if gs.len() == 0 {
        Seq::empty()
    } else {
        group_words(gs[0]) + expand(gs.drop_first())
    }
}

/// A group as it is written: its marker, then its literal words.
pub open spec fn group_code<W: Word>(g: Group<W>) -> Seq<W> {
    seq![W::from_val(packed(g.0, g.1 as u64, g.2.len() as u64, W::BITS))] + g.2
}

/// The encoding of a sequence of groups.
pub open spec fn emit<W: Word>(gs: Seq<Group<W>>) -> Seq<W>
    decreases gs.len(),
{
    if gs.len() == 0 {
        Seq::empty()
    } else {
        group_code(gs[0]) + emit(gs.drop_first())
    }
}

/// The groups an encoding is read as, marker by marker, up to the first marker
/// whose literal words are missing.
pub open spec fn parse<W: Word>(enc: Seq<W>) -> Seq<Group<W>>
    decreases enc.len(),
{
    if enc.len() == 0 {
        Seq::empty()
    } else {
        let m = enc[0].val();
        let l = lit_len(m, W::BITS) as int;
        if l > enc.len() - 1 {
            Seq::empty()
        } else {
            seq![(run_bit(m), run_len(m, W::BITS) as nat, enc.subrange(1, 1 + l))]
                + parse(enc.subrange(1 + l, enc.len() as int))
        }
    }
}

/// The words an encoding stands for, or `None` where a marker announces more
/// literal words than follow it.
pub open spec fn decode_words<W: Word>(enc: Seq<W>) -> Option<Seq<W>>
    decreases enc.len(),
{
    if enc.len() == 0 {
        Some(Seq::empty())
    } else {
        let m = enc[0].val();
        let l = lit_len(m, W::BITS) as int;
        if l > enc.len() - 1 {
            None
        } else {
            match decode_words(enc.subrange(1 + l, enc.len() as int)) {
                Some(rest) => Some(
                    Seq::new(run_len(m, W::BITS) as nat, |i: int| fill::<W>(run_bit(m)))
                        + enc.subrange(1, 1 + l) + rest,
                ),
                None => None,
            }
        }
    }
}

/// A group whose fields fit its marker.
pub open spec fn group_fits<W: Word>(g: Group<W>) -> bool {
    &&& g.1 <= max_run(W::BITS)
    &&& g.2.len() <= max_lits(W::BITS)
    &&& g.1 == 0 ==> !g.0
}

/// A group as the encoder makes it: it fits, holds at least one word, a full
/// run carries no literals, and every literal word is mixed.
pub open spec fn group_ok<W: Word>(g: Group<W>) -> bool {
    &&& group_fits(g)
    &&& g.1 + g.2.len() > 0
    &&& g.1 == max_run(W::BITS) ==> g.2.len() == 0
    &&& forall|i: int| 0 <= i < g.2.len() ==> !uniform(#[trigger] g.2[i])
}

/// The encoder closed group `g` only because `h` began a run, of the other
/// bit where `g` ended in a run that still had room.
pub open spec fn follows<W: Word>(g: Group<W>, h: Group<W>) -> bool {
    &&& 0 < g.2.len() < max_lits(W::BITS) ==> h.1 > 0
    &&& g.2.len() == 0 && g.1 < max_run(W::BITS) ==> h.1 > 0 && h.0 != g.0
}

/// A group that any group may follow.
pub open spec fn closed<W: Word>(g: Group<W>) -> bool {
    g.2.len() == max_lits(W::BITS) || (g.2.len() == 0 && g.1 == max_run(W::BITS))
}

/// Groups as the encoder writes them: each as it makes them, runs filled before
/// a new marker starts, literals attached to the run before them.
pub open spec fn canonical<W: Word>(gs: Seq<Group<W>>) -> bool {
    &&& forall|i: int| 0 <= i < gs.len() ==> group_ok(#[trigger] gs[i])
    &&& forall|i: int| 0 <= i < gs.len() - 1 ==> follows(#[trigger] gs[i], gs[i + 1])
}

/// The one encoding of its words that the encoder writes.
pub open spec fn canonical_encoding<W: Word>(enc: Seq<W>) -> bool {
    emit(parse(enc)) == enc && canonical(parse(enc))
}

pub proof fn lemma_emit_push<W: Word>(gs: Seq<Group<W>>, g: Group<W>)
    ensures
        emit(gs.push(g)) == emit(gs) + group_code(g),
        expand(gs.push(g)) == expand(gs) + group_words(g),
    decreases gs.len(),
{
    if gs.len() == 0 {
        assert(gs.push(g).drop_first() =~= Seq::<Group<W>>::empty());
        assert(gs.push(g)[0] == g);
        assert(emit(Seq::<Group<W>>::empty()) == Seq::<W>::empty());
        assert(expand(Seq::<Group<W>>::empty()) == Seq::<W>::empty());
        assert(emit(gs.push(g)) == group_code(g) + emit(gs.push(g).drop_first()));
        assert(expand(gs.push(g)) == group_words(g) + expand(gs.push(g).drop_first()));
        assert(emit(gs.push(g)) =~= emit(gs) + group_code(g));
        assert(expand(gs.push(g)) =~= expand(gs) + group_words(g));
    } else {
        lemma_emit_push(gs.drop_first(), g);
        assert(gs.push(g).drop_first() =~= gs.drop_first().push(g));
        assert(gs.push(g)[0] == gs[0]);
        assert(emit(gs.push(g)) == group_code(gs[0]) + emit(gs.drop_first().push(g)));
        assert(emit(gs.push(g)) =~= emit(gs) + group_code(g));
        assert(expand(gs.push(g)) == group_words(gs[0]) + expand(gs.drop_first().push(g)));
        assert(expand(gs.push(g)) =~= expand(gs) + group_words(g));
    }
}

/// Groups that fit are read back from their encoding, which decodes to their words.
pub proof fn lemma_parse_emit<W: Word>(gs: Seq<Group<W>>)
    requires
        forall|i: int| 0 <= i < gs.len() ==> group_fits(#[trigger] gs[i]),
    ensures
        parse(emit(gs)) == gs,
        decode_words(emit(gs)) == Some(expand(gs)),
    decreases gs.len(),
{
    if gs.len() > 0 {
        let g = gs[0];
        let rest = gs.drop_first();
        assert forall|i: int| 0 <= i < rest.len() implies group_fits(#[trigger] rest[i]) by {
            assert(rest[i] == gs[i + 1]);
        }
        lemma_parse_emit(rest);
        assert(group_fits(gs[0]));
        W::lemma_word(W::ZERO);
        let p = packed(g.0, g.1 as u64, g.2.len() as u64, W::BITS);
        lemma_packed(g.0, g.1 as u64, g.2.len() as u64, W::BITS);
        W::lemma_from_val(p);
        let enc = emit(gs);
        assert(enc == group_code(g) + emit(rest));
        let l = g.2.len() as int;
        assert(enc[0].val() == p);
        assert(enc.subrange(1, 1 + l) =~= g.2);
        assert(enc.subrange(1 + l, enc.len() as int) =~= emit(rest));
        assert(run_bit(p) == g.0);
        assert(parse(enc) =~= gs);
        assert(Seq::new(g.1, |i: int| fill::<W>(g.0)) =~= Seq::new(run_len(p, W::BITS) as nat, |i: int| fill::<W>(run_bit(p))));
        assert(decode_words(enc) == Some(expand(gs)));
    } else {
        assert(emit(gs) =~= Seq::<W>::empty());
    }
}

/// No words are encoded by no words.
pub proof fn lemma_empty_encoding<W: Word>()
    ensures
        canonical_encoding(Seq::<W>::empty()),
        decode_words(Seq::<W>::empty()) == Some(Seq::<W>::empty()),
{
    assert(parse(Seq::<W>::empty()) =~= Seq::<Group<W>>::empty());
    assert(emit(Seq::<Group<W>>::empty()) =~= Seq::<W>::empty());
}

/// The uniform words: the two fills differ, and each is uniform.
proof fn lemma_fills<W: Word>()
    ensures
        fill::<W>(true) != fill::<W>(false),
        uniform(fill::<W>(true)),
        uniform(fill::<W>(false)),
{
    W::lemma_word(W::ZERO);
}

/// The first word of groups whose first group starts with a run.
proof fn lemma_expand_front<W: Word>(gs: Seq<Group<W>>)
    requires
        gs.len() > 0,
        gs[0].1 > 0,
    ensures
        expand(gs).len() > 0,
        expand(gs)[0] == fill::<W>(gs[0].0),
{
    let g = gs[0];
    assert(expand(gs) == group_words(g) + expand(gs.drop_first()));
    assert(group_words(g)[0] == fill::<W>(g.0));
}

/// Canonical groups, without their first.
proof fn lemma_canonical_tail<W: Word>(gs: Seq<Group<W>>)
    requires
        canonical(gs),
        gs.len() > 0,
    ensures
        canonical(gs.drop_first()),
{
    let t = gs.drop_first();
    assert forall|i: int| 0 <= i < t.len() implies group_ok(#[trigger] t[i]) by {
        assert(t[i] == gs[i + 1]);
    }
    assert forall|i: int| 0 <= i < t.len() - 1 implies follows(#[trigger] t[i], t[i + 1]) by {
        assert(t[i] == gs[i + 1]);
        assert(t[i + 1] == gs[i + 2]);
    }
}

/// What the words of canonical groups tell of the first group: its run is
/// as long as the run at the front of the words, up to the longest a marker
/// counts; its literal words are the mixed words after the run, up to the
/// most a marker announces.
proof fn lemma_first_group<W: Word>(gs: Seq<Group<W>>)
    requires
        canonical(gs),
        gs.len() > 0,
    ensures
        ({
            let g = gs[0];
            let w = expand(gs);
            let r = g.1 as int;
            let l = g.2.len() as int;
            &&& group_ok(g)
            &&& w == group_words(g) + expand(gs.drop_first())
            &&& r + l <= w.len()
            &&& forall|i: int| 0 <= i < r ==> w[i] == fill::<W>(g.0)
            &&& w.subrange(r, r + l) == g.2
            &&& (r < max_run(W::BITS) && r < w.len() ==> w[r] != fill::<W>(g.0))
            &&& (l < max_lits(W::BITS) && r < max_run(W::BITS) && r + l < w.len() ==> uniform(w[r + l]))
        }),
{
    let g = gs[0];
    let t = gs.drop_first();
    let w = expand(gs);
    let gw = group_words(g);
    let r = g.1 as int;
    let l = g.2.len() as int;
    assert(group_ok(gs[0]));
    assert(w == gw + expand(t));
    assert(gw.len() == r + l);
    assert forall|i: int| 0 <= i < r implies w[i] == fill::<W>(g.0) by {
        assert(w[i] == gw[i]);
    }
    assert(w.subrange(r, r + l) =~= g.2) by {
        assert forall|i: int| 0 <= i < l implies w.subrange(r, r + l)[i] == g.2[i] by {
            assert(w[r + i] == gw[r + i]);
        }
    }
    lemma_fills::<W>();
    if r < max_run(W::BITS) && r < w.len() {
        if l > 0 {
            assert(w[r] == g.2[0]);
            assert(!uniform(g.2[0]));
        } else {
            assert(t.len() > 0);
            assert(follows(gs[0], gs[1]));
            assert(t[0] == gs[1]);
            lemma_expand_front(t);
            assert(w[r] == expand(t)[0]);
        }
    }
    if l < max_lits(W::BITS) && r < max_run(W::BITS) && r + l < w.len() {
        assert(t.len() > 0);
        assert(follows(gs[0], gs[1]));
        assert(t[0] == gs[1]);
        lemma_expand_front(t);
        assert(w[r + l] == expand(t)[0]);
    }
}

/// Two canonical sequences of groups that stand for the same words begin
/// with the same group.
proof fn lemma_same_first_group<W: Word>(gs1: Seq<Group<W>>, gs2: Seq<Group<W>>)
    requires
        canonical(gs1),
        canonical(gs2),
        gs1.len() > 0,
        gs2.len() > 0,
        expand(gs1) == expand(gs2),
    ensures
        gs1[0] == gs2[0],
{
    lemma_first_group(gs1);
    lemma_first_group(gs2);
    lemma_fills::<W>();
    let w = expand(gs1);
    let (b1, r1, l1) = gs1[0];
    let (b2, r2, l2) = gs2[0];
    let r1 = r1 as int;
    let r2 = r2 as int;
    // the runs have one length
    if r1 < r2 {
        assert(w[r1] == fill::<W>(b2));
        if r1 > 0 {
            assert(w[0] == fill::<W>(b1));
            assert(w[0] == fill::<W>(b2));
        } else {
            assert(w.subrange(0, l1.len() as int)[0] == l1[0]);
            assert(!uniform(l1[0]));
        }
    }
    if r2 < r1 {
        assert(w[r2] == fill::<W>(b1));
        if r2 > 0 {
            assert(w[0] == fill::<W>(b1));
            assert(w[0] == fill::<W>(b2));
        } else {
            assert(w.subrange(0, l2.len() as int)[0] == l2[0]);
            assert(!uniform(l2[0]));
        }
    }
    assert(r1 == r2);
    // and one bit
    if r1 > 0 {
        assert(w[0] == fill::<W>(b1));
        assert(w[0] == fill::<W>(b2));
    }
    assert(b1 == b2);
    // the literal words are as many
    let n1 = l1.len() as int;
    let n2 = l2.len() as int;
    if n1 < n2 {
        assert(w[r1 + n1] == w.subrange(r2, r2 + n2)[n1]);
        assert(!uniform(l2[n1]));
    }
    if n2 < n1 {
        assert(w[r2 + n2] == w.subrange(r1, r1 + n1)[n2]);
        assert(!uniform(l1[n2]));
    }
    assert(n1 == n2);
    assert(l1 == l2);
}

/// Canonical groups are fixed by the words they stand for.
proof fn lemma_canonical_groups_unique<W: Word>(gs1: Seq<Group<W>>, gs2: Seq<Group<W>>)
    requires
        canonical(gs1),
        canonical(gs2),
        expand(gs1) == expand(gs2),
    ensures
        gs1 == gs2,
    decreases gs1.len(),
{
    if gs1.len() == 0 && gs2.len() == 0 {
        assert(gs1 =~= gs2);
    } else if gs1.len() == 0 {
        lemma_first_group(gs2);
    } else if gs2.len() == 0 {
        lemma_first_group(gs1);
    } else {
        lemma_same_first_group(gs1, gs2);
        lemma_first_group(gs1);
        lemma_first_group(gs2);
        let g = gs1[0];
        let t1 = gs1.drop_first();
        let t2 = gs2.drop_first();
        let gw = group_words(g);
        assert(expand(t1) =~= expand(gs1).subrange(gw.len() as int, expand(gs1).len() as int));
        assert(expand(t2) =~= expand(gs2).subrange(gw.len() as int, expand(gs2).len() as int));
        lemma_canonical_tail(gs1);
        lemma_canonical_tail(gs2);
        lemma_canonical_groups_unique(t1, t2);
        assert forall|i: int| 0 <= i < gs1.len() implies gs1[i] == gs2[i] by {
            if i > 0 {
                assert(gs1[i] == t1[i - 1]);
                assert(gs2[i] == t2[i - 1]);
            }
        }
        assert(gs1 =~= gs2);
    }
}

/// A canonical encoding decodes to the words of its groups.
pub proof fn lemma_canonical_decodes<W: Word>(enc: Seq<W>)
    requires
        canonical_encoding(enc),
    ensures
        decode_words(enc) == Some(expand(parse(enc))),
{
    let gs = parse(enc);
    assert forall|i: int| 0 <= i < gs.len() implies group_fits(#[trigger] gs[i]) by {
        assert(group_ok(gs[i]));
    }
    lemma_parse_emit(gs);
}

/// Words have one canonical encoding: two canonical encodings that decode to
/// the same words are the same.
pub proof fn lemma_canonical_encoding_unique<W: Word>(e1: Seq<W>, e2: Seq<W>)
    requires
        canonical_encoding(e1),
        canonical_encoding(e2),
        decode_words(e1) == decode_words(e2),
    ensures
        e1 == e2,
{
    lemma_canonical_decodes(e1);
    lemma_canonical_decodes(e2);
    lemma_canonical_groups_unique(parse(e1), parse(e2));
}

} // verus!
