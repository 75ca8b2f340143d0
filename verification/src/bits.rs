use vstd::prelude::*;

verus! {

/// Bit `j` of `w` is set.
pub open spec fn bit(w: u64, j: u64) -> bool {
    (w >> j) & 1u64 == 1u64
}

/// Number of set bits among the lowest `k` bits of `w`.
pub open spec fn pop(w: u64, k: int) -> nat
    decreases k,
{
    if k <= 0 {
        0
    } else {
        pop(w, k - 1) + if bit(w, (k - 1) as u64) { 1nat } else { 0nat }
    }
}

pub broadcast proof fn lemma_bit_or(a: u64, b: u64, j: u64)
    requires
        j < 64,
    ensures
        #[trigger] bit(a | b, j) == (bit(a, j) || bit(b, j)),
{
    assert(((a | b) >> j) & 1u64 == 1u64 <==> ((a >> j) & 1u64 == 1u64 || (b >> j) & 1u64 == 1u64))
        by (bit_vector)
        requires
            j < 64,
    ;
}

pub broadcast proof fn lemma_bit_and(a: u64, b: u64, j: u64)
    requires
        j < 64,
    ensures
        #[trigger] bit(a & b, j) == (bit(a, j) && bit(b, j)),
{
    assert(((a & b) >> j) & 1u64 == 1u64 <==> ((a >> j) & 1u64 == 1u64 && (b >> j) & 1u64 == 1u64))
        by (bit_vector)
        requires
            j < 64,
    ;
}

pub broadcast proof fn lemma_bit_xor(a: u64, b: u64, j: u64)
    requires
        j < 64,
    ensures
        #[trigger] bit(a ^ b, j) == (bit(a, j) != bit(b, j)),
{
    assert(((a ^ b) >> j) & 1u64 == 1u64 <==> ((a >> j) & 1u64 == 1u64) != ((b >> j) & 1u64 == 1u64))
        by (bit_vector)
        requires
            j < 64,
    ;
}

pub broadcast proof fn lemma_bit_not(a: u64, j: u64)
    requires
        j < 64,
    ensures
        #[trigger] bit(!a, j) == !bit(a, j),
{
    assert(((!a) >> j) & 1u64 == 1u64 <==> !((a >> j) & 1u64 == 1u64))
        by (bit_vector)
        requires
            j < 64,
    ;
}

pub broadcast proof fn lemma_bit_zero(j: u64)
    ensures
        !#[trigger] bit(0u64, j),
{
    assert(!((0u64 >> j) & 1u64 == 1u64)) by (bit_vector);
}

pub broadcast proof fn lemma_bit_max(j: u64)
    requires
        j < 64,
    ensures
        #[trigger] bit(0xffff_ffff_ffff_ffffu64, j),
{
    assert((0xffff_ffff_ffff_ffffu64 >> j) & 1u64 == 1u64) by (bit_vector)
        requires
            j < 64,
    ;
}

pub broadcast proof fn lemma_bit_single(i: u64, j: u64)
    requires
        i < 64,
        j < 64,
    ensures
        #[trigger] bit(1u64 << i, j) == (i == j),
{
    assert(((1u64 << i) >> j) & 1u64 == 1u64 <==> i == j) by (bit_vector)
        requires
            i < 64,
            j < 64,
    ;
}

pub broadcast group group_bits {
    lemma_bit_or,
    lemma_bit_and,
    lemma_bit_xor,
    lemma_bit_not,
    lemma_bit_zero,
    lemma_bit_max,
    lemma_bit_single,
}

/// The set bits of a word never outnumber its width.
pub proof fn lemma_pop_bound(w: u64, k: int)
    ensures
        pop(w, k) <= if k < 0 { 0 } else { k },
    decreases k,
{
    if k > 0 {
        lemma_pop_bound(w, k - 1);
    }
}

/// Counts the set bits of a word.
pub fn count_ones(w: u64) -> (r: u32)
    ensures
        r == pop(w, 64),
{
    let mut c: u32 = 0;
    let mut j: u64 = 0;
    while j < 64
        invariant
            j <= 64,
            c == pop(w, j as int),
        decreases 64 - j,
    {
        proof { lemma_pop_bound(w, j as int); }
        if (w >> j) & 1 == 1 {
            c += 1;
        }
        j += 1;
    }
    c
}

} // verus!
