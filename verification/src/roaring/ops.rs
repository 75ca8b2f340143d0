use vstd::prelude::*;
use crate::bits::{bit, group_bits};
use super::store::{Store, ARRAY_LIMIT, BITMAP_BYTES, values_to_runs, run_starts, runs_pay};
use super::store::array::{ArrayStore, values_set, lemma_increasing_len};
use super::store::bitmap::{BitmapStore, BITMAP_WORDS, bitmap_set, lemma_bitmap_len};
use super::store::run::RunStore;

verus! {

broadcast use group_bits;

/// A set operation between two bitmaps.
#[derive(Clone, Copy)]
pub enum Operation {
    Union,
    Intersection,
    Difference,
    SymmetricDifference,
}

/// What the operation makes of two sets.
pub open spec fn apply(op: Operation, a: Set<int>, b: Set<int>) -> Set<int> {
    match op {
        Operation::Union => a.union(b),
        Operation::Intersection => a.intersect(b),
        Operation::Difference => a.difference(b),
        Operation::SymmetricDifference => a.difference(b).union(b.difference(a)),
    }
}

/// What the operation makes of one bit of each side.
pub open spec fn apply_bit(op: Operation, a: bool, b: bool) -> bool {
    match op {
        Operation::Union => a || b,
        Operation::Intersection => a && b,
        Operation::Difference => a && !b,
        Operation::SymmetricDifference => a != b,
    }
}

proof fn lemma_div64(x: int)
    requires
        0 <= x,
    ensures
        x == 64 * (x / 64) + x % 64,
        0 <= x % 64 < 64,
{
}

/// Combines two stores word by word and picks the form that suits the result.
pub fn combine(left: &Store, right: &Store, op: Operation) -> (r: Store)
    requires
        left.wf(),
        right.wf(),
    ensures
        r.wf(),
        r.size_policy(),
        r@ == apply(op, left@, right@),
        (r is Run) == (r@.len() > 0 && runs_pay(r@)),
{
    let a = left.clone().into_bitmap_store();
    let b = right.clone().into_bitmap_store();
    let aw = a.words();
    let bw = b.words();
    let mut words: Vec<u64> = Vec::new();
    let mut i: usize = 0;
    while i < BITMAP_WORDS
        invariant
            i <= BITMAP_WORDS,
            aw@.len() == BITMAP_WORDS,
            bw@.len() == BITMAP_WORDS,
            words@.len() == i,
            forall|k: int, j: u64| 0 <= k < i && j < 64 ==> #[trigger] bit(words@[k], j)
                == apply_bit(op, bit(aw@[k], j), bit(bw@[k], j)),
        decreases BITMAP_WORDS - i,
    {
        let x = aw[i];
        let y = bw[i];
        let w = match op {
            Operation::Union => x | y,
            Operation::Intersection => x & y,
            Operation::Difference => x & !y,
            Operation::SymmetricDifference => x ^ y,
        };
        words.push(w);
        i += 1;
    }
    let bitmap = BitmapStore::from_words(words);
    proof {
        assert(bitmap@ =~= apply(op, a@, b@)) by {
            assert forall|x: int| bitmap@.contains(x) <==> #[trigger] apply(op, a@, b@).contains(x) by {
                if 0 <= x < 0x10000 {
                    lemma_div64(x);
                    let k = x / 64;
                    let j = (x % 64) as u64;
                    assert(bit(bitmap.words_seq()[k], j) == apply_bit(op, bit(aw@[k], j), bit(bw@[k], j)));
                }
            }
        }
    }
    choose_store(bitmap)
}

/// Picks runs, an array or the bitmap, whichever takes fewest bytes for these values.
pub fn choose_store(bitmap: BitmapStore) -> (r: Store)
    requires
        bitmap.wf(),
    ensures
        r.wf(),
        r.size_policy(),
        r@ == bitmap@,
        bitmap@.len() == 0 ==> r is Array,
        (r is Run) == (bitmap@.len() > 0 && 2 + 4 * run_starts(bitmap@).len()
            < if 2 * bitmap@.len() < BITMAP_BYTES { 2 * bitmap@.len() as int } else { BITMAP_BYTES as int }),
        r is Bitmap ==> bitmap@.len() > ARRAY_LIMIT,
{
    proof { bitmap.lemma_view(); }
    let card = bitmap.len();
    if card == 0 {
        let r = Store::Array(ArrayStore::new());
        proof { assert(bitmap@ =~= Set::<int>::empty()); }
        return r;
    }
    let values = bitmap.iter();
    let runs = values_to_runs(&values);
    proof {
        lemma_increasing_len(values@);
        vstd::set_lib::lemma_len_subset(run_starts(values_set(values@)), values_set(values@));
    }
    let run_bytes = 2 + runs.len() * 4;
    let array_bytes = card as usize * 2;
    let limit = if array_bytes < BITMAP_BYTES { array_bytes } else { BITMAP_BYTES };
    if run_bytes < limit {
        Store::Run(RunStore::from_runs(runs))
    } else if card <= ARRAY_LIMIT {
        Store::Array(bitmap.into_array())
    } else {
        Store::Bitmap(bitmap)
    }
}

} // verus!
