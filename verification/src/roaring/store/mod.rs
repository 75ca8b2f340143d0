pub mod array;
pub mod bitmap;
pub mod run;

use vstd::prelude::*;
use array::{ArrayStore, increasing, values_set, closed_range, lemma_increasing_len};
use bitmap::{BitmapStore, BITMAP_WORDS};
use run::{Run, RunStore, normalized, runs_set, lemma_runs_len, lemma_runs_set_push, lemma_normalized_push};

verus! {

/// Largest number of values an array container holds.
pub const ARRAY_LIMIT: u32 = 4096;

/// Number of values one container covers.
pub const CONTAINER_BITS: usize = 65536;

/// Bits in one bitmap word.
pub const WORD_BITS: usize = 64;

/// Bytes taken by a bitmap container.
pub const BITMAP_BYTES: usize = 8192;

/// The values `x` of a set whose predecessor `x - 1` is not in it: the starts of its runs.
pub open spec fn run_starts(x: Set<int>) -> Set<int> {
    x.filter(|v: int| !x.contains(v - 1))
}

/// Runs of these values take fewer bytes than the array or the bitmap that
/// their number calls for.
pub open spec fn runs_pay(values: Set<int>) -> bool {
    2 + 4 * run_starts(values).len() < if values.len() <= ARRAY_LIMIT { 2 * values.len() as int } else { BITMAP_BYTES as int }
}

/// Runs of these values stay runs when a container settles its form: an
/// array would not be smaller within the array limit, and the runs take no
/// more bytes than a bitmap.
pub open spec fn keeps_runs(values: Set<int>) -> bool {
    &&& !(values.len() <= ARRAY_LIMIT && 2 * values.len() < 2 + 4 * run_starts(values).len())
    &&& 2 + 4 * run_starts(values).len() <= BITMAP_BYTES
}

/// Groups increasing values into maximal runs of consecutive values.
pub fn values_to_runs(values: &Vec<u16>) -> (r: Vec<Run>)
    requires
        increasing(values@),
    ensures
        normalized(r@),
        runs_set(r@) == values_set(values@),
        r@.len() == run_starts(values_set(values@)).len(),
{
    let ghost vs = values@;
    let mut out: Vec<Run> = Vec::new();
    if values.len() == 0 {
        proof {
            assert(values_set(vs) =~= Set::<int>::empty());
            assert(runs_set(out@) =~= Set::<int>::empty());
            assert(run_starts(values_set(vs)) =~= Set::<int>::empty());
        }
        return out;
    }
    let first = values[0];
    let mut a: u16 = first;
    let mut b: u16 = first;
    let mut i: usize = 1;
    proof {
        let p = vs.subrange(0, 1);
        assert(values_set(p) =~= Set::<int>::empty().insert(first as int)) by {
            assert(p[0] == first);
        }
        assert(runs_set(out@) =~= Set::<int>::empty());
        assert(run_starts(values_set(p)) =~= Set::<int>::empty().insert(first as int));
    }
    while i < values.len()
        invariant
            1 <= i <= vs.len(),
            values@ == vs,
            increasing(vs),
            a <= b,
            b == vs[i - 1],
            normalized(out@),
            forall|k: int| 0 <= k < out@.len() ==> out@[k].end + 1 < a,
            runs_set(out@).union(closed_range(a as int, b as int)) == values_set(vs.subrange(0, i as int)),
            out@.len() + 1 == run_starts(values_set(vs.subrange(0, i as int))).len(),
            run_starts(values_set(vs.subrange(0, i as int))).finite(),
        decreases vs.len() - i,
    {
        let v = values[i];
        let ghost p = vs.subrange(0, i as int);
        let ghost q = vs.subrange(0, i as int + 1);
        proof {
            assert(vs[i - 1] < vs[i as int]);
            assert(values_set(q) =~= values_set(p).insert(v as int)) by {
                assert forall|y: int| #[trigger] values_set(q).contains(y) <==> values_set(p).insert(v as int).contains(y) by {
                    if values_set(q).contains(y) {
                        let k = choose|k: int| 0 <= k < q.len() && q[k] as int == y;
                        if k < i {
                            assert(p[k] as int == y);
                        }
                    }
                    if values_set(p).contains(y) {
                        let k = choose|k: int| 0 <= k < p.len() && p[k] as int == y;
                        assert(q[k] as int == y);
                    }
                    if y == v {
                        assert(q[i as int] as int == y);
                    }
                }
            }
            assert forall|y: int| values_set(p).contains(y) implies y <= b by {
                let k = choose|k: int| 0 <= k < p.len() && p[k] as int == y;
                if k < i - 1 {
                    assert(vs[k] < vs[i - 1]);
                }
            }
            assert(values_set(p).contains(b as int)) by {
                assert(p[i - 1] == b);
            }
            let sp = run_starts(values_set(p));
            let sq = run_starts(values_set(q));
            if (b as u32) + 1 == v as u32 {
                assert(sq =~= sp);
            } else {
                assert(sq =~= sp.insert(v as int));
                assert(!sp.contains(v as int));
            }
        }
        if (b as u32) + 1 == v as u32 {
            b = v;
            proof {
                assert(runs_set(out@).union(closed_range(a as int, b as int)) =~= values_set(q));
            }
        } else {
            let ghost before = out@;
            let run = Run::new(a, b);
            out.push(run);
            proof {
                lemma_normalized_push(before, run);
                lemma_runs_set_push(before, run);
            }
            a = v;
            b = v;
            proof {
                assert(runs_set(out@).union(closed_range(a as int, b as int)) =~= values_set(q));
            }
        }
        i += 1;
    }
    let ghost before = out@;
    let run = Run::new(a, b);
    out.push(run);
    proof {
        lemma_normalized_push(before, run);
        lemma_runs_set_push(before, run);
        assert(vs.subrange(0, vs.len() as int) =~= vs);
    }
    out
}

/// One container's values, held in whichever form suits them.
#[derive(Debug)]
pub enum Store {
    Array(ArrayStore),
    Bitmap(BitmapStore),
    Run(RunStore),
}

impl Store {
    pub open spec fn wf(&self) -> bool {
        match self {
            Store::Array(s) => s.wf(),
            Store::Bitmap(s) => s.wf(),
            Store::Run(s) => s.wf(),
        }
    }

    pub open spec fn view(&self) -> Set<int> {
        match self {
            Store::Array(s) => s@,
            Store::Bitmap(s) => s@,
            Store::Run(s) => s@,
        }
    }

    /// The bytes the store's form takes for its values.
    pub open spec fn size_policy(&self) -> bool {
        match self {
            Store::Array(s) => s@.len() <= ARRAY_LIMIT,
            Store::Bitmap(s) => s@.len() > ARRAY_LIMIT,
            Store::Run(_) => true,
        }
    }

    pub proof fn lemma_view(&self)
        requires
            self.wf(),
        ensures
            self@.finite(),
            self@.len() <= 0x10000,
            forall|x: int| self@.contains(x) ==> 0 <= x < 0x10000,
    {
        match self {
            Store::Array(s) => { s.lemma_view(); }
            Store::Bitmap(s) => { s.lemma_view(); }
            Store::Run(s) => { s.lemma_view(); }
        }
    }

    pub fn singleton(v: u16) -> (r: Self)
        ensures
            r.wf(),
            r@ == Set::<int>::empty().insert(v as int),
            r is Array,
    {
        Store::Array(ArrayStore::singleton(v))
    }

    pub fn len(&self) -> (r: u32)
        requires
            self.wf(),
        ensures
            r == self@.len(),
    {
        match self {
            Store::Array(s) => s.len(),
            Store::Bitmap(s) => s.len(),
            Store::Run(s) => s.len(),
        }
    }

    pub fn is_empty(&self) -> (r: bool)
        requires
            self.wf(),
        ensures
            r == (self@.len() == 0),
    {
        self.len() == 0
    }

    pub fn contains(&self, v: u16) -> (r: bool)
        requires
            self.wf(),
        ensures
            r == self@.contains(v as int),
    {
        match self {
            Store::Array(s) => s.contains(v),
            Store::Bitmap(s) => s.contains(v),
            Store::Run(s) => s.contains(v),
        }
    }

    pub fn insert(&mut self, v: u16) -> (r: bool)
        requires
            old(self).wf(),
        ensures
            final(self).wf(),
            final(self)@ == old(self)@.insert(v as int),
            r == !old(self)@.contains(v as int),
            (*final(self) is Array) == (*old(self) is Array),
            (*final(self) is Bitmap) == (*old(self) is Bitmap),
    {
        match self {
            Store::Array(s) => s.insert(v),
            Store::Bitmap(s) => s.insert(v),
            Store::Run(s) => s.insert(v),
        }
    }

    pub fn remove(&mut self, v: u16) -> (r: bool)
        requires
            old(self).wf(),
        ensures
            final(self).wf(),
            final(self)@ == old(self)@.remove(v as int),
            r == old(self)@.contains(v as int),
            (*final(self) is Array) == (*old(self) is Array),
            (*final(self) is Bitmap) == (*old(self) is Bitmap),
    {
        match self {
            Store::Array(s) => s.remove(v),
            Store::Bitmap(s) => s.remove(v),
            Store::Run(s) => s.remove(v),
        }
    }

    pub fn insert_range(&mut self, a: u16, b: u16) -> (r: u32)
        requires
            old(self).wf(),
            a <= b,
        ensures
            final(self).wf(),
            final(self)@ == old(self)@.union(closed_range(a as int, b as int)),
            r == final(self)@.len() - old(self)@.len(),
            (*final(self) is Array) == (*old(self) is Array),
            (*final(self) is Bitmap) == (*old(self) is Bitmap),
    {
        match self {
            Store::Array(s) => s.insert_range(a, b),
            Store::Bitmap(s) => s.insert_range(a, b),
            Store::Run(s) => s.insert_range(a, b),
        }
    }

    pub fn remove_range(&mut self, a: u16, b: u16) -> (r: u32)
        requires
            old(self).wf(),
            a <= b,
        ensures
            final(self).wf(),
            final(self)@ == old(self)@.difference(closed_range(a as int, b as int)),
            r == old(self)@.len() - final(self)@.len(),
            (*final(self) is Array) == (*old(self) is Array),
            (*final(self) is Bitmap) == (*old(self) is Bitmap),
    {
        match self {
            Store::Array(s) => s.remove_range(a, b),
            Store::Bitmap(s) => s.remove_range(a, b),
            Store::Run(s) => s.remove_range(a, b),
        }
    }

    /// The values in increasing order.
    pub fn iter(&self) -> (r: Vec<u16>)
        requires
            self.wf(),
        ensures
            increasing(r@),
            values_set(r@) == self@,
    {
        match self {
            Store::Array(s) => s.iter(),
            Store::Bitmap(s) => s.iter(),
            Store::Run(s) => s.iter(),
        }
    }

    pub fn into_bitmap_store(self) -> (r: BitmapStore)
        requires
            self.wf(),
        ensures
            r.wf(),
            r@ == self@,
    {
        match self {
            Store::Array(s) => BitmapStore::from_array(s),
            Store::Bitmap(s) => s,
            Store::Run(s) => {
                let mut b = BitmapStore::new();
                let runs = s.runs();
                let ghost rs = runs@;
                let mut k: usize = 0;
                proof {
                    assert(rs.subrange(0, 0) =~= Seq::<Run>::empty());
                    assert(runs_set(Seq::<Run>::empty()) =~= Set::<int>::empty());
                }
                while k < runs.len()
                    invariant
                        k <= rs.len(),
                        runs@ == rs,
                        normalized(rs),
                        b.wf(),
                        b@ == runs_set(rs.subrange(0, k as int)),
                    decreases rs.len() - k,
                {
                    let r = runs[k];
                    proof {
                        assert(rs[k as int].start <= rs[k as int].end);
                        assert(rs.subrange(0, k + 1) =~= rs.subrange(0, k as int).push(r));
                        lemma_runs_set_push(rs.subrange(0, k as int), r);
                    }
                    b.insert_range(r.start, r.end);
                    k += 1;
                }
                proof { assert(rs.subrange(0, rs.len() as int) =~= rs); }
                b
            }
        }
    }

    pub fn into_bitmap(self) -> (r: Self)
        requires
            self.wf(),
        ensures
            r.wf(),
            r@ == self@,
            r is Bitmap,
    {
        Store::Bitmap(self.into_bitmap_store())
    }

    pub fn into_array(self) -> (r: Self)
        requires
            self.wf(),
        ensures
            r.wf(),
            r@ == self@,
            r is Array,
    {
        match self {
            Store::Array(s) => Store::Array(s),
            Store::Bitmap(s) => Store::Array(s.into_array()),
            Store::Run(s) => Store::Array(ArrayStore::from_sorted_values(s.iter())),
        }
    }

    /// Switches to runs when they take fewer bytes than the current form; a run
    /// store stays as it is.
    pub fn run_optimize(&mut self) -> (r: bool)
        requires
            old(self).wf(),
        ensures
            final(self).wf(),
            final(self)@ == old(self)@,
            r == old(self).would_run(),
            r ==> *final(self) is Run,
            !r ==> *final(self) == *old(self),
    {
        let values = self.iter();
        let runs = values_to_runs(&values);
        let ghost n_runs = runs@.len();
        let current: usize = match self {
            Store::Array(s) => {
                proof { s.lemma_view(); }
                s.len() as usize * 2
            }
            Store::Bitmap(_) => BITMAP_BYTES,
            Store::Run(_) => {
                return true;
            }
        };
        proof {
            lemma_increasing_len(values@);
            vstd::set_lib::lemma_len_subset(run_starts(values_set(values@)), values_set(values@));
        }
        let bytes = 2 + runs.len() * 4;
        if bytes < current {
            *self = Store::Run(RunStore::from_runs(runs));
            true
        } else {
            false
        }
    }

    /// `run_optimize` keeps this store as runs or turns it into runs.
    pub open spec fn would_run(&self) -> bool {
        self is Run || 2 + 4 * run_starts(self@).len() < self.byte_size()
    }

    /// A store in the form its size calls for is turned into runs exactly
    /// when it is runs already or runs would pay.
    pub proof fn lemma_would_run(&self)
        requires
            self.wf(),
            self.size_policy(),
        ensures
            self.would_run() == (self is Run || runs_pay(self@)),
    {
    }

    /// Bytes the array or bitmap form takes.
    pub open spec fn byte_size(&self) -> int {
        match self {
            Store::Array(s) => 2 * (s@.len() as int),
            Store::Bitmap(_) => BITMAP_BYTES as int,
            Store::Run(_) => 0,
        }
    }

    /// Checks the store's own invariant and that its form suits its size.
    pub fn validate(&self) -> (r: bool)
        requires
            self.shaped(),
        ensures
            r == (self.wf() && self.size_policy()),
    {
        match self {
            Store::Array(s) => {
                let ok = s.validate();
                if !ok {
                    return false;
                }
                s.len() <= ARRAY_LIMIT
            }
            Store::Bitmap(s) => {
                let ok = s.validate();
                if !ok {
                    return false;
                }
                s.len() > ARRAY_LIMIT
            }
            Store::Run(s) => s.validate(),
        }
    }

    /// The bitmap form has its 1024 words.
    pub open spec fn shaped(&self) -> bool {
        match self {
            Store::Bitmap(s) => s.shaped(),
            _ => true,
        }
    }
}

impl Clone for Store {
    fn clone(&self) -> (r: Self)
        ensures
            r.wf() == self.wf(),
            r@ == self@,
            (r is Array) == (self is Array),
            (r is Bitmap) == (self is Bitmap),
            (r is Run) == (self is Run),
            r.shaped() == self.shaped(),
            r.size_policy() == self.size_policy(),
    {
        match self {
            Store::Array(s) => Store::Array(s.clone()),
            Store::Bitmap(s) => Store::Bitmap(s.clone()),
            Store::Run(s) => Store::Run(s.clone()),
        }
    }
}

} // verus!
