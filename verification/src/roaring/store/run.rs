use vstd::prelude::*;
use super::array::{increasing, values_set, closed_range, lemma_closed_range, lemma_increasing_len};
use super::run_starts;

verus! {

/// The values from `start` through `end`.
#[derive(Debug, Clone, Copy, PartialEq, Eq, Structural)]
pub struct Run {
    pub start: u16,
    pub end: u16,
}

impl Run {
    pub open spec fn view(&self) -> Set<int> {
        closed_range(self.start as int, self.end as int)
    }

    pub fn new(start: u16, end: u16) -> (r: Self)
        requires
            start <= end,
        ensures
            r.start == start,
            r.end == end,
    {
        Run { start, end }
    }

    pub fn len(self) -> (r: u32)
        requires
            self.start <= self.end,
        ensures
            r == self.end - self.start + 1,
            r == self@.len(),
    {
        proof { lemma_closed_range(self.start as int, self.end as int); }
        (self.end as u32) - (self.start as u32) + 1
    }

    pub fn contains(self, value: u16) -> (r: bool)
        ensures
            r == self@.contains(value as int),
    {
        self.start <= value && value <= self.end
    }
}

/// Every run is ordered, and each ends more than one value before the next begins.
pub open spec fn normalized(s: Seq<Run>) -> bool {
    &&& forall|i: int| 0 <= i < s.len() ==> (#[trigger] s[i]).start <= s[i].end
    &&& forall|i: int, j: int| 0 <= i < j < s.len() ==> s[i].end + 1 < s[j].start
}

/// The values covered by the runs.
pub open spec fn runs_set(s: Seq<Run>) -> Set<int> {
    Set::new(|x: int| exists|i: int| #![trigger s[i]] 0 <= i < s.len() && s[i].start <= x <= s[i].end)
}

/// Sum of the run lengths.
pub open spec fn runs_card(s: Seq<Run>) -> nat
    decreases s.len(),
{
    if s.len() == 0 {
        0
    } else {
        runs_card(s.drop_last()) + ((s.last().end - s.last().start + 1) as nat)
    }
}

/// Normalized runs cover as many values as their lengths add up to.
pub proof fn lemma_runs_len(s: Seq<Run>)
    requires
        normalized(s),
    ensures
        runs_set(s).finite(),
        runs_set(s).len() == runs_card(s),
        runs_card(s) <= 0x10000,
        forall|x: int| runs_set(s).contains(x) ==> 0 <= x < 0x10000,
    decreases s.len(),
{
    if s.len() == 0 {
        assert(runs_set(s) =~= Set::empty());
    } else {
        let t = s.drop_last();
        let l = s.last();
        assert(normalized(t)) by {
            assert forall|i: int| 0 <= i < t.len() implies (#[trigger] t[i]).start <= t[i].end by {
                assert(s[i].start <= s[i].end);
            }
        }
        lemma_runs_len(t);
        assert(s[s.len() - 1].start <= s[s.len() - 1].end);
        lemma_closed_range(l.start as int, l.end as int);
        assert forall|x: int| runs_set(s).contains(x) <==> #[trigger] runs_set(t).union(l@).contains(x) by {
            if runs_set(s).contains(x) {
                let k = choose|k: int| #![trigger s[k]] 0 <= k < s.len() && s[k].start <= x <= s[k].end;
                if k < t.len() {
                    assert(t[k] == s[k]);
                }
            }
            if runs_set(t).contains(x) {
                let k = choose|k: int| #![trigger t[k]] 0 <= k < t.len() && t[k].start <= x <= t[k].end;
                assert(s[k] == t[k]);
            }
            if l@.contains(x) {
                assert(s[s.len() - 1] == l);
            }
        }
        assert(runs_set(s) =~= runs_set(t).union(l@));
        assert(runs_set(t).disjoint(l@)) by {
            assert forall|x: int| runs_set(t).contains(x) implies !l@.contains(x) by {
                let k = choose|k: int| #![trigger t[k]] 0 <= k < t.len() && t[k].start <= x <= t[k].end;
                assert(s[k].end + 1 < s[s.len() - 1].start);
            }
        }
        vstd::set_lib::lemma_set_disjoint_lens(runs_set(t), l@);
        vstd::set_lib::lemma_int_range(0, 0x10000);
        assert(runs_set(s).subset_of(vstd::set_lib::set_int_range(0, 0x10000)));
        vstd::set_lib::lemma_len_subset(runs_set(s), vstd::set_lib::set_int_range(0, 0x10000));
    }
}

/// Each normalized run starts one maximal run of the values they cover.
pub proof fn lemma_runs_starts(s: Seq<Run>)
    requires
        normalized(s),
    ensures
        run_starts(runs_set(s)).finite(),
        run_starts(runs_set(s)).len() == s.len(),
    decreases s.len(),
{
    if s.len() == 0 {
        assert(runs_set(s) =~= Set::<int>::empty());
        assert(run_starts(runs_set(s)) =~= Set::<int>::empty());
    } else {
        let t = s.drop_last();
        let l = s.last();
        assert(normalized(t)) by {
            assert forall|i: int| 0 <= i < t.len() implies (#[trigger] t[i]).start <= t[i].end by {
                assert(s[i].start <= s[i].end);
            }
        }
        lemma_runs_starts(t);
        assert(t.push(l) =~= s);
        lemma_runs_set_push(t, l);
        let xs = runs_set(s);
        let xt = runs_set(t);
        assert(l.start <= l.end) by { assert(s[s.len() - 1].start <= s[s.len() - 1].end); }
        assert forall|x: int| xt.contains(x) implies x + 1 < l.start by {
            let k = choose|k: int| #![trigger t[k]] 0 <= k < t.len() && t[k].start <= x <= t[k].end;
            assert(s[k].end + 1 < s[s.len() - 1].start);
        }
        assert forall|x: int| #[trigger] run_starts(xs).contains(x) <==> run_starts(xt).insert(l.start as int).contains(x) by {
            if x == l.start {
                assert(xs.contains(x));
                assert(!xt.contains(x - 1));
            } else if xt.contains(x) {
                assert(!l@.contains(x - 1));
            } else if l@.contains(x) {
                assert(l@.contains(x - 1));
            }
        }
        assert(run_starts(xs) =~= run_starts(xt).insert(l.start as int));
        assert(!run_starts(xt).contains(l.start as int));
    }
}

/// Normalized runs cover at least one value each.
pub proof fn lemma_runs_card_count(s: Seq<Run>)
    requires
        normalized(s),
    ensures
        runs_card(s) >= s.len(),
    decreases s.len(),
{
    if s.len() > 0 {
        let t = s.drop_last();
        assert(normalized(t)) by {
            assert forall|i: int| 0 <= i < t.len() implies (#[trigger] t[i]).start <= t[i].end by {
                assert(s[i].start <= s[i].end);
            }
        }
        lemma_runs_card_count(t);
        assert(s[s.len() - 1].start <= s[s.len() - 1].end);
    }
}

/// Checks that the runs are ordered and separated.
pub fn runs_are_normalized(runs: &Vec<Run>) -> (r: bool)
    ensures
        r == normalized(runs@),
{
    let n = runs.len();
    let mut i: usize = 0;
    while i < n
        invariant
            i <= n == runs@.len(),
            forall|k: int| 0 <= k < i ==> (#[trigger] runs@[k]).start <= runs@[k].end,
            forall|a: int, b: int| 0 <= a < b < i ==> runs@[a].end + 1 < runs@[b].start,
        decreases n - i,
    {
        if runs[i].start > runs[i].end {
            return false;
        }
        if i > 0 && (runs[i - 1].end as u32) + 1 >= runs[i].start as u32 {
            assert(!normalized(runs@)) by {
                assert(runs@[i - 1].end + 1 >= runs@[i as int].start);
            }
            return false;
        }
        proof {
            assert forall|a: int, b: int| 0 <= a < b < i + 1 implies runs@[a].end + 1 < runs@[b].start by {
                if b == i && a < i - 1 {
                    assert(runs@[a].end + 1 < runs@[i - 1].start);
                    assert(runs@[i - 1].start <= runs@[i - 1].end);
                }
            }
        }
        i += 1;
    }
    true
}

/// Appending a run adds its values.
pub proof fn lemma_runs_set_push(t: Seq<Run>, r: Run)
    ensures
        runs_set(t.push(r)) == runs_set(t).union(r@),
{
    let s = t.push(r);
    assert forall|x: int| runs_set(s).contains(x) <==> #[trigger] runs_set(t).union(r@).contains(x) by {
        if runs_set(s).contains(x) {
            let k = choose|k: int| #![trigger s[k]] 0 <= k < s.len() && s[k].start <= x <= s[k].end;
            if k < t.len() {
                assert(t[k] == s[k]);
            }
        }
        if runs_set(t).contains(x) {
            let k = choose|k: int| #![trigger t[k]] 0 <= k < t.len() && t[k].start <= x <= t[k].end;
            assert(s[k] == t[k]);
        }
        if r@.contains(x) {
            assert(s[t.len() as int] == r);
        }
    }
    assert(runs_set(s) =~= runs_set(t).union(r@));
}

/// One more run of a normalized list adds values disjoint from the earlier ones.
pub proof fn lemma_prefix_step(s: Seq<Run>, k: int)
    requires
        normalized(s),
        0 <= k < s.len(),
    ensures
        runs_set(s.subrange(0, k + 1)) == runs_set(s.subrange(0, k)).union(s[k]@),
        runs_set(s.subrange(0, k)).disjoint(s[k]@),
{
    assert(s.subrange(0, k + 1) =~= s.subrange(0, k).push(s[k]));
    lemma_runs_set_push(s.subrange(0, k), s[k]);
    assert forall|x: int| runs_set(s.subrange(0, k)).contains(x) implies !s[k]@.contains(x) by {
        let t = s.subrange(0, k);
        let i = choose|i: int| #![trigger t[i]] 0 <= i < t.len() && t[i].start <= x <= t[i].end;
        assert(t[i] == s[i]);
        assert(s[i].end + 1 < s[k].start);
    }
}

/// A normalized list with one more run after its last stays normalized.
pub proof fn lemma_normalized_push(t: Seq<Run>, r: Run)
    requires
        normalized(t),
        r.start <= r.end,
        forall|i: int| 0 <= i < t.len() ==> t[i].end + 1 < r.start,
    ensures
        normalized(t.push(r)),
{
    let s = t.push(r);
    assert forall|i: int| 0 <= i < s.len() implies (#[trigger] s[i]).start <= s[i].end by {
        if i < t.len() {
            assert(s[i] == t[i]);
            assert(t[i].start <= t[i].end);
        }
    }
    assert forall|i: int, j: int| 0 <= i < j < s.len() implies s[i].end + 1 < s[j].start by {
        assert(s[i] == t[i]);
        if j < t.len() {
            assert(s[j] == t[j]);
        }
    }
}

/// A closed range that misses a set meets nothing of it.
proof fn lemma_empty_intersect(a: Set<int>, b: Set<int>)
    requires
        forall|x: int| a.contains(x) ==> !b.contains(x),
    ensures
        a.intersect(b) == Set::<int>::empty(),
{
    assert(a.intersect(b) =~= Set::<int>::empty());
}

/// A container's values as a list of runs.
#[derive(Debug)]
pub struct RunStore {
    runs: Vec<Run>,
    cardinality: u32,
}

impl RunStore {
    pub closed spec fn runs_seq(&self) -> Seq<Run> {
        self.runs@
    }

    pub closed spec fn cardinality_field(&self) -> u32 {
        self.cardinality
    }

    pub open spec fn wf(&self) -> bool {
        &&& normalized(self.runs_seq())
        &&& self.cardinality_field() == runs_card(self.runs_seq())
    }

    pub open spec fn view(&self) -> Set<int> {
        runs_set(self.runs_seq())
    }

    pub proof fn lemma_view(&self)
        requires
            self.wf(),
        ensures
            self@.finite(),
            self@.len() == self.cardinality_field(),
            self@.len() <= 0x10000,
            forall|x: int| self@.contains(x) ==> 0 <= x < 0x10000,
    {
        lemma_runs_len(self.runs_seq());
    }

    pub fn new() -> (r: Self)
        ensures
            r.wf(),
            r@ == Set::<int>::empty(),
    {
        let r = RunStore { runs: Vec::new(), cardinality: 0 };
        assert(r@ =~= Set::<int>::empty());
        r
    }

    /// One run covering `start` through `end`.
    pub fn from_range(start: u16, end: u16) -> (r: Self)
        requires
            start <= end,
        ensures
            r.wf(),
            r@ == closed_range(start as int, end as int),
    {
        let run = Run::new(start, end);
        let mut runs = Vec::new();
        runs.push(run);
        let r = RunStore { runs, cardinality: run.len() };
        proof {
            lemma_normalized_push(Seq::<Run>::empty(), run);
            assert(runs_card(Seq::<Run>::empty()) == 0);
            assert(r.runs_seq() =~= Seq::<Run>::empty().push(run));
            assert(r.runs_seq().drop_last() =~= Seq::<Run>::empty());
            assert(r.runs_seq()[0] == run);
            assert(r@ =~= closed_range(start as int, end as int));
        }
        r
    }

    /// Wraps runs that are already normalized, summing their lengths.
    pub fn from_runs(runs: Vec<Run>) -> (r: Self)
        requires
            normalized(runs@),
        ensures
            r.wf(),
            r.runs_seq() == runs@,
    {
        let mut cardinality: u32 = 0;
        let mut i: usize = 0;
        while i < runs.len()
            invariant
                i <= runs@.len(),
                normalized(runs@),
                cardinality == runs_card(runs@.subrange(0, i as int)),
            decreases runs@.len() - i,
        {
            proof {
                let p = runs@.subrange(0, i as int + 1);
                assert(p.drop_last() =~= runs@.subrange(0, i as int));
                assert(normalized(p)) by {
                    assert forall|k: int| 0 <= k < p.len() implies (#[trigger] p[k]).start <= p[k].end by {
                        assert(p[k] == runs@[k]);
                        assert(runs@[k].start <= runs@[k].end);
                    }
                }
                lemma_runs_len(p);
                assert(runs@[i as int].start <= runs@[i as int].end);
            }
            cardinality = cardinality + runs[i].len();
            i += 1;
        }
        proof { assert(runs@.subrange(0, i as int) =~= runs@); }
        RunStore { runs, cardinality }
    }

    pub fn len(&self) -> (r: u32)
        requires
            self.wf(),
        ensures
            r == self@.len(),
    {
        proof { self.lemma_view(); }
        self.cardinality
    }

    pub fn is_empty(&self) -> (r: bool)
        requires
            self.wf(),
        ensures
            r == (self@.len() == 0),
    {
        proof { self.lemma_view(); }
        self.cardinality == 0
    }

    pub fn run_count(&self) -> (r: usize)
        ensures
            r == self.runs_seq().len(),
    {
        self.runs.len()
    }

    pub fn runs(&self) -> (r: &Vec<Run>)
        ensures
            r@ == self.runs_seq(),
    {
        &self.runs
    }

    pub fn contains(&self, value: u16) -> (r: bool)
        requires
            self.wf(),
        ensures
            r == self@.contains(value as int),
    {
        let mut lo: usize = 0;
        let mut hi: usize = self.runs.len();
        while lo < hi
            invariant
                lo <= hi <= self.runs@.len(),
                normalized(self.runs@),
                forall|i: int| 0 <= i < lo ==> self.runs@[i].end < value,
                forall|i: int| hi <= i < self.runs@.len() ==> self.runs@[i].start > value,
            decreases hi - lo,
        {
            let mid = lo + (hi - lo) / 2;
            let run = self.runs[mid];
            if value < run.start {
                proof {
                    assert forall|i: int| mid <= i < self.runs@.len() implies self.runs@[i].start > value by {
                        if i > mid {
                            assert(self.runs@[mid as int].end + 1 < self.runs@[i].start);
                            assert(self.runs@[mid as int].start <= self.runs@[mid as int].end);
                        }
                    }
                }
                hi = mid;
            } else if value > run.end {
                proof {
                    assert forall|i: int| 0 <= i <= mid implies self.runs@[i].end < value by {
                        if i < mid {
                            assert(self.runs@[i].end + 1 < self.runs@[mid as int].start);
                        }
                    }
                }
                lo = mid + 1;
            } else {
                proof { assert(self@.contains(value as int)) by { assert(self.runs@[mid as int] == run); } }
                return true;
            }
        }
        proof {
            assert forall|i: int| 0 <= i < self.runs@.len() implies !(#[trigger] self.runs@[i].start <= value <= self.runs@[i].end) by {
                if i >= hi {
                } else {
                }
            }
        }
        false
    }

    /// Adds every value from `start` through `end`, merging the runs it meets;
    /// returns how many values were new.
    pub fn insert_range(&mut self, start: u16, end: u16) -> (r: u32)
        requires
            old(self).wf(),
            start <= end,
        ensures
            final(self).wf(),
            final(self)@ == old(self)@.union(closed_range(start as int, end as int)),
            r == final(self)@.len() - old(self)@.len(),
    {
        let ghost old_runs = self.runs@;
        let ghost s = start as int;
        let ghost e = end as int;
        let ghost rr = closed_range(s, e);
        proof {
            lemma_runs_len(old_runs);
            lemma_closed_range(s, e);
            assert(old_runs.subrange(0, 0) =~= Seq::<Run>::empty());
            assert(runs_set(Seq::<Run>::empty()) =~= Set::<int>::empty());
            assert(rr.intersect(Set::<int>::empty()) =~= Set::<int>::empty());
            assert(runs_set(Seq::<Run>::empty()).union(closed_range(s, e)) =~= Set::<int>::empty().union(rr));
        }
        let mut merged_start: u32 = start as u32;
        let mut merged_end: u32 = end as u32;
        let requested = merged_end - merged_start + 1;
        let mut overlap: u32 = 0;
        let mut output: Vec<Run> = Vec::new();
        let mut inserted = false;
        let n = self.runs.len();
        let mut k: usize = 0;
        while k < n
            invariant
                k <= n == old_runs.len(),
                self.runs@ == old_runs,
                normalized(old_runs),
                rr == closed_range(s, e),
                s == start as int,
                e == end as int,
                s <= e,
                rr.finite(),
                rr.len() == e - s + 1,
                merged_start <= s,
                e <= merged_end <= 0xffff,
                normalized(output@),
                forall|i: int, j: int| 0 <= i < output@.len() && k <= j < n ==> output@[i].end + 1 < old_runs[j].start,
                overlap == rr.intersect(runs_set(old_runs.subrange(0, k as int))).len(),
                !inserted ==> forall|i: int| 0 <= i < output@.len() ==> output@[i].end + 1 < merged_start,
                !inserted ==> runs_set(output@).union(closed_range(merged_start as int, merged_end as int))
                    == runs_set(old_runs.subrange(0, k as int)).union(rr),
                !inserted && merged_start < s ==> forall|j: int| k <= j < n ==> old_runs[j].start >= s,
                !inserted && merged_end > e ==> forall|j: int| k <= j < n ==> old_runs[j].start > merged_end + 1,
                inserted ==> runs_set(output@) == runs_set(old_runs.subrange(0, k as int)).union(rr),
                inserted ==> forall|j: int| k <= j < n ==> old_runs[j].start > merged_end + 1,
            decreases n - k,
        {
            let run = self.runs[k];
            let run_start = run.start as u32;
            let run_end = run.end as u32;
            let ghost prefix = old_runs.subrange(0, k as int);
            proof {
                lemma_prefix_step(old_runs, k as int);
                assert(old_runs[k as int].start <= old_runs[k as int].end);
                lemma_runs_len(prefix);
                lemma_closed_range(run_start as int, run_end as int);
            }
            if run_end + 1 < merged_start {
                let ghost before = output@;
                output.push(run);
                proof {
                    assert(!inserted);
                    lemma_normalized_push(before, run);
                    lemma_runs_set_push(before, run);
                    lemma_empty_intersect(rr, run@);
                    assert(rr.intersect(runs_set(old_runs.subrange(0, k + 1)))
                        =~= rr.intersect(runs_set(prefix)));
                    assert forall|i: int, j: int| 0 <= i < output@.len() && k + 1 <= j < n implies
                        output@[i].end + 1 < old_runs[j].start by {
                        if i < before.len() {
                            assert(output@[i] == before[i]);
                        } else {
                            assert(old_runs[k as int].end + 1 < old_runs[j].start);
                        }
                    }
                    let m = closed_range(merged_start as int, merged_end as int);
                    assert(runs_set(before).union(m) == runs_set(prefix).union(rr));
                    assert(runs_set(output@) == runs_set(before).union(run@));
                    assert(runs_set(old_runs.subrange(0, k + 1)) == runs_set(prefix).union(run@));
                    assert forall|x: int| #[trigger] runs_set(output@).union(m).contains(x) <==> runs_set(old_runs.subrange(0, k + 1)).union(rr).contains(x) by {
                        assert(runs_set(before).union(m).contains(x) == runs_set(prefix).union(rr).contains(x));
                    }
                    assert(runs_set(output@).union(closed_range(merged_start as int, merged_end as int))
                        =~= runs_set(old_runs.subrange(0, k + 1)).union(rr));
                }
            } else if merged_end + 1 < run_start {
                let ghost before = output@;
                if !inserted {
                    let m = Run::new(merged_start as u16, merged_end as u16);
                    output.push(m);
                    proof {
                        lemma_normalized_push(before, m);
                        lemma_runs_set_push(before, m);
                        assert(m@ == closed_range(merged_start as int, merged_end as int));
                    }
                    inserted = true;
                }
                let ghost mid = output@;
                output.push(run);
                proof {
                    assert forall|i: int| 0 <= i < mid.len() implies mid[i].end + 1 < run.start by {
                        if i < before.len() {
                            assert(mid[i] == before[i]);
                        }
                    }
                    lemma_normalized_push(mid, run);
                    lemma_runs_set_push(mid, run);
                    lemma_empty_intersect(rr, run@);
                    assert(rr.intersect(runs_set(old_runs.subrange(0, k + 1)))
                        =~= rr.intersect(runs_set(prefix)));
                    assert forall|i: int, j: int| 0 <= i < output@.len() && k + 1 <= j < n implies
                        output@[i].end + 1 < old_runs[j].start by {
                        assert(old_runs[k as int].end + 1 < old_runs[j].start);
                        if i < before.len() {
                            assert(output@[i] == before[i]);
                        }
                    }
                    assert(runs_set(output@) =~= runs_set(old_runs.subrange(0, k + 1)).union(rr));
                    assert forall|j: int| k + 1 <= j < n implies old_runs[j].start > merged_end + 1 by {
                        assert(old_runs[k as int].end + 1 < old_runs[j].start);
                    }
                }
            } else {
                let intersection_start = if merged_start > run_start { merged_start } else { run_start };
                let intersection_end = if merged_end < run_end { merged_end } else { run_end };
                proof {
                    assert(!inserted);
                    assert(merged_end == e);
                    assert(merged_start < s ==> run_start >= s);
                    assert(rr.intersect(run@) =~= closed_range(intersection_start as int, intersection_end as int));
                    lemma_closed_range(intersection_start as int, intersection_end as int);
                    assert(rr.intersect(runs_set(old_runs.subrange(0, k + 1)))
                        =~= rr.intersect(runs_set(prefix)).union(rr.intersect(run@)));
                    assert(rr.intersect(runs_set(prefix)).disjoint(rr.intersect(run@)));
                    vstd::set_lib::lemma_set_disjoint_lens(rr.intersect(runs_set(prefix)), rr.intersect(run@));
                    vstd::set_lib::lemma_len_subset(rr.intersect(runs_set(old_runs.subrange(0, k + 1))), rr);
                }
                if intersection_start <= intersection_end {
                    overlap = overlap + (intersection_end - intersection_start + 1);
                }
                let ghost old_ms = merged_start;
                let ghost old_me = merged_end;
                proof {
                    assert(runs_set(output@).union(closed_range(old_ms as int, old_me as int))
                        == runs_set(prefix).union(rr));
                }
                merged_start = if merged_start < run_start { merged_start } else { run_start };
                merged_end = if merged_end > run_end { merged_end } else { run_end };
                proof {
                    assert(closed_range(merged_start as int, merged_end as int)
                        =~= closed_range(old_ms as int, old_me as int).union(run@));
                    assert(runs_set(old_runs.subrange(0, k + 1)) == runs_set(prefix).union(run@));
                    let m = closed_range(merged_start as int, merged_end as int);
                    let m0 = closed_range(old_ms as int, old_me as int);
                    assert forall|x: int| #[trigger] runs_set(output@).union(m).contains(x) <==> runs_set(old_runs.subrange(0, k + 1)).union(rr).contains(x) by {
                        assert(runs_set(output@).union(m0).contains(x) == runs_set(prefix).union(rr).contains(x));
                    }
                    assert(runs_set(output@).union(closed_range(merged_start as int, merged_end as int))
                        =~= runs_set(old_runs.subrange(0, k + 1)).union(rr));
                    assert forall|i: int| 0 <= i < output@.len() implies output@[i].end + 1 < merged_start by {
                    }
                    assert forall|j: int| k + 1 <= j < n implies old_runs[j].start > run_end + 1 by {
                        assert(old_runs[k as int].end + 1 < old_runs[j].start);
                    }
                }
            }
            k += 1;
        }
        if !inserted {
            let ghost before = output@;
            let m = Run::new(merged_start as u16, merged_end as u16);
            output.push(m);
            proof {
                lemma_normalized_push(before, m);
                lemma_runs_set_push(before, m);
            }
        }
        proof {
            assert(old_runs.subrange(0, n as int) =~= old_runs);
            let o = runs_set(old_runs);
            lemma_runs_len(output@);
            vstd::set_lib::lemma_set_intersect_union_lens(o, rr);
            assert(o.intersect(rr) =~= rr.intersect(o));
            vstd::set_lib::lemma_len_subset(rr.intersect(o), rr);
            assert(o.union(rr) == o + rr);
        }
        let added = requested - overlap;
        self.runs = output;
        self.cardinality = self.cardinality + added;
        added
    }

    /// Removes every value from `start` through `end`, trimming or splitting the
    /// runs it meets; returns how many values were present.
    pub fn remove_range(&mut self, start: u16, end: u16) -> (r: u32)
        requires
            old(self).wf(),
            start <= end,
        ensures
            final(self).wf(),
            final(self)@ == old(self)@.difference(closed_range(start as int, end as int)),
            r == old(self)@.len() - final(self)@.len(),
    {
        let ghost old_runs = self.runs@;
        let ghost s = start as int;
        let ghost e = end as int;
        let ghost rr = closed_range(s, e);
        proof {
            lemma_runs_len(old_runs);
            lemma_closed_range(s, e);
            assert(old_runs.subrange(0, 0) =~= Seq::<Run>::empty());
            assert(runs_set(Seq::<Run>::empty()) =~= Set::<int>::empty());
            assert(rr.intersect(Set::<int>::empty()) =~= Set::<int>::empty());
            assert(Set::<int>::empty().difference(rr) =~= Set::<int>::empty());
        }
        let remove_start = start as u32;
        let remove_end = end as u32;
        let mut removed: u32 = 0;
        let mut output: Vec<Run> = Vec::new();
        let n = self.runs.len();
        let mut k: usize = 0;
        while k < n
            invariant
                k <= n == old_runs.len(),
                self.runs@ == old_runs,
                normalized(old_runs),
                rr == closed_range(s, e),
                s == remove_start,
                e == remove_end,
                s <= e <= 0xffff,
                rr.finite(),
                rr.len() == e - s + 1,
                normalized(output@),
                forall|i: int, j: int| 0 <= i < output@.len() && k <= j < n ==> output@[i].end + 1 < old_runs[j].start,
                removed == rr.intersect(runs_set(old_runs.subrange(0, k as int))).len(),
                runs_set(output@) == runs_set(old_runs.subrange(0, k as int)).difference(rr),
            decreases n - k,
        {
            let run = self.runs[k];
            let run_start = run.start as u32;
            let run_end = run.end as u32;
            let ghost prefix = old_runs.subrange(0, k as int);
            let ghost before = output@;
            proof {
                lemma_prefix_step(old_runs, k as int);
                assert(old_runs[k as int].start <= old_runs[k as int].end);
                lemma_runs_len(prefix);
                assert forall|j: int| k + 1 <= j < n implies old_runs[k as int].end + 1 < old_runs[j].start by {}
            }
            if run_end < remove_start || run_start > remove_end {
                output.push(run);
                proof {
                    lemma_normalized_push(before, run);
                    lemma_runs_set_push(before, run);
                    lemma_empty_intersect(rr, run@);
                    assert(rr.intersect(runs_set(old_runs.subrange(0, k + 1)))
                        =~= rr.intersect(runs_set(prefix)));
                    assert forall|i: int, j: int| 0 <= i < output@.len() && k + 1 <= j < n implies
                        output@[i].end + 1 < old_runs[j].start by {
                        if i < before.len() {
                            assert(output@[i] == before[i]);
                        }
                    }
                    assert(runs_set(output@) =~= runs_set(old_runs.subrange(0, k + 1)).difference(rr));
                }
            } else {
                let overlap_start = if run_start > remove_start { run_start } else { remove_start };
                let overlap_end = if run_end < remove_end { run_end } else { remove_end };
                proof {
                    assert(rr.intersect(run@) =~= closed_range(overlap_start as int, overlap_end as int));
                    lemma_closed_range(overlap_start as int, overlap_end as int);
                    assert(rr.intersect(runs_set(old_runs.subrange(0, k + 1)))
                        =~= rr.intersect(runs_set(prefix)).union(rr.intersect(run@)));
                    assert(rr.intersect(runs_set(prefix)).disjoint(rr.intersect(run@)));
                    vstd::set_lib::lemma_set_disjoint_lens(rr.intersect(runs_set(prefix)), rr.intersect(run@));
                    vstd::set_lib::lemma_len_subset(rr.intersect(runs_set(old_runs.subrange(0, k + 1))), rr);
                }
                removed = removed + (overlap_end - overlap_start + 1);
                if run_start < remove_start {
                    let ghost b1 = output@;
                    let left = Run::new(run.start, (remove_start - 1) as u16);
                    output.push(left);
                    proof {
                        lemma_normalized_push(b1, left);
                        lemma_runs_set_push(b1, left);
                    }
                }
                if run_end > remove_end {
                    let ghost b2 = output@;
                    let right = Run::new((remove_end + 1) as u16, run.end);
                    proof {
                        assert forall|i: int| 0 <= i < b2.len() implies b2[i].end + 1 < right.start by {
                            if i < before.len() {
                                assert(b2[i] == before[i]);
                            }
                        }
                    }
                    output.push(right);
                    proof {
                        lemma_normalized_push(b2, right);
                        lemma_runs_set_push(b2, right);
                    }
                }
                proof {
                    assert forall|i: int, j: int| 0 <= i < output@.len() && k + 1 <= j < n implies
                        output@[i].end + 1 < old_runs[j].start by {
                        if i < before.len() {
                            assert(output@[i] == before[i]);
                        }
                    }
                    assert(runs_set(output@) =~= runs_set(old_runs.subrange(0, k + 1)).difference(rr));
                }
            }
            k += 1;
        }
        proof {
            assert(old_runs.subrange(0, n as int) =~= old_runs);
            let o = runs_set(old_runs);
            lemma_runs_len(output@);
            vstd::set_lib::lemma_set_difference_len(o, rr);
            assert(o.intersect(rr) =~= rr.intersect(o));
        }
        self.runs = output;
        self.cardinality = self.cardinality - removed;
        removed
    }

    pub fn insert(&mut self, value: u16) -> (r: bool)
        requires
            old(self).wf(),
        ensures
            final(self).wf(),
            final(self)@ == old(self)@.insert(value as int),
            r == !old(self)@.contains(value as int),
    {
        proof { self.lemma_view(); }
        let ghost o = self@;
        let n = self.insert_range(value, value);
        proof {
            assert(o.union(closed_range(value as int, value as int)) =~= o.insert(value as int));
            self.lemma_view();
            if o.contains(value as int) {
                assert(o.insert(value as int) =~= o);
            } else {
                assert(o.insert(value as int).len() == o.len() + 1);
            }
        }
        n == 1
    }

    pub fn remove(&mut self, value: u16) -> (r: bool)
        requires
            old(self).wf(),
        ensures
            final(self).wf(),
            final(self)@ == old(self)@.remove(value as int),
            r == old(self)@.contains(value as int),
    {
        proof { self.lemma_view(); }
        let ghost o = self@;
        let n = self.remove_range(value, value);
        proof {
            assert(o.difference(closed_range(value as int, value as int)) =~= o.remove(value as int));
            self.lemma_view();
            if !o.contains(value as int) {
                assert(o.remove(value as int) =~= o);
            }
        }
        n == 1
    }
    /// The values in increasing order.
    pub fn iter(&self) -> (r: Vec<u16>)
        requires
            self.wf(),
        ensures
            increasing(r@),
            values_set(r@) == self@,
    {
        let ghost rs = self.runs@;
        let mut out: Vec<u16> = Vec::new();
        let n = self.runs.len();
        let mut k: usize = 0;
        proof {
            assert(rs.subrange(0, 0) =~= Seq::<Run>::empty());
            assert(values_set(out@) =~= runs_set(rs.subrange(0, 0)));
        }
        while k < n
            invariant
                k <= n == rs.len(),
                self.runs@ == rs,
                normalized(rs),
                increasing(out@),
                values_set(out@) == runs_set(rs.subrange(0, k as int)),
                k < n ==> forall|i: int| 0 <= i < out@.len() ==> out@[i] < rs[k as int].start,
            decreases n - k,
        {
            let run = self.runs[k];
            proof {
                lemma_prefix_step(rs, k as int);
                assert(rs[k as int].start <= rs[k as int].end);
            }
            let ghost base = out@;
            let mut v: u32 = run.start as u32;
            while v <= run.end as u32
                invariant
                    run.start <= v <= run.end as u32 + 1,
                    run.start <= run.end,
                    increasing(out@),
                    out@.len() >= base.len(),
                    forall|i: int| 0 <= i < base.len() ==> out@[i] == base[i],
                    forall|i: int| 0 <= i < out@.len() ==> out@[i] < v,
                    values_set(out@) == values_set(base).union(closed_range(run.start as int, v - 1)),
                decreases run.end as u32 + 1 - v,
            {
                let ghost prev = out@;
                out.push(v as u16);
                proof {
                    assert forall|y: int| #[trigger] values_set(out@).contains(y) <==>
                        values_set(base).union(closed_range(run.start as int, v as int)).contains(y) by {
                        if values_set(out@).contains(y) {
                            let i = choose|i: int| 0 <= i < out@.len() && out@[i] as int == y;
                            if i < prev.len() {
                                assert(values_set(prev).contains(y));
                            }
                        }
                        if values_set(prev).contains(y) {
                            let i = choose|i: int| 0 <= i < prev.len() && prev[i] as int == y;
                            assert(out@[i] as int == y);
                        }
                        if y == v as int {
                            assert(out@[prev.len() as int] as int == y);
                        }
                        if values_set(base).union(closed_range(run.start as int, v as int)).contains(y) && y != v {
                            assert(values_set(prev).contains(y));
                        }
                    }
                    assert(values_set(out@) =~= values_set(base).union(closed_range(run.start as int, v as int)));
                }
                v += 1;
            }
            proof {
                assert(values_set(out@) =~= runs_set(rs.subrange(0, k + 1)));
                if k + 1 < n {
                    assert(rs[k as int].end + 1 < rs[k + 1].start);
                }
            }
            k += 1;
        }
        proof { assert(rs.subrange(0, n as int) =~= rs); }
        out
    }

    /// Checks that the runs are normalized and their lengths add up to the count.
    pub fn validate(&self) -> (r: bool)
        ensures
            r == self.wf(),
    {
        if !runs_are_normalized(&self.runs) {
            return false;
        }
        let mut total: u32 = 0;
        let mut i: usize = 0;
        while i < self.runs.len()
            invariant
                i <= self.runs@.len(),
                normalized(self.runs@),
                total == runs_card(self.runs@.subrange(0, i as int)),
            decreases self.runs@.len() - i,
        {
            proof {
                let p = self.runs@.subrange(0, i as int + 1);
                assert(p.drop_last() =~= self.runs@.subrange(0, i as int));
                assert(normalized(p)) by {
                    assert forall|k: int| 0 <= k < p.len() implies (#[trigger] p[k]).start <= p[k].end by {
                        assert(p[k] == self.runs@[k]);
                        assert(self.runs@[k].start <= self.runs@[k].end);
                    }
                }
                lemma_runs_len(p);
                assert(self.runs@[i as int].start <= self.runs@[i as int].end);
            }
            total = total + self.runs[i].len();
            i += 1;
        }
        proof { assert(self.runs@.subrange(0, i as int) =~= self.runs@); }
        total == self.cardinality
    }
}

impl Clone for RunStore {
    fn clone(&self) -> (r: Self)
        ensures
            r.runs_seq() == self.runs_seq(),
            r.cardinality_field() == self.cardinality_field(),
    {
        RunStore { runs: self.runs.clone(), cardinality: self.cardinality }
    }
}

impl Default for RunStore {
    fn default() -> (r: Self)
        ensures
            r.wf(),
            r@ == Set::<int>::empty(),
    {
        Self::new()
    }
}

} // verus!
