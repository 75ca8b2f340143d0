use vstd::prelude::*;

verus! {

/// A sequence whose values strictly increase.
pub open spec fn increasing(s: Seq<u16>) -> bool {
    forall|i: int, j: int| 0 <= i < j < s.len() ==> s[i] < s[j]
}

/// The values of a sequence, as a set of integers.
pub open spec fn values_set(s: Seq<u16>) -> Set<int> {
    Set::new(|x: int| exists|i: int| 0 <= i < s.len() && s[i] as int == x)
}

/// An increasing sequence holds as many values as its set has members.
pub proof fn lemma_increasing_len(s: Seq<u16>)
    requires
        increasing(s),
    ensures
        values_set(s).finite(),
        values_set(s).len() == s.len(),
        s.len() <= 0x10000,
    decreases s.len(),
{
    if s.len() == 0 {
        assert(values_set(s) =~= Set::empty());
    } else {
        let t = s.drop_last();
        lemma_increasing_len(t);
        assert forall|x: int| values_set(s).contains(x) implies values_set(t).insert(s.last() as int).contains(x) by {
            let k = choose|k: int| 0 <= k < s.len() && s[k] as int == x;
            if k < s.len() - 1 {
                assert(t[k] as int == x);
            }
        }
        assert forall|x: int| values_set(t).insert(s.last() as int).contains(x) implies values_set(s).contains(x) by {
            if x == s.last() as int {
                assert(s[s.len() - 1] as int == x);
            } else {
                let k = choose|k: int| 0 <= k < t.len() && t[k] as int == x;
                assert(s[k] as int == x);
            }
        }
        assert(values_set(s) =~= values_set(t).insert(s.last() as int));
        assert(!values_set(t).contains(s.last() as int));
        if s.len() > 0x10000 {
            lemma_increasing_lower(s);
            assert(s[0x10000] >= 0x10000);
        }
    }
}

/// In an increasing sequence of u16 values, the value at `i` is at least `i`.
pub proof fn lemma_increasing_lower(s: Seq<u16>)
    requires
        increasing(s),
    ensures
        forall|i: int| 0 <= i < s.len() ==> s[i] >= i,
    decreases s.len(),
{
    if s.len() > 0 {
        lemma_increasing_lower(s.drop_last());
        assert forall|i: int| 0 <= i < s.len() implies s[i] >= i by {
            if i > 0 {
                assert(s.drop_last()[i - 1] == s[i - 1]);
            }
        }
    }
}

/// In an increasing sequence, values grow at least as fast as their positions.
pub proof fn lemma_increasing_gap(s: Seq<u16>)
    requires
        increasing(s),
    ensures
        forall|i: int, j: int| 0 <= i <= j < s.len() ==> s[j] - s[i] >= j - i,
    decreases s.len(),
{
    if s.len() > 0 {
        let t = s.drop_last();
        lemma_increasing_gap(t);
        assert forall|i: int, j: int| 0 <= i <= j < s.len() implies s[j] - s[i] >= j - i by {
            if j == s.len() - 1 && i < j {
                assert(t[i] == s[i] && t[j - 1] == s[j - 1]);
                assert(s[j - 1] - s[i] >= j - 1 - i);
            } else if j < s.len() - 1 {
                assert(t[i] == s[i] && t[j] == s[j]);
            }
        }
    }
}

/// The integers from `a` through `a + n - 1`, as u16 values.
pub open spec fn range_seq(a: int, n: int) -> Seq<u16> {
    Seq::new(n as nat, |i: int| (a + i) as u16)
}

/// The integers from `lo` through `hi`.
pub open spec fn closed_range(lo: int, hi: int) -> Set<int> {
    Set::new(|x: int| lo <= x <= hi)
}

/// A closed range holds as many integers as its width.
pub proof fn lemma_closed_range(lo: int, hi: int)
    ensures
        closed_range(lo, hi).finite(),
        closed_range(lo, hi).len() == if lo <= hi { hi - lo + 1 } else { 0 },
{
    if lo <= hi {
        vstd::set_lib::lemma_int_range(lo, hi + 1);
        assert(closed_range(lo, hi) =~= vstd::set_lib::set_int_range(lo, hi + 1));
    } else {
        assert(closed_range(lo, hi) =~= Set::empty());
    }
}

/// Index of the first value that is at least `v`.
pub fn lower_bound(values: &Vec<u16>, v: u16) -> (r: usize)
    requires
        increasing(values@),
    ensures
        r <= values.len(),
        forall|i: int| 0 <= i < r ==> values@[i] < v,
        forall|i: int| r <= i < values.len() ==> values@[i] >= v,
{
    let mut lo: usize = 0;
    let mut hi: usize = values.len();
    while lo < hi
        invariant
            lo <= hi <= values.len(),
            increasing(values@),
            forall|i: int| 0 <= i < lo ==> values@[i] < v,
            forall|i: int| hi <= i < values.len() ==> values@[i] >= v,
        decreases hi - lo,
    {
        let mid = lo + (hi - lo) / 2;
        if values[mid] < v {
            lo = mid + 1;
        } else {
            hi = mid;
        }
    }
    lo
}

/// Index of the first value that is greater than `v`.
pub fn upper_bound(values: &Vec<u16>, v: u16) -> (r: usize)
    requires
        increasing(values@),
    ensures
        r <= values.len(),
        forall|i: int| 0 <= i < r ==> values@[i] <= v,
        forall|i: int| r <= i < values.len() ==> values@[i] > v,
{
    let mut lo: usize = 0;
    let mut hi: usize = values.len();
    while lo < hi
        invariant
            lo <= hi <= values.len(),
            increasing(values@),
            forall|i: int| 0 <= i < lo ==> values@[i] <= v,
            forall|i: int| hi <= i < values.len() ==> values@[i] > v,
        decreases hi - lo,
    {
        let mid = lo + (hi - lo) / 2;
        if values[mid] <= v {
            lo = mid + 1;
        } else {
            hi = mid;
        }
    }
    lo
}


proof fn lemma_insert_range_result(old_seq: Seq<u16>, new_seq: Seq<u16>, first: int, after: int, start: int, end: int)
    requires
        increasing(old_seq),
        0 <= first <= after <= old_seq.len(),
        0 <= start <= end <= 0xffff,
        forall|i: int| 0 <= i < first ==> old_seq[i] < start,
        forall|i: int| first <= i < old_seq.len() ==> old_seq[i] >= start,
        forall|i: int| 0 <= i < after ==> old_seq[i] <= end,
        forall|i: int| after <= i < old_seq.len() ==> old_seq[i] > end,
        new_seq == old_seq.subrange(0, first) + range_seq(start, end - start + 1)
            + old_seq.subrange(after, old_seq.len() as int),
    ensures
        increasing(new_seq),
        values_set(new_seq) == values_set(old_seq).union(closed_range(start, end)),
{
        let fi = first;
        let w = end - start + 1;
        assert(increasing(new_seq)) by {
            assert forall|a: int, b: int| 0 <= a < b < new_seq.len() implies new_seq[a] < new_seq[b] by {
                if a < fi && b >= fi + w {
                    assert(new_seq[b] == old_seq[b - fi - w + after]);
                } else if b >= fi + w && a >= fi {
                    assert(new_seq[b] == old_seq[b - fi - w + after]);
                } else if b >= fi + w {
                } else {
                }
            }
        }
        assert(values_set(new_seq) =~= values_set(old_seq).union(closed_range(start, end))) by {
            assert forall|x: int| values_set(new_seq).contains(x) implies
                values_set(old_seq).union(closed_range(start, end)).contains(x) by {
                let k = choose|k: int| 0 <= k < new_seq.len() && new_seq[k] as int == x;
                if k < fi {
                    assert(old_seq[k] as int == x);
                } else if k >= fi + w {
                    assert(old_seq[k - fi - w + after] as int == x);
                }
            }
            assert forall|x: int| values_set(old_seq).union(closed_range(start, end)).contains(x)
                implies values_set(new_seq).contains(x) by {
                if start <= x <= end {
                    assert(new_seq[fi + x - start] as int == x);
                } else {
                    let k = choose|k: int| 0 <= k < old_seq.len() && old_seq[k] as int == x;
                    if k < fi {
                        assert(new_seq[k] as int == x);
                    } else {
                        assert(k >= after);
                        assert(new_seq[k - after + fi + w] as int == x);
                    }
                }
            }
        }
    }

/// A sorted array of the values of one container.
#[derive(Debug)]
pub struct ArrayStore {
    values: Vec<u16>,
}

impl ArrayStore {
    pub open spec fn wf(&self) -> bool {
        increasing(self.seq())
    }

    pub closed spec fn seq(&self) -> Seq<u16> {
        self.values@
    }

    pub open spec fn view(&self) -> Set<int> {
        values_set(self.seq())
    }

    pub proof fn lemma_view(&self)
        requires
            self.wf(),
        ensures
            increasing(self.seq()),
            self@.finite(),
            self@.len() == self.seq().len(),
            self.seq().len() <= 0x10000,
            forall|x: int| self@.contains(x) ==> 0 <= x < 0x10000,
    {
        lemma_increasing_len(self.seq());
    }

    pub fn new() -> (r: Self)
        ensures
            r.wf(),
            r@ == Set::<int>::empty(),
            r.seq().len() == 0,
    {
        let r = ArrayStore { values: Vec::new() };
        assert(r@ =~= Set::<int>::empty());
        r
    }

    pub fn singleton(value: u16) -> (r: Self)
        ensures
            r.wf(),
            r@ == Set::<int>::empty().insert(value as int),
            r.seq() == seq![value],
    {
        let mut values = Vec::new();
        values.push(value);
        let r = ArrayStore { values };
        assert(r.seq() =~= seq![value]);
        assert(r.seq()[0] == value);
        assert(r@ =~= Set::<int>::empty().insert(value as int));
        r
    }

    /// Wraps values that are already strictly increasing.
    pub fn from_sorted_values(values: Vec<u16>) -> (r: Self)
        requires
            increasing(values@),
        ensures
            r.wf(),
            r.seq() == values@,
    {
        ArrayStore { values }
    }

    pub fn into_values(self) -> (r: Vec<u16>)
        ensures
            r@ == self.seq(),
    {
        self.values
    }

    pub fn values(&self) -> (r: &Vec<u16>)
        ensures
            r@ == self.seq(),
    {
        &self.values
    }

    pub fn len(&self) -> (r: u32)
        requires
            self.wf(),
        ensures
            r == self@.len(),
            r == self.seq().len(),
    {
        proof { self.lemma_view(); }
        self.values.len() as u32
    }

    pub fn contains(&self, value: u16) -> (r: bool)
        requires
            self.wf(),
        ensures
            r == self@.contains(value as int),
    {
        let i = lower_bound(&self.values, value);
        i < self.values.len() && self.values[i] == value
    }

    pub fn insert(&mut self, value: u16) -> (r: bool)
        requires
            old(self).wf(),
        ensures
            final(self).wf(),
            final(self)@ == old(self)@.insert(value as int),
            r == !old(self)@.contains(value as int),
    {
        let i = lower_bound(&self.values, value);
        if i < self.values.len() && self.values[i] == value {
            return false;
        }
        let ghost old_seq = self.values@;
        self.values.insert(i, value);
        proof {
            assert(self.values@ =~= old_seq.insert(i as int, value));
            assert(self@ =~= values_set(old_seq).insert(value as int)) by {
                assert forall|x: int| values_set(old_seq).insert(value as int).contains(x)
                    implies self@.contains(x) by {
                    if x != value as int {
                        let k = choose|k: int| 0 <= k < old_seq.len() && old_seq[k] as int == x;
                        if k < i {
                            assert(self.values@[k] as int == x);
                        } else {
                            assert(self.values@[k + 1] as int == x);
                        }
                    } else {
                        assert(self.values@[i as int] as int == x);
                    }
                }
            }
        }
        true
    }

    pub fn remove(&mut self, value: u16) -> (r: bool)
        requires
            old(self).wf(),
        ensures
            final(self).wf(),
            final(self)@ == old(self)@.remove(value as int),
            r == old(self)@.contains(value as int),
    {
        let i = lower_bound(&self.values, value);
        if i < self.values.len() && self.values[i] == value {
            let ghost old_seq = self.values@;
            self.values.remove(i);
            proof {
                assert(self.values@ =~= old_seq.remove(i as int));
                assert(self@ =~= values_set(old_seq).remove(value as int)) by {
                    assert forall|x: int| self@.contains(x) implies values_set(old_seq).remove(value as int).contains(x) by {
                        let k = choose|k: int| 0 <= k < self.values@.len() && self.values@[k] as int == x;
                        if k < i {
                            assert(old_seq[k] as int == x);
                        } else {
                            assert(old_seq[k + 1] as int == x);
                        }
                    }
                    assert forall|x: int| values_set(old_seq).remove(value as int).contains(x) implies self@.contains(x) by {
                        let k = choose|k: int| 0 <= k < old_seq.len() && old_seq[k] as int == x;
                        if k < i {
                            assert(self.values@[k] as int == x);
                        } else {
                            assert(k != i);
                            assert(self.values@[k - 1] as int == x);
                        }
                    }
                }
            }
            true
        } else {
            proof {
                assert(!self@.contains(value as int));
                assert(self@ =~= self@.remove(value as int));
            }
            false
        }
    }

    /// Adds every value from `start` through `end`; returns how many were new.
    pub fn insert_range(&mut self, start: u16, end: u16) -> (r: u32)
        requires
            old(self).wf(),
            start <= end,
        ensures
            final(self).wf(),
            final(self)@ == old(self)@.union(closed_range(start as int, end as int)),
            r == final(self)@.len() - old(self)@.len(),
    {
        let ghost old_seq = self.values@;
        proof { lemma_increasing_gap(old_seq); lemma_increasing_len(old_seq); }
        let first = lower_bound(&self.values, start);
        let after = upper_bound(&self.values, end);
        proof {
            if after < first {
                assert(old_seq[after as int] > end);
            }
            if after > first {
                assert(old_seq[after - 1] - old_seq[first as int] >= after - 1 - first);
            }
        }
        let added: u32 = (end as u32) - (start as u32) + 1 - ((after - first) as u32);
        let ghost target = old_seq.subrange(0, first as int)
            + range_seq(start as int, end - start + 1)
            + old_seq.subrange(after as int, old_seq.len() as int);
        if added != 0 {
            let mut values: Vec<u16> = Vec::new();
            let mut i: usize = 0;
            while i < first
                invariant
                    i <= first <= old_seq.len(),
                    old_seq == self.values@,
                    values@ == old_seq.subrange(0, i as int),
                decreases first - i,
            {
                values.push(self.values[i]);
                i += 1;
                assert(values@ =~= old_seq.subrange(0, i as int));
            }
            let mut v: u32 = start as u32;
            while v <= end as u32
                invariant
                    start as u32 <= v <= end as u32 + 1,
                    first <= old_seq.len(),
                    values@ == old_seq.subrange(0, first as int) + range_seq(start as int, v - start),
                decreases end as u32 + 1 - v,
            {
                values.push(v as u16);
                v += 1;
                assert(values@ =~= old_seq.subrange(0, first as int) + range_seq(start as int, v - start));
            }
            let mut j: usize = after;
            while j < self.values.len()
                invariant
                    after <= j <= old_seq.len(),
                    first <= old_seq.len(),
                    old_seq == self.values@,
                    values@ == old_seq.subrange(0, first as int) + range_seq(start as int, end - start + 1)
                        + old_seq.subrange(after as int, j as int),
                decreases old_seq.len() - j,
            {
                values.push(self.values[j]);
                j += 1;
                assert(values@ =~= old_seq.subrange(0, first as int) + range_seq(start as int, end - start + 1)
                    + old_seq.subrange(after as int, j as int));
            }
            self.values = values;
            proof {
                assert(self.values@ =~= target);
            }
        } else {
            proof {
                assert(target =~= old_seq) by {
                    assert forall|k: int| first <= k < after implies old_seq[k] == start + (k - first) by {
                        assert(old_seq[k] - old_seq[first as int] >= k - first);
                        assert(old_seq[after - 1] - old_seq[k] >= after - 1 - k);
                    }
                }
            }
        }
        proof {
            lemma_insert_range_result(old_seq, self.values@, first as int, after as int, start as int, end as int);
            lemma_increasing_len(self.values@);
        }
        added
    }

    /// Removes every value from `start` through `end`; returns how many were present.
    pub fn remove_range(&mut self, start: u16, end: u16) -> (r: u32)
        requires
            old(self).wf(),
            start <= end,
        ensures
            final(self).wf(),
            final(self)@ == old(self)@.difference(closed_range(start as int, end as int)),
            r == old(self)@.len() - final(self)@.len(),
    {
        let ghost old_seq = self.values@;
        proof { lemma_increasing_len(old_seq); }
        let first = lower_bound(&self.values, start);
        let after = upper_bound(&self.values, end);
        proof {
            if after < first {
                assert(old_seq[after as int] > end);
            }
        }
        let removed = (after - first) as u32;
        let mut tail = self.values.split_off(after);
        self.values.truncate(first);
        self.values.append(&mut tail);
        proof {
            let new_seq = self.values@;
            let fi = first as int;
            assert(new_seq =~= old_seq.subrange(0, fi) + old_seq.subrange(after as int, old_seq.len() as int));
            assert(increasing(new_seq)) by {
                assert forall|a: int, b: int| 0 <= a < b < new_seq.len() implies new_seq[a] < new_seq[b] by {
                    if b >= fi {
                        assert(new_seq[b] == old_seq[b - fi + after]);
                    }
                    if a >= fi {
                        assert(new_seq[a] == old_seq[a - fi + after]);
                    }
                }
            }
            assert(values_set(new_seq) =~= values_set(old_seq).difference(closed_range(start as int, end as int))) by {
                assert forall|x: int| values_set(new_seq).contains(x) implies
                    values_set(old_seq).difference(closed_range(start as int, end as int)).contains(x) by {
                    let k = choose|k: int| 0 <= k < new_seq.len() && new_seq[k] as int == x;
                    if k < fi {
                        assert(old_seq[k] as int == x);
                    } else {
                        assert(old_seq[k - fi + after] as int == x);
                    }
                }
                assert forall|x: int| values_set(old_seq).difference(closed_range(start as int, end as int)).contains(x)
                    implies values_set(new_seq).contains(x) by {
                    let k = choose|k: int| 0 <= k < old_seq.len() && old_seq[k] as int == x;
                    if k < fi {
                        assert(new_seq[k] as int == x);
                    } else {
                        assert(k >= after);
                        assert(new_seq[k - after + fi] as int == x);
                    }
                }
            }
            lemma_increasing_len(new_seq);
        }
        removed
    }

    /// The values in increasing order.
    pub fn iter(&self) -> (r: Vec<u16>)
        ensures
            r@ == self.seq(),
    {
        self.values.clone()
    }

    /// Checks that the values strictly increase.
    pub fn validate(&self) -> (r: bool)
        ensures
            r == increasing(self.seq()),
    {
        let n = self.values.len();
        let mut i: usize = 1;
        while i < n
            invariant
                1 <= i,
                n == self.values@.len(),
                forall|a: int, b: int| 0 <= a < b < i && b < n ==> self.values@[a] < self.values@[b],
            decreases n - i,
        {
            if self.values[i - 1] >= self.values[i] {
                return false;
            }
            i += 1;
        }
        true
    }
}

impl Clone for ArrayStore {
    fn clone(&self) -> (r: Self)
        ensures
            r.seq() == self.seq(),
    {
        ArrayStore { values: self.values.clone() }
    }
}

} // verus!
