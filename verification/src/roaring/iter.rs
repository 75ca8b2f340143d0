use vstd::prelude::*;
use super::container::Container;
use super::util::join;
use super::store::array::values_set;
use super::bitmap::{containers_wf, containers_set, containers_card, key_at, lemma_containers_len};

verus! {

/// A sequence of u32 values that strictly increases.
pub open spec fn increasing32(s: Seq<u32>) -> bool {
    forall|i: int, j: int| 0 <= i < j < s.len() ==> s[i] < s[j]
}

/// The values of a sequence of u32 values, as integers.
pub open spec fn values32_set(s: Seq<u32>) -> Set<int> {
    Set::new(|x: int| exists|i: int| 0 <= i < s.len() && s[i] as int == x)
}

/// An increasing sequence holds as many values as its set has members.
pub proof fn lemma_increasing32_len(s: Seq<u32>)
    requires
        increasing32(s),
    ensures
        values32_set(s).finite(),
        values32_set(s).len() == s.len(),
    decreases s.len(),
{
    if s.len() == 0 {
        assert(values32_set(s) =~= Set::empty());
    } else {
        let t = s.drop_last();
        lemma_increasing32_len(t);
        assert forall|x: int| #[trigger] values32_set(s).contains(x) <==> values32_set(t).insert(s.last() as int).contains(x) by {
            if values32_set(s).contains(x) {
                let k = choose|k: int| 0 <= k < s.len() && s[k] as int == x;
                if k < s.len() - 1 {
                    assert(t[k] as int == x);
                }
            }
            if values32_set(t).contains(x) {
                let k = choose|k: int| 0 <= k < t.len() && t[k] as int == x;
                assert(s[k] as int == x);
            }
            if x == s.last() as int {
                assert(s[s.len() - 1] as int == x);
            }
        }
        assert(values32_set(s) =~= values32_set(t).insert(s.last() as int));
        assert(!values32_set(t).contains(s.last() as int));
    }
}

/// Walks the values of a bitmap in increasing order.
pub struct Iter {
    values: Vec<u32>,
    index: usize,
    remaining: u64,
}

impl Iter {
    /// The values not yet returned.
    pub closed spec fn rest(&self) -> Seq<u32> {
        self.values@.subrange(self.index as int, self.values@.len() as int)
    }

    pub closed spec fn remaining_field(&self) -> u64 {
        self.remaining
    }

    pub closed spec fn index_ok(&self) -> bool {
        self.index <= self.values@.len()
    }

    pub open spec fn wf(&self) -> bool {
        &&& self.index_ok()
        &&& self.remaining_field() == self.rest().len()
    }

    /// Lists the values of the containers, key by key.
    pub fn new(containers: &Vec<Container>, cardinality: u64) -> (r: Self)
        requires
            containers_wf(containers@),
            cardinality == containers_card(containers@),
        ensures
            r.wf(),
            increasing32(r.rest()),
            values32_set(r.rest()) == containers_set(containers@),
    {
        let ghost cs = containers@;
        let mut values: Vec<u32> = Vec::new();
        let mut i: usize = 0;
        proof {
            assert(values32_set(values@) =~= Set::<int>::empty());
            assert(containers_set(cs.subrange(0, 0)) =~= Set::<int>::empty());
        }
        while i < containers.len()
            invariant
                i <= cs.len(),
                containers@ == cs,
                containers_wf(cs),
                increasing32(values@),
                forall|k: int| 0 <= k < values@.len() ==> values@[k] < 0x10000 * key_at(cs, i as int),
                values32_set(values@) == containers_set(cs.subrange(0, i as int)),
            decreases cs.len() - i,
        {
            let c = &containers[i];
            proof { assert(cs[i as int].wf()); c.lemma_view(); }
            let key = c.key;
            let lows = c.iter();
            let ghost base = values@;
            let mut j: usize = 0;
            while j < lows.len()
                invariant
                    j <= lows@.len(),
                    super::store::array::increasing(lows@),
                    increasing32(values@),
                    values@.len() == base.len() + j,
                    forall|k: int| 0 <= k < base.len() ==> values@[k] == base[k],
                    forall|k: int| 0 <= k < base.len() ==> base[k] < 0x10000 * key,
                    forall|k: int| base.len() <= k < values@.len() ==> values@[k] == 0x10000 * key + lows@[k - base.len()],
                    j < lows@.len() ==> forall|k: int| 0 <= k < values@.len() ==> values@[k] < 0x10000 * key + lows@[j as int],
                decreases lows@.len() - j,
            {
                let v = join(key, lows[j]);
                values.push(v);
                j += 1;
                proof {
                    if j < lows@.len() {
                        assert(lows@[j - 1] < lows@[j as int]);
                    }
                }
            }
            proof {
                let p = cs.subrange(0, i as int + 1);
                assert forall|x: int| #[trigger] values32_set(values@).contains(x) <==> containers_set(p).contains(x) by {
                    assert(p[i as int] == cs[i as int]);
                    if values32_set(values@).contains(x) {
                        let k = choose|k: int| 0 <= k < values@.len() && values@[k] as int == x;
                        if k < base.len() {
                            assert(base[k] as int == x);
                            assert(values32_set(base).contains(x));
                            let t = cs.subrange(0, i as int);
                            let m = choose|m: int| #![trigger t[m]] 0 <= m < t.len() && t[m].key == x / 0x10000 && t[m]@.contains(x % 0x10000);
                            assert(p[m] == t[m]);
                        } else {
                            let l = lows@[k - base.len()];
                            assert(values_set(lows@).contains(l as int));
                            assert(x / 0x10000 == key && x % 0x10000 == l);
                        }
                    }
                    if containers_set(p).contains(x) {
                        let m = choose|m: int| #![trigger p[m]] 0 <= m < p.len() && p[m].key == x / 0x10000 && p[m]@.contains(x % 0x10000);
                        if m < i {
                            let t = cs.subrange(0, i as int);
                            assert(t[m] == p[m]);
                            assert(containers_set(t).contains(x));
                            let k = choose|k: int| 0 <= k < base.len() && base[k] as int == x;
                            assert(values@[k] as int == x);
                        } else {
                            assert(values_set(lows@).contains(x % 0x10000));
                            let q = choose|q: int| 0 <= q < lows@.len() && lows@[q] as int == x % 0x10000;
                            assert(values@[base.len() + q] as int == x);
                        }
                    }
                }
                assert(values32_set(values@) =~= containers_set(p));
                let nk = key_at(cs, i + 1);
                assert(key == cs[i as int].key);
                assert(key < nk) by {
                    if i + 1 < cs.len() {
                        assert(cs[i as int].key < cs[i + 1].key);
                    }
                }
                assert(0x10000 * key + 0x10000 <= 0x10000 * nk);
                assert forall|k: int| 0 <= k < values@.len() implies values@[k] < 0x10000 * nk by {
                    if k >= base.len() {
                        assert(values@[k] == 0x10000 * key + lows@[k - base.len()]);
                        assert(lows@[k - base.len()] <= 0xffff);
                    } else {
                        assert(values@[k] == base[k]);
                        assert(base[k] < 0x10000 * key);
                    }
                }
            }
            i += 1;
        }
        proof {
            assert(cs.subrange(0, cs.len() as int) =~= cs);
            lemma_increasing32_len(values@);
            lemma_containers_len(cs);
        }
        let r = Iter { values, index: 0, remaining: cardinality };
        proof { assert(r.rest() =~= values@); }
        r
    }

    /// The next value, if any is left.
    pub fn next(&mut self) -> (r: Option<u32>)
        requires
            old(self).wf(),
        ensures
            final(self).wf(),
            old(self).rest().len() == 0 ==> r is None && final(self).rest() == old(self).rest(),
            old(self).rest().len() > 0 ==> r == Some(old(self).rest()[0])
                && final(self).rest() == old(self).rest().drop_first(),
    {
        if self.index < self.values.len() {
            let v = self.values[self.index];
            proof { assert(old(self).rest()[0] == v); }
            self.index = self.index + 1;
            self.remaining = self.remaining - 1;
            proof { assert(self.rest() =~= old(self).rest().drop_first()); }
            Some(v)
        } else {
            None
        }
    }

    /// Exact bounds on the number of values left, when it fits a `usize`.
    pub fn size_hint(&self) -> (r: (usize, Option<usize>))
        ensures
            self.remaining_field() <= usize::MAX ==> r == (self.remaining_field() as usize, Some(self.remaining_field() as usize)),
            self.remaining_field() > usize::MAX ==> r == (usize::MAX, None::<usize>),
    {
        if self.remaining <= usize::MAX as u64 {
            let n = self.remaining as usize;
            (n, Some(n))
        } else {
            (usize::MAX, None)
        }
    }

    /// Number of values left.
    pub fn count(self) -> (r: usize)
        requires
            self.remaining_field() <= usize::MAX,
        ensures
            r == self.remaining_field(),
    {
        self.remaining as usize
    }
}

} // verus!
