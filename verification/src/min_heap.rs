use vstd::prelude::*;
use vstd::multiset::Multiset;
use crate::collection::Collection;

verus! {

/// The array with the values at `i` and `j` swapped.
pub open spec fn swapped(s: Seq<u64>, i: int, j: int) -> Seq<u64> {
    s.update(i, s[j]).update(j, s[i])
}

/// The array after the value at `i` moves up: past each parent, at
/// `(i - 1) / 2`, that is greater than it.
pub open spec fn sift_up(s: Seq<u64>, i: int) -> Seq<u64>
    decreases i,
{
    if i <= 0 || i >= s.len() {
        s
    } else {
        let p = (i - 1) / 2;
        if s[p] <= s[i] { s } else { sift_up(swapped(s, p, i), p) }
    }
}

/// The index of the parent of the entry at `i`.
pub open spec fn parent(i: int) -> int {
    (i - 1) / 2
}

/// Every entry past the first is at least the entry at its parent's index.
pub open spec fn heap_ordered(s: Seq<u64>) -> bool {
    forall|i: int| #![trigger s[parent(i)], s[i]] 0 < i < s.len() ==> s[parent(i)] <= s[i]
}

/// Moving up a value whose only fault is being smaller than its parent, and
/// whose children are no smaller than that parent, orders the whole array.
pub proof fn lemma_sift_up_ordered(s: Seq<u64>, i: int)
    requires
        0 <= i < s.len(),
        forall|j: int| #![trigger s[parent(j)], s[j]] 0 < j < s.len() && j != i ==> s[parent(j)] <= s[j],
        i > 0 ==> forall|c: int| 0 < c < s.len() && parent(c) == i ==> s[parent(i)] <= #[trigger] s[c],
    ensures
        heap_ordered(sift_up(s, i)),
    decreases i,
{
    if i > 0 {
        let p = parent(i);
        if !(s[p] <= s[i]) {
            let t = swapped(s, p, i);
            assert forall|j: int| #![trigger t[parent(j)], t[j]] 0 < j < t.len() && j != p implies t[parent(j)] <= t[j] by {
                if j == i {
                } else if parent(j) == i {
                    assert(s[parent(i)] <= s[j]);
                } else if parent(j) == p {
                    assert(s[p] <= s[j]);
                } else if j != p {
                    assert(s[parent(j)] <= s[j]);
                }
            }
            assert forall|c: int| p > 0 && 0 < c < t.len() && parent(c) == p implies t[parent(p)] <= #[trigger] t[c] by {
                assert(s[parent(p)] <= s[p]);
                if c != i {
                    assert(s[p] <= s[c]);
                }
            }
            lemma_sift_up_ordered(t, p);
        } else {
            assert forall|j: int| #![trigger s[parent(j)], s[j]] 0 < j < s.len() implies s[parent(j)] <= s[j] by {
                if j == i {
                }
            }
        }
    }
}

/// Pushing onto an ordered array keeps it ordered.
pub proof fn lemma_push_ordered(s: Seq<u64>, value: u64)
    requires
        heap_ordered(s),
    ensures
        heap_ordered(sift_up(s.push(value), s.len() as int)),
{
    let t = s.push(value);
    let n = s.len() as int;
    assert forall|j: int| #![trigger t[parent(j)], t[j]] 0 < j < t.len() && j != n implies t[parent(j)] <= t[j] by {
        assert(s[parent(j)] <= s[j]);
    }
    lemma_sift_up_ordered(t, n);
}

/// The first entry of an ordered array is its least value.
pub proof fn lemma_root_least(s: Seq<u64>, j: int)
    requires
        heap_ordered(s),
        0 <= j < s.len(),
    ensures
        s[0] <= s[j],
    decreases j,
{
    if j > 0 {
        assert(s[parent(j)] <= s[j]);
        lemma_root_least(s, parent(j));
    }
}

/// The entry the value at `i` is weighed against on its way down: the one at
/// `4 * i`, or the one after it when that one is smaller.
pub open spec fn down_child(s: Seq<u64>, i: int) -> int {
    if 4 * i + 1 < s.len() && s[4 * i + 1] < s[4 * i] { 4 * i + 1 } else { 4 * i }
}

/// The array after the value at `i` moves down: while `i` lies in the first
/// half of the array and the entry `down_child` names is smaller, the two
/// swap. `None` when that entry lies past the end of the array.
pub open spec fn sift_down(s: Seq<u64>, i: int) -> Option<Seq<u64>>
    decreases s.len() - i,
{
    if !(0 <= i < s.len() / 2) {
        Some(s)
    } else {
        let c = down_child(s, i);
        if c >= s.len() {
            None
        } else if s[i] <= s[c] || c <= i {
            Some(s)
        } else {
            sift_down(swapped(s, i, c), c)
        }
    }
}

/// The array after `sift_down` at `k - 1`, `k - 2`, down to `0`, in turn.
pub open spec fn heapify(s: Seq<u64>, k: int) -> Option<Seq<u64>>
    decreases k,
{
    if k <= 0 {
        Some(s)
    } else {
        match sift_down(s, k - 1) {
            Some(t) => heapify(t, k - 1),
            None => None,
        }
    }
}

/// What is left when the first value leaves: the last value takes its place.
pub open spec fn without_first(s: Seq<u64>) -> Seq<u64> {
    s.update(0, s.last()).drop_last()
}

/// A heap of `u64` values held in an array.
#[derive(Debug)]
pub struct MinHeap {
    items: Vec<u64>,
}

proof fn lemma_swap_multiset(s: Seq<u64>, i: int, j: int)
    requires
        0 <= i < s.len(),
        0 <= j < s.len(),
    ensures
        swapped(s, i, j).to_multiset() == s.to_multiset(),
        swapped(s, i, j).len() == s.len(),
{
    broadcast use {
        vstd::seq_lib::to_multiset_update,
        vstd::multiset::group_multiset_properties,
        vstd::multiset::group_multiset_axioms,
    };
    let t = s.update(i, s[j]);
    let m = s.to_multiset();
    s.to_multiset_ensures();
    assert(s.contains(s[i]));
    assert(s.contains(s[j]));
    assert(t[j] == if i == j { s[i] } else { s[j] });
    assert(t.to_multiset() == m.insert(s[j]).remove(s[i]));
    assert(t.update(j, s[i]).to_multiset() == t.to_multiset().insert(s[i]).remove(t[j]));
    if i == j {
        assert(t =~= s);
        assert(t.update(j, s[i]) =~= s);
    } else {
        assert forall|x: u64| #[trigger] m.insert(s[j]).remove(s[i]).insert(s[i]).remove(s[j]).count(x) == m.count(x) by {
        }
        assert(m.insert(s[j]).remove(s[i]).insert(s[i]).remove(s[j]) =~= m);
    }
}

/// Moving a value up keeps the values and their number.
pub proof fn lemma_sift_up(s: Seq<u64>, i: int)
    ensures
        sift_up(s, i).to_multiset() == s.to_multiset(),
        sift_up(s, i).len() == s.len(),
    decreases i,
{
    if 0 < i < s.len() {
        let p = (i - 1) / 2;
        if !(s[p] <= s[i]) {
            lemma_swap_multiset(s, p, i);
            lemma_sift_up(swapped(s, p, i), p);
        }
    }
}

/// Moving a value down keeps the values and their number.
pub proof fn lemma_sift_down(s: Seq<u64>, i: int)
    requires
        sift_down(s, i) is Some,
    ensures
        sift_down(s, i)->0.to_multiset() == s.to_multiset(),
        sift_down(s, i)->0.len() == s.len(),
    decreases s.len() - i,
{
    if 0 <= i < s.len() / 2 {
        let c = down_child(s, i);
        if c < s.len() && !(s[i] <= s[c] || c <= i) {
            lemma_swap_multiset(s, i, c);
            lemma_sift_down(swapped(s, i, c), c);
        }
    }
}

/// Arranging the array keeps the values and their number.
pub proof fn lemma_heapify(s: Seq<u64>, k: int)
    requires
        heapify(s, k) is Some,
    ensures
        heapify(s, k)->0.to_multiset() == s.to_multiset(),
        heapify(s, k)->0.len() == s.len(),
    decreases k,
{
    if k > 0 {
        lemma_sift_down(s, k - 1);
        lemma_heapify(sift_down(s, k - 1)->0, k - 1);
    }
}

/// What is left when the first value leaves holds the other values.
pub proof fn lemma_without_first(s: Seq<u64>)
    requires
        s.len() > 0,
    ensures
        without_first(s).to_multiset() == s.to_multiset().remove(s[0]),
        without_first(s).len() == s.len() - 1,
{
    broadcast use {
        vstd::seq_lib::to_multiset_update,
        vstd::multiset::group_multiset_properties,
        vstd::multiset::group_multiset_axioms,
    };
    let t = s.update(0, s.last());
    let m = s.to_multiset();
    let a = t.drop_last().to_multiset();
    s.to_multiset_ensures();
    assert(s.contains(s[0]));
    assert(t.to_multiset() == m.insert(s.last()).remove(s[0]));
    vstd::seq_lib::to_multiset_build(t.drop_last(), s.last());
    assert(t.drop_last().push(s.last()) =~= t);
    assert(a.insert(s.last()) == m.insert(s.last()).remove(s[0]));
    assert forall|x: u64| #[trigger] a.count(x) == m.remove(s[0]).count(x) by {
        assert(a.insert(s.last()).count(x) == m.insert(s.last()).remove(s[0]).count(x));
    }
    assert(a =~= m.remove(s[0]));
}

impl View for MinHeap {
    type V = Multiset<u64>;

    /// The values held, with their counts.
    closed spec fn view(&self) -> Multiset<u64> {
        self.items@.to_multiset()
    }
}

impl MinHeap {
    /// The array the heap is laid out in.
    pub closed spec fn items(&self) -> Seq<u64> {
        self.items@
    }

    /// The values held are those of the array.
    pub proof fn lemma_view(&self)
        ensures
            self@ == self.items().to_multiset(),
            self@.len() == self.items().len(),
    {
        self.items@.to_multiset_ensures();
    }

    pub fn new() -> (r: Self)
        ensures
            r.inv(),
            r.items() == Seq::<u64>::empty(),
            r@ == Multiset::<u64>::empty(),
            heap_ordered(r.items()),
    {
        let r = Self { items: Vec::new() };
        proof {
            r.items@.to_multiset_ensures();
            vstd::multiset::lemma_multiset_empty_len(r.items@.to_multiset());
        }
        r
    }

    /// Arranges the values: `sift_down` at each index of the first half of
    /// the array, from the middle back to the front.
    pub fn from_vec(items: Vec<u64>) -> (r: Self)
        requires
            items@.len() <= usize::MAX / 4,
            heapify(items@, (items@.len() / 2) as int) is Some,
        ensures
            r.inv(),
            r.items() == heapify(items@, (items@.len() / 2) as int)->0,
            r@ == items@.to_multiset(),
    {
        let ghost goal = heapify(items@, (items@.len() / 2) as int);
        let mut heap = Self { items };
        let n = heap.items.len();
        let mut index = n / 2;
        while index > 0
            invariant
                heap.items@.len() == n,
                n <= usize::MAX / 4,
                index <= n / 2,
                heapify(heap.items@, index as int) == goal,
                goal is Some,
            decreases index,
        {
            index = index - 1;
            let ghost cur = heap.items@;
            proof { assert(heapify(cur, index as int + 1) == heapify(sift_down(cur, index as int)->0, index as int)); }
            heap.sift_down(index);
            proof { lemma_sift_down(cur, index as int); }
        }
        proof { lemma_heapify(items@, (items@.len() / 2) as int); }
        heap
    }

    /// Adds a value at the end of the array and moves it up.
    pub fn push(&mut self, value: u64)
        requires
            old(self).inv(),
        ensures
            final(self).inv(),
            final(self).items() == sift_up(old(self).items().push(value), old(self).items().len() as int),
            final(self)@ == old(self)@.insert(value),
            heap_ordered(old(self).items()) ==> heap_ordered(final(self).items()),
    {
        let ghost s = self.items@;
        proof {
            if heap_ordered(s) {
                lemma_push_ordered(s, value);
            }
        }
        self.items.push(value);
        proof {
            assert(s.push(value).to_multiset() == s.to_multiset().insert(value)) by {
                vstd::seq_lib::to_multiset_build(s, value);
            }
            lemma_sift_up(s.push(value), s.len() as int);
        }
        let last = self.items.len() - 1;
        self.sift_up(last);
    }

    /// Takes out the first value of the array; the last one takes its place
    /// and moves down.
    pub fn pop(&mut self) -> (r: Option<u64>)
        requires
            old(self).inv(),
            old(self).items().len() <= usize::MAX / 4,
            old(self).items().len() > 0 ==> sift_down(without_first(old(self).items()), 0) is Some,
        ensures
            final(self).inv(),
            old(self).items().len() == 0 ==> r is None && final(self).items() == old(self).items(),
            old(self).items().len() > 0 ==> r == Some(old(self).items()[0])
                && final(self).items() == sift_down(without_first(old(self).items()), 0)->0
                && final(self)@ == old(self)@.remove(old(self).items()[0]),
    {
        if self.items.len() == 0 {
            return None;
        }
        let ghost s = self.items@;
        let first = self.items.swap_remove(0);
        proof {
            assert(self.items@ =~= without_first(s));
            lemma_without_first(s);
        }
        if self.items.len() > 0 {
            self.sift_down(0);
        } else {
            proof { assert(sift_down(without_first(s), 0) == Some(without_first(s))); }
        }
        proof {
            lemma_sift_down(without_first(s), 0);
        }
        Some(first)
    }

    /// The first value of the array, without removing it.
    pub fn peek(&self) -> (r: Option<&u64>)
        ensures
            r is None <==> self.items().len() == 0,
            r matches Some(m) ==> *m == self.items()[0],
            heap_ordered(self.items()) ==> (r matches Some(m) ==> forall|x: u64| self@.contains(x) ==> *m <= x),
    {
        proof {
            let s = self.items@;
            s.to_multiset_ensures();
            if heap_ordered(s) {
                assert forall|x: u64| s.to_multiset().contains(x) implies s[0] <= x by {
                    assert(s.contains(x));
                    let j = choose|j: int| 0 <= j < s.len() && s[j] == x;
                    lemma_root_least(s, j);
                }
            }
        }
        self.items.as_slice().first()
    }

    /// Removes every value.
    pub fn clear(&mut self)
        ensures
            final(self).inv(),
            final(self).items() == Seq::<u64>::empty(),
            final(self)@ == Multiset::<u64>::empty(),
            heap_ordered(final(self).items()),
    {
        self.items.clear();
        proof {
            self.items@.to_multiset_ensures();
            vstd::multiset::lemma_multiset_empty_len(self.items@.to_multiset());
        }
    }

    fn swap(&mut self, i: usize, j: usize)
        requires
            i < old(self).items@.len(),
            j < old(self).items@.len(),
        ensures
            final(self).items@ == swapped(old(self).items@, i as int, j as int),
    {
        let a = self.items[i];
        let b = self.items[j];
        self.items.set(i, b);
        self.items.set(j, a);
    }

    /// Moves the value at `index` up while its parent is greater.
    fn sift_up(&mut self, index: usize)
        requires
            index < old(self).items@.len(),
        ensures
            final(self).items@ == sift_up(old(self).items@, index as int),
    {
        let ghost goal = sift_up(old(self).items@, index as int);
        let mut index = index;
        let n = self.items.len();
        while index > 0
            invariant
                n == self.items@.len(),
                index < n,
                sift_up(self.items@, index as int) == goal,
            ensures
                self.items@ == goal,
            decreases index,
        {
            let parent = (index - 1) / 2;
            if self.items[parent] <= self.items[index] {
                break;
            }
            self.swap(parent, index);
            index = parent;
        }
    }

    /// Moves the value at `index` down, weighing it against the entries at
    /// `4 * index` and the one after.
    fn sift_down(&mut self, index: usize)
        requires
            old(self).items@.len() <= usize::MAX / 4,
            sift_down(old(self).items@, index as int) is Some,
        ensures
            final(self).items@ == sift_down(old(self).items@, index as int)->0,
    {
        let ghost goal = sift_down(old(self).items@, index as int);
        let len = self.items.len();
        let mut index = index;
        while index < len / 2
            invariant
                len == self.items@.len(),
                len <= usize::MAX / 4,
                sift_down(self.items@, index as int) == goal,
                goal is Some,
            ensures
                self.items@ == goal->0,
            decreases len - index,
        {
            let left = index * 4;
            let right = left + 1;
            let mut smallest = left;
            if right < len && self.items[right] < self.items[left] {
                smallest = right;
            }
            proof { assert(smallest == down_child(self.items@, index as int)); }
            if self.items[index] <= self.items[smallest] {
                break;
            }
            self.swap(index, smallest);
            index = smallest;
        }
    }
}

impl Collection for MinHeap {
    closed spec fn inv(&self) -> bool {
        true
    }

    closed spec fn len_spec(&self) -> nat {
        self.items@.len()
    }

    /// The number of values, counted with their repeats.
    fn len(&self) -> (r: usize)
        ensures
            r == self@.len(),
            r == self.items().len(),
    {
        proof { self.items@.to_multiset_ensures(); }
        self.items.len()
    }
}

} // verus!
