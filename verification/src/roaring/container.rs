use vstd::prelude::*;
use super::ops::{self, Operation, apply};
use super::store::{Store, ARRAY_LIMIT, BITMAP_BYTES, run_starts, runs_pay, keeps_runs};
use super::store::array::{ArrayStore, increasing, values_set, closed_range};
use super::store::run::{RunStore, lemma_runs_starts};

verus! {

/// The low halves of the values whose high half is `key`.
#[derive(Debug)]
pub struct Container {
    pub key: u16,
    pub store: Store,
}

impl Container {
    pub open spec fn store_spec(&self) -> Store {
        self.store
    }

    /// The store is sound, and unless empty it has the form its size calls for.
    pub open spec fn wf(&self) -> bool {
        &&& self.store_spec().wf()
        &&& (self@.len() == 0 || self.store_spec().size_policy())
    }

    pub open spec fn view(&self) -> Set<int> {
        self.store_spec()@
    }

    pub proof fn lemma_view(&self)
        requires
            self.wf(),
        ensures
            self@.finite(),
            self@.len() <= 0x10000,
            forall|x: int| self@.contains(x) ==> 0 <= x < 0x10000,
    {
        self.store.lemma_view();
    }

    pub fn singleton(key: u16, low: u16) -> (r: Self)
        ensures
            r.wf(),
            r.key == key,
            r@ == Set::<int>::empty().insert(low as int),
            !(r.store_spec() is Run),
    {
        let r = Container { key, store: Store::singleton(low) };
        proof {
            assert(r@.len() == 1) by {
                assert(Set::<int>::empty().insert(low as int).len() == 1);
            }
        }
        r
    }

    /// A container holding `start` through `end`.
    pub fn from_range(key: u16, start: u16, end: u16) -> (r: Self)
        requires
            start <= end,
        ensures
            r.wf(),
            r.key == key,
            r@ == closed_range(start as int, end as int),
            (r.store_spec() is Run) == (end - start + 1 > 2),
    {
        let len = (end as u32) - (start as u32) + 1;
        let store = if len > 2 {
            Store::Run(RunStore::from_range(start, end))
        } else {
            let mut a = ArrayStore::new();
            a.insert_range(start, end);
            proof {
                super::store::array::lemma_closed_range(start as int, end as int);
                assert(Set::<int>::empty().union(closed_range(start as int, end as int)) =~= closed_range(start as int, end as int));
            }
            Store::Array(a)
        };
        Container { key, store }
    }

    pub fn insert_range(&mut self, a: u16, b: u16) -> (r: u32)
        requires
            old(self).wf(),
            a <= b,
        ensures
            final(self).wf(),
            final(self).key == old(self).key,
            final(self)@ == old(self)@.union(closed_range(a as int, b as int)),
            r == final(self)@.len() - old(self)@.len(),
            (final(self).store_spec() is Run) == (old(self).store_spec() is Run && (r == 0 || keeps_runs(final(self)@))),
    {
        let n = self.store.insert_range(a, b);
        if n != 0 {
            self.ensure_efficient_store();
        }
        n
    }

    pub fn remove_range(&mut self, a: u16, b: u16) -> (r: u32)
        requires
            old(self).wf(),
            a <= b,
        ensures
            final(self).wf(),
            final(self).key == old(self).key,
            final(self)@ == old(self)@.difference(closed_range(a as int, b as int)),
            r == old(self)@.len() - final(self)@.len(),
            (final(self).store_spec() is Run) == (old(self).store_spec() is Run
                && (r == 0 || final(self)@.len() == 0 || keeps_runs(final(self)@))),
    {
        let n = self.store.remove_range(a, b);
        if n != 0 && !self.store.is_empty() {
            self.ensure_efficient_store();
        }
        n
    }

    pub fn run_optimize(&mut self) -> (r: bool)
        requires
            old(self).wf(),
        ensures
            final(self).wf(),
            final(self).key == old(self).key,
            final(self)@ == old(self)@,
            r == old(self).store_spec().would_run(),
            (final(self).store_spec() is Run) == r,
    {
        self.store.run_optimize()
    }

    /// Combines two containers of the same key.
    pub fn combine(&self, other: &Self, op: Operation) -> (r: Self)
        requires
            self.wf(),
            other.wf(),
        ensures
            r.wf(),
            r.key == self.key,
            r@ == apply(op, self@, other@),
            (r.store_spec() is Run) == (r@.len() > 0 && runs_pay(r@)),
    {
        Container { key: self.key, store: ops::combine(&self.store, &other.store, op) }
    }

    pub fn len(&self) -> (r: u32)
        requires
            self.wf(),
        ensures
            r == self@.len(),
    {
        self.store.len()
    }

    pub fn is_empty(&self) -> (r: bool)
        requires
            self.wf(),
        ensures
            r == (self@.len() == 0),
    {
        self.store.is_empty()
    }

    pub fn contains(&self, low: u16) -> (r: bool)
        requires
            self.wf(),
        ensures
            r == self@.contains(low as int),
    {
        self.store.contains(low)
    }

    /// The low halves in increasing order.
    pub fn iter(&self) -> (r: Vec<u16>)
        requires
            self.wf(),
        ensures
            increasing(r@),
            values_set(r@) == self@,
    {
        self.store.iter()
    }

    /// Checks that the container is nonempty, sound, and in the form its size calls for.
    pub fn validate(&self) -> (r: bool)
        requires
            self.store_spec().shaped(),
        ensures
            r == (self.store_spec().wf() && self@.len() > 0 && self.store_spec().size_policy()),
    {
        let ok = self.store.validate();
        if !ok {
            return false;
        }
        !self.is_empty()
    }

    pub fn insert(&mut self, low: u16) -> (r: bool)
        requires
            old(self).wf(),
        ensures
            final(self).wf(),
            final(self).key == old(self).key,
            final(self)@ == old(self)@.insert(low as int),
            r == !old(self)@.contains(low as int),
            (final(self).store_spec() is Run) == (old(self).store_spec() is Run && (!r || keeps_runs(final(self)@))),
    {
        proof { self.lemma_view(); }
        let ghost o = self@;
        let inserted = self.store.insert(low);
        if inserted {
            self.ensure_efficient_store();
        } else {
            proof {
                assert(o.insert(low as int) =~= o);
                vstd::set_lib::lemma_len_subset(Set::<int>::empty().insert(low as int), o);
            }
        }
        inserted
    }

    pub fn remove(&mut self, low: u16) -> (r: bool)
        requires
            old(self).wf(),
        ensures
            final(self).wf(),
            final(self).key == old(self).key,
            final(self)@ == old(self)@.remove(low as int),
            r == old(self)@.contains(low as int),
            (final(self).store_spec() is Run) == (old(self).store_spec() is Run
                && (!r || final(self)@.len() == 0 || keeps_runs(final(self)@))),
    {
        proof { self.lemma_view(); }
        let ghost o = self@;
        let removed = self.store.remove(low);
        proof {
            if !removed {
                assert(o.remove(low as int) =~= o);
            }
        }
        if removed && !self.store.is_empty() {
            self.ensure_efficient_store();
        }
        removed
    }

    /// Converts between array, bitmap and runs so the form suits the size.
    fn ensure_efficient_store(&mut self)
        requires
            old(self).store_spec().wf(),
        ensures
            final(self).store_spec().wf(),
            final(self).store_spec().size_policy(),
            final(self).key == old(self).key,
            final(self)@ == old(self)@,
            (final(self).store_spec() is Run) == (old(self).store_spec() is Run && keeps_runs(old(self)@)),
            final(self).store_spec() is Run ==> keeps_runs(final(self)@),
    {
        proof { self.store.lemma_view(); }
        // 0: keep, 1: to array, 2: to bitmap
        let conv: u8 = match &self.store {
            Store::Array(array) => if array.len() > ARRAY_LIMIT { 2 } else { 0 },
            Store::Bitmap(bitmap) => if bitmap.len() <= ARRAY_LIMIT { 1 } else { 0 },
            Store::Run(run) => {
                proof {
                    run.lemma_view();
                    super::store::run::lemma_runs_card_count(run.runs_seq());
                    lemma_runs_starts(run.runs_seq());
                }
                if run.len() <= ARRAY_LIMIT && (run.len() as usize) * 2 < 2 + run.run_count() * 4 {
                    1
                } else if BITMAP_BYTES < 2 + run.run_count() * 4 {
                    2
                } else {
                    0
                }
            }
        };
        if conv == 0 {
            return;
        }
        let mut current = Store::Array(ArrayStore::new());
        std::mem::swap(&mut current, &mut self.store);
        if conv == 2 {
            self.store = current.into_bitmap();
        } else {
            self.store = current.into_array();
        }
    }
}

impl Clone for Container {
    fn clone(&self) -> (r: Self)
        ensures
            r.key == self.key,
            r.wf() == self.wf(),
            r@ == self@,
            r.store_spec().shaped() == self.store_spec().shaped(),
            r.store_spec().size_policy() == self.store_spec().size_policy(),
            r.store_spec().wf() == self.store_spec().wf(),
            (r.store_spec() is Run) == (self.store_spec() is Run),
    {
        Container { key: self.key, store: self.store.clone() }
    }
}

} // verus!
