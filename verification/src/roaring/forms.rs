use vstd::prelude::*;
use super::container::Container;
use super::ops::{Operation, apply};
use super::store::{keeps_runs, runs_pay};
use super::bitmap::{containers_set, containers_wf};
use super::iter::values32_set;

verus! {

/// The low halves of the values whose high half is `key`.
pub open spec fn lows(values: Set<int>, key: int) -> Set<int> {
    Set::new(|l: int| 0 <= l < 0x10000 && values.contains(0x10000 * key + l))
}

/// The keys of the containers that hold their values as runs.
pub open spec fn keys_in_runs(cs: Seq<Container>) -> Set<int> {
    Set::new(|k: int| exists|i: int| #![trigger cs[i]] 0 <= i < cs.len() && cs[i].key == k && cs[i].store_spec() is Run)
}

/// The keys held as runs after the values change from `before` to `after`:
/// a key keeps its runs while its values stay the same, or while they still
/// keep runs once its container settles its form.
pub open spec fn settled(runs: Set<int>, before: Set<int>, after: Set<int>) -> Set<int> {
    runs.filter(|k: int| lows(before, k) == lows(after, k) || keeps_runs(lows(after, k)))
}

/// A container's values are the low halves under its key.
pub proof fn lemma_lows_at(cs: Seq<Container>, i: int)
    requires
        containers_wf(cs),
        0 <= i < cs.len(),
    ensures
        lows(containers_set(cs), cs[i].key as int) == cs[i]@,
{
    let k = cs[i].key as int;
    assert(cs[i].wf());
    cs[i].lemma_view();
    assert forall|l: int| #[trigger] lows(containers_set(cs), k).contains(l) <==> cs[i]@.contains(l) by {
        if 0 <= l < 0x10000 {
            let x = 0x10000 * k + l;
            assert(x / 0x10000 == k && x % 0x10000 == l);
            if containers_set(cs).contains(x) {
                let j = choose|j: int| #![trigger cs[j]] 0 <= j < cs.len() && cs[j].key == x / 0x10000 && cs[j]@.contains(x % 0x10000);
                if j != i {
                    if j < i { assert(cs[j].key < cs[i].key); } else { assert(cs[i].key < cs[j].key); }
                }
            }
            if cs[i]@.contains(l) {
                assert(containers_set(cs).contains(x));
            }
        }
    }
    assert(lows(containers_set(cs), k) =~= cs[i]@);
}

/// A key with no container has no values.
pub proof fn lemma_lows_missing(cs: Seq<Container>, k: int)
    requires
        forall|i: int| 0 <= i < cs.len() ==> cs[i].key != k,
    ensures
        lows(containers_set(cs), k) == Set::<int>::empty(),
{
    assert forall|l: int| !#[trigger] lows(containers_set(cs), k).contains(l) by {
        if 0 <= l < 0x10000 {
            let x = 0x10000 * k + l;
            assert(x / 0x10000 == k && x % 0x10000 == l);
        }
    }
    assert(lows(containers_set(cs), k) =~= Set::<int>::empty());
}

/// Sets that agree under a key have the same low halves there.
pub proof fn lemma_lows_same(a: Set<int>, b: Set<int>, k: int)
    requires
        forall|x: int| #![trigger a.contains(x)] #![trigger b.contains(x)]
            0x10000 * k <= x < 0x10000 * k + 0x10000 ==> a.contains(x) == b.contains(x),
    ensures
        lows(a, k) == lows(b, k),
{
    assert forall|l: int| #[trigger] lows(a, k).contains(l) <==> lows(b, k).contains(l) by {
        if 0 <= l < 0x10000 {
            assert(a.contains(0x10000 * k + l) == b.contains(0x10000 * k + l));
        }
    }
    assert(lows(a, k) =~= lows(b, k));
}

/// A key held as runs has a container.
pub proof fn lemma_run_key_has_container(cs: Seq<Container>, k: int)
    requires
        containers_wf(cs),
        keys_in_runs(cs).contains(k),
    ensures
        lows(containers_set(cs), k).len() > 0,
        lows(containers_set(cs), k).finite(),
{
    let i = choose|i: int| #![trigger cs[i]] 0 <= i < cs.len() && cs[i].key == k && cs[i].store_spec() is Run;
    lemma_lows_at(cs, i);
    assert(cs[i].wf());
    cs[i].lemma_view();
}

/// Replacing the container at `i` by one of the same key.
pub proof fn lemma_runs_update(cs: Seq<Container>, i: int, c: Container)
    requires
        containers_wf(cs),
        0 <= i < cs.len(),
        c.key == cs[i].key,
    ensures
        keys_in_runs(cs.update(i, c)) == if c.store_spec() is Run {
            keys_in_runs(cs).insert(c.key as int)
        } else {
            keys_in_runs(cs).remove(c.key as int)
        },
{
    let t = cs.update(i, c);
    let k = c.key as int;
    let want = if c.store_spec() is Run { keys_in_runs(cs).insert(k) } else { keys_in_runs(cs).remove(k) };
    assert forall|x: int| #[trigger] keys_in_runs(t).contains(x) <==> want.contains(x) by {
        if keys_in_runs(t).contains(x) {
            let j = choose|j: int| #![trigger t[j]] 0 <= j < t.len() && t[j].key == x && t[j].store_spec() is Run;
            if j != i {
                assert(cs[j] == t[j]);
                if j < i { assert(cs[j].key < cs[i].key); } else { assert(cs[i].key < cs[j].key); }
            }
        }
        if keys_in_runs(cs).contains(x) && x != k {
            let j = choose|j: int| #![trigger cs[j]] 0 <= j < cs.len() && cs[j].key == x && cs[j].store_spec() is Run;
            assert(j != i);
            assert(t[j] == cs[j]);
        }
        if x == k && c.store_spec() is Run {
            assert(t[i] == c);
        }
    }
    assert(keys_in_runs(t) =~= want);
}

/// Adding a container of a new key at `i`.
pub proof fn lemma_runs_insert(cs: Seq<Container>, i: int, c: Container)
    requires
        0 <= i <= cs.len(),
        forall|j: int| 0 <= j < cs.len() ==> cs[j].key != c.key,
    ensures
        keys_in_runs(cs.insert(i, c)) == if c.store_spec() is Run {
            keys_in_runs(cs).insert(c.key as int)
        } else {
            keys_in_runs(cs)
        },
{
    let t = cs.insert(i, c);
    let k = c.key as int;
    let want = if c.store_spec() is Run { keys_in_runs(cs).insert(k) } else { keys_in_runs(cs) };
    assert forall|x: int| #[trigger] keys_in_runs(t).contains(x) <==> want.contains(x) by {
        if keys_in_runs(t).contains(x) {
            let j = choose|j: int| #![trigger t[j]] 0 <= j < t.len() && t[j].key == x && t[j].store_spec() is Run;
            if j < i {
                assert(t[j] == cs[j]);
            } else if j > i {
                assert(t[j] == cs[j - 1]);
            }
        }
        if keys_in_runs(cs).contains(x) {
            let j = choose|j: int| #![trigger cs[j]] 0 <= j < cs.len() && cs[j].key == x && cs[j].store_spec() is Run;
            if j < i {
                assert(t[j] == cs[j]);
            } else {
                assert(t[j + 1] == cs[j]);
            }
        }
        if x == k && c.store_spec() is Run {
            assert(t[i] == c);
        }
    }
    assert(keys_in_runs(t) =~= want);
}

/// Taking out the container at `i`.
pub proof fn lemma_runs_remove(cs: Seq<Container>, i: int)
    requires
        containers_wf(cs),
        0 <= i < cs.len(),
    ensures
        keys_in_runs(cs.remove(i)) == keys_in_runs(cs).remove(cs[i].key as int),
{
    let t = cs.remove(i);
    let k = cs[i].key as int;
    assert forall|x: int| #[trigger] keys_in_runs(t).contains(x) <==> keys_in_runs(cs).remove(k).contains(x) by {
        if keys_in_runs(t).contains(x) {
            let j = choose|j: int| #![trigger t[j]] 0 <= j < t.len() && t[j].key == x && t[j].store_spec() is Run;
            if j < i {
                assert(t[j] == cs[j]);
                assert(cs[j].key < cs[i].key);
            } else {
                assert(t[j] == cs[j + 1]);
                assert(cs[i].key < cs[j + 1].key);
            }
        }
        if keys_in_runs(cs).contains(x) && x != k {
            let j = choose|j: int| #![trigger cs[j]] 0 <= j < cs.len() && cs[j].key == x && cs[j].store_spec() is Run;
            assert(j != i);
            if j < i {
                assert(t[j] == cs[j]);
            } else {
                assert(t[j - 1] == cs[j]);
            }
        }
    }
    assert(keys_in_runs(t) =~= keys_in_runs(cs).remove(k));
}

/// The container at `i` is held as runs exactly when its key is a run key.
pub proof fn lemma_run_key_at(cs: Seq<Container>, i: int)
    requires
        containers_wf(cs),
        0 <= i < cs.len(),
    ensures
        keys_in_runs(cs).contains(cs[i].key as int) == (cs[i].store_spec() is Run),
{
    if keys_in_runs(cs).contains(cs[i].key as int) {
        let j = choose|j: int| #![trigger cs[j]] 0 <= j < cs.len() && cs[j].key == cs[i].key && cs[j].store_spec() is Run;
        if j != i {
            if j < i { assert(cs[j].key < cs[i].key); } else { assert(cs[i].key < cs[j].key); }
        }
    }
}

/// When the values change only under `key`, only `key` can leave the run keys.
pub proof fn lemma_settled_one(runs: Set<int>, before: Set<int>, after: Set<int>, key: int)
    requires
        forall|x: int| #![trigger before.contains(x)] #![trigger after.contains(x)]
            !(0x10000 * key <= x < 0x10000 * key + 0x10000) ==> before.contains(x) == after.contains(x),
    ensures
        settled(runs, before, after) == if runs.contains(key)
            && !(lows(before, key) == lows(after, key) || keeps_runs(lows(after, key))) {
            runs.remove(key)
        } else {
            runs
        },
{
    let want = if runs.contains(key) && !(lows(before, key) == lows(after, key) || keeps_runs(lows(after, key))) {
        runs.remove(key)
    } else {
        runs
    };
    assert forall|k: int| #[trigger] settled(runs, before, after).contains(k) <==> want.contains(k) by {
        if k != key {
            assert forall|x: int| #![trigger before.contains(x)] #![trigger after.contains(x)]
                0x10000 * k <= x < 0x10000 * k + 0x10000 implies before.contains(x) == after.contains(x) by {
                if k < key {
                    assert(0x10000 * k + 0x10000 <= 0x10000 * key);
                } else {
                    assert(0x10000 * key + 0x10000 <= 0x10000 * k);
                }
            }
            lemma_lows_same(before, after, k);
        }
    }
    assert(settled(runs, before, after) =~= want);
}

/// A step that changes the values only under `key`, where they were still as
/// at the start: only `key` can leave the run keys.
pub proof fn lemma_settled_step(runs: Set<int>, start: Set<int>, before: Set<int>, after: Set<int>, key: int)
    requires
        lows(start, key) == lows(before, key),
        forall|k: int| k != key ==> #[trigger] lows(after, k) == lows(before, k),
    ensures
        settled(runs, start, after) == if settled(runs, start, before).contains(key)
            && !(lows(before, key) == lows(after, key) || keeps_runs(lows(after, key))) {
            settled(runs, start, before).remove(key)
        } else {
            settled(runs, start, before)
        },
{
    let prev = settled(runs, start, before);
    let want = if prev.contains(key) && !(lows(before, key) == lows(after, key) || keeps_runs(lows(after, key))) {
        prev.remove(key)
    } else {
        prev
    };
    assert forall|k: int| #[trigger] settled(runs, start, after).contains(k) <==> want.contains(k) by {
        if k != key {
            assert(lows(after, k) == lows(before, k));
        }
    }
    assert(settled(runs, start, after) =~= want);
}

/// Replacing the container at `i` leaves the values under every other key.
pub proof fn lemma_lows_frame_update(cs: Seq<Container>, i: int, c: Container)
    requires
        containers_wf(cs),
        containers_wf(cs.update(i, c)),
        0 <= i < cs.len(),
        c.key == cs[i].key,
    ensures
        forall|k: int| k != c.key ==> #[trigger] lows(containers_set(cs.update(i, c)), k) == lows(containers_set(cs), k),
{
    let t = cs.update(i, c);
    assert forall|k: int| k != c.key implies #[trigger] lows(containers_set(t), k) == lows(containers_set(cs), k) by {
        if exists|j: int| 0 <= j < cs.len() && cs[j].key == k {
            let j = choose|j: int| 0 <= j < cs.len() && cs[j].key == k;
            assert(j != i);
            assert(t[j] == cs[j]);
            lemma_lows_at(cs, j);
            lemma_lows_at(t, j);
        } else {
            lemma_lows_missing(cs, k);
            assert forall|j: int| 0 <= j < t.len() implies t[j].key != k by {
                if j != i { assert(t[j] == cs[j]); }
            }
            lemma_lows_missing(t, k);
        }
    }
}

/// Taking out the container at `i` leaves the values under every other key.
pub proof fn lemma_lows_frame_remove(cs: Seq<Container>, i: int)
    requires
        containers_wf(cs),
        containers_wf(cs.remove(i)),
        0 <= i < cs.len(),
    ensures
        forall|k: int| k != cs[i].key ==> #[trigger] lows(containers_set(cs.remove(i)), k) == lows(containers_set(cs), k),
{
    let t = cs.remove(i);
    assert forall|k: int| k != cs[i].key implies #[trigger] lows(containers_set(t), k) == lows(containers_set(cs), k) by {
        if exists|j: int| 0 <= j < cs.len() && cs[j].key == k {
            let j = choose|j: int| 0 <= j < cs.len() && cs[j].key == k;
            assert(j != i);
            lemma_lows_at(cs, j);
            if j < i {
                assert(t[j] == cs[j]);
                lemma_lows_at(t, j);
            } else {
                assert(t[j - 1] == cs[j]);
                lemma_lows_at(t, j - 1);
            }
        } else {
            lemma_lows_missing(cs, k);
            assert forall|j: int| 0 <= j < t.len() implies t[j].key != k by {
                if j < i { assert(t[j] == cs[j]); } else { assert(t[j] == cs[j + 1]); }
            }
            lemma_lows_missing(t, k);
        }
    }
}

/// Adding a container of a new key leaves the values under every other key.
pub proof fn lemma_lows_frame_insert(cs: Seq<Container>, i: int, c: Container)
    requires
        containers_wf(cs),
        containers_wf(cs.insert(i, c)),
        0 <= i <= cs.len(),
    ensures
        forall|k: int| k != c.key ==> #[trigger] lows(containers_set(cs.insert(i, c)), k) == lows(containers_set(cs), k),
{
    let t = cs.insert(i, c);
    assert forall|k: int| k != c.key implies #[trigger] lows(containers_set(t), k) == lows(containers_set(cs), k) by {
        if exists|j: int| 0 <= j < cs.len() && cs[j].key == k {
            let j = choose|j: int| 0 <= j < cs.len() && cs[j].key == k;
            lemma_lows_at(cs, j);
            if j < i {
                assert(t[j] == cs[j]);
                lemma_lows_at(t, j);
            } else {
                assert(t[j + 1] == cs[j]);
                lemma_lows_at(t, j + 1);
            }
        } else {
            lemma_lows_missing(cs, k);
            assert forall|j: int| 0 <= j < t.len() implies t[j].key != k by {
                if j < i { assert(t[j] == cs[j]); } else if j > i { assert(t[j] == cs[j - 1]); }
            }
            lemma_lows_missing(t, k);
        }
    }
}

/// The keys that had no values before and hold more than two after: a
/// container made for a range of more than two values holds it as runs.
pub open spec fn fresh_runs(before: Set<int>, after: Set<int>) -> Set<int> {
    Set::new(|k: int| lows(before, k).len() == 0 && lows(after, k).len() > 2)
}

/// A step that changes the values only under `key` changes the fresh run
/// keys only at `key`.
pub proof fn lemma_fresh_step(start: Set<int>, before: Set<int>, after: Set<int>, key: int)
    requires
        forall|k: int| k != key ==> #[trigger] lows(after, k) == lows(before, k),
    ensures
        fresh_runs(start, after) == if lows(start, key).len() == 0 && lows(after, key).len() > 2 {
            fresh_runs(start, before).insert(key)
        } else {
            fresh_runs(start, before).remove(key)
        },
{
    let want = if lows(start, key).len() == 0 && lows(after, key).len() > 2 {
        fresh_runs(start, before).insert(key)
    } else {
        fresh_runs(start, before).remove(key)
    };
    assert forall|k: int| #[trigger] fresh_runs(start, after).contains(k) <==> want.contains(k) by {
        if k != key {
            assert(lows(after, k) == lows(before, k));
        }
    }
    assert(fresh_runs(start, after) =~= want);
}

/// The keys whose values would take fewer bytes as runs.
pub open spec fn paying_runs(values: Set<int>) -> Set<int> {
    Set::new(|k: int| lows(values, k).len() > 0 && runs_pay(lows(values, k)))
}

/// The keys held as runs in the result of `op` on bitmaps holding `a` and
/// `b`, with run keys `a_runs` and `b_runs`: a key with values on both sides
/// gets a container of the form that suits the result, which holds runs when
/// they pay; a key with values on one side keeps that side's container where
/// `op` keeps its values.
pub open spec fn combined_runs(op: Operation, a_runs: Set<int>, b_runs: Set<int>, a: Set<int>, b: Set<int>) -> Set<int> {
    Set::new(|k: int|
        if lows(a, k).len() > 0 && lows(b, k).len() > 0 {
            runs_pay(lows(apply(op, a, b), k))
        } else if lows(a, k).len() > 0 {
            a_runs.contains(k) && !(op is Intersection)
        } else {
            b_runs.contains(k) && (op is Union || op is SymmetricDifference)
        })
}

/// A set operation acts on the values under each key separately.
pub proof fn lemma_lows_apply(op: Operation, a: Set<int>, b: Set<int>, k: int)
    ensures
        lows(apply(op, a, b), k) == apply(op, lows(a, k), lows(b, k)),
{
    assert(lows(apply(op, a, b), k) =~= apply(op, lows(a, k), lows(b, k)));
}

/// The run keys after `values` are inserted one after another into a bitmap
/// holding `start` with run keys `runs`.
pub open spec fn runs_after_inserts(runs: Set<int>, start: Set<int>, values: Seq<u32>) -> Set<int>
    decreases values.len(),
{
    if values.len() == 0 {
        runs
    } else {
        let before = start.union(values32_set(values.drop_last()));
        settled(runs_after_inserts(runs, start, values.drop_last()), before, before.insert(values.last() as int))
    }
}

/// Inserts into a bitmap without runs leave it without runs.
pub proof fn lemma_no_runs_after_inserts(start: Set<int>, values: Seq<u32>)
    ensures
        runs_after_inserts(Set::<int>::empty(), start, values) == Set::<int>::empty(),
    decreases values.len(),
{
    if values.len() > 0 {
        lemma_no_runs_after_inserts(start, values.drop_last());
        let before = start.union(values32_set(values.drop_last()));
        assert(settled(Set::<int>::empty(), before, before.insert(values.last() as int)) =~= Set::<int>::empty());
    }
}

} // verus!
