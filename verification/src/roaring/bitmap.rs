use vstd::prelude::*;
use super::container::Container;
use super::ops::{Operation, apply, apply_bit};
use super::util::{split, join, key_of, low_of, join_spec};
use super::store::array::closed_range;
use super::store::runs_pay;
use super::iter::{Iter, increasing32, values32_set};
use super::forms::{lows, keys_in_runs, settled, lemma_lows_at, lemma_lows_missing, lemma_lows_same,
    lemma_run_key_at, lemma_settled_one, lemma_settled_step, lemma_runs_update, lemma_runs_insert,
    lemma_runs_remove, lemma_lows_frame_update, lemma_lows_frame_remove, lemma_lows_frame_insert,
    fresh_runs, lemma_fresh_step, lemma_run_key_has_container, paying_runs, combined_runs, lemma_lows_apply,
    runs_after_inserts, lemma_no_runs_after_inserts};

verus! {

/// Values held by containers: `x` is there when the container with key `x / 65536`
/// holds `x % 65536`.
pub open spec fn containers_set(cs: Seq<Container>) -> Set<int> {
    Set::new(|x: int| 0 <= x < 0x1_0000_0000 && exists|i: int| #![trigger cs[i]]
        0 <= i < cs.len() && cs[i].key == x / 0x10000 && cs[i]@.contains(x % 0x10000))
}

/// Sum of the containers' sizes.
pub open spec fn containers_card(cs: Seq<Container>) -> nat
    decreases cs.len(),
{
    if cs.len() == 0 {
        0
    } else {
        containers_card(cs.drop_last()) + cs.last()@.len()
    }
}

/// Keys strictly increase, and every container is sound and nonempty.
pub open spec fn containers_wf(cs: Seq<Container>) -> bool {
    &&& forall|i: int, j: int| 0 <= i < j < cs.len() ==> cs[i].key < cs[j].key
    &&& forall|i: int| 0 <= i < cs.len() ==> (#[trigger] cs[i]).wf() && cs[i]@.len() > 0
}

/// The values of one container, placed under its key.
pub open spec fn shifted(c: Container) -> Set<int> {
    c@.map(|l: int| 0x10000 * c.key + l)
}

proof fn lemma_divmod(x: int, k: int, l: int)
    requires
        0 <= l < 0x10000,
        x == 0x10000 * k + l,
    ensures
        x / 0x10000 == k,
        x % 0x10000 == l,
{
}

proof fn lemma_shifted(c: Container)
    requires
        c.wf(),
    ensures
        shifted(c).finite(),
        shifted(c).len() == c@.len(),
        forall|x: int| #[trigger] shifted(c).contains(x) <==> (0x10000 * c.key <= x < 0x10000 * c.key + 0x10000
            && c@.contains(x - 0x10000 * c.key)),
{
    c.lemma_view();
    let f = |l: int| 0x10000 * c.key + l;
    assert(vstd::relations::injective_on(f, c@));
    vstd::set_lib::lemma_map_size(c@, shifted(c), f);
    assert forall|x: int| #[trigger] shifted(c).contains(x) <==> (0x10000 * c.key <= x < 0x10000 * c.key + 0x10000
        && c@.contains(x - 0x10000 * c.key)) by {
        if 0x10000 * c.key <= x < 0x10000 * c.key + 0x10000 && c@.contains(x - 0x10000 * c.key) {
            assert(f(x - 0x10000 * c.key) == x);
        }
    }
}

/// Sound containers hold as many values as their sizes add up to.
pub proof fn lemma_containers_len(cs: Seq<Container>)
    requires
        containers_wf(cs),
    ensures
        containers_set(cs).finite(),
        containers_set(cs).len() == containers_card(cs),
        forall|x: int| containers_set(cs).contains(x) ==> (cs.len() > 0 && x < 0x10000 * cs.last().key + 0x10000),
    decreases cs.len(),
{
    if cs.len() == 0 {
        assert(containers_set(cs) =~= Set::empty());
    } else {
        let t = cs.drop_last();
        let l = cs.last();
        assert(containers_wf(t)) by {
            assert forall|i: int| 0 <= i < t.len() implies (#[trigger] t[i]).wf() && t[i]@.len() > 0 by {
                assert(t[i] == cs[i]);
                assert(cs[i].wf());
            }
        }
        lemma_containers_len(t);
        assert(cs[cs.len() - 1].wf());
        lemma_shifted(l);
        assert forall|x: int| #[trigger] containers_set(cs).contains(x) <==> containers_set(t).union(shifted(l)).contains(x) by {
            if containers_set(cs).contains(x) {
                let i = choose|i: int| #![trigger cs[i]] 0 <= i < cs.len() && cs[i].key == x / 0x10000 && cs[i]@.contains(x % 0x10000);
                if i < t.len() {
                    assert(t[i] == cs[i]);
                } else {
                    assert(x == 0x10000 * l.key + x % 0x10000);
                }
            }
            if containers_set(t).contains(x) {
                let i = choose|i: int| #![trigger t[i]] 0 <= i < t.len() && t[i].key == x / 0x10000 && t[i]@.contains(x % 0x10000);
                assert(cs[i] == t[i]);
            }
            if shifted(l).contains(x) {
                l.lemma_view();
                lemma_divmod(x, l.key as int, x - 0x10000 * l.key);
                assert(cs[cs.len() - 1] == l);
            }
        }
        assert(containers_set(cs) =~= containers_set(t).union(shifted(l)));
        assert(containers_set(t).disjoint(shifted(l))) by {
            assert forall|x: int| containers_set(t).contains(x) implies !shifted(l).contains(x) by {
                assert(t.len() > 0);
                assert(t.last() == cs[t.len() - 1]);
                assert(cs[t.len() - 1].key < cs[cs.len() - 1].key);
            }
        }
        vstd::set_lib::lemma_set_disjoint_lens(containers_set(t), shifted(l));
        assert forall|x: int| containers_set(cs).contains(x) implies (cs.len() > 0 && x < 0x10000 * cs.last().key + 0x10000) by {
            if containers_set(t).contains(x) {
                assert(t.last() == cs[t.len() - 1]);
                assert(cs[t.len() - 1].key < cs[cs.len() - 1].key);
            }
        }
    }
}

/// Replacing a container by another with the same key swaps its values.
proof fn lemma_update(cs: Seq<Container>, i: int, c: Container)
    requires
        containers_wf(cs),
        0 <= i < cs.len(),
        c.key == cs[i].key,
        c.wf(),
        c@.len() > 0,
    ensures
        containers_wf(cs.update(i, c)),
        containers_set(cs.update(i, c)) == containers_set(cs).difference(shifted(cs[i])).union(shifted(c)),
        shifted(cs[i]).subset_of(containers_set(cs)),
        containers_set(cs).difference(shifted(cs[i])).disjoint(shifted(c)),
{
    let u = cs.update(i, c);
    assert(cs[i].wf());
    lemma_shifted(cs[i]);
    lemma_shifted(c);
    assert(containers_wf(u)) by {
        assert forall|a: int| 0 <= a < u.len() implies (#[trigger] u[a]).wf() && u[a]@.len() > 0 by {
            if a != i { assert(u[a] == cs[a]); }
        }
    }
    assert forall|x: int| #[trigger] containers_set(u).contains(x) <==>
        containers_set(cs).difference(shifted(cs[i])).union(shifted(c)).contains(x) by {
        if 0 <= x < 0x1_0000_0000 {
            let k = x / 0x10000;
            let l = x % 0x10000;
            lemma_divmod(x, k, l);
            if containers_set(u).contains(x) {
                let j = choose|j: int| #![trigger u[j]] 0 <= j < u.len() && u[j].key == k && u[j]@.contains(l);
                if j != i {
                    assert(cs[j] == u[j]);
                    if j < i { assert(cs[j].key < cs[i].key); } else { assert(cs[i].key < cs[j].key); }
                }
            }
            if containers_set(cs).contains(x) && !shifted(cs[i]).contains(x) {
                let j = choose|j: int| #![trigger cs[j]] 0 <= j < cs.len() && cs[j].key == k && cs[j]@.contains(l);
                assert(j != i);
                assert(u[j] == cs[j]);
            }
            if shifted(c).contains(x) {
                assert(u[i] == c);
            }
        } else {
            if shifted(c).contains(x) {
                c.lemma_view();
            }
        }
    }
    assert(containers_set(u) =~= containers_set(cs).difference(shifted(cs[i])).union(shifted(c)));
    assert forall|x: int| shifted(cs[i]).contains(x) implies containers_set(cs).contains(x) by {
        cs[i].lemma_view();
        lemma_divmod(x, cs[i].key as int, x - 0x10000 * cs[i].key);
    }
    assert forall|x: int| containers_set(cs).difference(shifted(cs[i])).contains(x) implies !shifted(c).contains(x) by {
        if shifted(c).contains(x) {
            c.lemma_view();
            cs[i].lemma_view();
            lemma_divmod(x, c.key as int, x - 0x10000 * c.key);
            let j = choose|j: int| #![trigger cs[j]] 0 <= j < cs.len() && cs[j].key == x / 0x10000 && cs[j]@.contains(x % 0x10000);
            if j != i {
                if j < i { assert(cs[j].key < cs[i].key); } else { assert(cs[i].key < cs[j].key); }
            }
        }
    }
}

/// Inserting a container with a new key, in key order, adds its values.
proof fn lemma_insert_at(cs: Seq<Container>, i: int, c: Container)
    requires
        containers_wf(cs),
        0 <= i <= cs.len(),
        forall|j: int| 0 <= j < i ==> cs[j].key < c.key,
        forall|j: int| i <= j < cs.len() ==> cs[j].key > c.key,
        c.wf(),
        c@.len() > 0,
    ensures
        containers_wf(cs.insert(i, c)),
        containers_set(cs.insert(i, c)) == containers_set(cs).union(shifted(c)),
        containers_set(cs).disjoint(shifted(c)),
{
    let u = cs.insert(i, c);
    lemma_shifted(c);
    assert(containers_wf(u)) by {
        assert forall|a: int, b: int| 0 <= a < b < u.len() implies u[a].key < u[b].key by {
            if a < i && b < i { assert(u[a] == cs[a] && u[b] == cs[b]); }
            else if a < i && b == i { assert(u[a] == cs[a]); }
            else if a < i { assert(u[a] == cs[a] && u[b] == cs[b - 1]); }
            else if a == i { assert(u[b] == cs[b - 1]); }
            else { assert(u[a] == cs[a - 1] && u[b] == cs[b - 1]); }
        }
        assert forall|a: int| 0 <= a < u.len() implies (#[trigger] u[a]).wf() && u[a]@.len() > 0 by {
            if a < i { assert(u[a] == cs[a]); } else if a > i { assert(u[a] == cs[a - 1]); }
        }
    }
    assert forall|x: int| #[trigger] containers_set(u).contains(x) <==> containers_set(cs).union(shifted(c)).contains(x) by {
        if 0 <= x < 0x1_0000_0000 {
            let k = x / 0x10000;
            let l = x % 0x10000;
            lemma_divmod(x, k, l);
            if containers_set(u).contains(x) {
                let j = choose|j: int| #![trigger u[j]] 0 <= j < u.len() && u[j].key == k && u[j]@.contains(l);
                if j < i { assert(u[j] == cs[j]); } else if j > i { assert(u[j] == cs[j - 1]); }
            }
            if containers_set(cs).contains(x) {
                let j = choose|j: int| #![trigger cs[j]] 0 <= j < cs.len() && cs[j].key == k && cs[j]@.contains(l);
                if j < i { assert(u[j] == cs[j]); } else { assert(u[j + 1] == cs[j]); }
            }
            if shifted(c).contains(x) {
                assert(u[i] == c);
            }
        } else {
            if shifted(c).contains(x) {
                c.lemma_view();
            }
        }
    }
    assert(containers_set(u) =~= containers_set(cs).union(shifted(c)));
    assert forall|x: int| containers_set(cs).contains(x) implies !shifted(c).contains(x) by {
        if shifted(c).contains(x) {
            c.lemma_view();
            lemma_divmod(x, c.key as int, x - 0x10000 * c.key);
            let j = choose|j: int| #![trigger cs[j]] 0 <= j < cs.len() && cs[j].key == x / 0x10000 && cs[j]@.contains(x % 0x10000);
        }
    }
}

/// Removing a container takes away its values.
proof fn lemma_remove_at(cs: Seq<Container>, i: int)
    requires
        containers_wf(cs),
        0 <= i < cs.len(),
    ensures
        containers_wf(cs.remove(i)),
        containers_set(cs.remove(i)) == containers_set(cs).difference(shifted(cs[i])),
        shifted(cs[i]).subset_of(containers_set(cs)),
{
    let u = cs.remove(i);
    assert(cs[i].wf());
    lemma_shifted(cs[i]);
    assert(containers_wf(u)) by {
        assert forall|a: int, b: int| 0 <= a < b < u.len() implies u[a].key < u[b].key by {
            if b < i { assert(u[a] == cs[a] && u[b] == cs[b]); }
            else if a < i { assert(u[a] == cs[a] && u[b] == cs[b + 1]); }
            else { assert(u[a] == cs[a + 1] && u[b] == cs[b + 1]); }
        }
        assert forall|a: int| 0 <= a < u.len() implies (#[trigger] u[a]).wf() && u[a]@.len() > 0 by {
            if a < i { assert(u[a] == cs[a]); } else { assert(u[a] == cs[a + 1]); }
        }
    }
    assert forall|x: int| #[trigger] containers_set(u).contains(x) <==> containers_set(cs).difference(shifted(cs[i])).contains(x) by {
        if 0 <= x < 0x1_0000_0000 {
            let k = x / 0x10000;
            let l = x % 0x10000;
            lemma_divmod(x, k, l);
            if containers_set(u).contains(x) {
                let j = choose|j: int| #![trigger u[j]] 0 <= j < u.len() && u[j].key == k && u[j]@.contains(l);
                if j < i {
                    assert(u[j] == cs[j]);
                    assert(cs[j].key < cs[i].key);
                } else {
                    assert(u[j] == cs[j + 1]);
                    assert(cs[i].key < cs[j + 1].key);
                }
            }
            if containers_set(cs).contains(x) && !shifted(cs[i]).contains(x) {
                let j = choose|j: int| #![trigger cs[j]] 0 <= j < cs.len() && cs[j].key == k && cs[j]@.contains(l);
                assert(j != i);
                if j < i { assert(u[j] == cs[j]); } else { assert(u[j - 1] == cs[j]); }
            }
        }
    }
    assert(containers_set(u) =~= containers_set(cs).difference(shifted(cs[i])));
    assert forall|x: int| shifted(cs[i]).contains(x) implies containers_set(cs).contains(x) by {
        cs[i].lemma_view();
        lemma_divmod(x, cs[i].key as int, x - 0x10000 * cs[i].key);
    }
}

/// The values of `r` whose high half is below `k`.
pub open spec fn below_key(r: Set<int>, k: int) -> Set<int> {
    r.filter(|x: int| x / 0x10000 < k)
}

/// The key of the container at `i`, or one past the largest key when there is none.
pub open spec fn key_at(cs: Seq<Container>, i: int) -> int {
    if 0 <= i < cs.len() { cs[i].key as int } else { 0x10000 }
}

/// Sum of the sizes of sound containers.
pub fn sum_lens(cs: &Vec<Container>) -> (r: u64)
    requires
        containers_wf(cs@),
    ensures
        r == containers_card(cs@),
        r == containers_set(cs@).len(),
{
    let mut total: u64 = 0;
    let mut i: usize = 0;
    while i < cs.len()
        invariant
            i <= cs@.len(),
            containers_wf(cs@),
            total == containers_card(cs@.subrange(0, i as int)),
        decreases cs@.len() - i,
    {
        proof {
            let p = cs@.subrange(0, i as int + 1);
            assert(p.drop_last() =~= cs@.subrange(0, i as int));
            assert(containers_wf(p)) by {
                assert forall|a: int| 0 <= a < p.len() implies (#[trigger] p[a]).wf() && p[a]@.len() > 0 by {
                    assert(p[a] == cs@[a]);
                    assert(cs@[a].wf());
                }
            }
            lemma_containers_len(p);
            lemma_set_bound(containers_set(p));
            assert(cs@[i as int].wf());
        }
        total = total + cs[i].len() as u64;
        i += 1;
    }
    proof {
        assert(cs@.subrange(0, i as int) =~= cs@);
        lemma_containers_len(cs@);
    }
    total
}

/// A set of values below 2^32 has at most 2^32 members.
proof fn lemma_set_bound(s: Set<int>)
    requires
        s.finite(),
        forall|x: int| s.contains(x) ==> 0 <= x < 0x1_0000_0000,
    ensures
        s.len() <= 0x1_0000_0000,
{
    vstd::set_lib::lemma_int_range(0, 0x1_0000_0000);
    assert(s.subset_of(vstd::set_lib::set_int_range(0, 0x1_0000_0000)));
    vstd::set_lib::lemma_len_subset(s, vstd::set_lib::set_int_range(0, 0x1_0000_0000));
}

/// Membership in sound containers, read through the container of the value's key.
proof fn lemma_member(cs: Seq<Container>, x: int, i: int)
    requires
        containers_wf(cs),
        0 <= i < cs.len(),
        0 <= x < 0x1_0000_0000,
        x / 0x10000 == cs[i].key,
    ensures
        containers_set(cs).contains(x) == cs[i]@.contains(x % 0x10000),
{
    if containers_set(cs).contains(x) {
        let j = choose|j: int| #![trigger cs[j]] 0 <= j < cs.len() && cs[j].key == x / 0x10000 && cs[j]@.contains(x % 0x10000);
        if j < i { assert(cs[j].key < cs[i].key); }
        if j > i { assert(cs[i].key < cs[j].key); }
    }
}

/// A value whose key lies strictly between two consecutive containers' keys is absent.
proof fn lemma_absent_between(cs: Seq<Container>, x: int, a: int)
    requires
        containers_wf(cs),
        0 <= a <= cs.len(),
        a > 0 ==> cs[a - 1].key < x / 0x10000,
        x / 0x10000 < key_at(cs, a),
    ensures
        !containers_set(cs).contains(x),
{
    if containers_set(cs).contains(x) {
        let j = choose|j: int| #![trigger cs[j]] 0 <= j < cs.len() && cs[j].key == x / 0x10000 && cs[j]@.contains(x % 0x10000);
        if j < a - 1 { assert(cs[j].key < cs[a - 1].key); }
        if j > a { assert(cs[a].key < cs[j].key); }
    }
}

proof fn lemma_apply(op: Operation, a: Set<int>, b: Set<int>, x: int)
    ensures
        apply(op, a, b).contains(x) == apply_bit(op, a.contains(x), b.contains(x)),
{
}

/// The smaller of the two keys at the merge positions.
pub open spec fn kmin(ls: Seq<Container>, rs: Seq<Container>, a: int, b: int) -> int {
    if key_at(ls, a) < key_at(rs, b) { key_at(ls, a) } else { key_at(rs, b) }
}

/// Merge state: the output holds the combined values of every key below both heads.
pub open spec fn merge_inv(ls: Seq<Container>, rs: Seq<Container>, a: int, b: int, out: Seq<Container>, op: Operation) -> bool {
    &&& 0 <= a <= ls.len()
    &&& 0 <= b <= rs.len()
    &&& containers_wf(ls)
    &&& containers_wf(rs)
    &&& containers_wf(out)
    &&& forall|i: int| 0 <= i < out.len() ==> out[i].key < kmin(ls, rs, a, b)
    &&& a > 0 ==> ls[a - 1].key < key_at(rs, b)
    &&& b > 0 ==> rs[b - 1].key < key_at(ls, a)
    &&& containers_set(out) == below_key(apply(op, containers_set(ls), containers_set(rs)), kmin(ls, rs, a, b))
}

/// One merge step: the head container `c` (a copy of the left head, of the right
/// head, or their combination) covers the smallest key.
proof fn lemma_merge_step(ls: Seq<Container>, rs: Seq<Container>, a: int, b: int, a2: int, b2: int,
    out: Seq<Container>, out2: Seq<Container>, op: Operation, k: int, c: Container, cv: Set<int>, pushed: bool)
    requires
        merge_inv(ls, rs, a, b, out, op),
        a < ls.len() || b < rs.len(),
        k == kmin(ls, rs, a, b),
        a2 == if key_at(ls, a) == k { a + 1 } else { a },
        b2 == if key_at(rs, b) == k { b + 1 } else { b },
        cv == apply(op, if key_at(ls, a) == k { ls[a]@ } else { Set::empty() },
            if key_at(rs, b) == k { rs[b]@ } else { Set::empty() }),
        cv.finite(),
        pushed == (cv.len() > 0),
        pushed ==> c.key == k && c.wf() && c@ == cv,
        out2 == if pushed { out.push(c) } else { out },
    ensures
        merge_inv(ls, rs, a2, b2, out2, op),
{
    let full = apply(op, containers_set(ls), containers_set(rs));
    let k2 = kmin(ls, rs, a2, b2);
    assert(k < k2) by {
        if a2 < ls.len() && a2 > a { assert(ls[a].key < ls[a2].key); }
        if b2 < rs.len() && b2 > b { assert(rs[b].key < rs[b2].key); }
    }
    if pushed {
        lemma_insert_at(out, out.len() as int, c);
        assert(out.insert(out.len() as int, c) =~= out.push(c));
        lemma_shifted(c);
    }
    assert forall|x: int| #[trigger] containers_set(out2).contains(x) <==> below_key(full, k2).contains(x) by {
        lemma_apply(op, containers_set(ls), containers_set(rs), x);
        if 0 <= x < 0x1_0000_0000 {
            lemma_divmod(x, x / 0x10000, x % 0x10000);
            if x / 0x10000 == k {
                if key_at(ls, a) == k {
                    lemma_member(ls, x, a);
                } else {
                    lemma_absent_between(ls, x, a);
                }
                if key_at(rs, b) == k {
                    lemma_member(rs, x, b);
                } else {
                    lemma_absent_between(rs, x, b);
                }
                lemma_apply(op, if key_at(ls, a) == k { ls[a]@ } else { Set::empty() },
                    if key_at(rs, b) == k { rs[b]@ } else { Set::empty() }, x % 0x10000);
                if containers_set(out).contains(x) {
                    lemma_containers_len(out);
                    let j = choose|j: int| #![trigger out[j]] 0 <= j < out.len() && out[j].key == x / 0x10000 && out[j]@.contains(x % 0x10000);
                    assert(out[j].key < k);
                }
                if pushed && !c@.contains(x % 0x10000) {
                    assert(!shifted(c).contains(x));
                }
                if !pushed {
                    cv.lemma_len0_is_empty();
                    assert(!cv.contains(x % 0x10000));
                }
            } else if k < x / 0x10000 < k2 {
                assert(a2 > 0 ==> ls[a2 - 1].key < x / 0x10000) by {
                    if a2 > 0 && a2 == a { assert(ls[a - 1].key < key_at(rs, b)); }
                }
                assert(b2 > 0 ==> rs[b2 - 1].key < x / 0x10000) by {
                    if b2 > 0 && b2 == b { assert(rs[b - 1].key < key_at(ls, a)); }
                }
                lemma_absent_between(ls, x, a2);
                lemma_absent_between(rs, x, b2);
                if containers_set(out).contains(x) {
                    let j = choose|j: int| #![trigger out[j]] 0 <= j < out.len() && out[j].key == x / 0x10000 && out[j]@.contains(x % 0x10000);
                }
            } else if x / 0x10000 >= k2 {
                if containers_set(out).contains(x) {
                    let j = choose|j: int| #![trigger out[j]] 0 <= j < out.len() && out[j].key == x / 0x10000 && out[j]@.contains(x % 0x10000);
                }
            }
        } else {
            if pushed {
                c.lemma_view();
            }
        }
    }
    assert(containers_set(out2) =~= below_key(full, k2));
    assert forall|i: int| 0 <= i < out2.len() implies out2[i].key < k2 by {
        if i < out.len() { assert(out2[i] == out[i]); }
    }
    assert(a2 > 0 ==> ls[a2 - 1].key < key_at(rs, b2)) by {
        if a2 > 0 {
            if a2 == a + 1 {
                if b2 < rs.len() && b2 == b + 1 { assert(rs[b].key < rs[b2].key); }
            } else {
                if b2 < rs.len() && b2 == b + 1 { assert(rs[b].key < rs[b2].key); }
            }
        }
    }
    assert(b2 > 0 ==> rs[b2 - 1].key < key_at(ls, a2)) by {
        if b2 > 0 {
            if a2 < ls.len() && a2 == a + 1 { assert(ls[a].key < ls[a2].key); }
        }
    }
}

/// No container lies strictly between two consecutive positions.
proof fn lemma_key_absent_between(cs: Seq<Container>, key: int, a: int)
    requires
        containers_wf(cs),
        0 <= a <= cs.len(),
        a > 0 ==> cs[a - 1].key < key,
        key < key_at(cs, a),
    ensures
        forall|j: int| 0 <= j < cs.len() ==> cs[j].key != key,
{
    assert forall|j: int| 0 <= j < cs.len() implies cs[j].key != key by {
        if j < a - 1 { assert(cs[j].key < cs[a - 1].key); }
        if j > a { assert(cs[a].key < cs[j].key); }
    }
}

/// Merge state of the run keys: the output holds runs under the keys below
/// both heads where the combination calls for runs.
pub open spec fn merge_runs_inv(ls: Seq<Container>, rs: Seq<Container>, a: int, b: int, out: Seq<Container>, op: Operation) -> bool {
    keys_in_runs(out) == combined_runs(op, keys_in_runs(ls), keys_in_runs(rs), containers_set(ls), containers_set(rs))
        .filter(|x: int| x < kmin(ls, rs, a, b))
}

/// One merge step keeps the run keys of the output as the combination calls for.
proof fn lemma_merge_runs_step(ls: Seq<Container>, rs: Seq<Container>, a: int, b: int, a2: int, b2: int,
    out: Seq<Container>, out2: Seq<Container>, op: Operation, k: int, c: Container, cv: Set<int>, pushed: bool)
    requires
        merge_inv(ls, rs, a, b, out, op),
        merge_runs_inv(ls, rs, a, b, out, op),
        a < ls.len() || b < rs.len(),
        k == kmin(ls, rs, a, b),
        a2 == if key_at(ls, a) == k { a + 1 } else { a },
        b2 == if key_at(rs, b) == k { b + 1 } else { b },
        cv == apply(op, if key_at(ls, a) == k { ls[a]@ } else { Set::empty() },
            if key_at(rs, b) == k { rs[b]@ } else { Set::empty() }),
        pushed == (cv.len() > 0),
        pushed ==> c.key == k,
        out2 == if pushed { out.push(c) } else { out },
        pushed && key_at(ls, a) == k && key_at(rs, b) != k ==> ((c.store_spec() is Run) == (ls[a].store_spec() is Run)),
        pushed && key_at(ls, a) != k && key_at(rs, b) == k ==> ((c.store_spec() is Run) == (rs[b].store_spec() is Run)),
        pushed && key_at(ls, a) == k && key_at(rs, b) == k ==> ((c.store_spec() is Run) == runs_pay(cv)),
    ensures
        merge_runs_inv(ls, rs, a2, b2, out2, op),
{
    let sa = containers_set(ls);
    let sb = containers_set(rs);
    let cr = combined_runs(op, keys_in_runs(ls), keys_in_runs(rs), sa, sb);
    let k2 = kmin(ls, rs, a2, b2);
    assert(k < k2) by {
        if a2 < ls.len() && a2 > a { assert(ls[a].key < ls[a2].key); }
        if b2 < rs.len() && b2 > b { assert(rs[b].key < rs[b2].key); }
    }
    if key_at(ls, a) == k {
        lemma_lows_at(ls, a);
        lemma_run_key_at(ls, a);
        assert(ls[a].wf());
        assert(ls[a]@.len() > 0);
    } else {
        lemma_key_absent_between(ls, k, a);
        lemma_lows_missing(ls, k);
    }
    if key_at(rs, b) == k {
        lemma_lows_at(rs, b);
        lemma_run_key_at(rs, b);
        assert(rs[b].wf());
        assert(rs[b]@.len() > 0);
    } else {
        lemma_key_absent_between(rs, k, b);
        lemma_lows_missing(rs, k);
    }
    lemma_lows_apply(op, sa, sb, k);
    if pushed {
        assert forall|j: int| 0 <= j < out.len() implies out[j].key != c.key by {
            assert(out[j].key < k);
        }
        lemma_runs_insert(out, out.len() as int, c);
        assert(out.insert(out.len() as int, c) =~= out.push(c));
    }
    assert(!keys_in_runs(out).contains(k)) by {
        if keys_in_runs(out).contains(k) {
            let j = choose|j: int| #![trigger out[j]] 0 <= j < out.len() && out[j].key == k && out[j].store_spec() is Run;
            assert(out[j].key < k);
        }
    }
    assert(keys_in_runs(out2).contains(k) == (pushed && c.store_spec() is Run));
    assert(cr.contains(k) == (pushed && c.store_spec() is Run)) by {
        let la = lows(sa, k);
        let lb = lows(sb, k);
        assert(lows(apply(op, sa, sb), k) == cv);
        if key_at(ls, a) == k && key_at(rs, b) == k {
            assert(la.len() > 0 && lb.len() > 0);
            assert(cr.contains(k) == runs_pay(cv));
            if !pushed {
                assert(cv.len() == 0);
            }
        } else if key_at(ls, a) == k {
            assert(la.len() > 0);
            assert(lb =~= Set::<int>::empty());
            assert(cr.contains(k) == (keys_in_runs(ls).contains(k) && !(op is Intersection)));
            assert(cv =~= apply(op, ls[a]@, Set::empty()));
            if op is Intersection {
                assert(cv =~= Set::<int>::empty());
            } else {
                assert(cv =~= ls[a]@);
            }
        } else {
            assert(key_at(rs, b) == k);
            assert(la =~= Set::<int>::empty());
            assert(lb.len() > 0);
            assert(cr.contains(k) == (keys_in_runs(rs).contains(k) && (op is Union || op is SymmetricDifference)));
            assert(cv =~= apply(op, Set::empty(), rs[b]@));
            if op is Union || op is SymmetricDifference {
                assert(cv =~= rs[b]@);
            } else {
                assert(cv =~= Set::<int>::empty());
            }
        }
    }
    assert forall|x: int| #[trigger] keys_in_runs(out2).contains(x) <==> cr.filter(|y: int| y < k2).contains(x) by {
        if x < k {
            assert(keys_in_runs(out2).contains(x) == keys_in_runs(out).contains(x));
            assert(keys_in_runs(out).contains(x) == cr.filter(|y: int| y < kmin(ls, rs, a, b)).contains(x));
        }
        if x > k {
            assert(!keys_in_runs(out2).contains(x)) by {
                if keys_in_runs(out2).contains(x) {
                    let j = choose|j: int| #![trigger out2[j]] 0 <= j < out2.len() && out2[j].key == x && out2[j].store_spec() is Run;
                    if j < out.len() {
                        assert(out2[j] == out[j]);
                        assert(out[j].key < k);
                    }
                }
            }
            if x < k2 {
                assert(a2 > 0 ==> ls[a2 - 1].key < x) by {
                    if a2 > 0 && a2 == a { assert(ls[a - 1].key < key_at(rs, b)); }
                }
                assert(b2 > 0 ==> rs[b2 - 1].key < x) by {
                    if b2 > 0 && b2 == b { assert(rs[b - 1].key < key_at(ls, a)); }
                }
                lemma_key_absent_between(ls, x, a2);
                lemma_key_absent_between(rs, x, b2);
                lemma_lows_missing(ls, x);
                lemma_lows_missing(rs, x);
                if keys_in_runs(rs).contains(x) {
                    lemma_run_key_has_container(rs, x);
                }
                assert(!cr.contains(x));
            }
        }
    }
    assert(keys_in_runs(out2) =~= cr.filter(|y: int| y < k2));
}

/// Before the merge no key lies below both heads.
proof fn lemma_merge_runs_start(ls: Seq<Container>, rs: Seq<Container>, op: Operation)
    requires
        containers_wf(ls),
        containers_wf(rs),
    ensures
        merge_runs_inv(ls, rs, 0, 0, Seq::empty(), op),
{
    let cr = combined_runs(op, keys_in_runs(ls), keys_in_runs(rs), containers_set(ls), containers_set(rs));
    let f = cr.filter(|y: int| y < kmin(ls, rs, 0, 0));
    assert forall|x: int| !#[trigger] f.contains(x) by {
        if x < kmin(ls, rs, 0, 0) {
            lemma_key_absent_between(ls, x, 0);
            lemma_key_absent_between(rs, x, 0);
            lemma_lows_missing(ls, x);
            lemma_lows_missing(rs, x);
            if keys_in_runs(rs).contains(x) {
                lemma_run_key_has_container(rs, x);
            }
        }
    }
    assert(f =~= Set::<int>::empty());
    assert(keys_in_runs(Seq::<Container>::empty()) =~= Set::<int>::empty());
}

/// When the merge stops, no key at or above the heads calls for runs.
proof fn lemma_merge_runs_done(ls: Seq<Container>, rs: Seq<Container>, a: int, b: int, out: Seq<Container>, op: Operation)
    requires
        merge_inv(ls, rs, a, b, out, op),
        merge_runs_inv(ls, rs, a, b, out, op),
        a == ls.len() || b == rs.len(),
        a < ls.len() ==> op is Intersection,
        b < rs.len() ==> !(op is Union || op is SymmetricDifference),
    ensures
        keys_in_runs(out) == combined_runs(op, keys_in_runs(ls), keys_in_runs(rs), containers_set(ls), containers_set(rs)),
{
    let cr = combined_runs(op, keys_in_runs(ls), keys_in_runs(rs), containers_set(ls), containers_set(rs));
    let km = kmin(ls, rs, a, b);
    assert forall|x: int| #[trigger] cr.contains(x) implies x < km by {
        if x >= km {
            assert forall|j: int| 0 <= j < a implies ls[j].key < km by {
                if j < a - 1 { assert(ls[j].key < ls[a - 1].key); }
                if a < ls.len() { assert(ls[a - 1].key < ls[a].key); }
            }
            assert forall|j: int| 0 <= j < b implies rs[j].key < km by {
                if j < b - 1 { assert(rs[j].key < rs[b - 1].key); }
                if b < rs.len() { assert(rs[b - 1].key < rs[b].key); }
            }
            if b == rs.len() {
                assert forall|j: int| 0 <= j < rs.len() implies rs[j].key != x by {}
                lemma_lows_missing(rs, x);
                if keys_in_runs(rs).contains(x) {
                    lemma_run_key_has_container(rs, x);
                }
                if a == ls.len() {
                    assert forall|j: int| 0 <= j < ls.len() implies ls[j].key != x by {}
                    lemma_lows_missing(ls, x);
                }
            } else {
                assert forall|j: int| 0 <= j < ls.len() implies ls[j].key != x by {}
                lemma_lows_missing(ls, x);
            }
        }
    }
    assert(cr.filter(|y: int| y < km) =~= cr);
}

proof fn lemma_apply_right_empty(op: Operation, a: Set<int>)
    ensures
        apply(op, a, Set::empty()) == (if op is Intersection { Set::<int>::empty() } else { a }),
{
    assert(apply(op, a, Set::empty()) =~= (if op is Intersection { Set::<int>::empty() } else { a }));
}

proof fn lemma_apply_left_empty(op: Operation, b: Set<int>)
    ensures
        apply(op, Set::empty(), b) == (if op is Union || op is SymmetricDifference { b } else { Set::<int>::empty() }),
{
    assert(apply(op, Set::empty(), b) =~= (if op is Union || op is SymmetricDifference { b } else { Set::<int>::empty() }));
}

/// Containers alike one by one, in key, values and form, give alike bitmaps.
proof fn lemma_alike(a: Seq<Container>, b: Seq<Container>)
    requires
        a.len() == b.len(),
        forall|i: int| 0 <= i < a.len() ==> (#[trigger] b[i]).key == a[i].key && b[i]@ == a[i]@
            && b[i].wf() == a[i].wf() && (b[i].store_spec() is Run) == (a[i].store_spec() is Run),
    ensures
        containers_card(b) == containers_card(a),
        containers_set(b) == containers_set(a),
        containers_wf(b) == containers_wf(a),
        keys_in_runs(b) == keys_in_runs(a),
    decreases a.len(),
{
    if a.len() > 0 {
        lemma_alike(a.drop_last(), b.drop_last());
        assert(a.last() == a[a.len() - 1] && b.last() == b[b.len() - 1]);
    }
    assert forall|x: int| containers_set(b).contains(x) == containers_set(a).contains(x) by {
        if containers_set(b).contains(x) {
            let i = choose|i: int| #![trigger b[i]] 0 <= i < b.len() && b[i].key == x / 0x10000 && b[i]@.contains(x % 0x10000);
            assert(a[i].key == x / 0x10000);
        }
        if containers_set(a).contains(x) {
            let i = choose|i: int| #![trigger a[i]] 0 <= i < a.len() && a[i].key == x / 0x10000 && a[i]@.contains(x % 0x10000);
            assert(b[i].key == x / 0x10000);
        }
    }
    assert(containers_set(b) =~= containers_set(a));
    if containers_wf(a) {
        assert forall|i: int, j: int| 0 <= i < j < b.len() implies b[i].key < b[j].key by {
            assert(a[i].key < a[j].key);
        }
        assert forall|i: int| 0 <= i < b.len() implies (#[trigger] b[i]).wf() && b[i]@.len() > 0 by {
            assert(a[i].wf() && a[i]@.len() > 0);
        }
    }
    if containers_wf(b) {
        assert forall|i: int, j: int| 0 <= i < j < a.len() implies a[i].key < a[j].key by {
            assert(b[i].key < b[j].key);
        }
        assert forall|i: int| 0 <= i < a.len() implies (#[trigger] a[i]).wf() && a[i]@.len() > 0 by {
            assert(b[i].wf() && b[i]@.len() > 0);
        }
    }
    assert forall|k: int| keys_in_runs(b).contains(k) == keys_in_runs(a).contains(k) by {
        if keys_in_runs(b).contains(k) {
            let i = choose|i: int| #![trigger b[i]] 0 <= i < b.len() && b[i].key == k && b[i].store_spec() is Run;
            assert(a[i].key == k);
        }
        if keys_in_runs(a).contains(k) {
            let i = choose|i: int| #![trigger a[i]] 0 <= i < a.len() && a[i].key == k && a[i].store_spec() is Run;
            assert(b[i].key == k);
        }
    }
    assert(keys_in_runs(b) =~= keys_in_runs(a));
}

/// A set of `u32` values, split by high half into containers.
#[derive(Debug)]
pub struct RoaringBitmap {
    containers: Vec<Container>,
    cardinality: u64,
}

impl RoaringBitmap {
    pub closed spec fn containers_seq(&self) -> Seq<Container> {
        self.containers@
    }

    pub closed spec fn cardinality_field(&self) -> u64 {
        self.cardinality
    }

    pub open spec fn wf(&self) -> bool {
        &&& containers_wf(self.containers_seq())
        &&& self.cardinality_field() == containers_card(self.containers_seq())
    }

    /// The keys whose containers hold their values as runs.
    pub closed spec fn run_keys(&self) -> Set<int> {
        keys_in_runs(self.containers_seq())
    }

    /// The values in the bitmap.
    pub open spec fn view(&self) -> Set<int> {
        containers_set(self.containers_seq())
    }

    pub proof fn lemma_view(&self)
        requires
            self.wf(),
        ensures
            self@.finite(),
            self@.len() == self.cardinality_field(),
            self@.len() <= 0x1_0000_0000,
            forall|x: int| self@.contains(x) ==> 0 <= x < 0x1_0000_0000,
    {
        lemma_containers_len(self.containers_seq());
        vstd::set_lib::lemma_int_range(0, 0x1_0000_0000);
        assert(self@.subset_of(vstd::set_lib::set_int_range(0, 0x1_0000_0000)));
        vstd::set_lib::lemma_len_subset(self@, vstd::set_lib::set_int_range(0, 0x1_0000_0000));
    }

    pub fn new() -> (r: Self)
        ensures
            r.wf(),
            r@ == Set::<int>::empty(),
            r.run_keys() == Set::<int>::empty(),
    {
        let r = RoaringBitmap { containers: Vec::new(), cardinality: 0 };
        assert(r@ =~= Set::<int>::empty());
        assert(r.run_keys() =~= Set::<int>::empty());
        r
    }

    /// Number of values.
    pub fn len(&self) -> (r: u64)
        requires
            self.wf(),
        ensures
            r == self@.len(),
    {
        proof { self.lemma_view(); }
        self.cardinality
    }

    pub fn is_empty(&self) -> (r: bool)
        requires
            self.wf(),
        ensures
            r == (self@.len() == 0),
    {
        proof { self.lemma_view(); }
        self.cardinality == 0
    }

    /// Number of containers: the distinct high halves among the values.
    pub fn container_count(&self) -> (r: usize)
        requires
            self.wf(),
        ensures
            r == self.containers_seq().len(),
            r == self@.map(|x: int| x / 0x10000).len(),
    {
        proof { self.lemma_keys(); }
        self.containers.len()
    }

    pub fn clear(&mut self)
        ensures
            final(self).wf(),
            final(self)@ == Set::<int>::empty(),
            final(self).run_keys() == Set::<int>::empty(),
    {
        self.containers.clear();
        self.cardinality = 0;
        assert(self@ =~= Set::<int>::empty());
        assert(self.run_keys() =~= Set::<int>::empty());
    }

    /// Finds the container with `key`, or where it would go.
    fn search(&self, key: u16) -> (r: (bool, usize))
        requires
            self.wf(),
        ensures
            r.1 <= self.containers_seq().len(),
            r.0 ==> r.1 < self.containers_seq().len() && self.containers_seq()[r.1 as int].key == key,
            !r.0 ==> forall|i: int| 0 <= i < r.1 ==> self.containers_seq()[i].key < key,
            !r.0 ==> forall|i: int| r.1 <= i < self.containers_seq().len() ==> self.containers_seq()[i].key > key,
    {
        let mut lo: usize = 0;
        let mut hi: usize = self.containers.len();
        while lo < hi
            invariant
                lo <= hi <= self.containers@.len(),
                containers_wf(self.containers@),
                forall|i: int| 0 <= i < lo ==> self.containers@[i].key < key,
                forall|i: int| hi <= i < self.containers@.len() ==> self.containers@[i].key > key,
            decreases hi - lo,
        {
            let mid = lo + (hi - lo) / 2;
            let k = self.containers[mid].key;
            if k < key {
                lo = mid + 1;
            } else if k > key {
                hi = mid;
            } else {
                return (true, mid);
            }
        }
        (false, lo)
    }

    pub fn contains(&self, value: u32) -> (r: bool)
        requires
            self.wf(),
        ensures
            r == self@.contains(value as int),
    {
        let (key, low) = split(value);
        let (found, index) = self.search(key);
        if !found {
            proof {
                if self@.contains(value as int) {
                    let cs = self.containers_seq();
                    let i = choose|i: int| #![trigger cs[i]] 0 <= i < cs.len() && cs[i].key == value as int / 0x10000 && cs[i]@.contains(value as int % 0x10000);
                }
            }
            return false;
        }
        proof { assert(self.containers_seq()[index as int].wf()); }
        let r = self.containers[index].contains(low);
        proof {
            let cs = self.containers_seq();
            if self@.contains(value as int) {
                let i = choose|i: int| #![trigger cs[i]] 0 <= i < cs.len() && cs[i].key == value as int / 0x10000 && cs[i]@.contains(value as int % 0x10000);
                if i != index {
                    if i < index { assert(cs[i].key < cs[index as int].key); }
                    else { assert(cs[index as int].key < cs[i].key); }
                }
            }
        }
        r
    }

    /// Adds `value`; a container that holds runs keeps them while they still pay.
    #[verifier::rlimit(30)]
    pub fn insert(&mut self, value: u32) -> (r: bool)
        requires
            old(self).wf(),
        ensures
            final(self).wf(),
            final(self)@ == old(self)@.insert(value as int),
            r == !old(self)@.contains(value as int),
            final(self).run_keys() == settled(old(self).run_keys(), old(self)@, final(self)@),
    {
        let ghost old_runs = self.run_keys();
        let ghost old_view = self@;
        proof { self.lemma_view(); }
        let ghost old_cs = self.containers@;
        let ghost v = value as int;
        let (key, low) = split(value);
        let n = self.containers.len();
        if n == 0 || self.containers[n - 1].key < key {
            let c = Container::singleton(key, low);
            proof {
                lemma_insert_at(old_cs, n as int, c);
                assert(old_cs.insert(n as int, c) =~= old_cs.push(c));
                lemma_shifted(c);
                assert(shifted(c) =~= Set::<int>::empty().insert(v)) by {
                    lemma_divmod(v, key as int, low as int);
                }
            }
            self.containers.push(c);
            proof {
                lemma_containers_len(self.containers@);
                lemma_containers_len(old_cs);
                assert(!old(self)@.contains(v));
                vstd::set_lib::lemma_set_disjoint_lens(containers_set(old_cs), shifted(c));
                assert(self.containers@ == old_cs.insert(n as int, c));
            }
            self.cardinality = self.cardinality + 1;
            proof {
                assert(0x10000 * (key as int) <= value as int && (value as int) < 0x10000 * (key as int) + 0x10000);
                assert forall|j: int| 0 <= j < old_cs.len() implies old_cs[j].key != key by {
                    if j < n - 1 { assert(old_cs[j].key < old_cs[n - 1].key); }
                }
                lemma_runs_insert(old_cs, n as int, c);
                assert(old_cs.insert(n as int, c) =~= old_cs.push(c));
                lemma_settled_one(old_runs, old_view, self@, key as int);
            }
            return true;
        }
        let (found, index) = self.search(key);
        if found {
            let mut c = self.containers.remove(index);
            proof {
                assert(old_cs[index as int] == c);
                assert(c.wf());
            }
            let inserted = c.insert(low);
            proof {
                c.lemma_view();
                vstd::set_lib::lemma_len_subset(Set::<int>::empty().insert(low as int), c@);
                lemma_update(old_cs, index as int, c);
                assert(old_cs.remove(index as int).insert(index as int, c) =~= old_cs.update(index as int, c));
                lemma_shifted(old_cs[index as int]);
                lemma_shifted(c);
                lemma_divmod(v, key as int, low as int);
                assert(containers_set(old_cs.update(index as int, c)) =~= containers_set(old_cs).insert(v));
                lemma_containers_len(old_cs.update(index as int, c));
                lemma_containers_len(old_cs);
                assert(old(self)@.contains(v) == old_cs[index as int]@.contains(low as int)) by {
                    if old(self)@.contains(v) {
                        let cs = old_cs;
                        let i = choose|i: int| #![trigger cs[i]] 0 <= i < cs.len() && cs[i].key == v / 0x10000 && cs[i]@.contains(v % 0x10000);
                        if i != index {
                            if i < index { assert(cs[i].key < cs[index as int].key); } else { assert(cs[index as int].key < cs[i].key); }
                        }
                    }
                    if old_cs[index as int]@.contains(low as int) {
                        assert(shifted(old_cs[index as int]).contains(v));
                    }
                }
                if !inserted {
                    assert(containers_set(old_cs).insert(v) =~= containers_set(old_cs));
                } else {
                    assert(containers_set(old_cs).insert(v).len() == containers_set(old_cs).len() + 1);
                }
            }
            let ghost c_old = old_cs[index as int];
            self.containers.insert(index, c);
            proof {
                let new_cs = self.containers@;
                assert(new_cs =~= old_cs.update(index as int, c));
                assert(0x10000 * (key as int) <= value as int && (value as int) < 0x10000 * (key as int) + 0x10000);
                lemma_runs_update(old_cs, index as int, c);
                lemma_run_key_at(old_cs, index as int);
                lemma_lows_at(old_cs, index as int);
                lemma_lows_at(new_cs, index as int);
                lemma_settled_one(old_runs, old_view, self@, key as int);
                if !inserted {
                    assert(c@ =~= c_old@);
                } else {
                    assert(!c_old@.contains(low as int));
                    assert(c@.contains(low as int));
                    assert(c@ != c_old@);
                }
                assert(self.run_keys() =~= settled(old_runs, old_view, self@));
            }
            if inserted {
                self.cardinality = self.cardinality + 1;
                true
            } else {
                false
            }
        } else {
            let c = Container::singleton(key, low);
            proof {
                lemma_insert_at(old_cs, index as int, c);
                lemma_shifted(c);
                assert(shifted(c) =~= Set::<int>::empty().insert(v)) by {
                    lemma_divmod(v, key as int, low as int);
                }
            }
            self.containers.insert(index, c);
            proof {
                lemma_containers_len(self.containers@);
                lemma_containers_len(old_cs);
                vstd::set_lib::lemma_set_disjoint_lens(containers_set(old_cs), shifted(c));
                assert(0x10000 * (key as int) <= value as int && (value as int) < 0x10000 * (key as int) + 0x10000);
                assert forall|j: int| 0 <= j < old_cs.len() implies old_cs[j].key != key by {}
                lemma_runs_insert(old_cs, index as int, c);
                lemma_settled_one(old_runs, old_view, self@, key as int);
            }
            self.cardinality = self.cardinality + 1;
            true
        }
    }

    pub fn remove(&mut self, value: u32) -> (r: bool)
        requires
            old(self).wf(),
        ensures
            final(self).wf(),
            final(self)@ == old(self)@.remove(value as int),
            r == old(self)@.contains(value as int),
            final(self).run_keys() == settled(old(self).run_keys(), old(self)@, final(self)@),
            !r ==> *final(self) == *old(self),
    {
        proof { self.lemma_view(); }
        let ghost old_runs = self.run_keys();
        let ghost old_view = self@;
        let ghost old_cs = self.containers@;
        let ghost v = value as int;
        if !self.contains(value) {
            proof {
                assert(self@.remove(v) =~= self@);
                assert(settled(old_runs, old_view, old_view) =~= old_runs);
            }
            return false;
        }
        let (key, low) = split(value);
        let (found, index) = self.search(key);
        if !found {
            proof {
                if self@.contains(v) {
                    let cs = old_cs;
                    let i = choose|i: int| #![trigger cs[i]] 0 <= i < cs.len() && cs[i].key == v / 0x10000 && cs[i]@.contains(v % 0x10000);
                }
                assert(self@.remove(v) =~= self@);
                assert(settled(old_runs, old_view, old_view) =~= old_runs);
            }
            return false;
        }
        let mut c = self.containers.remove(index);
        proof {
            assert(old_cs[index as int] == c);
            assert(c.wf());
            lemma_shifted(c);
            lemma_divmod(v, key as int, low as int);
        }
        let removed = c.remove(low);
        if !removed {
            proof {
                assert(c@ =~= old_cs[index as int]@);
                lemma_update(old_cs, index as int, c);
                assert(old_cs.remove(index as int).insert(index as int, c) =~= old_cs.update(index as int, c));
                assert(containers_set(old_cs.update(index as int, c)) =~= containers_set(old_cs));
                lemma_containers_len(old_cs.update(index as int, c));
                lemma_containers_len(old_cs);
                assert(!old(self)@.contains(v)) by {
                    if old(self)@.contains(v) {
                        let cs = old_cs;
                        let i = choose|i: int| #![trigger cs[i]] 0 <= i < cs.len() && cs[i].key == v / 0x10000 && cs[i]@.contains(v % 0x10000);
                        if i != index {
                            if i < index { assert(cs[i].key < cs[index as int].key); } else { assert(cs[index as int].key < cs[i].key); }
                        }
                    }
                }
                assert(old(self)@.remove(v) =~= old(self)@);
            }
            self.containers.insert(index, c);
            proof {
                assert(self.containers@ =~= old_cs.update(index as int, c));
                lemma_runs_update(old_cs, index as int, c);
                lemma_run_key_at(old_cs, index as int);
                assert(self.run_keys() =~= old_runs);
                assert(settled(old_runs, old_view, old_view) =~= old_runs);
            }
            return false;
        }
        proof {
            lemma_containers_len(old_cs);
            lemma_remove_at(old_cs, index as int);
            lemma_containers_len(old_cs.remove(index as int));
        }
        if c.is_empty() {
            proof {
                assert(shifted(old_cs[index as int]) =~= Set::<int>::empty().insert(v)) by {
                    c.lemma_view();
                    c@.lemma_len0_is_empty();
                    assert(c@ =~= Set::<int>::empty());
                    assert(old_cs[index as int]@ =~= Set::<int>::empty().insert(low as int));
                }
                assert(containers_set(old_cs).difference(shifted(old_cs[index as int])) =~= containers_set(old_cs).remove(v));
            }
            self.cardinality = self.cardinality - 1;
            proof {
                let new_cs = self.containers@;
                assert(0x10000 * (key as int) <= v && v < 0x10000 * (key as int) + 0x10000);
                lemma_runs_remove(old_cs, index as int);
                assert forall|j: int| 0 <= j < new_cs.len() implies new_cs[j].key != key by {
                    if j < index {
                        assert(new_cs[j] == old_cs[j]);
                        assert(old_cs[j].key < old_cs[index as int].key);
                    } else {
                        assert(new_cs[j] == old_cs[j + 1]);
                        assert(old_cs[index as int].key < old_cs[j + 1].key);
                    }
                }
                super::forms::lemma_lows_missing(new_cs, key as int);
                assert(super::store::run_starts(Set::<int>::empty()) =~= Set::<int>::empty());
                assert(old_view.contains(v));
                assert(lows(old_view, key as int).contains(low as int));
                lemma_settled_one(old_runs, old_view, self@, key as int);
                assert(self.run_keys() =~= settled(old_runs, old_view, self@));
            }
            return true;
        }
        proof {
            lemma_update(old_cs, index as int, c);
            assert(old_cs.remove(index as int).insert(index as int, c) =~= old_cs.update(index as int, c));
            assert(containers_set(old_cs.update(index as int, c)) =~= containers_set(old_cs).remove(v));
            lemma_containers_len(old_cs.update(index as int, c));
        }
        let ghost c_old = old_cs[index as int];
        self.containers.insert(index, c);
        self.cardinality = self.cardinality - 1;
        proof {
            let new_cs = self.containers@;
            assert(new_cs =~= old_cs.update(index as int, c));
            assert(0x10000 * (key as int) <= v && v < 0x10000 * (key as int) + 0x10000);
            lemma_runs_update(old_cs, index as int, c);
            lemma_run_key_at(old_cs, index as int);
            lemma_lows_at(old_cs, index as int);
            lemma_lows_at(new_cs, index as int);
            assert(c_old@.contains(low as int));
            assert(!c@.contains(low as int));
            lemma_settled_one(old_runs, old_view, self@, key as int);
            assert(self.run_keys() =~= settled(old_runs, old_view, self@));
        }
        true
    }

    /// Replaces the container at `index` by one with the same key, returning
    /// how the values change.
    proof fn lemma_replace(cs: Seq<Container>, index: int, c: Container)
        requires
            containers_wf(cs),
            0 <= index < cs.len(),
            c.key == cs[index].key,
            c.wf(),
            c@.len() > 0,
        ensures
            containers_wf(cs.update(index, c)),
            containers_set(cs.update(index, c)).len() + cs[index]@.len()
                == containers_set(cs).len() + c@.len(),
            forall|x: int| #[trigger] containers_set(cs.update(index, c)).contains(x) <==>
                (if x / 0x10000 == c.key && 0 <= x < 0x1_0000_0000 { c@.contains(x % 0x10000) } else { containers_set(cs).contains(x) }),
    {
        lemma_update(cs, index, c);
        lemma_containers_len(cs);
        lemma_containers_len(cs.update(index, c));
        lemma_shifted(cs[index]);
        lemma_shifted(c);
        let a = containers_set(cs);
        let b = shifted(cs[index]);
        vstd::set_lib::lemma_set_difference_len(a, b);
        assert(a.intersect(b) =~= b);
        vstd::set_lib::lemma_set_disjoint_lens(a.difference(b), shifted(c));
        assert forall|x: int| #[trigger] containers_set(cs.update(index, c)).contains(x) <==>
            (if x / 0x10000 == c.key && 0 <= x < 0x1_0000_0000 { c@.contains(x % 0x10000) } else { containers_set(cs).contains(x) }) by {
            if 0 <= x < 0x1_0000_0000 {
                lemma_divmod(x, x / 0x10000, x % 0x10000);
            }
            c.lemma_view();
            cs[index].lemma_view();
        }
    }

    /// Adds every value from `start` through `end` (none when `start > end`);
    /// returns how many were new.
    pub fn insert_range(&mut self, start: u32, end: u32) -> (r: u64)
        requires
            old(self).wf(),
        ensures
            final(self).wf(),
            final(self)@ == old(self)@.union(closed_range(start as int, end as int)),
            r == final(self)@.len() - old(self)@.len(),
            final(self).run_keys() == settled(old(self).run_keys(), old(self)@, final(self)@)
                .union(fresh_runs(old(self)@, final(self)@)),
            start > end ==> r == 0 && *final(self) == *old(self),
    {
        proof { self.lemma_view(); }
        let ghost old_set = self@;
        let ghost old_runs = self.run_keys();
        let ghost old_cs = self.containers@;
        proof {
            assert(settled(old_runs, old_set, old_set) =~= old_runs);
            assert(fresh_runs(old_set, old_set) =~= Set::<int>::empty());
            assert(old_runs.union(Set::<int>::empty()) =~= old_runs);
        }
        if start > end {
            proof { assert(old_set.union(closed_range(start as int, end as int)) =~= old_set); }
            return 0;
        }
        let first = start >> 16;
        let last = end >> 16;
        proof {
            assert(start >> 16 == start / 0x10000) by (bit_vector);
            assert(end >> 16 == end / 0x10000) by (bit_vector);
            assert(old_set.union(closed_range(start as int, if (end as int) < 0x10000 * first - 1 { end as int } else { 0x10000 * first - 1 })) =~= old_set);
        }
        let mut added: u64 = 0;
        let mut raw_key: u32 = first;
        while raw_key <= last
            invariant
                first <= raw_key <= last + 1,
                first == start / 0x10000,
                last == end / 0x10000,
                start <= end,
                self.wf(),
                old_set.finite(),
                self@ == old_set.union(closed_range(start as int,
                    if (end as int) < 0x10000 * raw_key - 1 { end as int } else { 0x10000 * raw_key - 1 })),
                added == self@.len() - old_set.len(),
                old_runs == keys_in_runs(old_cs),
                containers_wf(old_cs),
                old_set == containers_set(old_cs),
                self.run_keys() == settled(old_runs, old_set, self@).union(fresh_runs(old_set, self@)),
            decreases last + 1 - raw_key,
        {
            proof { self.lemma_view(); }
            let key = raw_key as u16;
            let low_start: u16 = if raw_key == first { (start & 0xffff) as u16 } else { 0 };
            let low_end: u16 = if raw_key == last { (end & 0xffff) as u16 } else { 0xffff };
            let ghost lo = 0x10000 * raw_key + low_start;
            let ghost hi = 0x10000 * raw_key + low_end;
            proof {
                assert(start & 0xffff == start % 0x10000) by (bit_vector);
                assert(end & 0xffff == end % 0x10000) by (bit_vector);
                assert(lo == if raw_key == first { start as int } else { 0x10000 * raw_key });
                assert(hi == if raw_key == last { end as int } else { 0x10000 * raw_key + 0xffff });
            }
            let ghost cs = self.containers@;
            let ghost prev = self@;
            let ghost k = raw_key as int;
            proof {
                assert forall|x: int| #![trigger prev.contains(x)] #![trigger old_set.contains(x)]
                    0x10000 * k <= x < 0x10000 * k + 0x10000 implies prev.contains(x) == old_set.contains(x) by {
                    lemma_divmod(x, k, x - 0x10000 * k);
                }
                lemma_lows_same(prev, old_set, k);
            }
            let (found, i) = self.search(key);
            let n: u64;
            if found {
                let mut c = self.containers.remove(i);
                proof { assert(cs[i as int] == c); assert(c.wf()); }
                let m = c.insert_range(low_start, low_end);
                proof {
                    c.lemma_view();
                    assert(c@.contains(low_start as int));
                    vstd::set_lib::lemma_len_subset(Set::<int>::empty().insert(low_start as int), c@);
                    Self::lemma_replace(cs, i as int, c);
                    assert(cs.remove(i as int).insert(i as int, c) =~= cs.update(i as int, c));
                }
                let ghost oc = cs[i as int]@;
                self.containers.insert(i, c);
                n = m as u64;
                proof {
                    let u = self.containers@;
                    assert(u =~= cs.update(i as int, c));
                    lemma_runs_update(cs, i as int, c);
                    lemma_run_key_at(cs, i as int);
                    lemma_lows_frame_update(cs, i as int, c);
                    lemma_lows_at(cs, i as int);
                    lemma_lows_at(u, i as int);
                    assert(cs[i as int].wf());
                    cs[i as int].lemma_view();
                    c.lemma_view();
                    vstd::set_lib::lemma_len_subset(oc, c@);
                    if m == 0 {
                        vstd::set_lib::lemma_subset_equality(oc, c@);
                    }
                    assert(lows(old_set, k).len() > 0);
                    lemma_settled_step(old_runs, old_set, prev, self@, k);
                    lemma_fresh_step(old_set, prev, self@, k);
                    assert(self.run_keys() =~= settled(old_runs, old_set, self@).union(fresh_runs(old_set, self@)));
                }
                proof {
                    assert forall|x: int| #[trigger] self@.contains(x) <==> prev.union(closed_range(lo, hi)).contains(x) by {
                        if 0 <= x < 0x1_0000_0000 && x / 0x10000 == key {
                            lemma_divmod(x, key as int, x % 0x10000);
                            if prev.contains(x) {
                                let j = choose|j: int| #![trigger cs[j]] 0 <= j < cs.len() && cs[j].key == x / 0x10000 && cs[j]@.contains(x % 0x10000);
                                if j != i {
                                    if j < i { assert(cs[j].key < cs[i as int].key); } else { assert(cs[i as int].key < cs[j].key); }
                                }
                            }
                            if cs[i as int]@.contains(x % 0x10000) {
                                assert(prev.contains(x));
                            }
                        }
                        if closed_range(lo, hi).contains(x) {
                            lemma_divmod(x, raw_key as int, x - 0x10000 * raw_key);
                        }
                    }
                    assert(self@ =~= prev.union(closed_range(lo, hi)));
                }
            } else {
                let c = Container::from_range(key, low_start, low_end);
                proof {
                    super::store::array::lemma_closed_range(low_start as int, low_end as int);
                    lemma_insert_at(cs, i as int, c);
                    lemma_shifted(c);
                    lemma_containers_len(cs);
                    lemma_containers_len(cs.insert(i as int, c));
                    vstd::set_lib::lemma_set_disjoint_lens(containers_set(cs), shifted(c));
                    assert forall|x: int| #[trigger] shifted(c).contains(x) <==> closed_range(lo, hi).contains(x) by {
                        if closed_range(lo, hi).contains(x) {
                            lemma_divmod(x, raw_key as int, x - 0x10000 * raw_key);
                        }
                    }
                    assert(shifted(c) =~= closed_range(lo, hi));
                }
                n = c.len() as u64;
                self.containers.insert(i, c);
                proof {
                    let u = self.containers@;
                    assert forall|j: int| 0 <= j < cs.len() implies cs[j].key != key by {}
                    lemma_runs_insert(cs, i as int, c);
                    lemma_lows_frame_insert(cs, i as int, c);
                    lemma_lows_at(u, i as int);
                    lemma_lows_missing(cs, k);
                    if old_runs.contains(k) {
                        lemma_run_key_has_container(old_cs, k);
                    }
                    lemma_settled_step(old_runs, old_set, prev, self@, k);
                    lemma_fresh_step(old_set, prev, self@, k);
                    assert(self.run_keys() =~= settled(old_runs, old_set, self@).union(fresh_runs(old_set, self@)));
                }
            }
            proof {
                lemma_containers_len(self.containers@);
                let bound = if (end as int) < 0x10000 * raw_key - 1 { end as int } else { 0x10000 * raw_key - 1 };
                let bound2 = if (end as int) < 0x10000 * (raw_key + 1) - 1 { end as int } else { 0x10000 * (raw_key + 1) - 1 };
                assert(closed_range(start as int, bound2) =~= closed_range(start as int, bound).union(closed_range(lo, hi)));
                assert(self@ =~= old_set.union(closed_range(start as int, bound2)));
                vstd::set_lib::lemma_len_subset(old_set, self@);
            }
            added = added + n;
            self.cardinality = self.cardinality + n;
            raw_key = raw_key + 1;
        }
        proof {
            assert(closed_range(start as int, if (end as int) < 0x10000 * raw_key - 1 { end as int } else { 0x10000 * raw_key - 1 })
                =~= closed_range(start as int, end as int));
        }
        added
    }

    /// Removes every value from `start` through `end` (none when `start > end`);
    /// returns how many were present.
    pub fn remove_range(&mut self, start: u32, end: u32) -> (r: u64)
        requires
            old(self).wf(),
        ensures
            final(self).wf(),
            final(self)@ == old(self)@.difference(closed_range(start as int, end as int)),
            r == old(self)@.len() - final(self)@.len(),
            final(self).run_keys() == settled(old(self).run_keys(), old(self)@, final(self)@),
            start > end ==> r == 0 && *final(self) == *old(self),
    {
        proof { self.lemma_view(); }
        let ghost old_set = self@;
        let ghost old_runs = self.run_keys();
        let ghost rr = closed_range(start as int, end as int);
        proof { assert(settled(old_runs, old_set, old_set) =~= old_runs); }
        if start > end {
            proof { assert(old_set.difference(rr) =~= old_set); }
            return 0;
        }
        let first = start >> 16;
        let last = end >> 16;
        proof {
            assert(start >> 16 == start / 0x10000) by (bit_vector);
            assert(end >> 16 == end / 0x10000) by (bit_vector);
            assert(start & 0xffff == start % 0x10000) by (bit_vector);
            assert(end & 0xffff == end % 0x10000) by (bit_vector);
            if self.containers@.len() > 0 {
                assert forall|x: int| below_key(rr, key_at(self.containers@, 0)).contains(x) implies !old_set.contains(x) by {
                    if old_set.contains(x) {
                        let cs = self.containers@;
                        let j = choose|j: int| #![trigger cs[j]] 0 <= j < cs.len() && cs[j].key == x / 0x10000 && cs[j]@.contains(x % 0x10000);
                        if j > 0 { assert(cs[0].key < cs[j].key); }
                    }
                }
            }
            assert(old_set.difference(below_key(rr, key_at(self.containers@, 0))) =~= old_set);
        }
        let mut removed: u64 = 0;
        let mut i: usize = 0;
        while i < self.containers.len() && (self.containers[i].key as u32) <= last
            invariant
                i <= self.containers@.len(),
                first == start / 0x10000,
                last == end / 0x10000,
                start <= end,
                rr == closed_range(start as int, end as int),
                self.wf(),
                old_set.finite(),
                old_set.len() <= 0x1_0000_0000,
                (start & 0xffff) as int == start % 0x10000,
                (end & 0xffff) as int == end % 0x10000,
                self@ == old_set.difference(below_key(rr, key_at(self.containers@, i as int))),
                removed == old_set.len() - self@.len(),
                self.run_keys() == settled(old_runs, old_set, self@),
            decreases self.containers@.len() - i, 0x10000 - key_at(self.containers@, i as int),
        {
            proof { self.lemma_view(); }
            let ghost cs = self.containers@;
            let ghost prev = self@;
            let key = self.containers[i].key as u32;
            if key < first {
                proof {
                    assert forall|x: int| #[trigger] prev.contains(x) <==> old_set.difference(below_key(rr, key_at(cs, i + 1))).contains(x) by {
                        if 0 <= x < 0x1_0000_0000 {
                            lemma_divmod(x, x / 0x10000, x % 0x10000);
                        }
                        if rr.contains(x) && x / 0x10000 < key_at(cs, i + 1) && old_set.contains(x) {
                            if x / 0x10000 >= key_at(cs, i as int) {
                                assert(x / 0x10000 >= first);
                                assert(prev.contains(x));
                                let j = choose|j: int| #![trigger cs[j]] 0 <= j < cs.len() && cs[j].key == x / 0x10000 && cs[j]@.contains(x % 0x10000);
                                if j < i { assert(cs[j].key < cs[i as int].key); }
                                if j > i + 1 { assert(cs[i + 1].key < cs[j].key); }
                                assert(false);
                            }
                        }
                        if prev.contains(x) {
                            let j = choose|j: int| #![trigger cs[j]] 0 <= j < cs.len() && cs[j].key == x / 0x10000 && cs[j]@.contains(x % 0x10000);
                            if j <= i { if j < i { assert(cs[j].key < cs[i as int].key); } }
                            else { if i + 1 < j { assert(cs[i + 1].key < cs[j].key); } }
                        }
                    }
                    assert(prev =~= old_set.difference(below_key(rr, key_at(cs, i + 1))));
                }
                i += 1;
            } else {
                let a: u16 = if key == first { (start & 0xffff) as u16 } else { 0 };
                let b: u16 = if key == last { (end & 0xffff) as u16 } else { 0xffff };
                let ghost k = key as int;
                proof {
                    assert(0x10000 * k + a == if key == first { start as int } else { 0x10000 * k });
                    assert(0x10000 * k + b == if key == last { end as int } else { 0x10000 * k + 0xffff });
                }
                let mut c = self.containers.remove(i);
                proof { assert(cs[i as int] == c); assert(c.wf()); c.lemma_view(); }
                let ghost oc = c@;
                let m = c.remove_range(a, b);
                proof {
                    c.lemma_view();
                    vstd::set_lib::lemma_len_subset(c@, oc);
                    if m == 0 {
                        vstd::set_lib::lemma_subset_equality(c@, oc);
                    }
                    assert forall|x: int| #![trigger prev.contains(x)] #![trigger old_set.contains(x)]
                        0x10000 * k <= x < 0x10000 * k + 0x10000 implies prev.contains(x) == old_set.contains(x) by {
                        lemma_divmod(x, k, x - 0x10000 * k);
                    }
                    lemma_lows_same(prev, old_set, k);
                    lemma_lows_at(cs, i as int);
                    lemma_run_key_at(cs, i as int);
                }
                if c.is_empty() {
                    proof {
                        lemma_remove_at(cs, i as int);
                        lemma_containers_len(cs);
                        lemma_containers_len(cs.remove(i as int));
                        lemma_shifted(cs[i as int]);
                        let sh = shifted(cs[i as int]);
                        vstd::set_lib::lemma_set_difference_len(prev, sh);
                        assert(prev.intersect(sh) =~= sh);
                        c@.lemma_len0_is_empty();
                        let u = cs.remove(i as int);
                        assert(key_at(u, i as int) == key_at(cs, i + 1));
                        assert forall|x: int| #[trigger] containers_set(u).contains(x) <==> old_set.difference(below_key(rr, key_at(u, i as int))).contains(x) by {
                            if 0 <= x < 0x1_0000_0000 {
                                lemma_divmod(x, x / 0x10000, x % 0x10000);
                            }
                            if sh.contains(x) {
                                lemma_divmod(x, k, x - 0x10000 * k);
                                assert(!c@.contains(x - 0x10000 * k));
                            }
                            if rr.contains(x) && x / 0x10000 < key_at(cs, i + 1) && x / 0x10000 > k && old_set.contains(x) {
                                assert(!prev.contains(x));
                                if i + 1 < cs.len() {
                                    assert(false);
                                }
                            }
                            if prev.contains(x) && x / 0x10000 < key_at(cs, i + 1) && x / 0x10000 > k {
                                let j = choose|j: int| #![trigger cs[j]] 0 <= j < cs.len() && cs[j].key == x / 0x10000 && cs[j]@.contains(x % 0x10000);
                                if j <= i { if j < i { assert(cs[j].key < cs[i as int].key); } }
                                else { if i + 1 < j { assert(cs[i + 1].key < cs[j].key); } }
                            }
                        }
                        assert(containers_set(u) =~= old_set.difference(below_key(rr, key_at(u, i as int))));
                        assert(sh.len() == oc.len());
                        assert(containers_set(u).len() + m == prev.len());
                    }
                    removed = removed + m as u64;
                    self.cardinality = self.cardinality - m as u64;
                    proof {
                        let u = self.containers@;
                        lemma_runs_remove(cs, i as int);
                        lemma_lows_frame_remove(cs, i as int);
                        assert forall|j: int| 0 <= j < u.len() implies u[j].key != k by {
                            if j < i {
                                assert(u[j] == cs[j]);
                                assert(cs[j].key < cs[i as int].key);
                            } else {
                                assert(u[j] == cs[j + 1]);
                                assert(cs[i as int].key < cs[j + 1].key);
                            }
                        }
                        lemma_lows_missing(u, k);
                        assert(super::store::run_starts(Set::<int>::empty()) =~= Set::<int>::empty());
                        assert(oc.len() > 0);
                        lemma_settled_step(old_runs, old_set, prev, self@, k);
                        assert(self.run_keys() =~= settled(old_runs, old_set, self@));
                    }
                } else {
                    proof {
                        Self::lemma_replace(cs, i as int, c);
                        assert(cs.remove(i as int).insert(i as int, c) =~= cs.update(i as int, c));
                        let u = cs.update(i as int, c);
                        assert(key_at(u, i + 1) == key_at(cs, i + 1));
                        assert forall|x: int| #[trigger] containers_set(u).contains(x) <==> old_set.difference(below_key(rr, key_at(u, i + 1))).contains(x) by {
                            if 0 <= x < 0x1_0000_0000 {
                                lemma_divmod(x, x / 0x10000, x % 0x10000);
                            }
                            if x / 0x10000 == k && 0 <= x < 0x1_0000_0000 {
                                if prev.contains(x) {
                                    let j = choose|j: int| #![trigger cs[j]] 0 <= j < cs.len() && cs[j].key == x / 0x10000 && cs[j]@.contains(x % 0x10000);
                                    if j < i { assert(cs[j].key < cs[i as int].key); }
                                    if j > i { assert(cs[i as int].key < cs[j].key); }
                                }
                                if oc.contains(x % 0x10000) {
                                    assert(prev.contains(x));
                                }
                            }
                            if rr.contains(x) && x / 0x10000 < key_at(cs, i + 1) && x / 0x10000 > k && old_set.contains(x) {
                                assert(!prev.contains(x));
                                if i + 1 < cs.len() {
                                    assert(false);
                                }
                            }
                            if prev.contains(x) && x / 0x10000 < key_at(cs, i + 1) && x / 0x10000 > k {
                                let j = choose|j: int| #![trigger cs[j]] 0 <= j < cs.len() && cs[j].key == x / 0x10000 && cs[j]@.contains(x % 0x10000);
                                if j <= i { if j < i { assert(cs[j].key < cs[i as int].key); } }
                                else { if i + 1 < j { assert(cs[i + 1].key < cs[j].key); } }
                            }
                        }
                        assert(containers_set(u) =~= old_set.difference(below_key(rr, key_at(u, i + 1))));
                        lemma_containers_len(u);
                        lemma_containers_len(cs);
                        assert(containers_set(u).len() + m == prev.len());
                    }
                    self.containers.insert(i, c);
                    removed = removed + m as u64;
                    self.cardinality = self.cardinality - m as u64;
                    proof {
                        let u = self.containers@;
                        assert(u =~= cs.update(i as int, c));
                        lemma_runs_update(cs, i as int, c);
                        lemma_lows_frame_update(cs, i as int, c);
                        lemma_lows_at(u, i as int);
                        lemma_settled_step(old_runs, old_set, prev, self@, k);
                        assert(self.run_keys() =~= settled(old_runs, old_set, self@));
                    }
                    i += 1;
                }
            }
        }
        proof {
            self.lemma_view();
            assert(below_key(rr, key_at(self.containers@, i as int)) =~= rr) by {
                assert forall|x: int| rr.contains(x) implies x / 0x10000 < key_at(self.containers@, i as int) by {
                    assert(x / 0x10000 <= last);
                }
            }
        }
        removed
    }

    /// Combines two bitmaps container by container, in key order.
    fn combine(&self, other: &Self, op: Operation) -> (r: Self)
        requires
            self.wf(),
            other.wf(),
        ensures
            r.wf(),
            r@ == apply(op, self@, other@),
            r.run_keys() == combined_runs(op, self.run_keys(), other.run_keys(), self@, other@),
    {
        let ghost ls = self.containers@;
        let ghost rs = other.containers@;
        let mut a: usize = 0;
        let mut b: usize = 0;
        let mut out: Vec<Container> = Vec::new();
        proof {
            let full = apply(op, containers_set(ls), containers_set(rs));
            assert forall|x: int| #[trigger] below_key(full, kmin(ls, rs, 0, 0)).contains(x) implies false by {
                lemma_apply(op, containers_set(ls), containers_set(rs), x);
                if containers_set(ls).contains(x) {
                    lemma_absent_between(ls, x, 0);
                }
                if containers_set(rs).contains(x) {
                    lemma_absent_between(rs, x, 0);
                }
            }
            assert(containers_set(out@) =~= below_key(full, kmin(ls, rs, 0, 0)));
            lemma_merge_runs_start(ls, rs, op);
            assert(out@ =~= Seq::<Container>::empty());
        }
        let keep_left = match op {
            Operation::Intersection => false,
            _ => true,
        };
        let keep_right = match op {
            Operation::Union => true,
            Operation::SymmetricDifference => true,
            _ => false,
        };
        while a < self.containers.len() && b < other.containers.len()
            invariant
                merge_inv(ls, rs, a as int, b as int, out@, op),
                merge_runs_inv(ls, rs, a as int, b as int, out@, op),
                self.containers@ == ls,
                other.containers@ == rs,
                keep_left == !(op is Intersection),
                keep_right == (op is Union || op is SymmetricDifference),
            decreases ls.len() - a + rs.len() - b,
        {
            let ghost k = kmin(ls, rs, a as int, b as int);
            let ghost before = out@;
            let lk = self.containers[a].key;
            let rk = other.containers[b].key;
            proof { assert(ls[a as int].wf()); assert(rs[b as int].wf()); }
            if lk < rk {
                let c = self.containers[a].clone();
                proof {
                    lemma_apply_right_empty(op, ls[a as int]@);
                    ls[a as int].lemma_view();
                    assert(keep_left == !(op is Intersection));
                    assert(ls[a as int]@.len() > 0);
                    assert(Set::<int>::empty().len() == 0);
                }
                if keep_left {
                    out.push(c);
                }
                proof {
                    lemma_merge_step(ls, rs, a as int, b as int, a + 1, b as int, before, out@, op, k, c,
                        apply(op, ls[a as int]@, Set::empty()), keep_left);
                    lemma_merge_runs_step(ls, rs, a as int, b as int, a + 1, b as int, before, out@, op, k, c,
                        apply(op, ls[a as int]@, Set::empty()), keep_left);
                }
                a += 1;
            } else if lk > rk {
                let c = other.containers[b].clone();
                proof {
                    lemma_apply_left_empty(op, rs[b as int]@);
                    rs[b as int].lemma_view();
                    assert(keep_right == (op is Union || op is SymmetricDifference));
                    assert(rs[b as int]@.len() > 0);
                    assert(Set::<int>::empty().len() == 0);
                }
                if keep_right {
                    out.push(c);
                }
                proof {
                    lemma_merge_step(ls, rs, a as int, b as int, a as int, b + 1, before, out@, op, k, c,
                        apply(op, Set::empty(), rs[b as int]@), keep_right);
                    lemma_merge_runs_step(ls, rs, a as int, b as int, a as int, b + 1, before, out@, op, k, c,
                        apply(op, Set::empty(), rs[b as int]@), keep_right);
                }
                b += 1;
            } else {
                let c = self.containers[a].combine(&other.containers[b], op);
                let nonempty = !c.is_empty();
                proof { c.lemma_view(); }
                if nonempty {
                    out.push(c);
                }
                proof {
                    lemma_merge_step(ls, rs, a as int, b as int, a + 1, b + 1, before, out@, op, k, c, c@, nonempty);
                    lemma_merge_runs_step(ls, rs, a as int, b as int, a + 1, b + 1, before, out@, op, k, c, c@, nonempty);
                }
                a += 1;
                b += 1;
            }
        }
        if keep_left {
            while a < self.containers.len()
                invariant
                    merge_inv(ls, rs, a as int, b as int, out@, op),
                merge_runs_inv(ls, rs, a as int, b as int, out@, op),
                    self.containers@ == ls,
                    other.containers@ == rs,
                    b == rs.len() || a == ls.len(),
                    keep_left == !(op is Intersection),
                    keep_right == (op is Union || op is SymmetricDifference),
                    keep_left,
                decreases ls.len() - a,
            {
                let ghost k = kmin(ls, rs, a as int, b as int);
                let ghost before = out@;
                proof { assert(ls[a as int].wf()); }
                let c = self.containers[a].clone();
                proof { lemma_apply_right_empty(op, ls[a as int]@); ls[a as int].lemma_view(); }
                out.push(c);
                proof {
                    lemma_merge_step(ls, rs, a as int, b as int, a + 1, b as int, before, out@, op, k, c, c@, true);
                    lemma_merge_runs_step(ls, rs, a as int, b as int, a + 1, b as int, before, out@, op, k, c, c@, true);
                }
                a += 1;
            }
        }
        if keep_right {
            while b < other.containers.len()
                invariant
                    merge_inv(ls, rs, a as int, b as int, out@, op),
                merge_runs_inv(ls, rs, a as int, b as int, out@, op),
                    self.containers@ == ls,
                    other.containers@ == rs,
                    b == rs.len() || a == ls.len(),
                    keep_left == !(op is Intersection),
                    keep_right == (op is Union || op is SymmetricDifference),
                    keep_right,
                decreases rs.len() - b,
            {
                let ghost k = kmin(ls, rs, a as int, b as int);
                let ghost before = out@;
                proof { assert(rs[b as int].wf()); }
                let c = other.containers[b].clone();
                proof { lemma_apply_left_empty(op, rs[b as int]@); rs[b as int].lemma_view(); }
                out.push(c);
                proof {
                    lemma_merge_step(ls, rs, a as int, b as int, a as int, b + 1, before, out@, op, k, c, c@, true);
                    lemma_merge_runs_step(ls, rs, a as int, b as int, a as int, b + 1, before, out@, op, k, c, c@, true);
                }
                b += 1;
            }
        }
        proof {
            let full = apply(op, containers_set(ls), containers_set(rs));
            assert(below_key(full, kmin(ls, rs, a as int, b as int)) =~= full) by {
                assert forall|x: int| full.contains(x) implies x / 0x10000 < kmin(ls, rs, a as int, b as int) by {
                    lemma_apply(op, containers_set(ls), containers_set(rs), x);
                    if x / 0x10000 >= kmin(ls, rs, a as int, b as int) {
                        if containers_set(ls).contains(x) {
                            lemma_containers_len(ls);
                        }
                        if containers_set(rs).contains(x) {
                            lemma_containers_len(rs);
                        }
                    }
                }
            }
        }
        proof {
            lemma_merge_runs_done(ls, rs, a as int, b as int, out@, op);
        }
        let cardinality = sum_lens(&out);
        RoaringBitmap { containers: out, cardinality }
    }

    /// Values in both bitmaps or either.
    pub fn union(&self, other: &Self) -> (r: Self)
        requires
            self.wf(),
            other.wf(),
        ensures
            r.wf(),
            r@ == self@.union(other@),
            r.run_keys() == combined_runs(Operation::Union, self.run_keys(), other.run_keys(), self@, other@),
    {
        self.combine(other, Operation::Union)
    }

    /// Values in both bitmaps.
    pub fn intersection(&self, other: &Self) -> (r: Self)
        requires
            self.wf(),
            other.wf(),
        ensures
            r.wf(),
            r@ == self@.intersect(other@),
            r.run_keys() == combined_runs(Operation::Intersection, self.run_keys(), other.run_keys(), self@, other@),
    {
        self.combine(other, Operation::Intersection)
    }

    /// Values of this bitmap that are not in the other.
    pub fn difference(&self, other: &Self) -> (r: Self)
        requires
            self.wf(),
            other.wf(),
        ensures
            r.wf(),
            r@ == self@.difference(other@),
            r.run_keys() == combined_runs(Operation::Difference, self.run_keys(), other.run_keys(), self@, other@),
    {
        self.combine(other, Operation::Difference)
    }

    /// Values in exactly one of the bitmaps.
    pub fn symmetric_difference(&self, other: &Self) -> (r: Self)
        requires
            self.wf(),
            other.wf(),
        ensures
            r.wf(),
            r@ == self@.difference(other@).union(other@.difference(self@)),
            r.run_keys() == combined_runs(Operation::SymmetricDifference, self.run_keys(), other.run_keys(), self@, other@),
    {
        self.combine(other, Operation::SymmetricDifference)
    }

    /// Converts each container to runs where runs take fewer bytes; reports
    /// whether any container is held as runs afterwards by that rule.
    pub fn run_optimize(&mut self) -> (r: bool)
        requires
            old(self).wf(),
        ensures
            final(self).wf(),
            final(self)@ == old(self)@,
            r == exists|i: int| 0 <= i < old(self).containers_seq().len()
                && #[trigger] old(self).containers_seq()[i].store_spec().would_run(),
            final(self).run_keys() == old(self).run_keys().union(paying_runs(old(self)@)),
            r == (final(self).run_keys() != Set::<int>::empty()),
    {
        let ghost cs = self.containers@;
        let mut any = false;
        let mut i: usize = 0;
        while i < self.containers.len()
            invariant
                i <= self.containers@.len() == cs.len(),
                containers_wf(cs),
                containers_wf(self.containers@),
                self.cardinality == containers_card(cs),
                forall|j: int| 0 <= j < cs.len() ==> (#[trigger] self.containers@[j]).key == cs[j].key
                    && self.containers@[j]@ == cs[j]@,
                forall|j: int| i <= j < cs.len() ==> self.containers@[j] == cs[j],
                any == exists|j: int| 0 <= j < i && #[trigger] cs[j].store_spec().would_run(),
                forall|j: int| 0 <= j < cs.len() ==> (#[trigger] self.containers@[j].store_spec() is Run)
                    == if j < i { cs[j].store_spec().would_run() } else { cs[j].store_spec() is Run },
            decreases cs.len() - i,
        {
            let ghost before = self.containers@;
            let mut c = self.containers.remove(i);
            proof { assert(before[i as int] == c); assert(c.wf()); assert(cs[i as int] == c); }
            let changed = c.run_optimize();
            proof {
                c.lemma_view();
                Self::lemma_replace(before, i as int, c);
                assert(before.remove(i as int).insert(i as int, c) =~= before.update(i as int, c));
            }
            self.containers.insert(i, c);
            any = any || changed;
            proof {
                assert forall|j: int| 0 <= j < i + 1 && #[trigger] cs[j].store_spec().would_run() implies any by {
                    if cs[j].store_spec().would_run() && j < i {
                        assert(exists|j2: int| 0 <= j2 < i && #[trigger] cs[j2].store_spec().would_run());
                    }
                }
                if any {
                    if !changed {
                        let j = choose|j: int| 0 <= j < i && #[trigger] cs[j].store_spec().would_run();
                        assert(exists|j2: int| 0 <= j2 < i + 1 && #[trigger] cs[j2].store_spec().would_run());
                    } else {
                        assert(cs[i as int].store_spec().would_run());
                    }
                }
            }
            i += 1;
        }
        proof {
            assert(containers_set(self.containers@) =~= containers_set(cs)) by {
                assert forall|x: int| #[trigger] containers_set(self.containers@).contains(x) <==> containers_set(cs).contains(x) by {
                    let ns = self.containers@;
                    if containers_set(ns).contains(x) {
                        let j = choose|j: int| #![trigger ns[j]] 0 <= j < ns.len() && ns[j].key == x / 0x10000 && ns[j]@.contains(x % 0x10000);
                        assert(cs[j].key == ns[j].key);
                    }
                    if containers_set(cs).contains(x) {
                        let j = choose|j: int| #![trigger cs[j]] 0 <= j < cs.len() && cs[j].key == x / 0x10000 && cs[j]@.contains(x % 0x10000);
                        assert(ns[j].key == cs[j].key);
                    }
                }
            }
            lemma_containers_len(cs);
            lemma_containers_len(self.containers@);
            let ns = self.containers@;
            let old_set = containers_set(cs);
            assert forall|j: int| 0 <= j < cs.len() implies #[trigger] cs[j].store_spec().would_run()
                == (cs[j].store_spec() is Run || runs_pay(lows(old_set, cs[j].key as int))) by {
                assert(cs[j].wf());
                cs[j].store_spec().lemma_would_run();
                lemma_lows_at(cs, j);
            }
            assert forall|k: int| #[trigger] keys_in_runs(ns).contains(k)
                <==> keys_in_runs(cs).union(paying_runs(old_set)).contains(k) by {
                if keys_in_runs(ns).contains(k) {
                    let j = choose|j: int| #![trigger ns[j]] 0 <= j < ns.len() && ns[j].key == k && ns[j].store_spec() is Run;
                    assert(cs[j].store_spec().would_run());
                    lemma_lows_at(cs, j);
                    assert(cs[j].wf());
                    if !(cs[j].store_spec() is Run) {
                        assert(lows(old_set, k).len() > 0);
                    }
                }
                if keys_in_runs(cs).contains(k) {
                    let j = choose|j: int| #![trigger cs[j]] 0 <= j < cs.len() && cs[j].key == k && cs[j].store_spec() is Run;
                    assert(ns[j].store_spec() is Run);
                    assert(ns[j].key == k);
                }
                if paying_runs(old_set).contains(k) {
                    if forall|j: int| 0 <= j < cs.len() ==> cs[j].key != k {
                        lemma_lows_missing(cs, k);
                    } else {
                        let j = choose|j: int| 0 <= j < cs.len() && cs[j].key == k;
                        lemma_lows_at(cs, j);
                        assert(ns[j].store_spec() is Run);
                        assert(ns[j].key == k);
                    }
                }
            }
            assert(keys_in_runs(ns) =~= keys_in_runs(cs).union(paying_runs(old_set)));
            if any {
                let j = choose|j: int| 0 <= j < cs.len() && #[trigger] cs[j].store_spec().would_run();
                assert(ns[j].store_spec() is Run);
                assert(keys_in_runs(ns).contains(ns[j].key as int));
            } else {
                assert forall|k: int| !#[trigger] keys_in_runs(ns).contains(k) by {
                    if keys_in_runs(ns).contains(k) {
                        let j = choose|j: int| #![trigger ns[j]] 0 <= j < ns.len() && ns[j].key == k && ns[j].store_spec() is Run;
                        assert(cs[j].store_spec().would_run());
                    }
                }
                assert(keys_in_runs(ns) =~= Set::<int>::empty());
            }
        }
        any
    }

    /// The values in increasing order.
    pub fn iter(&self) -> (r: Iter)
        requires
            self.wf(),
        ensures
            r.wf(),
            increasing32(r.rest()),
            values32_set(r.rest()) == self@,
    {
        Iter::new(&self.containers, self.cardinality)
    }

    /// A bitmap that keeps the invariant, as every operation leaves it, can be
    /// checked by `validate`, and passes: its keys increase, each container is
    /// nonempty, sound and in the form its size calls for, and the count is the
    /// sum of the containers' counts.
    pub proof fn lemma_validates(&self)
        requires
            self.wf(),
        ensures
            forall|i: int| 0 <= i < self.containers_seq().len() ==> (#[trigger] self.containers_seq()[i]).store_spec().shaped(),
            forall|i: int, j: int| 0 <= i < j < self.containers_seq().len()
                ==> self.containers_seq()[i].key < self.containers_seq()[j].key,
            forall|i: int| 0 <= i < self.containers_seq().len() ==> (#[trigger] self.containers_seq()[i])@.len() > 0
                && self.containers_seq()[i].store_spec().wf() && self.containers_seq()[i].store_spec().size_policy(),
            self.cardinality_field() == containers_card(self.containers_seq()),
    {
        assert forall|i: int| 0 <= i < self.containers_seq().len() implies (#[trigger] self.containers_seq()[i]).store_spec().shaped() by {
            assert(self.containers_seq()[i].wf());
        }
    }

    /// Checks that keys increase, each container is nonempty, sound and in the
    /// form its size calls for, and the count matches.
    pub fn validate(&self) -> (r: bool)
        requires
            forall|i: int| 0 <= i < self.containers_seq().len() ==> (#[trigger] self.containers_seq()[i]).store_spec().shaped(),
        ensures
            r == self.wf(),
    {
        let n = self.containers.len();
        let mut ordered = true;
        let mut i: usize = 1;
        while i < n
            invariant
                1 <= i || n == 0,
                n == self.containers@.len(),
                ordered == forall|a: int, b: int| 0 <= a < b < i && b < n ==> self.containers@[a].key < self.containers@[b].key,
            decreases n - i,
        {
            if self.containers[i - 1].key >= self.containers[i].key {
                ordered = false;
            } else {
                proof {
                    if ordered {
                        assert forall|a: int, b: int| 0 <= a < b < i + 1 && b < n implies self.containers@[a].key < self.containers@[b].key by {
                            if b == i && a < i - 1 {
                                assert(self.containers@[a].key < self.containers@[i - 1].key);
                            }
                        }
                    }
                }
            }
            i += 1;
        }
        if !ordered {
            return false;
        }
        let mut valid = true;
        let mut j: usize = 0;
        while j < n
            invariant
                j <= n == self.containers@.len(),
                forall|k: int| 0 <= k < n ==> (#[trigger] self.containers_seq()[k]).store_spec().shaped(),
                valid == forall|k: int| 0 <= k < j ==> (#[trigger] self.containers@[k]).wf() && self.containers@[k]@.len() > 0,
            decreases n - j,
        {
            proof { assert(self.containers_seq()[j as int].store_spec().shaped()); }
            let ok = self.containers[j].validate();
            proof {
                let c = self.containers@[j as int];
                if ok { c.store.lemma_view(); }
            }
            valid = valid && ok;
            j += 1;
        }
        if !valid {
            return false;
        }
        let calculated = sum_lens(&self.containers);
        calculated == self.cardinality
    }

    /// Inserts each of the values.
    pub fn extend(&mut self, values: &Vec<u32>)
        requires
            old(self).wf(),
        ensures
            final(self).wf(),
            final(self)@ == old(self)@.union(values32_set(values@)),
            final(self).run_keys() == runs_after_inserts(old(self).run_keys(), old(self)@, values@),
    {
        let mut i: usize = 0;
        let ghost start = self@;
        let ghost start_runs = self.run_keys();
        proof { assert(values@.subrange(0, 0) =~= Seq::<u32>::empty()); }
        proof { assert(start.union(values32_set(values@.subrange(0, 0))) =~= start); }
        while i < values.len()
            invariant
                i <= values@.len(),
                self.wf(),
                self@ == start.union(values32_set(values@.subrange(0, i as int))),
                self.run_keys() == runs_after_inserts(start_runs, start, values@.subrange(0, i as int)),
            decreases values@.len() - i,
        {
            let ghost prev = self@;
            self.insert(values[i]);
            proof {
                let p = values@.subrange(0, i as int + 1);
                let q = values@.subrange(0, i as int);
                assert forall|x: int| #[trigger] values32_set(p).contains(x) <==> values32_set(q).insert(values@[i as int] as int).contains(x) by {
                    if values32_set(p).contains(x) {
                        let k = choose|k: int| 0 <= k < p.len() && p[k] as int == x;
                        if k < i { assert(q[k] as int == x); }
                    }
                    if values32_set(q).contains(x) {
                        let k = choose|k: int| 0 <= k < q.len() && q[k] as int == x;
                        assert(p[k] as int == x);
                    }
                    if x == values@[i as int] as int {
                        assert(p[i as int] as int == x);
                    }
                }
                assert(self@ =~= start.union(values32_set(p)));
                assert(p.drop_last() =~= q);
                assert(p.last() == values@[i as int]);
            }
            i += 1;
        }
        proof { assert(values@.subrange(0, i as int) =~= values@); }
    }

    /// A bitmap holding the given values.
    pub fn from_iter(values: &Vec<u32>) -> (r: Self)
        ensures
            r.wf(),
            r@ == values32_set(values@),
            r.run_keys() == Set::<int>::empty(),
    {
        let mut bitmap = Self::new();
        bitmap.extend(values);
        proof { lemma_no_runs_after_inserts(Set::<int>::empty(), values@); }
        proof { assert(Set::<int>::empty().union(values32_set(values@)) =~= values32_set(values@)); }
        bitmap
    }

    /// The containers' keys are the distinct high halves of the values.
    proof fn lemma_keys(&self)
        requires
            self.wf(),
        ensures
            self@.map(|x: int| x / 0x10000).len() == self.containers_seq().len(),
    {
        let cs = self.containers_seq();
        let keys = self@.map(|x: int| x / 0x10000);
        let ks = cs.map_values(|c: Container| c.key as int);
        assert(keys =~= ks.to_set()) by {
            assert forall|k: int| keys.contains(k) <==> #[trigger] ks.to_set().contains(k) by {
                if keys.contains(k) {
                    let x = choose|x: int| self@.contains(x) && x / 0x10000 == k;
                    let i = choose|i: int| #![trigger cs[i]] 0 <= i < cs.len() && cs[i].key == x / 0x10000 && cs[i]@.contains(x % 0x10000);
                    assert(ks[i] == k);
                }
                if ks.to_set().contains(k) {
                    let i = choose|i: int| 0 <= i < ks.len() && ks[i] == k;
                    assert(cs[i].wf() && cs[i]@.len() > 0);
                    cs[i].lemma_view();
                    let l = cs[i]@.choose();
                    assert(cs[i]@.contains(l));
                    let x = 0x10000 * k + l;
                    lemma_divmod(x, k, l);
                    assert(self@.contains(x));
                }
            }
        }
        assert(ks.no_duplicates()) by {
            assert forall|i: int, j: int| 0 <= i < ks.len() && 0 <= j < ks.len() && i != j implies ks[i] != ks[j] by {
                if i < j { assert(cs[i].key < cs[j].key); } else { assert(cs[j].key < cs[i].key); }
            }
        }
        ks.unique_seq_to_set();
    }
}

impl Default for RoaringBitmap {
    fn default() -> (r: Self)
        ensures
            r.wf(),
            r@ == Set::<int>::empty(),
            r.run_keys() == Set::<int>::empty(),
    {
        Self::new()
    }
}

/// Removing a value that an insert added gives back the set before the insert.
pub proof fn lemma_remove_undoes_insert(s: Set<int>, value: int)
    requires
        !s.contains(value),
    ensures
        s.insert(value).remove(value) == s,
{
    assert(s.insert(value).remove(value) =~= s);
}

/// The sizes of the union and the intersection of two bitmaps add up to the
/// sizes of the bitmaps.
pub proof fn lemma_union_intersection_len(a: &RoaringBitmap, b: &RoaringBitmap)
    requires
        a.wf(),
        b.wf(),
    ensures
        a@.union(b@).len() + a@.intersect(b@).len() == a@.len() + b@.len(),
{
    a.lemma_view();
    b.lemma_view();
    vstd::set_lib::lemma_set_intersect_union_lens(a@, b@);
}

impl Clone for RoaringBitmap {
    /// A copy holding the same values in containers of the same forms.
    fn clone(&self) -> (r: Self)
        ensures
            r.wf() == self.wf(),
            r@ == self@,
            r.run_keys() == self.run_keys(),
            r.cardinality_field() == self.cardinality_field(),
    {
        let mut containers: Vec<Container> = Vec::new();
        let n = self.containers.len();
        let mut i: usize = 0;
        while i < n
            invariant
                n == self.containers@.len(),
                i <= n,
                containers@.len() == i,
                forall|j: int| 0 <= j < i ==> (#[trigger] containers@[j]).key == self.containers@[j].key
                    && containers@[j]@ == self.containers@[j]@ && containers@[j].wf() == self.containers@[j].wf()
                    && (containers@[j].store_spec() is Run) == (self.containers@[j].store_spec() is Run),
            decreases n - i,
        {
            containers.push(self.containers[i].clone());
            i = i + 1;
        }
        proof { lemma_alike(self.containers@, containers@); }
        RoaringBitmap { containers, cardinality: self.cardinality }
    }
}

} // verus!
