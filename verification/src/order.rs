//! A stable sort of positions by key.

use vstd::multiset::*;
use vstd::prelude::*;
use vstd::relations::*;
use vstd::seq_lib::*;

verus! {

/// Position `a` is put no later than position `b`: by key, and for equal keys
/// by position.
pub open spec fn no_later(keys: Seq<int>, a: int, b: int) -> bool {
    keys[a] < keys[b] || (keys[a] == keys[b] && a <= b)
}

/// The order of positions that `keys` gives.
pub open spec fn by_key(keys: Seq<int>) -> spec_fn(int, int) -> bool {
    |a: int, b: int| no_later(keys, a, b)
}

/// The positions of `keys`, in order.
pub open spec fn positions(n: nat) -> Seq<int> {
    Seq::new(n, |i: int| i)
}

/// The positions of `keys` in ascending order of key; positions with equal keys
/// keep their order.
pub open spec fn stable_order(keys: Seq<int>) -> Seq<int> {
    positions(keys.len()).sort_by(by_key(keys))
}

/// The values of a sequence of keys.
pub open spec fn key_values(keys: Seq<i128>) -> Seq<int> {
    keys.map_values(|k: i128| k as int)
}

/// The values of a sequence of positions.
pub open spec fn position_values(v: Seq<usize>) -> Seq<int> {
    v.map_values(|i: usize| i as int)
}

pub proof fn lemma_by_key_total(keys: Seq<int>)
    ensures
        total_ordering(by_key(keys)),
{
}

/// The stable order holds every position exactly once, sorted.
pub proof fn lemma_stable_order(keys: Seq<int>)
    ensures
        stable_order(keys).len() == keys.len(),
        forall|i: int|
            0 <= i < keys.len() ==> 0 <= #[trigger] stable_order(keys)[i] < keys.len(),
        stable_order(keys).no_duplicates(),
        forall|p: int| 0 <= p < keys.len() ==> #[trigger] stable_order(keys).contains(p),
        forall|i: int, j: int|
            0 <= i < j < keys.len() ==> no_later(
                keys,
                #[trigger] stable_order(keys)[i],
                #[trigger] stable_order(keys)[j],
            ),
{
    let all = positions(keys.len());
    let leq = by_key(keys);
    let r = stable_order(keys);
    lemma_by_key_total(keys);
    all.lemma_sort_by_ensures(leq);
    broadcast use group_to_multiset_ensures;

    assert(all.no_duplicates());
    all.lemma_multiset_has_no_duplicates();
    r.lemma_multiset_has_no_duplicates_conv();
    assert(r.len() == r.to_multiset().len());
    assert(all.len() == all.to_multiset().len());
    assert forall|i: int| 0 <= i < keys.len() implies 0 <= #[trigger] r[i] < keys.len() by {
        assert(r.contains(r[i]));
        assert(all.contains(r[i]));
    }
    assert forall|p: int| 0 <= p < keys.len() implies #[trigger] r.contains(p) by {
        assert(all[p] == p);
        assert(all.contains(p));
        assert(all.to_multiset().count(p) > 0);
    }
    assert forall|i: int, j: int| 0 <= i < j < keys.len() implies no_later(
        keys,
        #[trigger] r[i],
        #[trigger] r[j],
    ) by {
        assert(leq(r[i], r[j]));
    }
}

/// Merges two sorted runs of positions.
fn merge_runs(left: &Vec<usize>, right: &Vec<usize>, keys: &Vec<i128>) -> (r: Vec<usize>)
    requires
        forall|i: int| 0 <= i < left@.len() ==> #[trigger] left@[i] < keys@.len(),
        forall|i: int| 0 <= i < right@.len() ==> #[trigger] right@[i] < keys@.len(),
        sorted_by(position_values(left@), by_key(key_values(keys@))),
        sorted_by(position_values(right@), by_key(key_values(keys@))),
    ensures
        forall|i: int| 0 <= i < r@.len() ==> #[trigger] r@[i] < keys@.len(),
        sorted_by(position_values(r@), by_key(key_values(keys@))),
        position_values(r@).to_multiset() == position_values(left@).to_multiset().add(
            position_values(right@).to_multiset(),
        ),
{
    let ghost leq = by_key(key_values(keys@));
    let ghost l = position_values(left@);
    let ghost s = position_values(right@);
    let mut out: Vec<usize> = Vec::new();
    let mut i: usize = 0;
    let mut j: usize = 0;
    proof {
        lemma_by_key_total(key_values(keys@));
        assert(l.take(0) == Seq::<int>::empty());
        assert(s.take(0) == Seq::<int>::empty());
        assert(position_values(out@) == Seq::<int>::empty());
        broadcast use group_multiset_axioms;

        assert(Seq::<int>::empty().to_multiset() =~= Multiset::empty()) by {
            broadcast use group_to_multiset_ensures;

        }
        assert(position_values(out@).to_multiset() =~= l.take(0).to_multiset().add(
            s.take(0).to_multiset(),
        ));
    }
    while i < left.len() || j < right.len()
        invariant
            i <= left@.len(),
            j <= right@.len(),
            l == position_values(left@),
            s == position_values(right@),
            leq == by_key(key_values(keys@)),
            total_ordering(leq),
            sorted_by(l, leq),
            sorted_by(s, leq),
            forall|k: int| 0 <= k < left@.len() ==> #[trigger] left@[k] < keys@.len(),
            forall|k: int| 0 <= k < right@.len() ==> #[trigger] right@[k] < keys@.len(),
            forall|k: int| 0 <= k < out@.len() ==> #[trigger] out@[k] < keys@.len(),
            sorted_by(position_values(out@), leq),
            forall|k: int, m: int|
                0 <= k < out@.len() && i <= m < l.len() ==> leq(
                    #[trigger] position_values(out@)[k],
                    #[trigger] l[m],
                ),
            forall|k: int, m: int|
                0 <= k < out@.len() && j <= m < s.len() ==> leq(
                    #[trigger] position_values(out@)[k],
                    #[trigger] s[m],
                ),
            position_values(out@).to_multiset() == l.take(i as int).to_multiset().add(
                s.take(j as int).to_multiset(),
            ),
        decreases left@.len() - i + right@.len() - j,
    {
        let from_left: bool = if i >= left.len() {
            false
        } else if j >= right.len() {
            true
        } else {
            let a: usize = left[i];
            let b: usize = right[j];
            keys[a] < keys[b] || (keys[a] == keys[b] && a <= b)
        };
        let ghost before = position_values(out@);
        let next: usize = if from_left {
            left[i]
        } else {
            right[j]
        };
        proof {
            broadcast use {group_to_multiset_ensures, group_multiset_axioms};

            if from_left {
                if j < right@.len() {
                    assert(leq(l[i as int], s[j as int]));
                    assert forall|m: int| j <= m < s.len() implies leq(l[i as int], #[trigger] s[m]) by {
                        assert(leq(s[j as int], s[m]) || m == j);
                    }
                }
                assert(l.take(i + 1) == l.take(i as int).push(l[i as int]));
            } else {
                if i < left@.len() {
                    assert(leq(s[j as int], l[i as int]));
                    assert forall|m: int| i <= m < l.len() implies leq(s[j as int], #[trigger] l[m]) by {
                        assert(leq(l[i as int], l[m]) || m == i);
                    }
                }
                assert(s.take(j + 1) == s.take(j as int).push(s[j as int]));
            }
        }
        out.push(next);
        proof {
            broadcast use {group_to_multiset_ensures, group_multiset_axioms};

            assert(position_values(out@) == before.push(next as int));
            if from_left {
                assert(position_values(out@).to_multiset() =~= l.take(
                    i + 1,
                ).to_multiset().add(s.take(j as int).to_multiset()));
            } else {
                assert(position_values(out@).to_multiset() =~= l.take(
                    i as int,
                ).to_multiset().add(s.take(j + 1).to_multiset()));
            }
        }
        if from_left {
            i = i + 1;
        } else {
            j = j + 1;
        }
    }
    assert(l.take(l.len() as int) == l);
    assert(s.take(s.len() as int) == s);
    out
}

/// Sorts positions by merging.
fn merge_sort(idx: Vec<usize>, keys: &Vec<i128>) -> (r: Vec<usize>)
    requires
        forall|i: int| 0 <= i < idx@.len() ==> #[trigger] idx@[i] < keys@.len(),
    ensures
        forall|i: int| 0 <= i < r@.len() ==> #[trigger] r@[i] < keys@.len(),
        sorted_by(position_values(r@), by_key(key_values(keys@))),
        position_values(r@).to_multiset() == position_values(idx@).to_multiset(),
    decreases idx@.len(),
{
    if idx.len() <= 1 {
        return idx;
    }
    let ghost all = idx@;
    let mut left = idx;
    let mid: usize = left.len() / 2;
    let right = left.split_off(mid);
    proof {
        assert(position_values(all) == position_values(left@) + position_values(right@));
        lemma_multiset_commutative(position_values(left@), position_values(right@));
        assert forall|i: int| 0 <= i < right@.len() implies #[trigger] right@[i] < keys@.len() by {
            assert(all[i + mid] == right@[i]);
        }
    }
    let left = merge_sort(left, keys);
    let right = merge_sort(right, keys);
    merge_runs(&left, &right, keys)
}

/// The positions of `keys`, sorted by key; equal keys keep their order.
pub fn sort_positions(keys: &Vec<i128>) -> (r: Vec<usize>)
    ensures
        position_values(r@) == stable_order(key_values(keys@)),
{
    let mut idx: Vec<usize> = Vec::new();
    let mut i: usize = 0;
    while i < keys.len()
        invariant
            i <= keys@.len(),
            idx@.len() == i,
            forall|k: int| 0 <= k < i ==> #[trigger] idx@[k] == k,
        decreases keys@.len() - i,
    {
        idx.push(i);
        i = i + 1;
    }
    proof {
        assert(position_values(idx@) == positions(keys@.len()));
    }
    let r = merge_sort(idx, keys);
    proof {
        let leq = by_key(key_values(keys@));
        lemma_by_key_total(key_values(keys@));
        positions(keys@.len()).lemma_sort_by_ensures(leq);
        lemma_sorted_unique(
            position_values(r@),
            positions(keys@.len()).sort_by(leq),
            leq,
        );
    }
    r
}

/// The order holds every position once, by ascending key, and positions of equal
/// key by position.
pub proof fn law_order_is_sorted(keys: Seq<int>, a: int, b: int)
    requires
        0 <= a < b < keys.len(),
    ensures
        stable_order(keys).len() == keys.len(),
        stable_order(keys).no_duplicates(),
        0 <= stable_order(keys)[a] < keys.len(),
        keys[stable_order(keys)[a]] <= keys[stable_order(keys)[b]],
        keys[stable_order(keys)[a]] == keys[stable_order(keys)[b]] ==> stable_order(keys)[a]
            < stable_order(keys)[b],
{
    lemma_stable_order(keys);
    assert(no_later(keys, stable_order(keys)[a], stable_order(keys)[b]));
}

} // verus!
