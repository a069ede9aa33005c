//! A stable insertion order: the order in which the library sorts edits, stated once.

use vstd::prelude::*;

verus! {

/// Index of the first element of `t` whose key exceeds `k` (or `t.len()`).
pub open spec fn first_gt<T>(t: Seq<T>, key: spec_fn(T) -> int, k: int) -> nat
    decreases t.len(),
{
    if t.len() == 0 {
        0
    } else if key(t[0]) > k {
        0
    } else {
        1 + first_gt(t.drop_first(), key, k)
    }
}

/// Insert `x` after every element whose key is at most `key(x)`.
pub open spec fn insert_stable<T>(t: Seq<T>, key: spec_fn(T) -> int, x: T) -> Seq<T> {
    t.insert(first_gt(t, key, key(x)) as int, x)
}

/// The stable sort of `s` by `key`: equal keys keep their input order.
pub open spec fn stable_sort<T>(s: Seq<T>, key: spec_fn(T) -> int) -> Seq<T>
    decreases s.len(),
{
    if s.len() == 0 {
        s
    } else {
        insert_stable(stable_sort(s.drop_last(), key), key, s.last())
    }
}

/// `t` is in non-decreasing key order.
pub open spec fn sorted_by<T>(t: Seq<T>, key: spec_fn(T) -> int) -> bool {
    forall|i: int, j: int| 0 <= i <= j < t.len() ==> key(t[i]) <= key(t[j])
}

pub proof fn lemma_first_gt<T>(t: Seq<T>, key: spec_fn(T) -> int, k: int)
    ensures
        first_gt(t, key, k) <= t.len(),
        forall|j: int| 0 <= j < first_gt(t, key, k) ==> key(#[trigger] t[j]) <= k,
        first_gt(t, key, k) < t.len() ==> key(t[first_gt(t, key, k) as int]) > k,
    decreases t.len(),
{
    if t.len() > 0 && key(t[0]) <= k {
        lemma_first_gt(t.drop_first(), key, k);
        assert forall|j: int| 0 <= j < first_gt(t, key, k) implies key(#[trigger] t[j]) <= k by {
            if j > 0 {
                assert(t[j] == t.drop_first()[j - 1]);
            }
        }
    }
}

/// Stable sorting keeps the length and yields a sorted sequence.
pub proof fn lemma_stable_sort<T>(s: Seq<T>, key: spec_fn(T) -> int)
    ensures
        stable_sort(s, key).len() == s.len(),
        sorted_by(stable_sort(s, key), key),
        stable_sort(s, key).to_multiset() == s.to_multiset(),
    decreases s.len(),
{
    if s.len() > 0 {
        let t = stable_sort(s.drop_last(), key);
        lemma_stable_sort(s.drop_last(), key);
        let x = s.last();
        let p = first_gt(t, key, key(x));
        lemma_first_gt(t, key, key(x));
        let r = t.insert(p as int, x);
        assert forall|i: int, j: int| 0 <= i <= j < r.len() implies key(r[i]) <= key(r[j]) by {
            if i < p && j < p {
            } else if i < p && j == p {
            } else if i < p {
                assert(r[j] == t[j - 1]);
            } else if i == p && j == p {
            } else if i == p {
                assert(r[j] == t[j - 1]);
                assert(key(t[p as int]) > key(x));
                assert(key(t[p as int]) <= key(t[j - 1]));
            } else {
                assert(r[i] == t[i - 1]);
                assert(r[j] == t[j - 1]);
            }
        }
        vstd::seq_lib::lemma_multiset_commutative(t.take(p as int), t.skip(p as int));
        assert(t.take(p as int) + t.skip(p as int) =~= t);
        assert(r =~= t.take(p as int) + seq![x] + t.skip(p as int));
        vstd::seq_lib::lemma_multiset_commutative(t.take(p as int) + seq![x], t.skip(p as int));
        vstd::seq_lib::lemma_multiset_commutative(t.take(p as int), seq![x]);
        assert(s =~= s.drop_last().push(x));
        vstd::seq_lib::lemma_multiset_commutative(s.drop_last(), seq![x]);
        assert(s.drop_last().push(x) =~= s.drop_last() + seq![x]);
    }
}

}

verus! {

/// Stable sorting keeps every element property that held of the input.
pub proof fn lemma_stable_sort_all<T>(s: Seq<T>, key: spec_fn(T) -> int, p: spec_fn(T) -> bool)
    requires
        forall|i: int| 0 <= i < s.len() ==> p(#[trigger] s[i]),
    ensures
        forall|i: int| 0 <= i < stable_sort(s, key).len() ==> p(#[trigger] stable_sort(s, key)[i]),
    decreases s.len(),
{
    if s.len() > 0 {
        lemma_stable_sort_all(s.drop_last(), key, p);
        let t = stable_sort(s.drop_last(), key);
        let x = s.last();
        lemma_first_gt(t, key, key(x));
        let q = first_gt(t, key, key(x)) as int;
        assert forall|i: int| 0 <= i < t.insert(q, x).len() implies p(#[trigger] t.insert(q, x)[i]) by {
            if i < q {
                assert(t.insert(q, x)[i] == t[i]);
            } else if i > q {
                assert(t.insert(q, x)[i] == t[i - 1]);
            }
        }
    }
}

}
