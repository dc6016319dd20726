//! Counting helpers over integer sequences: a prefix-based occurrence
//! count, a prefix-based sum, and the lemmas that tie the count to
//! `Seq::to_multiset`. These carry the bookkeeping for the board's
//! row/column/box permutation checks.

use vstd::multiset::Multiset;
use vstd::prelude::*;

verus! {

/// Number of occurrences of `v` among the first `n` elements of `s`.
pub open spec fn count_upto(s: Seq<int>, v: int, n: int) -> int
    decreases n,
{
    if n <= 0 {
        0
    } else {
        count_upto(s, v, n - 1) + if s[n - 1] == v {
            1int
        } else {
            0int
        }
    }
}

/// Sum of the first `n` elements of `s`.
pub open spec fn sum_upto(s: Seq<int>, n: int) -> int
    decreases n,
{
    if n <= 0 {
        0
    } else {
        sum_upto(s, n - 1) + s[n - 1]
    }
}

/// The prefix sum only looks at the first `n` elements.
pub proof fn lemma_sum_upto_agree(s: Seq<int>, t: Seq<int>, n: int)
    requires
        forall|i: int| 0 <= i < n ==> s[i] == t[i],
    ensures
        sum_upto(s, n) == sum_upto(t, n),
    decreases n,
{
    if n > 0 {
        lemma_sum_upto_agree(s, t, n - 1);
    }
}

/// Appending one element adds it to the sum.
pub proof fn lemma_sum_upto_push(s: Seq<int>, v: int)
    ensures
        sum_upto(s.push(v), s.len() as int + 1) == sum_upto(s, s.len() as int) + v,
{
    lemma_sum_upto_agree(s.push(v), s, s.len() as int);
    assert(s.push(v)[s.len() as int] == v);
}

/// The prefix count only looks at the first `n` elements.
pub proof fn lemma_count_upto_agree(s: Seq<int>, t: Seq<int>, v: int, n: int)
    requires
        forall|i: int| 0 <= i < n ==> s[i] == t[i],
    ensures
        count_upto(s, v, n) == count_upto(t, v, n),
    decreases n,
{
    if n > 0 {
        lemma_count_upto_agree(s, t, v, n - 1);
    }
}

/// A count of occurrences is never negative.
pub proof fn lemma_count_upto_nonneg(s: Seq<int>, v: int, n: int)
    ensures
        count_upto(s, v, n) >= 0,
    decreases n,
{
    if n > 0 {
        lemma_count_upto_nonneg(s, v, n - 1);
    }
}

/// The prefix count never decreases as the prefix grows.
pub proof fn lemma_count_upto_monotone(s: Seq<int>, v: int, n: int, m: int)
    requires
        n <= m,
    ensures
        count_upto(s, v, n) <= count_upto(s, v, m),
    decreases m - n,
{
    if n < m {
        lemma_count_upto_monotone(s, v, n, m - 1);
    }
}

/// An occurrence at index `i` puts at least one `v` in any prefix past `i`.
pub proof fn lemma_count_upto_pos(s: Seq<int>, v: int, i: int, n: int)
    requires
        0 <= i < n,
        s[i] == v,
    ensures
        count_upto(s, v, n) >= 1,
{
    lemma_count_upto_nonneg(s, v, i);
    assert(count_upto(s, v, i + 1) == count_upto(s, v, i) + 1);
    lemma_count_upto_monotone(s, v, i + 1, n);
}

/// Two distinct occurrences put at least two `v`s in the full count.
pub proof fn lemma_count_upto_two(s: Seq<int>, v: int, i: int, j: int, n: int)
    requires
        0 <= i < j < n,
        s[i] == v,
        s[j] == v,
    ensures
        count_upto(s, v, n) >= 2,
{
    lemma_count_upto_pos(s, v, i, j);
    assert(count_upto(s, v, j + 1) == count_upto(s, v, j) + 1);
    lemma_count_upto_monotone(s, v, j + 1, n);
}

/// The full prefix count agrees with the multiset occurrence count.
pub proof fn lemma_count_upto_multiset(s: Seq<int>, v: int)
    ensures
        count_upto(s, v, s.len() as int) == s.to_multiset().count(v),
    decreases s.len(),
{
    broadcast use vstd::seq_lib::group_to_multiset_ensures;

    if s.len() == 0 {
        assert(s.to_multiset() =~= Multiset::<int>::empty());
    } else {
        let t = s.drop_last();
        lemma_count_upto_multiset(t, v);
        lemma_count_upto_agree(s, t, v, s.len() - 1);
        assert(t.push(s.last()) =~= s);
        assert(t.push(s.last()).to_multiset() =~= t.to_multiset().insert(s.last()));
    }
}

} // verus!
