//! Finite sums over sequences of integers, and the few facts about them that
//! the simulation's accounting (score, remaining fire, cutting time) rests on.

use vstd::prelude::*;

verus! {

/// The sum of all entries of `s`.
pub open spec fn sum(s: Seq<int>) -> int
    decreases s.len(),
{
    if s.len() == 0 {
        0
    } else {
        sum(s.drop_last()) + s.last()
    }
}

/// The sum of the first `n` entries of `s`.
pub open spec fn prefix_sum(s: Seq<int>, n: int) -> int {
    sum(s.take(n))
}

/// Adding one more entry to a prefix adds that entry to the sum.
pub proof fn lemma_prefix_sum_step(s: Seq<int>, n: int)
    requires
        0 <= n < s.len(),
    ensures
        prefix_sum(s, n + 1) == prefix_sum(s, n) + s[n],
        prefix_sum(s, 0) == 0,
{
    assert(s.take(n + 1).drop_last() =~= s.take(n));
}

/// The prefix that covers the whole sequence sums to the whole sum.
pub proof fn lemma_prefix_sum_full(s: Seq<int>)
    ensures
        prefix_sum(s, s.len() as int) == sum(s),
        prefix_sum(s, 0) == 0,
{
    assert(s.take(s.len() as int) =~= s);
}

/// A sum of entries that are all at least zero is at least zero.
pub proof fn lemma_sum_nonnegative(s: Seq<int>)
    requires
        forall|i: int| 0 <= i < s.len() ==> s[i] >= 0,
    ensures
        sum(s) >= 0,
    decreases s.len(),
{
    if s.len() > 0 {
        lemma_sum_nonnegative(s.drop_last());
    }
}

/// With entries that are all at least zero, a longer prefix never sums to less.
pub proof fn lemma_prefix_sum_monotonic(s: Seq<int>, m: int, n: int)
    requires
        0 <= m <= n <= s.len(),
        forall|i: int| 0 <= i < s.len() ==> s[i] >= 0,
    ensures
        0 <= prefix_sum(s, m) <= prefix_sum(s, n),
    decreases n - m,
{
    if m == n {
        lemma_sum_nonnegative(s.take(m));
    } else {
        lemma_prefix_sum_monotonic(s, m, n - 1);
        lemma_prefix_sum_step(s, n - 1);
    }
}

/// Entries equal to zero can be skipped: two prefixes that differ only by such
/// entries have the same sum.
pub proof fn lemma_prefix_sum_skip_zeros(s: Seq<int>, m: int, n: int)
    requires
        0 <= m <= n <= s.len(),
        forall|i: int| m <= i < n ==> s[i] == 0,
    ensures
        prefix_sum(s, m) == prefix_sum(s, n),
    decreases n - m,
{
    if m < n {
        lemma_prefix_sum_skip_zeros(s, m, n - 1);
        lemma_prefix_sum_step(s, n - 1);
    }
}

/// Entry by entry no larger means no larger in sum.
pub proof fn lemma_sum_pointwise_le(a: Seq<int>, b: Seq<int>)
    requires
        a.len() == b.len(),
        forall|i: int| 0 <= i < a.len() ==> a[i] <= b[i],
    ensures
        sum(a) <= sum(b),
    decreases a.len(),
{
    if a.len() > 0 {
        lemma_sum_pointwise_le(a.drop_last(), b.drop_last());
    }
}

/// Entry by entry no larger, and strictly smaller at `j`, means strictly
/// smaller in sum.
pub proof fn lemma_sum_pointwise_lt(a: Seq<int>, b: Seq<int>, j: int)
    requires
        a.len() == b.len(),
        forall|i: int| 0 <= i < a.len() ==> a[i] <= b[i],
        0 <= j < a.len(),
        a[j] < b[j],
    ensures
        sum(a) < sum(b),
    decreases a.len(),
{
    if j == a.len() - 1 {
        lemma_sum_pointwise_le(a.drop_last(), b.drop_last());
    } else {
        lemma_sum_pointwise_lt(a.drop_last(), b.drop_last(), j);
    }
}

/// Each entry of a sum of entries that are at least zero is at most the sum.
pub proof fn lemma_sum_bounds_entry(s: Seq<int>, j: int)
    requires
        forall|i: int| 0 <= i < s.len() ==> s[i] >= 0,
        0 <= j < s.len(),
    ensures
        s[j] <= sum(s),
    decreases s.len(),
{
    if j == s.len() - 1 {
        lemma_sum_nonnegative(s.drop_last());
    } else {
        lemma_sum_bounds_entry(s.drop_last(), j);
    }
}

/// The sum of a sequence in which one entry was replaced.
pub proof fn lemma_sum_update(s: Seq<int>, i: int, x: int)
    requires
        0 <= i < s.len(),
    ensures
        sum(s.update(i, x)) == sum(s) - s[i] + x,
    decreases s.len(),
{
    let t = s.update(i, x);
    if i == s.len() - 1 {
        assert(t.drop_last() =~= s.drop_last());
    } else {
        assert(t.drop_last() =~= s.drop_last().update(i, x));
        lemma_sum_update(s.drop_last(), i, x);
    }
}

/// The entries of `weights` at the places that `picks` lists, in that order.
pub open spec fn picked(weights: Seq<int>, picks: Seq<usize>) -> Seq<int> {
    Seq::new(picks.len(), |j: int| weights[picks[j] as int])
}

/// Entries picked at different places of a sequence of entries that are at
/// least zero sum to at most the sum of the whole sequence.
pub proof fn lemma_sum_picked_bounded(weights: Seq<int>, picks: Seq<usize>)
    requires
        forall|i: int| 0 <= i < weights.len() ==> weights[i] >= 0,
        forall|j: int| 0 <= j < picks.len() ==> picks[j] < weights.len(),
        picks.no_duplicates(),
    ensures
        0 <= sum(picked(weights, picks)) <= sum(weights),
    decreases picks.len(),
{
    if picks.len() == 0 {
        lemma_sum_nonnegative(weights);
    } else {
        let last = picks.last() as int;
        let rest = picks.drop_last();
        let masked = weights.update(last, 0);
        assert(picked(weights, picks).drop_last() =~= picked(masked, rest));
        lemma_sum_picked_bounded(masked, rest);
        lemma_sum_update(weights, last, 0);
    }
}

} // verus!
