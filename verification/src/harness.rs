//! The measurement harness: what a series of timed samples is summarised to,
//! and the lines of the results table.

use vstd::prelude::*;
use vstd::relations::{sorted_by, total_ordering};
use crate::layout::{left_aligned, pad_left, pad_right, right_aligned};

verus! {

broadcast use vstd::seq_lib::group_to_multiset_ensures;

/// The order on samples.
pub open spec fn sample_leq(a: u64, b: u64) -> bool {
    a <= b
}

/// The samples in ascending order.
pub open spec fn sorted_samples(s: Seq<u64>) -> Seq<u64> {
    s.sort_by(|a: u64, b: u64| sample_leq(a, b))
}

proof fn lemma_sample_leq_total()
    ensures
        total_ordering(|a: u64, b: u64| sample_leq(a, b)),
{
}

/// Sorts the samples in ascending order (insertion sort).
pub fn sort_samples(samples: &Vec<u64>) -> (r: Vec<u64>)
    ensures
        r@ == sorted_samples(samples@),
{
    let ghost leq = |a: u64, b: u64| sample_leq(a, b);
    let mut r: Vec<u64> = Vec::new();
    let n = samples.len();
    let mut k: usize = 0;
    while k < n
        invariant
            k <= n == samples@.len(),
            sorted_by(r@, leq),
            r@.to_multiset() == samples@.take(k as int).to_multiset(),
            leq == (|a: u64, b: u64| sample_leq(a, b)),
        decreases n - k,
    {
        let x = samples[k];
        let mut p: usize = 0;
        while p < r.len() && r[p] <= x
            invariant
                p <= r@.len(),
                forall|i: int| 0 <= i < p ==> r@[i] <= x,
                sorted_by(r@, leq),
                leq == (|a: u64, b: u64| sample_leq(a, b)),
            decreases r@.len() - p,
        {
            p = p + 1;
        }
        let ghost old_r = r@;
        r.insert(p, x);
        assert(p < old_r.len() ==> old_r[p as int] > x);
        assert(forall|i: int| 0 <= i < p ==> r@[i] == old_r[i]);
        assert(r@[p as int] == x);
        assert(forall|i: int| p < i < r@.len() ==> r@[i] == old_r[i - 1]);
        assert(sorted_by(r@, leq)) by {
            assert forall|i: int, j: int| 0 <= i < j < r@.len() implies #[trigger] leq(r@[i], r@[j]) by {
                if j < p {
                    assert(leq(old_r[i], old_r[j]));
                } else if j == p {
                } else if i < p {
                    assert(old_r[i] <= x);
                    assert(leq(old_r[p as int], old_r[j - 1]) || p == j - 1);
                    if p < j - 1 {
                        assert(old_r[p as int] > x);
                    } else {
                        assert(old_r[j - 1] > x);
                    }
                } else if i == p {
                    assert(old_r[p as int] > x);
                    if p < j - 1 {
                        assert(leq(old_r[p as int], old_r[j - 1]));
                    }
                } else {
                    assert(leq(old_r[i - 1], old_r[j - 1]));
                }
            }
        }
        assert(samples@.take(k + 1) =~= samples@.take(k as int).push(x));
        k = k + 1;
    }
    assert(samples@.take(n as int) =~= samples@);
    proof {
        lemma_sample_leq_total();
        samples@.lemma_sort_by_ensures(leq);
        vstd::seq_lib::lemma_sorted_unique(r@, sorted_samples(samples@), leq);
    }
    r
}


/// What a series of samples is reported as: its median (the middle element
/// in ascending order, the upper one of the two middles for an even count)
/// and its minimum.
pub struct SampleSummary {
    pub median: u64,
    pub min: u64,
}

/// Summarises a non-empty series of samples to its median and minimum.
pub fn summarize(samples: &Vec<u64>) -> (r: SampleSummary)
    requires
        samples@.len() > 0,
    ensures
        r.median == sorted_samples(samples@)[(samples@.len() / 2) as int],
        r.min == sorted_samples(samples@)[0],
{
    let sorted = sort_samples(samples);
    proof {
        lemma_sample_leq_total();
        samples@.lemma_sort_by_ensures(|a: u64, b: u64| sample_leq(a, b));
        assert(sorted@.len() == samples@.len()) by {
            vstd::seq_lib::to_multiset_len(sorted@);
            vstd::seq_lib::to_multiset_len(samples@);
        }
    }
    SampleSummary { median: sorted[sorted.len() / 2], min: sorted[0] }
}

/// The minimum is a sample and no sample is below it; the median is a
/// sample and not below the minimum.
pub proof fn lemma_summary_bounds(s: Seq<u64>)
    requires
        s.len() > 0,
    ensures
        sorted_samples(s).len() == s.len(),
        s.contains(sorted_samples(s)[0]),
        s.contains(sorted_samples(s)[(s.len() / 2) as int]),
        forall|i: int| 0 <= i < s.len() ==> sorted_samples(s)[0] <= #[trigger] s[i],
        sorted_samples(s)[0] <= sorted_samples(s)[(s.len() / 2) as int],
{
    let mid = (s.len() / 2) as int;
    let leq = |a: u64, b: u64| sample_leq(a, b);
    let t = sorted_samples(s);
    lemma_sample_leq_total();
    s.lemma_sort_by_ensures(leq);
    vstd::seq_lib::to_multiset_len(t);
    vstd::seq_lib::to_multiset_len(s);
    assert(t.contains(t[0]));
    assert(t.contains(t[mid]));
    vstd::seq_lib::to_multiset_contains(t, t[0]);
    vstd::seq_lib::to_multiset_contains(s, t[0]);
    vstd::seq_lib::to_multiset_contains(t, t[mid]);
    vstd::seq_lib::to_multiset_contains(s, t[mid]);
    assert forall|i: int| 0 <= i < s.len() implies t[0] <= #[trigger] s[i] by {
        vstd::seq_lib::to_multiset_contains(s, s[i]);
        vstd::seq_lib::to_multiset_contains(t, s[i]);
        let j = choose|j: int| 0 <= j < t.len() && t[j] == s[i];
        if j > 0 {
            assert(leq(t[0], t[j]));
        }
    }
    if mid > 0 {
        assert(leq(t[0], t[mid]));
    }
}

/// One line of the results table: the name in a column of 46 characters,
/// the median and the minimum right-aligned in columns of 13, then the note.
pub open spec fn table_line(name: Seq<char>, median: Seq<char>, min: Seq<char>, note: Seq<char>) -> Seq<char> {
    left_aligned(name, 46) + seq![' '] + right_aligned(median, 13) + seq![' '] + right_aligned(min, 13)
        + seq![' ', ' ', ' '] + note
}

/// Lays out one line of the results table.
pub fn table_row(name: &str, median: &str, min: &str, note: &str) -> (r: String)
    ensures
        r@ == table_line(name@, median@, min@, note@),
{
    proof {
        reveal_strlit(" ");
        reveal_strlit("   ");
    }
    let mut r = pad_right(name, 46);
    r.append(" ");
    let m = pad_left(median, 13);
    r.append(m.as_str());
    r.append(" ");
    let n = pad_left(min, 13);
    r.append(n.as_str());
    r.append("   ");
    r.append(note);
    r
}

/// The heading line of the results table.
pub fn table_header() -> (r: String)
    ensures
        r@ == table_line("benchmark"@, "median ns/op"@, "min ns/op"@, "note"@),
{
    table_row("benchmark", "median ns/op", "min ns/op", "note")
}

/// The summary does not depend on the order in which the samples came:
/// two series holding the same samples sort to the same sequence.
pub proof fn lemma_sorted_samples_order_independent(s1: Seq<u64>, s2: Seq<u64>)
    requires
        s1.to_multiset() == s2.to_multiset(),
    ensures
        sorted_samples(s1) == sorted_samples(s2),
{
    let leq = |a: u64, b: u64| sample_leq(a, b);
    lemma_sample_leq_total();
    s1.lemma_sort_by_ensures(leq);
    s2.lemma_sort_by_ensures(leq);
    vstd::seq_lib::lemma_sorted_unique(sorted_samples(s1), sorted_samples(s2), leq);
}

/// The number of samples of `s` that are at most `x`.
pub open spec fn count_at_most(s: Seq<u64>, x: u64) -> nat
    decreases s.len(),
{
    if s.len() == 0 {
        0
    } else {
        count_at_most(s.drop_last(), x) + if s.last() <= x { 1nat } else { 0nat }
    }
}

proof fn lemma_count_at_most_concat(a: Seq<u64>, b: Seq<u64>, x: u64)
    ensures
        count_at_most(a + b, x) == count_at_most(a, x) + count_at_most(b, x),
    decreases b.len(),
{
    if b.len() == 0 {
        assert(a + b =~= a);
    } else {
        lemma_count_at_most_concat(a, b.drop_last(), x);
        assert((a + b).drop_last() =~= a + b.drop_last());
    }
}

proof fn lemma_count_at_most_bounds(s: Seq<u64>, x: u64)
    ensures
        count_at_most(s, x) <= s.len(),
        (forall|i: int| 0 <= i < s.len() ==> #[trigger] s[i] <= x) ==> count_at_most(s, x) == s.len(),
        (forall|i: int| 0 <= i < s.len() ==> #[trigger] s[i] > x) ==> count_at_most(s, x) == 0,
    decreases s.len(),
{
    if s.len() > 0 {
        lemma_count_at_most_bounds(s.drop_last(), x);
        assert(s.last() == s[s.len() - 1]);
    }
}

proof fn lemma_count_at_most_pointwise(s1: Seq<u64>, s2: Seq<u64>, x: u64)
    requires
        s1.len() == s2.len(),
        forall|i: int| 0 <= i < s1.len() ==> #[trigger] s1[i] <= s2[i],
    ensures
        count_at_most(s1, x) >= count_at_most(s2, x),
    decreases s1.len(),
{
    if s1.len() > 0 {
        let (d1, d2) = (s1.drop_last(), s2.drop_last());
        assert forall|i: int| 0 <= i < d1.len() implies #[trigger] d1[i] <= d2[i] by {
            assert(d1[i] == s1[i] && d2[i] == s2[i]);
        }
        lemma_count_at_most_pointwise(d1, d2, x);
        assert(s1.last() <= s2.last());
    }
}

proof fn lemma_count_at_most_remove(s: Seq<u64>, j: int, x: u64)
    requires
        0 <= j < s.len(),
    ensures
        count_at_most(s, x) == count_at_most(s.remove(j), x) + if s[j] <= x { 1nat } else { 0nat },
{
    let a = s.subrange(0, j);
    let b = s.subrange(j + 1, s.len() as int);
    assert(s =~= a + (seq![s[j]] + b));
    assert(s.remove(j) =~= a + b);
    lemma_count_at_most_concat(a, seq![s[j]] + b, x);
    lemma_count_at_most_concat(seq![s[j]], b, x);
    lemma_count_at_most_concat(a, b, x);
    assert(seq![s[j]].drop_last() =~= Seq::<u64>::empty());
    assert(count_at_most(Seq::<u64>::empty(), x) == 0);
    assert(count_at_most(seq![s[j]], x) == if s[j] <= x { 1nat } else { 0nat });
}

proof fn lemma_count_at_most_permutation(s: Seq<u64>, t: Seq<u64>, x: u64)
    requires
        s.to_multiset() == t.to_multiset(),
    ensures
        count_at_most(s, x) == count_at_most(t, x),
    decreases s.len(),
{
    vstd::seq_lib::to_multiset_len(s);
    vstd::seq_lib::to_multiset_len(t);
    if s.len() > 0 {
        let a = s.last();
        let d = s.drop_last();
        assert(s =~= d.push(a));
        assert(s.to_multiset() == d.to_multiset().insert(a));
        assert(t.to_multiset().count(a) > 0);
        assert(t.contains(a));
        let j = choose|j: int| 0 <= j < t.len() && t[j] == a;
        assert(t.remove(j).to_multiset() == t.to_multiset().remove(a));
        assert(d.to_multiset() =~= t.remove(j).to_multiset()) by {
            broadcast use vstd::multiset::group_multiset_axioms;
        }
        lemma_count_at_most_permutation(d, t.remove(j), x);
        lemma_count_at_most_remove(t, j, x);
    }
}

/// In ascending order, when the `k`-th sample is at most `x`, more than `k`
/// samples are at most `x`.
proof fn lemma_sorted_rank_at_most(t: Seq<u64>, k: int, x: u64)
    requires
        sorted_by(t, |a: u64, b: u64| sample_leq(a, b)),
        0 <= k < t.len(),
        t[k] <= x,
    ensures
        count_at_most(t, x) >= k + 1,
{
    let leq = |a: u64, b: u64| sample_leq(a, b);
    let lo = t.take(k + 1);
    let hi = t.skip(k + 1);
    assert(t =~= lo + hi);
    lemma_count_at_most_concat(lo, hi, x);
    assert forall|i: int| 0 <= i < lo.len() implies #[trigger] lo[i] <= x by {
        if i < k {
            assert(leq(t[i], t[k]));
        }
    }
    lemma_count_at_most_bounds(lo, x);
}

/// In ascending order, when the `k`-th sample is above `x`, at most `k`
/// samples are at most `x`.
proof fn lemma_sorted_rank_above(t: Seq<u64>, k: int, x: u64)
    requires
        sorted_by(t, |a: u64, b: u64| sample_leq(a, b)),
        0 <= k < t.len(),
        t[k] > x,
    ensures
        count_at_most(t, x) <= k,
{
    let leq = |a: u64, b: u64| sample_leq(a, b);
    let lo = t.take(k);
    let hi = t.skip(k);
    assert(t =~= lo + hi);
    lemma_count_at_most_concat(lo, hi, x);
    assert forall|i: int| 0 <= i < hi.len() implies #[trigger] hi[i] > x by {
        if i > 0 {
            assert(leq(t[k], t[k + i]));
        }
    }
    lemma_count_at_most_bounds(lo, x);
    lemma_count_at_most_bounds(hi, x);
}

/// Order statistics grow with the samples: when every sample of one series
/// is at most the matching sample of another of the same length, each
/// element of the first in ascending order is at most that of the second;
/// in particular the median and the minimum.
pub proof fn lemma_sorted_samples_monotone(s1: Seq<u64>, s2: Seq<u64>, k: int)
    requires
        s1.len() == s2.len(),
        forall|i: int| 0 <= i < s1.len() ==> #[trigger] s1[i] <= s2[i],
        0 <= k < s1.len(),
    ensures
        sorted_samples(s1)[k] <= sorted_samples(s2)[k],
{
    let leq = |a: u64, b: u64| sample_leq(a, b);
    let t1 = sorted_samples(s1);
    let t2 = sorted_samples(s2);
    lemma_sample_leq_total();
    s1.lemma_sort_by_ensures(leq);
    s2.lemma_sort_by_ensures(leq);
    vstd::seq_lib::to_multiset_len(s1);
    vstd::seq_lib::to_multiset_len(s2);
    vstd::seq_lib::to_multiset_len(t1);
    vstd::seq_lib::to_multiset_len(t2);
    let y = t2[k];
    lemma_sorted_rank_at_most(t2, k, y);
    lemma_count_at_most_permutation(s2, t2, y);
    lemma_count_at_most_pointwise(s1, s2, y);
    lemma_count_at_most_permutation(s1, t1, y);
    if t1[k] > y {
        lemma_sorted_rank_above(t1, k, y);
    }
}

/// The median and the minimum of a series grow when every sample grows.
pub proof fn lemma_summary_monotone(s1: Seq<u64>, s2: Seq<u64>)
    requires
        s1.len() == s2.len(),
        s1.len() > 0,
        forall|i: int| 0 <= i < s1.len() ==> #[trigger] s1[i] <= s2[i],
    ensures
        sorted_samples(s1)[0] <= sorted_samples(s2)[0],
        sorted_samples(s1)[(s1.len() / 2) as int] <= sorted_samples(s2)[(s2.len() / 2) as int],
{
    lemma_sorted_samples_monotone(s1, s2, 0);
    lemma_sorted_samples_monotone(s1, s2, (s1.len() / 2) as int);
}

} // verus!
