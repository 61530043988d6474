use vstd::prelude::*;

verus! {

/// How many times `v` occurs in `s`.
pub open spec fn occurrences(s: Seq<usize>, v: usize) -> nat
    decreases s.len(),
{
    if s.len() == 0 {
        0
    } else {
        occurrences(s.drop_last(), v) + (if s.last() == v { 1nat } else { 0nat })
    }
}

proof fn lemma_occurrences_bounded(s: Seq<usize>, v: usize)
    ensures
        occurrences(s, v) <= s.len(),
    decreases s.len(),
{
    if s.len() > 0 {
        lemma_occurrences_bounded(s.drop_last(), v);
    }
}

/// `occurrences(s, v)` is the number of elements of `s` equal to `v`: the
/// length of `s` filtered down to `v`.
pub proof fn lemma_occurrences_is_filter_length(s: Seq<usize>, v: usize)
    ensures
        occurrences(s, v) == s.filter(|x: usize| x == v).len(),
    decreases s.len(),
{
    let p = |x: usize| x == v;
    if s.len() == 0 {
        reveal(Seq::filter);
        assert(s.filter(p).len() == 0);
    } else {
        lemma_occurrences_is_filter_length(s.drop_last(), v);
        assert(s.drop_last().push(s.last()) =~= s);
        s.drop_last().lemma_filter_len_push(p, s.last());
    }
}

/// One more element adds one to its own count and leaves every other
/// count unchanged.
pub proof fn lemma_occurrences_push(s: Seq<usize>, x: usize, v: usize)
    ensures
        occurrences(s.push(x), v) == occurrences(s, v) + (if x == v { 1nat } else { 0nat }),
{
    lemma_occurrences_is_filter_length(s, v);
    lemma_occurrences_is_filter_length(s.push(x), v);
    s.lemma_filter_len_push(|y: usize| y == v, x);
}

/// The sum of the first `bins` counts of `s`.
pub open spec fn counts_total(s: Seq<usize>, bins: nat) -> nat
    decreases bins,
{
    if bins == 0 {
        0
    } else {
        counts_total(s, (bins - 1) as nat) + occurrences(s, (bins - 1) as usize)
    }
}

/// The sum of a sequence of counters.
pub open spec fn total(h: Seq<usize>) -> nat
    decreases h.len(),
{
    if h.len() == 0 {
        0
    } else {
        total(h.drop_last()) + h.last() as nat
    }
}

proof fn lemma_counts_total_push(s: Seq<usize>, x: usize, bins: nat)
    requires
        bins <= usize::MAX + 1,
    ensures
        counts_total(s.push(x), bins) == counts_total(s, bins) + (if x < bins { 1nat } else { 0nat }),
    decreases bins,
{
    if bins > 0 {
        lemma_counts_total_push(s, x, (bins - 1) as nat);
        lemma_occurrences_push(s, x, (bins - 1) as usize);
    }
}

proof fn lemma_counts_total_is_length(s: Seq<usize>, bins: nat)
    requires
        bins <= usize::MAX + 1,
        forall|i: int| 0 <= i < s.len() ==> #[trigger] s[i] < bins,
    ensures
        counts_total(s, bins) == s.len(),
    decreases s.len(),
{
    if s.len() == 0 {
        assert forall|b: nat| b <= bins implies #[trigger] counts_total(s, b) == 0 by {
            lemma_counts_total_empty(s, b);
        }
    } else {
        let init = s.drop_last();
        lemma_counts_total_is_length(init, bins);
        assert(init.push(s.last()) =~= s);
        lemma_counts_total_push(init, s.last(), bins);
    }
}

proof fn lemma_counts_total_empty(s: Seq<usize>, b: nat)
    requires
        s.len() == 0,
    ensures
        counts_total(s, b) == 0,
    decreases b,
{
    if b > 0 {
        lemma_counts_total_empty(s, (b - 1) as nat);
    }
}

proof fn lemma_total_of_counts(s: Seq<usize>, h: Seq<usize>, k: nat)
    requires
        k <= h.len(),
        h.len() <= usize::MAX + 1,
        forall|b: int| 0 <= b < h.len() ==> #[trigger] h[b] == occurrences(s, b as usize),
    ensures
        total(h.take(k as int)) == counts_total(s, k),
    decreases k,
{
    if k > 0 {
        lemma_total_of_counts(s, h, (k - 1) as nat);
        assert(h.take(k as int).drop_last() =~= h.take(k - 1));
    } else {
        assert(h.take(0) =~= Seq::<usize>::empty());
    }
}

/// Every element is counted exactly once: a histogram whose counters are the
/// counts of each bin sums to the number of elements, when every element
/// falls in one of the bins.
pub proof fn lemma_histogram_total(bin_of: Seq<usize>, histogram: Seq<usize>)
    requires
        forall|i: int| 0 <= i < bin_of.len() ==> #[trigger] bin_of[i] < histogram.len(),
        forall|b: int| 0 <= b < histogram.len() ==> #[trigger] histogram[b] == occurrences(bin_of, b as usize),
        histogram.len() <= usize::MAX,
    ensures
        total(histogram) == bin_of.len(),
{
    lemma_total_of_counts(bin_of, histogram, histogram.len());
    assert(histogram.take(histogram.len() as int) =~= histogram);
    lemma_counts_total_is_length(bin_of, histogram.len());
}

/// Angular histogram: given the bin of each element, how many elements fall
/// in each of the `bins` bins.
pub fn bin_histogram(bin_of: &[usize], bins: usize) -> (histogram: Vec<usize>)
    requires
        forall|i: int| 0 <= i < bin_of.len() ==> #[trigger] bin_of[i] < bins,
    ensures
        histogram.len() == bins,
        forall|b: int| 0 <= b < bins ==> #[trigger] histogram[b] == occurrences(bin_of@, b as usize),
        total(histogram@) == bin_of.len(),
{
    let mut histogram: Vec<usize> = Vec::new();
    let mut b: usize = 0;
    while b < bins
        invariant
            b <= bins,
            histogram.len() == b,
            forall|k: int| 0 <= k < b ==> #[trigger] histogram[k] == 0,
        decreases bins - b,
    {
        histogram.push(0);
        b = b + 1;
    }
    let mut i: usize = 0;
    proof {
        assert(bin_of@.take(0) =~= Seq::<usize>::empty());
    }
    while i < bin_of.len()
        invariant
            i <= bin_of.len(),
            histogram.len() == bins,
            forall|j: int| 0 <= j < bin_of.len() ==> #[trigger] bin_of[j] < bins,
            forall|k: int| 0 <= k < bins ==> #[trigger] histogram[k] == occurrences(bin_of@.take(i as int), k as usize),
        decreases bin_of.len() - i,
    {
        let bin = bin_of[i];
        proof {
            assert(bin_of@.take(i + 1).drop_last() =~= bin_of@.take(i as int));
            lemma_occurrences_bounded(bin_of@.take(i as int), bin);
        }
        let old_count = histogram[bin];
        histogram.set(bin, old_count + 1);
        i = i + 1;
    }
    proof {
        assert(bin_of@.take(bin_of.len() as int) =~= bin_of@);
        lemma_histogram_total(bin_of@, histogram@);
    }
    histogram
}

} // verus!
