use vstd::prelude::*;

verus! {

use crate::error::StatsError;

/// How many bins of width `bin_size`, laid end to end from `min`, it takes
/// until a bin's lower edge is no longer below `max`.
pub open spec fn num_bins(bin_size: int, min: int, max: int) -> nat
    decreases (if min < max { max - min } else { 0 }),
{
    if bin_size <= 0 || min >= max {
        0
    } else {
        1 + num_bins(bin_size, min + bin_size, max)
    }
}

/// The lower edge of bin `i` (equally, the upper edge of bin `i - 1`).
pub open spec fn edge(bin_size: int, min: int, i: int) -> int {
    min + i * bin_size
}

/// The upper edge of the last bin; it may lie beyond `max`.
pub open spec fn bins_end(bin_size: int, min: int, max: int) -> int {
    edge(bin_size, min, num_bins(bin_size, min, max) as int)
}

/// The half-open bins `[lower, upper)` that cover `[min, max)`, in order.
pub open spec fn thresholds(bin_size: int, min: int, max: int) -> Seq<(int, int)> {
    Seq::new(
        num_bins(bin_size, min, max),
        |i: int| (edge(bin_size, min, i), edge(bin_size, min, i + 1)),
    )
}

/// Whether a sample is counted in the bin `[lo, hi)`: samples above `max`
/// are never counted.
pub open spec fn counted_in(v: int, lo: int, hi: int, max: int) -> bool {
    lo <= v && v < hi && v <= max
}

/// How many samples of `data` are counted in the bin `[lo, hi)`.
pub open spec fn count_in(data: Seq<i64>, lo: int, hi: int, max: int) -> nat
    decreases data.len(),
{
    if data.len() == 0 {
        0
    } else {
        count_in(data.drop_last(), lo, hi, max) + if counted_in(data.last() as int, lo, hi, max) {
            1nat
        } else {
            0nat
        }
    }
}

/// The number of samples in each bin of `thresholds(bin_size, min, max)`.
pub open spec fn frequencies(data: Seq<i64>, bin_size: int, min: int, max: int) -> Seq<nat> {
    Seq::new(
        num_bins(bin_size, min, max),
        |i: int| count_in(data, edge(bin_size, min, i), edge(bin_size, min, i + 1), max),
    )
}

/// The bins of a result, as pairs of unbounded integers.
pub open spec fn thresholds_view(t: Seq<(i64, i64)>) -> Seq<(int, int)> {
    t.map_values(|p: (i64, i64)| (p.0 as int, p.1 as int))
}

/// The counts of a result, as natural numbers.
pub open spec fn counts_view(f: Seq<usize>) -> Seq<nat> {
    f.map_values(|c: usize| c as nat)
}

/// Whether `frequency_distribution` accepts the arguments.
pub open spec fn binnable(bin_size: int, min: int, max: int) -> bool {
    bin_size > 0 && min < max && bins_end(bin_size, min, max) <= i64::MAX
}

proof fn lemma_edge_step(bin_size: int, min: int, i: int)
    ensures
        edge(bin_size, min, i + 1) == edge(bin_size, min, i) + bin_size,
{
    assert((i + 1) * bin_size == i * bin_size + bin_size) by (nonlinear_arith);
}

proof fn lemma_edge_mono(bin_size: int, min: int, i: int, j: int)
    requires
        bin_size > 0,
        i <= j,
    ensures
        edge(bin_size, min, i) <= edge(bin_size, min, j),
        i < j ==> edge(bin_size, min, i) < edge(bin_size, min, j),
{
    assert(i * bin_size <= j * bin_size) by (nonlinear_arith)
        requires
            bin_size > 0,
            i <= j,
    ;
    assert(i < j ==> i * bin_size < j * bin_size) by (nonlinear_arith)
        requires
            bin_size > 0,
    ;
}

/// The sum of a sequence of counts.
pub open spec fn nat_sum(s: Seq<nat>) -> nat
    decreases s.len(),
{
    if s.len() == 0 {
        0
    } else {
        nat_sum(s.drop_last()) + s.last()
    }
}

proof fn lemma_num_bins_bounds(bin_size: int, min: int, max: int)
    requires
        bin_size > 0,
        min < max,
    ensures
        num_bins(bin_size, min, max) >= 1,
        edge(bin_size, min, num_bins(bin_size, min, max) - 1) < max,
        max <= bins_end(bin_size, min, max),
    decreases max - min,
{
    let n = num_bins(bin_size, min + bin_size, max) as int;
    assert(n * bin_size == bin_size + (n - 1) * bin_size) by (nonlinear_arith);
    assert((n + 1) * bin_size == bin_size + n * bin_size) by (nonlinear_arith);
    if min + bin_size < max {
        lemma_num_bins_bounds(bin_size, min + bin_size, max);
    } else {
        assert(0 * bin_size == 0) by (nonlinear_arith);
    }
}

/// The bins start at `min`, none is empty, each one's upper edge is the
/// next one's lower edge, and together they cover `[min, max)`: the last
/// lower edge is below `max` and the last upper edge is at or beyond it.
pub proof fn lemma_bins_contiguous(bin_size: int, min: int, max: int)
    requires
        bin_size > 0,
        min < max,
    ensures
        thresholds(bin_size, min, max).len() >= 1,
        thresholds(bin_size, min, max)[0].0 == min,
        forall|i: int|
            0 <= i < thresholds(bin_size, min, max).len() ==> #[trigger] thresholds(
                bin_size,
                min,
                max,
            )[i].0 < thresholds(bin_size, min, max)[i].1,
        forall|i: int|
            0 <= i < thresholds(bin_size, min, max).len() - 1 ==> #[trigger] thresholds(
                bin_size,
                min,
                max,
            )[i].1 == thresholds(bin_size, min, max)[i + 1].0,
        thresholds(bin_size, min, max).last().0 < max,
        max <= thresholds(bin_size, min, max).last().1,
{
    lemma_num_bins_bounds(bin_size, min, max);
    assert(0 * bin_size == 0) by (nonlinear_arith);
    assert forall|i: int| 0 <= i < thresholds(bin_size, min, max).len() implies #[trigger] thresholds(
        bin_size,
        min,
        max,
    )[i].0 < thresholds(bin_size, min, max)[i].1 by {
        lemma_edge_step(bin_size, min, i);
    }
}

proof fn lemma_count_split(data: Seq<i64>, a: int, m: int, c: int, max: int)
    requires
        a <= m <= c,
    ensures
        count_in(data, a, m, max) + count_in(data, m, c, max) == count_in(data, a, c, max),
    decreases data.len(),
{
    if data.len() > 0 {
        lemma_count_split(data.drop_last(), a, m, c, max);
    }
}

proof fn lemma_count_bound(data: Seq<i64>, lo: int, hi: int, max: int)
    ensures
        count_in(data, lo, hi, max) <= data.len(),
        count_in(data, lo, hi, max) == data.len() <==> forall|i: int|
            0 <= i < data.len() ==> counted_in(#[trigger] data[i] as int, lo, hi, max),
    decreases data.len(),
{
    if data.len() > 0 {
        let init = data.drop_last();
        lemma_count_bound(init, lo, hi, max);
        if count_in(data, lo, hi, max) == data.len() {
            assert forall|i: int| 0 <= i < data.len() implies counted_in(
                #[trigger] data[i] as int,
                lo,
                hi,
                max,
            ) by {
                if i < data.len() - 1 {
                    assert(init[i] == data[i]);
                }
            }
        }
        if forall|i: int| 0 <= i < data.len() ==> counted_in(#[trigger] data[i] as int, lo, hi, max) {
            assert forall|i: int| 0 <= i < init.len() implies counted_in(
                #[trigger] init[i] as int,
                lo,
                hi,
                max,
            ) by {
                assert(init[i] == data[i]);
            }
            assert(counted_in(data[data.len() - 1] as int, lo, hi, max));
        }
    }
}

proof fn lemma_frequency_prefix(data: Seq<i64>, bin_size: int, min: int, max: int, k: int)
    requires
        bin_size > 0,
        0 <= k <= num_bins(bin_size, min, max),
    ensures
        nat_sum(frequencies(data, bin_size, min, max).take(k)) == count_in(
            data,
            min,
            edge(bin_size, min, k),
            max,
        ),
    decreases k,
{
    let f = frequencies(data, bin_size, min, max);
    if k == 0 {
        assert(0 * bin_size == 0) by (nonlinear_arith);
        lemma_count_split(data, min, min, min, max);
    } else {
        lemma_frequency_prefix(data, bin_size, min, max, k - 1);
        assert(f.take(k).drop_last() =~= f.take(k - 1));
        lemma_edge_mono(bin_size, min, 0, k - 1);
        lemma_edge_mono(bin_size, min, k - 1, k);
        assert(0 * bin_size == 0) by (nonlinear_arith);
        lemma_count_split(data, min, edge(bin_size, min, k - 1), edge(bin_size, min, k), max);
    }
}

/// No sample is counted twice: the counts add up to at most the number of
/// samples, and to exactly that number if and only if every sample lies in
/// `[min, max]` and below the last upper edge.
pub proof fn lemma_frequency_total(data: Seq<i64>, bin_size: int, min: int, max: int)
    requires
        bin_size > 0,
        min < max,
    ensures
        nat_sum(frequencies(data, bin_size, min, max)) <= data.len(),
        nat_sum(frequencies(data, bin_size, min, max)) == data.len() <==> forall|i: int|
            0 <= i < data.len() ==> counted_in(
                #[trigger] data[i] as int,
                min,
                bins_end(bin_size, min, max),
                max,
            ),
{
    let f = frequencies(data, bin_size, min, max);
    lemma_frequency_prefix(data, bin_size, min, max, f.len() as int);
    assert(f.take(f.len() as int) =~= f);
    lemma_count_bound(data, min, bins_end(bin_size, min, max), max);
}

/// Bins samples into fixed-width half-open bins `[lower, upper)` that start
/// at `min` and step by `bin_size` while the lower edge is below `max`; the
/// last bin's upper edge may lie beyond `max`. A sample goes to the bin
/// that contains it; one below `min` or above `max` goes nowhere, and so
/// does one equal to `max` when `max` is the last upper edge.
///
/// Fails with `InvalidRange` when `bin_size <= 0`, `max <= min`, or the last
/// upper edge does not fit in `i64`.
pub fn frequency_distribution(data: &[i64], bin_size: i64, min: i64, max: i64) -> (r: Result<
    (Vec<(i64, i64)>, Vec<usize>),
    StatsError,
>)
    ensures
        r is Ok <==> binnable(bin_size as int, min as int, max as int),
        r is Err ==> r->Err_0 == StatsError::InvalidRange,
        r matches Ok((t, f)) ==> t@.len() == num_bins(bin_size as int, min as int, max as int)
            && f@.len() == num_bins(bin_size as int, min as int, max as int),
        r matches Ok((t, f)) ==> thresholds_view(t@) == thresholds(
            bin_size as int,
            min as int,
            max as int,
        ) && counts_view(f@) == frequencies(data@, bin_size as int, min as int, max as int),
{
    if bin_size <= 0 || max <= min {
        return Err(StatsError::InvalidRange);
    }
    let ghost b = bin_size as int;
    let ghost lo = min as int;
    let ghost hi = max as int;
    let ghost nb = num_bins(b, lo, hi);
    let mut bins: Vec<(i64, i64)> = Vec::new();
    let mut counts: Vec<usize> = Vec::new();
    let mut lower: i64 = min;
    assert(0 * b == 0) by (nonlinear_arith);
    while lower < max
        invariant
            b == bin_size as int,
            lo == min as int,
            hi == max as int,
            nb == num_bins(b, lo, hi),
            b > 0,
            lo < hi,
            lower as int == edge(b, lo, bins@.len() as int),
            nb == bins@.len() + num_bins(b, lower as int, hi),
            forall|i: int|
                0 <= i < bins@.len() ==> bins@[i].0 as int == edge(b, lo, i) && bins@[i].1 as int
                    == edge(b, lo, i + 1),
            counts@.len() == bins@.len(),
            forall|i: int| 0 <= i < counts@.len() ==> counts@[i] == 0,
        decreases (if lower < max { max - lower } else { 0 }),
    {
        proof {
            lemma_edge_step(b, lo, bins@.len() as int);
        }
        let upper = match lower.checked_add(bin_size) {
            Some(u) => u,
            None => {
                proof {
                    lemma_edge_mono(b, lo, bins@.len() as int + 1, nb as int);
                }
                return Err(StatsError::InvalidRange);
            },
        };
        bins.push((lower, upper));
        counts.push(0);
        lower = upper;
    }
    assert(lower as int == bins_end(b, lo, hi));
    let n_bin = bins.len();
    let mut k: usize = 0;
    while k < data.len()
        invariant
            b == bin_size as int,
            lo == min as int,
            hi == max as int,
            b > 0,
            n_bin == bins@.len(),
            n_bin == nb,
            nb == num_bins(b, lo, hi),
            k <= data@.len(),
            forall|i: int|
                0 <= i < bins@.len() ==> bins@[i].0 as int == edge(b, lo, i) && bins@[i].1 as int
                    == edge(b, lo, i + 1),
            counts@.len() == n_bin,
            forall|i: int|
                0 <= i < n_bin ==> counts@[i] == count_in(
                    data@.take(k as int),
                    edge(b, lo, i),
                    edge(b, lo, i + 1),
                    hi,
                ),
            forall|i: int| 0 <= i < n_bin ==> counts@[i] <= k,
        decreases data.len() - k,
    {
        let v = data[k];
        let ghost prev = data@.take(k as int);
        let ghost next = data@.take(k as int + 1);
        assert(next.drop_last() =~= prev);
        assert(next.last() == v);
        let mut j: usize = 0;
        if min <= v && v <= max {
            while j < n_bin && bins[j].1 <= v
                invariant
                    n_bin == bins@.len(),
                    j <= n_bin,
                    lo <= v,
                    forall|i: int|
                        0 <= i < bins@.len() ==> bins@[i].0 as int == edge(b, lo, i)
                            && bins@[i].1 as int == edge(b, lo, i + 1),
                    lo == min as int,
                    edge(b, lo, j as int) <= v,
                decreases n_bin - j,
            {
                j = j + 1;
            }
            if j < n_bin {
                counts.set(j, counts[j] + 1);
            }
        }
        proof {
            assert forall|i: int| 0 <= i < n_bin implies counts@[i] == count_in(
                next,
                edge(b, lo, i),
                edge(b, lo, i + 1),
                hi,
            ) by {
                let inside = counted_in(v as int, edge(b, lo, i), edge(b, lo, i + 1), hi);
                if lo <= v <= hi && j < n_bin {
                    if i < j {
                        lemma_edge_mono(b, lo, i + 1, j as int);
                    } else if i > j {
                        lemma_edge_mono(b, lo, j as int + 1, i);
                    }
                    assert(inside <==> i == j);
                } else if lo <= v <= hi {
                    lemma_edge_mono(b, lo, i + 1, n_bin as int);
                    assert(!inside);
                } else {
                    lemma_edge_mono(b, lo, 0, i);
                    assert(!inside);
                }
            }
        }
        k = k + 1;
    }
    assert(data@.take(data@.len() as int) =~= data@);
    assert(thresholds_view(bins@) =~= thresholds(b, lo, hi));
    assert(counts_view(counts@) =~= frequencies(data@, b, lo, hi));
    Ok((bins, counts))
}

} // verus!
