use vstd::prelude::*;

verus! {

use crate::error::StatsError;

/// The sum of a sequence of samples, in unbounded integers.
pub open spec fn seq_sum(s: Seq<i64>) -> int
    decreases s.len(),
{
    if s.len() == 0 {
        0
    } else {
        seq_sum(s.drop_last()) + s.last()
    }
}

/// An arithmetic mean held exactly, as the fraction `total / count`.
#[derive(Clone, Copy, Debug, PartialEq, Eq, Structural)]
pub struct ExactMean {
    pub total: i128,
    pub count: usize,
}

/// The mean of `data` as the exact fraction of its sum over its length.
///
/// The sum is accumulated in `i128`, which holds the sum of any slice of
/// `i64` samples, so no overflow can occur.
pub fn exact_mean(data: &[i64]) -> (r: Result<ExactMean, StatsError>)
    ensures
        data@.len() == 0 <==> r == Err::<ExactMean, StatsError>(StatsError::EmptyInput),
        data@.len() > 0 ==> r == Ok::<ExactMean, StatsError>(
            ExactMean { total: seq_sum(data@) as i128, count: data@.len() as usize },
        ),
{
    let n = data.len();
    if n == 0 {
        return Err(StatsError::EmptyInput);
    }
    let mut total: i128 = 0;
    let mut i: usize = 0;
    while i < n
        invariant
            n == data@.len(),
            i <= n,
            total == seq_sum(data@.take(i as int)),
            -(i as int) * 0x8000_0000_0000_0000 <= total <= (i as int) * 0x7fff_ffff_ffff_ffff,
        decreases n - i,
    {
        assert(data@.take(i as int + 1).drop_last() =~= data@.take(i as int));
        total = total + data[i] as i128;
        i = i + 1;
    }
    assert(data@.take(n as int) =~= data@);
    Ok(ExactMean { total, count: n })
}

} // verus!
