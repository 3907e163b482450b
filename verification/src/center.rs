//! How groups are centered, and the order statistics that the median and
//! the trimmed mean of a group are formed from.
use vstd::prelude::*;
use crate::error::FlignerError;
use crate::sort::{is_order_statistic, sorted_by_total_order};

verus! {

/// How each group is centered before the absolute-deviation transform.
#[derive(Debug, Clone, Copy, PartialEq, Eq, Structural)]
pub enum Center {
    Median,
    Mean,
    Trimmed,
}

/// The centering choice as it is named on the command line.
#[derive(Debug, Clone, Copy, PartialEq, Eq, Structural)]
pub enum CenterArg {
    Median,
    Mean,
    Trimmed,
}

/// The centering that a command-line choice names: the variant of the same name.
pub open spec fn center_of_arg(c: CenterArg) -> Center {
    match c {
        CenterArg::Median => Center::Median,
        CenterArg::Mean => Center::Mean,
        CenterArg::Trimmed => Center::Trimmed,
    }
}

impl From<CenterArg> for Center {
    fn from(c: CenterArg) -> (r: Center) {
        match c {
            CenterArg::Median => Center::Median,
            CenterArg::Mean => Center::Mean,
            CenterArg::Trimmed => Center::Trimmed,
        }
    }
}

impl vstd::std_specs::convert::FromSpecImpl<CenterArg> for Center {
    open spec fn obeys_from_spec() -> bool {
        true
    }

    open spec fn from_spec(c: CenterArg) -> Center {
        center_of_arg(c)
    }
}

/// Distinct command-line choices name distinct centerings, and every centering
/// is named by one of them.
pub proof fn lemma_center_of_arg_bijective(a: CenterArg, b: CenterArg, c: Center)
    ensures
        center_of_arg(a) == center_of_arg(b) ==> a == b,
        exists|x: CenterArg| center_of_arg(x) == c,
{
    match c {
        Center::Median => assert(center_of_arg(CenterArg::Median) == c),
        Center::Mean => assert(center_of_arg(CenterArg::Mean) == c),
        Center::Trimmed => assert(center_of_arg(CenterArg::Trimmed) == c),
    }
}

} // verus!

verus! {

/// The order statistics a median reads: the middle one for an odd count;
/// for an even count the upper middle one and the lower half of the values.
pub enum MedianParts {
    Middle(u64),
    Halves { lower: Vec<u64>, upper: u64 },
}

/// The order statistics from which the median of `values` (IEEE-754 bit
/// patterns) is formed, as `select_nth_unstable_by(n / 2, f64::total_cmp)`
/// leaves them: the `n / 2`-th smallest value, and for an even count also
/// the `n / 2` smallest values, in ascending order.
pub fn median_parts(values: &[u64]) -> (m: MedianParts)
    requires
        values.len() >= 1,
    ensures
        values.len() % 2 == 1 ==> (m matches MedianParts::Middle(x) && is_order_statistic(
            values@,
            (values.len() / 2) as int,
            x,
        )),
        values.len() % 2 == 0 ==> (m matches MedianParts::Halves { lower, upper } && {
            &&& is_order_statistic(values@, (values.len() / 2) as int, upper)
            &&& lower.len() == values.len() / 2
            &&& forall|k: int|
                0 <= k < lower.len() ==> is_order_statistic(values@, k, #[trigger] lower[k])
        }),
{
    let n = values.len();
    let mid = n / 2;
    let sorted = sorted_by_total_order(values);
    let upper = sorted[mid];
    if n % 2 == 1 {
        MedianParts::Middle(upper)
    } else {
        let mut lower: Vec<u64> = Vec::new();
        let mut k: usize = 0;
        while k < mid
            invariant
                mid <= sorted.len(),
                sorted.len() == values.len(),
                forall|j: int|
                    0 <= j < sorted.len() ==> is_order_statistic(values@, j, #[trigger] sorted[j]),
                k <= mid,
                lower.len() == k,
                forall|j: int| 0 <= j < k ==> lower[j] == sorted[j],
            decreases mid - k,
        {
            lower.push(sorted[k]);
            k = k + 1;
        }
        proof {
            assert forall|j: int| 0 <= j < lower.len() implies is_order_statistic(
                values@,
                j,
                #[trigger] lower[j],
            ) by {
                assert(lower[j] == sorted[j]);
            }
        }
        MedianParts::Halves { lower, upper }
    }
}

/// The values that a trimmed mean keeps, as SciPy's `trim_mean` selects
/// them: with `lowercut` values cut from each end of the sorted values, the
/// order statistics `lowercut .. n - lowercut`, ascending. Refused, as
/// `trim_mean` refuses it, when nothing would be left, a cut larger than the
/// whole sample included.
pub fn trimmed_order_statistics(values: &[u64], lowercut: usize) -> (r: Result<
    Vec<u64>,
    FlignerError,
>)
    ensures
        (r is Err) <==> 2 * lowercut >= values.len(),
        r is Err ==> r == Err::<Vec<u64>, FlignerError>(FlignerError::NothingLeftAfterTrimming),
        r matches Ok(kept) ==> {
            &&& kept.len() == values.len() - 2 * lowercut
            &&& forall|k: int|
                0 <= k < kept.len() ==> is_order_statistic(
                    values@,
                    lowercut + k,
                    #[trigger] kept[k],
                )
        },
{
    let n = values.len();
    if lowercut > n || lowercut >= n - lowercut {
        return Err(FlignerError::NothingLeftAfterTrimming);
    }
    let uppercut = n - lowercut;
    let sorted = sorted_by_total_order(values);
    let mut kept: Vec<u64> = Vec::new();
    let mut k: usize = lowercut;
    while k < uppercut
        invariant
            lowercut <= k <= uppercut,
            uppercut <= sorted.len(),
            sorted.len() == values.len(),
            forall|j: int|
                0 <= j < sorted.len() ==> is_order_statistic(values@, j, #[trigger] sorted[j]),
            kept.len() == k - lowercut,
            forall|j: int| 0 <= j < kept.len() ==> kept[j] == sorted[lowercut + j],
        decreases uppercut - k,
    {
        kept.push(sorted[k]);
        k = k + 1;
    }
    proof {
        assert forall|j: int| 0 <= j < kept.len() implies is_order_statistic(
            values@,
            lowercut + j,
            #[trigger] kept[j],
        ) by {
            assert(kept[j] == sorted[lowercut + j]);
        }
    }
    Ok(kept)
}

} // verus!
