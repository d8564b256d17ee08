//! The statistics of a curve, and of all the curves of a request.

use vstd::prelude::*;
use crate::curve::{
    bin_count, bin_value, bins_fit, holds_bins, series, span, count_bins, CurveConfig, Sample,
};
use crate::failure::Failure;
use crate::stats::{
    lemma_counters_fit, lemma_two_values, naturals, scatter, square, summarise, BinStat,
};
use crate::table::{kept, outcomes, valid_samples};

verus! {

/// What the aggregation of a curve gives.
#[derive(Clone, Debug, PartialEq, Eq)]
pub struct CurveStats {
    /// The bins of each sample, sample by sample.
    pub bins: Vec<Vec<u64>>,
    /// The statistics of each bin over the samples, bin by bin.
    pub stats: Vec<BinStat>,
}

/// The number of steps that a curve looks at: that of its first sample, cut
/// to the curve's limit where it has one.
pub open spec fn curve_seconds(samples: Seq<Seq<u32>>, curve: CurveConfig) -> nat
    recommends
        samples.len() >= 1,
{
    span(samples[0].len(), curve.max_length as nat)
}

/// The values of bin `i`, one of each sample, in the samples' order.
pub open spec fn column(samples: Seq<Seq<u32>>, seconds: nat, unit: nat, i: nat) -> Seq<nat> {
    Seq::new(samples.len(), |s: int| bin_value(samples[s], seconds, unit, i))
}

/// Whether the statistics of every bin can be held: every sample's bins in 64
/// bits, and every bin's scatter in 128 bits.
pub open spec fn curve_fits(samples: Seq<Seq<u32>>, seconds: nat, unit: nat) -> bool {
    &&& forall|s: int| 0 <= s < samples.len() ==> #[trigger] bins_fit(samples[s], seconds, unit)
    &&& forall|i: nat|
        i < bin_count(seconds, unit) ==> scatter(#[trigger] column(samples, seconds, unit, i))
            <= u128::MAX
}

/// Whether a counter of 32 bits holds every bin of every sample.
pub open spec fn within_counters(samples: Seq<Seq<u32>>, seconds: nat, unit: nat) -> bool {
    forall|s: int, i: nat|
        0 <= s < samples.len() && i < bin_count(seconds, unit) ==> #[trigger] bin_value(
            samples[s],
            seconds,
            unit,
            i,
        ) <= u32::MAX
}

/// Where counters of 32 bits hold every bin of every sample, the statistics
/// of every bin can be held, however many the samples are.
pub proof fn lemma_counters_hold(samples: Seq<Seq<u32>>, seconds: nat, unit: nat)
    requires
        within_counters(samples, seconds, unit),
        samples.len() <= usize::MAX,
    ensures
        curve_fits(samples, seconds, unit),
{
    assert forall|s: int| 0 <= s < samples.len() implies #[trigger] bins_fit(
        samples[s],
        seconds,
        unit,
    ) by {
        assert forall|i: nat| i < bin_count(seconds, unit) implies #[trigger] bin_value(
            samples[s],
            seconds,
            unit,
            i,
        ) <= u64::MAX by {}
    }
    assert forall|i: nat| i < bin_count(seconds, unit) implies scatter(
        #[trigger] column(samples, seconds, unit, i),
    ) <= u128::MAX by {
        let values = column(samples, seconds, unit, i);
        assert forall|s: int| 0 <= s < values.len() implies values[s] <= u32::MAX by {
            assert(bin_value(samples[s], seconds, unit, i) <= u32::MAX);
        }
        lemma_counters_fit(values);
    }
}

/// Whether `rows` holds the bins of every sample, in the samples' order.
pub open spec fn holds_rows(
    rows: Seq<Vec<u64>>,
    samples: Seq<Seq<u32>>,
    seconds: nat,
    unit: nat,
) -> bool {
    &&& rows.len() == samples.len()
    &&& forall|s: int|
        0 <= s < rows.len() ==> holds_bins((#[trigger] rows[s])@, samples[s], seconds, unit)
}

/// Whether `stats` holds the statistics of every bin of a curve, in the bins'
/// order.
pub open spec fn holds_stats(
    stats: Seq<BinStat>,
    samples: Seq<Seq<u32>>,
    seconds: nat,
    unit: nat,
) -> bool {
    &&& stats.len() == bin_count(seconds, unit)
    &&& forall|i: int|
        0 <= i < stats.len() ==> (#[trigger] stats[i]).summarises(
            column(samples, seconds, unit, i as nat),
        )
}

/// Of two samples with the values `a` and `b` in a bin, the statistics of
/// that bin are those of `a` and `b`: the sum is `a + b`, so the mean is
/// `(a + b) / 2`; the variance is `(a - b)^2 / 2`, the sum of the squared
/// distances of `a` and `b` from the mean; and the square of the standard
/// error is half of it, `(a - b)^2 / 4`.
pub proof fn lemma_two_samples(
    stats: Seq<BinStat>,
    samples: Seq<Seq<u32>>,
    seconds: nat,
    unit: nat,
    i: int,
)
    requires
        samples.len() == 2,
        holds_stats(stats, samples, seconds, unit),
        0 <= i < stats.len(),
    ensures
        stats[i].count == 2,
        stats[i].total == bin_value(samples[0], seconds, unit, i as nat) + bin_value(
            samples[1],
            seconds,
            unit,
            i as nat,
        ),
        stats[i].variance_numerator() == square(
            bin_value(samples[0], seconds, unit, i as nat) - bin_value(
                samples[1],
                seconds,
                unit,
                i as nat,
            ),
        ),
        stats[i].variance_denominator() == 2,
        stats[i].error_denominator() == 4,
{
    let a = bin_value(samples[0], seconds, unit, i as nat);
    let b = bin_value(samples[1], seconds, unit, i as nat);
    assert(column(samples, seconds, unit, i as nat) =~= seq![a, b]);
    lemma_two_values(stats[i], a, b);
}

/// What the aggregation of a curve comes to: the failure that is reported, or
/// none. Too few samples are told first, then a curve that looks at no step,
/// then a unit of no step, which cannot bin anything.
pub open spec fn curve_failure(samples: Seq<Seq<u32>>, curve: CurveConfig) -> Option<Failure> {
    if samples.len() < 2 {
        Some(Failure::NotEnoughData { column_id: curve.column_id })
    } else if curve_seconds(samples, curve) == 0 {
        Some(Failure::EmptyData { column_id: curve.column_id })
    } else if curve.unit == 0 {
        Some(Failure::ZeroUnit { column_id: curve.column_id })
    } else if !curve_fits(samples, curve_seconds(samples, curve), curve.unit as nat) {
        Some(Failure::TooLarge { column_id: curve.column_id })
    } else {
        None
    }
}

/// Whether a curve is one whose aggregation cannot be too large: one with a
/// unit, whose samples have all their bins within counters of 32 bits.
pub open spec fn curve_within_counters(samples: Seq<Seq<u32>>, curve: CurveConfig) -> bool {
    samples.len() >= 2 ==> within_counters(
        samples,
        curve_seconds(samples, curve),
        curve.unit as nat,
    )
}

/// A curve with a unit of one step or more, whose samples have all their
/// bins within counters of 32 bits, fails just where it has fewer than two
/// samples or looks at no step.
pub proof fn lemma_curve_failures(samples: Seq<Seq<u32>>, curve: CurveConfig)
    requires
        curve.valid(),
        samples.len() <= usize::MAX,
        curve_within_counters(samples, curve),
    ensures
        curve_failure(samples, curve) is Some <==> (samples.len() < 2 || curve_seconds(
            samples,
            curve,
        ) == 0),
        samples.len() < 2 ==> curve_failure(samples, curve) == Some(
            Failure::NotEnoughData { column_id: curve.column_id },
        ),
        samples.len() >= 2 && curve_seconds(samples, curve) == 0 ==> curve_failure(samples, curve)
            == Some(Failure::EmptyData { column_id: curve.column_id }),
{
    if samples.len() >= 2 {
        lemma_counters_hold(samples, curve_seconds(samples, curve), curve.unit as nat);
    }
}

/// Whether `result` is what the aggregation of a curve owes.
pub open spec fn is_curve_result(
    result: Result<CurveStats, Failure>,
    samples: Seq<Seq<u32>>,
    curve: CurveConfig,
) -> bool {
    match result {
        Ok(found) => {
            &&& curve_failure(samples, curve) is None
            &&& holds_rows(
                found.bins@,
                samples,
                curve_seconds(samples, curve),
                curve.unit as nat,
            )
            &&& holds_stats(found.stats@, samples, curve_seconds(samples, curve), curve.unit as nat)
        },
        Err(e) => curve_failure(samples, curve) == Some(e),
    }
}

/// The statistics of each bin of one curve over its samples.
///
/// The curve looks at as many steps as its first sample has, or at
/// `max_length` of them where that is less and not zero. The steps are folded
/// into bins of `unit` steps, the last bin taking what is left, and each bin
/// is summarised over the samples.
///
/// The curve fails with fewer than two samples, and where it looks at no
/// step. Beyond that it fails only with a unit of no step, or where a sum is
/// beyond what the statistics can hold, which needs a bin that no counter of
/// 32 bits holds.
#[verifier::loop_isolation(false)]
pub fn parse_column_data(samples: &Vec<Sample>, curve: &CurveConfig) -> (result: Result<
    CurveStats,
    Failure,
>)
    ensures
        is_curve_result(result, series(samples@), *curve),
        curve.valid() && curve_within_counters(series(samples@), *curve) ==> (result is Err <==> (
        samples@.len() < 2 || curve_seconds(series(samples@), *curve) == 0)),
{
    let ghost all = series(samples@);
    let n: usize = samples.len();
    proof {
        if curve.valid() && curve_within_counters(all, *curve) {
            lemma_curve_failures(all, *curve);
        }
    }
    if n < 2 {
        return Err(Failure::NotEnoughData { column_id: curve.column_id });
    }
    let seconds: usize = curve.seconds(samples[0].presses.len());
    if seconds == 0 {
        return Err(Failure::EmptyData { column_id: curve.column_id });
    }
    let unit: usize = curve.unit;
    if unit == 0 {
        return Err(Failure::ZeroUnit { column_id: curve.column_id });
    }
    let length: usize = count_bins(seconds, unit);
    assert(seconds == curve_seconds(all, *curve));
    let mut rows: Vec<Vec<u64>> = Vec::new();
    let mut s: usize = 0;
    while s < n
        invariant
            n == samples@.len(),
            all == series(samples@),
            unit >= 1,
            s <= n,
            rows@.len() == s,
            forall|t: int|
                0 <= t < s ==> holds_bins(
                    (#[trigger] rows@[t])@,
                    all[t],
                    seconds as nat,
                    unit as nat,
                ),
            forall|t: int| 0 <= t < s ==> #[trigger] bins_fit(all[t], seconds as nat, unit as nat),
        decreases n - s,
    {
        match samples[s].bins(seconds, unit) {
            Some(row) => {
                rows.push(row);
            },
            None => {
                assert(!bins_fit(all[s as int], seconds as nat, unit as nat));
                return Err(Failure::TooLarge { column_id: curve.column_id });
            },
        }
        s += 1;
    }
    let mut stats: Vec<BinStat> = Vec::new();
    let mut i: usize = 0;
    while i < length
        invariant
            n == samples@.len(),
            all == series(samples@),
            length == bin_count(seconds as nat, unit as nat),
            i <= length,
            rows@.len() == n,
            forall|t: int|
                0 <= t < n ==> holds_bins(
                    (#[trigger] rows@[t])@,
                    all[t],
                    seconds as nat,
                    unit as nat,
                ),
            stats@.len() == i,
            forall|k: int|
                0 <= k < i ==> (#[trigger] stats@[k]).summarises(
                    column(all, seconds as nat, unit as nat, k as nat),
                ),
            forall|k: nat|
                k < i ==> scatter(#[trigger] column(all, seconds as nat, unit as nat, k))
                    <= u128::MAX,
        decreases length - i,
    {
        let mut values: Vec<u64> = Vec::new();
        let mut s: usize = 0;
        while s < n
            invariant
                i < length,
                length == bin_count(seconds as nat, unit as nat),
                s <= n,
                rows@.len() == n,
                forall|t: int|
                    0 <= t < n ==> holds_bins(
                        (#[trigger] rows@[t])@,
                        all[t],
                        seconds as nat,
                        unit as nat,
                    ),
                values@.len() == s,
                forall|t: int|
                    0 <= t < s ==> #[trigger] values@[t] as nat == bin_value(
                        all[t],
                        seconds as nat,
                        unit as nat,
                        i as nat,
                    ),
            decreases n - s,
        {
            assert(holds_bins(rows@[s as int]@, all[s as int], seconds as nat, unit as nat));
            values.push(rows[s][i]);
            s += 1;
        }
        assert(naturals(values@) =~= column(all, seconds as nat, unit as nat, i as nat));
        match summarise(&values) {
            Some(stat) => {
                stats.push(stat);
            },
            None => {
                return Err(Failure::TooLarge { column_id: curve.column_id });
            },
        }
        i += 1;
    }
    Ok(CurveStats { bins: rows, stats })
}

/// The samples of curve `k`: what was decoded from the cells of its column.
pub open spec fn curve_samples(decoded: Seq<Vec<Option<Sample>>>, k: int) -> Seq<Seq<u32>> {
    kept(outcomes(decoded[k]@))
}

/// A row counts for each curve by itself: where its cell for curve `y` was
/// decoded, the sample is among the samples of curve `y`, also where its cell
/// for another curve `x` was not decoded.
pub proof fn lemma_row_counts_per_curve(
    decoded: Seq<Vec<Option<Sample>>>,
    x: int,
    y: int,
    r: int,
)
    requires
        0 <= x < decoded.len(),
        0 <= y < decoded.len(),
        0 <= r < decoded[x]@.len(),
        0 <= r < decoded[y]@.len(),
        decoded[x]@[r] is None,
        decoded[y]@[r] is Some,
    ensures
        curve_samples(decoded, y).contains(decoded[y]@[r]->Some_0@),
{
    crate::table::lemma_decoded_is_kept(outcomes(decoded[y]@), r);
}

/// Whether curve `k` is the first curve of a request whose aggregation
/// fails, and fails with `e`.
pub open spec fn fails_first(
    decoded: Seq<Vec<Option<Sample>>>,
    curves: Seq<CurveConfig>,
    k: int,
    e: Failure,
) -> bool {
    &&& 0 <= k < curves.len()
    &&& curve_failure(curve_samples(decoded, k), curves[k]) == Some(e)
    &&& forall|j: int|
        0 <= j < k ==> curve_failure(#[trigger] curve_samples(decoded, j), curves[j]) is None
}

/// Whether `result` is what the aggregation of all curves owes: the
/// statistics of every curve, in the curves' order, or the failure of the
/// first curve that fails, and no statistics then.
pub open spec fn is_request_result(
    result: Result<Vec<CurveStats>, Failure>,
    decoded: Seq<Vec<Option<Sample>>>,
    curves: Seq<CurveConfig>,
) -> bool {
    match result {
        Ok(all) => {
            &&& curves.len() > 0
            &&& all@.len() == curves.len()
            &&& forall|k: int|
                0 <= k < curves.len() ==> is_curve_result(
                    Ok(all@[k]),
                    #[trigger] curve_samples(decoded, k),
                    curves[k],
                )
        },
        Err(e) => if curves.len() == 0 {
            e == Failure::NoCurves
        } else {
            exists|k: int| fails_first(decoded, curves, k, e)
        },
    }
}

/// The statistics of every curve of a request.
///
/// `decoded[k]` holds, row by row, what the cell in the column of curve `k`
/// was decoded to. Each curve is aggregated over the samples of its own
/// column alone.
pub fn aggregate_curves(decoded: &Vec<Vec<Option<Sample>>>, curves: &Vec<CurveConfig>) -> (result:
    Result<Vec<CurveStats>, Failure>)
    requires
        decoded@.len() == curves@.len(),
    ensures
        is_request_result(result, decoded@, curves@),
{
    if curves.len() == 0 {
        return Err(Failure::NoCurves);
    }
    let mut all: Vec<CurveStats> = Vec::new();
    let mut k: usize = 0;
    while k < curves.len()
        invariant
            decoded@.len() == curves@.len(),
            k <= curves@.len(),
            all@.len() == k,
            forall|j: int|
                0 <= j < k ==> is_curve_result(
                    Ok(all@[j]),
                    #[trigger] curve_samples(decoded@, j),
                    curves@[j],
                ),
        decreases curves@.len() - k,
    {
        let samples: Vec<Sample> = valid_samples(&decoded[k]);
        assert(series(samples@) == curve_samples(decoded@, k as int));
        match parse_column_data(&samples, &curves[k]) {
            Ok(found) => {
                all.push(found);
            },
            Err(e) => {
                assert(fails_first(decoded@, curves@, k as int, e));
                return Err(e);
            },
        }
        k += 1;
    }
    Ok(all)
}

} // verus!
