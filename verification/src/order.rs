//! What the sums of a curve's bins come to, and how far the statistics of a
//! curve depend on the order of its samples: no further than the number of
//! steps that the curve looks at does.

use vstd::prelude::*;
use vstd::seq_lib::{group_to_multiset_ensures, to_multiset_len};
use crate::aggregate::{column, curve_failure, curve_fits, curve_seconds};
use crate::curve::{
    bin_count, bin_start, bin_value, bin_values, bins_fit, lemma_bin_count_bounds,
    lemma_bin_starts_inside, lemma_steps_sum_split, steps_sum, CurveConfig,
};
use crate::stats::{
    deviations, floor_mean, lemma_sum_bound, lemma_sum_take_next, scatter, spread, square,
    squared_distances, sum,
};

verus! {

/// The sum of each bin over the samples of a curve, bin by bin. The mean of
/// a bin is its sum, divided by the number of samples.
pub open spec fn totals(samples: Seq<Seq<u32>>, seconds: nat, unit: nat) -> Seq<nat> {
    Seq::new(bin_count(seconds, unit), |i: int| sum(column(samples, seconds, unit, i as nat)))
}

/// A sum is what is left without one of its values, and that value.
pub proof fn lemma_sum_remove(values: Seq<nat>, i: int)
    requires
        0 <= i < values.len(),
    ensures
        sum(values) == sum(values.remove(i)) + values[i],
    decreases values.len(),
{
    if i == values.len() - 1 {
        assert(values.remove(i) =~= values.drop_last());
    } else {
        lemma_sum_remove(values.drop_last(), i);
        assert(values.remove(i).drop_last() =~= values.drop_last().remove(i));
        assert(values.remove(i).last() == values.last());
    }
}

/// Two sequences that hold the same items as often, in whatever order, still
/// do so after one function is applied to every item.
pub proof fn lemma_images_permute<A, B>(a: Seq<A>, b: Seq<A>, f: spec_fn(A) -> B)
    requires
        a.to_multiset() == b.to_multiset(),
    ensures
        a.map_values(f).to_multiset() == b.map_values(f).to_multiset(),
    decreases a.len(),
{
    broadcast use group_to_multiset_ensures;

    assert(a.len() == b.len()) by {
        to_multiset_len(a);
        to_multiset_len(b);
    }
    if a.len() == 0 {
        assert(a.map_values(f) =~= b.map_values(f));
    } else {
        let x = a.last();
        assert(a.contains(x));
        assert(b.to_multiset().count(x) > 0);
        assert(b.contains(x));
        let i = choose|i: int| 0 <= i < b.len() && b[i] == x;
        let shorter_a = a.drop_last();
        let shorter_b = b.remove(i);
        assert(shorter_a =~= a.remove(a.len() - 1));
        assert(shorter_a.to_multiset() == shorter_b.to_multiset());
        lemma_images_permute(shorter_a, shorter_b, f);
        let image_a = a.map_values(f);
        let image_b = b.map_values(f);
        assert(image_a.remove(a.len() - 1) =~= shorter_a.map_values(f));
        assert(image_b.remove(i) =~= shorter_b.map_values(f));
        assert(image_a.contains(f(x))) by {
            assert(image_a[a.len() - 1] == f(x));
        }
        assert(image_b.contains(f(x))) by {
            assert(image_b[i] == f(x));
        }
        assert(image_a.to_multiset() =~= image_a.remove(a.len() - 1).to_multiset().insert(f(x)));
        assert(image_b.to_multiset() =~= image_b.remove(i).to_multiset().insert(f(x)));
    }
}

/// The sum of some values does not depend on their order.
pub proof fn lemma_sum_permutes(a: Seq<nat>, b: Seq<nat>)
    requires
        a.to_multiset() == b.to_multiset(),
    ensures
        sum(a) == sum(b),
    decreases a.len(),
{
    broadcast use group_to_multiset_ensures;

    assert(a.len() == b.len()) by {
        to_multiset_len(a);
        to_multiset_len(b);
    }
    if a.len() > 0 {
        let x = a.last();
        assert(a.contains(x));
        assert(b.to_multiset().count(x) > 0);
        assert(b.contains(x));
        let i = choose|i: int| 0 <= i < b.len() && b[i] == x;
        assert(a.drop_last() =~= a.remove(a.len() - 1));
        lemma_sum_permutes(a.drop_last(), b.remove(i));
        lemma_sum_remove(b, i);
    }
}

/// The spread of some values does not depend on their order.
pub proof fn lemma_spread_permutes(a: Seq<nat>, b: Seq<nat>)
    requires
        a.to_multiset() == b.to_multiset(),
    ensures
        spread(a) == spread(b),
{
    broadcast use group_to_multiset_ensures;

    assert(a.len() == b.len()) by {
        to_multiset_len(a);
        to_multiset_len(b);
    }
    lemma_sum_permutes(a, b);
    let count = a.len() as int;
    let total = sum(a) as int;
    let f = |x: nat| square(count * x - total);
    lemma_images_permute(a, b, f);
    assert(a.map_values(f) =~= deviations(a, count, total));
    assert(b.map_values(f) =~= deviations(b, count, total));
    lemma_sum_permutes(deviations(a, count, total), deviations(b, count, total));
}

/// The scatter of some values does not depend on their order.
pub proof fn lemma_scatter_permutes(a: Seq<nat>, b: Seq<nat>)
    requires
        a.to_multiset() == b.to_multiset(),
    ensures
        scatter(a) == scatter(b),
{
    assert(a.len() == b.len()) by {
        to_multiset_len(a);
        to_multiset_len(b);
    }
    lemma_sum_permutes(a, b);
    let mean = floor_mean(a);
    let f = |x: nat| square(x - mean);
    lemma_images_permute(a, b, f);
    assert(a.map_values(f) =~= squared_distances(a, mean));
    assert(b.map_values(f) =~= squared_distances(b, mean));
    lemma_sum_permutes(squared_distances(a, mean), squared_distances(b, mean));
}

/// Whether a curve looks at as many steps of `first` as of `second`.
pub open spec fn same_seconds(
    first: Seq<Seq<u32>>,
    second: Seq<Seq<u32>>,
    curve: CurveConfig,
) -> bool {
    curve_seconds(first, curve) == curve_seconds(second, curve)
}

/// Two lists of the same samples, in whatever order, of which a curve looks
/// at as many steps, have the same values in each bin, in whatever order.
pub proof fn lemma_column_permutes(
    first: Seq<Seq<u32>>,
    second: Seq<Seq<u32>>,
    seconds: nat,
    unit: nat,
    i: nat,
)
    requires
        first.to_multiset() == second.to_multiset(),
    ensures
        column(first, seconds, unit, i).to_multiset() == column(
            second,
            seconds,
            unit,
            i,
        ).to_multiset(),
{
    let f = |presses: Seq<u32>| bin_value(presses, seconds, unit, i);
    lemma_images_permute(first, second, f);
    assert(first.map_values(f) =~= column(first, seconds, unit, i));
    assert(second.map_values(f) =~= column(second, seconds, unit, i));
}

/// The statistics of a curve do not depend on the order of its samples:
/// where two lists hold the same samples, and the curve looks at as many
/// steps of the one as of the other, the aggregation of both fails alike or
/// gives for each bin the same sum, the same scatter and the same spread, and
/// so the same sum of the means of all bins.
///
/// The number of steps is that of the first sample, so the order can change
/// it; then the bins themselves are others.
pub proof fn lemma_order_of_samples(
    first: Seq<Seq<u32>>,
    second: Seq<Seq<u32>>,
    curve: CurveConfig,
)
    requires
        curve.valid(),
        first.len() >= 2,
        first.to_multiset() == second.to_multiset(),
        same_seconds(first, second, curve),
    ensures
        first.len() == second.len(),
        curve_failure(first, curve) == curve_failure(second, curve),
        forall|i: nat|
            #![trigger column(first, curve_seconds(first, curve), curve.unit as nat, i)]
            sum(column(first, curve_seconds(first, curve), curve.unit as nat, i)) == sum(
                column(second, curve_seconds(second, curve), curve.unit as nat, i),
            ) && scatter(column(first, curve_seconds(first, curve), curve.unit as nat, i))
                == scatter(column(second, curve_seconds(second, curve), curve.unit as nat, i))
                && spread(column(first, curve_seconds(first, curve), curve.unit as nat, i))
                == spread(column(second, curve_seconds(second, curve), curve.unit as nat, i)),
        totals(first, curve_seconds(first, curve), curve.unit as nat) == totals(
            second,
            curve_seconds(second, curve),
            curve.unit as nat,
        ),
{
    broadcast use group_to_multiset_ensures;

    let seconds = curve_seconds(first, curve);
    let unit = curve.unit as nat;
    assert(first.len() == second.len()) by {
        to_multiset_len(first);
        to_multiset_len(second);
    }
    assert forall|i: nat|
        #![trigger column(first, seconds, unit, i)]
        sum(column(first, seconds, unit, i)) == sum(column(second, seconds, unit, i)) && scatter(
            column(first, seconds, unit, i),
        ) == scatter(column(second, seconds, unit, i)) && spread(column(first, seconds, unit, i))
            == spread(column(second, seconds, unit, i)) by {
        lemma_column_permutes(first, second, seconds, unit, i);
        lemma_sum_permutes(column(first, seconds, unit, i), column(second, seconds, unit, i));
        lemma_scatter_permutes(column(first, seconds, unit, i), column(second, seconds, unit, i));
        lemma_spread_permutes(column(first, seconds, unit, i), column(second, seconds, unit, i));
    }
    assert(totals(first, seconds, unit) =~= totals(second, seconds, unit)) by {
        assert forall|i: int| 0 <= i < bin_count(seconds, unit) implies totals(
            first,
            seconds,
            unit,
        )[i] == totals(second, seconds, unit)[i] by {
            let c = column(first, seconds, unit, i as nat);
        }
    }
    assert(curve_fits(first, seconds, unit) == curve_fits(second, seconds, unit)) by {
        if curve_fits(first, seconds, unit) {
            lemma_fit_permutes(first, second, seconds, unit);
        }
        if curve_fits(second, seconds, unit) {
            lemma_fit_permutes(second, first, seconds, unit);
        }
    }
}

/// Where the statistics of some samples can be held, those of the same
/// samples in another order can.
pub proof fn lemma_fit_permutes(
    first: Seq<Seq<u32>>,
    second: Seq<Seq<u32>>,
    seconds: nat,
    unit: nat,
)
    requires
        first.to_multiset() == second.to_multiset(),
        curve_fits(first, seconds, unit),
    ensures
        curve_fits(second, seconds, unit),
{
    broadcast use group_to_multiset_ensures;

    assert forall|s: int| 0 <= s < second.len() implies #[trigger] bins_fit(
        second[s],
        seconds,
        unit,
    ) by {
        assert(second.contains(second[s]));
        assert(first.to_multiset().count(second[s]) > 0);
        assert(first.contains(second[s]));
        let t = choose|t: int| 0 <= t < first.len() && first[t] == second[s];
        assert(bins_fit(first[t], seconds, unit));
    }
    assert forall|i: nat| i < bin_count(seconds, unit) implies scatter(
        #[trigger] column(second, seconds, unit, i),
    ) <= u128::MAX by {
        lemma_column_permutes(first, second, seconds, unit, i);
        lemma_scatter_permutes(column(first, seconds, unit, i), column(second, seconds, unit, i));
        assert(scatter(column(first, seconds, unit, i)) <= u128::MAX);
    }
}

/// The presses of each sample over the first `seconds` steps, sample by
/// sample.
pub open spec fn presses_upto(samples: Seq<Seq<u32>>, seconds: nat) -> Seq<nat> {
    Seq::new(samples.len(), |s: int| steps_sum(samples[s], 0, seconds as int))
}

/// The first `k` bins of a series hold its presses up to the start of bin
/// `k`, or up to the last step that is looked at where `k` is the number of
/// bins.
pub proof fn lemma_first_bins(presses: Seq<u32>, seconds: nat, unit: nat, k: nat)
    requires
        unit >= 1,
        k <= bin_count(seconds, unit),
    ensures
        sum(bin_values(presses, seconds, unit).take(k as int)) == steps_sum(
            presses,
            0,
            if k == bin_count(seconds, unit) {
                seconds as int
            } else {
                bin_start(unit, k) as int
            },
        ),
    decreases k,
{
    let bins = bin_values(presses, seconds, unit);
    lemma_bin_count_bounds(seconds, unit);
    if k == 0 {
        assert(bins.take(0) =~= Seq::<nat>::empty());
        assert(bin_start(unit, 0) == 0) by (nonlinear_arith);
    } else {
        let i = (k - 1) as nat;
        lemma_first_bins(presses, seconds, unit, i);
        lemma_bin_starts_inside(seconds, unit, i);
        lemma_sum_take_next(bins, i as int);
        assert(bins[i as int] == bin_value(presses, seconds, unit, i));
        lemma_steps_sum_split(
            presses,
            0,
            bin_start(unit, i) as int,
            crate::curve::bin_end(seconds, unit, i) as int,
        );
    }
}

/// The bins of a series hold, all together, its presses over the steps that
/// are looked at: no step is left out and none is counted twice, whatever
/// the unit.
pub proof fn lemma_bins_hold_all_steps(presses: Seq<u32>, seconds: nat, unit: nat)
    requires
        unit >= 1,
    ensures
        sum(bin_values(presses, seconds, unit)) == steps_sum(presses, 0, seconds as int),
{
    let bins = bin_values(presses, seconds, unit);
    lemma_first_bins(presses, seconds, unit, bin_count(seconds, unit));
    assert(bins.take(bins.len() as int) =~= bins);
}

/// The sum of two sequences, item by item.
pub open spec fn sum_of_each(a: Seq<nat>, b: Seq<nat>) -> Seq<nat> {
    Seq::new(a.len(), |i: int| a[i] + b[i])
}

/// Summing two sequences item by item, and then the sums, gives the sum of
/// both.
pub proof fn lemma_sum_of_each(a: Seq<nat>, b: Seq<nat>)
    requires
        a.len() == b.len(),
    ensures
        sum(sum_of_each(a, b)) == sum(a) + sum(b),
    decreases a.len(),
{
    if a.len() > 0 {
        lemma_sum_of_each(a.drop_last(), b.drop_last());
        assert(sum_of_each(a, b).drop_last() =~= sum_of_each(a.drop_last(), b.drop_last()));
    }
}

/// The sums of all bins of a curve come, all together, to the presses of all
/// its samples over the steps that are looked at. The sum of the means of
/// all bins is that number, divided by the number of samples.
pub proof fn lemma_totals_hold_all_steps(samples: Seq<Seq<u32>>, seconds: nat, unit: nat)
    requires
        unit >= 1,
    ensures
        sum(totals(samples, seconds, unit)) == sum(presses_upto(samples, seconds)),
    decreases samples.len(),
{
    let all = totals(samples, seconds, unit);
    if samples.len() == 0 {
        assert forall|i: int| 0 <= i < all.len() implies all[i] <= 0 by {
            assert(column(samples, seconds, unit, i as nat) =~= Seq::<nat>::empty());
        }
        lemma_sum_bound(all, 0);
        assert(presses_upto(samples, seconds) =~= Seq::<nat>::empty());
    } else {
        let rest = samples.drop_last();
        let last = samples.last();
        lemma_totals_hold_all_steps(rest, seconds, unit);
        lemma_bins_hold_all_steps(last, seconds, unit);
        let before = totals(rest, seconds, unit);
        let bins = bin_values(last, seconds, unit);
        assert(all =~= sum_of_each(before, bins)) by {
            assert forall|i: int| 0 <= i < all.len() implies all[i] == before[i] + bins[i] by {
                assert(column(samples, seconds, unit, i as nat).drop_last() =~= column(
                    rest,
                    seconds,
                    unit,
                    i as nat,
                ));
            }
        }
        lemma_sum_of_each(before, bins);
        assert(presses_upto(samples, seconds).drop_last() =~= presses_upto(rest, seconds));
    }
}

/// The presses of some samples over the first steps do not depend on the
/// order of the samples.
pub proof fn lemma_presses_permute(first: Seq<Seq<u32>>, second: Seq<Seq<u32>>, seconds: nat)
    requires
        first.to_multiset() == second.to_multiset(),
    ensures
        sum(presses_upto(first, seconds)) == sum(presses_upto(second, seconds)),
{
    let f = |presses: Seq<u32>| steps_sum(presses, 0, seconds as int);
    lemma_images_permute(first, second, f);
    assert(first.map_values(f) =~= presses_upto(first, seconds));
    assert(second.map_values(f) =~= presses_upto(second, seconds));
    lemma_sum_permutes(presses_upto(first, seconds), presses_upto(second, seconds));
}

/// How far the sum of the means of all bins depends on the order of the
/// samples. Two lists of the same samples have as many samples, and the sums
/// of their bins come to the presses that the samples hold over the steps
/// that each order looks at. So the sum of the means is the same for both
/// orders where, and only where, the samples hold as many presses over the
/// steps of the one order as over those of the other: where no press falls
/// between the two numbers of steps.
pub proof fn lemma_sum_of_means(first: Seq<Seq<u32>>, second: Seq<Seq<u32>>, curve: CurveConfig)
    requires
        curve.valid(),
        first.len() >= 2,
        first.to_multiset() == second.to_multiset(),
    ensures
        first.len() == second.len(),
        sum(totals(first, curve_seconds(first, curve), curve.unit as nat)) == sum(
            presses_upto(first, curve_seconds(first, curve)),
        ),
        sum(totals(second, curve_seconds(second, curve), curve.unit as nat)) == sum(
            presses_upto(first, curve_seconds(second, curve)),
        ),
        sum(totals(first, curve_seconds(first, curve), curve.unit as nat)) == sum(
            totals(second, curve_seconds(second, curve), curve.unit as nat),
        ) <==> sum(presses_upto(first, curve_seconds(first, curve))) == sum(
            presses_upto(first, curve_seconds(second, curve)),
        ),
{
    to_multiset_len(first);
    to_multiset_len(second);
    lemma_totals_hold_all_steps(first, curve_seconds(first, curve), curve.unit as nat);
    lemma_totals_hold_all_steps(second, curve_seconds(second, curve), curve.unit as nat);
    lemma_presses_permute(first, second, curve_seconds(second, curve));
}

} // verus!
