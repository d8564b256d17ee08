//! Exact statistics of one bin over the samples of a curve.
//!
//! With `n` values `x` of sum `S`, the mean is `S / n`. Let `m` be the mean
//! rounded down and `r` the rest of that division, so that `S = n * m + r`.
//! A `BinStat` keeps `n`, `S` and the sum `Q` of the squares `(x - m)^2`,
//! which are whole numbers. The sum of the squared distances from the mean
//! itself is `Q - r^2 / n`, so the unbiased sample variance is
//! `(n * Q - r^2) / (n * (n - 1))`, and the square of the standard error of
//! the mean is `(n * Q - r^2) / (n^2 * (n - 1))`.

use vstd::prelude::*;

verus! {

/// The sum of a sequence of values.
pub open spec fn sum(values: Seq<nat>) -> nat
    decreases values.len(),
{
    if values.len() == 0 {
        0
    } else {
        sum(values.drop_last()) + values.last()
    }
}

/// The square of a whole number.
pub open spec fn square(d: int) -> nat {
    (d * d) as nat
}

/// The mean of some values, rounded down; `0` where there is no value.
pub open spec fn floor_mean(values: Seq<nat>) -> int {
    if values.len() == 0 {
        0
    } else {
        sum(values) as int / values.len() as int
    }
}

/// What the sum of some values leaves when it is divided by their number;
/// `0` where there is no value.
pub open spec fn rest(values: Seq<nat>) -> int {
    if values.len() == 0 {
        0
    } else {
        sum(values) as int % values.len() as int
    }
}

/// For each value `x`, the square of `x - mean`.
pub open spec fn squared_distances(values: Seq<nat>, mean: int) -> Seq<nat> {
    Seq::new(values.len(), |s: int| square(values[s] - mean))
}

/// The sum of the squares of the distances of the values from their mean
/// rounded down.
pub open spec fn scatter(values: Seq<nat>) -> nat {
    sum(squared_distances(values, floor_mean(values)))
}

/// For each value `x`, the square of `count * x - total`.
pub open spec fn deviations(values: Seq<nat>, count: int, total: int) -> Seq<nat> {
    Seq::new(values.len(), |s: int| square(count * values[s] - total))
}

/// The sum, over `n` values `x` of sum `S`, of `(n * x - S)^2`: the sum of the
/// squared distances from the mean, times `n^2`.
pub open spec fn spread(values: Seq<nat>) -> nat {
    sum(deviations(values, values.len() as int, sum(values) as int))
}

/// The values of a vector as natural numbers.
pub open spec fn naturals(values: Seq<u64>) -> Seq<nat> {
    Seq::new(values.len(), |s: int| values[s] as nat)
}

/// Whether every value is one that a counter of 32 bits holds.
pub open spec fn within_counter(values: Seq<nat>) -> bool {
    forall|s: int| 0 <= s < values.len() ==> values[s] <= u32::MAX
}

/// The exact statistics of one bin.
#[derive(Clone, Copy, Debug, PartialEq, Eq, Structural)]
pub struct BinStat {
    /// The number of samples.
    pub count: usize,
    /// The sum of the samples' values of the bin.
    pub total: u128,
    /// The sum of the squares of the distances of the values from their mean
    /// rounded down.
    pub scatter: u128,
}

impl BinStat {
    /// Whether these are the statistics of `values`.
    pub open spec fn summarises(&self, values: Seq<nat>) -> bool {
        &&& self.count == values.len()
        &&& self.total == sum(values)
        &&& self.scatter == scatter(values)
    }

    /// What the total leaves when it is divided by the count.
    pub open spec fn rest(&self) -> int {
        if self.count == 0 {
            0
        } else {
            self.total as int % self.count as int
        }
    }

    /// The mean is `total / count`.
    pub open spec fn mean_denominator(&self) -> int {
        self.count as int
    }

    /// The sum of the squared distances of the values from their mean,
    /// times the count.
    pub open spec fn variance_numerator(&self) -> int {
        self.count * self.scatter - self.rest() * self.rest()
    }

    /// The unbiased sample variance is
    /// `variance_numerator / variance_denominator`.
    pub open spec fn variance_denominator(&self) -> int {
        self.count * (self.count - 1)
    }

    /// The square of the standard error of the mean is
    /// `variance_numerator / error_denominator`.
    pub open spec fn error_denominator(&self) -> int {
        self.count * self.variance_denominator()
    }
}

/// The sum of the first `k + 1` values is that of the first `k`, and the next.
pub proof fn lemma_sum_take_next(values: Seq<nat>, k: int)
    requires
        0 <= k < values.len(),
    ensures
        sum(values.take(k + 1)) == sum(values.take(k)) + values[k],
{
    assert(values.take(k + 1).drop_last() =~= values.take(k));
}

/// The sum of some first values is no more than the sum of all.
pub proof fn lemma_sum_take_le(values: Seq<nat>, k: int)
    requires
        0 <= k <= values.len(),
    ensures
        sum(values.take(k)) <= sum(values),
    decreases values.len() - k,
{
    if k < values.len() {
        lemma_sum_take_next(values, k);
        lemma_sum_take_le(values, k + 1);
    } else {
        assert(values.take(k) =~= values);
    }
}

/// A sum of values that are each at most `bound` is at most their number
/// times `bound`.
pub proof fn lemma_sum_bound(values: Seq<nat>, bound: nat)
    requires
        forall|s: int| 0 <= s < values.len() ==> values[s] <= bound,
    ensures
        sum(values) <= values.len() * bound,
    decreases values.len(),
{
    if values.len() > 0 {
        lemma_sum_bound(values.drop_last(), bound);
        assert(values.len() * bound == (values.len() - 1) * bound + bound) by (nonlinear_arith);
    } else {
        assert(values.len() * bound == 0) by (nonlinear_arith)
            requires
                values.len() == 0,
        ;
    }
}

/// The sum of some values is their number times their mean rounded down,
/// and the rest, which is less than their number. The mean rounded down is
/// no more than any bound of the values.
pub proof fn lemma_floor_mean(values: Seq<nat>, bound: nat)
    requires
        forall|s: int| 0 <= s < values.len() ==> values[s] <= bound,
    ensures
        sum(values) == values.len() * floor_mean(values) + rest(values),
        0 <= rest(values),
        values.len() > 0 ==> rest(values) < values.len(),
        0 <= floor_mean(values) <= bound,
{
    let n = values.len() as int;
    let total = sum(values) as int;
    if n > 0 {
        lemma_sum_bound(values, bound);
        vstd::arithmetic::div_mod::lemma_fundamental_div_mod(total, n);
        vstd::arithmetic::div_mod::lemma_mod_bound(total, n);
        let m = total / n;
        let r = total % n;
        assert(0 <= m <= bound) by (nonlinear_arith)
            requires
                total == n * m + r,
                0 <= r < n,
                0 <= total <= n * bound,
        ;
    } else {
        assert(n * 0 == 0) by (nonlinear_arith);
    }
}

/// Where every value is at most `bound`, the scatter is at most their number
/// times the square of `bound`.
pub proof fn lemma_scatter_bound(values: Seq<nat>, bound: nat)
    requires
        forall|s: int| 0 <= s < values.len() ==> values[s] <= bound,
    ensures
        scatter(values) <= values.len() * (bound * bound),
{
    lemma_floor_mean(values, bound);
    let m = floor_mean(values);
    let squares = squared_distances(values, m);
    assert forall|s: int| 0 <= s < squares.len() implies squares[s] <= bound * bound by {
        let d = values[s] - m;
        assert(0 <= d * d <= bound * bound) by (nonlinear_arith)
            requires
                -bound <= d <= bound,
        ;
    }
    assert(bound * bound >= 0) by (nonlinear_arith);
    lemma_sum_bound(squares, (bound * bound) as nat);
}

/// The statistics of values that counters of 32 bits hold can be held: their
/// scatter is within 128 bits, however many the values are.
pub proof fn lemma_counters_fit(values: Seq<nat>)
    requires
        within_counter(values),
        values.len() <= usize::MAX,
    ensures
        scatter(values) <= u128::MAX,
{
    lemma_scatter_bound(values, u32::MAX as nat);
    let n = values.len() as int;
    assert(n * (0xffff_ffff * 0xffff_ffff) <= u128::MAX) by (nonlinear_arith)
        requires
            0 <= n <= 0xffff_ffff_ffff_ffff,
    ;
}

/// Where each item of `a` is `k` times the item of `b` at its place, the sum
/// of `a` is `k` times the sum of `b`.
pub proof fn lemma_sum_scaled(a: Seq<nat>, b: Seq<nat>, k: nat)
    requires
        a.len() == b.len(),
        forall|s: int| 0 <= s < a.len() ==> a[s] == k * b[s],
    ensures
        sum(a) == k * sum(b),
    decreases a.len(),
{
    if a.len() > 0 {
        lemma_sum_scaled(a.drop_last(), b.drop_last(), k);
        assert(k * (sum(b.drop_last()) + b.last()) == k * sum(b.drop_last()) + k * b.last())
            by (nonlinear_arith);
    } else {
        assert(k * 0 == 0) by (nonlinear_arith);
    }
}

/// Where the mean of `n` values is a whole number, their spread is `n^2`
/// times the sum of the squares of their distances from the mean.
pub proof fn lemma_spread_of_whole_mean(values: Seq<nat>, mean: int)
    requires
        sum(values) == values.len() * mean,
    ensures
        spread(values) == values.len() * values.len() * sum(squared_distances(values, mean)),
{
    let n = values.len() as int;
    let scaled = deviations(values, n, sum(values) as int);
    let plain = squared_distances(values, mean);
    assert(n * n >= 0) by (nonlinear_arith);
    assert forall|s: int| 0 <= s < scaled.len() implies scaled[s] == ((n * n) as nat)
        * plain[s] by {
        let x = values[s] as int;
        let d = x - mean;
        assert((n * x - n * mean) * (n * x - n * mean) == (n * n) * (d * d))
            by (nonlinear_arith)
            requires
                d == x - mean,
        ;
        assert(d * d >= 0) by (nonlinear_arith);
        assert(scaled[s] == square(n * x - n * mean));
        assert(plain[s] == d * d);
    }
    lemma_sum_scaled(scaled, plain, (n * n) as nat);
}

/// Over the first `k` values `x`, with `S = n * m + r`: the sum of
/// `(n * x - S)^2` is `n^2` times the sum of `(x - m)^2`, less `2 * n * r`
/// times the sum of `x - m`, and `k * r^2`.
proof fn lemma_first_deviations(values: Seq<nat>, n: int, m: int, r: int, k: int)
    requires
        0 <= k <= values.len(),
    ensures
        sum(deviations(values, n, n * m + r).take(k)) == n * n * sum(
            squared_distances(values, m).take(k),
        ) - 2 * n * r * (sum(values.take(k)) - k * m) + k * (r * r),
    decreases k,
{
    let wide = deviations(values, n, n * m + r);
    let near = squared_distances(values, m);
    if k == 0 {
        assert(wide.take(0) =~= Seq::<nat>::empty());
        assert(near.take(0) =~= Seq::<nat>::empty());
        assert(values.take(0) =~= Seq::<nat>::empty());
        assert(n * n * 0 - 2 * n * r * (0 - 0 * m) + 0 * (r * r) == 0) by (nonlinear_arith);
    } else {
        let j = k - 1;
        lemma_first_deviations(values, n, m, r, j);
        lemma_sum_take_next(wide, j);
        lemma_sum_take_next(near, j);
        lemma_sum_take_next(values, j);
        let x = values[j] as int;
        let d = x - m;
        let before_wide = sum(wide.take(j)) as int;
        let before_near = sum(near.take(j)) as int;
        let before = sum(values.take(j)) as int;
        assert(d * d >= 0) by (nonlinear_arith);
        assert((n * x - (n * m + r)) * (n * x - (n * m + r)) >= 0) by (nonlinear_arith);
        assert(near[j] == d * d);
        assert(wide[j] == (n * x - (n * m + r)) * (n * x - (n * m + r)));
        assert((n * x - (n * m + r)) * (n * x - (n * m + r)) == n * n * (d * d) - 2 * n * r * d
            + r * r) by (nonlinear_arith)
            requires
                d == x - m,
        ;
        assert(n * n * (before_near + d * d) - 2 * n * r * ((before + x) - k * m) + k * (r * r)
            == (n * n * before_near - 2 * n * r * (before - j * m) + j * (r * r)) + (n * n * (d
            * d) - 2 * n * r * d + r * r)) by (nonlinear_arith)
            requires
                d == x - m,
                j == k - 1,
        ;
    }
}

/// The spread of `n` values is `n` times `n * Q - r^2`, where `Q` is their
/// scatter and `r` the rest that their sum leaves: the sum of the squared
/// distances from the mean is `Q - r^2 / n`.
pub proof fn lemma_spread_from_scatter(values: Seq<nat>)
    ensures
        spread(values) == values.len() * (values.len() * scatter(values) - rest(values) * rest(
            values,
        )),
{
    let n = values.len() as int;
    let m = floor_mean(values);
    let r = rest(values);
    let q = scatter(values) as int;
    if n == 0 {
        assert(deviations(values, 0, sum(values) as int) =~= Seq::<nat>::empty());
        assert(0 * (0 * q - r * r) == 0) by (nonlinear_arith);
    } else {
        vstd::arithmetic::div_mod::lemma_fundamental_div_mod(sum(values) as int, n);
        assert(sum(values) == n * m + r);
        lemma_first_deviations(values, n, m, r, n);
        assert(deviations(values, n, n * m + r).take(n) =~= deviations(values, n, n * m + r));
        assert(squared_distances(values, m).take(n) =~= squared_distances(values, m));
        assert(values.take(n) =~= values);
        assert(n * n * q - 2 * n * r * ((n * m + r) - n * m) + n * (r * r) == n * (n * q - r * r))
            by (nonlinear_arith);
    }
}

/// The variance of two or more values is a fraction that is not negative:
/// its numerator is the sum of the squared distances from the mean, times
/// the count, and its denominator is positive. So is the square of the
/// standard error, and its root is real.
pub proof fn lemma_variance_not_negative(stat: BinStat, values: Seq<nat>)
    requires
        stat.summarises(values),
        values.len() >= 2,
    ensures
        stat.total >= 0,
        stat.variance_numerator() >= 0,
        stat.count * stat.variance_numerator() == spread(values),
        stat.mean_denominator() > 0,
        stat.variance_denominator() > 0,
        stat.error_denominator() > 0,
{
    let n = stat.count as int;
    lemma_spread_from_scatter(values);
    let num = stat.variance_numerator();
    assert(num >= 0) by (nonlinear_arith)
        requires
            n * num >= 0,
            n >= 2,
    ;
    assert(n * (n - 1) > 0) by (nonlinear_arith)
        requires
            n >= 2,
    ;
    assert(n * (n * (n - 1)) > 0) by (nonlinear_arith)
        requires
            n >= 2,
    ;
}

/// Of two values `a` and `b`, the sum is `a + b`, so the mean is
/// `(a + b) / 2`. The variance numerator is `(a - b)^2`, twice the sum of the
/// squared distances of `a` and `b` from the mean, over a variance
/// denominator of two: the variance is that sum itself. The square of the
/// standard error is half the variance, `(a - b)^2 / 4`.
pub proof fn lemma_two_values(stat: BinStat, a: nat, b: nat)
    requires
        stat.summarises(seq![a, b]),
    ensures
        stat.count == 2,
        stat.total == a + b,
        stat.variance_numerator() == square(a - b),
        2 * stat.variance_numerator() == square(2 * a - (a + b)) + square(2 * b - (a + b)),
        stat.variance_denominator() == 2,
        stat.error_denominator() == 2 * stat.variance_denominator(),
{
    reveal_with_fuel(sum, 3);
    let values = seq![a, b];
    assert(values.drop_last() =~= seq![a]);
    assert(seq![a].drop_last() =~= Seq::<nat>::empty());
    assert(sum(seq![a]) == a);
    assert(sum(values) == a + b);
    let squares = deviations(values, 2, (a + b) as int);
    assert(squares.drop_last() =~= seq![square(2 * a - (a + b))]);
    assert(squares.drop_last().drop_last() =~= Seq::<nat>::empty());
    assert(sum(squares.drop_last()) == square(2 * a - (a + b)));
    assert(spread(values) == square(2 * a - (a + b)) + square(2 * b - (a + b)));
    assert(square(2 * a - (a + b)) + square(2 * b - (a + b)) == 2 * square(a - b))
        by (nonlinear_arith);
    lemma_spread_from_scatter(values);
}

/// The exact statistics of the values of one bin, where their scatter can be
/// held in 128 bits. It can wherever counters of 32 bits hold the values.
pub fn summarise(values: &Vec<u64>) -> (stat: Option<BinStat>)
    ensures
        stat is Some <==> scatter(naturals(values@)) <= u128::MAX,
        stat matches Some(st) ==> st.summarises(naturals(values@)),
        within_counter(naturals(values@)) ==> stat is Some,
{
    let count: usize = values.len();
    let ghost xs = naturals(values@);
    proof {
        if within_counter(xs) {
            lemma_counters_fit(xs);
        }
    }
    let mut total: u128 = 0;
    let mut s: usize = 0;
    while s < count
        invariant
            count == values@.len(),
            xs == naturals(values@),
            s <= count,
            total == sum(xs.take(s as int)),
            total <= s * u64::MAX,
        decreases count - s,
    {
        proof {
            lemma_sum_take_next(xs, s as int);
            assert((s + 1) * u64::MAX == s * u64::MAX + u64::MAX) by (nonlinear_arith);
            assert(s * u64::MAX <= usize::MAX * u64::MAX) by (nonlinear_arith)
                requires
                    s <= usize::MAX,
            ;
        }
        total = total + values[s] as u128;
        s += 1;
    }
    assert(xs.take(count as int) =~= xs);
    if count == 0 {
        assert(squared_distances(xs, 0) =~= Seq::<nat>::empty());
        return Some(BinStat { count, total, scatter: 0 });
    }
    let mean: u128 = total / count as u128;
    proof {
        lemma_floor_mean(xs, u64::MAX as nat);
    }
    let ghost ds = squared_distances(xs, mean as int);
    let mut scatter: u128 = 0;
    let mut s: usize = 0;
    while s < count
        invariant
            count == values@.len(),
            xs == naturals(values@),
            mean == floor_mean(xs),
            mean <= u64::MAX,
            ds == squared_distances(xs, mean as int),
            total == sum(xs),
            s <= count,
            scatter == sum(ds.take(s as int)),
            within_counter(xs) ==> sum(ds) <= u128::MAX,
        decreases count - s,
    {
        let value: u128 = values[s] as u128;
        let distance: u128 = if value >= mean {
            value - mean
        } else {
            mean - value
        };
        proof {
            lemma_sum_take_next(ds, s as int);
            lemma_sum_take_le(ds, s as int + 1);
            let d = xs[s as int] - mean;
            assert(distance * distance == d * d) by (nonlinear_arith)
                requires
                    distance == d || distance == -d,
            ;
            assert(distance * distance <= u64::MAX * u64::MAX) by (nonlinear_arith)
                requires
                    0 <= distance <= u64::MAX,
            ;
            assert(ds[s as int] == distance * distance);
        }
        let squared: u128 = distance * distance;
        scatter = match scatter.checked_add(squared) {
            Some(more) => more,
            None => {
                return None;
            },
        };
        s += 1;
    }
    assert(ds.take(count as int) =~= ds);
    Some(BinStat { count, total, scatter })
}

} // verus!
