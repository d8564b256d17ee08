//! Curves, samples, and the folding of a sample's steps into bins.

use vstd::prelude::*;

verus! {

/// How one curve is taken from the table.
#[derive(Clone, Copy, Debug, PartialEq, Eq, Structural)]
pub struct CurveConfig {
    /// The table column that holds this curve's samples.
    pub column_id: usize,
    /// How many consecutive steps are summed into one bin.
    pub unit: usize,
    /// The most steps that are looked at; `0` stands for all the steps of the
    /// first sample.
    pub max_length: usize,
}

/// One trial's time series: the number of presses at each step.
#[derive(Clone, Debug, PartialEq, Eq)]
pub struct Sample {
    pub presses: Vec<u32>,
}

impl View for Sample {
    type V = Seq<u32>;

    open spec fn view(&self) -> Seq<u32> {
        self.presses@
    }
}

/// The series of each sample of a list, in the list's order.
pub open spec fn series(samples: Seq<Sample>) -> Seq<Seq<u32>> {
    Seq::new(samples.len(), |s: int| samples[s]@)
}

/// The presses of a series at step `j`. A series counts no presses at a step
/// that it does not reach.
pub open spec fn step(presses: Seq<u32>, j: int) -> nat {
    if 0 <= j < presses.len() {
        presses[j] as nat
    } else {
        0
    }
}

/// The presses of a series over the steps `lo`, `lo + 1`, .., `hi - 1`.
pub open spec fn steps_sum(presses: Seq<u32>, lo: int, hi: int) -> nat
    decreases hi - lo,
{
    if hi <= lo {
        0
    } else {
        steps_sum(presses, lo, hi - 1) + step(presses, hi - 1)
    }
}

/// The number of steps that a curve looks at, given the length of its first
/// sample.
pub open spec fn span(first_len: nat, max_length: nat) -> nat {
    if max_length == 0 || first_len <= max_length {
        first_len
    } else {
        max_length
    }
}

/// The number of bins that `seconds` steps fill, `unit` steps to a bin: the
/// quotient `seconds / unit`, rounded up.
pub open spec fn bin_count(seconds: nat, unit: nat) -> nat
    recommends
        unit >= 1,
{
    ((seconds + unit - 1) / (unit as int)) as nat
}

/// The first step of bin `i`.
pub open spec fn bin_start(unit: nat, i: nat) -> nat {
    i * unit
}

/// The step after the last one of bin `i`, where only `seconds` steps are
/// looked at.
pub open spec fn bin_end(seconds: nat, unit: nat, i: nat) -> nat {
    if (i + 1) * unit <= seconds {
        (i + 1) * unit
    } else {
        seconds
    }
}

/// The value of bin `i` of a series: the sum of its presses over the bin's
/// steps.
pub open spec fn bin_value(presses: Seq<u32>, seconds: nat, unit: nat, i: nat) -> nat {
    steps_sum(presses, bin_start(unit, i) as int, bin_end(seconds, unit, i) as int)
}

/// All the bins of a series.
pub open spec fn bin_values(presses: Seq<u32>, seconds: nat, unit: nat) -> Seq<nat> {
    Seq::new(bin_count(seconds, unit), |i: int| bin_value(presses, seconds, unit, i as nat))
}

/// Rounding up leaves the last bin begun and not overrun: with `c` bins,
/// `(c - 1) * unit < seconds <= c * unit`.
pub proof fn lemma_bin_count_bounds(seconds: nat, unit: nat)
    requires
        unit >= 1,
    ensures
        seconds == 0 ==> bin_count(seconds, unit) == 0,
        seconds > 0 ==> bin_count(seconds, unit) >= 1,
        seconds > 0 ==> (bin_count(seconds, unit) - 1) * unit < seconds,
        seconds <= bin_count(seconds, unit) * unit,
        bin_count(seconds, unit) <= seconds,
{
    let u = unit as int;
    let t = seconds + unit - 1;
    let c = t / u;
    assert(t == u * c + t % u && 0 <= t % u < u) by {
        vstd::arithmetic::div_mod::lemma_fundamental_div_mod(t, u);
        vstd::arithmetic::div_mod::lemma_mod_bound(t, u);
    }
    assert(c >= 0) by {
        vstd::arithmetic::div_mod::lemma_div_pos_is_pos(t, u);
    }
    if seconds == 0 {
        assert(c == 0) by (nonlinear_arith)
            requires
                t == u * c + t % u,
                0 <= t % u < u,
                t == u - 1,
                c >= 0,
        ;
    } else {
        assert(c >= 1) by (nonlinear_arith)
            requires
                t == u * c + t % u,
                0 <= t % u < u,
                t >= u,
                c >= 0,
        ;
    }
    assert((c - 1) * u == c * u - u) by (nonlinear_arith);
    assert(u * c == c * u) by (nonlinear_arith);
    assert(c <= seconds) by (nonlinear_arith)
        requires
            seconds > 0 ==> c * u - u < seconds,
            seconds == 0 ==> c == 0,
            u >= 1,
            c >= 0,
    ;
}

/// Every bin begins before the steps run out.
pub proof fn lemma_bin_starts_inside(seconds: nat, unit: nat, i: nat)
    requires
        unit >= 1,
        i < bin_count(seconds, unit),
    ensures
        bin_start(unit, i) < seconds,
        bin_start(unit, i) < bin_end(seconds, unit, i) <= seconds,
        bin_end(seconds, unit, i) - bin_start(unit, i) <= unit,
        i + 1 < bin_count(seconds, unit) ==> bin_end(seconds, unit, i) == bin_start(unit, i + 1),
        i + 1 == bin_count(seconds, unit) ==> bin_end(seconds, unit, i) == seconds,
{
    lemma_bin_count_bounds(seconds, unit);
    let c = bin_count(seconds, unit) as int;
    let u = unit as int;
    let k = i as int;
    assert(k * u <= (c - 1) * u) by (nonlinear_arith)
        requires
            k <= c - 1,
            u >= 1,
    ;
    assert((k + 1) * u == k * u + u) by (nonlinear_arith);
    if k + 1 < c {
        assert((k + 1) * u <= (c - 1) * u) by (nonlinear_arith)
            requires
                k + 1 <= c - 1,
                u >= 1,
        ;
    } else {
        assert((k + 1) * u == c * u);
    }
}

/// The number of steps in bin `i`.
pub open spec fn bin_width(seconds: nat, unit: nat, i: nat) -> int {
    bin_end(seconds, unit, i) - bin_start(unit, i)
}

/// A curve with a unit of one step and no limit has as many bins as its
/// first sample has steps.
pub proof fn lemma_one_bin_per_step(first_len: nat)
    ensures
        bin_count(span(first_len, 0), 1) == first_len,
{
}

/// The bins are as many as the quotient of the steps by the unit, rounded
/// up. Each bin but the last holds `unit` steps; the last holds what is left,
/// which is less than `unit` steps where `unit` does not divide `seconds`.
pub proof fn lemma_bin_widths(seconds: nat, unit: nat)
    requires
        unit >= 1,
    ensures
        seconds % unit == 0 ==> bin_count(seconds, unit) == seconds / unit,
        seconds % unit != 0 ==> bin_count(seconds, unit) == seconds / unit + 1,
        forall|i: nat|
            i + 1 < bin_count(seconds, unit) ==> #[trigger] bin_width(seconds, unit, i) == unit,
        seconds > 0 && seconds % unit == 0 ==> bin_width(
            seconds,
            unit,
            (bin_count(seconds, unit) - 1) as nat,
        ) == unit,
        seconds % unit != 0 ==> bin_width(seconds, unit, (bin_count(seconds, unit) - 1) as nat)
            == seconds % unit,
{
    lemma_bin_count_bounds(seconds, unit);
    let u = unit as int;
    let t = seconds as int;
    let c = bin_count(seconds, unit) as int;
    vstd::arithmetic::div_mod::lemma_fundamental_div_mod(t, u);
    vstd::arithmetic::div_mod::lemma_mod_bound(t, u);
    let q = t / u;
    let m = t % u;
    assert(q >= 0) by {
        vstd::arithmetic::div_mod::lemma_div_pos_is_pos(t, u);
    }
    assert(c == if m == 0 {
        q
    } else {
        q + 1
    }) by (nonlinear_arith)
        requires
            t == u * q + m,
            0 <= m < u,
            t <= c * u,
            t > 0 ==> (c - 1) * u < t,
            t == 0 ==> c == 0,
            q >= 0,
            c >= 0,
    ;
    assert forall|i: nat| i + 1 < bin_count(seconds, unit) implies #[trigger] bin_width(
        seconds,
        unit,
        i,
    ) == unit by {
        lemma_bin_starts_inside(seconds, unit, i);
        assert((i + 1) * u == i * u + u) by (nonlinear_arith);
    }
    if seconds > 0 {
        let last = (c - 1) as nat;
        lemma_bin_starts_inside(seconds, unit, last);
        assert(bin_end(seconds, unit, last) == seconds);
        assert(bin_width(seconds, unit, last) == t - (c - 1) * u);
        assert(t - (c - 1) * u == if m == 0 {
            u
        } else {
            m
        }) by (nonlinear_arith)
            requires
                t == u * q + m,
                c == if m == 0 {
                    q
                } else {
                    q + 1
                },
        ;
    }
}

/// Whether every bin of a series can be held in 64 bits.
pub open spec fn bins_fit(presses: Seq<u32>, seconds: nat, unit: nat) -> bool {
    forall|i: nat|
        i < bin_count(seconds, unit) ==> #[trigger] bin_value(presses, seconds, unit, i)
            <= u64::MAX
}

/// Whether `bins` holds the bins of a series, one for one.
pub open spec fn holds_bins(bins: Seq<u64>, presses: Seq<u32>, seconds: nat, unit: nat) -> bool {
    &&& bins.len() == bin_count(seconds, unit)
    &&& forall|i: int|
        0 <= i < bins.len() ==> #[trigger] bins[i] as nat == bin_value(
            presses,
            seconds,
            unit,
            i as nat,
        )
}

/// A sum over steps is that over the first of them and that over the rest.
pub proof fn lemma_steps_sum_split(presses: Seq<u32>, lo: int, mid: int, hi: int)
    requires
        lo <= mid <= hi,
    ensures
        steps_sum(presses, lo, hi) == steps_sum(presses, lo, mid) + steps_sum(presses, mid, hi),
    decreases hi - mid,
{
    if mid < hi {
        lemma_steps_sum_split(presses, lo, mid, hi - 1);
    }
}

/// A sum over more steps is no smaller.
pub proof fn lemma_steps_sum_grows(presses: Seq<u32>, lo: int, mid: int, hi: int)
    requires
        mid <= hi,
    ensures
        steps_sum(presses, lo, mid) <= steps_sum(presses, lo, hi),
    decreases hi - mid,
{
    if mid < hi && lo < hi {
        lemma_steps_sum_grows(presses, lo, mid, hi - 1);
    }
}

/// The number of bins that `seconds` steps fill, `unit` steps to a bin.
pub fn count_bins(seconds: usize, unit: usize) -> (length: usize)
    requires
        unit >= 1,
    ensures
        length == bin_count(seconds as nat, unit as nat),
{
    proof {
        lemma_bin_count_bounds(seconds as nat, unit as nat);
    }
    if seconds == 0 {
        0
    } else {
        let whole: usize = (seconds - 1) / unit;
        proof {
            let u = unit as int;
            let t = seconds as int - 1;
            vstd::arithmetic::div_mod::lemma_fundamental_div_mod(t, u);
            vstd::arithmetic::div_mod::lemma_mod_bound(t, u);
            assert(t + u == (t / u + 1) * u + t % u) by (nonlinear_arith)
                requires
                    t == u * (t / u) + t % u,
            ;
            vstd::arithmetic::div_mod::lemma_fundamental_div_mod_converse(
                t + u,
                u,
                t / u + 1,
                t % u,
            );
        }
        whole + 1
    }
}

impl CurveConfig {
    /// A curve can be binned only with a unit of one step or more.
    pub open spec fn valid(&self) -> bool {
        self.unit >= 1
    }

    /// The number of steps that this curve looks at, given the length of its
    /// first sample.
    pub fn seconds(&self, first_len: usize) -> (seconds: usize)
        ensures
            seconds == span(first_len as nat, self.max_length as nat),
    {
        if self.max_length == 0 || first_len <= self.max_length {
            first_len
        } else {
            self.max_length
        }
    }

    /// The number of bins that `seconds` steps fill.
    pub fn length(&self, seconds: usize) -> (length: usize)
        requires
            self.valid(),
        ensures
            length == bin_count(seconds as nat, self.unit as nat),
    {
        count_bins(seconds, self.unit)
    }
}

impl Sample {
    /// Folds the first `seconds` steps of this sample into bins of `unit`
    /// steps, by summing. A sample that ends before `seconds` steps counts no
    /// presses at the steps it lacks. There is no result where a bin's sum
    /// cannot be held in 64 bits.
    pub fn bins(&self, seconds: usize, unit: usize) -> (bins: Option<Vec<u64>>)
        requires
            unit >= 1,
        ensures
            bins is Some <==> bins_fit(self@, seconds as nat, unit as nat),
            bins matches Some(b) ==> holds_bins(b@, self@, seconds as nat, unit as nat),
    {
        let length: usize = count_bins(seconds, unit);
        let mut bins: Vec<u64> = Vec::new();
        let mut lo: usize = 0;
        let mut i: usize = 0;
        while i < length
            invariant
                unit >= 1,
                length == bin_count(seconds as nat, unit as nat),
                i <= length,
                i < length ==> lo == bin_start(unit as nat, i as nat),
                bins@.len() == i,
                forall|k: int|
                    0 <= k < i ==> #[trigger] bins@[k] as nat == bin_value(
                        self@,
                        seconds as nat,
                        unit as nat,
                        k as nat,
                    ),
            decreases length - i,
        {
            proof {
                lemma_bin_starts_inside(seconds as nat, unit as nat, i as nat);
            }
            let hi: usize = if seconds - lo > unit {
                lo + unit
            } else {
                seconds
            };
            assert(hi == bin_end(seconds as nat, unit as nat, i as nat)) by {
                assert((i + 1) * unit == i * unit + unit) by (nonlinear_arith);
            }
            let mut sum: u64 = 0;
            let mut j: usize = lo;
            while j < hi
                invariant
                    lo <= j <= hi,
                    sum as nat == steps_sum(self@, lo as int, j as int),
                    i < length,
                    length == bin_count(seconds as nat, unit as nat),
                    lo == bin_start(unit as nat, i as nat),
                    hi == bin_end(seconds as nat, unit as nat, i as nat),
                decreases hi - j,
            {
                if j < self.presses.len() {
                    let pressed: u64 = self.presses[j] as u64;
                    match sum.checked_add(pressed) {
                        Some(more) => {
                            sum = more;
                        },
                        None => {
                            proof {
                                lemma_steps_sum_grows(self@, lo as int, j + 1, hi as int);
                                assert(bin_value(self@, seconds as nat, unit as nat, i as nat)
                                    > u64::MAX);
                            }
                            return None;
                        },
                    }
                }
                j += 1;
            }
            bins.push(sum);
            lo = hi;
            i += 1;
        }
        proof {
            assert forall|k: nat| k < bin_count(seconds as nat, unit as nat) implies #[trigger] bin_value(
                self@,
                seconds as nat,
                unit as nat,
                k,
            ) <= u64::MAX by {
                assert(bins@[k as int] as nat == bin_value(self@, seconds as nat, unit as nat, k));
            }
        }
        Some(bins)
    }
}

} // verus!
