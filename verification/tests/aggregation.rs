use curve_stats::aggregate::{aggregate_curves, parse_column_data};
use curve_stats::curve::{CurveConfig, Sample};
use curve_stats::failure::{Failure, FailureKind};
use curve_stats::stats::BinStat;
use curve_stats::table::valid_samples;

fn sample(presses: &[u32]) -> Sample {
    Sample { presses: presses.to_vec() }
}

fn curve(column_id: usize, unit: usize, max_length: usize) -> CurveConfig {
    CurveConfig { column_id, unit, max_length }
}

fn stat(count: usize, total: u128, scatter: u128) -> BinStat {
    BinStat { count, total, scatter }
}

#[test]
fn end_to_end_two_samples() {
    let samples = vec![sample(&[2, 4, 6, 8]), sample(&[0, 2, 4, 6])];
    let found = parse_column_data(&samples, &curve(1, 2, 0)).unwrap();
    assert_eq!(found.bins, vec![vec![6, 14], vec![2, 10]]);
    assert_eq!(found.stats, vec![stat(2, 8, 8), stat(2, 24, 8)]);
    let stats = found.stats;
    let average: Vec<f64> = stats.iter().map(|s| s.total as f64 / s.count as f64).collect();
    assert_eq!(average, vec![4.0, 12.0]);
    let variance: Vec<f64> = stats
        .iter()
        .map(|s| {
            let n = s.count as u128;
            let rest = s.total % n;
            (n * s.scatter - rest * rest) as f64 / (n * (n - 1)) as f64
        })
        .collect();
    assert_eq!(variance, vec![8.0, 8.0]);
    let standard_error: Vec<f64> =
        stats.iter().zip(&variance).map(|(s, v)| (v / s.count as f64).sqrt()).collect();
    assert_eq!(standard_error, vec![2.0, 2.0]);
}

#[test]
fn end_to_end_in_two_passes_over_the_bins() {
    let samples = vec![sample(&[2, 4, 6, 8]), sample(&[0, 2, 4, 6])];
    let found = parse_column_data(&samples, &curve(1, 2, 0)).unwrap();
    let n = found.bins.len() as f64;
    let mut average = vec![0.0f64; found.stats.len()];
    for row in &found.bins {
        for (i, value) in row.iter().enumerate() {
            average[i] += *value as f64 / n;
        }
    }
    let mut error = vec![0.0f64; found.stats.len()];
    for row in &found.bins {
        for (i, value) in row.iter().enumerate() {
            error[i] += (*value as f64 - average[i]).powi(2) / (n - 1.0);
        }
    }
    for e in error.iter_mut() {
        *e = (*e / n).sqrt();
    }
    assert_eq!(average, vec![4.0, 12.0]);
    assert_eq!(error, vec![2.0, 2.0]);
}

#[test]
fn one_bin_per_step_without_limit() {
    let samples = vec![sample(&[1, 2, 3, 4, 5]), sample(&[5, 4, 3, 2, 1])];
    let stats = parse_column_data(&samples, &curve(0, 1, 0)).unwrap().stats;
    assert_eq!(stats.len(), 5);
    assert_eq!(stats[0], stat(2, 6, 8));
    assert_eq!(stats[2], stat(2, 6, 0));
}

#[test]
fn the_limit_cuts_the_steps() {
    let samples = vec![sample(&[1, 2, 3, 4, 5]), sample(&[5, 4, 3, 2, 1])];
    let found = parse_column_data(&samples, &curve(0, 2, 3)).unwrap();
    assert_eq!(found.bins, vec![vec![3, 3], vec![9, 3]]);
    assert_eq!(found.stats, vec![stat(2, 12, 18), stat(2, 6, 0)]);
    let longer = parse_column_data(&samples, &curve(0, 2, 50)).unwrap();
    assert_eq!(longer.stats.len(), 3);
}

#[test]
fn the_first_sample_sets_the_span() {
    let samples = vec![sample(&[1, 1]), sample(&[1, 1, 7, 7])];
    assert_eq!(parse_column_data(&samples, &curve(0, 1, 0)).unwrap().stats.len(), 2);
    let turned = vec![sample(&[1, 1, 7, 7]), sample(&[1, 1])];
    let found = parse_column_data(&turned, &curve(0, 1, 0)).unwrap();
    assert_eq!(found.bins, vec![vec![1, 1, 7, 7], vec![1, 1, 0, 0]]);
    // values 7 and 0: mean rounded down 3, (7 - 3)^2 + (0 - 3)^2
    assert_eq!(found.stats, vec![stat(2, 2, 0), stat(2, 2, 0), stat(2, 7, 25), stat(2, 7, 25)]);
}

#[test]
fn the_order_of_the_samples_does_not_count() {
    let a = sample(&[3, 1, 4, 1, 5]);
    let b = sample(&[9, 2, 6, 5, 3]);
    let c = sample(&[5, 8, 9, 7, 9]);
    let one =
        parse_column_data(&vec![a.clone(), b.clone(), c.clone()], &curve(0, 2, 0)).unwrap().stats;
    let other = parse_column_data(&vec![c, a, b], &curve(0, 2, 0)).unwrap().stats;
    assert_eq!(one, other);
    let sum_of_means: f64 = one.iter().map(|s| s.total as f64 / s.count as f64).sum();
    assert_eq!(sum_of_means, 77.0 / 3.0);
}

#[test]
fn fewer_than_two_samples() {
    let none: Vec<Sample> = vec![];
    assert!(matches!(
        parse_column_data(&none, &curve(4, 1, 0)),
        Err(Failure::NotEnoughData { column_id: 4 })
    ));
    assert!(matches!(
        parse_column_data(&vec![sample(&[1, 2])], &curve(4, 1, 0)),
        Err(Failure::NotEnoughData { column_id: 4 })
    ));
}

#[test]
fn no_step_to_look_at() {
    let samples = vec![sample(&[]), sample(&[1, 2])];
    let failure = parse_column_data(&samples, &curve(6, 1, 0)).unwrap_err();
    assert!(matches!(failure, Failure::EmptyData { column_id: 6 }));
    assert_eq!(failure.kind(), FailureKind::InvalidConfiguration);
    let limited = parse_column_data(&samples, &curve(6, 1, 3)).unwrap_err();
    assert!(matches!(limited, Failure::EmptyData { column_id: 6 }));
}

#[test]
fn too_few_samples_is_told_before_an_empty_span() {
    let failure = parse_column_data(&vec![sample(&[])], &curve(2, 1, 0)).unwrap_err();
    assert!(matches!(failure, Failure::NotEnoughData { column_id: 2 }));
}

#[test]
fn a_unit_of_no_step() {
    let samples = vec![sample(&[1, 2]), sample(&[3, 4])];
    let failure = parse_column_data(&samples, &curve(8, 0, 0)).unwrap_err();
    assert!(matches!(failure, Failure::ZeroUnit { column_id: 8 }));
    assert_eq!(failure.kind(), FailureKind::InvalidConfiguration);
}

#[test]
fn a_unit_of_no_step_is_told_last() {
    let few = parse_column_data(&vec![sample(&[1, 2])], &curve(8, 0, 0)).unwrap_err();
    assert!(matches!(few, Failure::NotEnoughData { column_id: 8 }));
    let empty = parse_column_data(&vec![sample(&[]), sample(&[1])], &curve(8, 0, 0)).unwrap_err();
    assert!(matches!(empty, Failure::EmptyData { column_id: 8 }));
}

#[test]
fn many_samples_of_the_largest_counts() {
    let mut samples = vec![sample(&[0]); 2_000];
    samples.extend(vec![sample(&[u32::MAX]); 2_000]);
    let found = parse_column_data(&samples, &curve(0, 1, 0)).unwrap();
    let top = u32::MAX as u128;
    let low = (1u128 << 31) - 1;
    let high = 1u128 << 31;
    assert_eq!(
        found.stats,
        vec![stat(4_000, 2_000 * top, 2_000 * low * low + 2_000 * high * high)]
    );
}

#[test]
fn samples_that_were_decoded_are_kept_in_order() {
    let cells = vec![Some(sample(&[1])), None, Some(sample(&[2, 2])), None, Some(sample(&[3]))];
    assert_eq!(valid_samples(&cells), vec![sample(&[1]), sample(&[2, 2]), sample(&[3])]);
    assert_eq!(valid_samples(&vec![None, None]), vec![]);
    assert_eq!(valid_samples(&vec![]), vec![]);
}

#[test]
fn a_row_counts_for_each_curve_by_itself() {
    // Three rows; the second row's cell did not decode for the first curve.
    let decoded = vec![
        vec![Some(sample(&[1, 1])), None, Some(sample(&[3, 3]))],
        vec![Some(sample(&[2, 0])), Some(sample(&[4, 0])), Some(sample(&[6, 0]))],
    ];
    let curves = vec![curve(0, 1, 0), curve(1, 1, 0)];
    let found = aggregate_curves(&decoded, &curves).unwrap();
    // values 1 and 3: (1 - 2)^2 + (3 - 2)^2
    assert_eq!(found[0].stats, vec![stat(2, 4, 2), stat(2, 4, 2)]);
    assert_eq!(found[0].bins, vec![vec![1, 1], vec![3, 3]]);
    // values 2, 4 and 6: (2 - 4)^2 + (4 - 4)^2 + (6 - 4)^2
    assert_eq!(found[1].stats, vec![stat(3, 12, 8), stat(3, 0, 0)]);
}

#[test]
fn no_curve_is_a_failure() {
    let failure = aggregate_curves(&vec![], &vec![]).unwrap_err();
    assert!(matches!(failure, Failure::NoCurves));
    assert_eq!(failure.kind(), FailureKind::InvalidConfiguration);
}

#[test]
fn the_first_curve_that_fails_is_reported() {
    let good = vec![Some(sample(&[1, 2])), Some(sample(&[3, 4]))];
    let empty = vec![Some(sample(&[])), Some(sample(&[3, 4]))];
    let few = vec![Some(sample(&[1, 2])), None];
    let curves = vec![curve(10, 1, 0), curve(11, 1, 0), curve(12, 1, 0)];
    let failure = aggregate_curves(&vec![good.clone(), empty.clone(), few.clone()], &curves).unwrap_err();
    assert!(matches!(failure, Failure::EmptyData { column_id: 11 }));
    let failure = aggregate_curves(&vec![good.clone(), few, empty], &curves).unwrap_err();
    assert!(matches!(failure, Failure::NotEnoughData { column_id: 11 }));
    let all = aggregate_curves(&vec![good.clone(), good.clone(), good], &curves).unwrap();
    assert_eq!(all.len(), 3);
    assert_eq!(all[0], all[2]);
}
