use curve_stats::curve::{CurveConfig, Sample};

fn sample(presses: &[u32]) -> Sample {
    Sample { presses: presses.to_vec() }
}

fn curve(unit: usize, max_length: usize) -> CurveConfig {
    CurveConfig { column_id: 0, unit, max_length }
}

#[test]
fn seconds_without_limit_is_the_first_length() {
    assert_eq!(curve(1, 0).seconds(7), 7);
    assert_eq!(curve(3, 0).seconds(0), 0);
}

#[test]
fn seconds_is_cut_to_the_limit() {
    assert_eq!(curve(1, 5).seconds(7), 5);
    assert_eq!(curve(1, 7).seconds(7), 7);
    assert_eq!(curve(1, 9).seconds(7), 7);
}

#[test]
fn length_rounds_up() {
    assert_eq!(curve(2, 0).length(4), 2);
    assert_eq!(curve(3, 0).length(4), 2);
    assert_eq!(curve(3, 0).length(7), 3);
    assert_eq!(curve(4, 0).length(4), 1);
    assert_eq!(curve(5, 0).length(4), 1);
    assert_eq!(curve(2, 0).length(0), 0);
}

#[test]
fn length_of_the_largest_span() {
    assert_eq!(curve(1, 0).length(usize::MAX), usize::MAX);
    assert_eq!(curve(usize::MAX, 0).length(usize::MAX), 1);
    assert_eq!(curve(usize::MAX, 0).length(usize::MAX - 1), 1);
    assert_eq!(curve(2, 0).length(usize::MAX), usize::MAX / 2 + 1);
}

#[test]
fn unit_of_one_keeps_every_step() {
    let s = sample(&[5, 0, 7, 1, 1]);
    let seconds = curve(1, 0).seconds(s.presses.len());
    assert_eq!(curve(1, 0).length(seconds), 5);
    assert_eq!(s.bins(seconds, 1), Some(vec![5, 0, 7, 1, 1]));
}

#[test]
fn bins_sum_their_steps() {
    assert_eq!(sample(&[2, 4, 6, 8]).bins(4, 2), Some(vec![6, 14]));
    assert_eq!(sample(&[0, 2, 4, 6]).bins(4, 2), Some(vec![2, 10]));
}

#[test]
fn last_bin_takes_what_is_left() {
    assert_eq!(sample(&[1, 2, 3, 4, 5, 6, 7]).bins(7, 3), Some(vec![6, 15, 7]));
    assert_eq!(sample(&[1, 2, 3, 4, 5]).bins(5, 4), Some(vec![10, 5]));
}

#[test]
fn steps_after_the_span_are_not_counted() {
    assert_eq!(sample(&[1, 2, 3, 4, 5, 6, 7]).bins(4, 3), Some(vec![6, 4]));
    assert_eq!(sample(&[9, 9, 9]).bins(0, 2), Some(vec![]));
}

#[test]
fn a_short_sample_counts_nothing_at_the_steps_it_lacks() {
    assert_eq!(sample(&[1, 2, 3]).bins(6, 2), Some(vec![3, 3, 0]));
    assert_eq!(sample(&[]).bins(4, 2), Some(vec![0, 0]));
}

#[test]
fn a_bin_holds_more_than_a_press_count_can() {
    let s = sample(&[u32::MAX, u32::MAX, u32::MAX]);
    assert_eq!(s.bins(3, 3), Some(vec![3 * (u32::MAX as u64)]));
}

#[test]
fn a_unit_wider_than_the_span_gives_one_bin() {
    assert_eq!(sample(&[1, 2, 3]).bins(3, usize::MAX), Some(vec![6]));
}
