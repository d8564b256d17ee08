use curve_stats::stats::{summarise, BinStat};

fn mean(stat: &BinStat) -> f64 {
    stat.total as f64 / stat.count as f64
}

/// `(n * Q - r^2) / (n * (n - 1))`
fn variance(stat: &BinStat) -> f64 {
    let n = stat.count as u128;
    let rest = stat.total % n;
    (n * stat.scatter - rest * rest) as f64 / (n * (n - 1)) as f64
}

fn standard_error(stat: &BinStat) -> f64 {
    (variance(stat) / stat.count as f64).sqrt()
}

#[test]
fn two_values() {
    let stat = summarise(&vec![6, 2]).unwrap();
    // mean 4: (6 - 4)^2 + (2 - 4)^2
    assert_eq!(stat, BinStat { count: 2, total: 8, scatter: 8 });
    assert_eq!(mean(&stat), 4.0);
    assert_eq!(variance(&stat), 8.0);
    assert_eq!(standard_error(&stat), 2.0);
}

#[test]
fn two_values_with_a_mean_between_whole_numbers() {
    let stat = summarise(&vec![3, 10]).unwrap();
    // mean 6.5, rounded down 6: (3 - 6)^2 + (10 - 6)^2
    assert_eq!(stat, BinStat { count: 2, total: 13, scatter: 25 });
    assert_eq!(mean(&stat), 6.5);
    // (3 - 6.5)^2 + (10 - 6.5)^2 = 24.5
    assert_eq!(variance(&stat), 24.5);
    assert_eq!(standard_error(&stat), (24.5f64 / 2.0).sqrt());
    assert_eq!(standard_error(&stat), 3.5);
}

#[test]
fn three_values() {
    let stat = summarise(&vec![1, 2, 6]).unwrap();
    // mean 3: 4 + 1 + 9
    assert_eq!(stat, BinStat { count: 3, total: 9, scatter: 14 });
    assert_eq!(mean(&stat), 3.0);
    // (4 + 1 + 9) / 2
    assert_eq!(variance(&stat), 7.0);
}

#[test]
fn three_values_with_a_rest() {
    let stat = summarise(&vec![0, 0, 2]).unwrap();
    // mean 2/3, rounded down 0: 0 + 0 + 4
    assert_eq!(stat, BinStat { count: 3, total: 2, scatter: 4 });
    // (4/9 + 4/9 + 16/9) / 2 = 4/3
    assert_eq!(variance(&stat), 8.0 / 6.0);
}

#[test]
fn equal_values_do_not_scatter() {
    assert_eq!(summarise(&vec![5, 5, 5, 5]), Some(BinStat { count: 4, total: 20, scatter: 0 }));
}

#[test]
fn the_order_of_the_values_does_not_count() {
    let one = summarise(&vec![1, 2, 6, 40]).unwrap();
    // mean rounded down 12: 121 + 100 + 36 + 784
    assert_eq!(one, BinStat { count: 4, total: 49, scatter: 1041 });
    assert_eq!(summarise(&vec![40, 1, 6, 2]), Some(one));
    assert_eq!(summarise(&vec![6, 40, 2, 1]), Some(one));
}

#[test]
fn one_value_and_none() {
    assert_eq!(summarise(&vec![7]), Some(BinStat { count: 1, total: 7, scatter: 0 }));
    assert_eq!(summarise(&vec![]), Some(BinStat { count: 0, total: 0, scatter: 0 }));
}

#[test]
fn values_that_a_counter_holds_always_fit() {
    let top = u32::MAX as u64;
    let mut values = vec![0u64; 3_000];
    values.extend(vec![top; 3_000]);
    let stat = summarise(&values).unwrap();
    assert_eq!(stat.count, 6_000);
    assert_eq!(stat.total, 3_000 * top as u128);
    // mean rounded down 2^31 - 1; 3000 * (2^31 - 1)^2 + 3000 * (2^31)^2
    let low = (1u128 << 31) - 1;
    let high = 1u128 << 31;
    assert_eq!(stat.scatter, 3_000 * low * low + 3_000 * high * high);
}

#[test]
fn the_largest_values_that_fit() {
    let stat = summarise(&vec![u64::MAX, u64::MAX]).unwrap();
    assert_eq!(stat, BinStat { count: 2, total: 2 * (u64::MAX as u128), scatter: 0 });
    let wide = summarise(&vec![1 << 63, 0]).unwrap();
    assert_eq!(wide.scatter, 1 << 125);
    let wider = summarise(&vec![u64::MAX, u64::MAX, 0, 0]).unwrap();
    assert_eq!(wider.scatter, u128::MAX - (1 << 65) + 3);
}

#[test]
fn a_scatter_beyond_128_bits() {
    assert_eq!(summarise(&vec![u64::MAX, u64::MAX, u64::MAX, 0, 0, 0]), None);
    assert_eq!(summarise(&vec![0, u64::MAX, 0, u64::MAX, 0, u64::MAX, 7]), None);
}

#[test]
fn the_standard_error_is_not_negative() {
    for values in [vec![0, 0], vec![0, 1], vec![9, 1, 4], vec![1000, 3, 3, 3, 77]] {
        let stat = summarise(&values).unwrap();
        assert!(variance(&stat) >= 0.0);
        assert!(standard_error(&stat) >= 0.0);
    }
}
