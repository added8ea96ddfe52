use hdrfix::histogram::Histogram;
use hdrfix::histogram::PERCENT_SCALE;
use hdrfix::histogram::sort_ascending;

#[test]
fn sort_orders_and_keeps_values() {
    let input: Vec<u32> = vec![5, 3, 9, 1, 3, 7];
    let out = sort_ascending(&input);
    assert_eq!(out, vec![1, 3, 3, 5, 7, 9]);
}

#[test]
fn sort_of_empty_is_empty() {
    let input: Vec<u32> = Vec::new();
    assert_eq!(sort_ascending(&input), Vec::<u32>::new());
}

#[test]
fn percentile_endpoints_are_min_and_max() {
    let h = Histogram::new(&vec![40, 10, 30, 20]);
    assert_eq!(h.percentile(0), 10);
    assert_eq!(h.percentile(100 * PERCENT_SCALE), 40);
}

#[test]
fn percentile_is_monotone_and_drawn_from_samples() {
    let samples: Vec<u32> = vec![17, 2, 95, 43, 8, 61, 29, 74, 50, 36];
    let h = Histogram::new(&samples);
    let mut prev = h.percentile(0);
    for p in 0..=100u64 {
        let v = h.percentile(p * PERCENT_SCALE);
        assert!(prev <= v);
        assert!(samples.contains(&v));
        prev = v;
    }
}

#[test]
fn percentile_uses_the_order_statistic_index() {
    // ten samples of a known uniform ladder: rank p selects index
    // floor((n - 1) * p / 100)
    let samples: Vec<u32> = vec![10, 20, 30, 40, 50, 60, 70, 80, 90, 100];
    let h = Histogram::new(&samples);
    // floor(9 * 0.10) = 0 -> first value
    assert_eq!(h.percentile(10 * PERCENT_SCALE), 10);
    // floor(9 * 0.90) = 8 -> ninth value
    assert_eq!(h.percentile(90 * PERCENT_SCALE), 90);
    // floor(9 * 0.50) = 4 -> fifth value
    assert_eq!(h.percentile(50 * PERCENT_SCALE), 50);
}

#[test]
fn percentile_on_single_sample() {
    let h = Histogram::new(&vec![77]);
    assert_eq!(h.percentile(0), 77);
    assert_eq!(h.percentile(50 * PERCENT_SCALE), 77);
    assert_eq!(h.percentile(100 * PERCENT_SCALE), 77);
}

#[test]
fn fractional_rank_floors_the_index() {
    let samples: Vec<u32> = vec![1, 2, 3, 4];
    let h = Histogram::new(&samples);
    // (4 - 1) * 0.4 = 1.2 -> index 1
    assert_eq!(h.percentile(40 * PERCENT_SCALE), 2);
    // (4 - 1) * 0.5 = 1.5 -> still index 1
    assert_eq!(h.percentile(50 * PERCENT_SCALE), 2);
    // (4 - 1) * 0.67 = 2.01 -> index 2
    assert_eq!(h.percentile(67 * PERCENT_SCALE), 3);
}

#[test]
fn sort_handles_longer_descending_and_duplicated_input() {
    let input: Vec<u32> = (0..100u32).rev().chain(0..50u32).collect();
    let out = sort_ascending(&input);
    assert_eq!(out.len(), 150);
    for w in out.windows(2) {
        assert!(w[0] <= w[1]);
    }
    // every value below fifty appears twice, the rest once
    for v in 0..100u32 {
        let expected = if v < 50 { 2 } else { 1 };
        assert_eq!(out.iter().filter(|&&x| x == v).count(), expected);
    }
}
