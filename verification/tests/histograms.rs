use histdiff::histograms::{Hist1D, Reading};
use histdiff::profile::Ratio;

/// The key of a value: an integer ordered as the values are.
fn key(v: f64) -> i64 {
    histdiff::keys::key_of_bits(v.to_bits())
}

/// A value on its way into a histogram over `low..high` with `nbins` bins.
fn reading(v: f64, low: f64, high: f64, nbins: usize) -> Option<Reading> {
    let value = histdiff::keys::finite_key(v.to_bits())?;
    let width = (high - low) / nbins as f64;
    Some(Reading { value, offset: ((v - low) / width) as usize })
}

fn readings(values: &[f64], low: f64, high: f64, nbins: usize) -> Vec<Option<Reading>> {
    values.iter().map(|&v| reading(v, low, high, nbins)).collect()
}

#[test]
fn test_hist1d_creation() {
    let nbins = 20;
    let xlow = 0.0;
    let xhigh = 1.0;
    let hist = Hist1D::new(nbins, key(xlow), key(xhigh));

    assert_eq!(hist.nbins(), nbins);
    assert_eq!(hist.xlow(), key(xlow));
    assert_eq!(hist.xhigh(), key(xhigh));
    assert_eq!(hist.data().scale, 1);
    assert_eq!(hist.data().parts.len(), nbins);

    // Check that counts are initialized to zero
    assert!(hist.data().parts.iter().all(|&count| count == 0));
}

#[test]
fn test_hist1d_fill() {
    let mut hist = Hist1D::new(5, key(0.0), key(1.0));
    let data = vec![0.1, 0.2, 0.3, 0.4, 0.5];

    hist.fill(&readings(&data, 0.0, 1.0, 5));

    // Expected bin counts after filling
    let expected_counts = vec![1, 2, 2, 0, 0];
    println!("expected: {:?}\noutput: {:?}", expected_counts, hist.data().parts);
    assert_eq!(hist.data().parts, expected_counts);
}

#[test]
fn test_hist1d_fill_various_bins() {
    let mut hist = Hist1D::new(5, key(0.0), key(1.0));
    let data = vec![
        0.0,  // Lower bound
        0.2,  // Bin 1
        0.4,  // Bin 2
        0.6,  // Bin 3
        0.8,  // Bin 4
        1.0,  // Upper bound (should be in last bin)
        -0.1, // Below range
        1.1,  // Above range
    ];

    hist.fill(&readings(&data, 0.0, 1.0, 5));

    let expected_counts = vec![1, 1, 2, 0, 2];
    assert_eq!(hist.data().parts, expected_counts);
}

#[test]
fn value_at_high_end_goes_to_last_bin_whatever_its_offset() {
    let mut hist = Hist1D::new(4, 10, 20);
    hist.fill(&[Some(Reading { value: 20, offset: 0 })]);
    assert_eq!(hist.data().parts, vec![0, 0, 0, 1]);
}

#[test]
fn value_in_range_with_offset_past_the_end_goes_to_last_bin() {
    let mut hist = Hist1D::new(4, 10, 20);
    hist.fill(&[Some(Reading { value: 19, offset: 4 }), Some(Reading { value: 19, offset: 900 })]);
    assert_eq!(hist.data().parts, vec![0, 0, 0, 2]);
}

#[test]
fn values_outside_and_missing_are_dropped() {
    let mut hist = Hist1D::new(3, 10, 20);
    hist.fill(&[
        Some(Reading { value: 9, offset: 0 }),
        Some(Reading { value: 21, offset: 2 }),
        None,
        Some(Reading { value: 10, offset: 0 }),
    ]);
    assert_eq!(hist.data().parts, vec![1, 0, 0]);
}

#[test]
fn histogram_without_bins_takes_nothing() {
    let mut hist = Hist1D::new(0, 10, 20);
    hist.fill(&[Some(Reading { value: 15, offset: 0 }), Some(Reading { value: 20, offset: 0 })]);
    assert_eq!(hist.data().parts.len(), 0);
}

#[test]
fn negative_zero_counts_as_zero() {
    let mut hist = Hist1D::new(5, key(0.0), key(1.0));
    hist.fill(&readings(&[-0.0], 0.0, 1.0, 5));
    assert_eq!(hist.data().parts, vec![1, 0, 0, 0, 0]);
}

#[test]
fn add_sums_bin_by_bin() {
    let mut a = Hist1D::new(3, 0, 30);
    let mut b = Hist1D::new(3, 0, 30);
    a.fill(&[Some(Reading { value: 1, offset: 0 }), Some(Reading { value: 11, offset: 1 })]);
    b.fill(&[Some(Reading { value: 12, offset: 1 }), Some(Reading { value: 30, offset: 9 })]);
    a.add(&b);
    assert_eq!(a.data().parts, vec![1, 2, 1]);
    assert_eq!(a.data().scale, 1);
    assert_eq!(b.data().parts, vec![0, 1, 1]);
}

#[test]
fn smooth_then_normalize_gives_shares() {
    let mut h = Hist1D::new(3, 0, 30);
    h.fill(&[
        Some(Reading { value: 1, offset: 0 }),
        Some(Reading { value: 11, offset: 1 }),
        Some(Reading { value: 12, offset: 1 }),
        Some(Reading { value: 13, offset: 1 }),
    ]);
    assert_eq!(h.data().parts, vec![1, 3, 0]);
    h.smooth(Ratio { num: 1, den: 4 });
    // 1 + (3 - 1) / 4, 3 + (1 - 3) / 4 + (0 - 3) / 4, 0 + (3 - 0) / 4, each times 4
    assert_eq!(h.data().parts, vec![6, 7, 3]);
    assert_eq!(h.data().scale, 4);
    h.normalize();
    assert_eq!(h.data().parts, vec![6, 7, 3]);
    assert_eq!(h.data().scale, 16);
    h.normalize();
    assert_eq!(h.data().parts, vec![6, 7, 3]);
    assert_eq!(h.data().scale, 16);
}

#[test]
fn normalizing_an_empty_histogram_leaves_zeros() {
    let mut h = Hist1D::new(4, 0, 8);
    h.normalize();
    assert_eq!(h.data().parts, vec![0, 0, 0, 0]);
    assert_eq!(h.data().scale, 1);
}

#[test]
fn duplicate_is_independent() {
    let mut h = Hist1D::new(2, 0, 8);
    let copy = h.duplicate();
    h.fill(&[Some(Reading { value: 0, offset: 0 })]);
    assert_eq!(h.data().parts, vec![1, 0]);
    assert_eq!(copy.data().parts, vec![0, 0]);
}

#[test]
fn histogram_is_smoothed_with_any_weight() {
    let mut h = Hist1D::new(3, 0, 30);
    h.fill(&[
        Some(Reading { value: 11, offset: 1 }),
        Some(Reading { value: 12, offset: 1 }),
    ]);
    assert_eq!(h.data().parts, vec![0, 2, 0]);
    h.smooth(Ratio { num: 3, den: 4 });
    // 0 + 3/4 * 2, 2 - 3/4 * 2 - 3/4 * 2, 0 + 3/4 * 2, each times 4
    assert_eq!(h.data().parts, vec![6, -4, 6]);
    assert_eq!(h.data().scale, 4);
    h.normalize();
    assert_eq!(h.data().parts, vec![6, -4, 6]);
    assert_eq!(h.data().scale, 8);
    let mut g = Hist1D::new(2, 0, 30);
    g.fill(&[Some(Reading { value: 1, offset: 0 })]);
    g.smooth(Ratio { num: -1, den: 1 });
    assert_eq!(g.data().parts, vec![2, -1]);
}
