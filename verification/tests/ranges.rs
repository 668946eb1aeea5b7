use histdiff::histograms::MinMax;
use histdiff::ranges::{
    get_min_max_plate, scan_plate, widens, MinMaxPlateResult, PlateScan, RangeScanner, ScanError,
};

fn key(v: f64) -> i64 {
    histdiff::keys::key_of_bits(v.to_bits())
}

fn value(k: i64) -> f64 {
    f64::from_bits(histdiff::keys::bits_of_key(k))
}

fn cell(text: &str) -> Option<u64> {
    text.parse::<f64>().ok().map(|v| v.to_bits())
}

fn row(texts: &[&str]) -> Vec<Option<u64>> {
    texts.iter().map(|t| cell(t)).collect()
}

fn names(texts: &[&str]) -> Vec<String> {
    texts.iter().map(|t| t.to_string()).collect()
}

/// The high end that a range of the single value `low` gets.
fn widened(low: f64) -> f64 {
    if low != 0.0 {
        low + low * 0.5
    } else {
        low + 1.0
    }
}

/// The ranges of a scan, each constant feature widened as a caller does it.
fn finish(scan: &PlateScan) -> MinMaxPlateResult {
    let highs: Vec<u64> =
        scan.min_max.iter().map(|(_, m)| widened(value(m.xlow)).to_bits()).collect();
    get_min_max_plate(scan, &highs).unwrap()
}

/// Both steps: the scan of a table, and the ranges from it.
fn ranges(headers: &[String], id_cols: &[String], rows: &[Vec<Option<u64>>]) -> MinMaxPlateResult {
    finish(&scan_plate(headers, id_cols, rows).unwrap())
}

#[test]
fn ranges_are_least_and_greatest_value() {
    let headers = names(&["id", "a", "b"]);
    let rows = vec![
        row(&["A1", "1.5", "-3"]),
        row(&["A2", "0.5", "x"]),
        row(&["B1", "2.5", "4"]),
        row(&["B2", "NaN", "inf"]),
    ];
    let result = scan_plate(&headers, &names(&["id"]), &rows).unwrap();
    assert_eq!(result.features, names(&["a", "b"]));
    assert_eq!(result.min_max.len(), 2);
    assert_eq!(result.min_max[0].0, "a");
    assert_eq!(value(result.min_max[0].1.xlow), 0.5);
    assert_eq!(value(result.min_max[0].1.xhigh), 2.5);
    assert_eq!(result.min_max[1].0, "b");
    assert_eq!(value(result.min_max[1].1.xlow), -3.0);
    assert_eq!(value(result.min_max[1].1.xhigh), 4.0);
    assert!(result.problemativ_features.is_none());
    assert_eq!(result.skipped_rows, 0);
}

#[test]
fn range_widening() {
    let headers = names(&["id", "five", "zero", "spread"]);
    let rows = vec![row(&["A1", "5.0", "0.0", "1"]), row(&["A2", "5.0", "0", "3"])];
    let result = ranges(&headers, &names(&["id"]), &rows);
    assert_eq!(result.features, names(&["five", "zero", "spread"]));
    assert!(result.problemativ_features.is_none());
    assert_eq!(value(result.min_max[0].1.xlow), 5.0);
    assert_eq!(value(result.min_max[0].1.xhigh), 7.5);
    assert_eq!(value(result.min_max[1].1.xlow), 0.0);
    assert_eq!(value(result.min_max[1].1.xhigh), 1.0);
    assert_eq!(value(result.min_max[2].1.xlow), 1.0);
    assert_eq!(value(result.min_max[2].1.xhigh), 3.0);
}

#[test]
fn widening_leaves_names_and_other_fields() {
    let scan = PlateScan {
        min_max: vec![
            ("a".to_string(), MinMax { xlow: 4, xhigh: 4 }),
            ("b".to_string(), MinMax { xlow: 4, xhigh: 9 }),
        ],
        features: names(&["a", "b"]),
        problemativ_features: Some(names(&["c"])),
        skipped_rows: 3,
    };
    let result = get_min_max_plate(&scan, &[100, 200]).unwrap();
    assert_eq!(result.min_max[0].0, "a");
    assert_eq!(result.min_max[0].1.xlow, 4);
    assert_eq!(result.min_max[0].1.xhigh, 100);
    assert_eq!(result.min_max[1].0, "b");
    assert_eq!(result.min_max[1].1.xlow, 4);
    assert_eq!(result.min_max[1].1.xhigh, 9);
    assert_eq!(result.features, names(&["a", "b"]));
    assert_eq!(result.problemativ_features, Some(names(&["c"])));
    assert_eq!(result.skipped_rows, 3);
}

#[test]
fn feature_of_one_value_needs_a_high_end_of_its_own() {
    let scan = PlateScan {
        min_max: vec![
            ("a".to_string(), MinMax { xlow: key(5.0), xhigh: key(5.0) }),
            ("b".to_string(), MinMax { xlow: key(1.0), xhigh: key(2.0) }),
        ],
        features: names(&["a", "b"]),
        problemativ_features: None,
        skipped_rows: 0,
    };
    let bits = |v: f64| v.to_bits();
    assert!(get_min_max_plate(&scan, &[bits(7.5), bits(0.0)]).is_ok());
    assert!(get_min_max_plate(&scan, &[bits(-7.5), bits(f64::NAN)]).is_ok());
    for highs in [
        vec![bits(5.0), bits(3.0)],
        vec![bits(f64::NAN), bits(3.0)],
        vec![bits(7.5)],
        vec![bits(7.5), bits(3.0), bits(3.0)],
        vec![],
    ] {
        assert_eq!(get_min_max_plate(&scan, &highs).unwrap_err(), ScanError::NoHighEnd);
    }
}

#[test]
fn feature_without_values_is_problematic() {
    let headers = names(&["id", "a", "empty", "b", "void"]);
    let rows = vec![row(&["A1", "1", "", "2", "NaN"]), row(&["A2", "3", "n/a", "4", "inf"])];
    let result = scan_plate(&headers, &names(&["id"]), &rows).unwrap();
    assert_eq!(result.features, names(&["a", "b"]));
    assert_eq!(result.min_max.len(), 2);
    assert_eq!(result.min_max[1].0, "b");
    assert_eq!(result.problemativ_features, Some(names(&["empty", "void"])));
}

#[test]
fn missing_id_column_is_an_error() {
    let headers = names(&["well", "a"]);
    let rows = vec![row(&["A1", "1"])];
    let got = scan_plate(&headers, &names(&["id"]), &rows);
    assert_eq!(got.unwrap_err(), ScanError::MissingIdColumn);
    assert!(RangeScanner::new(&headers, &names(&["well", "id"])).is_err());
}

#[test]
fn malformed_rows_are_skipped_and_counted() {
    let headers = names(&["id", "a"]);
    let rows = vec![
        row(&["A1", "1"]),
        row(&["A2", "100", "7"]),
        row(&["A3"]),
        row(&["A4", "2"]),
    ];
    let result = scan_plate(&headers, &names(&["id"]), &rows).unwrap();
    assert_eq!(value(result.min_max[0].1.xlow), 1.0);
    assert_eq!(value(result.min_max[0].1.xhigh), 2.0);
    assert_eq!(result.skipped_rows, 2);
}

#[test]
fn id_columns_are_no_features_wherever_they_stand() {
    let headers = names(&["a", "plate", "b", "well"]);
    let rows = vec![row(&["1", "7", "2", "3"]), row(&["5", "8", "6", "4"])];
    let result = scan_plate(&headers, &names(&["well", "plate"]), &rows).unwrap();
    assert_eq!(result.features, names(&["a", "b"]));
}

#[test]
fn columns_of_one_name_share_one_range() {
    let headers = names(&["id", "a", "a"]);
    let rows = vec![row(&["A1", "1", "10"]), row(&["A2", "2", "20"])];
    let result = scan_plate(&headers, &names(&["id"]), &rows).unwrap();
    assert_eq!(result.features, names(&["a", "a"]));
    for k in 0..2 {
        assert_eq!(value(result.min_max[k].1.xlow), 1.0);
        assert_eq!(value(result.min_max[k].1.xhigh), 20.0);
    }
}

#[test]
fn scanner_takes_rows_one_by_one() {
    let headers = names(&["id", "a"]);
    let mut scanner = RangeScanner::new(&headers, &names(&["id"])).unwrap();
    scanner.observe(&row(&["A1", "-1"]));
    scanner.observe(&row(&["A1", "-4"]));
    scanner.observe(&row(&["A1", "-2"]));
    let result = scanner.finish();
    assert_eq!(value(result.min_max[0].1.xlow), -4.0);
    assert_eq!(value(result.min_max[0].1.xhigh), -1.0);
}

#[test]
fn order_of_rows_does_not_change_ranges() {
    let headers = names(&["id", "a", "b"]);
    let rows = vec![
        row(&["A1", "3", "9"]),
        row(&["A2", "1", "x"]),
        row(&["A3", "2", "-9"]),
    ];
    let mut turned = rows.clone();
    turned.reverse();
    let one = scan_plate(&headers, &names(&["id"]), &rows).unwrap();
    let other = scan_plate(&headers, &names(&["id"]), &turned).unwrap();
    assert_eq!(one.features, other.features);
    for k in 0..one.min_max.len() {
        assert_eq!(one.min_max[k].1.xlow, other.min_max[k].1.xlow);
        assert_eq!(one.min_max[k].1.xhigh, other.min_max[k].1.xhigh);
    }
}

#[test]
fn table_without_rows_has_only_problematic_features() {
    let headers = names(&["id", "a"]);
    let result = scan_plate(&headers, &names(&["id"]), &[]).unwrap();
    assert!(result.features.is_empty());
    assert!(result.min_max.is_empty());
    assert_eq!(result.problemativ_features, Some(names(&["a"])));
}

#[test]
fn range_of_zero_alone_is_widened_to_one_whatever_is_handed_in() {
    let headers = names(&["id", "zero", "minus"]);
    let rows = vec![row(&["A1", "0.0", "-0.0"]), row(&["A2", "-0.0", "-0.0"])];
    let scan = scan_plate(&headers, &names(&["id"]), &rows).unwrap();
    let result = get_min_max_plate(&scan, &[f64::NAN.to_bits(), 0.0f64.to_bits()]).unwrap();
    for k in 0..2 {
        assert_eq!(value(result.min_max[k].1.xlow), 0.0);
        assert_eq!(value(result.min_max[k].1.xhigh), 1.0);
    }
}

#[test]
fn negative_constant_is_widened_downwards() {
    let headers = names(&["id", "a"]);
    let rows = vec![row(&["A1", "-5"])];
    let result = ranges(&headers, &names(&["id"]), &rows);
    assert_eq!(value(result.min_max[0].1.xlow), -5.0);
    assert_eq!(value(result.min_max[0].1.xhigh), -7.5);
}

#[test]
fn high_end_has_to_be_another_number() {
    let five = MinMax { xlow: key(5.0), xhigh: key(5.0) };
    assert!(widens(&five, 7.5f64.to_bits()));
    assert!(widens(&five, f64::INFINITY.to_bits()));
    assert!(widens(&five, (-7.5f64).to_bits()));
    assert!(!widens(&five, 5.0f64.to_bits()));
    assert!(!widens(&five, f64::NAN.to_bits()));
    let zero = MinMax { xlow: 0, xhigh: 0 };
    assert!(widens(&zero, f64::NAN.to_bits()));
    let spread = MinMax { xlow: key(1.0), xhigh: key(2.0) };
    assert!(widens(&spread, f64::NAN.to_bits()));
    // Half of the least positive value rounds to zero: the value stays as it is.
    let least = f64::from_bits(1);
    assert!(!widens(&MinMax { xlow: key(least), xhigh: key(least) }, widened(least).to_bits()));
}

#[test]
fn no_range_is_left_with_one_value() {
    let headers = names(&["id", "a", "b", "c", "d"]);
    let rows = vec![row(&["A1", "5", "0", "-2", "1"]), row(&["A2", "5", "0", "-2", "3"])];
    let result = ranges(&headers, &names(&["id"]), &rows);
    for (_, range) in &result.min_max {
        assert_ne!(range.xlow, range.xhigh);
    }
}
