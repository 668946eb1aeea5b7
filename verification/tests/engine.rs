use histdiff::accumulate::{Accumulator, CalcError, Row};
use histdiff::calc::calculate_scores;
use histdiff::histograms::{Measure, MinMax};
use histdiff::ranges::{get_min_max_plate, scan_plate, MinMaxPlateResult};
use histdiff::score::Score;
use histdiff::table::ResultTable;

fn value(k: i64) -> f64 {
    f64::from_bits(histdiff::keys::bits_of_key(k))
}

fn names(texts: &[&str]) -> Vec<String> {
    texts.iter().map(|t| t.to_string()).collect()
}

fn number(s: &Score) -> f64 {
    let magnitude = s.num as f64 / s.den as f64;
    if s.negative {
        -magnitude
    } else {
        magnitude
    }
}

/// Both passes over a table of text, as a program around the library makes them.
struct Table {
    headers: Vec<String>,
    records: Vec<Vec<String>>,
}

impl Table {
    fn new(headers: &[&str], records: &[&[&str]]) -> Table {
        Table { headers: names(headers), records: records.iter().map(|r| names(r)).collect() }
    }

    fn scan(&self, id_cols: &[String]) -> MinMaxPlateResult {
        let cells: Vec<Vec<Option<u64>>> = self
            .records
            .iter()
            .map(|r| r.iter().map(|t| t.parse::<f64>().ok().map(|v| v.to_bits())).collect())
            .collect();
        let scan = scan_plate(&self.headers, id_cols, &cells).unwrap();
        let highs: Vec<u64> = scan
            .min_max
            .iter()
            .map(|(_, m)| {
                let low = value(m.xlow);
                (if low != 0.0 { low + low * 0.5 } else { low + 1.0 }).to_bits()
            })
            .collect();
        get_min_max_plate(&scan, &highs).unwrap()
    }

    fn rows(&self, ranges: &MinMaxPlateResult, nbins: usize) -> Vec<Row> {
        self.records
            .iter()
            .map(|r| Row {
                fields: r.clone(),
                readings: r
                    .iter()
                    .enumerate()
                    .map(|(i, t)| {
                        let name = self.headers.get(i)?;
                        let range = ranges.min_max.iter().find(|(f, _)| f == name)?.1;
                        let v = t.parse::<f64>().ok()?;
                        let low = value(range.xlow);
                        let width = (value(range.xhigh) - low) / nbins as f64;
                        Some(Measure { bits: v.to_bits(), offset: ((v - low) / width) as usize })
                    })
                    .collect(),
            })
            .collect()
    }

    fn score(
        &self,
        id_cols: &[&str],
        controls: &[&str],
        nbins: usize,
        blocks: Option<Vec<Vec<String>>>,
        plate: Option<Vec<String>>,
    ) -> Result<ResultTable, CalcError> {
        let id_cols = names(id_cols);
        let ranges = self.scan(&id_cols);
        let rows = self.rows(&ranges, nbins);
        calculate_scores(&self.headers, &rows, &id_cols, &names(controls), nbins, &ranges, blocks, plate)
    }
}

fn score_of(table: &ResultTable, well: &str, feature: &str) -> Option<f64> {
    let row = table.get(&well.to_string())?;
    row.get(&feature.to_string()).map(|s| number(&s))
}

fn wells_of(table: &ResultTable) -> Vec<String> {
    let mut wells: Vec<String> = (0..table.len()).map(|i| table.entry(i).0.clone()).collect();
    wells.sort();
    wells
}

fn small() -> Table {
    Table::new(
        &["id", "f1"],
        &[
            &["A1", "1.0"],
            &["A1", "2.0"],
            &["A1", "3.0"],
            &["B1", "3.0"],
            &["B1", "3.0"],
            &["B1", "2.9"],
        ],
    )
}

#[test]
fn scores_of_a_small_plate() {
    let table = small().score(&["id"], &["A1"], 2, None, None).unwrap();
    assert_eq!(wells_of(&table), names(&["A1", "B1"]));
    // Control [1, 2] smooths to [5, 7] / 4 and has the shares [5, 7] / 12;
    // B1 [0, 3] smooths to [3, 9] / 4 and has the shares [3, 9] / 12.
    assert_eq!(score_of(&table, "A1", "f1"), Some(0.0));
    let b1 = table.get(&"B1".to_string()).unwrap().get(&"f1".to_string()).unwrap();
    assert!(!b1.negative);
    assert_eq!(b1.num, 2 * 24 * 24);
    assert_eq!(b1.den, 144 * 144);
    assert_eq!(score_of(&table, "B1", "f1"), Some(8.0 / 144.0));
}

#[test]
fn well_left_of_control_scores_negative() {
    let table = small().score(&["id"], &["B1"], 2, None, None).unwrap();
    assert_eq!(score_of(&table, "A1", "f1"), Some(-8.0 / 144.0));
    assert_eq!(score_of(&table, "B1", "f1"), Some(0.0));
}

#[test]
fn well_canonicalization() {
    // A control list that names "A01" matches the histograms of "A1".
    let table = small().score(&["id"], &["A01"], 2, None, None).unwrap();
    assert_eq!(score_of(&table, "A1", "f1"), Some(0.0));
    assert_eq!(score_of(&table, "B1", "f1"), Some(8.0 / 144.0));
}

#[test]
fn group_without_control_gets_no_scores() {
    let table = small().score(&["id"], &["C7"], 2, None, None).unwrap();
    assert_eq!(table.len(), 0);
    let none = small().score(&["id"], &[], 2, None, None).unwrap();
    assert_eq!(none.len(), 0);
}

#[test]
fn scoring_without_id_column_is_an_error() {
    let table = small();
    let ranges = table.scan(&names(&["id"]));
    let rows = table.rows(&ranges, 2);
    let got = calculate_scores(
        &table.headers,
        &rows,
        &names(&["well"]),
        &names(&["A1"]),
        2,
        &ranges,
        None,
        None,
    );
    assert_eq!(got.unwrap_err(), CalcError::MissingIdColumn);
}

#[test]
fn rows_of_wells_outside_the_plate_are_left_out() {
    let table = Table::new(
        &["id", "f1"],
        &[&["A1", "1"], &["A1", "3"], &["Z99", "1"], &["B1", "3"], &["AA1", "1"]],
    );
    let scores = table.score(&["id"], &["A1"], 2, None, None).unwrap();
    assert_eq!(wells_of(&scores), names(&["A1", "B1"]));
}

#[test]
fn rows_are_taken_in_by_their_canonical_well() {
    // The rows of "A01" and of "A1" are rows of one well.
    let padded = Table::new(
        &["id", "f1"],
        &[&["A01", "1"], &["A1", "3"], &["B01", "3"], &["B1", "3"], &["A001", "3"]],
    );
    let plain = Table::new(
        &["id", "f1"],
        &[&["A1", "1"], &["A1", "3"], &["B1", "3"], &["B1", "3"], &["A1", "3"]],
    );
    let one = padded.score(&["id"], &["B1"], 2, None, None).unwrap();
    let other = plain.score(&["id"], &["B1"], 2, None, None).unwrap();
    assert_eq!(wells_of(&one), names(&["A1", "B1"]));
    assert!(one.get(&"A01".to_string()).is_none());
    assert_eq!(score_of(&one, "A1", "f1"), score_of(&other, "A1", "f1"));
    // A1 holds [1, 2], the control B1 [0, 2]: shares [5, 7] / 12 against [2, 6] / 8.
    assert_eq!(score_of(&one, "A1", "f1"), Some(-(2.0 * 16.0 * 16.0) / (96.0 * 96.0)));
}

#[test]
fn plate_definition_goes_by_canonical_names() {
    let table = Table::new(&["id", "f1"], &[&["X1", "1"], &["X01", "3"], &["Y2", "3"]]);
    let scores = table.score(&["id"], &["X1"], 2, None, Some(names(&["X01", "Y002"]))).unwrap();
    assert_eq!(wells_of(&scores), names(&["X1", "Y2"]));
    assert_eq!(score_of(&scores, "X1", "f1"), Some(0.0));
}

#[test]
fn custom_plate_takes_its_own_wells() {
    let table = Table::new(&["id", "f1"], &[&["X", "1"], &["X", "3"], &["Y", "3"], &["A1", "3"]]);
    let scores = table.score(&["id"], &["X"], 2, None, Some(names(&["X", "Y"]))).unwrap();
    assert_eq!(wells_of(&scores), names(&["X", "Y"]));
}

#[test]
fn identifier_of_several_columns_is_joined_by_underscores() {
    let table = Table::new(
        &["plate", "f1", "well"],
        &[&["P", "1", "A1"], &["P", "3", "A1"], &["P", "3", "B1"], &["Q", "1", "A1"]],
    );
    let plate = Some(names(&["P_A1", "P_B1", "Q_A1"]));
    let scores = table.score(&["plate", "well"], &["P_A1"], 2, None, plate).unwrap();
    assert_eq!(wells_of(&scores), names(&["P_A1", "P_B1", "Q_A1"]));
    assert_eq!(score_of(&scores, "P_A1", "f1"), Some(0.0));
}

#[test]
fn malformed_rows_fill_nothing() {
    let table = Table::new(
        &["id", "f1"],
        &[&["A1", "1"], &["A1", "3"], &["B1", "3", "extra"], &["B1"], &["B1", "3"]],
    );
    let scores = table.score(&["id"], &["A1"], 2, None, None).unwrap();
    // B1 holds the one value 3 in the last bin: [0, 1].
    let alone = Table::new(&["id", "f1"], &[&["A1", "1"], &["A1", "3"], &["B1", "3"]]);
    let same = alone.score(&["id"], &["A1"], 2, None, None).unwrap();
    assert_eq!(score_of(&scores, "B1", "f1"), score_of(&same, "B1", "f1"));
}

#[test]
fn order_independence() {
    let table = small();
    let mut turned = Table { headers: table.headers.clone(), records: table.records.clone() };
    turned.records.reverse();
    turned.records.swap(1, 4);
    let one = table.score(&["id"], &["A1"], 2, None, None).unwrap();
    let other = turned.score(&["id"], &["A1"], 2, None, None).unwrap();
    for well in ["A1", "B1"] {
        assert_eq!(score_of(&one, well, "f1"), score_of(&other, well, "f1"));
    }
}

#[test]
fn accumulator_takes_rows_one_by_one() {
    let table = small();
    let id_cols = names(&["id"]);
    let ranges = table.scan(&id_cols);
    let rows = table.rows(&ranges, 2);
    let mut acc = Accumulator::new(&table.headers, &id_cols, 2, &ranges, None).unwrap();
    for row in &rows {
        assert!(acc.room());
        acc.deposit(row);
    }
    let scores = acc.finish(&names(&["A1"]), None).unwrap();
    assert_eq!(score_of(&scores, "B1", "f1"), Some(8.0 / 144.0));
}

#[test]
fn unparsable_values_fill_nothing() {
    let table = Table::new(
        &["id", "f1"],
        &[&["A1", "1"], &["A1", "3"], &["B1", "3"], &["B1", "n/a"], &["B1", "NaN"], &["B1", "inf"]],
    );
    let alone = Table::new(&["id", "f1"], &[&["A1", "1"], &["A1", "3"], &["B1", "3"]]);
    let one = table.score(&["id"], &["A1"], 2, None, None).unwrap();
    let other = alone.score(&["id"], &["A1"], 2, None, None).unwrap();
    assert_eq!(score_of(&one, "B1", "f1"), score_of(&other, "B1", "f1"));
}

#[test]
fn several_features_are_scored_each_on_its_own() {
    let table = Table::new(
        &["id", "f1", "f2"],
        &[&["A1", "1", "10"], &["A1", "3", "10"], &["B1", "3", "30"], &["B1", "3", "10"]],
    );
    let scores = table.score(&["id"], &["A1"], 2, None, None).unwrap();
    let b1 = scores.get(&"B1".to_string()).unwrap();
    assert_eq!(b1.len(), 2);
    // f1: control [1, 1], B1 [0, 2]; f2: control [2, 0], B1 [1, 1].
    assert!(score_of(&scores, "B1", "f1").unwrap() > 0.0);
    assert!(score_of(&scores, "B1", "f2").unwrap() > 0.0);
    assert_eq!(score_of(&scores, "A1", "f2"), Some(0.0));
}

#[test]
fn repeated_control_counts_twice() {
    let table = Table::new(
        &["id", "f1"],
        &[&["A1", "1"], &["A2", "3"], &["B1", "3"]],
    );
    // Control A1 + A2 = [1, 1]; control A1 + A1 + A2 = [2, 1].
    let once = table.score(&["id"], &["A1", "A2"], 2, None, None).unwrap();
    let twice = table.score(&["id"], &["A1", "A1", "A2"], 2, None, None).unwrap();
    assert_ne!(score_of(&once, "B1", "f1"), score_of(&twice, "B1", "f1"));
    // [2, 1] -> [7, 5] / 12; B1 [0, 1] -> [1, 3] / 4 = [3, 9] / 12.
    let want = (4.0f64 * 4.0 + 4.0 * 4.0) / 144.0;
    assert_eq!(score_of(&twice, "B1", "f1"), Some(want));
}

#[test]
fn explicit_groups_are_scored_on_their_own() {
    let table = Table::new(
        &["id", "f1"],
        &[
            &["A1", "1"],
            &["A2", "3"],
            &["B1", "3"],
            &["B2", "1"],
            &["C1", "3"],
        ],
    );
    let blocks = Some(vec![names(&["A01", "A2"]), names(&["B1", "B2"])]);
    let scores = table.score(&["id"], &["A1", "B1"], 2, blocks, None).unwrap();
    // Group one: control A1 [1, 0]; group two: control B1 [0, 1]; the
    // leftover group holds C1 and no control.
    assert_eq!(wells_of(&scores), names(&["A1", "A2", "B1", "B2"]));
    assert_eq!(score_of(&scores, "A1", "f1"), Some(0.0));
    assert_eq!(score_of(&scores, "B1", "f1"), Some(0.0));
    let a2 = score_of(&scores, "A2", "f1").unwrap();
    let b2 = score_of(&scores, "B2", "f1").unwrap();
    assert!(a2 > 0.0);
    assert_eq!(b2, -a2);
}

#[test]
fn later_group_overwrites_earlier_score() {
    let table = Table::new(&["id", "f1"], &[&["A1", "1"], &["A2", "3"], &["B1", "3"]]);
    let blocks = Some(vec![names(&["A1", "B1"]), names(&["A2", "B1"])]);
    let scores = table.score(&["id"], &["A1", "A2"], 2, blocks, None).unwrap();
    // B1 is scored against A1 first and against A2 last: it equals A2.
    assert_eq!(score_of(&scores, "B1", "f1"), Some(0.0));
}

#[test]
fn well_named_like_the_reserved_name_is_not_scored() {
    let table = Table::new(&["id", "f1"], &[&["A1", "1"], &["CNTRL", "3"], &["B1", "3"]]);
    let plate = Some(names(&["A1", "B1", "CNTRL"]));
    let scores = table.score(&["id"], &["A1"], 2, None, plate).unwrap();
    assert_eq!(wells_of(&scores), names(&["A1", "B1"]));
}

#[test]
fn constant_feature_is_scored_over_its_widened_range() {
    let table = Table::new(&["id", "f1"], &[&["A1", "5"], &["B1", "5"]]);
    let ranges = table.scan(&names(&["id"]));
    assert_eq!(value(ranges.min_max[0].1.xhigh), 7.5);
    let scores = table.score(&["id"], &["A1"], 20, None, None).unwrap();
    assert_eq!(score_of(&scores, "B1", "f1"), Some(0.0));
}

fn crowded(rows: usize) -> Accumulator {
    let ranges = MinMaxPlateResult {
        min_max: vec![("f1".to_string(), MinMax { xlow: 0, xhigh: 10 })],
        features: names(&["f1"]),
        problemativ_features: None,
        skipped_rows: 0,
    };
    let headers = names(&["id", "f1"]);
    let mut acc = Accumulator::new(&headers, &names(&["id"]), 2, &ranges, None).unwrap();
    let row = Row {
        fields: names(&["A1", "?"]),
        readings: vec![None, Some(Measure { bits: 3, offset: 0 })],
    };
    for _ in 0..rows {
        acc.deposit(&row);
    }
    acc
}

#[test]
fn too_many_observations_are_refused() {
    // One well of 2^16 observations, listed 2^13 times as a control: the
    // control holds 2^29 observations, which is the limit.
    let controls: Vec<String> = (0..1 << 13).map(|_| "A1".to_string()).collect();
    let got = crowded(1 << 16).finish(&controls, None);
    assert_eq!(got.unwrap_err(), CalcError::TooManyObservations);
}

#[test]
fn just_under_the_limit_is_scored() {
    let controls: Vec<String> = (0..(1 << 13) - 1).map(|_| "A1".to_string()).collect();
    let scores = crowded(1 << 16).finish(&controls, None).unwrap();
    assert_eq!(score_of(&scores, "A1", "f1"), Some(0.0));
}

#[test]
fn ranges_of_an_accumulator_come_from_the_scan() {
    let ranges = MinMaxPlateResult {
        min_max: vec![("f1".to_string(), MinMax { xlow: 0, xhigh: 10 })],
        features: names(&["f1"]),
        problemativ_features: None,
        skipped_rows: 0,
    };
    let headers = names(&["id", "f1"]);
    let mut acc = Accumulator::new(&headers, &names(&["id"]), 2, &ranges, None).unwrap();
    let row = |well: &str, bits: u64, offset: usize| Row {
        fields: names(&[well, "?"]),
        readings: vec![None, Some(Measure { bits, offset })],
    };
    acc.deposit(&row("A1", 0, 0));
    acc.deposit(&row("A1", 10, 0));
    acc.deposit(&row("B1", 10, 7));
    acc.deposit(&row("B1", 11, 0));
    let scores = acc.finish(&names(&["A1"]), None).unwrap();
    // A1 [1, 1]; B1 [0, 1].
    assert_eq!(score_of(&scores, "A1", "f1"), Some(0.0));
    assert_eq!(score_of(&scores, "B1", "f1"), Some(2.0 / 16.0));
}
