use histdiff::histograms::MinMax;
use histdiff::ranges::MinMaxPlateResult;
use histdiff::report::{feature_columns, insert_name, problem_lines, record_of, stands_before};
use histdiff::score::Score;
use histdiff::table::{ResultTable, ScoreRow};

fn names(texts: &[&str]) -> Vec<String> {
    texts.iter().map(|t| t.to_string()).collect()
}

fn score(n: u128) -> Score {
    Score { negative: false, num: n, den: 1 }
}

fn row(entries: &[(&str, u128)]) -> ScoreRow {
    let mut row = ScoreRow::new();
    for (name, n) in entries {
        row.set(&name.to_string(), score(*n));
    }
    row
}

fn table() -> ResultTable {
    let mut table = ResultTable::new();
    table.extend(&"B1".to_string(), &row(&[("zeta", 1), ("alpha", 2)]));
    table.extend(&"A1".to_string(), &row(&[("mid", 3), ("alpha", 4), ("Zulu", 5)]));
    table
}

#[test]
fn order_of_names_is_the_order_of_strings() {
    let words = ["", "a", "A", "ab", "abc", "b", "B", "é", "z", "Zulu", "alpha", "a ", "a\t", "aa", "ü", "€", "😀"];
    for x in words {
        for y in words {
            let a: Vec<char> = x.chars().collect();
            let b: Vec<char> = y.chars().collect();
            assert_eq!(stands_before(&a, &b), x < y, "for {:?} and {:?}", x, y);
        }
    }
}

#[test]
fn names_are_inserted_in_order_and_once() {
    let mut list: Vec<String> = Vec::new();
    for name in ["m", "a", "z", "m", "b", "a", "", "zz"] {
        insert_name(&mut list, &name.to_string());
    }
    assert_eq!(list, names(&["", "a", "b", "m", "z", "zz"]));
}

#[test]
fn columns_are_sorted_feature_names() {
    let columns = feature_columns(&table());
    assert_eq!(columns, names(&["Zulu", "alpha", "mid", "zeta"]));
    let mut sorted = columns.clone();
    sorted.sort();
    sorted.dedup();
    assert_eq!(columns, sorted);
    assert!(feature_columns(&ResultTable::new()).is_empty());
}

#[test]
fn records_have_a_gap_where_a_well_has_no_score() {
    let table = table();
    let columns = feature_columns(&table);
    let (well, cells) = record_of(&table, 0, &columns);
    assert_eq!(well, "B1");
    let nums: Vec<Option<u128>> = cells.iter().map(|c| c.map(|s| s.num)).collect();
    assert_eq!(nums, vec![None, Some(2), None, Some(1)]);
    let (well, cells) = record_of(&table, 1, &columns);
    assert_eq!(well, "A1");
    let nums: Vec<Option<u128>> = cells.iter().map(|c| c.map(|s| s.num)).collect();
    assert_eq!(nums, vec![Some(5), Some(4), Some(3), None]);
}

#[test]
fn problem_lines_name_each_feature() {
    let mut result = MinMaxPlateResult {
        min_max: vec![("a".to_string(), MinMax { xlow: 0, xhigh: 1 })],
        features: names(&["a"]),
        problemativ_features: Some(names(&["empty", "void"])),
        skipped_rows: 0,
    };
    assert_eq!(problem_lines(&result), names(&["empty,noValues", "void,noValues"]));
    result.problemativ_features = None;
    assert!(problem_lines(&result).is_empty());
}
