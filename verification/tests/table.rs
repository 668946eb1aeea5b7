use histdiff::columns::{contains_name, locate, position};
use histdiff::groups::resolve_groups;
use histdiff::score::Score;
use histdiff::table::{ResultTable, ScoreRow};

fn names(texts: &[&str]) -> Vec<String> {
    texts.iter().map(|t| t.to_string()).collect()
}

fn score(n: u128) -> Score {
    Score { negative: n % 2 == 1, num: n, den: 7 }
}

#[test]
fn row_keeps_the_last_score_under_a_name() {
    let mut row = ScoreRow::new();
    assert_eq!(row.len(), 0);
    row.set(&"a".to_string(), score(1));
    row.set(&"b".to_string(), score(2));
    row.set(&"a".to_string(), score(3));
    assert_eq!(row.len(), 2);
    assert_eq!(row.get(&"a".to_string()).unwrap().num, 3);
    assert_eq!(row.get(&"b".to_string()).unwrap().num, 2);
    assert!(row.get(&"c".to_string()).is_none());
    let (name, s) = row.entry(0);
    assert_eq!(name, "a");
    assert!(s.negative);
    assert_eq!(s.den, 7);
}

#[test]
fn merge_prefers_the_other_row() {
    let mut row = ScoreRow::new();
    row.set(&"a".to_string(), score(1));
    row.set(&"b".to_string(), score(2));
    let mut other = ScoreRow::new();
    other.set(&"b".to_string(), score(20));
    other.set(&"c".to_string(), score(30));
    row.merge(&other);
    assert_eq!(row.len(), 3);
    assert_eq!(row.get(&"a".to_string()).unwrap().num, 1);
    assert_eq!(row.get(&"b".to_string()).unwrap().num, 20);
    assert_eq!(row.get(&"c".to_string()).unwrap().num, 30);
    let copy = row.duplicate();
    row.set(&"a".to_string(), score(100));
    assert_eq!(copy.get(&"a".to_string()).unwrap().num, 1);
}

#[test]
fn table_overlays_scores_of_a_well() {
    let mut table = ResultTable::new();
    let mut first = ScoreRow::new();
    first.set(&"a".to_string(), score(1));
    first.set(&"b".to_string(), score(2));
    let mut second = ScoreRow::new();
    second.set(&"b".to_string(), score(20));
    table.extend(&"A1".to_string(), &first);
    table.extend(&"B1".to_string(), &first);
    table.extend(&"A1".to_string(), &second);
    assert_eq!(table.len(), 2);
    let a1 = table.get(&"A1".to_string()).unwrap();
    assert_eq!(a1.get(&"a".to_string()).unwrap().num, 1);
    assert_eq!(a1.get(&"b".to_string()).unwrap().num, 20);
    let b1 = table.get(&"B1".to_string()).unwrap();
    assert_eq!(b1.get(&"b".to_string()).unwrap().num, 2);
    assert!(table.get(&"C1".to_string()).is_none());
    assert_eq!(table.entry(1).0, "B1");
}

#[test]
fn position_is_the_first_place() {
    let headers = names(&["a", "b", "a", ""]);
    assert_eq!(position(&headers, &"a".to_string()), Some(0));
    assert_eq!(position(&headers, &"b".to_string()), Some(1));
    assert_eq!(position(&headers, &"".to_string()), Some(3));
    assert_eq!(position(&headers, &"c".to_string()), None);
    assert!(contains_name(&headers, &"b".to_string()));
    assert!(!contains_name(&[], &"b".to_string()));
}

#[test]
fn locate_needs_every_name() {
    let headers = names(&["a", "b", "c"]);
    assert_eq!(locate(&headers, &names(&["c", "a", "c"])), Some(vec![2, 0, 2]));
    assert_eq!(locate(&headers, &names(&["c", "d"])), None);
    assert_eq!(locate(&headers, &[]), Some(vec![]));
}

#[test]
fn without_blocks_the_plate_is_one_group() {
    let plate = names(&["A1", "A2"]);
    assert_eq!(resolve_groups(&plate, None), vec![plate.clone()]);
}

#[test]
fn wells_that_no_block_claims_form_the_last_group() {
    let plate = names(&["A1", "A2", "B1", "B2", "C1"]);
    let blocks = vec![names(&["A01", "B2"]), names(&["A2", "Z9"])];
    let groups = resolve_groups(&plate, Some(blocks.clone()));
    assert_eq!(groups, vec![blocks[0].clone(), blocks[1].clone(), names(&["B1", "C1"])]);
}

#[test]
fn group_completeness() {
    let plate = histdiff::wells::plate_definition();
    let blocks = vec![names(&["A01", "A2", "A3"]), names(&["P24"]), vec![]];
    let groups = resolve_groups(&plate, Some(blocks));
    let clean: Vec<Vec<String>> = groups.iter().map(|g| histdiff::wells::clean_well_names(g)).collect();
    for well in &plate {
        let passes = clean.iter().filter(|g| g.contains(well)).count();
        assert_eq!(passes, 1, "for {}", well);
    }
    assert_eq!(clean[3].len(), 384 - 4);
}

#[test]
fn overlapping_blocks_claim_a_well_twice() {
    let plate = names(&["A1", "A2"]);
    let blocks = vec![names(&["A1"]), names(&["A1"])];
    let groups = resolve_groups(&plate, Some(blocks));
    assert_eq!(groups.len(), 3);
    assert_eq!(groups[2], names(&["A2"]));
}

#[test]
fn new_table_and_new_row_are_empty() {
    let table = ResultTable::new();
    assert_eq!(table.len(), 0);
    assert!(table.get(&"A1".to_string()).is_none());
    let row = ScoreRow::new();
    assert_eq!(row.len(), 0);
    assert!(row.get(&"a".to_string()).is_none());
}
