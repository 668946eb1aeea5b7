use histdiff::platemap::{designate, designate_upper};

fn names(texts: &[&str]) -> Vec<String> {
    texts.iter().map(|t| t.to_string()).collect()
}

#[test]
fn reference_wells_are_controls() {
    let wells = names(&["a01", "A02", "b01", "B02"]);
    let labels = names(&["Reference", "sample", "REFERENCE", "reference wells"]);
    let got = designate(&wells, &labels);
    assert_eq!(got.controls, names(&["A1", "B1"]));
    assert_eq!(got.plate_def, Some(names(&["A1", "A2", "B1", "B2"])));
}

#[test]
fn labels_in_upper_case_are_compared_as_they_are() {
    let wells = names(&["a01", "A02"]);
    let labels = names(&["reference", "REFERENCE"]);
    let got = designate_upper(&wells, &labels);
    assert_eq!(got.controls, names(&["A2"]));
    assert_eq!(got.plate_def, Some(names(&["a1", "A2"])));
}

#[test]
fn plate_of_384_wells_is_the_default_plate() {
    let wells: Vec<String> = (0..384).map(|i| format!("w{}", i)).collect();
    let labels: Vec<String> = (0..384).map(|i| if i == 7 { "reference" } else { "" }.to_string()).collect();
    let got = designate(&wells, &labels);
    assert!(got.plate_def.is_none());
    assert_eq!(got.controls, names(&["W7"]));
}

#[test]
fn empty_map_has_an_empty_plate() {
    let got = designate(&[], &[]);
    assert_eq!(got.plate_def, Some(vec![]));
    assert!(got.controls.is_empty());
}
