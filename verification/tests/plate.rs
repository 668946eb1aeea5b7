use histdiff::wells::{clean_well_names, plate_definition};

#[test]
fn test_plate_def() {
    println!("{:?}", plate_definition());
    println!("{:?}", plate_definition().len());
}

#[test]
fn default_plate_has_384_wells_in_row_order() {
    let plate = plate_definition();
    assert_eq!(plate.len(), 384);
    assert_eq!(plate[0], "A1");
    assert_eq!(plate[23], "A24");
    assert_eq!(plate[24], "B1");
    assert_eq!(plate[383], "P24");
}

#[test]
fn leading_zeros_are_stripped() {
    let names = vec!["A01".to_string(), "A1".to_string(), "B007".to_string(), "C".to_string()];
    let clean = clean_well_names(&names);
    assert_eq!(clean, vec!["A1", "A1", "B7", "C"]);
}

use histdiff::wells::{build_id, composite_id, rename_index};

/// Canonical form as the standard library's own parsing and formatting give it.
fn by_std(name: &str) -> String {
    if name.len() >= 2 {
        let letter = &name[0..1];
        let number_str = &name[1..];
        match number_str.parse::<u32>() {
            Ok(number) => format!("{}{}", letter, number),
            Err(_) => name.to_string(),
        }
    } else {
        name.to_string()
    }
}

#[test]
fn canonical_names_agree_with_standard_parsing() {
    let names = [
        "A01", "A1", "P24", "B007", "C", "", "A", "A0", "A00", "A+5", "A-1", "A 1", "A1 ", "AB1",
        "A4294967295", "A4294967296", "A04294967295", "A99999999999999999999", "A1.0", "A1e3",
        "01", "1", "++1", "A+", "A++1", "Z000000000000000000000000000001", "a10", "A١",
    ];
    for name in names {
        assert_eq!(rename_index(name), by_std(name), "for {:?}", name);
    }
}

#[test]
fn name_that_starts_with_a_wide_character_keeps_it() {
    assert_eq!(rename_index("é01"), "é1");
    assert_eq!(rename_index("é"), "é");
    assert_eq!(rename_index("éx"), "éx");
}

#[test]
fn canonical_form_is_a_fixed_point() {
    for name in ["A01", "B7", "C", "A+5", "x", "AB12", "Q000"] {
        let once = rename_index(name);
        assert_eq!(rename_index(&once), once);
    }
}

#[test]
fn default_plate_is_canonical_and_without_duplicates() {
    let plate = plate_definition();
    assert_eq!(clean_well_names(&plate), plate);
    let mut sorted = plate.clone();
    sorted.sort();
    sorted.dedup();
    assert_eq!(sorted.len(), 384);
    let expected: Vec<String> = (b'A'..=b'P')
        .flat_map(|letter| (1..=24).map(move |num| format!("{}{}", letter as char, num)))
        .collect();
    assert_eq!(plate, expected);
}

fn names(texts: &[&str]) -> Vec<String> {
    texts.iter().map(|t| t.to_string()).collect()
}

#[test]
fn identifier_of_one_column_is_its_field() {
    let headers = names(&["a", "id", "b"]);
    let record = names(&["1", "A01", "2"]);
    assert_eq!(build_id(&record, &headers, &names(&["id"])), "A01");
}

#[test]
fn identifier_of_several_columns_joins_them_in_their_order() {
    let headers = names(&["plate", "a", "well"]);
    let record = names(&["P1", "0.5", "B3"]);
    assert_eq!(build_id(&record, &headers, &names(&["plate", "well"])), "P1_B3");
    assert_eq!(build_id(&record, &headers, &names(&["well", "plate"])), "B3_P1");
    assert_eq!(build_id(&record, &headers, &names(&["well", "well"])), "B3_B3");
}

#[test]
fn composite_id_picks_fields_by_place() {
    let record = names(&["x", "y", "z"]);
    assert_eq!(composite_id(&record, &[2, 0]), "z_x");
    assert_eq!(composite_id(&record, &[1]), "y");
    assert_eq!(composite_id(&record, &[]), "");
    assert_eq!(composite_id(&names(&["", ""]), &[0, 1]), "_");
}
