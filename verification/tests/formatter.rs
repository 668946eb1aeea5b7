use histdiff::formatter::{
    classify_columns, clean_col_name, final_columns, find_common_features, has_useless,
    is_flagged, keep_indices, keeps_row, majority_float, output_row, preprocess_data,
    split_fields, PreprocessError,
};

fn names(texts: &[&str]) -> Vec<String> {
    texts.iter().map(|t| t.to_string()).collect()
}

/// The clean name as the standard library's own functions give it.
fn by_std(col_name: &str) -> String {
    col_name
        .trim()
        .replace("\t", ",")
        .replace("%", "Pct")
        .replace(" - ", "-")
        .replace(" ", "_")
        .replace("µ", "u")
        .replace("²", "^2")
        .replace("_(RAWcells-CP2-Cyto_BMR)", "")
        .replace("_(RAWcells-CP2-EdU_BMR)", "")
}

#[test]
fn clean_names_agree_with_standard_functions() {
    let columns = [
        "",
        " ",
        "plain",
        "  Nuclei - Area [µm²] (%) ",
        "a\tb",
        "\ta\tb\t",
        "a - b - c",
        "a  -  b",
        "a - - b",
        " - ",
        "x - ",
        "100%%",
        "Cell Intensity (RAWcells-CP2-Cyto_BMR)",
        "Cell_(RAWcells-CP2-EdU_BMR)",
        "Cell_(RAWcells-CP2-Cyto_BMR)_(RAWcells-CP2-EdU_BMR) Mean",
        "_(RAWcells-CP2-Cyto_BMR",
        "_(RAWcells-CP2-_(RAWcells-CP2-Cyto_BMR)Cyto_BMR)",
        "µµ²²",
        "\u{a0}padded\u{3000}",
        "\u{2003}em space inside\u{2003}",
        "tab\there and there\t",
        "% - %",
        "ends with newline\n",
        "\r\n both \r\n",
    ];
    for column in columns {
        assert_eq!(clean_col_name(column), by_std(column), "for {:?}", column);
    }
}

#[test]
fn clean_name_of_a_measurement_column() {
    assert_eq!(clean_col_name("  Nuclei - Area [µm²] (%) "), "Nuclei-Area_[um^2]_(Pct)");
    assert_eq!(clean_col_name("Cell Intensity (RAWcells-CP2-Cyto_BMR)"), "Cell_Intensity");
}

/// The flagged names as sets and substring tests of the standard library give them.
fn by_std_common(true_feats: &[String], bad_feats: &[String]) -> Vec<String> {
    let mut common: Vec<String> = Vec::new();
    for feat in true_feats {
        if bad_feats.contains(feat) && !common.contains(feat) {
            common.push(feat.clone());
        }
    }
    for feat in true_feats {
        let cond1 = bad_feats.iter().filter(|i| i.len() > 2).any(|i| feat.contains(i.as_str()));
        let cond2 = bad_feats.iter().filter(|i| i.len() <= 2).any(|i| i == feat);
        if (cond1 || cond2) && !common.contains(feat) {
            common.push(feat.clone());
        }
    }
    common
}

#[test]
fn flagged_names_come_exact_ones_first() {
    let headers = names(&["Well X (um)", "X", "Row", "Rows", "Area", "ax", "axis", "Y", "Row"]);
    let bad = names(&["Row", "X", "Y", "ax", "Well X"]);
    let got = find_common_features(&headers, &bad);
    assert_eq!(got, names(&["X", "Row", "ax", "Y", "Well X (um)", "Rows"]));
    assert_eq!(got, by_std_common(&headers, &bad));
}

#[test]
fn short_flags_match_whole_names_only() {
    let bad = names(&["X", "ay", "é"]);
    assert!(is_flagged(&bad, &"X".to_string()));
    assert!(!is_flagged(&bad, &"XY".to_string()));
    assert!(!is_flagged(&bad, &"Max".to_string()));
    assert!(is_flagged(&bad, &"é".to_string()));
    assert!(!is_flagged(&bad, &"né".to_string()));
}

#[test]
fn long_flags_match_inside_names() {
    // "éé" has two characters and four bytes: it counts as long.
    let bad = names(&["Row", "éé"]);
    assert!(is_flagged(&bad, &"Row".to_string()));
    assert!(is_flagged(&bad, &"MyRows".to_string()));
    assert!(!is_flagged(&bad, &"row".to_string()));
    assert!(!is_flagged(&bad, &"Ro".to_string()));
    assert!(is_flagged(&bad, &"aééb".to_string()));
    assert!(!is_flagged(&[], &"Row".to_string()));
}

#[test]
fn flagged_names_agree_with_standard_functions() {
    let headers = names(&["", "a", "ab", "abc", "abcd", "b", "bc", "bcd", "abc", "cab", "d"]);
    for bad in [
        names(&[]),
        names(&["a"]),
        names(&["abc"]),
        names(&["bc", "d"]),
        names(&["bcd", "a", "zzz"]),
        names(&[""]),
        names(&["abcd", "abc", "ab"]),
    ] {
        assert_eq!(find_common_features(&headers, &bad), by_std_common(&headers, &bad));
    }
}

#[test]
fn roles_of_the_columns_of_a_raw_table() {
    let headers = names(&["WellName", "Row", "Column", "Nuclei - Area", "Field", "Well X"]);
    let roles = classify_columns(&headers);
    assert_eq!(roles.id_col, names(&["WellName"]));
    assert_eq!(roles.useless_feats, names(&["Row", "Column", "Field", "Well X"]));
}

#[test]
fn well_name_with_a_blank_identifies_where_the_other_is_missing() {
    let headers = names(&["Well Name", "Row", "Area"]);
    let roles = classify_columns(&headers);
    assert_eq!(roles.id_col, names(&["Well Name"]));
    assert_eq!(roles.useless_feats, names(&["Row"]));
    let none = classify_columns(&names(&["Area"]));
    assert_eq!(none.id_col, names(&["Well Name"]));
    assert!(none.useless_feats.is_empty());
}

#[test]
fn majority_is_sixty_five_in_a_hundred_rounded_down() {
    assert!(majority_float(13, 20));
    assert!(!majority_float(12, 20));
    assert!(majority_float(0, 0));
    assert!(majority_float(0, 1));
    assert!(majority_float(1, 2));
    assert!(!majority_float(0, 2));
    assert!(majority_float(6, 10));
    assert!(!majority_float(5, 10));
    for total in 0..5000usize {
        let bound = (0.65 * total as f64) as i32;
        for count in [bound - 1, bound, bound + 1] {
            if count >= 0 {
                assert_eq!(majority_float(count as usize, total), count >= bound);
            }
        }
    }
}

#[test]
fn rows_are_kept_by_length_and_numbers() {
    assert!(keeps_row(20, 20, 13));
    assert!(!keeps_row(20, 20, 12));
    assert!(!keeps_row(19, 20, 19));
    assert!(!keeps_row(21, 20, 21));
}

#[test]
fn fields_agree_with_standard_splitting() {
    let lines = [
        "",
        "\n",
        "a",
        "a\tb\tc\n",
        "a\t\tb",
        "\ta\tb\t",
        "  a \t b  \r\n",
        "\t",
        "\t\t",
        "a\t \tb",
        " \t \t ",
        "one field",
    ];
    for line in lines {
        let expected: Vec<String> = line.trim().split('\t').map(|s| s.to_string()).collect();
        assert_eq!(split_fields(line), expected, "for {:?}", line);
    }
}

#[test]
fn final_columns_are_the_clean_names_of_the_kept_columns() {
    let headers = names(&["Well Name", "Row", "Nuclei - Area", "Cell Count %", "Row"]);
    let got = final_columns(&headers, &names(&["Well Name"]), &names(&["Row"]));
    assert_eq!(got, names(&["Nuclei-Area", "Cell_Count_Pct"]));
    let none = final_columns(&headers, &names(&["Well Name", "Nuclei - Area"]), &names(&["Row", "Cell Count %"]));
    assert!(none.is_empty());
}

#[test]
fn kept_columns_are_those_in_neither_list() {
    let headers = names(&["id", "a b", "junk", "a_b", "c", "junk"]);
    let id = names(&["id"]);
    let bad = names(&["junk"]);
    assert_eq!(keep_indices(&headers, &id, &bad), vec![1, 3, 4]);
    assert_eq!(keep_indices(&headers, &[], &[]), vec![0, 1, 2, 3, 4, 5]);
    assert_eq!(keep_indices(&headers, &bad, &headers), Vec::<usize>::new());
    assert_eq!(keep_indices(&[], &id, &bad), Vec::<usize>::new());
}

#[test]
fn useless_names_are_found_among_headers() {
    assert!(has_useless(&names(&["id", "Row"]), &names(&["Row"])));
    assert!(!has_useless(&names(&["id", "Rows"]), &names(&["Row"])));
    assert!(!has_useless(&[], &names(&["Row"])));
}

#[test]
fn output_row_starts_with_the_canonical_well() {
    let headers = names(&["WellName", "a", "b"]);
    let record = names(&["C007", "1.5", "2.5"]);
    let row = output_row(&record, &headers, &names(&["WellName"]), &[2, 1, 9]);
    assert_eq!(row, names(&["C7", "2.5", "1.5", ""]));
}

fn records(rows: &[&[&str]]) -> Vec<Vec<String>> {
    rows.iter().map(|r| names(r)).collect()
}

#[test]
fn cleaned_table_has_the_well_and_the_feature_columns() {
    let headers = names(&["WellName", "Row", "Nuclei - Area", "Column", "Cell Count %"]);
    let rows = records(&[&["A01", "1", "0.5", "1", "10"], &["B12", "2", "0.7", "12", "20"]]);
    let table =
        preprocess_data(&headers, &rows, &names(&["WellName"]), &names(&["Row", "Column"])).unwrap();
    assert_eq!(table.headers, names(&["id", "Nuclei-Area", "Cell_Count_Pct"]));
    assert_eq!(table.rows, records(&[&["A1", "0.5", "10"], &["B12", "0.7", "20"]]));
}

#[test]
fn table_of_the_identifier_alone_keeps_the_wells() {
    let headers = names(&["well"]);
    let rows = records(&[&["A01"], &["B12"]]);
    let table = preprocess_data(&headers, &rows, &names(&["well"]), &[]).unwrap();
    assert_eq!(table.headers, names(&["id"]));
    assert_eq!(table.rows, records(&[&["A1"], &["B12"]]));
}

#[test]
fn columns_of_one_clean_name_are_both_kept() {
    let headers = names(&["Well Name", "a b", "a_b"]);
    let rows = records(&[&["A01", "x", "0.5"], &["B02", "y", "0.7"]]);
    let table = preprocess_data(&headers, &rows, &names(&["Well Name"]), &[]).unwrap();
    assert_eq!(table.headers, names(&["id", "a_b", "a_b"]));
    assert_eq!(table.rows, records(&[&["A1", "x", "0.5"], &["B2", "y", "0.7"]]));
}

#[test]
fn short_record_has_empty_fields_at_its_end() {
    let headers = names(&["well", "a", "b"]);
    let rows = records(&[&["A01", "1"], &["B2", "2", "3"]]);
    let table = preprocess_data(&headers, &rows, &names(&["well"]), &[]).unwrap();
    assert_eq!(table.rows, records(&[&["A1", "1", ""], &["B2", "2", "3"]]));
}

#[test]
fn record_without_identifier_is_an_error() {
    let headers = names(&["Row", "Area"]);
    let rows = records(&[&["1", "0.5"]]);
    let got = preprocess_data(&headers, &rows, &names(&["WellName"]), &names(&["Row"]));
    assert_eq!(got.unwrap_err(), PreprocessError::MissingId);
    let none = preprocess_data(&headers, &rows, &[], &names(&["Row"]));
    assert_eq!(none.unwrap_err(), PreprocessError::MissingId);
    let short = preprocess_data(&names(&["a", "id"]), &records(&[&["1"]]), &names(&["id"]), &names(&["id"]));
    assert_eq!(short.unwrap_err(), PreprocessError::MissingId);
    // Without records nothing needs an identifier.
    let empty = preprocess_data(&headers, &[], &names(&["WellName"]), &names(&["Row"])).unwrap();
    assert_eq!(empty.headers, names(&["id", "Area"]));
    assert!(empty.rows.is_empty());
}

#[test]
fn useless_name_among_cleaned_headers_is_an_error() {
    // The first header of every cleaned table, `id`, is flagged as useless here.
    let headers = names(&["Well Name", "Area"]);
    let rows = records(&[&["A01", "x"]]);
    let got = preprocess_data(&headers, &rows, &names(&["Well Name"]), &names(&["id"]));
    assert_eq!(got.unwrap_err(), PreprocessError::UselessPresent);
    // "Area " is not flagged, but its clean name is.
    let padded = names(&["Well Name", "Area "]);
    let got = preprocess_data(&padded, &rows, &names(&["Well Name"]), &names(&["Area"]));
    assert_eq!(got.unwrap_err(), PreprocessError::UselessPresent);
}
