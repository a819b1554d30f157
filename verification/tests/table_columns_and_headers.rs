use spreadsheet::table::{Header, MatchMode, MatchResult, Table, Value};

fn people() -> Table {
    let mut t = Table::from_column_titles(&["Name", "City", "Age"], "People");
    let data = [
        ["Ann", "Paris", "31"],
        ["Bob", "Lyon", "25"],
        ["Cid", "Paris", "40"],
        ["Dee", "Parisot", "31"],
    ];
    for row in data.iter() {
        let i = t.add_row();
        for (c, v) in row.iter().enumerate() {
            t.set_cell_value(i, c, Some(v.to_string())).unwrap();
        }
    }
    t
}

fn titles(t: &Table) -> Vec<String> {
    t.get_header()
        .unwrap()
        .iter()
        .into_iter()
        .map(|s| s.to_string())
        .collect()
}

fn column(t: &Table, c: usize) -> Vec<String> {
    (0..t.get_nb_rows()).map(|r| t.get_cell_text(r, c)).collect()
}

#[test]
fn header_basics() {
    let mut h = Header::new(vec!["a".to_string(), "b".to_string()]);
    assert_eq!(h.len(), 2);
    assert!(!h.is_empty());
    assert_eq!(h.get_title(1), Some("b"));
    assert_eq!(h.get_title(2), None);
    h.set_title(0, "z".to_string()).unwrap();
    assert_eq!(h.iter(), vec!["z", "b"]);
    assert_eq!(
        h.set_title(3, "q".to_string()),
        Err("header column index 3 out of range (0..=1)".to_string())
    );
    let mut empty = Header::new(vec![]);
    assert!(empty.is_empty());
    assert_eq!(
        empty.set_title(0, "q".to_string()),
        Err("header column index 0 out of range (0..=0)".to_string())
    );
}

#[test]
fn header_ensure_len_pads_only() {
    let mut h = Header::new(vec!["a".to_string()]);
    h.ensure_len(3);
    assert_eq!(h.iter(), vec!["a", "", ""]);
    h.ensure_len(1);
    assert_eq!(h.len(), 3);
}

#[test]
fn header_finds_titles() {
    let h = Header::new(vec!["a".to_string(), "b".to_string(), "a".to_string()]);
    assert_eq!(h.find_col_index_by_title("a"), Some(0));
    assert_eq!(h.find_col_index_by_title("b"), Some(1));
    assert_eq!(h.find_col_index_by_title("c"), None);
    assert_eq!(h.find_cols_indices_by_titles(&["b", "a"]), Ok(vec![1, 0]));
    assert_eq!(h.find_cols_indices_by_titles(&[]), Ok(vec![]));
    assert_eq!(
        h.find_cols_indices_by_titles(&["b", "x", "y"]),
        Err("Column title 'x' not found in header".to_string())
    );
}

#[test]
fn from_column_titles_builds_an_empty_table() {
    let t = Table::from_column_titles(&["x", "y"], "T");
    assert_eq!(t.get_nb_rows(), 0);
    assert_eq!(t.get_nb_cols(), 2);
    assert_eq!(t.name(), "T");
    assert_eq!(titles(&t), vec!["x", "y"]);
}

#[test]
fn first_line_as_header_takes_the_first_row() {
    let mut t = Table::new(3, 3, "T".to_string());
    t.set_cell_value(0, 0, Some("A".to_string())).unwrap();
    t.set_cell_value(0, 2, Some("C".to_string())).unwrap();
    t.set_cell_value(1, 0, Some("v".to_string())).unwrap();
    let header = t.first_line_as_header().unwrap();
    assert_eq!(header.iter(), vec!["A", "", "C"]);
    assert_eq!(t.get_nb_rows(), 2);
    assert_eq!(t.get_cell_text(0, 0), "v");
    assert_eq!(
        t.first_line_as_header().err(),
        Some("Le header a déjà été extrait".to_string())
    );
    let mut empty = Table::new(0, 2, "E".to_string());
    assert_eq!(
        empty.first_line_as_header().err(),
        Some("Impossible d'extraire un header d'un tableau vide".to_string())
    );
}

#[test]
fn insert_header_as_first_row_keeps_the_header() {
    let mut t = people();
    t.insert_header_as_first_row().unwrap();
    assert_eq!(t.get_nb_rows(), 5);
    assert_eq!(t.get_cell_text(0, 1), "City");
    assert_eq!(t.get_cell_text(1, 0), "Ann");
    assert_eq!(titles(&t), vec!["Name", "City", "Age"]);
    let mut bare = Table::new(1, 1, "B".to_string());
    assert_eq!(
        bare.insert_header_as_first_row(),
        Err("Aucun header défini, impossible de le réinsérer".to_string())
    );
}

#[test]
fn header_row_is_as_wide_as_the_table() {
    let mut t = Table::new(0, 3, "T".to_string());
    t.header = Some(Header::new(vec!["only".to_string()]));
    t.insert_header_as_first_row().unwrap();
    assert_eq!(t.get_row(0).unwrap().len(), 3);
    assert_eq!(t.get(0, 0).unwrap().value(), &Some("only".to_string()));
    assert_eq!(t.get(0, 2).unwrap().value(), &Some(String::new()));
}

#[test]
fn move_header_to_first_row_drops_the_header() {
    let mut t = people();
    t.move_header_to_first_row().unwrap();
    assert!(t.header.is_none());
    assert_eq!(column(&t, 0), vec!["Name", "Ann", "Bob", "Cid", "Dee"]);
    assert_eq!(
        t.move_header_to_first_row(),
        Err("Aucun header défini, impossible de le réinsérer".to_string())
    );
}

#[test]
fn first_line_as_header_undoes_move_header_to_first_row() {
    let mut t = people();
    t.move_header_to_first_row().unwrap();
    t.first_line_as_header().unwrap();
    assert_eq!(titles(&t), vec!["Name", "City", "Age"]);
    assert_eq!(column(&t, 0), vec!["Ann", "Bob", "Cid", "Dee"]);
}

#[test]
fn move_header_undoes_first_line_as_header() {
    let mut t = Table::new(2, 2, "T".to_string());
    t.set_cell_value(0, 0, Some("a".to_string())).unwrap();
    t.set_cell_value(1, 1, Some("b".to_string())).unwrap();
    t.first_line_as_header().unwrap();
    t.move_header_to_first_row().unwrap();
    assert!(t.header.is_none());
    // the absent value of the first row comes back as an empty text
    assert_eq!(t.get(0, 0).unwrap().value(), &Some("a".to_string()));
    assert_eq!(t.get(0, 1).unwrap().value(), &Some(String::new()));
    assert_eq!(t.get_cell_text(1, 1), "b");
}

#[test]
fn get_header_without_header() {
    let t = Table::new(1, 1, "T".to_string());
    assert_eq!(t.get_header().err(), Some("No header defined".to_string()));
}

#[test]
fn set_header_title_pads_and_sets() {
    let mut t = Table::new(1, 3, "T".to_string());
    t.header = Some(Header::new(vec!["a".to_string()]));
    t.set_header_title(2, "c".to_string()).unwrap();
    assert_eq!(titles(&t), vec!["a", "", "c"]);
    assert_eq!(
        t.set_header_title(3, "d".to_string()),
        Err("column index 3 out of range (0..=2)".to_string())
    );
    let mut bare = Table::new(1, 3, "T".to_string());
    assert_eq!(
        bare.set_header_title(0, "d".to_string()),
        Err("No header defined".to_string())
    );
}

#[test]
fn column_lookup_by_title() {
    let t = people();
    assert_eq!(t.get_col_index_by_title("Age"), Ok(2));
    assert_eq!(
        t.get_col_index_by_title("Zip"),
        Err("Column title 'Zip' not found in header".to_string())
    );
    assert_eq!(t.get_cols_indices_by_titles(&["Age", "Name"]), Ok(vec![2, 0]));
    assert_eq!(
        t.get_cols_indices_by_titles(&["Age", "Zip"]),
        Err("Column title 'Zip' not found in header".to_string())
    );
    let bare = Table::new(1, 1, "T".to_string());
    assert_eq!(
        bare.get_col_index_by_title("Age"),
        Err("No header defined".to_string())
    );
    assert_eq!(
        bare.get_cols_indices_by_titles(&["Age"]),
        Err("No header defined".to_string())
    );
}

#[test]
fn set_cell_value_by_title() {
    let mut t = people();
    t.set_cell_value_by_title(1, "City", Some("Nice".to_string()))
        .unwrap();
    assert_eq!(t.get_cell_text(1, 1), "Nice");
    assert_eq!(
        t.set_cell_value_by_title(1, "Zip", None),
        Err("Column title 'Zip' not found in header".to_string())
    );
    assert_eq!(
        t.set_cell_value_by_title(9, "City", None),
        Err("row index 9 out of range (0..=3)".to_string())
    );
    let mut bare = Table::new(1, 1, "T".to_string());
    assert_eq!(
        bare.set_cell_value_by_title(0, "City", None),
        Err("No header defined".to_string())
    );
}

#[test]
fn remove_cols_removes_each_listed_column_once() {
    let mut t = people();
    t.remove_cols(&[2, 0, 2]).unwrap();
    assert_eq!(t.get_nb_cols(), 1);
    assert_eq!(titles(&t), vec!["City"]);
    assert_eq!(column(&t, 0), vec!["Paris", "Lyon", "Paris", "Parisot"]);
    t.remove_cols(&[]).unwrap();
    assert_eq!(t.get_nb_cols(), 1);
}

#[test]
fn remove_cols_refuses_an_index_past_the_end() {
    let mut t = people();
    assert_eq!(
        t.remove_cols(&[0, 7, 5]),
        Err("column index 7 out of range (0..2)".to_string())
    );
    // nothing was removed
    assert_eq!(t.get_nb_cols(), 3);
    assert_eq!(titles(&t), vec!["Name", "City", "Age"]);
}

#[test]
fn keep_cols_keeps_only_the_listed_columns() {
    let mut t = people();
    t.keep_cols(&[2, 0, 2]).unwrap();
    assert_eq!(t.get_nb_cols(), 2);
    assert_eq!(titles(&t), vec!["Name", "Age"]);
    assert_eq!(column(&t, 1), vec!["31", "25", "40", "31"]);
}

#[test]
fn keep_cols_with_every_column_keeps_the_table() {
    let mut t = people();
    t.keep_cols(&[1, 0, 2]).unwrap();
    assert_eq!(t.get_nb_cols(), 3);
    assert_eq!(titles(&t), vec!["Name", "City", "Age"]);
    assert_eq!(column(&t, 2), vec!["31", "25", "40", "31"]);
}

#[test]
fn keep_cols_with_no_column_removes_all() {
    let mut t = people();
    t.keep_cols(&[]).unwrap();
    assert_eq!(t.get_nb_cols(), 0);
    assert_eq!(t.get_nb_rows(), 4);
    assert!(t.get_row(0).unwrap().is_empty());
    assert!(titles(&t).is_empty());
}

#[test]
fn keep_cols_refuses_an_index_past_the_end() {
    let mut t = people();
    assert_eq!(
        t.keep_cols(&[1, 4]),
        Err("column index 4 out of range (0..=2)".to_string())
    );
    assert_eq!(t.get_nb_cols(), 3);
}

#[test]
fn find_occurrences_exact_and_contains() {
    let t = people();
    let exact = t
        .find_occurrences_in_column(1, "Paris", MatchMode::Exact)
        .unwrap();
    assert_eq!(
        exact,
        vec![
            MatchResult { row_idx: 0, occurrence: 1 },
            MatchResult { row_idx: 2, occurrence: 2 }
        ]
    );
    let contains = t
        .find_occurrences_in_column(1, "Paris", MatchMode::Contains)
        .unwrap();
    assert_eq!(contains.len(), 3);
    assert_eq!(contains[2], MatchResult { row_idx: 3, occurrence: 3 });
    let none = t
        .find_occurrences_in_column(0, "Zed", MatchMode::Contains)
        .unwrap();
    assert!(none.is_empty());
    // the empty needle is contained in every text
    let all = t
        .find_occurrences_in_column(0, "", MatchMode::Contains)
        .unwrap();
    assert_eq!(all.len(), 4);
    assert_eq!(
        t.find_occurrences_in_column(5, "x", MatchMode::Exact).err(),
        Some("Indice de colonne invalide: 5 (max = 2)".to_string())
    );
}

#[test]
fn find_occurrences_matches_absent_values_as_empty_text() {
    let t = Table::new(3, 1, "T".to_string());
    let hits = t
        .find_occurrences_in_column(0, "", MatchMode::Exact)
        .unwrap();
    assert_eq!(hits.len(), 3);
    let empty = Table::new(0, 0, "E".to_string());
    assert_eq!(
        empty.find_occurrences_in_column(0, "", MatchMode::Exact).err(),
        Some("Indice de colonne invalide: 0 (max = 0)".to_string())
    );
}

#[test]
fn find_duplicates_counts_each_text() {
    let t = people();
    let ages = t.find_duplicates_in_column(2).unwrap();
    assert_eq!(
        ages,
        vec![
            MatchResult { row_idx: 0, occurrence: 1 },
            MatchResult { row_idx: 1, occurrence: 1 },
            MatchResult { row_idx: 2, occurrence: 1 },
            MatchResult { row_idx: 3, occurrence: 2 }
        ]
    );
    let cities = t.find_duplicates_in_column(1).unwrap();
    assert_eq!(cities[2].occurrence, 2);
    assert_eq!(cities[3].occurrence, 1);
    assert_eq!(
        t.find_duplicates_in_column(3).err(),
        Some("Indice de colonne invalide: 3 (max = 2)".to_string())
    );
}

#[test]
fn find_rows_matching_value_compares_values() {
    let mut t = people();
    t.set_cell_value(1, 1, None).unwrap();
    assert_eq!(
        t.find_rows_matching_value(1, &Some("Paris".to_string())),
        Ok(vec![0, 2])
    );
    let absent: Value = None;
    assert_eq!(t.find_rows_matching_value(1, &absent), Ok(vec![1]));
    assert_eq!(
        t.find_rows_matching_value(1, &Some("Rome".to_string())),
        Ok(vec![])
    );
    assert_eq!(
        t.find_rows_matching_value(3, &absent),
        Err("column index 3 out of range (0..=2)".to_string())
    );
}

#[test]
fn str_col_to_index_reads_labels() {
    assert_eq!(Table::str_col_to_index("A"), Some(1));
    assert_eq!(Table::str_col_to_index("Z"), Some(26));
    assert_eq!(Table::str_col_to_index("AA"), Some(27));
    assert_eq!(Table::str_col_to_index("AZ"), Some(52));
    assert_eq!(Table::str_col_to_index("ZZ"), Some(702));
    assert_eq!(Table::str_col_to_index("XFD"), Some(16384));
    assert_eq!(Table::str_col_to_index(""), None);
    assert_eq!(Table::str_col_to_index("A1"), None);
    assert_eq!(Table::str_col_to_index("é"), None);
}

#[test]
fn str_col_to_index_ignores_case() {
    assert_eq!(Table::str_col_to_index("ab"), Table::str_col_to_index("AB"));
    assert_eq!(Table::str_col_to_index("xfd"), Some(16384));
    assert_eq!(Table::str_col_to_index("aZ"), Some(52));
}

#[test]
fn str_col_to_index_refuses_a_long_label_with_a_non_letter() {
    assert_eq!(Table::str_col_to_index("AAAAAAAAAAAAAAAAAAAA1"), None);
    assert_eq!(Table::str_col_to_index("ZZZZZZZZZZZZZZZZZZZZ ZZ"), None);
}

#[test]
fn str_col_to_index_appends_letters() {
    assert_eq!(Table::str_col_to_index("AB"), Some(28));
    assert_eq!(Table::str_col_to_index("ABC"), Some(28 * 26 + 3));
    assert_eq!(Table::str_col_to_index("abz"), Some(28 * 26 + 26));
}
