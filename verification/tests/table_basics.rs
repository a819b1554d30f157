use spreadsheet::table::{Cell, Header, Row, Table, Value};

fn sample() -> Table {
    // 3 rows x 4 columns, cell (r, c) = "r{r}c{c}"
    let mut t = Table::new(3, 4, "Sample".to_string());
    for r in 0..3 {
        for c in 0..4 {
            t.set_cell_value(r, c, Some(format!("r{r}c{c}"))).unwrap();
        }
    }
    t
}

fn row_texts(row: &Row) -> Vec<Value> {
    row.iter_cells().into_iter().map(|(_, c)| c.value().clone()).collect()
}

#[test]
fn new_table_is_empty_and_rectangular() {
    let t = Table::new(2, 3, "T".to_string());
    assert_eq!(t.get_nb_rows(), 2);
    assert_eq!(t.get_nb_cols(), 3);
    assert_eq!(t.name(), "T");
    assert!(t.header.is_none());
    for r in 0..2 {
        assert_eq!(t.get_row(r).unwrap().len(), 3);
        for c in 0..3 {
            assert_eq!(t.get(r, c).unwrap().value(), &None);
        }
    }
    assert!(t.get(2, 0).is_none());
    assert!(t.get(0, 3).is_none());
}

#[test]
fn new_table_without_rows_or_columns() {
    let t = Table::new(0, 5, "Empty".to_string());
    assert_eq!(t.get_nb_rows(), 0);
    assert_eq!(t.get_nb_cols(), 5);
    let t = Table::new(4, 0, "Narrow".to_string());
    assert_eq!(t.get_nb_rows(), 4);
    assert!(t.get_row(0).unwrap().is_empty());
}

#[test]
fn set_name_changes_the_name() {
    let mut t = Table::new(1, 1, "Old".to_string());
    t.set_name("New".to_string());
    assert_eq!(t.name(), "New");
}

#[test]
fn get_cell_text_gives_empty_text_for_absent_values() {
    let mut t = Table::new(2, 2, "T".to_string());
    t.set_cell_value(1, 1, Some("x".to_string())).unwrap();
    assert_eq!(t.get_cell_text(1, 1), "x");
    assert_eq!(t.get_cell_text(0, 0), "");
    assert_eq!(t.get_cell_text(5, 0), "");
    assert_eq!(t.get_cell_text(0, 5), "");
}

#[test]
fn set_cell_value_then_read_back() {
    let mut t = sample();
    t.set_cell_value(1, 2, Some("new".to_string())).unwrap();
    assert_eq!(t.get_cell_text(1, 2), "new");
    // every other cell is unchanged
    for r in 0..3 {
        for c in 0..4 {
            if (r, c) != (1, 2) {
                assert_eq!(t.get_cell_text(r, c), format!("r{r}c{c}"));
            }
        }
    }
    t.set_cell_value(1, 2, None).unwrap();
    assert_eq!(t.get(1, 2).unwrap().value(), &None);
}

#[test]
fn set_cell_value_errors() {
    let mut t = sample();
    assert_eq!(
        t.set_cell_value(5, 0, Some("x".to_string())),
        Err("row index 5 out of range (0..=2)".to_string())
    );
    assert_eq!(
        t.set_cell_value(0, 9, Some("x".to_string())),
        Err("column index 9 out of range (0..=3)".to_string())
    );
    let mut empty = Table::new(0, 0, "E".to_string());
    assert_eq!(
        empty.set_cell_value(0, 0, None),
        Err("row index 0 out of range (0..=0)".to_string())
    );
    let mut no_cols = Table::new(1, 0, "E".to_string());
    assert_eq!(
        no_cols.set_cell_value(0, 0, None),
        Err("column index 0 out of range (0..=0)".to_string())
    );
}

#[test]
fn get_mut_changes_the_cell_in_place() {
    let mut t = sample();
    t.get_mut(2, 3).unwrap().set_value("changed".to_string());
    assert_eq!(t.get_cell_text(2, 3), "changed");
    assert!(t.get_mut(3, 0).is_none());
    assert!(t.get_mut(0, 4).is_none());
}

#[test]
fn insert_row_inserts_an_empty_row() {
    let mut t = sample();
    t.insert_row(1).unwrap();
    assert_eq!(t.get_nb_rows(), 4);
    assert_eq!(row_texts(t.get_row(1).unwrap()), vec![None, None, None, None]);
    assert_eq!(t.get_cell_text(2, 0), "r1c0");
    t.insert_row(4).unwrap();
    assert_eq!(t.get_nb_rows(), 5);
    assert_eq!(
        t.insert_row(7),
        Err("row index 7 out of range (0..=5)".to_string())
    );
    assert_eq!(t.get_nb_rows(), 5);
}

#[test]
fn remove_row_returns_the_row() {
    let mut t = sample();
    let row = t.remove_row(1).unwrap();
    assert_eq!(
        row_texts(&row),
        vec![
            Some("r1c0".to_string()),
            Some("r1c1".to_string()),
            Some("r1c2".to_string()),
            Some("r1c3".to_string())
        ]
    );
    assert_eq!(t.get_nb_rows(), 2);
    assert_eq!(t.get_cell_text(1, 0), "r2c0");
    assert_eq!(
        t.remove_row(2).err(),
        Some("row index 2 out of range (0..1)".to_string())
    );
    let mut empty = Table::new(0, 2, "E".to_string());
    assert_eq!(
        empty.remove_row(0).err(),
        Some("row index 0 out of range (0..0)".to_string())
    );
}

#[test]
fn remove_row_undoes_insert_row() {
    let mut t = sample();
    t.insert_row(2).unwrap();
    let removed = t.remove_row(2).unwrap();
    assert_eq!(row_texts(&removed), vec![None, None, None, None]);
    let before = sample();
    assert_eq!(t.get_nb_rows(), before.get_nb_rows());
    for r in 0..3 {
        for c in 0..4 {
            assert_eq!(t.get_cell_text(r, c), before.get_cell_text(r, c));
        }
    }
}

#[test]
fn add_row_and_add_rows() {
    let mut t = sample();
    assert_eq!(t.add_row(), 3);
    assert_eq!(t.get_nb_rows(), 4);
    assert_eq!(row_texts(t.get_row(3).unwrap()), vec![None, None, None, None]);
    t.add_rows(2);
    assert_eq!(t.get_nb_rows(), 6);
    t.add_rows(0);
    assert_eq!(t.get_nb_rows(), 6);
    let mut empty = Table::new(0, 1, "E".to_string());
    assert_eq!(empty.add_row(), 0);
}

#[test]
fn insert_col_adds_an_empty_column_and_a_title() {
    let mut t = Table::from_column_titles(&["a", "b", "c"], "T");
    t.add_rows(2);
    t.set_cell_value(0, 1, Some("x".to_string())).unwrap();
    t.insert_col(1).unwrap();
    assert_eq!(t.get_nb_cols(), 4);
    assert_eq!(t.get_cell_text(0, 1), "");
    assert_eq!(t.get_cell_text(0, 2), "x");
    let titles: Vec<&str> = t.get_header().unwrap().iter();
    assert_eq!(titles, vec!["a", "Head_Col_2", "b", "c"]);
    assert_eq!(
        t.insert_col(9),
        Err("column index 9 out of range (0..=4)".to_string())
    );
}

#[test]
fn insert_col_pads_a_short_header() {
    let mut t = Table::new(1, 3, "T".to_string());
    t.header = Some(Header::new(vec!["only".to_string()]));
    t.insert_col(3).unwrap();
    let titles: Vec<&str> = t.get_header().unwrap().iter();
    assert_eq!(titles, vec!["only", "", "", "Head_Col_4"]);
}

#[test]
fn add_col_returns_the_new_index() {
    let mut t = sample();
    assert_eq!(t.add_col(), Ok(4));
    assert_eq!(t.get_nb_cols(), 5);
    assert_eq!(t.get_row(0).unwrap().len(), 5);
    assert_eq!(t.get_cell_text(0, 4), "");
}

#[test]
fn remove_col_removes_from_rows_and_header() {
    let mut t = Table::from_column_titles(&["a", "b", "c"], "T");
    t.add_row();
    t.set_cell_value(0, 2, Some("z".to_string())).unwrap();
    t.remove_col(1).unwrap();
    assert_eq!(t.get_nb_cols(), 2);
    assert_eq!(t.get_cell_text(0, 1), "z");
    let titles: Vec<&str> = t.get_header().unwrap().iter();
    assert_eq!(titles, vec!["a", "c"]);
    assert_eq!(
        t.remove_col(2),
        Err("column index 2 out of range (0..1)".to_string())
    );
}

#[test]
fn remove_col_keeps_a_short_header() {
    let mut t = Table::new(1, 3, "T".to_string());
    t.header = Some(Header::new(vec!["a".to_string()]));
    t.remove_col(2).unwrap();
    let titles: Vec<&str> = t.get_header().unwrap().iter();
    assert_eq!(titles, vec!["a"]);
    let mut empty = Table::new(0, 0, "E".to_string());
    assert_eq!(
        empty.remove_col(0),
        Err("column index 0 out of range (0..0)".to_string())
    );
}

#[test]
fn remove_col_undoes_insert_col() {
    let mut t = Table::from_column_titles(&["a", "b"], "T");
    t.add_rows(2);
    t.set_cell_value(1, 1, Some("v".to_string())).unwrap();
    t.insert_col(1).unwrap();
    t.remove_col(1).unwrap();
    assert_eq!(t.get_nb_cols(), 2);
    assert_eq!(t.get_cell_text(1, 1), "v");
    let titles: Vec<&str> = t.get_header().unwrap().iter();
    assert_eq!(titles, vec!["a", "b"]);
}

#[test]
fn cell_operations() {
    let mut t = Table::new(1, 1, "T".to_string());
    let cell: &mut Cell = t.get_mut(0, 0).unwrap();
    assert_eq!(cell.get_value_as_str(), "");
    cell.set_value("abc".to_string());
    assert_eq!(cell.value(), &Some("abc".to_string()));
    assert_eq!(cell.get_value_as_str(), "abc");
    *cell.value_mut() = Some("def".to_string());
    assert_eq!(cell.get_value_as_str(), "def");
    cell.clear();
    assert_eq!(cell.value(), &None);
}

#[test]
fn row_iteration() {
    let mut t = sample();
    let row = t.get_row(1).unwrap();
    assert_eq!(row.len(), 4);
    assert!(!row.is_empty());
    let pairs: Vec<(usize, String)> = row
        .iter_cells()
        .into_iter()
        .map(|(c, cell)| (c, cell.get_value_as_str()))
        .collect();
    assert_eq!(pairs[3], (3, "r1c3".to_string()));
    let row = t.get_row_mut(1).unwrap();
    for (c, cell) in row.iter_cells_mut() {
        assert!(c < 4);
        cell.clear();
    }
    assert_eq!(row_texts(t.get_row(1).unwrap()), vec![None, None, None, None]);
    assert!(t.get_row(3).is_none());
    assert!(t.get_row_mut(3).is_none());
}

#[test]
fn table_iteration() {
    let mut t = sample();
    let rows = t.iter_rows();
    assert_eq!(rows.len(), 3);
    let all: Vec<(usize, usize, String)> = t
        .iter_cells()
        .into_iter()
        .map(|(r, c, cell)| (r, c, cell.get_value_as_str()))
        .collect();
    assert_eq!(all.len(), 12);
    assert_eq!(all[0], (0, 0, "r0c0".to_string()));
    assert_eq!(all[5], (1, 1, "r1c1".to_string()));
    assert_eq!(all[11], (2, 3, "r2c3".to_string()));
    for (r, c, cell) in t.iter_cells_mut() {
        cell.set_value(format!("{}-{}", r, c));
    }
    assert_eq!(t.get_cell_text(2, 1), "2-1");
    for row in t.iter_rows_mut() {
        if let Some((_, cell)) = row.iter_cells_mut().into_iter().next() {
            cell.clear();
        }
    }
    assert_eq!(t.get_cell_text(1, 0), "");
    assert_eq!(t.get_cell_text(1, 1), "1-1");
}

#[test]
fn column_views() {
    let mut t = sample();
    let cols = t.iter_cols();
    assert_eq!(cols.len(), 4);
    assert_eq!(cols[2].index(), 2);
    let texts: Vec<String> = cols[2]
        .iter_cells()
        .into_iter()
        .map(|c| c.get_value_as_str())
        .collect();
    assert_eq!(texts, vec!["r0c2", "r1c2", "r2c2"]);
    let col = t.get_col(1).unwrap();
    assert_eq!(col.index(), 1);
    assert_eq!(col.iter_cells()[2].get_value_as_str(), "r2c1");
    assert!(t.get_col(4).is_none());
    let cells = t.col_cells(3).unwrap();
    assert_eq!(cells.len(), 3);
    assert_eq!(cells[1].0, 1);
    assert_eq!(cells[1].1.get_value_as_str(), "r1c3");
    assert!(t.col_cells(4).is_none());
    for (r, cell) in t.col_cells_mut(0).unwrap() {
        cell.set_value(format!("row {r}"));
    }
    assert_eq!(t.get_cell_text(2, 0), "row 2");
    assert_eq!(t.get_cell_text(2, 1), "r2c1");
    assert!(t.col_cells_mut(4).is_none());
}

#[test]
fn from_range_makes_the_table_rectangular() {
    let range: Vec<Vec<Value>> = vec![
        vec![Some("a".to_string())],
        vec![Some("b".to_string()), None, Some("c".to_string())],
        vec![],
    ];
    let t = Table::from_range(range, "Feuil1".to_string());
    assert_eq!(t.get_nb_rows(), 3);
    assert_eq!(t.get_nb_cols(), 3);
    assert_eq!(t.name(), "Feuil1");
    assert_eq!(
        row_texts(t.get_row(0).unwrap()),
        vec![Some("a".to_string()), None, None]
    );
    assert_eq!(row_texts(t.get_row(2).unwrap()), vec![None, None, None]);
    assert_eq!(t.get_cell_text(1, 2), "c");
    let empty = Table::from_range(vec![], "E".to_string());
    assert_eq!(empty.get_nb_rows(), 0);
    assert_eq!(empty.get_nb_cols(), 0);
}
