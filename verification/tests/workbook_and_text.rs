use spreadsheet::excel::WriteError;
use spreadsheet::table::Table;
use spreadsheet::text::{chars_contain, chars_of, decimal_string, str_contains};

fn small(name: &str) -> Table {
    let mut t = Table::new(2, 3, name.to_string());
    t.set_cell_value(0, 0, Some("a".to_string())).unwrap();
    t.set_cell_value(1, 2, Some("f".to_string())).unwrap();
    t
}

#[test]
fn to_workbook_writes_one_sheet() {
    let t = small("Data");
    let book = t.to_workbook().unwrap();
    assert_eq!(book.sheet_count(), 1);
    let sheet = book.sheet(0).unwrap();
    assert_eq!(sheet.name(), "Data");
    assert_eq!(sheet.value((1, 1)), "a");
    assert_eq!(sheet.value((3, 2)), "f");
    // cells without a value are not written
    assert!(sheet.cell((2, 1)).is_none());
    assert!(sheet.cell((1, 2)).is_none());
}

#[test]
fn to_workbook_refuses_the_default_sheet_name() {
    let t = small("Sheet1");
    match t.to_workbook() {
        Err(WriteError::DuplicateSheetName(n)) => assert_eq!(n, "Sheet1"),
        Ok(_) => panic!("a table named Sheet1 clashes with the default sheet"),
    }
}

#[test]
fn tables_to_workbook_writes_one_sheet_per_table() {
    let tables = vec![small("One"), small("Two")];
    let book = Table::tables_to_workbook(&tables).unwrap();
    assert_eq!(book.sheet_count(), 2);
    assert_eq!(book.sheet(0).unwrap().name(), "One");
    assert_eq!(book.sheet(1).unwrap().name(), "Two");
    assert_eq!(book.sheet(1).unwrap().value((3, 2)), "f");
}

#[test]
fn tables_to_workbook_refuses_duplicate_names() {
    let tables = vec![small("One"), small("Two"), small("One")];
    match Table::tables_to_workbook(&tables) {
        Err(WriteError::DuplicateSheetName(n)) => assert_eq!(n, "One"),
        Ok(_) => panic!("two sheets named One"),
    }
    let none: Vec<Table> = vec![];
    let book = Table::tables_to_workbook(&none).unwrap();
    assert_eq!(book.sheet_count(), 0);
}

#[test]
fn choose_sheet_name_prefers_the_request() {
    let names = vec!["First".to_string(), "Second".to_string()];
    assert_eq!(
        Table::choose_sheet_name(Some("Second"), &names),
        Ok("Second".to_string())
    );
    assert_eq!(Table::choose_sheet_name(None, &names), Ok("First".to_string()));
    assert_eq!(
        Table::choose_sheet_name(None, &[]),
        Err("The workbook has no sheet".to_string())
    );
    assert_eq!(
        Table::choose_sheet_name(Some("Other"), &[]),
        Ok("Other".to_string())
    );
}

#[test]
fn decimal_string_matches_to_string() {
    for n in [0usize, 7, 10, 99, 100, 1234567, usize::MAX] {
        assert_eq!(decimal_string(n), n.to_string());
    }
}

#[test]
fn contains_matches_str_contains() {
    let cases = [
        ("Parisot", "Paris"),
        ("Paris", "Parisot"),
        ("abc", ""),
        ("", ""),
        ("", "a"),
        ("aaab", "aab"),
        ("déjà vu", "jà"),
        ("abc", "abd"),
    ];
    for (hay, needle) in cases.iter() {
        assert_eq!(str_contains(hay, needle), hay.contains(needle), "{hay} / {needle}");
        let h = chars_of(hay);
        let n = chars_of(needle);
        assert_eq!(chars_contain(&h, &n), hay.contains(needle));
    }
    assert_eq!(chars_of("déjà"), vec!['d', 'é', 'j', 'à']);
}
