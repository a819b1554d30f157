use spreadsheet::customers::build_customer_list;
use spreadsheet::duplicates::count_duplicate_keys;
use spreadsheet::samples::sample_tables;
use spreadsheet::table::{Table, Value};

fn v(s: &str) -> Value {
    Some(s.to_string())
}

fn sheet(rows: &[&[&str]], name: &str) -> Table {
    let range: Vec<Vec<Value>> = rows
        .iter()
        .map(|r| r.iter().map(|c| if c.is_empty() { None } else { v(c) }).collect())
        .collect();
    Table::from_range(range, name.to_string())
}

const STRUCTURE_TITLES: [&str; 11] = [
    "Identifiant",
    "RaisonSociale",
    "GestionEngagement",
    "GestionService",
    "Adresse",
    "ComplementAdresse1",
    "ComplementAdresse2",
    "CodePostal",
    "Ville",
    "NumTelephone",
    "Courriel",
];

fn structures() -> Table {
    let mut first: Vec<&str> = vec!["Autre"];
    first.extend(STRUCTURE_TITLES.iter());
    let s1: Vec<&str> = vec![
        "junk", "ID1", "CODE1", "e1", "s1", "1 rue", "c1", "c2", "75000", "Paris", "0102", "a@b",
    ];
    let s2: Vec<&str> = vec![
        "junk", "ID2", "CODE9", "e2", "s2", "2 rue", "", "", "69000", "Lyon", "0304", "c@d",
    ];
    sheet(&[&first, &s1, &s2], "Structures")
}

fn services(width: usize) -> Table {
    let mut first: Vec<String> = vec!["Code".into(), "Nom".into(), "Chorus".into(), "Service".into()];
    while first.len() < width {
        first.push(format!("Extra{}", first.len()));
    }
    let row = |code: &str, tag: &str| -> Vec<String> {
        let mut r = vec![code.to_string(), format!("n{tag}"), format!("CH{tag}"), format!("SRV{tag}")];
        while r.len() < width {
            r.push(format!("x{}", r.len()));
        }
        r
    };
    let rows = vec![first, row("CODE1", "1"), row("CODE2", "2"), row("CODE1", "3")];
    let range: Vec<Vec<Value>> =
        rows.into_iter().map(|r| r.into_iter().map(Some).collect()).collect();
    Table::from_range(range, "Services".to_string())
}

#[test]
fn sample_tables_name_their_cells() {
    let tables = sample_tables();
    assert_eq!(tables.len(), 2);
    assert_eq!(tables[0].name(), "Tableau 0");
    assert_eq!(tables[1].name(), "Tableau 1");
    for t in &tables {
        assert_eq!(t.get_nb_rows(), 5);
        assert_eq!(t.get_nb_cols(), 4);
        assert!(t.get_header().is_err());
    }
    assert_eq!(tables[0].get_cell_text(0, 0), "T 0 r0c0");
    assert_eq!(tables[1].get_cell_text(4, 3), "T 1 r4c3");
    assert_eq!(tables[1].get_cell_text(2, 1), "T 1 r2c1");
}

#[test]
fn duplicate_keys_are_counted_in_order() {
    let mut t = sheet(
        &[
            &["A", "B", "C"],
            &["x", "1", "p"],
            &["y", "1", "q"],
            &["x", "1", "r"],
            &["x", "2", "s"],
            &["", "", "t"],
        ],
        "Keys",
    );
    count_duplicate_keys(&mut t);
    assert_eq!(t.get_nb_cols(), 5);
    let keys: Vec<String> = (0..t.get_nb_rows()).map(|r| t.get_cell_text(r, 3)).collect();
    assert_eq!(keys, vec!["Key", "x_1", "y_1", "x_1", "x_2", "_"]);
    let counts: Vec<String> = (0..t.get_nb_rows()).map(|r| t.get_cell_text(r, 4)).collect();
    assert_eq!(counts, vec!["Nb doublons", "1", "1", "2", "1", "1"]);
    // the cells that were there stay as they were
    assert_eq!(t.get_cell_text(3, 2), "r");
}

#[test]
fn duplicate_keys_of_a_single_row() {
    let mut t = sheet(&[&["only"]], "One");
    count_duplicate_keys(&mut t);
    assert_eq!(t.get_nb_cols(), 3);
    assert_eq!(t.get_cell_text(0, 1), "Key");
    assert_eq!(t.get_cell_text(0, 2), "Nb doublons");
}

#[test]
fn duplicate_keys_name_the_new_header_columns() {
    let mut t = sheet(&[&["a", "b", "c"], &["1", "2", "3"], &["1", "2", "4"]], "H");
    t.first_line_as_header().unwrap();
    count_duplicate_keys(&mut t);
    let h = t.get_header().unwrap();
    assert_eq!(h.iter(), vec!["a", "b", "c", "Head_Col_4", "Head_Col_5"]);
    assert_eq!(t.get_cell_text(0, 3), "Key");
    assert_eq!(t.get_cell_text(1, 3), "1_2");
    assert_eq!(t.get_cell_text(1, 4), "1");
}

#[test]
fn customer_list_puts_each_structure_before_its_services() {
    let list = build_customer_list(structures(), services(4)).unwrap();
    assert_eq!(list.name(), "Liste pour Sage");
    assert_eq!(list.get_nb_cols(), 14);
    assert_eq!(list.get_nb_rows(), 5);
    let header = list.get_header().unwrap();
    let mut titles: Vec<&str> = STRUCTURE_TITLES.to_vec();
    titles.extend(["Code Chorus", "Type", "Nom du service"]);
    assert_eq!(header.iter(), titles);
    // the first row shows the titles
    for (c, title) in titles.iter().enumerate() {
        assert_eq!(list.get_cell_text(0, c), *title);
    }
    // the first structure, then its two services
    assert_eq!(list.get_cell_text(1, 0), "ID1");
    assert_eq!(list.get_cell_text(1, 1), "CODE1");
    assert_eq!(list.get_cell_text(1, 10), "a@b");
    assert_eq!(list.get(1, 11).unwrap().value(), &None);
    assert_eq!(list.get_cell_text(1, 12), "Maison mère");
    assert_eq!(list.get(1, 13).unwrap().value(), &None);
    for (r, tag) in [(2, "1"), (3, "3")] {
        assert_eq!(list.get_cell_text(r, 0), "CODE1");
        assert_eq!(list.get_cell_text(r, 1), format!("n{tag}"));
        assert_eq!(list.get(r, 2).unwrap().value(), &None);
        assert_eq!(list.get(r, 3).unwrap().value(), &None);
        assert_eq!(list.get_cell_text(r, 11), format!("CH{tag}"));
        assert_eq!(list.get_cell_text(r, 12), "Filiale");
        assert_eq!(list.get_cell_text(r, 13), format!("SRV{tag}"));
    }
    // the second structure has no service
    assert_eq!(list.get_cell_text(4, 0), "ID2");
    assert_eq!(list.get(4, 5).unwrap().value(), &None);
    assert_eq!(list.get_cell_text(4, 12), "Maison mère");
}

#[test]
fn customer_list_lets_later_service_columns_win() {
    let list = build_customer_list(structures(), services(14)).unwrap();
    // columns 11 and 13 of the service overwrite what columns 2 and 3 put there
    assert_eq!(list.get_cell_text(2, 11), "x11");
    assert_eq!(list.get_cell_text(2, 13), "x13");
    assert_eq!(list.get_cell_text(2, 12), "Filiale");
    assert_eq!(list.get_cell_text(2, 4), "x4");
}

#[test]
fn customer_list_refuses_a_wide_matching_service() {
    match build_customer_list(structures(), services(15)) {
        Err(e) => assert_eq!(e, "column index 14 out of range (0..=13)"),
        Ok(_) => panic!("a service of 15 columns does not fit"),
    }
}

#[test]
fn customer_list_accepts_a_wide_service_that_matches_nothing() {
    let mut s = structures();
    s.set_cell_value(1, 2, v("NONE")).unwrap();
    let list = build_customer_list(s, services(15)).unwrap();
    assert_eq!(list.get_nb_rows(), 3);
}

#[test]
fn customer_list_reports_a_missing_title() {
    let mut s = structures();
    s.set_cell_value(0, 11, v("Mail")).unwrap();
    match build_customer_list(s, services(4)) {
        Err(e) => assert_eq!(e, "Column title 'Courriel' not found in header"),
        Ok(_) => panic!("Courriel is missing"),
    }
}

#[test]
fn customer_list_reports_header_problems() {
    let mut s = structures();
    s.first_line_as_header().unwrap();
    assert_eq!(
        build_customer_list(s, services(4)).err(),
        Some("Le header a déjà été extrait".to_string())
    );
    let empty = Table::new(0, 3, "Empty".to_string());
    assert_eq!(
        build_customer_list(structures(), empty).err(),
        Some("Impossible d'extraire un header d'un tableau vide".to_string())
    );
}

#[test]
fn customer_list_needs_a_service_column_to_look_up() {
    let no_cols = Table::new(1, 0, "Services".to_string());
    assert_eq!(
        build_customer_list(structures(), no_cols).err(),
        Some("column index 0 out of range (0..=0)".to_string())
    );
    // without a structure, nothing is looked up
    let only_titles = sheet(&[&STRUCTURE_TITLES], "Structures");
    let no_cols = Table::new(1, 0, "Services".to_string());
    let list = build_customer_list(only_titles, no_cols).unwrap();
    assert_eq!(list.get_nb_rows(), 1);
}
