//! Laying tables out as the sheets of an xlsx workbook.
//!
//! The workbook is built in memory with `umya_spreadsheet`; saving it to a
//! file is left to the caller. A workbook is modelled as its sheets, in
//! order: each sheet's name and the texts of its cells, keyed by their
//! 1-based (column, row) coordinates.

use vstd::prelude::*;
use crate::table::Table;
use umya_spreadsheet::Cell as SheetCell;

verus! {

// -------------------------------------------------------------------------
// The outside workbook and what the library states of it
// -------------------------------------------------------------------------

#[verifier::external_type_specification]
#[verifier::external_body]
pub struct ExWorkbook(umya_spreadsheet::Workbook);

#[verifier::external_type_specification]
#[verifier::external_body]
pub struct ExWorksheet(umya_spreadsheet::Worksheet);

#[verifier::external_type_specification]
#[verifier::external_body]
pub struct ExSheetCell(SheetCell);

#[verifier::external_type_specification]
#[verifier::external_body]
pub struct ExXlsxError(umya_spreadsheet::XlsxError);

/// The sheets of a workbook, in order: each one's name and the texts of its
/// cells by (column, row).
pub uninterp spec fn workbook_sheets(book: umya_spreadsheet::Workbook) -> Seq<(Seq<char>, Map<(u32, u32), Seq<char>>)>;

/// The name of a worksheet.
pub uninterp spec fn worksheet_name(ws: umya_spreadsheet::Worksheet) -> Seq<char>;

/// The texts of the cells of a worksheet, by (column, row).
pub uninterp spec fn worksheet_cells(ws: umya_spreadsheet::Worksheet) -> Map<(u32, u32), Seq<char>>;

/// The text that a worksheet cell holds.
pub uninterp spec fn sheet_cell_text(c: SheetCell) -> Seq<char>;

/// Every sheet of the workbook is held parsed in memory: none is waiting,
/// as read lazily from a file, to be parsed on first access.
pub uninterp spec fn workbook_parsed(book: umya_spreadsheet::Workbook) -> bool;

/// The worksheet is held parsed in memory, not as raw data read lazily
/// from a file.
pub uninterp spec fn worksheet_parsed(ws: umya_spreadsheet::Worksheet) -> bool;

/// `umya_spreadsheet::new_file`: a new workbook whose only sheet is an
/// empty one named "Sheet1", built in memory.
#[verifier::external_body]
fn new_workbook() -> (book: umya_spreadsheet::Workbook)
    ensures
        workbook_sheets(book) == seq![("Sheet1"@, Map::<(u32, u32), Seq<char>>::empty())],
        workbook_parsed(book),
{
    umya_spreadsheet::new_file()
}

/// `Workbook::new_sheet`: appends an empty sheet with the given name, built
/// in memory, and fails, leaving the workbook as it was, when a sheet
/// already has that name.
#[verifier::external_body]
fn new_sheet(book: &mut umya_spreadsheet::Workbook, name: &str) -> (r: Result<(), umya_spreadsheet::XlsxError>)
    ensures
        workbook_parsed(*final(book)) == workbook_parsed(*old(book)),
        r is Err <==> exists|i: int|
            0 <= i < workbook_sheets(*old(book)).len() && (#[trigger] workbook_sheets(*old(book))[i]).0
                == name@,
        r is Ok ==> workbook_sheets(*final(book)) == workbook_sheets(*old(book)).push(
            (name@, Map::<(u32, u32), Seq<char>>::empty()),
        ),
        r is Err ==> workbook_sheets(*final(book)) == workbook_sheets(*old(book)),
{
    match book.new_sheet(name) {
        Ok(_) => Ok(()),
        Err(e) => Err(e),
    }
}

/// `Workbook::sheet_mut`: the sheet at `index`, to change in place; fails,
/// leaving the workbook as it was, past the last sheet. Only for a workbook
/// whose sheets are all parsed: a sheet read lazily would be parsed here,
/// which can fail, and nothing is stated of that.
#[verifier::external_body]
fn sheet_mut(book: &mut umya_spreadsheet::Workbook, index: usize) -> (r: Result<
    &mut umya_spreadsheet::Worksheet,
    umya_spreadsheet::XlsxError,
>)
    requires
        workbook_parsed(*old(book)),
    ensures
        r is Ok ==> worksheet_parsed(*r.unwrap()),
        r is Ok ==> (worksheet_parsed(*final(r.unwrap())) ==> workbook_parsed(*final(book))),
        r is Err ==> workbook_parsed(*final(book)),
        r is Ok <==> index < workbook_sheets(*old(book)).len(),
        r is Ok ==> worksheet_name(*r.unwrap()) == workbook_sheets(*old(book))[index as int].0
            && worksheet_cells(*r.unwrap()) == workbook_sheets(*old(book))[index as int].1,
        r is Ok ==> workbook_sheets(*final(book)) == workbook_sheets(*old(book)).update(
            index as int,
            (worksheet_name(*final(r.unwrap())), worksheet_cells(*final(r.unwrap()))),
        ),
        r is Err ==> workbook_sheets(*final(book)) == workbook_sheets(*old(book)),
{
    book.sheet_mut(index)
}

/// `Worksheet::cell_mut`: the cell at the 1-based (`col`, `row`), made
/// when it does not exist yet, to change in place. The sheet keeps its name
/// and stays parsed or not as it was, and the cell's text is what the cell
/// finally holds.
#[verifier::external_body]
fn cell_mut(ws: &mut umya_spreadsheet::Worksheet, col: u32, row: u32) -> (c: &mut SheetCell)
    requires
        col >= 1,
        row >= 1,
    ensures
        worksheet_parsed(*final(ws)) == worksheet_parsed(*old(ws)),
        worksheet_name(*final(ws)) == worksheet_name(*old(ws)),
        worksheet_cells(*final(ws)) == worksheet_cells(*old(ws)).insert((col, row), sheet_cell_text(*final(c))),
{
    ws.cell_mut((col, row))
}

/// `Cell::set_value_string`: the cell holds the text `value`.
#[verifier::external_body]
fn set_value_string(c: &mut SheetCell, value: &str)
    ensures
        sheet_cell_text(*final(c)) == value@,
{
    c.set_value_string(value);
}

/// `Workbook::remove_sheet`: removes the sheet at `index`; fails, leaving the
/// workbook as it was, past the last sheet. A workbook whose sheets are all
/// parsed stays so.
#[verifier::external_body]
fn remove_sheet(book: &mut umya_spreadsheet::Workbook, index: usize) -> (r: Result<(), umya_spreadsheet::XlsxError>)
    ensures
        workbook_parsed(*old(book)) ==> workbook_parsed(*final(book)),
        r is Ok <==> index < workbook_sheets(*old(book)).len(),
        r is Ok ==> workbook_sheets(*final(book)) == workbook_sheets(*old(book)).remove(index as int),
        r is Err ==> workbook_sheets(*final(book)) == workbook_sheets(*old(book)),
{
    book.remove_sheet(index)
}

// -------------------------------------------------------------------------
// What a table becomes in a sheet
// -------------------------------------------------------------------------

/// The 1-based sheet coordinate of a 0-based index, as `i as u32 + 1`
/// computes it.
pub open spec fn sheet_coord(i: int) -> u32 {
    ((i as u32) + 1) as u32
}

/// The cells `m` once the values of `row` (row `r` of a table) are written,
/// from left to right; absent values are not written.
pub open spec fn row_written(
    m: Map<(u32, u32), Seq<char>>,
    r: int,
    row: Seq<Option<Seq<char>>>,
) -> Map<(u32, u32), Seq<char>>
    decreases row.len(),
{
    if row.len() == 0 {
        m
    } else {
        let prev = row_written(m, r, row.drop_last());
        match row.last() {
            Some(s) => prev.insert((sheet_coord(row.len() - 1), sheet_coord(r)), s),
            None => prev,
        }
    }
}

/// The cells `m` once the rows are written, from top to bottom.
pub open spec fn rows_written(m: Map<(u32, u32), Seq<char>>, rows: Seq<Seq<Option<Seq<char>>>>) -> Map<
    (u32, u32),
    Seq<char>,
>
    decreases rows.len(),
{
    if rows.len() == 0 {
        m
    } else {
        row_written(rows_written(m, rows.drop_last()), rows.len() - 1, rows.last())
    }
}

/// Every cell that holds a value has a row and a column whose sheet
/// coordinate does not overflow a `u32`.
pub open spec fn coords_fit(rows: Seq<Seq<Option<Seq<char>>>>) -> bool {
    forall|r: int, c: int|
        0 <= r < rows.len() && 0 <= c < rows[r].len() && (#[trigger] rows[r][c]) is Some ==> (r as u32)
            < u32::MAX && (c as u32) < u32::MAX
}

/// The name at `k` is "Sheet1", the name of the sheet that a new workbook
/// starts with, or a name that comes earlier.
pub open spec fn sheet_name_clash(names: Seq<Seq<char>>, k: int) -> bool {
    names[k] == "Sheet1"@ || exists|j: int| 0 <= j < k && names[j] == names[k]
}

/// The names of the tables.
pub open spec fn table_names(tables: Seq<Table>) -> Seq<Seq<char>> {
    tables.map_values(|t: Table| t@.name)
}

/// Why tables could not be laid out as sheets.
#[derive(Debug)]
pub enum WriteError {
    /// Two sheets would have this name.
    DuplicateSheetName(String),
}

/// Writes the cells of `table` that hold a value into the sheet at `index`.
fn write_table_cells(book: &mut umya_spreadsheet::Workbook, index: usize, table: &Table)
    requires
        index < workbook_sheets(*old(book)).len(),
        coords_fit(table@.rows),
        workbook_parsed(*old(book)),
    ensures
        workbook_parsed(*final(book)),
        workbook_sheets(*final(book)) == workbook_sheets(*old(book)).update(
            index as int,
            (
                workbook_sheets(*old(book))[index as int].0,
                rows_written(workbook_sheets(*old(book))[index as int].1, table@.rows),
            ),
        ),
{
    let ghost start = workbook_sheets(*book);
    let ghost name = start[index as int].0;
    let ghost cells0 = start[index as int].1;
    let ghost rows = table@.rows;
    let table_rows = table.iter_rows();
    let n = table_rows.len();
    for r in 0..n
        invariant
            n == rows.len(),
            rows == table@.rows,
            crate::table::rows_view(table_rows@) == rows,
            coords_fit(rows),
            index < start.len(),
            workbook_parsed(*book),
            workbook_sheets(*book) == start.update(index as int, (name, rows_written(cells0, rows.take(r as int)))),
    {
        assert(rows.take(r + 1).drop_last() =~= rows.take(r as int));
        let ghost before = rows_written(cells0, rows.take(r as int));
        let cells = table_rows[r].iter_cells();
        assert(table_rows@[r as int]@ == rows[r as int]);
        let m = cells.len();
        for c in 0..m
            invariant
                m == rows[r as int].len(),
                r < rows.len(),
                cells@.len() == m,
                forall|j: int| 0 <= j < m ==> (#[trigger] cells@[j]).1@ == rows[r as int][j],
                coords_fit(rows),
                index < start.len(),
                workbook_parsed(*book),
                workbook_sheets(*book) == start.update(
                    index as int,
                    (name, row_written(before, r as int, rows[r as int].take(c as int))),
                ),
        {
            assert(rows[r as int].take(c + 1).drop_last() =~= rows[r as int].take(c as int));
            let cell = cells[c].1;
            match cell.value() {
                Some(v) => {
                    assert(rows[r as int][c as int] is Some);
                    if let Ok(ws) = sheet_mut(book, index) {
                        let sc = cell_mut(ws, (c as u32) + 1, (r as u32) + 1);
                        set_value_string(sc, v.as_str());
                    }
                },
                None => {},
            }
        }
        assert(rows[r as int].take(m as int) =~= rows[r as int]);
    }
    assert(rows.take(n as int) =~= rows);
}

impl Table {
    /// Lays the tables out as the sheets of a new workbook, one sheet per
    /// table, named after it, in order; each cell that holds a value goes to
    /// the 1-based (column, row) of its position. Fails when two sheets would
    /// have the same name (counting "Sheet1", which a new workbook starts with
    /// and which is removed at the end).
    pub fn tables_to_workbook(sheets: &[Table]) -> (r: Result<umya_spreadsheet::Workbook, WriteError>)
        requires
            forall|i: int| 0 <= i < sheets@.len() ==> coords_fit(#[trigger] sheets@[i]@.rows),
        ensures
            r is Ok <==> forall|k: int| 0 <= k < sheets@.len() ==> !sheet_name_clash(table_names(sheets@), k),
            r matches Err(WriteError::DuplicateSheetName(n)) ==> exists|k: int|
                0 <= k < sheets@.len() && sheet_name_clash(table_names(sheets@), k) && (forall|j: int|
                    0 <= j < k ==> !sheet_name_clash(table_names(sheets@), j)) && n@ == sheets@[k]@.name,
            r is Ok ==> workbook_sheets(r.unwrap()) == Seq::new(
                sheets@.len(),
                |i: int| (sheets@[i]@.name, rows_written(Map::empty(), sheets@[i]@.rows)),
            ),
    {
        let ghost names = table_names(sheets@);
        let ghost empty = Map::<(u32, u32), Seq<char>>::empty();
        let mut book = new_workbook();
        let n = sheets.len();
        for i in 0..n
            invariant
                n == sheets@.len(),
                names == table_names(sheets@),
                empty == Map::<(u32, u32), Seq<char>>::empty(),
                forall|k: int| 0 <= k < sheets@.len() ==> coords_fit(#[trigger] sheets@[k]@.rows),
                forall|k: int| 0 <= k < i ==> !sheet_name_clash(names, k),
                workbook_parsed(book),
                workbook_sheets(book) == seq![("Sheet1"@, empty)] + Seq::new(
                    i as nat,
                    |k: int| (sheets@[k]@.name, rows_written(empty, sheets@[k]@.rows)),
                ),
        {
            let t = &sheets[i];
            let ghost before = workbook_sheets(book);
            proof {
                assert(names[i as int] == t@.name);
                assert(sheet_name_clash(names, i as int) <==> exists|j: int|
                    0 <= j < before.len() && (#[trigger] before[j]).0 == t@.name) by {
                    if sheet_name_clash(names, i as int) {
                        if names[i as int] == "Sheet1"@ {
                            assert(before[0].0 == t@.name);
                        } else {
                            let j = choose|j: int| 0 <= j < i && names[j] == names[i as int];
                            assert(before[j + 1].0 == t@.name);
                        }
                    }
                    if exists|j: int| 0 <= j < before.len() && (#[trigger] before[j]).0 == t@.name {
                        let j = choose|j: int| 0 <= j < before.len() && (#[trigger] before[j]).0 == t@.name;
                        if j > 0 {
                            assert(names[j - 1] == names[i as int]);
                        }
                    }
                }
            }
            let nm = t.name();
            assert(nm@ == t@.name);
            let res = new_sheet(&mut book, nm);
            match res {
                Ok(()) => {},
                Err(_) => {
                    return Err(WriteError::DuplicateSheetName(t.name().to_owned()));
                },
            }
            let ghost pushed = workbook_sheets(book);
            assert(pushed == before.push((t@.name, empty)));
            write_table_cells(&mut book, i + 1, t);
            assert(workbook_sheets(book) == pushed.update(i + 1, (t@.name, rows_written(empty, t@.rows))));
            assert(sheets@[i as int] == *t);
            assert(workbook_sheets(book) =~= seq![("Sheet1"@, empty)] + Seq::new(
                (i + 1) as nat,
                |k: int| (sheets@[k]@.name, rows_written(empty, sheets@[k]@.rows)),
            ));
        }
        let removed = remove_sheet(&mut book, 0);
        assert(removed is Ok);
        assert(workbook_sheets(book) =~= Seq::new(
            sheets@.len(),
            |i: int| (sheets@[i]@.name, rows_written(empty, sheets@[i]@.rows)),
        ));
        Ok(book)
    }

    /// Lays the table out as the only sheet of a new workbook, named after
    /// the table; each cell that holds a value goes to the 1-based (column,
    /// row) of its position. Fails when the table is named "Sheet1", the
    /// name of the sheet that a new workbook starts with.
    pub fn to_workbook(&self) -> (r: Result<umya_spreadsheet::Workbook, WriteError>)
        requires
            coords_fit(self@.rows),
        ensures
            r is Ok <==> self@.name != "Sheet1"@,
            r matches Err(WriteError::DuplicateSheetName(n)) ==> n@ == self@.name,
            r is Ok ==> workbook_sheets(r.unwrap()) == seq![
                (self@.name, rows_written(Map::empty(), self@.rows)),
            ],
    {
        let mut book = new_workbook();
        let nm = self.name();
        assert(workbook_sheets(book)[0].0 == "Sheet1"@);
        match new_sheet(&mut book, nm) {
            Ok(()) => {},
            Err(_) => {
                return Err(WriteError::DuplicateSheetName(nm.to_owned()));
            },
        }
        write_table_cells(&mut book, 1, self);
        let removed = remove_sheet(&mut book, 0);
        assert(removed is Ok);
        assert(workbook_sheets(book) =~= seq![(self@.name, rows_written(Map::empty(), self@.rows))]);
        Ok(book)
    }

    /// The sheet to read: the one asked for, or else the first of the
    /// workbook; fails when none is asked for and the workbook has no sheet.
    pub fn choose_sheet_name(requested: Option<&str>, sheet_names: &[String]) -> (r: Result<String, String>)
        ensures
            requested matches Some(name) ==> r matches Ok(s) && s@ == name@,
            requested is None && sheet_names@.len() > 0 ==> (r matches Ok(s) && s@ == sheet_names@[0]@),
            requested is None && sheet_names@.len() == 0 ==> (r matches Err(e) && e@ == no_sheet_text()),
    {
        match requested {
            Some(name) => Ok(name.to_owned()),
            None => {
                if sheet_names.len() > 0 {
                    Ok(sheet_names[0].clone())
                } else {
                    Err(no_sheet_message())
                }
            },
        }
    }
}

/// The message of a workbook without sheets.
pub open spec fn no_sheet_text() -> Seq<char> {
    "The workbook has no sheet"@
}

fn no_sheet_message() -> (s: String)
    ensures
        s@ == no_sheet_text(),
{
    "The workbook has no sheet".to_owned()
}

} // verus!
