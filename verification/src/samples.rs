//! The sample tables of the workbook demo: two tables of five rows and four
//! columns whose cells name their table, row and column.

use vstd::prelude::*;
use crate::table::{Table, TableModel};
use crate::text::{decimal, decimal_string};

verus! {

/// The text of cell (`row`, `col`) of sample table `i`: "T {i} r{row}c{col}".
pub open spec fn sample_cell_text(i: nat, row: nat, col: nat) -> Seq<char> {
    "T "@ + decimal(i) + " r"@ + decimal(row) + "c"@ + decimal(col)
}

/// Sample table `i`: named "Tableau {i}", without header, five rows of four
/// cells that all hold their text.
pub open spec fn sample_table(i: nat) -> TableModel {
    TableModel {
        rows: Seq::new(5, |r: int| Seq::new(4, |c: int| Some(sample_cell_text(i, r as nat, c as nat)))),
        nb_cols: 4,
        name: "Tableau "@ + decimal(i),
        header: None,
    }
}

fn sample_cell_string(i: usize, row: usize, col: usize) -> (s: String)
    ensures
        s@ == sample_cell_text(i as nat, row as nat, col as nat),
{
    let mut s = "T ".to_owned();
    s.append(decimal_string(i).as_str());
    s.append(" r");
    s.append(decimal_string(row).as_str());
    s.append("c");
    s.append(decimal_string(col).as_str());
    s
}

/// The two sample tables, "Tableau 0" and "Tableau 1": each is made with
/// three empty rows of four cells, gets two more rows, and then every cell
/// is given its text.
pub fn sample_tables() -> (v: Vec<Table>)
    ensures
        v@.len() == 2,
        forall|i: int| 0 <= i < 2 ==> (#[trigger] v@[i])@ == sample_table(i as nat),
        forall|i: int| 0 <= i < 2 ==> (#[trigger] v@[i])@.wf(),
{
    let mut sheets: Vec<Table> = Vec::new();
    for i in 0..2usize
        invariant
            sheets@.len() == i,
            forall|k: int| 0 <= k < i ==> (#[trigger] sheets@[k])@ == sample_table(k as nat),
            forall|k: int| 0 <= k < i ==> (#[trigger] sheets@[k])@.wf(),
    {
        let mut name = "Tableau ".to_owned();
        name.append(decimal_string(i).as_str());
        let mut t = Table::new(3, 4, name);
        t.add_rows(2);
        let ghost start = t@;
        assert(start.rows.len() == 5);
        let nr = t.get_nb_rows();
        let nc = t.get_nb_cols();
        for row in 0..nr
            invariant
                nr == 5,
                nc == 4,
                t@.wf(),
                t@.rows.len() == 5,
                t@.nb_cols == 4,
                t@.name == sample_table(i as nat).name,
                t@.header is None,
                forall|r: int, c: int|
                    0 <= r < 5 && 0 <= c < 4 ==> #[trigger] t@.rows[r][c] == if r < row {
                        Some(sample_cell_text(i as nat, r as nat, c as nat))
                    } else {
                        None
                    },
        {
            for col in 0..nc
                invariant
                    nr == 5,
                    nc == 4,
                    row < 5,
                    t@.wf(),
                    t@.rows.len() == 5,
                    t@.nb_cols == 4,
                    t@.name == sample_table(i as nat).name,
                    t@.header is None,
                    forall|r: int, c: int|
                        0 <= r < 5 && 0 <= c < 4 ==> #[trigger] t@.rows[r][c] == if r < row || (r == row
                            && c < col) {
                            Some(sample_cell_text(i as nat, r as nat, c as nat))
                        } else {
                            None
                        },
            {
                let text = sample_cell_string(i, row, col);
                let set = t.set_cell_value(row, col, Some(text));
                assert(set is Ok);
            }
        }
        proof {
            let want = sample_table(i as nat);
            assert forall|r: int| 0 <= r < 5 implies #[trigger] t@.rows[r] =~= want.rows[r] by {
                assert(t@.rows[r].len() == 4);
            }
            assert(t@.rows =~= want.rows);
        }
        sheets.push(t);
    }
    sheets
}

} // verus!
