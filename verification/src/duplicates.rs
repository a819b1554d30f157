//! Numbering duplicate keys: a table gets a key column, made of two of its
//! columns, and a column that numbers the occurrences of each key.

use vstd::prelude::*;
use crate::table::{count_in, Table, TableModel};
use crate::text::{decimal, decimal_string};

verus! {

/// The key of row `r` of a table `m`, before the key column is added: "Key"
/// in the first row, which holds the titles; elsewhere the texts of the
/// third-last and second-last columns, joined by '_'.
pub open spec fn duplicate_key_text(m: TableModel, r: int) -> Seq<char> {
    if r == 0 {
        "Key"@
    } else {
        m.cell_text(r, m.nb_cols - 3) + "_"@ + m.cell_text(r, m.nb_cols - 2)
    }
}

/// The keys of all rows of `m`.
pub open spec fn duplicate_keys(m: TableModel) -> Seq<Seq<char>> {
    Seq::new(m.rows.len(), |r: int| duplicate_key_text(m, r))
}

/// The count shown in row `r`: "Nb doublons" in the first row; elsewhere how
/// many times the row's key occurs in the rows up to and including it.
pub open spec fn duplicate_count_text(m: TableModel, r: int) -> Seq<char> {
    if r == 0 {
        "Nb doublons"@
    } else {
        decimal(count_in(duplicate_keys(m).take(r + 1), duplicate_keys(m)[r]))
    }
}

/// The table `m` once the key column and the count column are added.
pub open spec fn with_duplicate_counts(m: TableModel) -> TableModel {
    let widened = m.insert_col(m.nb_cols as int).insert_col((m.nb_cols + 1) as int);
    widened.with_rows(
        Seq::new(
            m.rows.len(),
            |r: int| m.rows[r].push(Some(duplicate_key_text(m, r))).push(Some(duplicate_count_text(m, r))),
        ),
    )
}

/// Adds two columns at the end of the table. The first holds each row's key:
/// "Key" in the first row, elsewhere the texts of the columns that were
/// third-last and second-last, joined by '_'. The second holds "Nb doublons"
/// in the first row, elsewhere how many times the row's key has occurred so
/// far, itself included. A header gets the titles of the two new columns.
pub fn count_duplicate_keys(t: &mut Table)
    requires
        old(t)@.wf(),
        old(t)@.nb_cols + 2 <= usize::MAX,
        old(t)@.rows.len() >= 2 ==> old(t)@.nb_cols >= 3,
    ensures
        final(t)@.wf(),
        final(t)@ == with_duplicate_counts(old(t)@),
{
    let ghost m = t@;
    let ghost keys = duplicate_keys(m);
    let col_idx = match t.add_col() {
        Ok(c) => c,
        Err(_) => {
            return ;
        },
    };
    let ghost widened = t@;
    let n = t.get_nb_rows();
    for row_idx in 0..n
        invariant
            n == m.rows.len(),
            col_idx == m.nb_cols,
            keys == duplicate_keys(m),
            m.wf(),
            m.rows.len() >= 2 ==> m.nb_cols >= 3,
            widened == m.insert_col(m.nb_cols as int),
            t@.wf(),
            t@ == widened.with_rows(t@.rows),
            t@.rows.len() == n,
            forall|r: int|
                0 <= r < n ==> #[trigger] t@.rows[r] == if r < row_idx {
                    m.rows[r].push(Some(keys[r]))
                } else {
                    m.rows[r].push(None)
                },
    {
        assert(widened.rows[row_idx as int] =~= m.rows[row_idx as int].push(None));
        let value = if row_idx == 0 {
            "Key".to_owned()
        } else {
            let v1 = t.get_cell_text(row_idx, col_idx - 3);
            let v2 = t.get_cell_text(row_idx, col_idx - 2);
            let mut v = v1;
            v.append("_");
            v.append(v2.as_str());
            v
        };
        assert(value@ == keys[row_idx as int]);
        match t.get_mut(row_idx, col_idx) {
            Some(cell) => {
                cell.set_value(value);
            },
            None => {},
        }
        assert(t@.rows[row_idx as int] =~= m.rows[row_idx as int].push(Some(keys[row_idx as int])));
    }
    let dupplicates = match t.find_duplicates_in_column(col_idx) {
        Ok(d) => d,
        Err(_) => {
            return ;
        },
    };
    proof {
        assert(t@.col_texts(col_idx as int) =~= keys);
    }
    let ghost keyed = t@;
    let count_idx = match t.add_col() {
        Ok(c) => c,
        Err(_) => {
            return ;
        },
    };
    let ghost widened2 = t@;
    let d = dupplicates.len();
    for k in 0..d
        invariant
            d == n,
            n == m.rows.len(),
            count_idx == m.nb_cols + 1,
            keys == duplicate_keys(m),
            dupplicates@.len() == n,
            forall|i: int|
                0 <= i < n ==> (#[trigger] dupplicates@[i]).row_idx == i && dupplicates@[i].occurrence
                    == count_in(keys.take(i + 1), keys[i]),
            widened2 == keyed.insert_col(keyed.nb_cols as int),
            keyed.nb_cols == m.nb_cols + 1,
            keyed.rows.len() == n,
            m.wf(),
            forall|r: int| 0 <= r < n ==> #[trigger] keyed.rows[r] == m.rows[r].push(Some(keys[r])),
            t@.wf(),
            t@ == widened2.with_rows(t@.rows),
            t@.rows.len() == n,
            forall|r: int|
                0 <= r < n ==> #[trigger] t@.rows[r] == if r < k {
                    m.rows[r].push(Some(keys[r])).push(Some(duplicate_count_text(m, r)))
                } else {
                    m.rows[r].push(Some(keys[r])).push(None)
                },
    {
        let dupp = dupplicates[k];
        assert(keyed.rows[k as int] == m.rows[k as int].push(Some(keys[k as int])));
        assert(m.rows[k as int].len() == m.nb_cols);
        assert(widened2.rows[k as int] =~= m.rows[k as int].push(Some(keys[k as int])).push(None));
        match t.get_mut(dupp.row_idx, count_idx) {
            Some(cell) => {
                if dupp.row_idx == 0 {
                    cell.set_value("Nb doublons".to_owned());
                } else {
                    cell.set_value(decimal_string(dupp.occurrence));
                }
            },
            None => {},
        }
        assert(t@.rows[k as int] =~= m.rows[k as int].push(Some(keys[k as int])).push(
            Some(duplicate_count_text(m, k as int)),
        ));
    }
    proof {
        let want = with_duplicate_counts(m);
        assert(t@.rows =~= want.rows);
        assert(keyed.with_rows(keyed.rows) == keyed);
    }
}

} // verus!
