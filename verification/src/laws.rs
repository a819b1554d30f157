//! What holds of the table's operations taken together.

use vstd::prelude::*;
use crate::customers::{customer_block, customer_row, customer_rows, service_row};
use crate::duplicates::with_duplicate_counts;
use crate::text::{contains_chars, decimal, digit_char, digits_value, is_digit};
use crate::excel::{row_written, rows_written, sheet_coord};
use crate::table::{
    all_letters, col_title, col_label_value, matches_mode, MatchMode, count_in, is_ascii_letter, letter_rank, positions_where, empty_row, lemma_kept_count_nothing, lemma_without_positions_nothing, listed, text_of,
    TableModel,
};

verus! {

/// Removing the row that `insert_row` just inserted gives back the table.
pub proof fn law_remove_row_undoes_insert_row(m: TableModel, i: int)
    requires
        0 <= i <= m.rows.len(),
    ensures
        m.insert_row(i).rows[i] == empty_row(m.nb_cols),
        m.insert_row(i).remove_row(i) == m,
{
    assert(m.insert_row(i).rows.remove(i) =~= m.rows);
}

/// Removing the column that `insert_col` just inserted gives back the table,
/// when the table has no header or its header has a title for every column
/// before the new one.
pub proof fn law_remove_col_undoes_insert_col(m: TableModel, j: int)
    requires
        m.wf(),
        0 <= j <= m.nb_cols,
        m.header matches Some(t) ==> j <= t.len(),
    ensures
        m.insert_col(j).remove_col(j) == m,
{
    let m2 = m.insert_col(j).remove_col(j);
    assert forall|r: int| 0 <= r < m.rows.len() implies #[trigger] m2.rows[r] == m.rows[r] by {
        assert(m.rows[r].insert(j, None).remove(j) =~= m.rows[r]);
    }
    assert(m2.rows =~= m.rows);
    if let Some(t) = m.header {
        assert(m2.header->0 =~= t);
    }
}

/// A written cell reads back as what was written, and every other cell
/// keeps its value.
pub proof fn law_read_after_write(m: TableModel, r: int, c: int, v: Option<Seq<char>>)
    requires
        m.wf(),
        0 <= r < m.rows.len(),
        0 <= c < m.nb_cols,
    ensures
        m.with_cell(r, c, v).wf(),
        m.with_cell(r, c, v).rows[r][c] == v,
        m.with_cell(r, c, v).cell_text(r, c) == text_of(v),
        forall|a: int, b: int|
            0 <= a < m.rows.len() && 0 <= b < m.nb_cols && (a != r || b != c) ==> #[trigger] m.with_cell(
                r,
                c,
                v,
            ).rows[a][b] == m.rows[a][b],
{
}

/// Taking the first row as the header undoes moving a full header (one
/// title per column) into the first row.
pub proof fn law_first_line_as_header_undoes_move_header(m: TableModel)
    requires
        m.wf(),
        m.header matches Some(t) && t.len() == m.nb_cols,
    ensures
        m.move_header_to_first_row().first_line_as_header() == m,
{
    let m2 = m.move_header_to_first_row().first_line_as_header();
    assert(m2.rows =~= m.rows);
    assert(m2.header->0 =~= m.header->0);
}

/// Moving the header back into the first row after taking it from there
/// gives back the table, except that the first row's absent values come
/// back as empty texts.
pub proof fn law_move_header_undoes_first_line_as_header(m: TableModel)
    requires
        m.wf(),
        m.header is None,
        m.rows.len() > 0,
    ensures
        m.first_line_as_header().move_header_to_first_row() == m.with_rows(
            m.rows.update(0, Seq::new(m.nb_cols, |j: int| Some(text_of(m.rows[0][j])))),
        ),
        (forall|j: int| 0 <= j < m.nb_cols ==> (#[trigger] m.rows[0][j]) is Some)
            ==> m.first_line_as_header().move_header_to_first_row() == m,
{
    let m2 = m.first_line_as_header().move_header_to_first_row();
    let full = Seq::new(m.nb_cols, |j: int| Some(text_of(m.rows[0][j])));
    assert(m.rows[0].len() == m.nb_cols);
    assert(m2.rows[0] =~= full);
    assert(m2.rows =~= m.rows.update(0, full));
    if forall|j: int| 0 <= j < m.nb_cols ==> (#[trigger] m.rows[0][j]) is Some {
        assert(full =~= m.rows[0]);
        assert(m.rows.update(0, full) =~= m.rows);
    }
}

/// Keeping every column leaves the table as it is.
pub proof fn law_keep_every_col(m: TableModel, keep: Seq<usize>)
    requires
        m.wf(),
        forall|j: int| 0 <= j < m.nb_cols ==> #[trigger] listed(keep, j),
    ensures
        m.remove_cols_where(|j: int| 0 <= j < m.nb_cols && !listed(keep, j)) == m,
{
    let d = |j: int| 0 <= j < m.nb_cols && !listed(keep, j);
    let m2 = m.remove_cols_where(d);
    assert forall|r: int| 0 <= r < m.rows.len() implies #[trigger] m2.rows[r] == m.rows[r] by {
        lemma_without_positions_nothing(m.rows[r], d);
    }
    assert(m2.rows =~= m.rows);
    lemma_kept_count_nothing(m.nb_cols, d);
    if let Some(t) = m.header {
        lemma_without_positions_nothing(t, d);
    }
}

/// Removing no column leaves the table as it is.
pub proof fn law_remove_no_col(m: TableModel)
    requires
        m.wf(),
    ensures
        m.remove_cols_where(|j: int| listed(Seq::<usize>::empty(), j)) == m,
{
    let d = |j: int| listed(Seq::<usize>::empty(), j);
    let m2 = m.remove_cols_where(d);
    assert forall|r: int| 0 <= r < m.rows.len() implies #[trigger] m2.rows[r] == m.rows[r] by {
        lemma_without_positions_nothing(m.rows[r], d);
    }
    assert(m2.rows =~= m.rows);
    lemma_kept_count_nothing(m.nb_cols, d);
    if let Some(t) = m.header {
        lemma_without_positions_nothing(t, d);
    }
}

/// Which columns `keep_cols` keeps, and which `remove_cols` removes, depends
/// only on which indices are listed: not on their order, nor on repeats.
pub proof fn law_col_lists_ignore_order(m: TableModel, a: Seq<usize>, b: Seq<usize>)
    requires
        forall|j: int| #[trigger] listed(a, j) <==> listed(b, j),
    ensures
        m.remove_cols_where(|j: int| 0 <= j < m.nb_cols && !listed(a, j)) == m.remove_cols_where(
            |j: int| 0 <= j < m.nb_cols && !listed(b, j),
        ),
        m.remove_cols_where(|j: int| listed(a, j)) == m.remove_cols_where(|j: int| listed(b, j)),
{
    let ka = |j: int| 0 <= j < m.nb_cols && !listed(a, j);
    let kb = |j: int| 0 <= j < m.nb_cols && !listed(b, j);
    assert(ka =~= kb);
    let ra = |j: int| listed(a, j);
    let rb = |j: int| listed(b, j);
    assert(ra =~= rb);
}

/// Removing the first row that `insert_header_as_first_row` just inserted
/// gives back the table.
pub proof fn law_remove_row_undoes_insert_header_as_first_row(m: TableModel)
    requires
        m.header is Some,
    ensures
        m.insert_header_as_first_row().header == m.header,
        m.insert_header_as_first_row().remove_row(0) == m,
{
    assert(m.insert_header_as_first_row().rows.remove(0) =~= m.rows);
}

/// The positions that a search reports are exactly the positions where its
/// condition holds, each once, in increasing order.
pub proof fn law_positions_where(n: nat, p: spec_fn(int) -> bool)
    ensures
        forall|k: int|
            0 <= k < positions_where(n, p).len() ==> 0 <= #[trigger] positions_where(n, p)[k] < n && p(
                positions_where(n, p)[k],
            ),
        forall|k: int, l: int|
            0 <= k < l < positions_where(n, p).len() ==> #[trigger] positions_where(n, p)[k]
                < #[trigger] positions_where(n, p)[l],
        forall|i: int| 0 <= i < n && #[trigger] p(i) ==> positions_where(n, p).contains(i),
    decreases n,
{
    if n > 0 {
        law_positions_where((n - 1) as nat, p);
        let prev = positions_where((n - 1) as nat, p);
        assert forall|i: int| 0 <= i < n && #[trigger] p(i) implies positions_where(n, p).contains(i) by {
            if i < n - 1 {
                let k = choose|k: int| 0 <= k < prev.len() && prev[k] == i;
                assert(positions_where(n, p)[k] == i);
            } else {
                assert(positions_where(n, p)[prev.len() as int] == i);
            }
        }
    }
}

/// Reading a label one letter longer multiplies the number of the label by
/// 26 and adds the rank of the new letter, from 1 for 'A' or 'a' to 26; the
/// longer label is made of letters exactly when the shorter one is and the
/// new character is a letter.
pub proof fn law_col_label_append(s: Seq<char>, c: char)
    ensures
        col_label_value(s.push(c)) == col_label_value(s) * 26 + letter_rank(c),
        all_letters(s.push(c)) <==> all_letters(s) && is_ascii_letter(c),
        is_ascii_letter(c) ==> 1 <= letter_rank(c) <= 26,
{
    let t = s.push(c);
    assert(t.drop_last() =~= s);
    assert(t.last() == c);
    if all_letters(t) {
        assert(is_ascii_letter(t[s.len() as int]));
        assert forall|j: int| 0 <= j < s.len() implies is_ascii_letter(#[trigger] s[j]) by {
            assert(t[j] == s[j]);
        }
    }
    if all_letters(s) && is_ascii_letter(c) {
        assert forall|j: int| 0 <= j < t.len() implies is_ascii_letter(#[trigger] t[j]) by {
            if j < s.len() {
                assert(t[j] == s[j]);
            }
        }
    }
}

/// Column labels are read without regard to case: two labels whose
/// letters have the same ranks have the same number.
pub proof fn law_col_label_ignores_case(s: Seq<char>, t: Seq<char>)
    requires
        s.len() == t.len(),
        forall|i: int| 0 <= i < s.len() ==> letter_rank(#[trigger] s[i]) == letter_rank(t[i]),
    ensures
        col_label_value(s) == col_label_value(t),
    decreases s.len(),
{
    if s.len() > 0 {
        assert forall|i: int| 0 <= i < s.len() - 1 implies letter_rank(#[trigger] s.drop_last()[i]) == letter_rank(
            t.drop_last()[i],
        ) by {
            assert(s.drop_last()[i] == s[i]);
            assert(t.drop_last()[i] == t[i]);
        }
        law_col_label_ignores_case(s.drop_last(), t.drop_last());
        assert(letter_rank(s.last()) == letter_rank(t.last()));
    }
}

/// In a duplicate search, a row's count is 1 exactly when no earlier row
/// shows the same text, and it is never 0.
pub proof fn law_duplicate_counts(texts: Seq<Seq<char>>, i: int)
    requires
        0 <= i < texts.len(),
    ensures
        count_in(texts.take(i + 1), texts[i]) >= 1,
        count_in(texts.take(i + 1), texts[i]) == 1 <==> forall|j: int| 0 <= j < i ==> texts[j] != texts[i],
{
    let x = texts[i];
    let prefix = texts.take(i);
    assert(texts.take(i + 1).drop_last() =~= prefix);
    assert(texts.take(i + 1).last() == x);
    assert(count_in(texts.take(i + 1), x) == count_in(prefix, x) + 1);
    lemma_count_zero_iff_absent(prefix, x);
    if forall|j: int| 0 <= j < i ==> texts[j] != x {
        assert forall|j: int| 0 <= j < prefix.len() implies prefix[j] != x by {
            assert(prefix[j] == texts[j]);
        }
    } else {
        let j = choose|j: int| 0 <= j < i && texts[j] == x;
        assert(prefix[j] == x);
    }
}

/// A sheet written from rows that fit its coordinates holds, at the 1-based
/// (column, row) of each cell, that cell's value; cells without a value are
/// not written.
pub proof fn law_sheet_holds_table(rows: Seq<Seq<Option<Seq<char>>>>, r: int, c: int)
    requires
        rows.len() < u32::MAX,
        forall|i: int| 0 <= i < rows.len() ==> #[trigger] rows[i].len() < u32::MAX,
        0 <= r < rows.len(),
        0 <= c < rows[r].len(),
    ensures
        sheet_coord(c) == c + 1,
        sheet_coord(r) == r + 1,
        rows_written(Map::empty(), rows).contains_key((sheet_coord(c), sheet_coord(r))) <==> rows[r][c] is Some,
        rows[r][c] matches Some(s) ==> rows_written(Map::empty(), rows)[(sheet_coord(c), sheet_coord(r))] == s,
    decreases rows.len(),
{
    let key = (sheet_coord(c), sheet_coord(r));
    let n = rows.len();
    let prev = rows.drop_last();
    let before = rows_written(Map::empty(), prev);
    assert(rows_written(Map::empty(), rows) == row_written(before, n - 1, rows[n - 1]));
    if r < n - 1 {
        assert(prev[r] == rows[r]);
        law_sheet_holds_table(prev, r, c);
        lemma_row_written_other(before, n - 1, rows[n - 1], key);
    } else {
        lemma_rows_written_other(Map::empty(), prev, key);
        lemma_row_written_at(before, r, rows[r], c);
    }
}

/// Writing row `r` leaves the cells of other rows as they were.
proof fn lemma_row_written_other(
    m: Map<(u32, u32), Seq<char>>,
    r: int,
    row: Seq<Option<Seq<char>>>,
    key: (u32, u32),
)
    requires
        key.1 != sheet_coord(r),
    ensures
        row_written(m, r, row).contains_key(key) == m.contains_key(key),
        m.contains_key(key) ==> row_written(m, r, row)[key] == m[key],
    decreases row.len(),
{
    if row.len() > 0 {
        lemma_row_written_other(m, r, row.drop_last(), key);
    }
}

/// Writing rows leaves the cells below the last of them as they were.
proof fn lemma_rows_written_other(m: Map<(u32, u32), Seq<char>>, rows: Seq<Seq<Option<Seq<char>>>>, key: (u32, u32))
    requires
        rows.len() < u32::MAX,
        key.1 > rows.len(),
    ensures
        rows_written(m, rows).contains_key(key) == m.contains_key(key),
        m.contains_key(key) ==> rows_written(m, rows)[key] == m[key],
    decreases rows.len(),
{
    if rows.len() > 0 {
        let prev = rows.drop_last();
        lemma_rows_written_other(m, prev, key);
        assert(sheet_coord(rows.len() - 1) == rows.len());
        lemma_row_written_other(rows_written(m, prev), rows.len() - 1, rows.last(), key);
    }
}

/// Writing a row puts each of its values at its column, and leaves the
/// places of its absent values as they were.
proof fn lemma_row_written_at(m: Map<(u32, u32), Seq<char>>, r: int, row: Seq<Option<Seq<char>>>, c: int)
    requires
        0 <= c < row.len() < u32::MAX,
    ensures
        row[c] matches Some(s) ==> row_written(m, r, row).contains_key((sheet_coord(c), sheet_coord(r)))
            && row_written(m, r, row)[(sheet_coord(c), sheet_coord(r))] == s,
        row[c] is None ==> row_written(m, r, row).contains_key((sheet_coord(c), sheet_coord(r))) == m.contains_key(
            (sheet_coord(c), sheet_coord(r)),
        ),
        row[c] is None && m.contains_key((sheet_coord(c), sheet_coord(r))) ==> row_written(m, r, row)[(
            sheet_coord(c),
            sheet_coord(r),
        )] == m[(sheet_coord(c), sheet_coord(r))],
    decreases row.len(),
{
    let prev = row.drop_last();
    let key = (sheet_coord(c), sheet_coord(r));
    assert(sheet_coord(c) == c + 1);
    assert(sheet_coord(row.len() - 1) == row.len());
    if c < row.len() - 1 {
        assert(prev[c] == row[c]);
        lemma_row_written_at(m, r, prev, c);
    } else {
        lemma_row_written_before(m, r, prev, key);
    }
}

/// Writing a row leaves the places right of its last cell as they were.
proof fn lemma_row_written_before(m: Map<(u32, u32), Seq<char>>, r: int, row: Seq<Option<Seq<char>>>, key: (u32, u32))
    requires
        row.len() < u32::MAX,
        key.0 > row.len(),
    ensures
        row_written(m, r, row).contains_key(key) == m.contains_key(key),
        m.contains_key(key) ==> row_written(m, r, row)[key] == m[key],
    decreases row.len(),
{
    if row.len() > 0 {
        assert(sheet_coord(row.len() - 1) == row.len());
        lemma_row_written_before(m, r, row.drop_last(), key);
    }
}

proof fn lemma_count_zero_iff_absent(s: Seq<Seq<char>>, x: Seq<char>)
    ensures
        count_in(s, x) == 0 <==> forall|j: int| 0 <= j < s.len() ==> s[j] != x,
    decreases s.len(),
{
    if s.len() > 0 {
        lemma_count_zero_iff_absent(s.drop_last(), x);
        if count_in(s, x) == 0 {
            assert forall|j: int| 0 <= j < s.len() implies s[j] != x by {
                if j < s.len() - 1 {
                    assert(s.drop_last()[j] == s[j]);
                }
            }
        } else if s.last() != x {
            let k = choose|k: int| 0 <= k < s.len() - 1 && s.drop_last()[k] == x;
            assert(s[k] == x);
        }
    }
}

/// Every row that the structures bring to a customer list is fourteen cells
/// wide and is typed: "Maison mère" for a structure, "Filiale" for a service.
pub proof fn law_customer_rows_are_typed(ws: Seq<Seq<Option<Seq<char>>>>, sv: Seq<Seq<Option<Seq<char>>>>)
    ensures
        forall|r: int|
            0 <= r < customer_rows(ws, sv).len() ==> {
                let row = #[trigger] customer_rows(ws, sv)[r];
                &&& row.len() == 14
                &&& row[12] == Some("Maison mère"@) || row[12] == Some("Filiale"@)
            },
    decreases ws.len(),
{
    if ws.len() > 0 {
        law_customer_rows_are_typed(ws.drop_last(), sv);
        let prev = customer_rows(ws.drop_last(), sv);
        let block = customer_block(ws.last(), sv);
        assert forall|r: int| 0 <= r < customer_rows(ws, sv).len() implies {
            let row = #[trigger] customer_rows(ws, sv)[r];
            &&& row.len() == 14
            &&& row[12] == Some("Maison mère"@) || row[12] == Some("Filiale"@)
        } by {
            if r < prev.len() {
                assert(customer_rows(ws, sv)[r] == prev[r]);
            } else {
                assert(customer_rows(ws, sv)[r] == block[r - prev.len()]);
            }
        }
    }
}

// -------------------------------------------------------------------------
// What the operations are for
// -------------------------------------------------------------------------

/// A structure's row in the customer list holds each of the structure's
/// kept values at the column of the same index, "Maison mère" as its type,
/// and nothing elsewhere.
pub proof fn law_structure_row_keeps_columns(w: Seq<Option<Seq<char>>>)
    requires
        w.len() <= 11,
    ensures
        customer_row(w).len() == 14,
        forall|k: int| 0 <= k < w.len() ==> #[trigger] customer_row(w)[k] == w[k],
        customer_row(w)[12] == Some("Maison mère"@),
        forall|k: int| w.len() <= k < 14 && k != 12 ==> #[trigger] customer_row(w)[k] == None::<Seq<char>>,
{
}

/// A service's row in the customer list: its third value goes under "Code
/// Chorus" (column 11) and its fourth under "Nom du service" (column 13),
/// unless the service has values of its own there, which win; every other
/// value stays at its own column, columns 2 and 3 stay empty, and the type is
/// "Filiale".
pub proof fn law_service_row_places_values(v: Seq<Option<Seq<char>>>)
    requires
        v.len() <= 14,
    ensures
        service_row(v).len() == 14,
        forall|k: int|
            0 <= k < v.len() && k != 2 && k != 3 && k != 11 && k != 12 && k != 13 ==> #[trigger] service_row(v)[k]
                == v[k],
        forall|k: int|
            v.len() <= k < 14 && k != 11 && k != 12 && k != 13 ==> #[trigger] service_row(v)[k] == None::<
                Seq<char>,
            >,
        service_row(v)[2] == None::<Seq<char>>,
        service_row(v)[3] == None::<Seq<char>>,
        service_row(v)[12] == Some("Filiale"@),
        v.len() > 11 ==> service_row(v)[11] == v[11],
        2 < v.len() <= 11 ==> service_row(v)[11] == v[2],
        v.len() <= 2 ==> service_row(v)[11] == None::<Seq<char>>,
        v.len() > 13 ==> service_row(v)[13] == v[13],
        3 < v.len() <= 13 ==> service_row(v)[13] == v[3],
        v.len() <= 3 ==> service_row(v)[13] == None::<Seq<char>>,
{
}

/// The key column of a table counted for duplicates holds "Key" in its first
/// row and, in every other row, the texts of the table's third-last and
/// second-last columns joined by '_'; the count column holds "Nb doublons"
/// in its first row and, in every other row, a count that is 1 exactly when
/// no earlier row has the same key. The table's own cells stay as they were.
pub proof fn law_duplicate_key_columns(m: TableModel, r: int)
    requires
        m.wf(),
        m.nb_cols >= 3,
        0 < r < m.rows.len(),
    ensures
        with_duplicate_counts(m).rows[0][m.nb_cols as int] == Some("Key"@),
        with_duplicate_counts(m).rows[0][(m.nb_cols + 1) as int] == Some("Nb doublons"@),
        with_duplicate_counts(m).rows[r][m.nb_cols as int] == Some(
            m.cell_text(r, m.nb_cols - 3) + "_"@ + m.cell_text(r, m.nb_cols - 2),
        ),
        forall|c: int| 0 <= c < m.nb_cols ==> #[trigger] with_duplicate_counts(m).rows[r][c] == m.rows[r][c],
        exists|k: nat|
            #![trigger decimal(k)]
            with_duplicate_counts(m).rows[r][(m.nb_cols + 1) as int] == Some(decimal(k)) && k >= 1 && (k == 1
                <==> forall|j: int|
                #![trigger m.cell_text(j, m.nb_cols - 3)]
                0 < j < r ==> m.cell_text(j, m.nb_cols - 3) + "_"@ + m.cell_text(j, m.nb_cols - 2)
                    != m.cell_text(r, m.nb_cols - 3) + "_"@ + m.cell_text(r, m.nb_cols - 2)),
{
    let n = m.nb_cols as int;
    let keys = crate::duplicates::duplicate_keys(m);
    let key_r = m.cell_text(r, n - 3) + "_"@ + m.cell_text(r, n - 2);
    assert(keys[r] == key_r);
    assert(m.rows[r].len() == m.nb_cols);
    assert(m.rows[0].len() == m.nb_cols);
    let k = count_in(keys.take(r + 1), keys[r]);
    law_duplicate_counts(keys, r);
    assert(with_duplicate_counts(m).rows[r][n + 1] == Some(decimal(k)));
    proof_key_is_not_title(m.cell_text(r, n - 3), m.cell_text(r, n - 2));
    assert(keys[0] == "Key"@);
    assert((forall|j: int| 0 <= j < r ==> keys[j] != keys[r]) <==> (forall|j: int|
        #![trigger m.cell_text(j, n - 3)]
        0 < j < r ==> m.cell_text(j, n - 3) + "_"@ + m.cell_text(j, n - 2) != key_r)) by {
        if forall|j: int| #![trigger m.cell_text(j, n - 3)] 0 < j < r ==> m.cell_text(j, n - 3) + "_"@ + m.cell_text(j, n - 2) != key_r {
            assert forall|j: int| 0 <= j < r implies keys[j] != keys[r] by {
                if j > 0 {
                    assert(keys[j] == m.cell_text(j, n - 3) + "_"@ + m.cell_text(j, n - 2));
                }
            }
        }
        if forall|j: int| 0 <= j < r ==> keys[j] != keys[r] {
            assert forall|j: int| #![trigger m.cell_text(j, n - 3)] 0 < j < r implies m.cell_text(j, n - 3) + "_"@ + m.cell_text(j, n - 2)
                != key_r by {
                assert(keys[j] == m.cell_text(j, n - 3) + "_"@ + m.cell_text(j, n - 2));
            }
        }
    }
    assert(decimal(k) == decimal(k));
}

/// A key, which holds '_', is never the title "Key".
proof fn proof_key_is_not_title(a: Seq<char>, b: Seq<char>)
    ensures
        a + "_"@ + b != "Key"@,
{
    reveal_strlit("_");
    reveal_strlit("Key");
    let key = a + "_"@ + b;
    assert(key[a.len() as int] == '_');
    if key == "Key"@ {
        assert(key.len() == 3);
        assert("Key"@[a.len() as int] != '_');
    }
}

/// A search in "contains" mode hits a text exactly when the needle occurs in
/// it somewhere, at any offset; a search in "exact" mode hits exactly the
/// needle itself.
pub proof fn law_search_modes(text: Seq<char>, needle: Seq<char>)
    ensures
        matches_mode(text, needle, MatchMode::Contains) <==> exists|a: Seq<char>, b: Seq<char>|
            #[trigger] (a + needle + b) == text,
        matches_mode(text, needle, MatchMode::Exact) <==> text == needle,
{
    let n = needle.len() as int;
    if matches_mode(text, needle, MatchMode::Contains) {
        let i = choose|i: int| 0 <= i <= text.len() - n && #[trigger] text.subrange(i, i + n) == needle;
        let a = text.subrange(0, i);
        let b = text.subrange(i + n, text.len() as int);
        assert(a + needle + b =~= text);
    }
    if exists|a: Seq<char>, b: Seq<char>| #[trigger] (a + needle + b) == text {
        let (a, b) = choose|a: Seq<char>, b: Seq<char>| #[trigger] (a + needle + b) == text;
        let i = a.len() as int;
        assert(text.subrange(i, i + n) =~= needle);
        assert(contains_chars(text, needle));
    }
}

/// The decimal text of a number is a run of digits, without a leading zero
/// unless the number is 0, that reads back as the number.
pub proof fn law_decimal_reads_back(n: nat)
    ensures
        decimal(n).len() > 0,
        forall|i: int| 0 <= i < decimal(n).len() ==> is_digit(#[trigger] decimal(n)[i]),
        n > 0 ==> decimal(n)[0] != '0',
        digits_value(decimal(n)) == n,
    decreases n,
{
    lemma_digit_char_value((n % 10) as int);
    if n < 10 {
        assert(decimal(n).drop_last() =~= Seq::<char>::empty());
        assert(digits_value(Seq::<char>::empty()) == 0);
        assert(decimal(n).last() == digit_char(n as int));
    } else {
        let p = (n / 10) as nat;
        law_decimal_reads_back(p);
        let d = decimal(n);
        assert(d.drop_last() =~= decimal(p));
        assert forall|i: int| 0 <= i < d.len() implies is_digit(#[trigger] d[i]) by {
            if i < d.len() - 1 {
                assert(d[i] == decimal(p)[i]);
            }
        }
        assert(d[0] == decimal(p)[0]);
        assert(d.last() == digit_char((n % 10) as int));
        assert(p * 10 + n % 10 == n) by (nonlinear_arith)
            requires
                p == n / 10,
        ;
    }
}

/// A digit's character stands for the digit.
proof fn lemma_digit_char_value(d: int)
    requires
        0 <= d < 10,
    ensures
        is_digit(digit_char(d)),
        digit_char(d) as int - '0' as int == d,
{
}

/// Distinct column numbers give distinct titles to new columns.
pub proof fn law_col_titles_differ(n: nat, m: nat)
    ensures
        col_title(n) == col_title(m) ==> n == m,
{
    reveal_strlit("Head_Col_");
    if col_title(n) == col_title(m) {
        let p = "Head_Col_"@;
        assert(col_title(n).subrange(p.len() as int, col_title(n).len() as int) =~= decimal(n));
        assert(col_title(m).subrange(p.len() as int, col_title(m).len() as int) =~= decimal(m));
        law_decimal_reads_back(n);
        law_decimal_reads_back(m);
    }
}

/// A column inserted at `j` into a table with a header is titled
/// "Head_Col_" followed by the digits of its 1-based number `j + 1`.
pub proof fn law_inserted_col_title(m: TableModel, j: int)
    requires
        m.header is Some,
        0 <= j,
    ensures
        m.insert_col(j).header->0[j].len() > 9,
        m.insert_col(j).header->0[j].subrange(0, 9) == "Head_Col_"@,
        forall|i: int|
            9 <= i < m.insert_col(j).header->0[j].len() ==> is_digit(#[trigger] m.insert_col(j).header->0[j][i]),
        digits_value(m.insert_col(j).header->0[j].subrange(9, m.insert_col(j).header->0[j].len() as int)) == j + 1,
{
    reveal_strlit("Head_Col_");
    let t = m.header->0;
    let title = m.insert_col(j).header->0[j];
    assert(title == col_title((j + 1) as nat));
    law_decimal_reads_back((j + 1) as nat);
    let d = decimal((j + 1) as nat);
    assert(title.subrange(0, 9) =~= "Head_Col_"@);
    assert(title.subrange(9, title.len() as int) =~= d);
    assert forall|i: int| 9 <= i < title.len() implies is_digit(#[trigger] title[i]) by {
        assert(title[i] == d[i - 9]);
    }
}

/// A letter's rank is its place in the alphabet, the same for both cases:
/// 'A' and 'a' are 1, 'B' and 'b' are 2, up to 26 for 'Z' and 'z'; so a
/// letter later in the alphabet has a greater rank, and a one-letter label's
/// number is its letter's rank.
pub proof fn law_letter_rank(c: char, d: char)
    ensures
        'A' <= c <= 'Z' ==> letter_rank(c) == c as int - 'A' as int + 1,
        'a' <= c <= 'z' ==> letter_rank(c) == c as int - 'a' as int + 1,
        'a' <= c <= 'z' ==> letter_rank(c) == letter_rank((c as int - 32) as char),
        ('A' <= c < d <= 'Z') || ('a' <= c < d <= 'z') ==> letter_rank(c) < letter_rank(d),
        col_label_value(seq![c]) == letter_rank(c),
{
    assert(seq![c].drop_last() =~= Seq::<char>::empty());
    assert(col_label_value(Seq::<char>::empty()) == 0);
    assert(seq![c].last() == c);
}

} // verus!
