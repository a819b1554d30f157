//! The customer list of a directory workbook.
//!
//! A directory holds a sheet of structures and a sheet of services, each
//! with its titles in its first row. The customer list has fourteen columns:
//! eleven structure columns, then "Code Chorus", "Type" and "Nom du service".
//! Each structure gives a row of type "Maison mère", followed by a row of type
//! "Filiale" for each service whose first column holds the structure's
//! second kept value.

use vstd::prelude::*;
use crate::laws::law_positions_where;
use crate::table::{
    first_position, lemma_first_position, lemma_first_position_unique,
    is_first_missing, is_first_position, kept_count, listed, positions_where, row_titles, strs_view, titles_row,
    value_view, without_positions, Row, Table, TableModel, Value,
};
use crate::text::{
    empty_table_header_text, header_already_taken_text, last_index, out_of_range_text, title_not_found_text,
};

verus! {

// -------------------------------------------------------------------------
// The layout of the list
// -------------------------------------------------------------------------

/// The titles of the structure columns that the list keeps.
pub open spec fn structure_titles() -> Seq<Seq<char>> {
    seq![
        "Identifiant"@,
        "RaisonSociale"@,
        "GestionEngagement"@,
        "GestionService"@,
        "Adresse"@,
        "ComplementAdresse1"@,
        "ComplementAdresse2"@,
        "CodePostal"@,
        "Ville"@,
        "NumTelephone"@,
        "Courriel"@,
    ]
}

/// The titles of the customer list.
pub open spec fn customer_titles() -> Seq<Seq<char>> {
    structure_titles() + seq!["Code Chorus"@, "Type"@, "Nom du service"@]
}

/// The name of the customer list.
pub open spec fn customer_list_name() -> Seq<char> {
    "Liste pour Sage"@
}

/// Column `j` of a structures sheet whose titles are `hdr` is kept: one of
/// the structure titles occurs there first.
pub open spec fn structure_col_kept(hdr: Seq<Seq<char>>, j: int) -> bool {
    exists|k: int| 0 <= k < structure_titles().len() && #[trigger] is_first_position(hdr, structure_titles()[k], j)
}

/// The titles that a table takes from its first row.
pub open spec fn first_row_titles(m: TableModel) -> Seq<Seq<char>> {
    row_titles(m.rows[0], m.nb_cols)
}

/// The data rows of a structures sheet (all rows but the first), reduced to
/// the kept columns, in their order in the sheet.
pub open spec fn structure_rows(m: TableModel) -> Seq<Seq<Option<Seq<char>>>> {
    Seq::new(
        (m.rows.len() - 1) as nat,
        |r: int|
            without_positions(
                m.rows[r + 1],
                |j: int| 0 <= j < m.nb_cols && !structure_col_kept(first_row_titles(m), j),
            ),
    )
}

/// The data rows of a services sheet: all rows but the first.
pub open spec fn service_rows(m: TableModel) -> Seq<Seq<Option<Seq<char>>>> {
    m.rows.remove(0)
}

/// The code of a structure: its second kept value, absent when there is none.
pub open spec fn customer_code(w: Seq<Option<Seq<char>>>) -> Option<Seq<char>> {
    if 1 < w.len() {
        w[1]
    } else {
        None
    }
}

/// Service `i` has `code` in its first column.
pub open spec fn service_of(sv: Seq<Seq<Option<Seq<char>>>>, code: Option<Seq<char>>) -> spec_fn(int) -> bool {
    |i: int| 0 < sv[i].len() && sv[i][0] == code
}

/// The positions of the services whose first column holds `code`, in order.
pub open spec fn service_matches(sv: Seq<Seq<Option<Seq<char>>>>, code: Option<Seq<char>>) -> Seq<int> {
    positions_where(sv.len(), service_of(sv, code))
}

/// The row of a structure: its kept values from the first column on, and
/// "Maison mère" as its type.
pub open spec fn customer_row(w: Seq<Option<Seq<char>>>) -> Seq<Option<Seq<char>>> {
    Seq::new(
        14,
        |k: int|
            if k == 12 {
                Some("Maison mère"@)
            } else if k < w.len() {
                w[k]
            } else {
                None
            },
    )
}

/// The column of the list that column `c` of a service goes to: the third
/// to "Code Chorus", the fourth to "Nom du service", any other to its own.
pub open spec fn service_target(c: int) -> int {
    if c == 2 {
        11
    } else if c == 3 {
        13
    } else {
        c
    }
}

/// What column `k` of the list holds once the first `c` values of service
/// `v` are placed, each at its target, a later one over an earlier one.
pub open spec fn service_value_placed(v: Seq<Option<Seq<char>>>, c: int, k: int) -> Option<Seq<char>> {
    if k == 2 || k == 3 {
        None
    } else if k == 11 {
        if c > 11 {
            v[11]
        } else if c > 2 {
            v[2]
        } else {
            None
        }
    } else if k == 13 {
        if c > 13 {
            v[13]
        } else if c > 3 {
            v[3]
        } else {
            None
        }
    } else if k < c {
        v[k]
    } else {
        None
    }
}

/// The row of a service: all its values placed, and "Filiale" as its type.
pub open spec fn service_row(v: Seq<Option<Seq<char>>>) -> Seq<Option<Seq<char>>> {
    Seq::new(
        14,
        |k: int|
            if k == 12 {
                Some("Filiale"@)
            } else {
                service_value_placed(v, v.len() as int, k)
            },
    )
}

/// The rows that structure `w` brings: its own, then one per matching service.
pub open spec fn customer_block(w: Seq<Option<Seq<char>>>, sv: Seq<Seq<Option<Seq<char>>>>) -> Seq<
    Seq<Option<Seq<char>>>,
> {
    let hits = service_matches(sv, customer_code(w));
    seq![customer_row(w)] + Seq::new(hits.len(), |q: int| service_row(sv[hits[q]]))
}

/// The rows that the structures bring, in order.
pub open spec fn customer_rows(ws: Seq<Seq<Option<Seq<char>>>>, sv: Seq<Seq<Option<Seq<char>>>>) -> Seq<
    Seq<Option<Seq<char>>>,
>
    decreases ws.len(),
{
    if ws.len() == 0 {
        Seq::empty()
    } else {
        customer_rows(ws.drop_last(), sv) + customer_block(ws.last(), sv)
    }
}

/// The customer list made of a structures sheet `ms` and a services sheet
/// `mv`: the titles in its first row and as its header, then the rows of
/// each structure.
pub open spec fn customer_list(ms: TableModel, mv: TableModel) -> TableModel {
    TableModel {
        rows: seq![titles_row(customer_titles(), 14)] + customer_rows(structure_rows(ms), service_rows(mv)),
        nb_cols: 14,
        name: customer_list_name(),
        header: Some(customer_titles()),
    }
}

/// Some structure matches some service.
pub open spec fn some_structure_has_services(ms: TableModel, mv: TableModel) -> bool {
    exists|r: int|
        0 <= r < structure_rows(ms).len() && (#[trigger] service_matches(
            service_rows(mv),
            customer_code(structure_rows(ms)[r]),
        )).len() > 0
}

/// The list can be made: both sheets have a first row to take titles from
/// and no header yet, the structures hold every structure title, the
/// services have a first column if there is a structure to look up, and no
/// matching service is wider than the list.
pub open spec fn customer_list_builds(ms: TableModel, mv: TableModel) -> bool {
    &&& ms.header is None
    &&& ms.rows.len() > 0
    &&& mv.header is None
    &&& mv.rows.len() > 0
    &&& forall|k: int| 0 <= k < structure_titles().len() ==> first_row_titles(ms).contains(#[trigger] structure_titles()[k])
    &&& structure_rows(ms).len() > 0 ==> mv.nb_cols > 0
    &&& mv.nb_cols > 14 ==> !some_structure_has_services(ms, mv)
}

/// The message of the first check that fails.
pub open spec fn customer_list_error(ms: TableModel, mv: TableModel) -> Seq<char> {
    if ms.header is Some {
        header_already_taken_text()
    } else if ms.rows.len() == 0 {
        empty_table_header_text()
    } else if mv.header is Some {
        header_already_taken_text()
    } else if mv.rows.len() == 0 {
        empty_table_header_text()
    } else if exists|k: int| is_first_missing(first_row_titles(ms), structure_titles(), k) {
        title_not_found_text(
            structure_titles()[choose|k: int| is_first_missing(first_row_titles(ms), structure_titles(), k)],
        )
    } else if mv.nb_cols == 0 {
        out_of_range_text("column"@, 0, "0..="@, 0)
    } else {
        out_of_range_text("column"@, 14, "0..="@, 13)
    }
}

// -------------------------------------------------------------------------
// Facts the construction needs
// -------------------------------------------------------------------------

/// A title list has one first missing title.
proof fn lemma_first_missing_unique(t: Seq<Seq<char>>, wanted: Seq<Seq<char>>, a: int, b: int)
    requires
        is_first_missing(t, wanted, a),
        is_first_missing(t, wanted, b),
    ensures
        a == b,
{
    if a < b {
        assert(t.contains(wanted[a]));
    } else if b < a {
        assert(t.contains(wanted[b]));
    }
}

/// Keeping fewer positions keeps fewer: when `keep1` keeps only what
/// `keep2` keeps and `x`, it keeps at most one more below `n`.
proof fn lemma_kept_count_one_more(n: nat, drop1: spec_fn(int) -> bool, drop2: spec_fn(int) -> bool, x: int)
    requires
        forall|j: int| 0 <= j < n && !#[trigger] drop1(j) ==> !drop2(j) || j == x,
    ensures
        kept_count(n, drop1) <= kept_count(n, drop2) + if 0 <= x < n {
            1int
        } else {
            0int
        },
    decreases n,
{
    if n > 0 {
        lemma_kept_count_one_more((n - 1) as nat, drop1, drop2, x);
    }
}

/// Dropping every position below `n` keeps none.
proof fn lemma_kept_count_all_dropped(n: nat, drop: spec_fn(int) -> bool)
    requires
        forall|j: int| 0 <= j < n ==> #[trigger] drop(j),
    ensures
        kept_count(n, drop) == 0,
    decreases n,
{
    if n > 0 {
        lemma_kept_count_all_dropped((n - 1) as nat, drop);
    }
}

/// Keeping the listed positions keeps at most as many as are listed.
proof fn lemma_kept_count_listed(n: nat, v: Seq<usize>)
    ensures
        kept_count(n, |j: int| 0 <= j < n && !listed(v, j)) <= v.len(),
    decreases v.len(),
{
    let d = |j: int| 0 <= j < n && !listed(v, j);
    if v.len() == 0 {
        lemma_kept_count_all_dropped(n, d);
    } else {
        let w = v.drop_last();
        let x = v.last() as int;
        let d2 = |j: int| 0 <= j < n && !listed(w, j);
        assert forall|j: int| 0 <= j < n && !#[trigger] d(j) implies !d2(j) || j == x by {
            let k = choose|k: int| 0 <= k < v.len() && v[k] as int == j;
            if k < w.len() {
                assert(w[k] == v[k]);
            }
        }
        lemma_kept_count_one_more(n, d, d2, x);
        lemma_kept_count_listed(n, w);
    }
}

/// The kept columns are the listed ones when the list holds the first
/// positions of the structure titles.
proof fn lemma_listed_is_kept(hdr: Seq<Seq<char>>, cols: Seq<usize>, j: int)
    requires
        cols.len() == structure_titles().len(),
        forall|k: int| 0 <= k < cols.len() ==> is_first_position(hdr, structure_titles()[k], #[trigger] cols[k] as int),
    ensures
        listed(cols, j) <==> structure_col_kept(hdr, j),
{
    if listed(cols, j) {
        let k = choose|k: int| 0 <= k < cols.len() && cols[k] as int == j;
        assert(is_first_position(hdr, structure_titles()[k], cols[k] as int));
    }
    if structure_col_kept(hdr, j) {
        let k = choose|k: int|
            0 <= k < structure_titles().len() && #[trigger] is_first_position(hdr, structure_titles()[k], j);
        assert(is_first_position(hdr, structure_titles()[k], cols[k] as int));
        lemma_first_position_unique(hdr, structure_titles()[k], j, cols[k] as int);
    }
}

/// "Type" occurs first at column 12 of the list's titles.
proof fn lemma_type_column()
    ensures
        customer_titles().contains("Type"@),
        first_position(customer_titles(), "Type"@) == 12,
{
    reveal_strlit("Identifiant");
    reveal_strlit("RaisonSociale");
    reveal_strlit("GestionEngagement");
    reveal_strlit("GestionService");
    reveal_strlit("Adresse");
    reveal_strlit("ComplementAdresse1");
    reveal_strlit("ComplementAdresse2");
    reveal_strlit("CodePostal");
    reveal_strlit("Ville");
    reveal_strlit("NumTelephone");
    reveal_strlit("Courriel");
    reveal_strlit("Code Chorus");
    reveal_strlit("Type");
    let t = customer_titles();
    assert forall|j: int| 0 <= j < 12 implies t[j] != "Type"@ by {
        assert(t[j].len() != "Type"@.len());
    }
    assert(t[12] == "Type"@);
    lemma_first_position(t, "Type"@);
    lemma_first_position_unique(t, "Type"@, first_position(t, "Type"@), 12);
}

// -------------------------------------------------------------------------
// The construction
// -------------------------------------------------------------------------

fn structure_title_list() -> (v: Vec<&'static str>)
    ensures
        strs_view(v@) == structure_titles(),
{
    let mut v: Vec<&'static str> = Vec::new();
    v.push("Identifiant");
    v.push("RaisonSociale");
    v.push("GestionEngagement");
    v.push("GestionService");
    v.push("Adresse");
    v.push("ComplementAdresse1");
    v.push("ComplementAdresse2");
    v.push("CodePostal");
    v.push("Ville");
    v.push("NumTelephone");
    v.push("Courriel");
    assert(strs_view(v@) =~= structure_titles());
    v
}

fn customer_title_list() -> (v: Vec<&'static str>)
    ensures
        strs_view(v@) == customer_titles(),
{
    let mut v = structure_title_list();
    let ghost s = v@;
    v.push("Code Chorus");
    v.push("Type");
    v.push("Nom du service");
    assert(strs_view(v@) =~= customer_titles()) by {
        assert(strs_view(s) == structure_titles());
        assert forall|k: int| 0 <= k < 11 implies strs_view(v@)[k] == structure_titles()[k] by {
            assert(v@[k] == s[k]);
        }
    }
    v
}


/// A copy of a value.
fn copy_value(v: &Value) -> (r: Value)
    ensures
        value_view(r) == value_view(*v),
{
    match v {
        Some(s) => Some(s.clone()),
        None => None,
    }
}

/// Appends the row of a structure to the list: its values from the first
/// column on, and "Maison mère" as its type.
fn push_structure_row(customers: &mut Table, row: &Row)
    requires
        old(customers)@.wf(),
        old(customers)@.nb_cols == 14,
        old(customers)@.header == Some(customer_titles()),
        row@.len() <= 11,
    ensures
        final(customers)@.wf(),
        final(customers)@ == old(customers)@.with_rows(old(customers)@.rows.push(customer_row(row@))),
{
    let ghost start = customers@;
    let ghost w = row@;
    let i = customers.add_row();
    assert(customers@.rows =~~= start.rows.push(Seq::new(14, |k: int| if k < 0 { w[k] } else { None })));
    let cells = row.iter_cells();
    let m = cells.len();
    for c in 0..m
        invariant
            m == w.len(),
            m <= 11,
            cells@.len() == m,
            forall|j: int| 0 <= j < m ==> (#[trigger] cells@[j]).0 == j && cells@[j].1@ == w[j],
            i == start.rows.len(),
            start.nb_cols == 14,
            customers@.wf(),
            customers@ == start.with_rows(
                start.rows.push(Seq::new(14, |k: int| if k < c { w[k] } else { None })),
            ),
            w == row@,
    {
        let (col_idx, cell) = cells[c];
        let ghost before = customers@;
        let set = customers.set_cell_value(i, col_idx, copy_value(cell.value()));
        assert(set is Ok);
        assert(customers@.rows =~~= start.rows.push(Seq::new(14, |k: int| if k < c + 1 { w[k] } else { None })));
    }
    proof {
        lemma_type_column();
    }
    let set = customers.set_cell_value_by_title(i, "Type", Some("Maison mère".to_owned()));
    assert(set is Ok);
    assert(customers@.rows =~~= start.rows.push(customer_row(w)));
}

/// Appends the row of a service to the list: its values, each in its
/// target column, and "Filiale" as its type. Fails on a service wider than
/// the list.
fn push_service_row(customers: &mut Table, row: &Row) -> (r: Result<(), String>)
    requires
        old(customers)@.wf(),
        old(customers)@.nb_cols == 14,
        old(customers)@.header == Some(customer_titles()),
    ensures
        r is Ok <==> row@.len() <= 14,
        r is Ok ==> final(customers)@.wf() && final(customers)@ == old(customers)@.with_rows(
            old(customers)@.rows.push(service_row(row@)),
        ),
        r matches Err(e) ==> e@ == out_of_range_text("column"@, 14, "0..="@, 13),
{
    let ghost start = customers@;
    let ghost v = row@;
    let i = customers.add_row();
    assert(customers@.rows =~~= start.rows.push(Seq::new(14, |k: int| service_value_placed(v, 0, k))));
    let cells = row.iter_cells();
    let m = cells.len();
    for c in 0..m
        invariant
            m == v.len(),
            c <= 14,
            cells@.len() == m,
            forall|j: int| 0 <= j < m ==> (#[trigger] cells@[j]).0 == j && cells@[j].1@ == v[j],
            i == start.rows.len(),
            start.nb_cols == 14,
            customers@.wf(),
            customers@ == start.with_rows(
                start.rows.push(Seq::new(14, |k: int| service_value_placed(v, c as int, k))),
            ),
            v == row@,
    {
        let (col_idx, cell) = cells[c];
        let col = if col_idx == 2 {
            11
        } else if col_idx == 3 {
            13
        } else {
            col_idx
        };
        assert(col == service_target(c as int));
        match customers.set_cell_value(i, col, copy_value(cell.value())) {
            Ok(()) => {},
            Err(e) => {
                assert(c == 14);
                assert(row@.len() > 14);
                return Err(e);
            },
        }
        assert(customers@.rows =~~= start.rows.push(
            Seq::new(14, |k: int| service_value_placed(v, c + 1, k)),
        ));
    }
    proof {
        lemma_type_column();
    }
    let set = customers.set_cell_value_by_title(i, "Type", Some("Filiale".to_owned()));
    assert(set is Ok);
    assert(customers@.rows =~~= start.rows.push(service_row(v)));
    Ok(())
}

/// Builds the customer list of a directory from its structures sheet and
/// its services sheet, each with its titles in its first row: both first
/// rows become headers, the structures keep the columns where the structure
/// titles first occur, and each structure brings its own row and one row per
/// service whose first column holds the structure's second kept value. The
/// list's titles make its header and its first row. Fails, with the message
/// of the first check that fails, when a sheet has a header already or no
/// row, when a structure title is missing, when there is a structure to look
/// up and the services have no column, or when a matching service is wider
/// than the list.
pub fn build_customer_list(structures: Table, services: Table) -> (r: Result<Table, String>)
    requires
        structures@.wf(),
        services@.wf(),
    ensures
        r is Ok <==> customer_list_builds(structures@, services@),
        r matches Ok(t) ==> t@ == customer_list(structures@, services@) && t@.wf(),
        r matches Err(e) ==> e@ == customer_list_error(structures@, services@),
{
    let ghost ms = structures@;
    let ghost mv = services@;
    let mut structure_sheet = structures;
    let mut service_sheet = services;
    match structure_sheet.first_line_as_header() {
        Ok(_) => {},
        Err(e) => {
            return Err(e);
        },
    }
    match service_sheet.first_line_as_header() {
        Ok(_) => {},
        Err(e) => {
            return Err(e);
        },
    }
    let ghost hdr = first_row_titles(ms);
    let ghost sv = service_rows(mv);
    let structure_header = structure_title_list();
    let titles = structure_header.as_slice();
    assert(strs_view(titles@) == structure_titles());
    let cols = match structure_sheet.get_cols_indices_by_titles(titles) {
        Ok(c) => c,
        Err(e) => {
            proof {
                let k = choose|k: int|
                    is_first_missing(hdr, strs_view(titles@), k) && e@ == title_not_found_text(
                        #[trigger] titles@[k]@,
                    );
                assert(titles@[k]@ == structure_titles()[k]);
                assert(is_first_missing(hdr, structure_titles(), k));
                let k2 = choose|k: int| is_first_missing(hdr, structure_titles(), k);
                lemma_first_missing_unique(hdr, structure_titles(), k, k2);
                assert(!hdr.contains(structure_titles()[k]));
            }
            return Err(e);
        },
    };
    proof {
        assert forall|k: int| 0 <= k < structure_titles().len() implies hdr.contains(
            #[trigger] structure_titles()[k],
        ) by {
            assert(titles@[k]@ == structure_titles()[k]);
        }
        assert forall|k: int| 0 <= k < cols@.len() implies #[trigger] cols@[k] < structure_sheet@.nb_cols by {
            assert(is_first_position(hdr, strs_view(titles@)[k], cols@[k] as int));
        }
        assert(!exists|k: int| is_first_missing(hdr, structure_titles(), k));
    }
    let kept = cols.as_slice();
    let ghost ms1 = structure_sheet@;
    match structure_sheet.keep_cols(kept) {
        Ok(()) => {},
        Err(e) => {
            return Err(e);
        },
    }
    let ghost ws = structure_rows(ms);
    proof {
        let d1 = |j: int| 0 <= j < ms1.nb_cols && !listed(kept@, j);
        let d2 = |j: int| 0 <= j < ms.nb_cols && !structure_col_kept(hdr, j);
        assert forall|j: int| #[trigger] d1(j) == d2(j) by {
            assert forall|k: int| 0 <= k < kept@.len() implies is_first_position(
                hdr,
                structure_titles()[k],
                #[trigger] kept@[k] as int,
            ) by {
                assert(strs_view(titles@)[k] == structure_titles()[k]);
            }
            lemma_listed_is_kept(hdr, kept@, j);
        }
        assert(d1 =~= d2);
        assert(structure_sheet@.rows =~= ws);
        lemma_kept_count_listed(ms.nb_cols, kept@);
        assert(structure_sheet@.nb_cols <= 11);
    }
    let customer_header = customer_title_list();
    let list_titles = customer_header.as_slice();
    let mut customers = Table::from_column_titles(list_titles, "Liste pour Sage");
    proof {
        assert(strs_view(list_titles@) == customer_titles());
        assert(customer_titles().len() == 14);
        assert(customer_rows(ws.take(0), sv) =~= Seq::empty());
        assert(customers@.rows =~= customer_rows(ws.take(0), sv));
    }
    let srows = structure_sheet.iter_rows();
    let n = srows.len();
    let none_code: Value = None;
    for s in 0..n
        invariant
            n == ws.len(),
            crate::table::rows_view(srows@) == ws,
            forall|r: int| 0 <= r < n ==> (#[trigger] ws[r]).len() <= 11,
            sv == service_rows(mv),
            none_code is None,
            service_sheet@ == mv.first_line_as_header(),
            service_sheet@.wf(),
            customers@.wf(),
            customers@ == (TableModel {
                rows: customer_rows(ws.take(s as int), sv),
                nb_cols: 14,
                name: customer_list_name(),
                header: Some(customer_titles()),
            }),
            ms == structures@,
            mv == services@,
            ms.header is None,
            ms.rows.len() > 0,
            mv.header is None,
            mv.rows.len() > 0,
            ws == structure_rows(ms),
            forall|k: int| 0 <= k < structure_titles().len() ==> hdr.contains(#[trigger] structure_titles()[k]),
            !exists|k: int| is_first_missing(hdr, structure_titles(), k),
            hdr == first_row_titles(ms),
            s > 0 ==> mv.nb_cols > 0,
            mv.nb_cols > 14 ==> forall|r: int|
                0 <= r < s ==> (#[trigger] service_matches(sv, customer_code(ws[r]))).len() == 0,
    {
        let row = &srows[s];
        let ghost w = row@;
        assert(w == ws[s as int]);
        push_structure_row(&mut customers, row);
        let cells = row.iter_cells();
        let code: &Value;
        if cells.len() > 1 {
            let second = cells[1].1;
            assert(second@ == w[1]);
            code = second.value();
        } else {
            code = &none_code;
        }
        assert(value_view(*code) == customer_code(w));
        let srv = match service_sheet.find_rows_matching_value(0, code) {
            Ok(v) => v,
            Err(e) => {
                proof {
                    assert(mv.nb_cols == 0);
                    assert(structure_rows(ms).len() > 0);
                    assert(e@ == out_of_range_text("column"@, 0, "0..="@, 0));
                }
                return Err(e);
            },
        };
        let ghost hits = service_matches(sv, customer_code(w));
        proof {
            let p1 = |i: int| 0 < service_sheet@.rows[i].len() && service_sheet@.rows[i][0] == value_view(*code);
            assert(p1 =~= service_of(sv, customer_code(w)));
            law_positions_where(sv.len(), service_of(sv, customer_code(w)));
        }
        let ghost done = customers@.rows;
        let nq = srv.len();
        for q in 0..nq
            invariant
                nq == hits.len(),
                srv@.len() == nq,
                forall|k: int| 0 <= k < nq ==> #[trigger] srv@[k] == hits[k],
                forall|k: int| 0 <= k < nq ==> 0 <= #[trigger] hits[k] < sv.len(),
                hits == service_matches(sv, customer_code(w)),
                w == ws[s as int],
                s < ws.len(),
                ws == structure_rows(ms),
                sv == service_rows(mv),
                service_sheet@ == mv.first_line_as_header(),
                service_sheet@.wf(),
                customers@.wf(),
                customers@ == (TableModel {
                    rows: done + Seq::new(q as nat, |p: int| service_row(sv[hits[p]])),
                    nb_cols: 14,
                    name: customer_list_name(),
                    header: Some(customer_titles()),
                }),
                mv.nb_cols > 14 ==> q == 0,
                ms == structures@,
                mv == services@,
                ms.header is None,
                ms.rows.len() > 0,
                mv.header is None,
                mv.rows.len() > 0,
                !exists|k: int| is_first_missing(hdr, structure_titles(), k),
                hdr == first_row_titles(ms),
                mv.nb_cols > 0,
        {
            let row_idx = srv[q];
            assert(0 <= hits[q as int] < sv.len());
            let srv_row = service_sheet.get_row(row_idx).unwrap();
            match push_service_row(&mut customers, srv_row) {
                Ok(()) => {},
                Err(e) => {
                    proof {
                        assert(srv_row@ == service_sheet@.rows[row_idx as int]);
                        assert(mv.nb_cols > 14);
                        assert(some_structure_has_services(ms, mv)) by {
                            assert(service_matches(sv, customer_code(ws[s as int])).len() > 0);
                        }

                    }
                    return Err(e);
                },
            }
            assert(customers@.rows =~= done + Seq::new((q + 1) as nat, |p: int| service_row(sv[hits[p]])));
        }
        proof {
            assert(ws.take(s + 1).drop_last() =~= ws.take(s as int));
            assert(customers@.rows =~= customer_rows(ws.take(s + 1), sv));
        }
    }
    match customers.insert_header_as_first_row() {
        Ok(()) => {},
        Err(e) => {
            return Err(e);
        },
    }
    proof {
        assert(ws.take(n as int) =~= ws);
        assert(customers@.rows =~= customer_list(ms, mv).rows);
    }
    Ok(customers)
}

} // verus!
