//! Tables of optional text cells.
//!
//! A [`Table`] holds rows of [`Cell`]s, all of the same width (`nb_cols`), a
//! name, and an optional [`Header`] of column titles. Its mathematical model is
//! a [`TableModel`]: the grid of cell values, the width, the name and the titles.

use vstd::prelude::*;
use crate::text::{chars_of, contains_chars, invalid_column_message, invalid_column_text, str_contains, empty_table_header_message, empty_table_header_text, header_already_taken_message, header_already_taken_text, no_header_message, no_header_text, no_header_to_insert_message, no_header_to_insert_text, decimal, decimal_string, last_index, out_of_range_message, out_of_range_text, title_not_found_message, title_not_found_text};

verus! {

// -------------------------------------------------------------------------
// Values and their models
// -------------------------------------------------------------------------

/// The value of a cell: absent, or a text.
pub type Value = Option<String>;

/// The model of a value: its text as characters, when there is one.
pub open spec fn value_view(v: Value) -> Option<Seq<char>> {
    match v {
        Some(s) => Some(s@),
        None => None,
    }
}

/// The text that a value shows: the empty text when it is absent.
pub open spec fn text_of(v: Option<Seq<char>>) -> Seq<char> {
    match v {
        Some(s) => s,
        None => Seq::empty(),
    }
}

/// A row of `n` empty cells.
pub open spec fn empty_row(n: nat) -> Seq<Option<Seq<char>>> {
    Seq::new(n, |j: int| None)
}

/// The model of a list of titles.
pub open spec fn titles_view(titles: Seq<String>) -> Seq<Seq<char>> {
    titles.map_values(|t: String| t@)
}

/// The model of a list of borrowed texts.
pub open spec fn strs_view(strs: Seq<&str>) -> Seq<Seq<char>> {
    strs.map_values(|t: &str| t@)
}

/// Search mode
pub enum MatchMode {
    Exact,
    Contains,
}

/// One hit of a search in a column: the row, and how many hits the search
/// had counted up to and including this row.
#[derive(Debug, Clone, Copy, PartialEq, Eq)]
pub struct MatchResult {
    pub row_idx: usize,
    pub occurrence: usize,
}

// -------------------------------------------------------------------------
// Cell
// -------------------------------------------------------------------------

/// A single cell.
#[derive(Clone, Debug)]
pub struct Cell {
    value: Value,
}

impl View for Cell {
    type V = Option<Seq<char>>;

    closed spec fn view(&self) -> Option<Seq<char>> {
        value_view(self.value)
    }
}

impl Cell {
    pub fn value(&self) -> (v: &Value)
        ensures
            value_view(*v) == self@,
    {
        &self.value
    }

    pub fn value_mut(&mut self) -> (v: &mut Value)
        ensures
            value_view(*v) == old(self)@,
            final(self)@ == value_view(*final(v)),
    {
        &mut self.value
    }

    pub fn set_value(&mut self, v: String)
        ensures
            final(self)@ == Some(v@),
    {
        self.value = Some(v);
    }

    pub fn clear(&mut self)
        ensures
            final(self)@ == None::<Seq<char>>,
    {
        self.value = None;
    }

    /// The text of the cell; the empty text when it has no value.
    pub fn get_value_as_str(&self) -> (s: String)
        ensures
            s@ == text_of(self@),
    {
        match &self.value {
            Some(s) => s.clone(),
            None => String::new(),
        }
    }
}

// -------------------------------------------------------------------------
// Row
// -------------------------------------------------------------------------

/// The model of a list of cells.
pub open spec fn cells_view(cells: Seq<Cell>) -> Seq<Option<Seq<char>>> {
    cells.map_values(|c: Cell| c@)
}

/// A row of cells.
#[derive(Debug)]
pub struct Row {
    cells: Vec<Cell>,
}

impl View for Row {
    type V = Seq<Option<Seq<char>>>;

    closed spec fn view(&self) -> Seq<Option<Seq<char>>> {
        cells_view(self.cells@)
    }
}

impl Row {
    /// number of cells in the row
    pub fn len(&self) -> (n: usize)
        ensures
            n == self@.len(),
    {
        self.cells.len()
    }

    pub fn is_empty(&self) -> (b: bool)
        ensures
            b == (self@.len() == 0),
    {
        self.cells.len() == 0
    }

    /// The row's cells, each with its column index.
    pub fn iter_cells(&self) -> (r: Vec<(usize, &Cell)>)
        ensures
            r@.len() == self@.len(),
            forall|j: int| 0 <= j < r@.len() ==> (#[trigger] r@[j]).0 == j && r@[j].1@ == self@[j],
    {
        let n = self.cells.len();
        let mut r: Vec<(usize, &Cell)> = Vec::new();
        for j in 0..n
            invariant
                n == self.cells@.len(),
                r@.len() == j,
                forall|k: int| 0 <= k < j ==> (#[trigger] r@[k]).0 == k && r@[k].1@ == self@[k],
        {
            r.push((j, &self.cells[j]));
        }
        r
    }

    /// The row's cells, each with its column index, to change in place; what
    /// the cell of column `j` finally holds is what the row holds there
    /// afterwards.
    pub fn iter_cells_mut(&mut self) -> (r: Vec<(usize, &mut Cell)>)
        ensures
            r@.len() == old(self)@.len(),
            forall|j: int| 0 <= j < r@.len() ==> (#[trigger] r@[j]).0 == j && (*r@[j].1)@ == old(self)@[j],
            final(self)@ == Seq::new(r@.len(), |j: int| (*final(r@[j].1))@),
    {
        let ghost fin = final(self)@;
        let cells = self.cells.as_mut_slice();
        let ghost fin_cells = final(cells)@;
        assert(cells@.len() == cells.len());
        let r = indexed_cells_of(cells, 0);
        assert(fin =~= Seq::new(r@.len(), |j: int| (*final(r@[j].1))@)) by {
            assert(fin == cells_view(fin_cells));
        }
        r
    }
}

// -------------------------------------------------------------------------
// Header
// -------------------------------------------------------------------------

/// The titles of the columns.
#[derive(Clone, Debug)]
pub struct Header {
    titles: Vec<String>,
}

impl View for Header {
    type V = Seq<Seq<char>>;

    closed spec fn view(&self) -> Seq<Seq<char>> {
        titles_view(self.titles@)
    }
}

impl Header {
    pub fn new(titles: Vec<String>) -> (h: Self)
        ensures
            h@ == titles_view(titles@),
    {
        Header { titles }
    }

    pub fn len(&self) -> (n: usize)
        ensures
            n == self@.len(),
    {
        self.titles.len()
    }

    pub fn is_empty(&self) -> (b: bool)
        ensures
            b == (self@.len() == 0),
    {
        self.titles.len() == 0
    }

    /// Get the title at the given index.
    pub fn get_title(&self, idx: usize) -> (t: Option<&str>)
        ensures
            t is Some <==> idx < self@.len(),
            t matches Some(s) ==> s@ == self@[idx as int],
    {
        if idx < self.titles.len() {
            Some(self.titles[idx].as_str())
        } else {
            None
        }
    }

    /// The titles, in order.
    pub fn iter(&self) -> (r: Vec<&str>)
        ensures
            strs_view(r@) == self@,
    {
        let n = self.titles.len();
        let mut r: Vec<&str> = Vec::new();
        for j in 0..n
            invariant
                n == self.titles@.len(),
                r@.len() == j,
                forall|k: int| 0 <= k < j ==> (#[trigger] r@[k])@ == self@[k],
        {
            r.push(self.titles[j].as_str());
        }
        assert(strs_view(r@) =~= self@);
        r
    }

    /// Set the title at the given index, without changing the number of titles.
    pub fn set_title(&mut self, idx: usize, title: String) -> (r: Result<(), String>)
        ensures
            idx < old(self)@.len() ==> r is Ok && final(self)@ == old(self)@.update(idx as int, title@),
            idx >= old(self)@.len() ==> final(self)@ == old(self)@,
            idx >= old(self)@.len() ==> (r matches Err(e) && e@ == out_of_range_text(
                "header column"@,
                idx as nat,
                "0..="@,
                last_index(old(self)@.len()),
            )),
    {
        if idx >= self.titles.len() {
            return Err(out_of_range_message("header column", idx, "0..=", self.titles.len().saturating_sub(1)));
        }
        self.titles.set(idx, title);
        assert(titles_view(self.titles@) =~= titles_view(old(self).titles@).update(idx as int, title@));
        Ok(())
    }

    /// Pads the titles with empty ones up to `len` titles.
    pub fn ensure_len(&mut self, len: usize)
        ensures
            len <= old(self)@.len() ==> final(self)@ == old(self)@,
            len > old(self)@.len() ==> final(self)@ == old(self)@ + Seq::new(
                (len - old(self)@.len()) as nat,
                |i: int| Seq::<char>::empty(),
            ),
    {
        let ghost start = self@;
        while self.titles.len() < len
            invariant
                self@.len() <= len || self@ == start,
                start.len() <= self@.len(),
                self@ == start + Seq::new((self@.len() - start.len()) as nat, |i: int| Seq::<char>::empty()),
            decreases len - self.titles@.len(),
        {
            let ghost before = self@;
            self.titles.push(String::new());
            assert(self@ =~= before.push(Seq::<char>::empty()));
            assert(self@ =~= start + Seq::new((self@.len() - start.len()) as nat, |i: int| Seq::<char>::empty()));
        }
        proof {
            if len <= start.len() {
                assert(self@ =~= start);
            }
        }
    }

    /// Makes room for a column inserted at `col_idx`, titled after its
    /// 1-based number.
    fn insert_col_title(&mut self, col_idx: usize)
        requires
            col_idx < usize::MAX,
        ensures
            final(self)@ == titles_with_inserted_col(old(self)@, col_idx as int),
    {
        broadcast use lemma_titles_view_insert;

        let mut title = "Head_Col_".to_owned();
        title.append(decimal_string(col_idx + 1).as_str());
        if col_idx <= self.titles.len() {
            self.titles.insert(col_idx, title);
        } else {
            let ghost start = self@;
            while self.titles.len() < col_idx
                invariant
                    start.len() <= self@.len() <= col_idx,
                    self@ == start + Seq::new((self@.len() - start.len()) as nat, |k: int| Seq::<char>::empty()),
                decreases col_idx - self.titles@.len(),
            {
                let ghost before = self@;
                self.titles.push(String::new());
                assert(self@ =~= before.push(Seq::<char>::empty()));
                assert(self@ =~= start + Seq::new((self@.len() - start.len()) as nat, |k: int| Seq::<char>::empty()));
            }
            let ghost padded = self@;
            self.titles.push(title);
            assert(self@ =~= padded.push(col_title((col_idx + 1) as nat)));
        }
    }

    /// Removes the title of a removed column, when there is one.
    fn remove_col_title(&mut self, col_idx: usize)
        ensures
            final(self)@ == if col_idx < old(self)@.len() {
                old(self)@.remove(col_idx as int)
            } else {
                old(self)@
            },
    {
        broadcast use lemma_titles_view_remove;

        if col_idx < self.titles.len() {
            self.titles.remove(col_idx);
        }
    }

    /// The position of the first title equal to `title`.
    pub fn find_col_index_by_title(&self, title: &str) -> (r: Option<usize>)
        ensures
            r matches Some(i) ==> i < self@.len() && self@[i as int] == title@ && forall|j: int|
                0 <= j < i ==> self@[j] != title@,
            r is None ==> !self@.contains(title@),
    {
        let key = title.to_owned();
        let n = self.titles.len();
        for i in 0..n
            invariant
                n == self.titles@.len(),
                key@ == title@,
                forall|j: int| 0 <= j < i ==> self@[j] != title@,
        {
            if self.titles[i] == key {
                return Some(i);
            }
        }
        None
    }

    /// Return a list of column indices corresponding to the given titles.
    /// Returns an error if any title is not found.
    pub fn find_cols_indices_by_titles(&self, titles: &[&str]) -> (r: Result<Vec<usize>, String>)
        ensures
            r is Ok <==> forall|k: int| 0 <= k < titles@.len() ==> self@.contains(#[trigger] titles@[k]@),
            r matches Ok(v) ==> are_first_positions(self@, strs_view(titles@), v@),
            r matches Err(e) ==> exists|k: int|
                is_first_missing(self@, strs_view(titles@), k) && e@ == title_not_found_text(
                    #[trigger] titles@[k]@,
                ),
    {
        let n = titles.len();
        let mut indices: Vec<usize> = Vec::new();
        for k in 0..n
            invariant
                n == titles@.len(),
                indices@.len() == k,
                forall|j: int| 0 <= j < k ==> self@.contains(#[trigger] titles@[j]@),
                forall|m: int|
                    0 <= m < k ==> {
                        let i = #[trigger] indices@[m];
                        &&& i < self@.len()
                        &&& self@[i as int] == titles@[m]@
                        &&& forall|j: int| 0 <= j < i ==> self@[j] != titles@[m]@
                    },
        {
            let title = titles[k];
            match self.find_col_index_by_title(title) {
                Some(idx) => {
                    assert(self@.contains(titles@[k as int]@)) by {
                        assert(self@[idx as int] == titles@[k as int]@);
                    }
                    indices.push(idx);
                },
                None => {
                    assert(is_first_missing(self@, strs_view(titles@), k as int));
                    return Err(title_not_found_message(title));
                },
            }
        }
        assert(are_first_positions(self@, strs_view(titles@), indices@));
        Ok(indices)
    }
}


// -------------------------------------------------------------------------
// Table
// -------------------------------------------------------------------------

/// The model of a table: its rows of cell values, its width, its name and the
/// titles of its header, when it has one.
pub struct TableModel {
    pub rows: Seq<Seq<Option<Seq<char>>>>,
    pub nb_cols: nat,
    pub name: Seq<char>,
    pub header: Option<Seq<Seq<char>>>,
}

impl TableModel {
    /// Every row is exactly `nb_cols` cells wide.
    pub open spec fn wf(self) -> bool {
        forall|r: int| 0 <= r < self.rows.len() ==> #[trigger] self.rows[r].len() == self.nb_cols
    }

    /// The text that the cell at (`r`, `c`) shows.
    pub open spec fn cell_text(self, r: int, c: int) -> Seq<char> {
        text_of(self.rows[r][c])
    }

    /// The same table with other rows.
    pub open spec fn with_rows(self, rows: Seq<Seq<Option<Seq<char>>>>) -> TableModel {
        TableModel { rows: rows, nb_cols: self.nb_cols, name: self.name, header: self.header }
    }

    /// The same table with another header.
    pub open spec fn with_header(self, header: Option<Seq<Seq<char>>>) -> TableModel {
        TableModel { rows: self.rows, nb_cols: self.nb_cols, name: self.name, header: header }
    }

    /// The table after an empty row is inserted at index `i`.
    pub open spec fn insert_row(self, i: int) -> TableModel {
        self.with_rows(self.rows.insert(i, empty_row(self.nb_cols)))
    }

    /// The table after the row at index `i` is removed.
    pub open spec fn remove_row(self, i: int) -> TableModel {
        self.with_rows(self.rows.remove(i))
    }

    /// The table after an empty column is inserted at index `j`: every row
    /// gets an empty cell there, and a header gets the title of the new column.
    pub open spec fn insert_col(self, j: int) -> TableModel {
        TableModel {
            rows: Seq::new(self.rows.len(), |r: int| self.rows[r].insert(j, None)),
            nb_cols: self.nb_cols + 1,
            name: self.name,
            header: match self.header {
                Some(t) => Some(titles_with_inserted_col(t, j)),
                None => None,
            },
        }
    }

    /// The table after the column at index `j` is removed: from every row,
    /// and from a header that has a title there.
    pub open spec fn remove_col(self, j: int) -> TableModel {
        TableModel {
            rows: Seq::new(self.rows.len(), |r: int| self.rows[r].remove(j)),
            nb_cols: (self.nb_cols - 1) as nat,
            name: self.name,
            header: match self.header {
                Some(t) => Some(
                    if j < t.len() {
                        t.remove(j)
                    } else {
                        t
                    },
                ),
                None => None,
            },
        }
    }

    /// The text that row `r` shows in column `c`: the empty text where the
    /// row has no such cell.
    pub open spec fn shown_text(self, r: int, c: int) -> Seq<char> {
        if 0 <= c < self.nb_cols && c < self.rows[r].len() {
            self.cell_text(r, c)
        } else {
            Seq::empty()
        }
    }

    /// The table after its first row is taken out and made its header: the
    /// titles are the texts of the first `nb_cols` cells of that row.
    pub open spec fn first_line_as_header(self) -> TableModel {
        self.remove_row(0).with_header(Some(row_titles(self.rows[0], self.nb_cols)))
    }

    /// The table with a new first row that shows the header's titles.
    pub open spec fn insert_header_as_first_row(self) -> TableModel {
        self.with_rows(self.rows.insert(0, titles_row(self.header->0, self.nb_cols)))
    }

    /// The table with a new first row that shows the header's titles, and
    /// no header any more.
    pub open spec fn move_header_to_first_row(self) -> TableModel {
        self.insert_header_as_first_row().with_header(None)
    }

    /// The texts of column `c`, row by row.
    pub open spec fn col_texts(self, c: int) -> Seq<Seq<char>> {
        Seq::new(self.rows.len(), |r: int| self.shown_text(r, c))
    }

    /// The table after the columns at the positions where `drop` holds are
    /// removed: from every row, and from the titles of a header.
    pub open spec fn remove_cols_where(self, drop: spec_fn(int) -> bool) -> TableModel {
        TableModel {
            rows: Seq::new(self.rows.len(), |r: int| without_positions(self.rows[r], drop)),
            nb_cols: kept_count(self.nb_cols, drop),
            name: self.name,
            header: match self.header {
                Some(t) => Some(without_positions(t, drop)),
                None => None,
            },
        }
    }

    /// The same table where the cell at (`r`, `c`) holds `v`.
    pub open spec fn with_cell(self, r: int, c: int, v: Option<Seq<char>>) -> TableModel {
        self.with_rows(self.rows.update(r, self.rows[r].update(c, v)))
    }
}

/// The title given to a new column whose 1-based number is `n`.
pub open spec fn col_title(n: nat) -> Seq<char> {
    "Head_Col_"@ + decimal(n)
}

/// The titles after a column is inserted at index `j`: the new title goes
/// at `j`, after empty titles that fill any gap up to `j`.
pub open spec fn titles_with_inserted_col(t: Seq<Seq<char>>, j: int) -> Seq<Seq<char>> {
    if j <= t.len() {
        t.insert(j, col_title((j + 1) as nat))
    } else {
        (t + Seq::new((j - t.len()) as nat, |k: int| Seq::<char>::empty())).push(col_title((j + 1) as nat))
    }
}

/// The title at `j`, or the empty title past the end.
pub open spec fn title_at(t: Seq<Seq<char>>, j: int) -> Seq<char> {
    if 0 <= j < t.len() {
        t[j]
    } else {
        Seq::empty()
    }
}

/// A row of `n` cells that show the titles, the empty title past their end.
pub open spec fn titles_row(t: Seq<Seq<char>>, n: nat) -> Seq<Option<Seq<char>>> {
    Seq::new(n, |j: int| Some(title_at(t, j)))
}

/// The titles taken from the first `n` cells of a row, an absent value
/// giving the empty title, padded with empty titles up to `n`.
pub open spec fn row_titles(row: Seq<Option<Seq<char>>>, n: nat) -> Seq<Seq<char>> {
    Seq::new(n, |j: int| if j < row.len() { text_of(row[j]) } else { Seq::empty() })
}

/// The titles padded with empty ones up to `n` titles.
pub open spec fn padded_titles(t: Seq<Seq<char>>, n: nat) -> Seq<Seq<char>> {
    if n <= t.len() {
        t
    } else {
        t + Seq::new((n - t.len()) as nat, |i: int| Seq::<char>::empty())
    }
}

/// `i` is the first position of `x` in `t`.
pub open spec fn is_first_position(t: Seq<Seq<char>>, x: Seq<char>, i: int) -> bool {
    &&& 0 <= i < t.len()
    &&& t[i] == x
    &&& forall|j: int| 0 <= j < i ==> t[j] != x
}

/// The first position of `x` in `t`, where `t` holds it.
pub open spec fn first_position(t: Seq<Seq<char>>, x: Seq<char>) -> int {
    choose|i: int| is_first_position(t, x, i)
}

/// A title that the titles hold has a first position.
pub proof fn lemma_first_position(t: Seq<Seq<char>>, x: Seq<char>)
    requires
        t.contains(x),
    ensures
        is_first_position(t, x, first_position(t, x)),
{
    t.index_of_first_ensures(x);
    let i = t.index_of_first(x)->0;
    assert(is_first_position(t, x, i));
}

/// A title has one first position.
pub proof fn lemma_first_position_unique(t: Seq<Seq<char>>, x: Seq<char>, i: int, j: int)
    requires
        is_first_position(t, x, i),
        is_first_position(t, x, j),
    ensures
        i == j,
{
    if i < j {
        assert(t[i] == x);
    } else if j < i {
        assert(t[j] == x);
    }
}

/// `v` holds, for each wanted title, its first position in `t`.
pub open spec fn are_first_positions(t: Seq<Seq<char>>, wanted: Seq<Seq<char>>, v: Seq<usize>) -> bool {
    &&& v.len() == wanted.len()
    &&& forall|k: int| 0 <= k < v.len() ==> is_first_position(t, wanted[k], #[trigger] v[k] as int)
}

/// The wanted title at `k` is the first one that `t` does not hold.
pub open spec fn is_first_missing(t: Seq<Seq<char>>, wanted: Seq<Seq<char>>, k: int) -> bool {
    &&& 0 <= k < wanted.len()
    &&& !t.contains(wanted[k])
    &&& forall|j: int| 0 <= j < k ==> t.contains(#[trigger] wanted[j])
}

/// The positions below `n` where `p` holds, in increasing order.
pub open spec fn positions_where(n: nat, p: spec_fn(int) -> bool) -> Seq<int>
    decreases n,
{
    if n == 0 {
        Seq::empty()
    } else {
        let prev = positions_where((n - 1) as nat, p);
        if p(n - 1) {
            prev.push(n - 1)
        } else {
            prev
        }
    }
}

/// How many times `x` occurs in `s`.
pub open spec fn count_in(s: Seq<Seq<char>>, x: Seq<char>) -> nat
    decreases s.len(),
{
    if s.len() == 0 {
        0
    } else {
        count_in(s.drop_last(), x) + if s.last() == x {
            1nat
        } else {
            0nat
        }
    }
}

/// Whether a text matches the needle of a search.
pub open spec fn matches_mode(text: Seq<char>, needle: Seq<char>, mode: MatchMode) -> bool {
    match mode {
        MatchMode::Exact => text == needle,
        MatchMode::Contains => contains_chars(text, needle),
    }
}

/// Where row `i` starts when the rows are laid end to end: the number of
/// cells of the rows before it.
pub open spec fn row_offset(rows: Seq<Seq<Option<Seq<char>>>>, i: int) -> int
    decreases i,
{
    if i <= 0 {
        0
    } else {
        row_offset(rows, i - 1) + rows[i - 1].len()
    }
}

/// The entry at the place of cell (`a`, `b`) in a row-major list of cells
/// gives that cell with its row and column.
pub open spec fn cell_entry(r: Seq<(usize, usize, &Cell)>, rows: Seq<Seq<Option<Seq<char>>>>, a: int, b: int) -> bool {
    let k = row_offset(rows, a) + b;
    &&& 0 <= k < r.len()
    &&& r[k].0 == a
    &&& r[k].1 == b
    &&& r[k].2@ == rows[a][b]
}

/// The entry at the place of cell (`a`, `b`) in a row-major list of cells
/// to change gives that cell, as it was, with its row (counted from `base`)
/// and its column.
pub open spec fn cell_entry_mut(
    r: Seq<(usize, usize, &mut Cell)>,
    rows: Seq<Seq<Option<Seq<char>>>>,
    a: int,
    b: int,
    base: int,
) -> bool {
    let k = row_offset(rows, a) + b;
    &&& 0 <= k < r.len()
    &&& r[k].0 == base + a
    &&& r[k].1 == b
    &&& (*r[k].2)@ == rows[a][b]
}

/// Rows shaped like `rows` whose cell (`a`, `b`) holds the value at its
/// row-major place in `vals`.
pub open spec fn rows_from_flat(
    vals: Seq<Option<Seq<char>>>,
    rows: Seq<Seq<Option<Seq<char>>>>,
) -> Seq<Seq<Option<Seq<char>>>> {
    Seq::new(rows.len(), |a: int| Seq::new(rows[a].len(), |b: int| vals[row_offset(rows, a) + b]))
}

/// The number of cells of all rows.
pub open spec fn cell_count(rows: Seq<Seq<Option<Seq<char>>>>) -> int {
    row_offset(rows, rows.len() as int)
}

/// An ASCII letter, of either case.
pub open spec fn is_ascii_letter(c: char) -> bool {
    ('a' <= c && c <= 'z') || ('A' <= c && c <= 'Z')
}

/// The rank of a letter in the alphabet, from 1 for 'A' (or 'a') to 26.
pub open spec fn letter_rank(c: char) -> nat {
    if 'a' <= c && c <= 'z' {
        (c as int - 'a' as int + 1) as nat
    } else {
        (c as int - 'A' as int + 1) as nat
    }
}

/// The 1-based number of a column label made of letters: "A" is 1, "Z" is
/// 26, "AA" is 27.
pub open spec fn col_label_value(s: Seq<char>) -> nat
    decreases s.len(),
{
    if s.len() == 0 {
        0
    } else {
        col_label_value(s.drop_last()) * 26 + letter_rank(s.last())
    }
}

/// Every character of `s` is an ASCII letter.
pub open spec fn all_letters(s: Seq<char>) -> bool {
    forall|j: int| 0 <= j < s.len() ==> is_ascii_letter(#[trigger] s[j])
}

/// `s` without the items at the positions where `drop` holds.
pub open spec fn without_positions<A>(s: Seq<A>, drop: spec_fn(int) -> bool) -> Seq<A>
    decreases s.len(),
{
    if s.len() == 0 {
        Seq::empty()
    } else {
        let prev = without_positions(s.drop_last(), drop);
        if drop(s.len() - 1) {
            prev
        } else {
            prev.push(s.last())
        }
    }
}

/// How many positions below `n` `drop` leaves.
pub open spec fn kept_count(n: nat, drop: spec_fn(int) -> bool) -> nat
    decreases n,
{
    if n == 0 {
        0
    } else {
        kept_count((n - 1) as nat, drop) + if drop(n - 1) {
            0nat
        } else {
            1nat
        }
    }
}

/// `j` is one of the indices of `idx`.
pub open spec fn listed(idx: Seq<usize>, j: int) -> bool {
    exists|k: int| 0 <= k < idx.len() && idx[k] as int == j
}

/// `m` is the largest of the indices of `idx`.
pub open spec fn is_max_index(idx: Seq<usize>, m: usize) -> bool {
    &&& listed(idx, m as int)
    &&& forall|k: int| 0 <= k < idx.len() ==> idx[k] <= m
}

/// The model of a row of values.
pub open spec fn values_view(vs: Seq<Value>) -> Seq<Option<Seq<char>>> {
    vs.map_values(|v: Value| value_view(v))
}

/// The length of the longest of the lists, 0 when there is none.
pub open spec fn max_len<A>(rows: Seq<Seq<A>>) -> nat
    decreases rows.len(),
{
    if rows.len() == 0 {
        0
    } else {
        let m = max_len(rows.drop_last());
        if rows.last().len() > m {
            rows.last().len()
        } else {
            m
        }
    }
}

/// The model of a list of rows.
pub open spec fn rows_view(rows: Seq<Row>) -> Seq<Seq<Option<Seq<char>>>> {
    rows.map_values(|r: Row| r@)
}

/// The model of an optional header.
pub open spec fn header_view(h: Option<Header>) -> Option<Seq<Seq<char>>> {
    match h {
        Some(h) => Some(h@),
        None => None,
    }
}

/// Updating one row updates the model of the rows at the same place.
pub broadcast proof fn lemma_rows_view_update(rows: Seq<Row>, i: int, x: Row)
    requires
        0 <= i < rows.len(),
    ensures
        #[trigger] rows_view(rows.update(i, x)) == rows_view(rows).update(i, x@),
{
    assert(rows_view(rows.update(i, x)) =~= rows_view(rows).update(i, x@));
}

/// Updating one cell updates the model of the cells at the same place.
pub broadcast proof fn lemma_cells_view_update(cells: Seq<Cell>, i: int, x: Cell)
    requires
        0 <= i < cells.len(),
    ensures
        #[trigger] cells_view(cells.update(i, x)) == cells_view(cells).update(i, x@),
{
    assert(cells_view(cells.update(i, x)) =~= cells_view(cells).update(i, x@));
}

/// Inserting a cell inserts its model at the same place.
pub broadcast proof fn lemma_cells_view_insert(cells: Seq<Cell>, i: int, x: Cell)
    requires
        0 <= i <= cells.len(),
    ensures
        #[trigger] cells_view(cells.insert(i, x)) == cells_view(cells).insert(i, x@),
{
    assert(cells_view(cells.insert(i, x)) =~= cells_view(cells).insert(i, x@));
}

/// Removing a cell removes its model from the same place.
pub broadcast proof fn lemma_cells_view_remove(cells: Seq<Cell>, i: int)
    requires
        0 <= i < cells.len(),
    ensures
        #[trigger] cells_view(cells.remove(i)) == cells_view(cells).remove(i),
{
    assert(cells_view(cells.remove(i)) =~= cells_view(cells).remove(i));
}

/// Inserting a row inserts its model at the same place.
pub broadcast proof fn lemma_rows_view_insert(rows: Seq<Row>, i: int, x: Row)
    requires
        0 <= i <= rows.len(),
    ensures
        #[trigger] rows_view(rows.insert(i, x)) == rows_view(rows).insert(i, x@),
{
    assert(rows_view(rows.insert(i, x)) =~= rows_view(rows).insert(i, x@));
}

/// Removing a row removes its model from the same place.
pub broadcast proof fn lemma_rows_view_remove(rows: Seq<Row>, i: int)
    requires
        0 <= i < rows.len(),
    ensures
        #[trigger] rows_view(rows.remove(i)) == rows_view(rows).remove(i),
{
    assert(rows_view(rows.remove(i)) =~= rows_view(rows).remove(i));
}

/// Inserting a title inserts its model at the same place.
pub broadcast proof fn lemma_titles_view_insert(titles: Seq<String>, i: int, x: String)
    requires
        0 <= i <= titles.len(),
    ensures
        #[trigger] titles_view(titles.insert(i, x)) == titles_view(titles).insert(i, x@),
{
    assert(titles_view(titles.insert(i, x)) =~= titles_view(titles).insert(i, x@));
}

/// Removing a title removes its model from the same place.
pub broadcast proof fn lemma_titles_view_remove(titles: Seq<String>, i: int)
    requires
        0 <= i < titles.len(),
    ensures
        #[trigger] titles_view(titles.remove(i)) == titles_view(titles).remove(i),
{
    assert(titles_view(titles.remove(i)) =~= titles_view(titles).remove(i));
}

/// `count_in` never exceeds the length of the list.
proof fn lemma_count_in_bound(s: Seq<Seq<char>>, x: Seq<char>)
    ensures
        count_in(s, x) <= s.len(),
    decreases s.len(),
{
    if s.len() > 0 {
        lemma_count_in_bound(s.drop_last(), x);
    }
}

/// A text that a list does not hold occurs in it zero times.
proof fn lemma_count_in_absent(s: Seq<Seq<char>>, x: Seq<char>)
    requires
        forall|j: int| 0 <= j < s.len() ==> s[j] != x,
    ensures
        count_in(s, x) == 0,
    decreases s.len(),
{
    if s.len() > 0 {
        lemma_count_in_absent(s.drop_last(), x);
    }
}

/// A row's cells come before the start of every later row.
proof fn lemma_row_offset_mono(rows: Seq<Seq<Option<Seq<char>>>>, a: int, b: int)
    requires
        0 <= a < b <= rows.len(),
    ensures
        0 <= row_offset(rows, a),
        row_offset(rows, a) + rows[a].len() <= row_offset(rows, b),
    decreases b - a,
{
    lemma_row_offset_nonneg(rows, a);
    if b > a + 1 {
        lemma_row_offset_mono(rows, a, b - 1);
    }
}

/// Row offsets are never negative.
proof fn lemma_row_offset_nonneg(rows: Seq<Seq<Option<Seq<char>>>>, i: int)
    ensures
        0 <= row_offset(rows, i),
    decreases i,
{
    if i > 0 {
        lemma_row_offset_nonneg(rows, i - 1);
    }
}

/// Without the first row, every later row starts that row's length sooner.
proof fn lemma_row_offset_drop_first(rows: Seq<Seq<Option<Seq<char>>>>, i: int)
    requires
        0 <= i < rows.len(),
    ensures
        row_offset(rows, i + 1) == rows[0].len() + row_offset(rows.drop_first(), i),
    decreases i,
{
    let rest = rows.drop_first();
    assert(row_offset(rows, i + 1) == row_offset(rows, i) + rows[i].len());
    if i > 0 {
        lemma_row_offset_drop_first(rows, i - 1);
        assert(rest[i - 1] == rows[i]);
        assert(row_offset(rest, i) == row_offset(rest, i - 1) + rest[i - 1].len());
    } else {
        assert(row_offset(rows, 0) == 0);
        assert(row_offset(rest, 0) == 0);
    }
}

/// Dropping positions commutes with taking the model of each item.
proof fn lemma_without_positions_map<A, B>(s: Seq<A>, f: spec_fn(A) -> B, drop: spec_fn(int) -> bool)
    ensures
        without_positions(s.map_values(f), drop) == without_positions(s, drop).map_values(f),
    decreases s.len(),
{
    if s.len() > 0 {
        assert(s.map_values(f).drop_last() =~= s.drop_last().map_values(f));
        lemma_without_positions_map(s.drop_last(), f, drop);
        let prev = without_positions(s.drop_last(), drop);
        if !drop(s.len() - 1) {
            assert(prev.push(s.last()).map_values(f) =~= prev.map_values(f).push(f(s.last())));
        }
    }
}

/// The length of what is left depends only on the length of the list.
proof fn lemma_without_positions_len<A>(s: Seq<A>, drop: spec_fn(int) -> bool)
    ensures
        without_positions(s, drop).len() == kept_count(s.len(), drop),
    decreases s.len(),
{
    if s.len() > 0 {
        lemma_without_positions_len(s.drop_last(), drop);
    }
}

/// Dropping no position leaves the list as it is.
pub proof fn lemma_without_positions_nothing<A>(s: Seq<A>, drop: spec_fn(int) -> bool)
    requires
        forall|j: int| 0 <= j < s.len() ==> !#[trigger] drop(j),
    ensures
        without_positions(s, drop) == s,
    decreases s.len(),
{
    if s.len() > 0 {
        lemma_without_positions_nothing(s.drop_last(), drop);
        assert(s.drop_last().push(s.last()) =~= s);
    }
}

/// Dropping no position keeps every position.
pub proof fn lemma_kept_count_nothing(n: nat, drop: spec_fn(int) -> bool)
    requires
        forall|j: int| 0 <= j < n ==> !#[trigger] drop(j),
    ensures
        kept_count(n, drop) == n,
    decreases n,
{
    if n > 0 {
        lemma_kept_count_nothing((n - 1) as nat, drop);
    }
}

/// The number of a label of letters is at least the number of any of its
/// prefixes.
proof fn lemma_col_label_prefix(s: Seq<char>, k: int)
    requires
        all_letters(s),
        0 <= k <= s.len(),
    ensures
        col_label_value(s.take(k)) <= col_label_value(s),
    decreases s.len(),
{
    if k == s.len() {
        assert(s.take(k) =~= s);
    } else {
        let p = s.drop_last();
        assert(all_letters(p)) by {
            assert forall|j: int| 0 <= j < p.len() implies is_ascii_letter(#[trigger] p[j]) by {
                assert(p[j] == s[j]);
            }
        }
        lemma_col_label_prefix(p, k);
        assert(p.take(k) =~= s.take(k));
    }
}

/// The items of `items` at the positions below `marks.len()` that are not
/// marked, and all items past `marks.len()`, in order.
fn keep_unmarked<T>(items: Vec<T>, marks: &Vec<bool>) -> (r: Vec<T>)
    ensures
        r@ == without_positions(items@, |j: int| 0 <= j < marks@.len() && marks@[j]),
{
    let ghost drop = |j: int| 0 <= j < marks@.len() && marks@[j];
    let ghost all = items@;
    let len = items.len();
    let mut kept: Vec<T> = Vec::new();
    let mut j: usize = 0;
    for item in it: items.into_iter()
        invariant
            all.len() == len,
            it.seq() == all,
            j == it.index(),
            drop == (|j: int| 0 <= j < marks@.len() && marks@[j]),
            kept@ == without_positions(all.take(j as int), drop),
    {
        proof {
            assert(all.take(j + 1).drop_last() =~= all.take(j as int));
        }
        if !(j < marks.len() && marks[j]) {
            kept.push(item);
        }
        j = j + 1;
    }
    assert(all.take(j as int) =~= all);
    kept
}

/// Whether `j` is one of the indices of `idx`.
fn is_listed(idx: &[usize], j: usize) -> (b: bool)
    ensures
        b == listed(idx@, j as int),
{
    let n = idx.len();
    for k in 0..n
        invariant
            n == idx@.len(),
            forall|m: int| 0 <= m < k ==> idx@[m] != j,
    {
        if idx[k] == j {
            return true;
        }
    }
    false
}

/// The largest of the indices of a non-empty list.
fn max_index(idx: &[usize]) -> (m: usize)
    requires
        idx@.len() > 0,
    ensures
        is_max_index(idx@, m),
{
    let mut m = idx[0];
    let n = idx.len();
    for k in 1..n
        invariant
            n == idx@.len(),
            n > 0,
            listed(idx@, m as int),
            forall|a: int| 0 <= a < k ==> idx@[a] <= m,
    {
        if idx[k] > m {
            m = idx[k];
        }
    }
    m
}

/// The cells at column `col` of the rows, each with its row index counted
/// from `base`, to change in place.
fn col_cells_of(rows: &mut [Row], col: usize, base: usize) -> (r: Vec<(usize, &mut Cell)>)
    requires
        forall|i: int| 0 <= i < old(rows)@.len() ==> col < (#[trigger] old(rows)@[i])@.len(),
        base + old(rows)@.len() <= usize::MAX,
    ensures
        r@.len() == old(rows)@.len(),
        forall|k: int|
            0 <= k < r@.len() ==> (#[trigger] r@[k]).0 == base + k && (*r@[k].1)@ == old(rows)@[k]@[col as int],
        rows_view(final(rows)@) == Seq::new(
            r@.len(),
            |k: int| old(rows)@[k]@.update(col as int, (*final(r@[k].1))@),
        ),
    decreases old(rows)@.len(),
{
    broadcast use lemma_cells_view_update;

    if rows.len() == 0 {
        return Vec::new();
    }
    let ghost old_rows = rows@;
    let ghost fin_rows = final(rows)@;
    let (first, rest) = rows.split_at_mut(1);
    let ghost old_rest = rest@;
    let ghost fin_first = final(first)@;
    let ghost fin_rest = final(rest)@;
    assert(fin_rows == fin_first + fin_rest);
    let row = first.first_mut().unwrap();
    let ghost cur_row = *row;
    let ghost fin_row = *final(row);
    assert(fin_first == seq![fin_row]);
    assert(cur_row == old_rows[0]);
    assert(col < row.cells@.len());
    let cell = &mut row.cells[col];
    let ghost fin_cell = *final(cell);
    assert(fin_row.cells@ == cur_row.cells@.update(col as int, fin_cell));
    let mut v = col_cells_of(rest, col, base + 1);
    let ghost vo = v@;
    assert(rows_view(fin_rest) == Seq::new(
        vo.len(),
        |k: int| old_rest[k]@.update(col as int, (*final(vo[k].1))@),
    ));
    v.insert(0, (base, cell));
    assert(*final(v@[0].1) == fin_cell);
    assert forall|k: int|
        0 <= k < v@.len() implies (#[trigger] v@[k]).0 == base + k && (*v@[k].1)@ == old_rows[k]@[col as int] by {
        if k > 0 {
            assert(v@[k] == vo[k - 1]);
            assert(old_rest[k - 1] == old_rows[k]);
        }
    }
    proof {
        let target = Seq::new(v@.len(), |k: int| old_rows[k]@.update(col as int, (*final(v@[k].1))@));
        assert(rows_view(fin_rest).len() == vo.len());
        assert(fin_rest.len() == vo.len());
        assert(fin_rows.len() == v@.len());
        assert forall|k: int| 0 <= k < target.len() implies #[trigger] rows_view(fin_rows)[k] == target[k] by {
            if k == 0 {
                assert(fin_rows[0] == fin_row);
            } else {
                assert(fin_rows[k] == fin_rest[k - 1]);
                assert(v@[k] == vo[k - 1]);
                assert(old_rest[k - 1] == old_rows[k]);
                assert(rows_view(fin_rest)[k - 1] == old_rest[k - 1]@.update(col as int, (*final(vo[k - 1].1))@));
            }
        }
        assert(rows_view(fin_rows) =~= target);
    }
    v
}

/// The cells, each with its index counted from `base`, to change in place.
fn indexed_cells_of(cells: &mut [Cell], base: usize) -> (r: Vec<(usize, &mut Cell)>)
    requires
        base + old(cells)@.len() <= usize::MAX,
    ensures
        r@.len() == old(cells)@.len(),
        forall|k: int| 0 <= k < r@.len() ==> (#[trigger] r@[k]).0 == base + k && *r@[k].1 == old(cells)@[k],
        final(cells)@ == Seq::new(r@.len(), |k: int| *final(r@[k].1)),
    decreases old(cells)@.len(),
{
    if cells.len() == 0 {
        return Vec::new();
    }
    let ghost old_cells = cells@;
    let (first, rest) = cells.split_at_mut(1);
    let ghost old_rest = rest@;
    let c = first.first_mut().unwrap();
    assert(*c == old_cells[0]);
    let mut v = indexed_cells_of(rest, base + 1);
    let ghost vo = v@;
    v.insert(0, (base, c));
    assert forall|k: int| 0 <= k < v@.len() implies (#[trigger] v@[k]).0 == base + k && *v@[k].1 == old_cells[k] by {
        if k > 0 {
            assert(v@[k] == vo[k - 1]);
            assert(old_rest[k - 1] == old_cells[k]);
        }
    }
    v
}

/// The cells of one row, each with the row's index and its column index
/// counted from `base`, to change in place.
fn row_cells_of(cells: &mut [Cell], row: usize, base: usize) -> (r: Vec<(usize, usize, &mut Cell)>)
    requires
        base + old(cells)@.len() <= usize::MAX,
    ensures
        r@.len() == old(cells)@.len(),
        forall|k: int|
            0 <= k < r@.len() ==> (#[trigger] r@[k]).0 == row && r@[k].1 == base + k && *r@[k].2
                == old(cells)@[k],
        final(cells)@ == Seq::new(r@.len(), |k: int| *final(r@[k].2)),
    decreases old(cells)@.len(),
{
    if cells.len() == 0 {
        return Vec::new();
    }
    let ghost old_cells = cells@;
    let (first, rest) = cells.split_at_mut(1);
    let ghost old_rest = rest@;
    let c = first.first_mut().unwrap();
    assert(*c == old_cells[0]);
    let mut v = row_cells_of(rest, row, base + 1);
    let ghost vo = v@;
    v.insert(0, (row, base, c));
    assert forall|k: int|
        0 <= k < v@.len() implies (#[trigger] v@[k]).0 == row && v@[k].1 == base + k && *v@[k].2 == old_cells[k] by {
        if k > 0 {
            assert(v@[k] == vo[k - 1]);
            assert(old_rest[k - 1] == old_cells[k]);
        }
    }
    v
}

/// All cells of the rows, row after row, each with its row index counted
/// from `base` and its column index, to change in place.
fn all_cells_of(rows: &mut [Row], base: usize) -> (r: Vec<(usize, usize, &mut Cell)>)
    requires
        base + old(rows)@.len() <= usize::MAX,
    ensures
        r@.len() == cell_count(rows_view(old(rows)@)),
        forall|a: int, b: int|
            0 <= a < old(rows)@.len() && 0 <= b < old(rows)@[a]@.len() ==> #[trigger] cell_entry_mut(
                r@,
                rows_view(old(rows)@),
                a,
                b,
                base as int,
            ),
        rows_view(final(rows)@) == rows_from_flat(
            r@.map_values(|e: (usize, usize, &mut Cell)| (*final(e.2))@),
            rows_view(old(rows)@),
        ),
    decreases old(rows)@.len(),
{
    let ghost m = rows_view(rows@);
    if rows.len() == 0 {
        assert(rows_view(final(rows)@) =~= rows_from_flat(Seq::empty(), m));
        return Vec::new();
    }
    let ghost old_rows = rows@;
    let ghost fin_rows = final(rows)@;
    let (first, rest) = rows.split_at_mut(1);
    let ghost old_rest = rest@;
    let ghost fin_first = final(first)@;
    let ghost fin_rest = final(rest)@;
    assert(fin_rows == fin_first + fin_rest);
    let row = first.first_mut().unwrap();
    let ghost cur_row = *row;
    let ghost fin_row = *final(row);
    assert(fin_first == seq![fin_row]);
    assert(cur_row == old_rows[0]);
    let cells = row.cells.as_mut_slice();
    assert(cells@.len() == cells.len());
    let ghost fin_cells = final(cells)@;
    assert(fin_row.cells@ == fin_cells);
    let mut v = row_cells_of(cells, base, 0);
    let mut w = all_cells_of(rest, base + 1);
    let ghost vo = v@;
    let ghost wo = w@;
    v.append(&mut w);
    proof {
        let m2 = rows_view(old_rest);
        assert(m2 =~= m.drop_first());
        let len0 = cur_row.cells@.len();
        assert(m[0] == cells_view(cur_row.cells@));
        assert(vo.len() == len0);
        lemma_row_offset_drop_first(m, (m.len() - 1) as int);
        assert(v@.len() == cell_count(m));
        assert forall|a: int, b: int| 0 <= a < m.len() && 0 <= b < m[a].len() implies #[trigger] cell_entry_mut(
            v@,
            m,
            a,
            b,
            base as int,
        ) by {
            if a == 0 {
                assert(v@[b] == vo[b]);
            } else {
                lemma_row_offset_drop_first(m, a - 1);
                assert(m2[a - 1] == m[a]);
                assert(cell_entry_mut(wo, m2, a - 1, b, base + 1));
                assert(v@[len0 + row_offset(m2, a - 1) + b] == wo[row_offset(m2, a - 1) + b]);
            }
        }
        let fv = v@.map_values(|e: (usize, usize, &mut Cell)| (*final(e.2))@);
        let fw = wo.map_values(|e: (usize, usize, &mut Cell)| (*final(e.2))@);
        let target = rows_from_flat(fv, m);
        assert(rows_view(fin_rest) == rows_from_flat(fw, m2));
        assert(rows_view(fin_rest).len() == m2.len());
        assert(fin_rest.len() == m2.len());
        assert forall|a: int| 0 <= a < m.len() implies #[trigger] rows_view(fin_rows)[a] == target[a] by {
            if a == 0 {
                assert(fin_rows[0] == fin_row);
                assert forall|b: int| 0 <= b < len0 implies #[trigger] fin_cells[b] == *final(v@[b].2) by {
                    assert(v@[b] == vo[b]);
                }
                assert(cells_view(fin_cells) =~= target[0]);
            } else {
                lemma_row_offset_drop_first(m, a - 1);
                assert(fin_rows[a] == fin_rest[a - 1]);
                assert(m2[a - 1] == m[a]);
                assert(rows_view(fin_rest)[a - 1] == rows_from_flat(fw, m2)[a - 1]);
                assert forall|b: int| 0 <= b < m[a].len() implies #[trigger] target[a][b] == rows_from_flat(
                    fw,
                    m2,
                )[a - 1][b] by {
                    assert(m2[a - 1] == m[a]);
                    assert(cell_entry_mut(wo, m2, a - 1, b, base + 1));
                    let k = row_offset(m2, a - 1) + b;
                    assert(0 <= k < wo.len());
                    assert(v@ == vo + wo);
                    assert(v@[len0 + k] == wo[k]);
                    assert(row_offset(m, a) + b == len0 + k);
                    assert(fv[len0 + k] == fw[k]);
                }
                assert(target[a] =~= rows_from_flat(fw, m2)[a - 1]);
            }
        }
        assert(rows_view(fin_rows) =~= target);
    }
    v
}

/// Whether one of the keys has the text `t`.
spec fn has_key(keys: Seq<String>, t: Seq<char>) -> bool {
    exists|k: int| 0 <= k < keys.len() && keys[k]@ == t
}

/// Whether two values are equal.
fn value_eq(a: &Value, b: &Value) -> (r: bool)
    ensures
        r == (value_view(*a) == value_view(*b)),
{
    match (a, b) {
        (Some(x), Some(y)) => *x == *y,
        (None, None) => true,
        _ => false,
    }
}

/// A table of rows
#[derive(Debug)]
pub struct Table {
    rows: Vec<Row>,
    nb_cols: usize,
    name: String,
    pub header: Option<Header>,
}

/// A read-only view on one column of a table.
#[derive(Debug)]
pub struct Col<'a> {
    table: &'a Table,
    index: usize,
}

impl<'a> Col<'a> {
    /// The column lies inside a well-formed table.
    #[verifier::type_invariant]
    spec fn inv(self) -> bool {
        self.table@.wf() && self.index < self.table@.nb_cols
    }

    /// The index of the column.
    pub closed spec fn col_index(self) -> nat {
        self.index as nat
    }

    /// The model of the table the column belongs to.
    pub closed spec fn table_model(self) -> TableModel {
        self.table@
    }

    pub fn index(&self) -> (i: usize)
        ensures
            i == self.col_index(),
    {
        self.index
    }

    /// The cells of this column, row after row.
    pub fn iter_cells(&'a self) -> (r: Vec<&'a Cell>)
        ensures
            self.table_model().wf(),
            self.col_index() < self.table_model().nb_cols,
            r@.len() == self.table_model().rows.len(),
            forall|i: int|
                0 <= i < r@.len() ==> (#[trigger] r@[i])@ == self.table_model().rows[i][self.col_index() as int],
    {
        proof {
            use_type_invariant(self);
        }
        let n = self.table.rows.len();
        let mut r: Vec<&'a Cell> = Vec::new();
        for i in 0..n
            invariant
                n == self.table.rows@.len(),
                self.table@.wf(),
                self.index < self.table@.nb_cols,
                r@.len() == i,
                forall|k: int| 0 <= k < i ==> (#[trigger] r@[k])@ == self.table@.rows[k][self.index as int],
        {
            assert(self.table@.rows[i as int].len() == self.table@.nb_cols);
            r.push(&self.table.rows[i].cells[self.index]);
        }
        r
    }
}

impl View for Table {
    type V = TableModel;

    closed spec fn view(&self) -> TableModel {
        TableModel {
            rows: rows_view(self.rows@),
            nb_cols: self.nb_cols as nat,
            name: self.name@,
            header: header_view(self.header),
        }
    }
}

/// A row of `n` empty cells.
fn blank_row(n: usize) -> (r: Row)
    ensures
        r@ == empty_row(n as nat),
{
    let mut cells: Vec<Cell> = Vec::with_capacity(n);
    for j in 0..n
        invariant
            cells@.len() == j,
            forall|k: int| 0 <= k < j ==> (#[trigger] cells@[k])@ == None::<Seq<char>>,
    {
        cells.push(Cell { value: None });
    }
    let r = Row { cells };
    assert(r@ =~= empty_row(n as nat));
    r
}

impl Table {
    /// Create a new rectangular table `nb_rows` x `nb_cols`
    pub fn new(nb_rows: usize, nb_cols: usize, name: String) -> (t: Self)
        ensures
            t@ == (TableModel {
                rows: Seq::new(nb_rows as nat, |i: int| empty_row(nb_cols as nat)),
                nb_cols: nb_cols as nat,
                name: name@,
                header: None,
            }),
            t@.wf(),
    {
        let mut rows: Vec<Row> = Vec::with_capacity(nb_rows);
        for i in 0..nb_rows
            invariant
                rows@.len() == i,
                forall|k: int| 0 <= k < i ==> (#[trigger] rows@[k])@ == empty_row(nb_cols as nat),
        {
            rows.push(blank_row(nb_cols));
        }
        let t = Self { rows, nb_cols, name, header: None };
        assert(t@.rows =~= Seq::new(nb_rows as nat, |i: int| empty_row(nb_cols as nat)));
        t
    }

    /// Builds a table from the values of a sheet's range, row by row; the
    /// table is as wide as the longest row, and shorter rows are completed
    /// with empty cells.
    pub fn from_range(range: Vec<Vec<Value>>, sheet_name: String) -> (t: Self)
        ensures
            t@.wf(),
            t@.nb_cols == max_len(range@.map_values(|r: Vec<Value>| r@)),
            t@.rows.len() == range@.len(),
            forall|r: int|
                0 <= r < range@.len() ==> #[trigger] t@.rows[r] == values_view(range@[r]@) + empty_row(
                    (t@.nb_cols - range@[r]@.len()) as nat,
                ),
            t@.name == sheet_name@,
            t@.header is None,
    {
        let ghost lens = range@.map_values(|r: Vec<Value>| r@);
        let n = range.len();
        let mut max_cols: usize = 0;
        for i in 0..n
            invariant
                n == range@.len(),
                lens == range@.map_values(|r: Vec<Value>| r@),
                max_cols == max_len(lens.take(i as int)),
                forall|k: int| 0 <= k < i ==> #[trigger] range@[k]@.len() <= max_cols,
        {
            proof {
                assert(lens.take(i + 1).drop_last() =~= lens.take(i as int));
            }
            let l = range[i].len();
            if l > max_cols {
                max_cols = l;
            }
        }
        assert(lens.take(n as int) =~= lens);
        let ghost all = range@;
        let mut rows: Vec<Row> = Vec::new();
        let mut i: usize = 0;
        for values in it: range.into_iter()
            invariant
                all.len() == n,
                it.seq() == all,
                i == it.index(),
                forall|k: int| 0 <= k < n ==> #[trigger] all[k]@.len() <= max_cols,
                rows@.len() == i,
                forall|r: int|
                    0 <= r < i ==> (#[trigger] rows@[r])@ == values_view(all[r]@) + empty_row(
                        (max_cols - all[r]@.len()) as nat,
                    ),
        {
            let ghost vs = values@;
            let mut cells: Vec<Cell> = Vec::new();
            for value in vit: values.into_iter()
                invariant
                    vit.seq() == vs,
                    cells@.len() == vit.index(),
                    forall|k: int| 0 <= k < vit.index() ==> (#[trigger] cells@[k])@ == value_view(vs[k]),
            {
                cells.push(Cell { value });
            }
            let l = cells.len();
            assert(l == vs.len());
            assert(vs == all[i as int]@);
            assert(l <= max_cols);
            let mut j = l;
            while j < max_cols
                invariant
                    l == vs.len(),
                    l <= j <= max_cols,
                    cells@.len() == j,
                    forall|k: int| 0 <= k < l ==> (#[trigger] cells@[k])@ == value_view(vs[k]),
                    forall|k: int| l <= k < j ==> (#[trigger] cells@[k])@ == None::<Seq<char>>,
                decreases max_cols - j,
            {
                cells.push(Cell { value: None });
                j = j + 1;
            }
            let row = Row { cells };
            assert(row@ =~= values_view(vs) + empty_row((max_cols - vs.len()) as nat));
            rows.push(row);
            i = i + 1;
        }
        let t = Table { rows, nb_cols: max_cols, name: sheet_name, header: None };
        assert forall|r: int| 0 <= r < t@.rows.len() implies #[trigger] t@.rows[r].len() == t@.nb_cols by {
            assert(all[r]@.len() <= max_cols);
        }
        t
    }

    /// number of rows
    pub fn get_nb_rows(&self) -> (n: usize)
        ensures
            n == self@.rows.len(),
    {
        self.rows.len()
    }

    /// number of columns
    pub fn get_nb_cols(&self) -> (n: usize)
        ensures
            n == self@.nb_cols,
    {
        self.nb_cols
    }

    /// table name (sheet name)
    pub fn name(&self) -> (s: &str)
        ensures
            s@ == self@.name,
    {
        self.name.as_str()
    }

    pub fn set_name(&mut self, name: String)
        ensures
            final(self)@ == (TableModel { name: name@, ..old(self)@ }),
    {
        self.name = name;
    }

    /// Read access to a cell
    pub fn get(&self, row: usize, col: usize) -> (c: Option<&Cell>)
        ensures
            c is Some <==> (row < self@.rows.len() && col < self@.nb_cols && col < self@.rows[row as int].len()),
            c matches Some(c) ==> c@ == self@.rows[row as int][col as int],
    {
        if row < self.rows.len() && col < self.nb_cols && col < self.rows[row].cells.len() {
            Some(&self.rows[row].cells[col])
        } else {
            None
        }
    }

    /// Get the value of a cell as a String.
    pub fn get_cell_text(&self, row: usize, col: usize) -> (s: String)
        ensures
            s@ == if row < self@.rows.len() && col < self@.nb_cols && col < self@.rows[row as int].len() {
                self@.cell_text(row as int, col as int)
            } else {
                Seq::empty()
            },
    {
        match self.get(row, col) {
            Some(c) => c.get_value_as_str(),
            None => String::new(),
        }
    }

    /// Mutable access to a cell
    pub fn get_mut(&mut self, row: usize, col: usize) -> (c: Option<&mut Cell>)
        ensures
            c is Some <==> (row < old(self)@.rows.len() && col < old(self)@.nb_cols && col < old(
                self,
            )@.rows[row as int].len()),
            c is Some ==> (*c.unwrap())@ == old(self)@.rows[row as int][col as int],
            c is Some ==> final(self)@ == old(self)@.with_cell(row as int, col as int, (*final(c.unwrap()))@),
            c is None ==> final(self)@ == old(self)@,
    {
        broadcast use {lemma_rows_view_update, lemma_cells_view_update};

        if row < self.rows.len() && col < self.nb_cols && col < self.rows[row].cells.len() {
            Some(&mut self.rows[row].cells[col])
        } else {
            None
        }
    }

    /// Read access to a row
    pub fn get_row(&self, row_idx: usize) -> (r: Option<&Row>)
        ensures
            r is Some <==> row_idx < self@.rows.len(),
            r matches Some(r) ==> r@ == self@.rows[row_idx as int],
    {
        if row_idx < self.rows.len() {
            Some(&self.rows[row_idx])
        } else {
            None
        }
    }

    /// Mutable access to a row
    pub fn get_row_mut(&mut self, row_idx: usize) -> (r: Option<&mut Row>)
        ensures
            r is Some <==> row_idx < old(self)@.rows.len(),
            r is Some ==> (*r.unwrap())@ == old(self)@.rows[row_idx as int],
            r is Some ==> final(self)@ == old(self)@.with_rows(
                old(self)@.rows.update(row_idx as int, (*final(r.unwrap()))@),
            ),
            r is None ==> final(self)@ == old(self)@,
    {
        broadcast use lemma_rows_view_update;

        if row_idx < self.rows.len() {
            Some(&mut self.rows[row_idx])
        } else {
            None
        }
    }

    pub fn set_cell_value(&mut self, row_idx: usize, col_idx: usize, value: Value) -> (r: Result<(), String>)
        requires
            old(self)@.wf(),
        ensures
            final(self)@.wf(),
            r is Ok <==> (row_idx < old(self)@.rows.len() && col_idx < old(self)@.nb_cols),
            r is Ok ==> final(self)@ == old(self)@.with_cell(row_idx as int, col_idx as int, value_view(value)),
            r is Err ==> final(self)@ == old(self)@,
            row_idx >= old(self)@.rows.len() ==> (r matches Err(e) && e@ == out_of_range_text(
                "row"@,
                row_idx as nat,
                "0..="@,
                last_index(old(self)@.rows.len()),
            )),
            row_idx < old(self)@.rows.len() && col_idx >= old(self)@.nb_cols ==> (r matches Err(e) && e@
                == out_of_range_text("column"@, col_idx as nat, "0..="@, last_index(old(self)@.nb_cols))),
    {
        broadcast use {lemma_rows_view_update, lemma_cells_view_update};

        if row_idx >= self.rows.len() {
            return Err(out_of_range_message("row", row_idx, "0..=", self.rows.len().saturating_sub(1)));
        }
        if col_idx >= self.nb_cols {
            return Err(out_of_range_message("column", col_idx, "0..=", self.nb_cols.saturating_sub(1)));
        }
        assert(self@.rows[row_idx as int].len() == self.nb_cols);
        let ghost start = self@;
        self.rows[row_idx].cells[col_idx].value = value;
        assert(self@.rows =~= start.with_cell(row_idx as int, col_idx as int, value_view(value)).rows);
        Ok(())
    }

    /// Insert an empty row at the given index (0..=rows()).
    /// Returns Err if index is out of range.
    pub fn insert_row(&mut self, row_idx: usize) -> (r: Result<(), String>)
        ensures
            old(self)@.wf() ==> final(self)@.wf(),
            r is Ok <==> row_idx <= old(self)@.rows.len(),
            r is Ok ==> final(self)@ == old(self)@.insert_row(row_idx as int),
            r is Err ==> final(self)@ == old(self)@,
            r matches Err(e) ==> e@ == out_of_range_text(
                "row"@,
                row_idx as nat,
                "0..="@,
                old(self)@.rows.len(),
            ),
    {
        broadcast use lemma_rows_view_insert;

        if row_idx > self.rows.len() {
            return Err(out_of_range_message("row", row_idx, "0..=", self.rows.len()));
        }
        let row = blank_row(self.nb_cols);
        self.rows.insert(row_idx, row);
        Ok(())
    }

    /// Remove the row at the given index and return it.
    pub fn remove_row(&mut self, row_idx: usize) -> (r: Result<Row, String>)
        ensures
            old(self)@.wf() ==> final(self)@.wf(),
            r is Ok <==> row_idx < old(self)@.rows.len(),
            r matches Ok(row) ==> row@ == old(self)@.rows[row_idx as int] && final(self)@ == old(
                self,
            )@.remove_row(row_idx as int),
            r is Err ==> final(self)@ == old(self)@,
            r matches Err(e) ==> e@ == out_of_range_text(
                "row"@,
                row_idx as nat,
                "0.."@,
                last_index(old(self)@.rows.len()),
            ),
    {
        broadcast use lemma_rows_view_remove;

        if row_idx >= self.rows.len() {
            return Err(out_of_range_message("row", row_idx, "0..", self.rows.len().saturating_sub(1)));
        }
        Ok(self.rows.remove(row_idx))
    }

    /// Add one empty row at the end; returns its index.
    pub fn add_row(&mut self) -> (i: usize)
        ensures
            old(self)@.wf() ==> final(self)@.wf(),
            final(self)@ == old(self)@.insert_row(old(self)@.rows.len() as int),
            i == old(self)@.rows.len(),
    {
        let n = self.rows.len();
        let _ = self.insert_row(n);
        self.rows.len() - 1
    }

    /// Add `n` empty rows at the end.
    pub fn add_rows(&mut self, n: usize)
        ensures
            old(self)@.wf() ==> final(self)@.wf(),
            final(self)@ == old(self)@.with_rows(
                old(self)@.rows + Seq::new(n as nat, |i: int| empty_row(old(self)@.nb_cols)),
            ),
    {
        for k in 0..n
            invariant
                old(self)@.wf() ==> self@.wf(),
                self@ == old(self)@.with_rows(
                    old(self)@.rows + Seq::new(k as nat, |i: int| empty_row(old(self)@.nb_cols)),
                ),
        {
            self.add_row();
            assert(self@.rows =~= old(self)@.rows + Seq::new((k + 1) as nat, |i: int| empty_row(old(self)@.nb_cols)));
        }
    }

    /// Insert an empty column at the given index (0..=cols()).
    /// All rows grow by one cell. If there are no rows, only nb_cols is updated.
    pub fn insert_col(&mut self, col_idx: usize) -> (r: Result<(), String>)
        requires
            old(self)@.wf(),
            old(self)@.nb_cols < usize::MAX,
        ensures
            final(self)@.wf(),
            r is Ok <==> col_idx <= old(self)@.nb_cols,
            r is Ok ==> final(self)@ == old(self)@.insert_col(col_idx as int),
            r is Err ==> final(self)@ == old(self)@,
            r matches Err(e) ==> e@ == out_of_range_text(
                "column"@,
                col_idx as nat,
                "0..="@,
                old(self)@.nb_cols,
            ),
    {
        broadcast use {lemma_rows_view_update, lemma_cells_view_insert};

        if col_idx > self.nb_cols {
            return Err(out_of_range_message("column", col_idx, "0..=", self.nb_cols));
        }
        let ghost start = self@;
        let n = self.rows.len();
        for i in 0..n
            invariant
                n == self.rows@.len(),
                col_idx <= self.nb_cols,
                self.nb_cols == start.nb_cols,
                start.wf(),
                self@.name == start.name,
                self@.header == start.header,
                self@.rows.len() == start.rows.len(),
                forall|r: int|
                    0 <= r < n ==> #[trigger] self@.rows[r] == if r < i {
                        start.rows[r].insert(col_idx as int, None)
                    } else {
                        start.rows[r]
                    },
        {
            assert(self@.rows[i as int] == start.rows[i as int]);
            let ghost prev = self@.rows;
            let ghost prev_vec = self.rows@;
            self.rows[i].cells.insert(col_idx, Cell { value: None });
            assert(self.rows@ =~= prev_vec.update(i as int, self.rows@[i as int]));
            assert(self.rows@[i as int]@ == start.rows[i as int].insert(col_idx as int, None));
            assert(self@.rows =~= prev.update(i as int, start.rows[i as int].insert(col_idx as int, None)));
        }
        let h = self.header.take();
        match h {
            Some(mut header) => {
                header.insert_col_title(col_idx);
                self.header = Some(header);
            },
            None => {},
        }
        self.nb_cols = self.nb_cols + 1;
        assert(self@.rows =~= start.insert_col(col_idx as int).rows);
        Ok(())
    }

    /// Add an empty column at the end; returns its index.
    pub fn add_col(&mut self) -> (r: Result<usize, String>)
        requires
            old(self)@.wf(),
            old(self)@.nb_cols < usize::MAX,
        ensures
            final(self)@.wf(),
            r == Ok::<usize, String>(old(self)@.nb_cols as usize),
            final(self)@ == old(self)@.insert_col(old(self)@.nb_cols as int),
    {
        let n = self.nb_cols;
        match self.insert_col(n) {
            Ok(()) => Ok(self.nb_cols - 1),
            Err(e) => Err(e),
        }
    }

    /// Remove the column at the given index.
    /// All rows shrink by one cell.
    pub fn remove_col(&mut self, col_idx: usize) -> (r: Result<(), String>)
        requires
            old(self)@.wf(),
        ensures
            final(self)@.wf(),
            r is Ok <==> col_idx < old(self)@.nb_cols,
            r is Ok ==> final(self)@ == old(self)@.remove_col(col_idx as int),
            r is Err ==> final(self)@ == old(self)@,
            r matches Err(e) ==> e@ == out_of_range_text(
                "column"@,
                col_idx as nat,
                "0.."@,
                last_index(old(self)@.nb_cols),
            ),
    {
        broadcast use {lemma_rows_view_update, lemma_cells_view_remove};

        if col_idx >= self.nb_cols {
            return Err(out_of_range_message("column", col_idx, "0..", self.nb_cols.saturating_sub(1)));
        }
        let ghost start = self@;
        let n = self.rows.len();
        for i in 0..n
            invariant
                n == self.rows@.len(),
                col_idx < self.nb_cols,
                self.nb_cols == start.nb_cols,
                start.wf(),
                self@.name == start.name,
                self@.header == start.header,
                self@.rows.len() == start.rows.len(),
                forall|r: int|
                    0 <= r < n ==> #[trigger] self@.rows[r] == if r < i {
                        start.rows[r].remove(col_idx as int)
                    } else {
                        start.rows[r]
                    },
        {
            assert(self@.rows[i as int] == start.rows[i as int]);
            let ghost prev = self@.rows;
            let ghost prev_vec = self.rows@;
            if !self.rows[i].cells.is_empty() {
                self.rows[i].cells.remove(col_idx);
            }
            assert(self.rows@ =~= prev_vec.update(i as int, self.rows@[i as int]));
            assert(self.rows@[i as int]@ == start.rows[i as int].remove(col_idx as int));
            assert(self@.rows =~= prev.update(i as int, start.rows[i as int].remove(col_idx as int)));
        }
        let h = self.header.take();
        match h {
            Some(mut header) => {
                header.remove_col_title(col_idx);
                self.header = Some(header);
            },
            None => {},
        }
        self.nb_cols = self.nb_cols - 1;
        assert(self@.rows =~= start.remove_col(col_idx as int).rows);
        Ok(())
    }

    /// Takes the first row out of the data and makes a header of it: its
    /// first `nb_cols` cells give the titles (an absent value giving the
    /// empty title), padded with empty titles up to `nb_cols`.
    pub fn first_line_as_header(&mut self) -> (r: Result<&Header, String>)
        ensures
            old(self)@.wf() ==> final(self)@.wf(),
            r is Ok <==> (old(self)@.header is None && old(self)@.rows.len() > 0),
            r is Err ==> final(self)@ == old(self)@,
            old(self)@.header is Some ==> (r matches Err(e) && e@ == header_already_taken_text()),
            old(self)@.header is None && old(self)@.rows.len() == 0 ==> (r matches Err(e) && e@
                == empty_table_header_text()),
            r is Ok ==> final(self)@ == old(self)@.first_line_as_header(),
            r matches Ok(h) ==> final(self)@.header == Some(h@),
    {
        broadcast use lemma_rows_view_remove;

        if self.header.is_some() {
            return Err(header_already_taken_message());
        }
        if self.rows.len() == 0 {
            return Err(empty_table_header_message());
        }
        let header_row = self.rows.remove(0);
        let n = self.nb_cols;
        let m = header_row.cells.len();
        let mut titles: Vec<String> = Vec::with_capacity(n);
        let mut j: usize = 0;
        while j < n && j < m
            invariant
                m == header_row.cells@.len(),
                j <= n,
                j <= m,
                titles@.len() == j,
                forall|k: int| 0 <= k < j ==> (#[trigger] titles@[k])@ == text_of(header_row@[k]),
            decreases n - j,
        {
            titles.push(header_row.cells[j].get_value_as_str());
            j = j + 1;
        }
        while titles.len() < n
            invariant
                titles@.len() <= n,
                m <= titles@.len() || titles@.len() == n,
                forall|k: int|
                    0 <= k < titles@.len() ==> (#[trigger] titles@[k])@ == if k < m {
                        text_of(header_row@[k])
                    } else {
                        Seq::empty()
                    },
            decreases n - titles@.len(),
        {
            titles.push(String::new());
        }
        let header = Header { titles };
        assert(header@ =~= row_titles(header_row@, n as nat));
        self.header = Some(header);
        Ok(self.header.as_ref().unwrap())
    }

    /// Builds the row that shows the titles of a header, `nb_cols` cells wide.
    fn header_as_row(header: &Header, n: usize) -> (r: Row)
        ensures
            r@ == titles_row(header@, n as nat),
    {
        let mut cells: Vec<Cell> = Vec::with_capacity(n);
        for j in 0..n
            invariant
                cells@.len() == j,
                forall|k: int| 0 <= k < j ==> (#[trigger] cells@[k])@ == Some(title_at(header@, k)),
        {
            let title = if j < header.titles.len() {
                header.titles[j].clone()
            } else {
                String::new()
            };
            cells.push(Cell { value: Some(title) });
        }
        let r = Row { cells };
        assert(r@ =~= titles_row(header@, n as nat));
        r
    }

    /// Inserts a first row that shows the header's titles; the header stays.
    pub fn insert_header_as_first_row(&mut self) -> (r: Result<(), String>)
        ensures
            old(self)@.wf() ==> final(self)@.wf(),
            r is Ok <==> old(self)@.header is Some,
            r is Ok ==> final(self)@ == old(self)@.insert_header_as_first_row(),
            r is Err ==> final(self)@ == old(self)@,
            r matches Err(e) ==> e@ == no_header_to_insert_text(),
    {
        broadcast use lemma_rows_view_insert;

        let row = match &self.header {
            Some(h) => Self::header_as_row(h, self.nb_cols),
            None => {
                return Err(no_header_to_insert_message());
            },
        };
        self.rows.insert(0, row);
        Ok(())
    }

    /// Moves the header's titles into a new first row; the table is left
    /// without a header.
    pub fn move_header_to_first_row(&mut self) -> (r: Result<(), String>)
        ensures
            old(self)@.wf() ==> final(self)@.wf(),
            r is Ok <==> old(self)@.header is Some,
            r is Ok ==> final(self)@ == old(self)@.move_header_to_first_row(),
            r is Err ==> final(self)@ == old(self)@,
            r matches Err(e) ==> e@ == no_header_to_insert_text(),
    {
        broadcast use lemma_rows_view_insert;

        let header = match self.header.take() {
            Some(h) => h,
            None => {
                return Err(no_header_to_insert_message());
            },
        };
        let row = Self::header_as_row(&header, self.nb_cols);
        self.rows.insert(0, row);
        Ok(())
    }

    /// return the header
    pub fn get_header(&self) -> (r: Result<&Header, String>)
        ensures
            r is Ok <==> self@.header is Some,
            r matches Ok(h) ==> self@.header == Some(h@),
            r matches Err(e) ==> e@ == no_header_text(),
    {
        match &self.header {
            Some(h) => Ok(h),
            None => Err(no_header_message()),
        }
    }

    /// Sets the title of a column in the header, after padding the header
    /// with empty titles up to `nb_cols`.
    pub fn set_header_title(&mut self, col_idx: usize, title: String) -> (r: Result<(), String>)
        ensures
            r is Ok <==> (col_idx < old(self)@.nb_cols && old(self)@.header is Some),
            r is Ok ==> final(self)@ == old(self)@.with_header(
                Some(padded_titles(old(self)@.header->0, old(self)@.nb_cols).update(col_idx as int, title@)),
            ),
            r is Err ==> final(self)@ == old(self)@,
            col_idx >= old(self)@.nb_cols ==> (r matches Err(e) && e@ == out_of_range_text(
                "column"@,
                col_idx as nat,
                "0..="@,
                last_index(old(self)@.nb_cols),
            )),
            col_idx < old(self)@.nb_cols && old(self)@.header is None ==> (r matches Err(e) && e@
                == no_header_text()),
            old(self)@.wf() ==> final(self)@.wf(),
    {
        if col_idx >= self.nb_cols {
            return Err(out_of_range_message("column", col_idx, "0..=", self.nb_cols.saturating_sub(1)));
        }
        let mut header = match self.header.take() {
            Some(h) => h,
            None => {
                return Err(no_header_message());
            },
        };
        header.ensure_len(self.nb_cols);
        let r = header.set_title(col_idx, title);
        self.header = Some(header);
        assert(self@.header->0 =~= padded_titles(old(self)@.header->0, old(self)@.nb_cols).update(
            col_idx as int,
            title@,
        ));
        r
    }

    /// The position of the column whose title is `title`.
    pub fn get_col_index_by_title(&self, title: &str) -> (r: Result<usize, String>)
        ensures
            r is Ok <==> (self@.header matches Some(t) && t.contains(title@)),
            r matches Ok(i) ==> is_first_position(self@.header->0, title@, i as int),
            self@.header is None ==> (r matches Err(e) && e@ == no_header_text()),
            self@.header matches Some(t) && !t.contains(title@) ==> (r matches Err(e) && e@
                == title_not_found_text(title@)),
    {
        let header = match &self.header {
            Some(h) => h,
            None => {
                return Err(no_header_message());
            },
        };
        match header.find_col_index_by_title(title) {
            Some(i) => {
                assert(header@.contains(title@)) by {
                    assert(header@[i as int] == title@);
                }
                Ok(i)
            },
            None => Err(title_not_found_message(title)),
        }
    }

    /// Return the indices of the columns whose titles are given in `titles`.
    /// Fails if no header is defined or if any title is not found.
    pub fn get_cols_indices_by_titles(&self, titles: &[&str]) -> (r: Result<Vec<usize>, String>)
        ensures
            r is Ok <==> (self@.header matches Some(t) && forall|k: int|
                0 <= k < titles@.len() ==> t.contains(#[trigger] titles@[k]@)),
            r matches Ok(v) ==> are_first_positions(self@.header->0, strs_view(titles@), v@),
            self@.header is None ==> (r matches Err(e) && e@ == no_header_text()),
            self@.header is Some ==> (r matches Err(e) ==> exists|k: int|
                is_first_missing(self@.header->0, strs_view(titles@), k) && e@ == title_not_found_text(
                    #[trigger] titles@[k]@,
                )),
    {
        match &self.header {
            Some(h) => h.find_cols_indices_by_titles(titles),
            None => Err(no_header_message()),
        }
    }

    /// Create a new empty table from a list of column titles.
    pub fn from_column_titles(titles: &[&str], name: &str) -> (t: Self)
        ensures
            t@ == (TableModel {
                rows: Seq::empty(),
                nb_cols: titles@.len(),
                name: name@,
                header: Some(strs_view(titles@)),
            }),
            t@.wf(),
    {
        let n = titles.len();
        let mut titles_vec: Vec<String> = Vec::with_capacity(n);
        for k in 0..n
            invariant
                n == titles@.len(),
                titles_vec@.len() == k,
                forall|m: int| 0 <= m < k ==> (#[trigger] titles_vec@[m])@ == titles@[m]@,
        {
            titles_vec.push(titles[k].to_owned());
        }
        let header = Header::new(titles_vec);
        let nb_cols = header.len();
        let t = Table { header: Some(header), rows: Vec::new(), nb_cols, name: name.to_owned() };
        assert(t@.rows =~= Seq::empty());
        assert(t@.header->0 =~= strs_view(titles@));
        t
    }

    /// Set the value of a cell by row index and column title.
    pub fn set_cell_value_by_title(&mut self, row_idx: usize, col_title: &str, value: Value) -> (r: Result<(), String>)
        requires
            old(self)@.wf(),
        ensures
            final(self)@.wf(),
            old(self)@.header is None ==> (r matches Err(e) && e@ == no_header_text() && final(self)@ == old(self)@),
            old(self)@.header matches Some(t) && !t.contains(col_title@) ==> (r matches Err(e) && e@
                == title_not_found_text(col_title@) && final(self)@ == old(self)@),
            old(self)@.header is Some && old(self)@.header->0.contains(col_title@) ==> {
                let c = first_position(old(self)@.header->0, col_title@);
                &&& r is Ok <==> (row_idx < old(self)@.rows.len() && c < old(self)@.nb_cols)
                &&& r is Ok ==> final(self)@ == old(self)@.with_cell(row_idx as int, c, value_view(value))
                &&& r is Err ==> final(self)@ == old(self)@
                &&& row_idx >= old(self)@.rows.len() ==> (r matches Err(e) && e@ == out_of_range_text(
                    "row"@,
                    row_idx as nat,
                    "0..="@,
                    last_index(old(self)@.rows.len()),
                ))
                &&& row_idx < old(self)@.rows.len() && c >= old(self)@.nb_cols ==> (r matches Err(e) && e@
                    == out_of_range_text("column"@, c as nat, "0..="@, last_index(old(self)@.nb_cols)))
            },
    {
        let col_idx = match self.get_col_index_by_title(col_title) {
            Ok(i) => i,
            Err(e) => {
                return Err(e);
            },
        };
        proof {
            let t = self@.header->0;
            lemma_first_position(t, col_title@);
            lemma_first_position_unique(t, col_title@, first_position(t, col_title@), col_idx as int);
        }
        self.set_cell_value(row_idx, col_idx, value)
    }

    // return each occurrence of the searched value and the number of times it was found
    pub fn find_occurrences_in_column(&self, col_idx: usize, needle: &str, mode: MatchMode) -> (r: Result<
        Vec<MatchResult>,
        String,
    >)
        ensures
            r is Ok <==> col_idx < self@.nb_cols,
            r matches Err(e) ==> e@ == invalid_column_text(col_idx as nat, last_index(self@.nb_cols)),
            r matches Ok(v) ==> {
                let hits = positions_where(
                    self@.rows.len(),
                    |i: int| matches_mode(self@.col_texts(col_idx as int)[i], needle@, mode),
                );
                &&& v@.len() == hits.len()
                &&& forall|k: int|
                    0 <= k < v@.len() ==> (#[trigger] v@[k]).row_idx == hits[k] && v@[k].occurrence == k + 1
            },
    {
        if col_idx >= self.get_nb_cols() {
            return Err(invalid_column_message(col_idx, self.get_nb_cols().saturating_sub(1)));
        }
        let ghost p = |i: int| matches_mode(self@.col_texts(col_idx as int)[i], needle@, mode);
        let mut result: Vec<MatchResult> = Vec::new();
        let mut occurrence: usize = 0;
        let n = self.get_nb_rows();
        let exact = match mode {
            MatchMode::Exact => true,
            MatchMode::Contains => false,
        };
        let needle_text = needle.to_owned();
        for row_idx in 0..n
            invariant
                n == self@.rows.len(),
                col_idx < self@.nb_cols,
                needle_text@ == needle@,
                exact <==> mode is Exact,
                p == (|i: int| matches_mode(self@.col_texts(col_idx as int)[i], needle@, mode)),
                occurrence == result@.len(),
                result@.len() <= row_idx,
                result@.len() == positions_where(row_idx as nat, p).len(),
                forall|k: int|
                    0 <= k < result@.len() ==> (#[trigger] result@[k]).row_idx == positions_where(
                        row_idx as nat,
                        p,
                    )[k] && result@[k].occurrence == k + 1,
        {
            let text = self.get_cell_text(row_idx, col_idx);
            assert(text@ == self@.col_texts(col_idx as int)[row_idx as int]);
            let found = if exact {
                text == needle_text
            } else {
                str_contains(text.as_str(), needle)
            };
            assert(found == p(row_idx as int));
            if found {
                occurrence = occurrence + 1;
                result.push(MatchResult { row_idx, occurrence });
            }
        }
        Ok(result)
    }

    // return each row where the searched value is found
    pub fn find_duplicates_in_column(&self, col_idx: usize) -> (r: Result<Vec<MatchResult>, String>)
        ensures
            r is Ok <==> col_idx < self@.nb_cols,
            r matches Err(e) ==> e@ == invalid_column_text(col_idx as nat, last_index(self@.nb_cols)),
            r matches Ok(v) ==> {
                let texts = self@.col_texts(col_idx as int);
                &&& v@.len() == self@.rows.len()
                &&& forall|i: int|
                    0 <= i < v@.len() ==> (#[trigger] v@[i]).row_idx == i && v@[i].occurrence == count_in(
                        texts.take(i + 1),
                        texts[i],
                    )
            },
    {
        if col_idx >= self.get_nb_cols() {
            return Err(invalid_column_message(col_idx, self.get_nb_cols().saturating_sub(1)));
        }
        let ghost texts = self@.col_texts(col_idx as int);
        // The count of each text seen so far is kept in two parallel lists
        // rather than in a `HashMap<String, usize>`: vstd specifies a hash
        // map's lookups only for key types that obey its key model, which it
        // grants to integers and `bool` but not to `String`.
        let mut keys: Vec<String> = Vec::new();
        let mut counts: Vec<usize> = Vec::new();
        let mut result: Vec<MatchResult> = Vec::new();
        let n = self.get_nb_rows();
        for row_idx in 0..n
            invariant
                n == self@.rows.len(),
                col_idx < self@.nb_cols,
                texts == self@.col_texts(col_idx as int),
                keys@.len() == counts@.len(),
                forall|k: int|
                    0 <= k < keys@.len() ==> #[trigger] counts@[k] == count_in(
                        texts.take(row_idx as int),
                        keys@[k]@,
                    ),
                forall|j: int| 0 <= j < row_idx ==> has_key(keys@, #[trigger] texts[j]),
                forall|a: int, b: int| 0 <= a < b < keys@.len() ==> keys@[a]@ != keys@[b]@,
                result@.len() == row_idx,
                forall|i: int|
                    0 <= i < row_idx ==> (#[trigger] result@[i]).row_idx == i && result@[i].occurrence == count_in(
                        texts.take(i + 1),
                        texts[i],
                    ),
        {
            let value = self.get_cell_text(row_idx, col_idx);
            assert(value@ == texts[row_idx as int]);
            proof {
                assert(texts.take(row_idx + 1).drop_last() =~= texts.take(row_idx as int));
                lemma_count_in_bound(texts.take(row_idx as int), value@);
            }
            let ghost old_keys = keys@;
            let mut found: Option<usize> = None;
            let m = keys.len();
            for k in 0..m
                invariant
                    m == keys@.len(),
                    found matches Some(f) ==> f < m && keys@[f as int]@ == value@,
                    found is None ==> forall|a: int| 0 <= a < k ==> keys@[a]@ != value@,
            {
                if found.is_none() && keys[k] == value {
                    found = Some(k);
                }
            }
            match found {
                Some(f) => {
                    let c = counts[f] + 1;
                    counts.set(f, c);
                    result.push(MatchResult { row_idx, occurrence: c });
                    proof {
                        assert forall|k: int| 0 <= k < keys@.len() implies #[trigger] counts@[k] == count_in(
                            texts.take(row_idx + 1),
                            keys@[k]@,
                        ) by {
                            if k != f {
                                assert(keys@[k]@ != keys@[f as int]@);
                            }
                        }
                    }
                },
                None => {
                    proof {
                        assert forall|j: int| 0 <= j < row_idx implies texts.take(row_idx as int)[j] != value@ by {
                            assert(has_key(keys@, texts[j]));
                            let k = choose|k: int| 0 <= k < keys@.len() && keys@[k]@ == texts[j];
                        }
                        lemma_count_in_absent(texts.take(row_idx as int), value@);
                    }
                    keys.push(value);
                    counts.push(1);
                    result.push(MatchResult { row_idx, occurrence: 1 });
                    proof {
                        assert forall|k: int| 0 <= k < keys@.len() implies #[trigger] counts@[k] == count_in(
                            texts.take(row_idx + 1),
                            keys@[k]@,
                        ) by {}
                    }
                },
            }
            proof {
                assert forall|j: int| 0 <= j < row_idx + 1 implies has_key(keys@, #[trigger] texts[j]) by {
                    if j == row_idx {
                        if let Some(f) = found {
                            assert(keys@[f as int]@ == texts[j]);
                        } else {
                            assert(keys@[keys@.len() - 1]@ == texts[j]);
                        }
                    } else {
                        assert(has_key(old_keys, texts[j]));
                        let k = choose|k: int| 0 <= k < old_keys.len() && old_keys[k]@ == texts[j];
                        assert(keys@[k]@ == texts[j]);
                    }
                }
            }
        }
        Ok(result)
    }

    /// Return the list of row indices where the value in column `col_idx`
    /// matches `needle` exactly.
    pub fn find_rows_matching_value(&self, col_idx: usize, needle: &Value) -> (r: Result<Vec<usize>, String>)
        ensures
            r is Ok <==> col_idx < self@.nb_cols,
            r matches Err(e) ==> e@ == out_of_range_text(
                "column"@,
                col_idx as nat,
                "0..="@,
                last_index(self@.nb_cols),
            ),
            r matches Ok(v) ==> {
                let hits = positions_where(
                    self@.rows.len(),
                    |i: int|
                        col_idx < self@.rows[i].len() && self@.rows[i][col_idx as int] == value_view(*needle),
                );
                &&& v@.len() == hits.len()
                &&& forall|k: int| 0 <= k < v@.len() ==> #[trigger] v@[k] == hits[k]
            },
    {
        if col_idx >= self.nb_cols {
            return Err(out_of_range_message("column", col_idx, "0..=", self.nb_cols.saturating_sub(1)));
        }
        let ghost p = |i: int|
            col_idx < self@.rows[i].len() && self@.rows[i][col_idx as int] == value_view(*needle);
        let mut matches: Vec<usize> = Vec::new();
        let n = self.rows.len();
        for row_idx in 0..n
            invariant
                n == self.rows@.len(),
                p == (|i: int|
                    col_idx < self@.rows[i].len() && self@.rows[i][col_idx as int] == value_view(*needle)),
                matches@.len() == positions_where(row_idx as nat, p).len(),
                forall|k: int| 0 <= k < matches@.len() ==> #[trigger] matches@[k] == positions_where(row_idx as nat, p)[k],
        {
            let row = &self.rows[row_idx];
            if col_idx < row.cells.len() {
                if value_eq(&row.cells[col_idx].value, needle) {
                    matches.push(row_idx);
                }
            }
        }
        Ok(matches)
    }

    /// Convert an Excel column label (e.g. "A", "Z", "AA") to a 1-based index,
    /// ignoring case. Returns None if the string is empty or contains
    /// non-letters.
    pub fn str_col_to_index(col: &str) -> (r: Option<usize>)
        requires
            all_letters(col@) ==> col_label_value(col@) <= usize::MAX,
        ensures
            r == if col@.len() == 0 || !all_letters(col@) {
                None
            } else {
                Some(col_label_value(col@) as usize)
            },
    {
        let chars = chars_of(col);
        let n = chars.len();
        if n == 0 {
            return None;
        }
        for i in 0..n
            invariant
                n == chars@.len(),
                chars@ == col@,
                forall|j: int| 0 <= j < i ==> is_ascii_letter(#[trigger] col@[j]),
        {
            let ch = chars[i];
            if !(('a' <= ch && ch <= 'z') || ('A' <= ch && ch <= 'Z')) {
                assert(!all_letters(col@)) by {
                    assert(!is_ascii_letter(col@[i as int]));
                }
                return None;
            }
        }
        assert(all_letters(col@));
        let mut value: usize = 0;
        let mut i: usize = 0;
        while i < n
            invariant
                n == chars@.len(),
                chars@ == col@,
                i <= n,
                all_letters(col@),
                col_label_value(col@) <= usize::MAX,
                value == col_label_value(col@.take(i as int)),
            decreases n - i,
        {
            let ch = chars[i];
            assert(is_ascii_letter(col@[i as int]));
            let digit: usize = if 'a' <= ch && ch <= 'z' {
                (ch as u32 - 'a' as u32 + 1) as usize
            } else {
                (ch as u32 - 'A' as u32 + 1) as usize
            };
            proof {
                assert(col@.take(i + 1).drop_last() =~= col@.take(i as int));
                assert(col@.take(i + 1).last() == col@[i as int]);
                lemma_col_label_prefix(col@, i + 1);
            }
            value = value * 26 + digit;
            i = i + 1;
        }
        assert(col@.take(n as int) =~= col@);
        Some(value)
    }

    /// All cells, row after row, each with its row and column index: the
    /// cell at (`i`, `j`) comes at `row_offset(rows, i) + j`.
    pub fn iter_cells(&self) -> (r: Vec<(usize, usize, &Cell)>)
        ensures
            r@.len() == cell_count(self@.rows),
            forall|i: int, j: int|
                0 <= i < self@.rows.len() && 0 <= j < self@.rows[i].len() ==> #[trigger] cell_entry(
                    r@,
                    self@.rows,
                    i,
                    j,
                ),
    {
        let ghost rows = self@.rows;
        let n = self.rows.len();
        let mut r: Vec<(usize, usize, &Cell)> = Vec::new();
        for i in 0..n
            invariant
                n == self.rows@.len(),
                rows == self@.rows,
                r@.len() == row_offset(rows, i as int),
                forall|a: int, b: int|
                    0 <= a < i && 0 <= b < rows[a].len() ==> #[trigger] cell_entry(r@, rows, a, b),
        {
            let ghost before = r@;
            let row = &self.rows[i];
            let m = row.cells.len();
            for j in 0..m
                invariant
                    m == row.cells@.len(),
                    row@ == rows[i as int],
                    r@.len() == before.len() + j,
                    forall|k: int| 0 <= k < before.len() ==> #[trigger] r@[k] == before[k],
                    forall|k: int|
                        0 <= k < j ==> {
                            &&& (#[trigger] r@[before.len() + k]).0 == i
                            &&& r@[before.len() + k].1 == k
                            &&& r@[before.len() + k].2@ == rows[i as int][k]
                        },
            {
                r.push((i, j, &row.cells[j]));
            }
            proof {
                assert(row_offset(rows, i + 1) == row_offset(rows, i as int) + rows[i as int].len());
                assert forall|a: int, b: int| 0 <= a < i + 1 && 0 <= b < rows[a].len() implies #[trigger] cell_entry(
                    r@,
                    rows,
                    a,
                    b,
                ) by {
                    if a < i {
                        lemma_row_offset_mono(rows, a, i as int);
                        assert(cell_entry(before, rows, a, b));
                        let k = row_offset(rows, a) + b;
                        assert(r@[k] == before[k]);
                    } else {
                        assert(r@[before.len() + b] == r@[row_offset(rows, a) + b]);
                    }
                }
            }
        }
        r
    }

    /// All cells, row after row, each with its row and column index, to
    /// change in place: the cell at (`i`, `j`) comes at
    /// `row_offset(rows, i) + j`, and what it finally holds is what the table
    /// holds there afterwards.
    pub fn iter_cells_mut(&mut self) -> (r: Vec<(usize, usize, &mut Cell)>)
        ensures
            r@.len() == cell_count(old(self)@.rows),
            forall|i: int, j: int|
                0 <= i < old(self)@.rows.len() && 0 <= j < old(self)@.rows[i].len() ==> #[trigger] cell_entry_mut(
                    r@,
                    old(self)@.rows,
                    i,
                    j,
                    0,
                ),
            final(self)@ == old(self)@.with_rows(
                rows_from_flat(r@.map_values(|e: (usize, usize, &mut Cell)| (*final(e.2))@), old(self)@.rows),
            ),
    {
        assert(self.rows@.len() == self.rows.len());
        all_cells_of(self.rows.as_mut_slice(), 0)
    }

    /// The cells of a column, each with its row index, to change in place;
    /// what the cell of row `i` finally holds is what the table holds there
    /// afterwards.
    pub fn col_cells_mut(&mut self, col_idx: usize) -> (r: Option<Vec<(usize, &mut Cell)>>)
        requires
            old(self)@.wf(),
        ensures
            r is Some <==> col_idx < old(self)@.nb_cols,
            r is None ==> final(self)@ == old(self)@,
            r matches Some(v) ==> v@.len() == old(self)@.rows.len() && forall|i: int|
                0 <= i < v@.len() ==> (#[trigger] v@[i]).0 == i && (*v@[i].1)@ == old(self)@.rows[i][col_idx as int],
            r is Some ==> final(self)@ == old(self)@.with_rows(
                Seq::new(
                    old(self)@.rows.len(),
                    |i: int| old(self)@.rows[i].update(col_idx as int, (*final(r.unwrap()@[i].1))@),
                ),
            ),
    {
        if col_idx >= self.nb_cols {
            return None;
        }
        assert(self.rows@.len() == self.rows.len());
        proof {
            assert forall|i: int| 0 <= i < self.rows@.len() implies col_idx < (#[trigger] self.rows@[i])@.len() by {
                assert(self@.rows[i] == self.rows@[i]@);
            }
        }
        let slice = self.rows.as_mut_slice();
        let v = col_cells_of(slice, col_idx, 0);
        let r = Some(v);
        assert(Seq::new(
            old(self)@.rows.len(),
            |i: int| old(self)@.rows[i].update(col_idx as int, (*final(r.unwrap()@[i].1))@),
        ) =~= Seq::new(
            old(self)@.rows.len(),
            |i: int| old(self).rows@[i]@.update(col_idx as int, (*final(v@[i].1))@),
        ));
        r
    }

    /// The columns, as read-only views, in order.
    pub fn iter_cols(&self) -> (r: Vec<Col<'_>>)
        requires
            self@.wf(),
        ensures
            r@.len() == self@.nb_cols,
            forall|k: int|
                0 <= k < r@.len() ==> (#[trigger] r@[k]).col_index() == k && r@[k].table_model() == self@,
    {
        let n = self.nb_cols;
        let mut r: Vec<Col<'_>> = Vec::new();
        for idx in 0..n
            invariant
                n == self.nb_cols,
                self@.wf(),
                r@.len() == idx,
                forall|k: int|
                    0 <= k < idx ==> (#[trigger] r@[k]).col_index() == k && r@[k].table_model() == self@,
        {
            r.push(Col { table: self, index: idx });
        }
        r
    }

    /// Get a column view (immutable)
    pub fn get_col(&self, col_idx: usize) -> (r: Option<Col<'_>>)
        requires
            self@.wf(),
        ensures
            r is Some <==> col_idx < self@.nb_cols,
            r matches Some(c) ==> c.col_index() == col_idx && c.table_model() == self@,
    {
        if col_idx < self.nb_cols {
            Some(Col { table: self, index: col_idx })
        } else {
            None
        }
    }

    /// The cells of a column, each with its row index.
    pub fn col_cells(&self, col_idx: usize) -> (r: Option<Vec<(usize, &Cell)>>)
        requires
            self@.wf(),
        ensures
            r is Some <==> col_idx < self@.nb_cols,
            r matches Some(v) ==> v@.len() == self@.rows.len() && forall|i: int|
                0 <= i < v@.len() ==> (#[trigger] v@[i]).0 == i && v@[i].1@ == self@.rows[i][col_idx as int],
    {
        if col_idx >= self.nb_cols {
            return None;
        }
        let n = self.rows.len();
        let mut v: Vec<(usize, &Cell)> = Vec::new();
        for i in 0..n
            invariant
                n == self.rows@.len(),
                self@.wf(),
                col_idx < self@.nb_cols,
                v@.len() == i,
                forall|k: int|
                    0 <= k < i ==> (#[trigger] v@[k]).0 == k && v@[k].1@ == self@.rows[k][col_idx as int],
        {
            assert(self@.rows[i as int].len() == self@.nb_cols);
            v.push((i, &self.rows[i].cells[col_idx]));
        }
        Some(v)
    }

    /// Removes the columns marked in `marks` (one mark per column).
    fn remove_marked_cols(&mut self, marks: &Vec<bool>)
        requires
            old(self)@.wf(),
            marks@.len() == old(self)@.nb_cols,
        ensures
            final(self)@.wf(),
            final(self)@ == old(self)@.remove_cols_where(|j: int| 0 <= j < marks@.len() && marks@[j]),
    {
        let ghost drop = |j: int| 0 <= j < marks@.len() && marks@[j];
        let ghost start = self@;
        let mut old_rows: Vec<Row> = Vec::new();
        std::mem::swap(&mut old_rows, &mut self.rows);
        let ghost all = old_rows@;
        assert(rows_view(all) == start.rows);
        assert(old_rows@.len() == old_rows.len());
        let mut new_rows: Vec<Row> = Vec::new();
        let mut i: usize = 0;
        for row in it: old_rows.into_iter()
            invariant
                all.len() <= usize::MAX,
                it.seq() == all,
                i == it.index(),
                rows_view(all) == start.rows,
                drop == (|j: int| 0 <= j < marks@.len() && marks@[j]),
                new_rows@.len() == i,
                forall|r: int|
                    0 <= r < i ==> (#[trigger] new_rows@[r])@ == without_positions(start.rows[r], drop),
        {
            let kept = keep_unmarked(row.cells, marks);
            proof {
                lemma_without_positions_map(row.cells@, |c: Cell| c@, drop);
                assert(all[i as int]@ == start.rows[i as int]);
            }
            new_rows.push(Row { cells: kept });
            i = i + 1;
        }
        self.rows = new_rows;
        let h = self.header.take();
        match h {
            Some(header) => {
                let kept = keep_unmarked(header.titles, marks);
                proof {
                    lemma_without_positions_map(header.titles@, |t: String| t@, drop);
                }
                self.header = Some(Header { titles: kept });
            },
            None => {},
        }
        let mut count: usize = 0;
        let n = self.nb_cols;
        for j in 0..n
            invariant
                n == start.nb_cols,
                marks@.len() == start.nb_cols,
                count == kept_count(j as nat, drop),
                count <= j,
                drop == (|j: int| 0 <= j < marks@.len() && marks@[j]),
        {
            if !marks[j] {
                count = count + 1;
            }
        }
        self.nb_cols = count;
        proof {
            assert(self@.rows =~= start.remove_cols_where(drop).rows);
            assert forall|r: int| 0 <= r < self@.rows.len() implies #[trigger] self@.rows[r].len() == self@.nb_cols by {
                lemma_without_positions_len(start.rows[r], drop);
            }
        }
    }

    // remove the columns with the given indices
    pub fn remove_cols(&mut self, col_indices: &[usize]) -> (r: Result<(), String>)
        requires
            old(self)@.wf(),
        ensures
            final(self)@.wf(),
            r is Ok <==> forall|k: int| 0 <= k < col_indices@.len() ==> #[trigger] col_indices@[k] < old(self)@.nb_cols,
            r is Ok ==> final(self)@ == old(self)@.remove_cols_where(|j: int| listed(col_indices@, j)),
            r is Err ==> final(self)@ == old(self)@,
            r matches Err(e) ==> exists|m: usize|
                is_max_index(col_indices@, m) && e@ == out_of_range_text(
                    "column"@,
                    m as nat,
                    "0.."@,
                    last_index(old(self)@.nb_cols),
                ),
    {
        if col_indices.len() == 0 {
            proof {
                let d = |j: int| listed(col_indices@, j);
                assert(self@.remove_cols_where(d) =~= self@) by {
                    assert forall|r: int| 0 <= r < self@.rows.len() implies without_positions(self@.rows[r], d)
                        == self@.rows[r] by {
                        lemma_without_positions_nothing(self@.rows[r], d);
                    }
                    lemma_kept_count_nothing(self@.nb_cols, d);
                    if let Some(t) = self@.header {
                        lemma_without_positions_nothing(t, d);
                    }
                    assert(self@.remove_cols_where(d).rows =~= self@.rows);
                }
            }
            return Ok(());
        }
        let m = max_index(col_indices);
        if m >= self.nb_cols {
            return Err(out_of_range_message("column", m, "0..", self.nb_cols.saturating_sub(1)));
        }
        let n = self.nb_cols;
        let mut marks: Vec<bool> = Vec::new();
        for j in 0..n
            invariant
                marks@.len() == j,
                forall|a: int| 0 <= a < j ==> #[trigger] marks@[a] == listed(col_indices@, a),
        {
            marks.push(is_listed(col_indices, j));
        }
        proof {
            let d1 = |j: int| 0 <= j < marks@.len() && marks@[j];
            let d2 = |j: int| listed(col_indices@, j);
            assert forall|j: int| #[trigger] d1(j) == d2(j) by {
                if listed(col_indices@, j) {
                    let k = choose|k: int| 0 <= k < col_indices@.len() && col_indices@[k] as int == j;
                    assert(col_indices@[k] <= m);
                }
            }
            assert(d1 =~= d2);
        }
        self.remove_marked_cols(&marks);
        Ok(())
    }

    /// Keeps only the columns whose indices are given in `col_indices`.
    /// All other columns are removed.
    ///
    /// - `col_indices` can be in any order.
    /// - Duplicates are ignored.
    /// - Returns an error if any index is out of bounds.
    pub fn keep_cols(&mut self, col_indices: &[usize]) -> (r: Result<(), String>)
        requires
            old(self)@.wf(),
        ensures
            final(self)@.wf(),
            r is Ok <==> forall|k: int| 0 <= k < col_indices@.len() ==> #[trigger] col_indices@[k] < old(self)@.nb_cols,
            r is Ok ==> final(self)@ == old(self)@.remove_cols_where(
                |j: int| 0 <= j < old(self)@.nb_cols && !listed(col_indices@, j),
            ),
            r is Err ==> final(self)@ == old(self)@,
            r matches Err(e) ==> exists|m: usize|
                is_max_index(col_indices@, m) && e@ == out_of_range_text(
                    "column"@,
                    m as nat,
                    "0..="@,
                    last_index(old(self)@.nb_cols),
                ),
    {
        if col_indices.len() > 0 {
            let m = max_index(col_indices);
            if m >= self.nb_cols {
                return Err(out_of_range_message("column", m, "0..=", self.nb_cols.saturating_sub(1)));
            }
        }
        let n = self.nb_cols;
        let mut marks: Vec<bool> = Vec::new();
        for j in 0..n
            invariant
                marks@.len() == j,
                forall|a: int| 0 <= a < j ==> #[trigger] marks@[a] == !listed(col_indices@, a),
        {
            marks.push(!is_listed(col_indices, j));
        }
        proof {
            let d1 = |j: int| 0 <= j < marks@.len() && marks@[j];
            let d2 = |j: int| 0 <= j < self@.nb_cols && !listed(col_indices@, j);
            assert forall|j: int| #[trigger] d1(j) == d2(j) by {}
            assert(d1 =~= d2);
        }
        self.remove_marked_cols(&marks);
        Ok(())
    }

    /// The rows, in order.
    pub fn iter_rows(&self) -> (r: &[Row])
        ensures
            rows_view(r@) == self@.rows,
    {
        self.rows.as_slice()
    }

    /// The rows, in order, to change in place.
    pub fn iter_rows_mut(&mut self) -> (r: &mut [Row])
        ensures
            rows_view(r@) == old(self)@.rows,
            final(self)@ == old(self)@.with_rows(rows_view(final(r)@)),
    {
        self.rows.as_mut_slice()
    }
}

} // verus!
