//! Text helpers: decimal rendering of indices, the table's error messages,
//! and character-level comparisons of strings.

use vstd::prelude::*;

verus! {

/// The character of a decimal digit.
pub open spec fn digit_char(d: int) -> char {
    if d == 0 {
        '0'
    } else if d == 1 {
        '1'
    } else if d == 2 {
        '2'
    } else if d == 3 {
        '3'
    } else if d == 4 {
        '4'
    } else if d == 5 {
        '5'
    } else if d == 6 {
        '6'
    } else if d == 7 {
        '7'
    } else if d == 8 {
        '8'
    } else {
        '9'
    }
}

/// The decimal representation of a natural number, without leading zeros.
pub open spec fn decimal(n: nat) -> Seq<char>
    decreases n,
{
    if n < 10 {
        seq![digit_char(n as int)]
    } else {
        decimal(n / 10).push(digit_char((n % 10) as int))
    }
}

/// A decimal digit character.
pub open spec fn is_digit(c: char) -> bool {
    '0' <= c && c <= '9'
}

/// The number that a run of decimal digits stands for, the first digit
/// being the most significant.
pub open spec fn digits_value(s: Seq<char>) -> int
    decreases s.len(),
{
    if s.len() == 0 {
        0
    } else {
        digits_value(s.drop_last()) * 10 + (s.last() as int - '0' as int)
    }
}

fn digit_str(d: usize) -> (s: &'static str)
    requires
        d < 10,
    ensures
        s@ == seq![digit_char(d as int)],
{
    if d == 0 {
        proof {
            reveal_strlit("0");
        }
        assert("0"@ =~= seq!['0']);
        "0"
    } else if d == 1 {
        proof {
            reveal_strlit("1");
        }
        assert("1"@ =~= seq!['1']);
        "1"
    } else if d == 2 {
        proof {
            reveal_strlit("2");
        }
        assert("2"@ =~= seq!['2']);
        "2"
    } else if d == 3 {
        proof {
            reveal_strlit("3");
        }
        assert("3"@ =~= seq!['3']);
        "3"
    } else if d == 4 {
        proof {
            reveal_strlit("4");
        }
        assert("4"@ =~= seq!['4']);
        "4"
    } else if d == 5 {
        proof {
            reveal_strlit("5");
        }
        assert("5"@ =~= seq!['5']);
        "5"
    } else if d == 6 {
        proof {
            reveal_strlit("6");
        }
        assert("6"@ =~= seq!['6']);
        "6"
    } else if d == 7 {
        proof {
            reveal_strlit("7");
        }
        assert("7"@ =~= seq!['7']);
        "7"
    } else if d == 8 {
        proof {
            reveal_strlit("8");
        }
        assert("8"@ =~= seq!['8']);
        "8"
    } else {
        proof {
            reveal_strlit("9");
        }
        assert("9"@ =~= seq!['9']);
        "9"
    }
}

/// Renders `n` in decimal, as `n.to_string()` does.
pub fn decimal_string(n: usize) -> (s: String)
    ensures
        s@ == decimal(n as nat),
    decreases n,
{
    if n < 10 {
        digit_str(n).to_owned()
    } else {
        let mut s = decimal_string(n / 10);
        s.append(digit_str(n % 10));
        s
    }
}


/// The last index of a list of `n` items, or 0 when it is empty
/// (`n.saturating_sub(1)`).
pub open spec fn last_index(n: nat) -> nat {
    if n == 0 {
        0
    } else {
        (n - 1) as nat
    }
}

/// `<what> index <idx> out of range (<range><bound>)`, the message of an index
/// that lies outside a table or a header.
pub open spec fn out_of_range_text(what: Seq<char>, idx: nat, range: Seq<char>, bound: nat) -> Seq<char> {
    what + " index "@ + decimal(idx) + " out of range ("@ + range + decimal(bound) + ")"@
}

pub(crate) fn out_of_range_message(what: &str, idx: usize, range: &str, bound: usize) -> (s: String)
    ensures
        s@ == out_of_range_text(what@, idx as nat, range@, bound as nat),
{
    let mut s = what.to_owned();
    s.append(" index ");
    s.append(decimal_string(idx).as_str());
    s.append(" out of range (");
    s.append(range);
    s.append(decimal_string(bound).as_str());
    s.append(")");
    s
}

/// The message of a column title that the header does not hold.
pub open spec fn title_not_found_text(title: Seq<char>) -> Seq<char> {
    "Column title '"@ + title + "' not found in header"@
}

pub(crate) fn title_not_found_message(title: &str) -> (s: String)
    ensures
        s@ == title_not_found_text(title@),
{
    let mut s = "Column title '".to_owned();
    s.append(title);
    s.append("' not found in header");
    s
}

/// The message of a column index that a search cannot use.
pub open spec fn invalid_column_text(idx: nat, max: nat) -> Seq<char> {
    "Indice de colonne invalide: "@ + decimal(idx) + " (max = "@ + decimal(max) + ")"@
}

pub(crate) fn invalid_column_message(idx: usize, max: usize) -> (s: String)
    ensures
        s@ == invalid_column_text(idx as nat, max as nat),
{
    let mut s = "Indice de colonne invalide: ".to_owned();
    s.append(decimal_string(idx).as_str());
    s.append(" (max = ");
    s.append(decimal_string(max).as_str());
    s.append(")");
    s
}

/// The message of a table that has no header.
pub open spec fn no_header_text() -> Seq<char> {
    "No header defined"@
}

pub(crate) fn no_header_message() -> (s: String)
    ensures
        s@ == no_header_text(),
{
    "No header defined".to_owned()
}

/// The message of a header that cannot be put back into the rows.
pub open spec fn no_header_to_insert_text() -> Seq<char> {
    "Aucun header défini, impossible de le réinsérer"@
}

pub(crate) fn no_header_to_insert_message() -> (s: String)
    ensures
        s@ == no_header_to_insert_text(),
{
    "Aucun header défini, impossible de le réinsérer".to_owned()
}

/// The message of a header that was already taken from the rows.
pub open spec fn header_already_taken_text() -> Seq<char> {
    "Le header a déjà été extrait"@
}

pub(crate) fn header_already_taken_message() -> (s: String)
    ensures
        s@ == header_already_taken_text(),
{
    "Le header a déjà été extrait".to_owned()
}

/// The message of a table without rows to take a header from.
pub open spec fn empty_table_header_text() -> Seq<char> {
    "Impossible d'extraire un header d'un tableau vide"@
}

pub(crate) fn empty_table_header_message() -> (s: String)
    ensures
        s@ == empty_table_header_text(),
{
    "Impossible d'extraire un header d'un tableau vide".to_owned()
}

/// Whether `needle` occurs in `hay` as a contiguous run of characters.
pub open spec fn contains_chars(hay: Seq<char>, needle: Seq<char>) -> bool {
    exists|i: int| 0 <= i <= hay.len() - needle.len() && #[trigger] hay.subrange(i, i + needle.len()) == needle
}

/// The characters of `s`, in order.
pub fn chars_of(s: &str) -> (v: Vec<char>)
    ensures
        v@ == s@,
{
    let mut v: Vec<char> = Vec::new();
    for c in it: s.chars()
        invariant
            v@ == it.seq().take(it.index() as int),
    {
        v.push(c);
    }
    v
}


/// Whether `needle` occurs in `hay` at position `at`.
fn occurs_at(hay: &Vec<char>, needle: &Vec<char>, at: usize) -> (b: bool)
    requires
        at + needle@.len() <= hay@.len(),
    ensures
        b == (hay@.subrange(at as int, at + needle@.len()) == needle@),
{
    let n = needle.len();
    let h = hay.len();
    let mut j: usize = 0;
    while j < n
        invariant
            n == needle@.len(),
            h == hay@.len(),
            at + n <= hay@.len(),
            j <= n,
            forall|t: int| 0 <= t < j ==> hay@[at + t] == needle@[t],
        decreases n - j,
    {
        if hay[at + j] != needle[j] {
            assert(hay@.subrange(at as int, at + n)[j as int] != needle@[j as int]);
            return false;
        }
        j = j + 1;
    }
    assert(hay@.subrange(at as int, at + n) =~= needle@);
    true
}

/// Whether `needle` occurs in `hay`, as `str::contains` decides it.
pub fn chars_contain(hay: &Vec<char>, needle: &Vec<char>) -> (b: bool)
    ensures
        b == contains_chars(hay@, needle@),
{
    let n = needle.len();
    let h = hay.len();
    if n == 0 {
        assert(hay@.subrange(0, 0 + needle@.len() as int) =~= needle@);
        assert(contains_chars(hay@, needle@));
        return true;
    }
    if n > h {
        return false;
    }
    let mut i: usize = 0;
    while i <= h - n
        invariant
            n == needle@.len(),
            h == hay@.len(),
            1 <= n <= h,
            i <= h - n + 1,
            forall|k: int| 0 <= k < i ==> #[trigger] hay@.subrange(k, k + n) != needle@,
        decreases h - n + 1 - i,
    {
        if occurs_at(hay, needle, i) {
            assert(contains_chars(hay@, needle@));
            return true;
        }
        i = i + 1;
    }
    false
}

/// Whether `needle` occurs in `hay`.
pub fn str_contains(hay: &str, needle: &str) -> (b: bool)
    ensures
        b == contains_chars(hay@, needle@),
{
    let h = chars_of(hay);
    let n = chars_of(needle);
    chars_contain(&h, &n)
}

} // verus!
