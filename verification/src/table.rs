//! What the table view shows of a CSV document: inferred cell types, the
//! delimiter's label, preferred column widths, the rows that match a search,
//! the selected cell, and the text copied for a cell's row or column.

use vstd::prelude::*;
use crate::document::CsvDocument;
use crate::number::{is_float_literal, is_float_text};
use crate::text::{
    chars_of, concat, concat3, contains_str, decimal, decimal_string, eq_ignore_ascii_case_chars,
    eq_ignore_ascii_case_spec, has_substring, owned, to_lowercase, trim, trimmed,
    truncate, truncated, unicode_lowercase,
};

verus! {

// ------------------------------------------------------------------------
// Cell types
// ------------------------------------------------------------------------

/// A boolean cell: `true` or `false` in any ASCII case.
pub open spec fn bool_of(value: Seq<char>) -> Option<bool> {
    if eq_ignore_ascii_case_spec(value, seq!['t', 'r', 'u', 'e']) {
        Some(true)
    } else if eq_ignore_ascii_case_spec(value, seq!['f', 'a', 'l', 's', 'e']) {
        Some(false)
    } else {
        None
    }
}

/// Reads `true` or `false`, in any ASCII case, as a boolean.
pub fn csv_bool(value: &str) -> (r: Option<bool>)
    ensures
        r == bool_of(value@),
{
    let v = chars_of(value);
    let t = vec!['t', 'r', 'u', 'e'];
    let f = vec!['f', 'a', 'l', 's', 'e'];
    assert(t@ =~= seq!['t', 'r', 'u', 'e']);
    assert(f@ =~= seq!['f', 'a', 'l', 's', 'e']);
    if eq_ignore_ascii_case_chars(&v, &t) {
        Some(true)
    } else if eq_ignore_ascii_case_chars(&v, &f) {
        Some(false)
    } else {
        None
    }
}

/// The type the inspector infers for a cell: `Empty` for blank cells, then
/// `Boolean`, `Number` and otherwise `Text`, judged on the trimmed value.
pub open spec fn cell_type_name(value: Seq<char>) -> Seq<char> {
    let t = trim(value);
    if t.len() == 0 {
        "Empty"@
    } else if bool_of(t) is Some {
        "Boolean"@
    } else if is_float_literal(t) {
        "Number"@
    } else {
        "Text"@
    }
}

/// The inferred type of a cell.
pub fn csv_value_type(value: &str) -> (r: String)
    ensures
        r@ == cell_type_name(value@),
{
    let t = trimmed(value);
    let tv = chars_of(t.as_str());
    if tv.len() == 0 {
        owned("Empty")
    } else if csv_bool(t.as_str()).is_some() {
        owned("Boolean")
    } else if is_float_text(t.as_str()) {
        owned("Number")
    } else {
        owned("Text")
    }
}

/// The label of a delimiter: semicolon and tab by name, anything else as
/// comma.
pub open spec fn delimiter_label(delimiter: u8) -> Seq<char> {
    if delimiter == 59 {
        "Semicolon (;)"@
    } else if delimiter == 9 {
        "Tab"@
    } else {
        "Comma (,)"@
    }
}

/// The label shown for a document's delimiter.
pub fn csv_delimiter_label(delimiter: u8) -> (r: String)
    ensures
        r@ == delimiter_label(delimiter),
{
    if delimiter == 59 {
        owned("Semicolon (;)")
    } else if delimiter == 9 {
        owned("Tab")
    } else {
        owned("Comma (,)")
    }
}

// ------------------------------------------------------------------------
// Column widths
// ------------------------------------------------------------------------

/// The index of the first line feed in `s`, or its length.
pub open spec fn first_line_feed(s: Seq<char>) -> int
    decreases s.len(),
{
    if s.len() == 0 {
        0
    } else if s[0] == '\n' {
        0
    } else {
        1 + first_line_feed(s.drop_first())
    }
}

pub proof fn lemma_first_line_feed(s: Seq<char>)
    ensures
        0 <= first_line_feed(s) <= s.len(),
        first_line_feed(s) < s.len() ==> s[first_line_feed(s)] == '\n',
        forall|j: int| 0 <= j < first_line_feed(s) ==> s[j] != '\n',
    decreases s.len(),
{
    if s.len() > 0 && s[0] != '\n' {
        lemma_first_line_feed(s.drop_first());
        assert forall|j: int| 0 <= j < first_line_feed(s) implies s[j] != '\n' by {
            if j > 0 {
                assert(s[j] == s.drop_first()[j - 1]);
            }
        }
    }
}

/// The length of the first line of `s` (as `str::lines` gives it: up to the
/// first line feed, without a carriage return just before that line feed).
pub open spec fn first_line_len(s: Seq<char>) -> nat {
    let i = first_line_feed(s);
    if i < s.len() && i > 0 && s[i - 1] == '\r' {
        (i - 1) as nat
    } else {
        i as nat
    }
}

/// The length of the longest line of `s` (0 when it has none).
pub open spec fn longest_line(s: Seq<char>) -> nat
    decreases s.len(),
{
    if s.len() == 0 {
        0
    } else {
        proof {
            lemma_first_line_feed(s);
        }
        let a = first_line_len(s);
        let f = first_line_feed(s);
        let b = if f < s.len() {
            longest_line(s.skip(f + 1))
        } else {
            0
        };
        if a >= b {
            a
        } else {
            b
        }
    }
}

/// The length, in characters, of the longest line of `value`.
fn longest_line_len(value: &str) -> (r: usize)
    ensures
        r == longest_line(value@),
{
    let v = chars_of(value);
    let n = v.len();
    let mut best: usize = 0;
    let mut p: usize = 0;
    assert(v@.skip(0) =~= v@);
    while p < n
        invariant
            n == v.len(),
            p <= n,
            best <= n,
            longest_line(v@) == if best >= longest_line(v@.skip(p as int)) {
                best as nat
            } else {
                longest_line(v@.skip(p as int))
            },
        decreases n - p,
    {
        let ghost rest = v@.skip(p as int);
        let mut i: usize = p;
        while i < n && v[i] != '\n'
            invariant
                p <= i <= n == v.len(),
                forall|j: int| p <= j < i ==> v@[j] != '\n',
            decreases n - i,
        {
            i = i + 1;
        }
        proof {
            lemma_first_line_feed(rest);
            let f = first_line_feed(rest);
            if f < i - p {
                assert(rest[f] == v@[p + f]);
            }
            if i < n {
                assert(rest[i - p] == v@[i as int]);
            }
            assert(f == i - p);
        }
        let mut len = i - p;
        if i < n && i > p && v[i - 1] == '\r' {
            len = len - 1;
        }
        proof {
            if i > p {
                assert(rest[i - p - 1] == v@[i - 1]);
            }
        }
        assert(len == first_line_len(rest));
        if len > best {
            best = len;
        }
        if i < n {
            assert(rest.skip(i - p + 1) =~= v@.skip(i + 1));
            p = i + 1;
        } else {
            assert(v@.skip(n as int) =~= Seq::<char>::empty());
            p = n;
        }
    }
    assert(v@.skip(n as int) =~= Seq::<char>::empty());
    best
}

/// The number of rows sampled for a column's width.
pub open spec fn width_sample_rows() -> nat {
    120
}

/// The longest line among the cells of column `c` in the first `k` rows
/// (rows too short to have that column are skipped).
pub open spec fn column_sample_width(rows: Seq<Seq<Seq<char>>>, c: int, k: int) -> nat
    decreases k,
{
    if k <= 0 {
        0
    } else {
        let a = column_sample_width(rows, c, k - 1);
        let b: nat = if 0 <= c < rows[k - 1].len() {
            longest_line(rows[k - 1][c])
        } else {
            0
        };
        if a >= b {
            a
        } else {
            b
        }
    }
}

/// The width, in characters, preferred for column `c`: the longer of its
/// title and the longest line of its first 120 cells, kept within 8 to 30.
pub open spec fn preferred_width(headers: Seq<Seq<char>>, rows: Seq<Seq<Seq<char>>>, c: int) -> int {
    let header_len: nat = if 0 <= c < headers.len() {
        headers[c].len()
    } else {
        0
    };
    let k = if rows.len() < width_sample_rows() {
        rows.len() as int
    } else {
        width_sample_rows() as int
    };
    let sample = column_sample_width(rows, c, k);
    let widest = if header_len >= sample {
        header_len
    } else {
        sample
    };
    if widest < 8 {
        8
    } else if widest > 30 {
        30
    } else {
        widest as int
    }
}

/// The preferred width in characters of a column of the table view.
pub fn csv_preferred_width_chars(document: &CsvDocument, column_index: usize) -> (r: i32)
    ensures
        r == preferred_width(
            document.headers.deep_view(),
            document.rows.deep_view(),
            column_index as int,
        ),
{
    let ghost headers = document.headers.deep_view();
    let ghost rows = document.rows.deep_view();
    let header_len: usize = if column_index < document.headers.len() {
        assert(headers[column_index as int] == document.headers@[column_index as int]@);
        chars_of(document.headers[column_index].as_str()).len()
    } else {
        0
    };
    let k: usize = if document.rows.len() < 120 {
        document.rows.len()
    } else {
        120
    };
    let mut sample: usize = 0;
    let mut i: usize = 0;
    while i < k
        invariant
            rows == document.rows.deep_view(),
            k <= document.rows.len(),
            i <= k,
            sample == column_sample_width(rows, column_index as int, i as int),
        decreases k - i,
    {
        assert(rows[i as int] == document.rows@[i as int].deep_view());
        let row = &document.rows[i];
        if column_index < row.len() {
            assert(rows[i as int][column_index as int] == row@[column_index as int]@);
            let w = longest_line_len(row[column_index].as_str());
            if w > sample {
                sample = w;
            }
        }
        i = i + 1;
    }
    let widest = if header_len >= sample {
        header_len
    } else {
        sample
    };
    if widest < 8 {
        8
    } else if widest > 30 {
        30
    } else {
        widest as i32
    }
}

// ------------------------------------------------------------------------
// Searching rows
// ------------------------------------------------------------------------

/// Whether a row holds a cell that contains the (lower-case) query once the
/// cell is lower-cased.
pub open spec fn row_matches(row: Seq<Seq<char>>, query: Seq<char>) -> bool {
    exists|j: int| 0 <= j < row.len() && has_substring(unicode_lowercase(#[trigger] row[j]), query)
}

/// The indices, in order, of the rows shown for the query: all rows when it
/// is empty, otherwise those with a matching cell.
pub open spec fn matching_rows_upto(rows: Seq<Seq<Seq<char>>>, query: Seq<char>, k: int) -> Seq<
    usize,
>
    decreases k,
{
    if k <= 0 {
        Seq::empty()
    } else {
        let before = matching_rows_upto(rows, query, k - 1);
        if query.len() == 0 || row_matches(rows[k - 1], query) {
            before.push((k - 1) as usize)
        } else {
            before
        }
    }
}

/// The indices of the rows shown for the (lower-case) search query.
pub open spec fn matching_rows(rows: Seq<Seq<Seq<char>>>, query: Seq<char>) -> Seq<usize> {
    matching_rows_upto(rows, query, rows.len() as int)
}

proof fn lemma_matching_rows_upto(rows: Seq<Seq<Seq<char>>>, query: Seq<char>, k: int)
    requires
        0 <= k <= rows.len(),
        rows.len() <= usize::MAX,
    ensures
        forall|m: int|
            0 <= m < matching_rows_upto(rows, query, k).len() ==> {
                let i = #[trigger] matching_rows_upto(rows, query, k)[m] as int;
                &&& i < k
                &&& (query.len() == 0 || row_matches(rows[i], query))
            },
        forall|i: usize|
            (i as int) < k && (query.len() == 0 || row_matches(rows[i as int], query))
                ==> #[trigger] matching_rows_upto(rows, query, k).contains(i),
    decreases k,
{
    if k > 0 {
        lemma_matching_rows_upto(rows, query, k - 1);
        let before = matching_rows_upto(rows, query, k - 1);
        let now = matching_rows_upto(rows, query, k);
        if query.len() == 0 || row_matches(rows[k - 1], query) {
            assert(now == before.push((k - 1) as usize));
        } else {
            assert(now == before);
        }
        assert forall|i: usize|
            (i as int) < k && (query.len() == 0 || row_matches(rows[i as int], query)) implies now.contains(
            i,
        ) by {
            if (i as int) < k - 1 {
                assert(before.contains(i));
                let m = choose|m: int| 0 <= m < before.len() && before[m] == i;
                assert(now[m] == before[m]);
            } else {
                assert(now[now.len() - 1] == (k - 1) as usize);
            }
        }
        assert forall|m: int| 0 <= m < now.len() implies {
            let i = #[trigger] now[m] as int;
            &&& i < k
            &&& (query.len() == 0 || row_matches(rows[i], query))
        } by {
            if m < before.len() {
                assert(now[m] == before[m]);
            }
        }
    }
}

/// While searching, a row is listed when any of its cells, lower-cased,
/// contains the query, whichever cell that is.
pub proof fn law_rows_with_a_matching_cell_are_listed(
    rows: Seq<Seq<Seq<char>>>,
    query: Seq<char>,
    i: int,
    j: int,
)
    requires
        rows.len() <= usize::MAX,
        0 <= i < rows.len(),
        0 <= j < rows[i].len(),
        has_substring(unicode_lowercase(rows[i][j]), query),
    ensures
        matching_rows(rows, query).contains(i as usize),
{
    lemma_matching_rows_upto(rows, query, rows.len() as int);
}

/// While searching, every listed row has a cell that, lower-cased,
/// contains the query; with no query every row is listed.
pub proof fn law_listed_rows_match(rows: Seq<Seq<Seq<char>>>, query: Seq<char>, m: int)
    requires
        rows.len() <= usize::MAX,
        0 <= m < matching_rows(rows, query).len(),
    ensures
        matching_rows(rows, query)[m] < rows.len(),
        query.len() > 0 ==> exists|j: int|
            0 <= j < rows[matching_rows(rows, query)[m] as int].len() && has_substring(
                unicode_lowercase(rows[matching_rows(rows, query)[m] as int][j]),
                query,
            ),
{
    lemma_matching_rows_upto(rows, query, rows.len() as int);
    let i = matching_rows(rows, query)[m] as int;
    assert(i < rows.len());
}

/// With an empty query every row is listed.
pub proof fn law_empty_query_lists_every_row(rows: Seq<Seq<Seq<char>>>, i: int)
    requires
        rows.len() <= usize::MAX,
        0 <= i < rows.len(),
    ensures
        matching_rows(rows, Seq::empty()).contains(i as usize),
{
    let query = Seq::<char>::empty();
    lemma_matching_rows_upto(rows, query, rows.len() as int);
    assert(query.len() == 0);
    assert(matching_rows_upto(rows, query, rows.len() as int).contains(i as usize));
}

fn row_has_match(row: &Vec<String>, query: &str) -> (r: bool)
    ensures
        r == row_matches(row.deep_view(), query@),
{
    let mut j: usize = 0;
    while j < row.len()
        invariant
            j <= row.len(),
            forall|m: int|
                0 <= m < j ==> !has_substring(unicode_lowercase(#[trigger] row.deep_view()[m]), query@),
        decreases row.len() - j,
    {
        assert(row.deep_view()[j as int] == row@[j as int]@);
        let lowered = to_lowercase(row[j].as_str());
        if contains_str(lowered.as_str(), query) {
            return true;
        }
        j = j + 1;
    }
    false
}

/// The rows of `document` that the table shows for the (lower-case) search
/// query, by index.
pub fn visible_csv_rows(document: &CsvDocument, query: &str) -> (r: Vec<usize>)
    ensures
        r@ == matching_rows(document.rows.deep_view(), query@),
{
    let ghost rows = document.rows.deep_view();
    let searching = chars_of(query).len() > 0;
    let mut out: Vec<usize> = Vec::new();
    let mut i: usize = 0;
    while i < document.rows.len()
        invariant
            rows == document.rows.deep_view(),
            searching == (query@.len() > 0),
            i <= document.rows.len(),
            out@ == matching_rows_upto(rows, query@, i as int),
        decreases document.rows.len() - i,
    {
        assert(rows[i as int] == document.rows@[i as int].deep_view());
        if !searching || row_has_match(&document.rows[i], query) {
            out.push(i);
        }
        i = i + 1;
    }
    out
}

// ------------------------------------------------------------------------
// Selected cells and copied text
// ------------------------------------------------------------------------

/// A selected cell of the table.
#[derive(Debug, Clone)]
pub struct CsvSelection {
    pub row_index: usize,
    pub column_index: usize,
    pub column_name: String,
    pub value: String,
}

/// The title of column `c`: its header, or the generated name when the
/// header row is shorter.
pub open spec fn column_title(headers: Seq<Seq<char>>, c: nat) -> Seq<char> {
    if c < headers.len() {
        headers[c as int]
    } else {
        crate::document::generated_name(c + 1)
    }
}

/// The selection of the cell at `row_index`, `column_index`, when that cell
/// exists.
pub fn csv_selection(document: &CsvDocument, row_index: usize, column_index: usize) -> (r: Option<
    CsvSelection,
>)
    ensures
        match r {
            Some(s) => {
                &&& row_index < document.rows@.len()
                &&& column_index < document.rows@[row_index as int]@.len()
                &&& s.row_index == row_index
                &&& s.column_index == column_index
                &&& s.value@ == document.rows.deep_view()[row_index as int][column_index as int]
                &&& s.column_name@ == column_title(
                    document.headers.deep_view(),
                    column_index as nat,
                )
            },
            None => row_index >= document.rows@.len() || column_index
                >= document.rows@[row_index as int]@.len(),
        },
{
    if row_index >= document.rows.len() {
        return None;
    }
    let row = &document.rows[row_index];
    if column_index >= row.len() {
        return None;
    }
    assert(document.rows.deep_view()[row_index as int] == row.deep_view());
    assert(row.deep_view()[column_index as int] == row@[column_index as int]@);
    let column_name = if column_index < document.headers.len() {
        assert(document.headers.deep_view()[column_index as int]
            == document.headers@[column_index as int]@);
        owned(document.headers[column_index].as_str())
    } else {
        crate::document::generated_column_name(column_index + 1)
    };
    Some(
        CsvSelection {
            row_index,
            column_index,
            column_name,
            value: owned(row[column_index].as_str()),
        },
    )
}

/// The location of a selected cell, as copied: `Row <n> · <column>`, rows
/// counted from 1.
pub open spec fn location_text(row_index: nat, column_name: Seq<char>) -> Seq<char> {
    "Row "@ + decimal(row_index + 1) + " \u{b7} "@ + column_name
}

/// The location text of a selected cell.
pub fn cell_location(selection: &CsvSelection) -> (r: String)
    requires
        selection.row_index < usize::MAX,
    ensures
        r@ == location_text(selection.row_index as nat, selection.column_name@),
{
    let row = decimal_string(selection.row_index + 1);
    let head = concat3("Row ", row.as_str(), " \u{b7} ");
    concat(head.as_str(), selection.column_name.as_str())
}

/// `parts` joined with `separator` between consecutive parts.
pub open spec fn joined(parts: Seq<Seq<char>>, separator: Seq<char>) -> Seq<char>
    decreases parts.len(),
{
    if parts.len() == 0 {
        Seq::empty()
    } else if parts.len() == 1 {
        parts[0]
    } else {
        joined(parts.drop_last(), separator) + separator + parts.last()
    }
}

/// `parts.join(separator)`.
pub fn join_strings(parts: &Vec<String>, separator: &str) -> (r: String)
    ensures
        r@ == joined(parts.deep_view(), separator@),
{
    let ghost ps = parts.deep_view();
    let mut out = String::new();
    let mut i: usize = 0;
    while i < parts.len()
        invariant
            ps == parts.deep_view(),
            i <= parts.len(),
            out@ == joined(ps.take(i as int), separator@),
        decreases parts.len() - i,
    {
        assert(ps[i as int] == parts@[i as int]@);
        assert(ps.take(i + 1).drop_last() =~= ps.take(i as int));
        if i > 0 {
            out.append(separator);
        }
        out.append(parts[i].as_str());
        i = i + 1;
    }
    assert(ps.take(parts.len() as int) =~= ps);
    out
}

/// The text copied for a row: its cells separated by tabs, empty cells kept
/// empty; nothing for a row that does not exist.
pub fn row_copy_text(document: &CsvDocument, row_index: usize) -> (r: Option<String>)
    ensures
        match r {
            Some(t) => row_index < document.rows@.len() && t@ == joined(
                document.rows.deep_view()[row_index as int],
                "\t"@,
            ),
            None => row_index >= document.rows@.len(),
        },
{
    if row_index >= document.rows.len() {
        return None;
    }
    assert(document.rows.deep_view()[row_index as int] == document.rows@[row_index as int].deep_view());
    Some(join_strings(&document.rows[row_index], "\t"))
}

/// Cell `c` of a row, or the empty text when the row is shorter.
pub open spec fn cell_or_empty(row: Seq<Seq<char>>, c: int) -> Seq<char> {
    if 0 <= c < row.len() {
        row[c]
    } else {
        Seq::empty()
    }
}

/// The cells copied for column `c`: its header first when the table has a
/// header row, then the cell of every row, empty where a row is shorter.
pub open spec fn column_cells(
    headers: Seq<Seq<char>>,
    rows: Seq<Seq<Seq<char>>>,
    has_headers: bool,
    c: int,
) -> Seq<Seq<char>> {
    let cells = Seq::new(rows.len(), |i: int| cell_or_empty(rows[i], c));
    if has_headers {
        seq![cell_or_empty(headers, c)] + cells
    } else {
        cells
    }
}

fn cell_of(row: &Vec<String>, c: usize) -> (r: String)
    ensures
        r@ == cell_or_empty(row.deep_view(), c as int),
{
    if c < row.len() {
        assert(row.deep_view()[c as int] == row@[c as int]@);
        owned(row[c].as_str())
    } else {
        String::new()
    }
}

/// The text copied for a column: its cells (and header, when the table has
/// a header row) one per line, empty cells kept empty.
pub fn column_copy_text(document: &CsvDocument, column_index: usize) -> (r: String)
    ensures
        r@ == joined(
            column_cells(
                document.headers.deep_view(),
                document.rows.deep_view(),
                document.has_headers,
                column_index as int,
            ),
            "\n"@,
        ),
{
    let ghost rows = document.rows.deep_view();
    let mut values: Vec<String> = Vec::new();
    if document.has_headers {
        values.push(cell_of(&document.headers, column_index));
    }
    let ghost start = values.deep_view();
    let mut i: usize = 0;
    while i < document.rows.len()
        invariant
            rows == document.rows.deep_view(),
            i <= document.rows.len(),
            values.deep_view() =~= start + Seq::new(
                i as nat,
                |k: int| cell_or_empty(rows[k], column_index as int),
            ),
        decreases document.rows.len() - i,
    {
        assert(rows[i as int] == document.rows@[i as int].deep_view());
        let cell = cell_of(&document.rows[i], column_index);
        let ghost before = values.deep_view();
        values.push(cell);
        assert(values.deep_view() =~= before.push(cell_or_empty(rows[i as int], column_index as int)));
        i = i + 1;
    }
    proof {
        let expected = column_cells(
            document.headers.deep_view(),
            rows,
            document.has_headers,
            column_index as int,
        );
        if document.has_headers {
            assert(start =~= seq![cell_or_empty(document.headers.deep_view(), column_index as int)]);
        } else {
            assert(start =~= Seq::<Seq<char>>::empty());
        }
        assert(values.deep_view() =~= expected);
    }
    join_strings(&values, "\n")
}

/// The value of cell (`row_index`, `column_index`) as the table shows it,
/// empty where the cell does not exist.
pub fn cell_value(document: &CsvDocument, row_index: usize, column_index: usize) -> (r: String)
    ensures
        r@ == if row_index < document.rows@.len() {
            cell_or_empty(document.rows.deep_view()[row_index as int], column_index as int)
        } else {
            Seq::empty()
        },
{
    if row_index < document.rows.len() {
        assert(document.rows.deep_view()[row_index as int]
            == document.rows@[row_index as int].deep_view());
        cell_of(&document.rows[row_index], column_index)
    } else {
        String::new()
    }
}

/// The cell value shown in the inspector: at most 180 characters.
pub fn inspector_cell_value(selection: &CsvSelection) -> (r: String)
    ensures
        r@ == truncated(selection.value@, 180),
{
    truncate(selection.value.as_str(), 180)
}

/// The search query as it is matched: trimmed and lower-cased.
pub fn normalize_query(text: &str) -> (r: String)
    ensures
        r@ == unicode_lowercase(trim(text@)),
{
    let t = trimmed(text);
    to_lowercase(t.as_str())
}

// ------------------------------------------------------------------------
// Sorting
// ------------------------------------------------------------------------

/// Whether `a` has a lower code point than `b`.
pub open spec fn char_before(a: char, b: char) -> bool {
    (a as u32) < (b as u32)
}

fn char_before_exec(a: char, b: char) -> (r: bool)
    ensures
        r == char_before(a, b),
{
    (a as u32) < (b as u32)
}

/// Lexicographic comparison of character sequences by code point (the
/// order of `str` comparison), as -1, 0 or 1.
pub open spec fn text_compare(a: Seq<char>, b: Seq<char>) -> int
    decreases a.len(),
{
    if a.len() == 0 && b.len() == 0 {
        0
    } else if a.len() == 0 {
        -1
    } else if b.len() == 0 {
        1
    } else if char_before(a[0], b[0]) {
        -1
    } else if char_before(b[0], a[0]) {
        1
    } else {
        text_compare(a.drop_first(), b.drop_first())
    }
}

/// The `Ordering` that a comparison result -1, 0 or 1 stands for.
pub open spec fn ordering_of(c: int) -> std::cmp::Ordering {
    if c < 0 {
        std::cmp::Ordering::Less
    } else if c == 0 {
        std::cmp::Ordering::Equal
    } else {
        std::cmp::Ordering::Greater
    }
}

/// Lexicographic order of character sequences by code point.
pub open spec fn text_order(a: Seq<char>, b: Seq<char>) -> std::cmp::Ordering {
    ordering_of(text_compare(a, b))
}

/// The order of two booleans: `false` before `true`.
pub open spec fn bool_order(a: bool, b: bool) -> std::cmp::Ordering {
    if a == b {
        std::cmp::Ordering::Equal
    } else if !a {
        std::cmp::Ordering::Less
    } else {
        std::cmp::Ordering::Greater
    }
}

/// The order of two cells when a column is sorted. Blank cells come first;
/// then `numeric`, the order of the two trimmed cells read as numbers when
/// both are numbers (it is computed outside, in floating point); then
/// booleans, `false` first; then the lower-cased text.
pub open spec fn cell_order(
    left: Seq<char>,
    right: Seq<char>,
    numeric: Option<std::cmp::Ordering>,
) -> std::cmp::Ordering {
    let a = trim(left);
    let b = trim(right);
    if a.len() == 0 && b.len() > 0 {
        std::cmp::Ordering::Less
    } else if a.len() > 0 && b.len() == 0 {
        std::cmp::Ordering::Greater
    } else if numeric is Some {
        numeric->0
    } else if bool_of(a) is Some && bool_of(b) is Some {
        bool_order(bool_of(a)->0, bool_of(b)->0)
    } else {
        text_order(unicode_lowercase(a), unicode_lowercase(b))
    }
}

/// Sorting puts blank cells before all others, whatever their numeric order.
pub proof fn law_blank_cells_sort_first(
    blank: Seq<char>,
    other: Seq<char>,
    numeric: Option<std::cmp::Ordering>,
)
    requires
        trim(blank).len() == 0,
        trim(other).len() > 0,
    ensures
        cell_order(blank, other, numeric) == std::cmp::Ordering::Less,
        cell_order(other, blank, numeric) == std::cmp::Ordering::Greater,
{
}

/// The opposite order: `Less` and `Greater` swapped, `Equal` kept.
pub open spec fn opposite(o: std::cmp::Ordering) -> std::cmp::Ordering {
    match o {
        std::cmp::Ordering::Less => std::cmp::Ordering::Greater,
        std::cmp::Ordering::Equal => std::cmp::Ordering::Equal,
        std::cmp::Ordering::Greater => std::cmp::Ordering::Less,
    }
}

/// A numeric order taken the other way round.
pub open spec fn opposite_numeric(numeric: Option<std::cmp::Ordering>) -> Option<
    std::cmp::Ordering,
> {
    match numeric {
        Some(o) => Some(opposite(o)),
        None => None,
    }
}

proof fn lemma_text_compare_antisymmetric(a: Seq<char>, b: Seq<char>)
    ensures
        text_compare(b, a) == -text_compare(a, b),
    decreases a.len(),
{
    if a.len() > 0 && b.len() > 0 && !char_before(a[0], b[0]) && !char_before(b[0], a[0]) {
        lemma_text_compare_antisymmetric(a.drop_first(), b.drop_first());
    }
}

proof fn lemma_text_compare_reflexive(a: Seq<char>)
    ensures
        text_compare(a, a) == 0,
    decreases a.len(),
{
    if a.len() > 0 {
        lemma_text_compare_reflexive(a.drop_first());
    }
}

proof fn lemma_same_code_point(a: char, b: char)
    requires
        !char_before(a, b),
        !char_before(b, a),
    ensures
        a == b,
{
    vstd::utf8::char_u32_cast(a, a as u32);
    vstd::utf8::char_u32_cast(b, b as u32);
}

/// Texts compare by their first differing character: when `a` and `b`
/// agree before position `k` and `a` has the lower code point there, `a`
/// comes first, whatever their lengths.
pub proof fn law_first_difference_decides(a: Seq<char>, b: Seq<char>, k: int)
    requires
        0 <= k < a.len(),
        k < b.len(),
        a.take(k) == b.take(k),
        char_before(a[k], b[k]),
    ensures
        text_compare(a, b) == -1,
        text_compare(b, a) == 1,
    decreases k,
{
    lemma_text_compare_antisymmetric(a, b);
    if k > 0 {
        assert(a[0] == a.take(k)[0] && b[0] == b.take(k)[0]);
        let (x, y) = (a.drop_first(), b.drop_first());
        assert(x.take(k - 1) =~= a.take(k).drop_first());
        assert(y.take(k - 1) =~= b.take(k).drop_first());
        assert(x[k - 1] == a[k] && y[k - 1] == b[k]);
        law_first_difference_decides(x, y, k - 1);
    }
}

/// A text comes before every longer text that starts with it.
pub proof fn law_prefix_comes_first(a: Seq<char>, b: Seq<char>)
    requires
        a.len() < b.len(),
        b.take(a.len() as int) == a,
    ensures
        text_compare(a, b) == -1,
        text_compare(b, a) == 1,
    decreases a.len(),
{
    lemma_text_compare_antisymmetric(a, b);
    if a.len() > 0 {
        assert(a[0] == b.take(a.len() as int)[0]);
        let (x, y) = (a.drop_first(), b.drop_first());
        assert(y.take(x.len() as int) =~= x) by {
            assert forall|i: int| 0 <= i < x.len() implies y.take(x.len() as int)[i] == x[i] by {
                assert(b.take(a.len() as int)[i + 1] == a[i + 1]);
            }
        }
        law_prefix_comes_first(x, y);
    }
}

/// Two texts compare as equal exactly when they are the same text.
pub proof fn law_equal_only_when_same(a: Seq<char>, b: Seq<char>)
    ensures
        text_compare(a, b) == 0 <==> a == b,
    decreases a.len(),
{
    if a == b {
        lemma_text_compare_reflexive(a);
    } else if a.len() > 0 && b.len() > 0 && !char_before(a[0], b[0]) && !char_before(b[0], a[0]) {
        lemma_same_code_point(a[0], b[0]);
        law_equal_only_when_same(a.drop_first(), b.drop_first());
        if a.drop_first() == b.drop_first() {
            assert(a =~= b) by {
                assert forall|i: int| 0 <= i < a.len() implies a[i] == b[i] by {
                    if i > 0 {
                        assert(a[i] == a.drop_first()[i - 1]);
                        assert(b[i] == b.drop_first()[i - 1]);
                    }
                }
            }
        } else {
            assert(text_compare(a, b) == text_compare(a.drop_first(), b.drop_first()));
        }
    }
}

/// Two non-blank cells that are not both booleans, with no numeric order,
/// sort by their trimmed, lower-cased texts: the first character where
/// those differ decides, by code point.
pub proof fn law_text_cells_sort_by_first_difference(left: Seq<char>, right: Seq<char>, k: int)
    requires
        trim(left).len() > 0,
        trim(right).len() > 0,
        !(bool_of(trim(left)) is Some && bool_of(trim(right)) is Some),
        0 <= k < unicode_lowercase(trim(left)).len(),
        k < unicode_lowercase(trim(right)).len(),
        unicode_lowercase(trim(left)).take(k) == unicode_lowercase(trim(right)).take(k),
        char_before(unicode_lowercase(trim(left))[k], unicode_lowercase(trim(right))[k]),
    ensures
        cell_order(left, right, None) == std::cmp::Ordering::Less,
        cell_order(right, left, None) == std::cmp::Ordering::Greater,
{
    law_first_difference_decides(unicode_lowercase(trim(left)), unicode_lowercase(trim(right)), k);
}

/// Comparing two cells the other way round gives the opposite order, when
/// the numeric order handed in is taken the other way round too.
pub proof fn law_cell_order_antisymmetric(
    left: Seq<char>,
    right: Seq<char>,
    numeric: Option<std::cmp::Ordering>,
)
    ensures
        cell_order(right, left, opposite_numeric(numeric)) == opposite(
            cell_order(left, right, numeric),
        ),
{
    lemma_text_compare_antisymmetric(
        unicode_lowercase(trim(left)),
        unicode_lowercase(trim(right)),
    );
}

/// A cell compares equal to itself, when the numeric order handed in for it
/// is `Equal` or there is none.
pub proof fn law_cell_order_reflexive(cell: Seq<char>, numeric: Option<std::cmp::Ordering>)
    requires
        numeric is None || numeric == Some(std::cmp::Ordering::Equal),
    ensures
        cell_order(cell, cell, numeric) == std::cmp::Ordering::Equal,
{
    lemma_text_compare_reflexive(unicode_lowercase(trim(cell)));
}

fn text_compare_exec(a: &Vec<char>, b: &Vec<char>) -> (r: i8)
    ensures
        r == text_compare(a@, b@),
{
    let mut i: usize = 0;
    assert(a@.skip(0) =~= a@);
    assert(b@.skip(0) =~= b@);
    while i < a.len() && i < b.len() && a[i] == b[i]
        invariant
            i <= a.len(),
            i <= b.len(),
            text_compare(a@, b@) == text_compare(a@.skip(i as int), b@.skip(i as int)),
        decreases a.len() - i,
    {
        assert(a@.skip(i as int).drop_first() =~= a@.skip(i + 1));
        assert(b@.skip(i as int).drop_first() =~= b@.skip(i + 1));
        assert(a@.skip(i as int)[0] == a@[i as int]);
        assert(b@.skip(i as int)[0] == b@[i as int]);
        i = i + 1;
    }
    let ghost x = a@.skip(i as int);
    let ghost y = b@.skip(i as int);
    if i == a.len() && i == b.len() {
        assert(x.len() == 0 && y.len() == 0);
        0
    } else if i == a.len() {
        -1
    } else if i == b.len() {
        1
    } else {
        assert(x[0] == a@[i as int] && y[0] == b@[i as int]);
        if char_before_exec(a[i], b[i]) {
            -1
        } else {
            proof {
                let u = a@[i as int] as u32;
                let v = b@[i as int] as u32;
                vstd::utf8::char_u32_cast(a@[i as int], u);
                vstd::utf8::char_u32_cast(b@[i as int], v);
                assert(u != v);
            }
            1
        }
    }
}

/// Compares two cells of a sorted column. `numeric` is the order of the
/// trimmed cells as numbers when both read as numbers, `None` otherwise.
pub fn compare_csv_values(left: &str, right: &str, numeric: Option<std::cmp::Ordering>) -> (r:
    std::cmp::Ordering)
    ensures
        r == cell_order(left@, right@, numeric),
{
    let a = trimmed(left);
    let b = trimmed(right);
    let a_blank = chars_of(a.as_str()).len() == 0;
    let b_blank = chars_of(b.as_str()).len() == 0;
    if a_blank && !b_blank {
        return std::cmp::Ordering::Less;
    }
    if !a_blank && b_blank {
        return std::cmp::Ordering::Greater;
    }
    if let Some(order) = numeric {
        return order;
    }
    if let (Some(x), Some(y)) = (csv_bool(a.as_str()), csv_bool(b.as_str())) {
        return if x == y {
            std::cmp::Ordering::Equal
        } else if !x {
            std::cmp::Ordering::Less
        } else {
            std::cmp::Ordering::Greater
        };
    }
    let la = chars_of(to_lowercase(a.as_str()).as_str());
    let lb = chars_of(to_lowercase(b.as_str()).as_str());
    let c = text_compare_exec(&la, &lb);
    if c < 0 {
        std::cmp::Ordering::Less
    } else if c == 0 {
        std::cmp::Ordering::Equal
    } else {
        std::cmp::Ordering::Greater
    }
}

} // verus!
