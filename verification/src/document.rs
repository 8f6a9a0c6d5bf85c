//! Data documents: decoding a file's bytes, loading CSV/TSV tables with
//! delimiter and header detection, the JSON document record, and the
//! header override of a loaded table.

use vstd::prelude::*;
use vstd::utf8::{valid_utf8, decode_utf8, valid_first_scalar, pop_first_scalar, length_of_first_scalar};
use crate::text::{ascii_lower, ascii_lowercase, chars_of, concat, concat3, decimal, decimal_string, eq_ignore_ascii_case_chars, eq_ignore_ascii_case_spec, is_blank, is_white_space, owned, str_eq, to_lowercase, trim, trim_end, trim_start, trimmed, unicode_lowercase};
use crate::number::{is_float_literal, is_float_text};
use crate::csv_read::{detected_delimiter, detect_delimiter, max_scored_len, parsed_records, parse_csv_records};
use crate::json::{JsonValue, node_count, height, document_metrics};
use crate::pointer::well_formed;

verus! {

// ------------------------------------------------------------------------
// Decoding the bytes of a file
// ------------------------------------------------------------------------

/// `String::from_utf8`: the bytes as text when they are well-formed UTF-8.
#[verifier::external_body]
fn utf8_to_string(bytes: Vec<u8>) -> (r: Option<String>)
    ensures
        r is Some <==> valid_utf8(bytes@),
        r matches Some(s) ==> s@ == decode_utf8(bytes@),
{
    String::from_utf8(bytes).ok()
}

/// Decoding never yields more characters than there are bytes.
proof fn lemma_decoded_len(bytes: Seq<u8>)
    requires
        valid_utf8(bytes),
    ensures
        decode_utf8(bytes).len() <= bytes.len(),
    decreases bytes.len(),
{
    if bytes.len() > 0 {
        let k = length_of_first_scalar(bytes);
        assert(1 <= k <= bytes.len());
        assert(pop_first_scalar(bytes).len() == bytes.len() - k);
        lemma_decoded_len(pop_first_scalar(bytes));
    }
}

/// The message for a file that is not UTF-8 text of the given format.
pub open spec fn not_utf8_message(format_name: Seq<char>) -> Seq<char> {
    "This file is not valid UTF-8 "@ + format_name + "."@
}

/// Decodes the bytes of a file as UTF-8 text, giving the text and the byte
/// size, or the message that names the expected format.
pub fn read_utf8(bytes: Vec<u8>, format_name: &str) -> (r: Result<(String, u64), String>)
    ensures
        match r {
            Ok((text, size)) => valid_utf8(bytes@) && text@ == decode_utf8(bytes@) && size
                == bytes@.len(),
            Err(message) => !valid_utf8(bytes@) && message@ == not_utf8_message(format_name@),
        },
{
    let size_bytes = bytes.len() as u64;
    match utf8_to_string(bytes) {
        Some(text) => Ok((text, size_bytes)),
        None => Err(concat3("This file is not valid UTF-8 ", format_name, ".")),
    }
}

/// The byte order mark that some editors put at the start of a file.
pub open spec fn byte_order_mark() -> char {
    '\u{feff}'
}

/// The text handed to a parser: the source without a leading byte order mark.
pub open spec fn strip_bom(s: Seq<char>) -> Seq<char> {
    if s.len() > 0 && s[0] == byte_order_mark() {
        s.drop_first()
    } else {
        s
    }
}

/// The part of `raw_text` that is parsed: everything after a leading byte
/// order mark. The raw text itself is kept unchanged for the raw view.
pub fn parse_source_text(raw_text: &str) -> (r: &str)
    ensures
        r@ == strip_bom(raw_text@),
{
    let n = raw_text.unicode_len();
    if n > 0 && raw_text.get_char(0) == '\u{feff}' {
        let r = raw_text.substring_char(1, n);
        assert(r@ =~= raw_text@.drop_first());
        r
    } else {
        raw_text
    }
}

// ------------------------------------------------------------------------
// File formats
// ------------------------------------------------------------------------

/// The formats a file can be opened as.
#[derive(Debug, Clone, Copy, PartialEq, Eq)]
pub enum DocumentFormat {
    Json,
    Csv,
}

/// The message for a file of another kind.
pub open spec fn unsupported_message() -> Seq<char> {
    "Unsupported file type. Open a JSON, CSV, or TSV file."@
}

/// A file extension, ASCII lower-cased.
pub open spec fn lower_extension(extension: Seq<char>) -> Seq<char> {
    extension.map_values(|c: char| ascii_lower(c))
}

/// The format chosen for a file extension: `json` opens as JSON, `csv` and
/// `tsv` as a table, in any ASCII case; anything else is refused.
pub open spec fn format_for(extension: Seq<char>) -> Result<DocumentFormat, Seq<char>> {
    let e = lower_extension(extension);
    if e == seq!['j', 's', 'o', 'n'] {
        Ok(DocumentFormat::Json)
    } else if e == seq!['c', 's', 'v'] || e == seq!['t', 's', 'v'] {
        Ok(DocumentFormat::Csv)
    } else {
        Err(unsupported_message())
    }
}

fn chars_are(v: &Vec<char>, w: &Vec<char>) -> (r: bool)
    ensures
        r == (v@ == w@),
{
    if v.len() != w.len() {
        return false;
    }
    let mut i: usize = 0;
    while i < v.len()
        invariant
            v.len() == w.len(),
            i <= v.len(),
            forall|j: int| 0 <= j < i ==> v@[j] == w@[j],
        decreases v.len() - i,
    {
        if v[i] != w[i] {
            return false;
        }
        i = i + 1;
    }
    assert(v@ =~= w@);
    true
}

/// Chooses how a file is opened from its extension (empty for none).
pub fn document_format(extension: &str) -> (r: Result<DocumentFormat, String>)
    ensures
        match r {
            Ok(f) => format_for(extension@) == Ok::<DocumentFormat, Seq<char>>(f),
            Err(m) => format_for(extension@) == Err::<DocumentFormat, Seq<char>>(m@),
        },
{
    let e = chars_of(&ascii_lowercase(extension));
    let json = vec!['j', 's', 'o', 'n'];
    let csv = vec!['c', 's', 'v'];
    let tsv = vec!['t', 's', 'v'];
    assert(json@ =~= seq!['j', 's', 'o', 'n']);
    assert(csv@ =~= seq!['c', 's', 'v']);
    assert(tsv@ =~= seq!['t', 's', 'v']);
    if chars_are(&e, &json) {
        Ok(DocumentFormat::Json)
    } else if chars_are(&e, &csv) || chars_are(&e, &tsv) {
        Ok(DocumentFormat::Csv)
    } else {
        Err(owned("Unsupported file type. Open a JSON, CSV, or TSV file."))
    }
}

// ------------------------------------------------------------------------
// Generated column names
// ------------------------------------------------------------------------

/// The name given to column `index` (counting from 1) of a table without a
/// header row.
pub open spec fn generated_name(index: nat) -> Seq<char> {
    "Column "@ + decimal(index)
}

/// The generated names of `n` columns.
pub open spec fn generated_names(n: nat) -> Seq<Seq<char>> {
    Seq::new(n, |i: int| generated_name((i + 1) as nat))
}

/// The generated name of column `index`, counting from 1.
pub fn generated_column_name(index: usize) -> (r: String)
    ensures
        r@ == generated_name(index as nat),
{
    let digits = decimal_string(index);
    concat("Column ", digits.as_str())
}

/// The generated names of columns 1 to `n`.
pub fn generated_column_names(n: usize) -> (r: Vec<String>)
    ensures
        r.deep_view() == generated_names(n as nat),
{
    let mut names: Vec<String> = Vec::new();
    let mut i: usize = 0;
    while i < n
        invariant
            i <= n,
            names.deep_view() =~= generated_names(i as nat),
        decreases n - i,
    {
        let name = generated_column_name(i + 1);
        let ghost before = names.deep_view();
        names.push(name);
        assert(names.deep_view() =~= before.push(generated_name((i + 1) as nat)));
        i = i + 1;
    }
    names
}

// ------------------------------------------------------------------------
// Header detection
// ------------------------------------------------------------------------

/// A cell that looks like data rather than a column title: blank, a
/// boolean or null keyword, or a number.
pub open spec fn data_like(value: Seq<char>) -> bool {
    let t = trim(value);
    ||| t.len() == 0
    ||| eq_ignore_ascii_case_spec(t, seq!['t', 'r', 'u', 'e'])
    ||| eq_ignore_ascii_case_spec(t, seq!['f', 'a', 'l', 's', 'e'])
    ||| eq_ignore_ascii_case_spec(t, seq!['n', 'u', 'l', 'l'])
    ||| is_float_literal(t)
}

/// How many of the first `k` cells of `row` look like data.
pub open spec fn data_like_count_upto(row: Seq<Seq<char>>, k: int) -> nat
    decreases k,
{
    if k <= 0 {
        0
    } else {
        data_like_count_upto(row, k - 1) + if data_like(row[k - 1]) {
            1nat
        } else {
            0nat
        }
    }
}

/// How many cells of `row` look like data.
pub open spec fn data_like_count(row: Seq<Seq<char>>) -> nat {
    data_like_count_upto(row, row.len() as int)
}

/// The key under which titles are compared for duplicates.
pub open spec fn title_key(value: Seq<char>) -> Seq<char> {
    unicode_lowercase(trim(value))
}

/// Whether the first record reads as a header row: it has cells, none of
/// them blank, no two equal once trimmed and lower-cased, and either none
/// of them looks like data or the second record has more data-like cells.
pub open spec fn headers_detected(records: Seq<Seq<Seq<char>>>) -> bool {
    &&& records.len() > 0
    &&& records[0].len() > 0
    &&& forall|i: int| 0 <= i < records[0].len() ==> trim(#[trigger] records[0][i]).len() > 0
    &&& forall|i: int, j: int|
        0 <= i < j < records[0].len() ==> title_key(#[trigger] records[0][i]) != title_key(
            #[trigger] records[0][j],
        )
    &&& {
        let first = data_like_count(records[0]);
        let second = if records.len() > 1 {
            data_like_count(records[1])
        } else {
            0
        };
        first == 0 || second > first
    }
}

proof fn lemma_no_data_like_cells(row: Seq<Seq<char>>, k: int)
    requires
        0 <= k <= row.len(),
        forall|i: int| 0 <= i < row.len() ==> !data_like(#[trigger] row[i]),
    ensures
        data_like_count_upto(row, k) == 0,
    decreases k,
{
    if k > 0 {
        lemma_no_data_like_cells(row, k - 1);
    }
}

/// A first record of titles is the header row, whatever follows it: when
/// it has cells, none of them looks like data (so none is blank), and no
/// two are equal once trimmed and lower-cased.
pub proof fn law_titles_make_a_header_row(records: Seq<Seq<Seq<char>>>)
    requires
        records.len() > 0,
        records[0].len() > 0,
        forall|i: int| 0 <= i < records[0].len() ==> !data_like(#[trigger] records[0][i]),
        forall|i: int, j: int|
            0 <= i < j < records[0].len() ==> title_key(#[trigger] records[0][i]) != title_key(
                #[trigger] records[0][j],
            ),
    ensures
        headers_detected(records),
{
    lemma_no_data_like_cells(records[0], records[0].len() as int);
    assert forall|i: int| 0 <= i < records[0].len() implies trim(#[trigger] records[0][i]).len()
        > 0 by {
        assert(!data_like(records[0][i]));
    }
}

/// A first record with some data-like cells is still the header row when
/// the second record has more of them, provided its cells are non-blank
/// and distinct once trimmed and lower-cased.
pub proof fn law_more_data_below_makes_a_header_row(records: Seq<Seq<Seq<char>>>)
    requires
        records.len() > 1,
        records[0].len() > 0,
        forall|i: int| 0 <= i < records[0].len() ==> trim(#[trigger] records[0][i]).len() > 0,
        forall|i: int, j: int|
            0 <= i < j < records[0].len() ==> title_key(#[trigger] records[0][i]) != title_key(
                #[trigger] records[0][j],
            ),
        data_like_count(records[1]) > data_like_count(records[0]),
    ensures
        headers_detected(records),
{
}

/// A first record with a blank cell, or with two cells equal once trimmed
/// and lower-cased, is never the header row.
pub proof fn law_blank_or_repeated_titles_are_no_header_row(
    records: Seq<Seq<Seq<char>>>,
    i: int,
    j: int,
)
    requires
        records.len() > 0,
        0 <= i < records[0].len(),
        0 <= j < records[0].len(),
        trim(records[0][i]).len() == 0 || (i < j && title_key(records[0][i]) == title_key(
            records[0][j],
        )),
    ensures
        !headers_detected(records),
{
}

/// Whether a cell looks like data rather than a column title.
pub fn is_data_like(value: &str) -> (r: bool)
    ensures
        r == data_like(value@),
{
    let t = trimmed(value);
    if is_blank(t.as_str()) {
        proof {
            // trimming twice changes nothing
            lemma_trim_idempotent(value@);
        }
        return true;
    }
    let tv = chars_of(t.as_str());
    let true_word = vec!['t', 'r', 'u', 'e'];
    let false_word = vec!['f', 'a', 'l', 's', 'e'];
    let null_word = vec!['n', 'u', 'l', 'l'];
    assert(true_word@ =~= seq!['t', 'r', 'u', 'e']);
    assert(false_word@ =~= seq!['f', 'a', 'l', 's', 'e']);
    assert(null_word@ =~= seq!['n', 'u', 'l', 'l']);
    if eq_ignore_ascii_case_chars(&tv, &true_word) || eq_ignore_ascii_case_chars(&tv, &false_word)
        || eq_ignore_ascii_case_chars(&tv, &null_word) {
        return true;
    }
    is_float_text(t.as_str())
}

proof fn lemma_trim_start_idempotent(s: Seq<char>)
    ensures
        trim_start(trim_start(s)) == trim_start(s),
    decreases s.len(),
{
    if s.len() > 0 && is_white_space(s[0]) {
        lemma_trim_start_idempotent(s.drop_first());
    }
}

proof fn lemma_trim_end_keeps_start(s: Seq<char>)
    requires
        s.len() == 0 || !is_white_space(s[0]),
    ensures
        trim_end(s).len() == 0 || !is_white_space(trim_end(s)[0]),
        trim_end(s).len() == 0 || trim_end(s)[0] == s[0],
    decreases s.len(),
{
    if s.len() > 0 && is_white_space(s.last()) {
        lemma_trim_end_keeps_start(s.drop_last());
    }
}

proof fn lemma_trim_end_idempotent(s: Seq<char>)
    ensures
        trim_end(trim_end(s)) == trim_end(s),
    decreases s.len(),
{
    if s.len() > 0 && is_white_space(s.last()) {
        lemma_trim_end_idempotent(s.drop_last());
    }
}

/// Trimming already trimmed text changes nothing.
pub proof fn lemma_trim_idempotent(s: Seq<char>)
    ensures
        trim(trim(s)) == trim(s),
{
    let a = trim_start(s);
    lemma_trim_start_shape(s);
    lemma_trim_end_keeps_start(a);
    let b = trim_end(a);
    // b starts with no white space, so trim_start leaves it alone
    assert(trim_start(b) == b);
    lemma_trim_end_idempotent(a);
}

proof fn lemma_trim_start_shape(s: Seq<char>)
    ensures
        trim_start(s).len() == 0 || !is_white_space(trim_start(s)[0]),
    decreases s.len(),
{
    if s.len() > 0 && is_white_space(s[0]) {
        lemma_trim_start_shape(s.drop_first());
    }
}

/// Counts the data-like cells of a record.
fn count_data_like(row: &Vec<String>) -> (r: usize)
    ensures
        r == data_like_count(row.deep_view()),
{
    let mut count: usize = 0;
    let mut i: usize = 0;
    while i < row.len()
        invariant
            i <= row.len(),
            count == data_like_count_upto(row.deep_view(), i as int),
            count <= i,
        decreases row.len() - i,
    {
        assert(row.deep_view()[i as int] == row@[i as int]@);
        if is_data_like(row[i].as_str()) {
            count = count + 1;
        }
        i = i + 1;
    }
    count
}

/// Decides whether the first record of a table is its header row.
pub fn detect_headers(records: &[Vec<String>]) -> (r: bool)
    ensures
        r == headers_detected(records.deep_view()),
{
    let ghost recs = records.deep_view();
    if records.len() == 0 {
        return false;
    }
    let first = &records[0];
    assert(recs[0] == first.deep_view());
    if first.len() == 0 {
        return false;
    }
    // every title holds text
    let mut i: usize = 0;
    while i < first.len()
        invariant
            recs == records.deep_view(),
            recs.len() > 0,
            recs[0] == first.deep_view(),
            i <= first.len(),
            forall|j: int| 0 <= j < i ==> trim(#[trigger] recs[0][j]).len() > 0,
        decreases first.len() - i,
    {
        assert(recs[0][i as int] == first@[i as int]@);
        if is_blank(first[i].as_str()) {
            return false;
        }
        i = i + 1;
    }
    // no two titles coincide once trimmed and lower-cased
    let mut keys: Vec<String> = Vec::new();
    let mut i: usize = 0;
    while i < first.len()
        invariant
            recs == records.deep_view(),
            recs.len() > 0,
            recs[0] == first.deep_view(),
            i <= first.len(),
            keys@.len() == i,
            forall|j: int| 0 <= j < i ==> (#[trigger] keys@[j])@ == title_key(recs[0][j]),
            forall|a: int, b: int| 0 <= a < b < i ==> title_key(#[trigger] recs[0][a]) != title_key(
                #[trigger] recs[0][b],
            ),
        decreases first.len() - i,
    {
        assert(recs[0][i as int] == first@[i as int]@);
        let t = trimmed(first[i].as_str());
        let key = to_lowercase(t.as_str());
        let mut j: usize = 0;
        while j < i
            invariant
                recs == records.deep_view(),
                recs.len() > 0,
                recs[0] == first.deep_view(),
                i < first.len(),
                j <= i,
                keys@.len() == i,
                key@ == title_key(recs[0][i as int]),
                forall|m: int| 0 <= m < i ==> (#[trigger] keys@[m])@ == title_key(recs[0][m]),
                forall|m: int| 0 <= m < j ==> title_key(#[trigger] recs[0][m]) != key@,
            decreases i - j,
        {
            if str_eq(keys[j].as_str(), key.as_str()) {
                assert(title_key(recs[0][j as int]) == title_key(recs[0][i as int]));
                return false;
            }
            j = j + 1;
        }
        keys.push(key);
        i = i + 1;
    }
    let first_data_like = count_data_like(first);
    let second_data_like = if records.len() > 1 {
        assert(recs[1] == records@[1].deep_view());
        count_data_like(&records[1])
    } else {
        0
    };
    first_data_like == 0 || second_data_like > first_data_like
}

// ------------------------------------------------------------------------
// CSV documents
// ------------------------------------------------------------------------

/// A CSV or TSV file opened as a table.
#[derive(Debug)]
pub struct CsvDocument {
    pub path: String,
    pub headers: Vec<String>,
    pub rows: Vec<Vec<String>>,
    pub raw_text: String,
    pub size_bytes: u64,
    pub delimiter: u8,
    pub has_headers: bool,
}

/// The shape of a table that the header override acts on.
pub struct CsvLayout {
    pub headers: Seq<Seq<char>>,
    pub rows: Seq<Seq<Seq<char>>>,
    pub has_headers: bool,
}

/// The layout after the header override is set to `has_headers`.
///
/// Nothing changes when the setting already holds or there are no columns.
/// Turning it on promotes the first row to the header row (when there is a
/// row); turning it off puts the header row back in front of the rows and
/// names the columns `Column 1`, `Column 2`, ...
pub open spec fn with_header_row(l: CsvLayout, has_headers: bool) -> CsvLayout {
    if l.has_headers == has_headers || l.headers.len() == 0 {
        l
    } else if has_headers {
        if l.rows.len() == 0 {
            l
        } else {
            CsvLayout { headers: l.rows[0], rows: l.rows.drop_first(), has_headers: true }
        }
    } else {
        CsvLayout {
            headers: generated_names(l.headers.len()),
            rows: seq![l.headers] + l.rows,
            has_headers: false,
        }
    }
}

/// Every row has as many cells as there are columns.
pub open spec fn is_rectangular(l: CsvLayout) -> bool {
    forall|i: int| 0 <= i < l.rows.len() ==> (#[trigger] l.rows[i]).len() == l.headers.len()
}

impl CsvDocument {
    /// The headers, rows and header setting of the table.
    pub open spec fn layout(&self) -> CsvLayout {
        CsvLayout {
            headers: self.headers.deep_view(),
            rows: self.rows.deep_view(),
            has_headers: self.has_headers,
        }
    }

    /// Overrides the automatic header detection: with `true` the first row
    /// becomes the header row, with `false` the header row becomes the first
    /// row again and the columns get generated names.
    pub fn set_has_headers(&mut self, has_headers: bool)
        ensures
            final(self).layout() == with_header_row(old(self).layout(), has_headers),
            final(self).path == old(self).path,
            final(self).raw_text == old(self).raw_text,
            final(self).size_bytes == old(self).size_bytes,
            final(self).delimiter == old(self).delimiter,
    {
        if self.has_headers == has_headers || self.headers.len() == 0 {
            return;
        }
        if has_headers {
            if self.rows.len() == 0 {
                return;
            }
            let ghost old_rows = self.rows.deep_view();
            let first = self.rows.remove(0);
            assert(self.rows.deep_view() =~= old_rows.drop_first());
            self.headers = first;
        } else {
            let column_count = self.headers.len();
            let mut names = generated_column_names(column_count);
            let ghost old_headers = self.headers.deep_view();
            let ghost old_rows = self.rows.deep_view();
            std::mem::swap(&mut self.headers, &mut names);
            self.rows.insert(0, names);
            assert(self.rows.deep_view() =~= seq![old_headers] + old_rows);
        }
        self.has_headers = has_headers;
    }
}

/// The format line shown for an open table: whether its first row was taken
/// as the header row or its columns got generated names.
pub fn csv_format_label(has_headers: bool) -> (r: &'static str)
    ensures
        r@ == if has_headers {
            "CSV \u{b7} headers detected"@
        } else {
            "CSV \u{b7} generated column names"@
        },
{
    if has_headers {
        "CSV \u{b7} headers detected"
    } else {
        "CSV \u{b7} generated column names"
    }
}

/// Turning the header row off and on again gives back the same table.
pub proof fn law_header_row_off_and_on(l: CsvLayout)
    requires
        l.has_headers,
        l.headers.len() > 0,
    ensures
        with_header_row(with_header_row(l, false), true) == l,
{
    let off = with_header_row(l, false);
    assert(off.rows[0] == l.headers);
    assert(off.rows.drop_first() =~= l.rows);
}

/// For a table whose columns carry generated names, promoting the first row
/// to headers and turning that off again gives back the same table.
pub proof fn law_header_row_on_and_off(l: CsvLayout)
    requires
        !l.has_headers,
        l.rows.len() > 0,
        l.rows[0].len() > 0,
        l.headers == generated_names(l.rows[0].len()),
    ensures
        with_header_row(with_header_row(l, true), false) == l,
{
    let on = with_header_row(l, true);
    assert(on.headers == l.rows[0]);
    assert(seq![l.rows[0]] + l.rows.drop_first() =~= l.rows);
}

/// The header override keeps a rectangular table rectangular.
pub proof fn law_header_row_keeps_rectangular(l: CsvLayout, has_headers: bool)
    requires
        is_rectangular(l),
    ensures
        is_rectangular(with_header_row(l, has_headers)),
{
    let r = with_header_row(l, has_headers);
    if l.has_headers != has_headers && l.headers.len() != 0 {
        if has_headers {
            if l.rows.len() > 0 {
                assert forall|i: int| 0 <= i < r.rows.len() implies (#[trigger] r.rows[i]).len()
                    == r.headers.len() by {
                    assert(r.rows[i] == l.rows[i + 1]);
                }
            }
        } else {
            assert forall|i: int| 0 <= i < r.rows.len() implies (#[trigger] r.rows[i]).len()
                == r.headers.len() by {
                if i > 0 {
                    assert(r.rows[i] == l.rows[i - 1]);
                }
            }
        }
    }
}

// ------------------------------------------------------------------------
// Loading a CSV or TSV file
// ------------------------------------------------------------------------

/// The widest record among the first `k` records.
pub open spec fn widest_upto(records: Seq<Seq<Seq<char>>>, k: int) -> nat
    decreases k,
{
    if k <= 0 {
        0
    } else {
        let a = widest_upto(records, k - 1);
        if a >= records[k - 1].len() {
            a
        } else {
            records[k - 1].len()
        }
    }
}

/// The number of columns of a table: the field count of its widest record.
pub open spec fn column_count(records: Seq<Seq<Seq<char>>>) -> nat {
    widest_upto(records, records.len() as int)
}

/// A record filled up with empty cells to `n` cells.
pub open spec fn pad_record(record: Seq<Seq<char>>, n: nat) -> Seq<Seq<char>> {
    if record.len() >= n {
        record.take(n as int)
    } else {
        record + Seq::new((n - record.len()) as nat, |i: int| Seq::<char>::empty())
    }
}

/// All records filled up to `n` cells.
pub open spec fn padded_records(records: Seq<Seq<Seq<char>>>, n: nat) -> Seq<Seq<Seq<char>>> {
    Seq::new(records.len(), |i: int| pad_record(records[i], n))
}

/// Whether an extension names a tab-separated file.
pub open spec fn is_tsv_extension(extension: Seq<char>) -> bool {
    lower_extension(extension) == seq!['t', 's', 'v']
}

/// The delimiter a table is read with: tab for `.tsv` files, otherwise the
/// one detected from the text.
pub open spec fn table_delimiter(extension: Seq<char>, text: Seq<char>) -> u8 {
    if is_tsv_extension(extension) {
        9u8
    } else {
        detected_delimiter(text)
    }
}

/// What loading a table yields, besides its path and size.
pub struct CsvLoad {
    pub layout: CsvLayout,
    pub delimiter: u8,
    pub raw_text: Seq<char>,
}

/// The outcome of loading a CSV/TSV file with the given extension and bytes.
///
/// The bytes must be UTF-8; the text without its byte order mark must hold
/// more than white space; it is read with the table's delimiter; it must
/// give at least one record with at least one field. Records are filled up
/// with empty cells to the widest record, and the first record becomes the
/// header row when it reads as one; otherwise the columns get generated
/// names.
pub open spec fn csv_load(extension: Seq<char>, bytes: Seq<u8>) -> Result<CsvLoad, Seq<char>> {
    if !valid_utf8(bytes) {
        Err(not_utf8_message("CSV"@))
    } else {
        let raw = decode_utf8(bytes);
        let text = strip_bom(raw);
        if trim(text).len() == 0 {
            Err("This CSV file is empty."@)
        } else {
            let delimiter = table_delimiter(extension, text);
            match parsed_records(text, delimiter) {
                Err(message) => Err(message),
                Ok(records) => match table_from_records(records) {
                    Ok(layout) => Ok(CsvLoad { layout, delimiter, raw_text: raw }),
                    Err(message) => Err(message),
                },
            }
        }
    }
}

/// The table made of the records read from a file: at least one record
/// with at least one field is needed. Records are filled up with empty cells
/// to the widest record, and the first record becomes the header row when
/// it reads as one; otherwise the columns get generated names.
pub open spec fn table_from_records(records: Seq<Seq<Seq<char>>>) -> Result<CsvLayout, Seq<char>> {
    if records.len() == 0 {
        Err("This CSV file contains no records."@)
    } else if column_count(records) == 0 {
        Err("This CSV file contains no columns."@)
    } else {
        let n = column_count(records);
        let table = padded_records(records, n);
        let has_headers = headers_detected(table);
        Ok(
            CsvLayout {
                headers: if has_headers {
                    table[0]
                } else {
                    generated_names(n)
                },
                rows: if has_headers {
                    table.drop_first()
                } else {
                    table
                },
                has_headers,
            },
        )
    }
}

/// Fills a record up with empty cells to `n` cells.
fn pad(row: &mut Vec<String>, n: usize)
    requires
        old(row)@.len() <= n,
    ensures
        final(row).deep_view() == pad_record(old(row).deep_view(), n as nat),
{
    let ghost start = row.deep_view();
    while row.len() < n
        invariant
            start.len() <= row@.len() <= n,
            row.deep_view() =~= start + Seq::new(
                (row@.len() - start.len()) as nat,
                |i: int| Seq::<char>::empty(),
            ),
        decreases n - row@.len(),
    {
        let ghost before = row.deep_view();
        row.push(String::new());
        assert(row.deep_view() =~= before.push(Seq::<char>::empty()));
    }
}

/// Loads a CSV or TSV file from its bytes. `extension` is the file's
/// extension (empty for none); `.tsv` files are read tab-separated, others
/// with the detected delimiter.
pub fn load_csv(path: String, extension: &str, bytes: Vec<u8>) -> (r: Result<CsvDocument, String>)
    requires
        bytes@.len() <= max_scored_len(),
    ensures
        match r {
            Ok(d) => csv_load(extension@, bytes@) matches Ok(l) && d.layout() == l.layout
                && d.delimiter == l.delimiter && d.raw_text@ == l.raw_text && d.size_bytes
                == bytes@.len() && d.path == path,
            Err(m) => csv_load(extension@, bytes@) == Err::<CsvLoad, Seq<char>>(m@),
        },
{
    let ghost byte_seq = bytes@;
    let (raw_text, size_bytes) = match read_utf8(bytes, "CSV") {
        Ok(decoded) => decoded,
        Err(message) => {
            return Err(message);
        },
    };
    proof {
        lemma_decoded_len(byte_seq);
    }
    let parse_text = parse_source_text(raw_text.as_str());
    if is_blank(parse_text) {
        return Err(owned("This CSV file is empty."));
    }
    let lowered = chars_of(&ascii_lowercase(extension));
    let tsv = vec!['t', 's', 'v'];
    assert(tsv@ =~= seq!['t', 's', 'v']);
    let delimiter = if chars_are(&lowered, &tsv) {
        9u8
    } else {
        detect_delimiter(parse_text)
    };
    let records = match parse_csv_records(parse_text, delimiter) {
        Ok(records) => records,
        Err(message) => {
            return Err(message);
        },
    };
    let (headers, rows, has_headers) = match csv_table(records) {
        Ok(table) => table,
        Err(message) => {
            return Err(message);
        },
    };
    Ok(
        CsvDocument {
            path,
            headers,
            rows,
            raw_text,
            size_bytes,
            delimiter,
            has_headers,
        },
    )
}

/// Makes the table of a file from the records read from it: the header row
/// (or generated column names), the rows, and whether the first record was
/// taken as header row.
pub fn csv_table(records: Vec<Vec<String>>) -> (r: Result<(Vec<String>, Vec<Vec<String>>, bool), String>)
    ensures
        match r {
            Ok((headers, rows, has_headers)) => table_from_records(records.deep_view()) == Ok::<
                CsvLayout,
                Seq<char>,
            >(CsvLayout { headers: headers.deep_view(), rows: rows.deep_view(), has_headers }),
            Err(m) => table_from_records(records.deep_view()) == Err::<CsvLayout, Seq<char>>(m@),
        },
{
    let ghost recs = records.deep_view();
    if records.len() == 0 {
        return Err(owned("This CSV file contains no records."));
    }
    // the widest record gives the number of columns
    let mut columns: usize = 0;
    let mut i: usize = 0;
    while i < records.len()
        invariant
            recs == records.deep_view(),
            i <= records.len(),
            columns == widest_upto(recs, i as int),
        decreases records.len() - i,
    {
        assert(recs[i as int] == records@[i as int].deep_view());
        if records[i].len() > columns {
            columns = records[i].len();
        }
        i = i + 1;
    }
    if columns == 0 {
        return Err(owned("This CSV file contains no columns."));
    }
    proof {
        lemma_widest_bounds(recs, recs.len() as int);
    }
    // fill every record up to that width, keeping the order
    let mut rest = records;
    let mut reversed: Vec<Vec<String>> = Vec::new();
    while rest.len() > 0
        invariant
            columns == column_count(recs),
            forall|k: int| 0 <= k < recs.len() ==> (#[trigger] recs[k]).len() <= columns,
            rest@.len() <= recs.len(),
            rest.deep_view() == recs.take(rest@.len() as int),
            reversed@.len() == recs.len() - rest@.len(),
            forall|k: int|
                0 <= k < reversed@.len() ==> (#[trigger] reversed@[k]).deep_view() == pad_record(
                    recs[recs.len() - 1 - k],
                    columns as nat,
                ),
        decreases rest@.len(),
    {
        let ghost before = rest.deep_view();
        let mut row = rest.pop().unwrap();
        assert(row.deep_view() == before.last());
        assert(rest.deep_view() =~= before.drop_last());
        pad(&mut row, columns);
        reversed.push(row);
    }
    let mut table: Vec<Vec<String>> = Vec::new();
    while reversed.len() > 0
        invariant
            reversed@.len() + table@.len() == recs.len(),
            forall|k: int|
                0 <= k < reversed@.len() ==> (#[trigger] reversed@[k]).deep_view() == pad_record(
                    recs[recs.len() - 1 - k],
                    columns as nat,
                ),
            forall|k: int|
                0 <= k < table@.len() ==> (#[trigger] table@[k]).deep_view() == pad_record(
                    recs[k],
                    columns as nat,
                ),
        decreases reversed@.len(),
    {
        let row = reversed.pop().unwrap();
        table.push(row);
    }
    let ghost padded = padded_records(recs, columns as nat);
    assert(table.deep_view() =~= padded);
    let has_headers = detect_headers(table.as_slice());
    let headers = if has_headers {
        let first = table.remove(0);
        assert(table.deep_view() =~= padded.drop_first());
        first
    } else {
        generated_column_names(columns)
    };
    Ok((headers, table, has_headers))
}

proof fn lemma_widest_bounds(records: Seq<Seq<Seq<char>>>, k: int)
    requires
        0 <= k <= records.len(),
    ensures
        forall|j: int| 0 <= j < k ==> (#[trigger] records[j]).len() <= widest_upto(records, k),
    decreases k,
{
    if k > 0 {
        lemma_widest_bounds(records, k - 1);
    }
}

/// A loaded table is rectangular, and when it has no header row its columns
/// carry the generated names `Column 1` to `Column n` of its width.
pub proof fn law_loaded_table_shape(extension: Seq<char>, bytes: Seq<u8>)
    requires
        csv_load(extension, bytes) is Ok,
    ensures
        ({
            let l = csv_load(extension, bytes)->Ok_0.layout;
            &&& is_rectangular(l)
            &&& l.headers.len() > 0
            &&& !l.has_headers ==> l.rows.len() > 0 && l.headers == generated_names(
                l.rows[0].len(),
            )
        }),
{
    let raw = decode_utf8(bytes);
    let text = strip_bom(raw);
    let delimiter = table_delimiter(extension, text);
    let records = parsed_records(text, delimiter)->Ok_0;
    let n = column_count(records);
    lemma_widest_bounds(records, records.len() as int);
    let table = padded_records(records, n);
    assert forall|i: int| 0 <= i < table.len() implies (#[trigger] table[i]).len() == n by {
        assert(records[i].len() <= n);
    }
}

// ------------------------------------------------------------------------
// JSON documents
// ------------------------------------------------------------------------

/// A JSON file opened as a tree.
#[derive(Debug)]
pub struct JsonDocument {
    pub path: String,
    pub value: JsonValue,
    pub raw_text: String,
    pub size_bytes: u64,
    pub node_count: usize,
    pub max_depth: usize,
}

impl JsonDocument {
    /// Assembles a JSON document from its parsed value and source, counting
    /// its nodes and measuring its depth.
    pub fn from_parts(path: String, value: JsonValue, raw_text: String, size_bytes: u64) -> (r:
        JsonDocument)
        requires
            node_count(value) <= usize::MAX,
        ensures
            r.path == path,
            r.value == value,
            r.raw_text == raw_text,
            r.size_bytes == size_bytes,
            r.node_count == node_count(value),
            r.max_depth == height(value),
    {
        let (nodes, depth) = document_metrics(&value);
        JsonDocument { path, value, raw_text, size_bytes, node_count: nodes, max_depth: depth }
    }
}

/// The message for JSON that failed to parse at the given position.
pub open spec fn json_error_text(line: nat, column: nat, detail: Seq<char>) -> Seq<char> {
    "Invalid JSON at line "@ + decimal(line) + ", column "@ + decimal(column) + ": "@ + detail
}

/// The message shown for JSON that failed to parse: where, and the reader's
/// own description.
pub fn json_error_message(line: usize, column: usize, detail: &str) -> (r: String)
    ensures
        r@ == json_error_text(line as nat, column as nat, detail@),
{
    let l = decimal_string(line);
    let c = decimal_string(column);
    let head = concat3("Invalid JSON at line ", l.as_str(), ", column ");
    let tail = concat3(c.as_str(), ": ", detail);
    concat(head.as_str(), tail.as_str())
}

/// `serde_json::Value`, the reader's own tree, held only while it is turned
/// into a `JsonValue`.
#[verifier::external_type_specification]
#[verifier::external_body]
pub struct ExSerdeValue(serde_json::Value);

/// What `serde_json::from_str::<serde_json::Value>` gives for `text`, as the
/// library's tree: the value, or the error's line, column and message.
pub uninterp spec fn json_parse(text: Seq<char>) -> Result<JsonValue, (nat, nat, Seq<char>)>;

/// Turns a `serde_json::Value` into a `JsonValue`, variant by variant:
/// numbers as their `Display` text, members in the map's order.
#[verifier::external_body]
fn from_serde_value(value: &serde_json::Value) -> JsonValue {
    match value {
        serde_json::Value::Null => JsonValue::Null,
        serde_json::Value::Bool(b) => JsonValue::Bool(*b),
        serde_json::Value::Number(n) => JsonValue::Number(n.to_string()),
        serde_json::Value::String(text) => JsonValue::String(text.clone()),
        serde_json::Value::Array(items) => JsonValue::Array(items.iter().map(from_serde_value).collect()),
        serde_json::Value::Object(map) => JsonValue::Object(
            map.iter().map(|(key, child)| (key.clone(), from_serde_value(child))).collect(),
        ),
    }
}

/// `serde_json::from_str::<serde_json::Value>`, the value turned into a
/// `JsonValue`, the error into its `line()`, `column()` and `Display` text.
/// The result is the name `json_parse` of the text: the JSON grammar and the
/// reader's messages are not restated.
///
/// Besides the name, the contract states two facts of the parsed tree: each
/// of its values spans at least one character of the text, so it has no more
/// nodes than the text has characters; and it is well formed, since an
/// object is a `serde_json::Map` (a map from `String` keys, so the member
/// names are distinct) and an array a `Vec`.
#[verifier::external_body]
fn parse_json_value(text: &str) -> (r: Result<JsonValue, (usize, usize, String)>)
    ensures
        match r {
            Ok(v) => json_parse(text@) == Ok::<JsonValue, (nat, nat, Seq<char>)>(v) && node_count(
                v,
            ) <= text@.len() && well_formed(v),
            Err((line, column, message)) => json_parse(text@) == Err::<
                JsonValue,
                (nat, nat, Seq<char>),
            >((line as nat, column as nat, message@)),
        },
{
    serde_json::from_str::<serde_json::Value>(text).map(|value| from_serde_value(&value)).map_err(
        |error| (error.line(), error.column(), error.to_string()),
    )
}

/// What parsing JSON source gives: the tree of the text after its byte
/// order mark, or the message for the reader's error.
pub open spec fn json_outcome(raw_text: Seq<char>) -> Result<JsonValue, Seq<char>> {
    match json_parse(strip_bom(raw_text)) {
        Ok(v) => Ok(v),
        Err((line, column, detail)) => Err(json_error_text(line, column, detail)),
    }
}

/// Parses JSON source, leaving out a leading byte order mark.
pub fn parse_json_text(raw_text: &str) -> (r: Result<JsonValue, String>)
    ensures
        match r {
            Ok(v) => json_outcome(raw_text@) == Ok::<JsonValue, Seq<char>>(v) && node_count(v)
                <= raw_text@.len() && well_formed(v),
            Err(m) => json_outcome(raw_text@) == Err::<JsonValue, Seq<char>>(m@),
        },
{
    match parse_json_value(parse_source_text(raw_text)) {
        Ok(value) => Ok(value),
        Err((line, column, detail)) => Err(json_error_message(line, column, detail.as_str())),
    }
}

/// The outcome of loading a JSON file from its bytes: they must be UTF-8,
/// and the text, without its byte order mark, must parse.
pub open spec fn json_load(bytes: Seq<u8>) -> Result<JsonValue, Seq<char>> {
    if !valid_utf8(bytes) {
        Err(not_utf8_message("JSON"@))
    } else {
        json_outcome(decode_utf8(bytes))
    }
}

/// Loads a JSON file from its bytes.
pub fn load_json(path: String, bytes: Vec<u8>) -> (r: Result<JsonDocument, String>)
    ensures
        match r {
            Ok(d) => {
                &&& json_load(bytes@) == Ok::<JsonValue, Seq<char>>(d.value)
                &&& d.raw_text@ == decode_utf8(bytes@)
                &&& d.size_bytes == bytes@.len()
                &&& d.path == path
                &&& d.node_count == node_count(d.value)
                &&& d.max_depth == height(d.value)
                &&& well_formed(d.value)
            },
            Err(m) => json_load(bytes@) == Err::<JsonValue, Seq<char>>(m@),
        },
{
    let ghost byte_seq = bytes@;
    let byte_len = bytes.len();
    let (raw_text, size_bytes) = match read_utf8(bytes, "JSON") {
        Ok(decoded) => decoded,
        Err(message) => {
            return Err(message);
        },
    };
    proof {
        lemma_decoded_len(byte_seq);
    }
    let value = match parse_json_text(raw_text.as_str()) {
        Ok(value) => value,
        Err(message) => {
            return Err(message);
        },
    };
    assert(node_count(value) <= byte_len);
    Ok(JsonDocument::from_parts(path, value, raw_text, size_bytes))
}

// ------------------------------------------------------------------------
// Documents of either format
// ------------------------------------------------------------------------

/// An opened file of either format.
#[derive(Debug)]
pub enum DataDocument {
    Json(JsonDocument),
    Csv(CsvDocument),
}

impl DataDocument {
    /// The path the document was opened from.
    pub fn path(&self) -> (r: &str)
        ensures
            r@ == match self {
                DataDocument::Json(d) => d.path@,
                DataDocument::Csv(d) => d.path@,
            },
    {
        match self {
            DataDocument::Json(document) => document.path.as_str(),
            DataDocument::Csv(document) => document.path.as_str(),
        }
    }

    /// The decoded source text, byte order mark included.
    pub fn raw_text(&self) -> (r: &str)
        ensures
            r@ == match self {
                DataDocument::Json(d) => d.raw_text@,
                DataDocument::Csv(d) => d.raw_text@,
            },
    {
        match self {
            DataDocument::Json(document) => document.raw_text.as_str(),
            DataDocument::Csv(document) => document.raw_text.as_str(),
        }
    }

    /// The size of the file in bytes.
    pub fn size_bytes(&self) -> (r: u64)
        ensures
            r == match self {
                DataDocument::Json(d) => d.size_bytes,
                DataDocument::Csv(d) => d.size_bytes,
            },
    {
        match self {
            DataDocument::Json(document) => document.size_bytes,
            DataDocument::Csv(document) => document.size_bytes,
        }
    }

    /// The name of the document's format: `JSON` or `CSV`.
    pub fn format_name(&self) -> (r: &'static str)
        ensures
            r@ == match self {
                DataDocument::Json(_) => "JSON"@,
                DataDocument::Csv(_) => "CSV"@,
            },
    {
        match self {
            DataDocument::Json(_) => "JSON",
            DataDocument::Csv(_) => "CSV",
        }
    }
}

} // verus!
