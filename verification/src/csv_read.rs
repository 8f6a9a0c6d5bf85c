//! Reading delimited text through the `csv` crate, and choosing the
//! delimiter of a file from how each candidate splits its first records.

use vstd::prelude::*;
use crate::text::concat;

verus! {

// ------------------------------------------------------------------------
// The csv reader
// ------------------------------------------------------------------------

/// What the `csv` crate's reader hands out for `text` read with `delimiter`,
/// no header row and records of any length: every record as its fields, or,
/// at the first record that fails, that error's message.
pub uninterp spec fn csv_parse(text: Seq<char>, delimiter: u8) -> Result<
    Seq<Seq<Seq<char>>>,
    Seq<char>,
>;

/// What the `csv` crate's reader hands out, read as above, for its first
/// `limit` results: the field count of each record read, `None` for each
/// record that failed.
pub uninterp spec fn csv_sample_results(text: Seq<char>, delimiter: u8, limit: nat) -> Seq<
    Option<usize>,
>;

/// Reads every record of `text` with `csv::ReaderBuilder` set to the given
/// delimiter, `has_headers(false)` and `flexible(true)`, collecting the
/// fields as strings; the first failing record ends the read with the
/// error's `Display` text. The result is the name `csv_parse` of the
/// arguments: the crate's parsing rules (quoting, line endings) are not
/// restated.
#[verifier::external_body]
fn read_records(text: &str, delimiter: u8) -> (r: Result<Vec<Vec<String>>, String>)
    ensures
        match r {
            Ok(rows) => csv_parse(text@, delimiter) == Ok::<Seq<Seq<Seq<char>>>, Seq<char>>(
                rows.deep_view(),
            ),
            Err(message) => csv_parse(text@, delimiter) == Err::<Seq<Seq<Seq<char>>>, Seq<char>>(
                message@,
            ),
        },
{
    let mut reader = ::csv::ReaderBuilder::new().delimiter(delimiter).has_headers(false).flexible(
        true,
    ).from_reader(text.as_bytes());
    reader.records().map(
        |result| result.map(|record| record.iter().map(ToString::to_string).collect()).map_err(
            |error| error.to_string(),
        ),
    ).collect()
}

/// The first `limit` results that `csv::ReaderBuilder` (set as in
/// `read_records`) reads from `text` (`records().take(limit)`), each as the
/// record's field count, or `None` where reading the record failed.
///
/// Besides the name, the contract states two facts: `take(limit)` yields at
/// most `limit` results, and a record has at most one field more than the
/// delimiters it spans, each of which is one character of `text`.
#[verifier::external_body]
fn sample_results(text: &str, delimiter: u8, limit: usize) -> (r: Vec<Option<usize>>)
    ensures
        r@ == csv_sample_results(text@, delimiter, limit as nat),
        r@.len() <= limit,
        forall|i: int| 0 <= i < r@.len() ==> (#[trigger] r@[i] matches Some(w) ==> w <= text@.len() + 1),
{
    let mut reader = ::csv::ReaderBuilder::new().delimiter(delimiter).has_headers(false).flexible(
        true,
    ).from_reader(text.as_bytes());
    reader.records().take(limit).map(|result| result.ok().map(|record| record.len())).collect()
}

/// The field counts of the records that were read, in order, leaving out
/// the failed ones.
pub open spec fn read_widths(results: Seq<Option<usize>>) -> Seq<usize>
    decreases results.len(),
{
    if results.len() == 0 {
        Seq::empty()
    } else {
        let before = read_widths(results.drop_last());
        match results.last() {
            Some(w) => before.push(w),
            None => before,
        }
    }
}

/// The field counts of the sampled records of `text` read with `delimiter`.
pub open spec fn csv_sample_widths(text: Seq<char>, delimiter: u8, limit: nat) -> Seq<usize> {
    read_widths(csv_sample_results(text, delimiter, limit))
}

proof fn lemma_read_widths_bounds(results: Seq<Option<usize>>, bound: nat)
    requires
        forall|i: int| 0 <= i < results.len() ==> (#[trigger] results[i] matches Some(w) ==> w <= bound),
    ensures
        read_widths(results).len() <= results.len(),
        forall|i: int| 0 <= i < read_widths(results).len() ==> read_widths(results)[i] <= bound,
    decreases results.len(),
{
    if results.len() > 0 {
        let d = results.drop_last();
        assert forall|i: int| 0 <= i < d.len() implies (#[trigger] d[i] matches Some(w) ==> w <= bound) by {
            assert(d[i] == results[i]);
        }
        lemma_read_widths_bounds(d, bound);
        assert(results.last() == results[results.len() - 1]);
    }
}

/// The field counts of the sampled records that were read.
fn sample_widths(text: &str, delimiter: u8, limit: usize) -> (r: Vec<usize>)
    ensures
        r@ == csv_sample_widths(text@, delimiter, limit as nat),
        r@.len() <= limit,
        forall|i: int| 0 <= i < r@.len() ==> r@[i] <= text@.len() + 1,
{
    let results = sample_results(text, delimiter, limit);
    let mut widths: Vec<usize> = Vec::new();
    let mut i: usize = 0;
    while i < results.len()
        invariant
            i <= results.len(),
            widths@ == read_widths(results@.take(i as int)),
        decreases results.len() - i,
    {
        assert(results@.take(i + 1).drop_last() =~= results@.take(i as int));
        assert(results@.take(i + 1).last() == results@[i as int]);
        match results[i] {
            Some(w) => widths.push(w),
            None => {},
        }
        i = i + 1;
    }
    assert(results@.take(results.len() as int) =~= results@);
    proof {
        lemma_read_widths_bounds(results@, text@.len() + 1);
    }
    widths
}

/// What `parse_csv_records` returns: the records, or the reader's error
/// message behind `Invalid CSV: `.
pub open spec fn parsed_records(text: Seq<char>, delimiter: u8) -> Result<
    Seq<Seq<Seq<char>>>,
    Seq<char>,
> {
    match csv_parse(text, delimiter) {
        Ok(rows) => Ok(rows),
        Err(message) => Err("Invalid CSV: "@ + message),
    }
}

/// Reads all records of `text`, quoted fields and multi-line cells
/// included, keeping records of uneven length as they are.
pub fn parse_csv_records(text: &str, delimiter: u8) -> (r: Result<Vec<Vec<String>>, String>)
    ensures
        match r {
            Ok(rows) => parsed_records(text@, delimiter) == Ok::<Seq<Seq<Seq<char>>>, Seq<char>>(
                rows.deep_view(),
            ),
            Err(message) => parsed_records(text@, delimiter) == Err::<
                Seq<Seq<Seq<char>>>,
                Seq<char>,
            >(message@),
        },
{
    match read_records(text, delimiter) {
        Ok(rows) => Ok(rows),
        Err(message) => Err(concat("Invalid CSV: ", message.as_str())),
    }
}

// ------------------------------------------------------------------------
// Delimiter scores
// ------------------------------------------------------------------------

/// The greatest width in `w` (0 for none).
pub open spec fn max_width(w: Seq<usize>) -> nat
    decreases w.len(),
{
    if w.len() == 0 {
        0
    } else {
        let a = max_width(w.drop_last());
        if a >= w.last() {
            a
        } else {
            w.last() as nat
        }
    }
}

/// How often `x` occurs in `w`.
pub open spec fn occurrences(w: Seq<usize>, x: usize) -> nat
    decreases w.len(),
{
    if w.len() == 0 {
        0
    } else {
        occurrences(w.drop_last(), x) + if w.last() == x {
            1nat
        } else {
            0nat
        }
    }
}

/// How often the most frequent width among the first `k` entries of `w`
/// occurs in all of `w`.
pub open spec fn mode_count_upto(w: Seq<usize>, k: int) -> nat
    decreases k,
{
    if k <= 0 {
        0
    } else {
        let a = mode_count_upto(w, k - 1);
        let b = occurrences(w, w[k - 1]);
        if a >= b {
            a
        } else {
            b
        }
    }
}

/// How often the most frequent width of `w` occurs.
pub open spec fn mode_count(w: Seq<usize>) -> nat {
    mode_count_upto(w, w.len() as int)
}

/// The score of a candidate delimiter from the field counts of the sampled
/// records: none scores 0; single fields score by record count; otherwise
/// consistency weighs most, then width, then the number of records.
pub open spec fn width_score(w: Seq<usize>) -> int {
    if w.len() == 0 {
        0
    } else if max_width(w) <= 1 {
        w.len() as int
    } else {
        (mode_count(w) * 10_000 + max_width(w) * 100 + w.len()) as int
    }
}

/// The number of records sampled to score a delimiter.
pub open spec fn sample_limit() -> nat {
    30
}

/// The score of `delimiter` for `text`.
pub open spec fn spec_delimiter_score(text: Seq<char>, delimiter: u8) -> int {
    width_score(csv_sample_widths(text, delimiter, sample_limit()))
}

/// The longest text, in characters, whose scores are computed: beyond it
/// the weighted width could leave the range of `i64`.
pub open spec fn max_scored_len() -> nat {
    90_000_000_000_000_000
}

/// The longest text, in characters, whose delimiter scores are computed.
pub fn max_scored_text_len() -> (r: u64)
    ensures
        r == max_scored_len(),
{
    90_000_000_000_000_000
}

proof fn lemma_max_width_bound(w: Seq<usize>, bound: nat)
    requires
        forall|i: int| 0 <= i < w.len() ==> w[i] <= bound,
    ensures
        max_width(w) <= bound,
    decreases w.len(),
{
    if w.len() > 0 {
        lemma_max_width_bound(w.drop_last(), bound);
    }
}

proof fn lemma_occurrences_bound(w: Seq<usize>, x: usize)
    ensures
        occurrences(w, x) <= w.len(),
    decreases w.len(),
{
    if w.len() > 0 {
        lemma_occurrences_bound(w.drop_last(), x);
    }
}

proof fn lemma_mode_bound(w: Seq<usize>, k: int)
    requires
        k <= w.len(),
    ensures
        mode_count_upto(w, k) <= w.len(),
    decreases k,
{
    if k > 0 {
        lemma_mode_bound(w, k - 1);
        lemma_occurrences_bound(w, w[k - 1]);
    }
}

/// The score of a candidate from the field counts of its sampled records.
pub fn score_widths(widths: &Vec<usize>) -> (r: i64)
    requires
        widths@.len() <= 30,
        forall|i: int| 0 <= i < widths@.len() ==> widths@[i] <= max_scored_len() + 1,
    ensures
        r == width_score(widths@),
{
    let n = widths.len();
    if n == 0 {
        return 0;
    }
    // the widest record
    let mut widest: usize = 0;
    let mut i: usize = 0;
    while i < n
        invariant
            n == widths.len(),
            i <= n,
            widest == max_width(widths@.take(i as int)),
        decreases n - i,
    {
        assert(widths@.take(i + 1).drop_last() =~= widths@.take(i as int));
        if widths[i] > widest {
            widest = widths[i];
        }
        i = i + 1;
    }
    assert(widths@.take(n as int) =~= widths@);
    if widest <= 1 {
        return n as i64;
    }
    // how often the most common width occurs
    let mut consistency: usize = 0;
    let mut k: usize = 0;
    while k < n
        invariant
            n == widths.len(),
            k <= n,
            n <= 30,
            consistency == mode_count_upto(widths@, k as int),
        decreases n - k,
    {
        let x = widths[k];
        let mut count: usize = 0;
        let mut j: usize = 0;
        while j < n
            invariant
                n == widths.len(),
                j <= n,
                n <= 30,
                count == occurrences(widths@.take(j as int), x),
            decreases n - j,
        {
            assert(widths@.take(j + 1).drop_last() =~= widths@.take(j as int));
            proof {
                lemma_occurrences_bound(widths@.take(j as int), x);
            }
            if widths[j] == x {
                count = count + 1;
            }
            j = j + 1;
        }
        assert(widths@.take(n as int) =~= widths@);
        if count > consistency {
            consistency = count;
        }
        k = k + 1;
    }
    proof {
        lemma_mode_bound(widths@, n as int);
        lemma_max_width_bound(widths@, max_scored_len() + 1);
    }
    (consistency as i64) * 10_000 + (widest as i64) * 100 + (n as i64)
}

/// The score of `delimiter` for `text`: how consistently, how widely and how
/// often the candidate splits the first 30 records.
pub fn delimiter_score(text: &str, delimiter: u8) -> (r: i64)
    requires
        text@.len() <= max_scored_len(),
    ensures
        r == spec_delimiter_score(text@, delimiter),
{
    let widths = sample_widths(text, delimiter, 30);
    score_widths(&widths)
}

/// The delimiter chosen from the scores of comma, semicolon and tab, in that
/// order: the highest score wins, and of equal scores the later candidate.
pub open spec fn pick_delimiter(comma: int, semicolon: int, tab: int) -> u8 {
    if tab >= comma && tab >= semicolon {
        9u8
    } else if semicolon >= comma {
        59u8
    } else {
        44u8
    }
}

/// The delimiter detected for `text`.
pub open spec fn detected_delimiter(text: Seq<char>) -> u8 {
    pick_delimiter(
        spec_delimiter_score(text, 44u8),
        spec_delimiter_score(text, 59u8),
        spec_delimiter_score(text, 9u8),
    )
}

/// The detected delimiter is always comma, semicolon or tab.
pub proof fn law_detected_delimiter_is_a_candidate(text: Seq<char>)
    ensures
        detected_delimiter(text) == 44u8 || detected_delimiter(text) == 59u8
            || detected_delimiter(text) == 9u8,
{
}

proof fn lemma_max_width_is_greatest(w: Seq<usize>)
    ensures
        forall|i: int| 0 <= i < w.len() ==> w[i] <= max_width(w),
        w.len() > 0 ==> exists|i: int| 0 <= i < w.len() && w[i] == max_width(w),
    decreases w.len(),
{
    if w.len() > 0 {
        let d = w.drop_last();
        lemma_max_width_is_greatest(d);
        assert forall|i: int| 0 <= i < w.len() implies w[i] <= max_width(w) by {
            if i < d.len() {
                assert(d[i] == w[i]);
            }
        }
        if max_width(d) >= w.last() && d.len() > 0 {
            let i = choose|i: int| 0 <= i < d.len() && d[i] == max_width(d);
            assert(w[i] == d[i]);
        } else {
            assert(w[w.len() - 1] == w.last());
        }
    }
}

proof fn lemma_mode_count_is_greatest(w: Seq<usize>, k: int)
    requires
        0 <= k <= w.len(),
    ensures
        forall|i: int| 0 <= i < k ==> occurrences(w, #[trigger] w[i]) <= mode_count_upto(w, k),
        k > 0 ==> exists|i: int| 0 <= i < k && occurrences(w, w[i]) == mode_count_upto(w, k),
    decreases k,
{
    if k > 0 {
        lemma_mode_count_is_greatest(w, k - 1);
        if mode_count_upto(w, k - 1) >= occurrences(w, w[k - 1]) && k > 1 {
            let i = choose|i: int|
                0 <= i < k - 1 && occurrences(w, w[i]) == mode_count_upto(w, k - 1);
            assert(0 <= i < k && occurrences(w, w[i]) == mode_count_upto(w, k));
        } else {
            assert(occurrences(w, w[k - 1]) == mode_count_upto(w, k));
        }
    }
}

proof fn lemma_score_bounds(w: Seq<usize>)
    requires
        w.len() <= 30,
        forall|i: int| 0 <= i < w.len() ==> w[i] <= 99,
        exists|i: int| 0 <= i < w.len() && w[i] > 1,
    ensures
        mode_count(w) >= 1,
        mode_count(w) * 10_000 + 201 <= width_score(w) <= mode_count(w) * 10_000 + 9_930,
        width_score(w) == mode_count(w) * 10_000 + max_width(w) * 100 + w.len(),
{
    lemma_max_width_is_greatest(w);
    lemma_max_width_bound(w, 99);
    lemma_mode_count_is_greatest(w, w.len() as int);
    let i = choose|i: int| 0 <= i < w.len() && w[i] > 1;
    lemma_occurrences_positive(w, i);
}

proof fn lemma_occurrences_positive(w: Seq<usize>, i: int)
    requires
        0 <= i < w.len(),
    ensures
        occurrences(w, w[i]) >= 1,
    decreases w.len(),
{
    if i < w.len() - 1 {
        let d = w.drop_last();
        assert(d[i] == w[i]);
        lemma_occurrences_positive(d, i);
    }
}

/// Consistency weighs most: of two candidates that split some record into
/// more than one field (records of at most 99 fields, at most 30 of them
/// sampled), the one with a width shared by more records than any width of
/// the other scores higher, however wide or many the other's records are.
pub proof fn law_consistency_weighs_most(a: Seq<usize>, b: Seq<usize>, k: int)
    requires
        a.len() <= 30,
        b.len() <= 30,
        forall|i: int| 0 <= i < a.len() ==> a[i] <= 99,
        forall|i: int| 0 <= i < b.len() ==> b[i] <= 99,
        exists|i: int| 0 <= i < a.len() && a[i] > 1,
        exists|i: int| 0 <= i < b.len() && b[i] > 1,
        0 <= k < a.len(),
        forall|x: usize| occurrences(b, x) < occurrences(a, a[k]),
    ensures
        width_score(a) > width_score(b),
{
    lemma_score_bounds(a);
    lemma_score_bounds(b);
    lemma_mode_count_is_greatest(a, a.len() as int);
    lemma_mode_count_is_greatest(b, b.len() as int);
    let j = choose|j: int| 0 <= j < b.len() && occurrences(b, b[j]) == mode_count_upto(b, b.len() as int);
    assert(occurrences(b, b[j]) < occurrences(a, a[k]));
    assert(occurrences(a, a[k]) <= mode_count(a));
}

/// Among candidates equally consistent, the one whose widest record is
/// wider scores higher; when that ties too, the one with more records.
pub proof fn law_width_then_count_break_ties(a: Seq<usize>, b: Seq<usize>)
    requires
        a.len() <= 30,
        b.len() <= 30,
        forall|i: int| 0 <= i < a.len() ==> a[i] <= 99,
        forall|i: int| 0 <= i < b.len() ==> b[i] <= 99,
        exists|i: int| 0 <= i < a.len() && a[i] > 1,
        exists|i: int| 0 <= i < b.len() && b[i] > 1,
        mode_count(a) == mode_count(b),
    ensures
        max_width(a) > max_width(b) ==> width_score(a) > width_score(b),
        max_width(a) == max_width(b) ==> (width_score(a) > width_score(b) <==> a.len() > b.len()),
{
    lemma_score_bounds(a);
    lemma_score_bounds(b);
}

/// A candidate that splits some record into several fields beats one that
/// leaves every sampled record whole (at most 30 sampled records).
pub proof fn law_splitting_beats_single_fields(a: Seq<usize>, b: Seq<usize>)
    requires
        a.len() <= 30,
        b.len() <= 30,
        forall|i: int| 0 <= i < a.len() ==> a[i] <= 99,
        exists|i: int| 0 <= i < a.len() && a[i] > 1,
        forall|i: int| 0 <= i < b.len() ==> b[i] <= 1,
    ensures
        width_score(a) > width_score(b),
        width_score(b) == b.len(),
{
    lemma_score_bounds(a);
    lemma_max_width_bound(b, 1);
}

/// The detected delimiter scores at least as high as each candidate.
pub proof fn law_detected_delimiter_scores_highest(text: Seq<char>)
    ensures
        spec_delimiter_score(text, detected_delimiter(text)) >= spec_delimiter_score(text, 44u8),
        spec_delimiter_score(text, detected_delimiter(text)) >= spec_delimiter_score(text, 59u8),
        spec_delimiter_score(text, detected_delimiter(text)) >= spec_delimiter_score(text, 9u8),
{
}

/// Chooses among comma, semicolon and tab the delimiter that best splits
/// the first records of `text`.
pub fn detect_delimiter(text: &str) -> (r: u8)
    requires
        text@.len() <= max_scored_len(),
    ensures
        r == detected_delimiter(text@),
{
    // comma, semicolon, tab
    let candidates: [u8; 3] = [44u8, 59u8, 9u8];
    let mut best: u8 = candidates[0];
    let mut best_score: i64 = delimiter_score(text, best);
    let mut i: usize = 1;
    while i < 3
        invariant
            1 <= i <= 3,
            text@.len() <= max_scored_len(),
            candidates@ == seq![44u8, 59u8, 9u8],
            best_score == spec_delimiter_score(text@, best),
            i == 1 ==> best == 44u8,
            i == 2 ==> best == if spec_delimiter_score(text@, 59u8) >= spec_delimiter_score(
                text@,
                44u8,
            ) {
                59u8
            } else {
                44u8
            },
            i == 3 ==> best == detected_delimiter(text@),
        decreases 3 - i,
    {
        let candidate = candidates[i];
        let score = delimiter_score(text, candidate);
        if score >= best_score {
            best = candidate;
            best_score = score;
        }
        i = i + 1;
    }
    best
}

} // verus!
