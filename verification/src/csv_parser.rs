//! CSV parser — tokenizes with the `csv` crate and streams the records into
//! per-column accumulators, never storing raw values.
use vstd::prelude::*;
use vstd::string::StringExecFns;
use vstd::string::StrSliceExecFns;
use crate::stats::{
    bounds_sound, cell_number, column_name, column_name_of, finish_all, finished_as, greatest_of,
    initial_stats, least_of, lemma_observe_cell_extremes, lemma_observe_cell_sound, push_number,
    NumberView,
    observe_cell, with_null, ColumnAccumulator, ColumnStats,
};
use crate::hll::{empty_registers, sketch_insert, sketch_insert_all};
use crate::security::{column_sound, lemma_first_unsound, output_check};
use crate::text::{
    all_space, chars_of, contains_text, find_text, is_white_space, lemma_text_lines_append,
    lemma_text_lines_single, lemma_text_lines_terminated, push_char, push_range, strip_cr, text_lines,
    trim_bounds, white_space,
};
use crate::{ColumnMeta, SchemaError, SchemaOutput, MAX_CELL_BYTES, MAX_COLS, MAX_ROWS};

verus! {

/// Lines joined with `\n` between them.
pub open spec fn join_lines(ls: Seq<Seq<char>>) -> Seq<char>
    decreases ls.len(),
{
    if ls.len() == 0 {
        Seq::empty()
    } else if ls.len() == 1 {
        ls[0]
    } else {
        join_lines(ls.drop_last()) + seq!['\n'] + ls.last()
    }
}

/// A blank line becomes an empty quoted field, so that the CSV tokenizer,
/// which drops blank lines, keeps it as a row.
pub open spec fn patch_line(l: Seq<char>) -> Seq<char> {
    if all_space(l) {
        seq!['"', '"']
    } else {
        l
    }
}

/// The text handed to the tokenizer: when the input holds a blank line
/// (`\n\n` or `\r\n\r\n`), its lines with blank ones patched, joined by `\n`.
pub open spec fn csv_text(s: Seq<char>) -> Seq<char> {
    if contains_text(s, seq!['\n', '\n']) || contains_text(s, seq!['\r', '\n', '\r', '\n']) {
        join_lines(text_lines(s).map_values(|l: Seq<char>| patch_line(l)))
    } else {
        s
    }
}

/// Whether the characters in `[from, to)` are all white space.
fn all_white(s: &[char], from: usize, to: usize) -> (r: bool)
    requires
        from <= to <= s@.len(),
    ensures
        r == all_space(s@.subrange(from as int, to as int)),
{
    let mut i = from;
    while i < to
        invariant
            from <= i <= to <= s@.len(),
            forall|j: int| from <= j < i ==> is_white_space(#[trigger] s@[j]),
        decreases to - i,
    {
        if !white_space(s[i]) {
            proof {
                assert(s@.subrange(from as int, to as int)[i - from] == s@[i as int]);
            }
            return false;
        }
        i = i + 1;
    }
    proof {
        assert forall|j: int| 0 <= j < to - from implies is_white_space(
            #[trigger] s@.subrange(from as int, to as int)[j],
        ) by {
            assert(s@.subrange(from as int, to as int)[j] == s@[j + from]);
        }
    }
    true
}

/// Append the next line `[from, to)` of `s`, patched, to the joined lines in `out`.
fn emit_line(out: &mut String, first: bool, s: &[char], from: usize, to: usize)
    requires
        from <= to <= s@.len(),
    ensures
        first ==> final(out)@ == old(out)@ + patch_line(s@.subrange(from as int, to as int)),
        !first ==> final(out)@ == old(out)@ + seq!['\n'] + patch_line(
            s@.subrange(from as int, to as int),
        ),
{
    let ghost start = out@;
    if !first {
        push_char(out, '\n');
    }
    let ghost mid = out@;
    if all_white(s, from, to) {
        push_char(out, '"');
        push_char(out, '"');
        assert(out@ =~= mid + seq!['"', '"']);
    } else {
        push_range(out, s, from, to);
    }
    proof {
        if first {
            assert(mid == start);
        }
    }
}


proof fn lemma_join_push(xs: Seq<Seq<char>>, y: Seq<char>)
    ensures
        join_lines(xs.push(y)) == (if xs.len() == 0 {
            y
        } else {
            join_lines(xs) + seq!['\n'] + y
        }),
{
    assert(xs.push(y).drop_last() =~= xs);
}

/// The lines of `s` with blank ones patched, joined by `\n`.
pub fn patch_blank_lines(s: &[char]) -> (out: String)
    ensures
        out@ == join_lines(text_lines(s@).map_values(|l: Seq<char>| patch_line(l))),
{
    let n = s.len();
    let mut out = String::new();
    let mut start: usize = 0;
    let mut i: usize = 0;
    let mut first = true;
    assert(s@.take(0) =~= Seq::<char>::empty());
    assert(text_lines(Seq::<char>::empty()) =~= Seq::<Seq<char>>::empty());
    while i < n
        invariant
            start <= i <= n == s@.len(),
            start == 0 || s@[start - 1] == '\n',
            forall|k: int| start <= k < i ==> #[trigger] s@[k] != '\n',
            out@ == join_lines(
                text_lines(s@.take(start as int)).map_values(|l: Seq<char>| patch_line(l)),
            ),
            first == (text_lines(s@.take(start as int)).len() == 0),
        decreases n - i,
    {
        if s[i] == '\n' {
            let end = if i > start && s[i - 1] == '\r' {
                i - 1
            } else {
                i
            };
            let ghost prefix = s@.take(start as int);
            let ghost seg = s@.subrange(start as int, i as int);
            let ghost before = text_lines(prefix);
            proof {
                assert forall|k: int| 0 <= k < seg.len() implies #[trigger] seg[k] != '\n' by {
                    assert(seg[k] == s@[start + k]);
                }
                lemma_text_lines_terminated(seg);
                assert(s@.take(i + 1) =~= prefix + seg.push('\n'));
                if start > 0 {
                    assert(prefix.last() == '\n');
                    lemma_text_lines_append(prefix, seg.push('\n'));
                } else {
                    assert(prefix + seg.push('\n') =~= seg.push('\n'));
                    assert(before =~= Seq::<Seq<char>>::empty());
                }
                assert(text_lines(s@.take(i + 1)) =~= before.push(strip_cr(seg)));
                assert(strip_cr(seg) =~= s@.subrange(start as int, end as int));
                assert(before.push(strip_cr(seg)).map_values(|l: Seq<char>| patch_line(l))
                    =~= before.map_values(|l: Seq<char>| patch_line(l)).push(
                    patch_line(strip_cr(seg)),
                ));
                lemma_join_push(
                    before.map_values(|l: Seq<char>| patch_line(l)),
                    patch_line(strip_cr(seg)),
                );
            }
            emit_line(&mut out, first, s, start, end);
            first = false;
            start = i + 1;
        }
        i = i + 1;
    }
    if start < n {
        let ghost prefix = s@.take(start as int);
        let ghost rest = s@.skip(start as int);
        let ghost before = text_lines(prefix);
        proof {
            assert forall|k: int| 0 <= k < rest.len() implies #[trigger] rest[k] != '\n' by {
                assert(rest[k] == s@[start + k]);
            }
            lemma_text_lines_single(rest);
            assert(s@ =~= prefix + rest);
            if start > 0 {
                assert(prefix.last() == '\n');
                lemma_text_lines_append(prefix, rest);
            } else {
                assert(prefix + rest =~= rest);
                assert(before =~= Seq::<Seq<char>>::empty());
            }
            assert(text_lines(s@) =~= before.push(rest));
            assert(rest =~= s@.subrange(start as int, n as int));
            assert(before.push(rest).map_values(|l: Seq<char>| patch_line(l)) =~= before.map_values(
                |l: Seq<char>| patch_line(l),
            ).push(patch_line(rest)));
            lemma_join_push(before.map_values(|l: Seq<char>| patch_line(l)), patch_line(rest));
        }
        emit_line(&mut out, first, s, start, n);
    } else {
        assert(s@.take(start as int) =~= s@);
    }
    out
}

/// The text handed to the tokenizer (see `csv_text`).
pub fn csv_input(input: &str, s: &[char]) -> (out: String)
    requires
        s@ == input@,
    ensures
        out@ == csv_text(input@),
{
    let nn = ['\n', '\n'];
    let crlf2 = ['\r', '\n', '\r', '\n'];
    assert(nn@ =~= seq!['\n', '\n']);
    assert(crlf2@ =~= seq!['\r', '\n', '\r', '\n']);
    if find_text(s, nn.as_slice()) || find_text(s, crlf2.as_slice()) {
        patch_blank_lines(s)
    } else {
        String::from_str(input)
    }
}


// ---------------------------------------------------------------------------
// The tokenizer: the `csv` crate's reader, flexible (rows may differ in
// length) and trimming the white space around every field.
// ---------------------------------------------------------------------------

#[verifier::external_type_specification]
#[verifier::external_body]
#[verifier::reject_recursive_types(R)]
pub struct ExCsvReader<R>(csv::Reader<R>);

/// One record as the tokenizer yields it: its fields, or the line at which
/// reading it failed, when the error knows it.
pub type CsvRecord = Result<Seq<Seq<char>>, Option<u64>>;

/// The records of `text` as the `csv` crate's reader (flexible, all fields
/// trimmed) reads them, in order: the header row, as `headers` gives it,
/// first, then each record `records()` yields.
pub uninterp spec fn csv_records(text: Seq<char>) -> Seq<CsvRecord>;

/// The records a reader's `records()` has still to yield. The header row
/// is never among them: a reader built with headers on (the default) reads
/// it first and keeps it apart.
pub uninterp spec fn csv_pending(reader: csv::Reader<&[u8]>) -> Seq<CsvRecord>;

/// The header row a reader gives (`csv::Reader::headers`), read once and
/// kept.
pub uninterp spec fn csv_header(reader: csv::Reader<&[u8]>) -> CsvRecord;

/// A record as the wrappers hand it out, by its view.
pub open spec fn record_view(r: Result<Vec<String>, Option<u64>>) -> CsvRecord {
    match r {
        Ok(v) => Ok(v.deep_view()),
        Err(l) => Err(l),
    }
}

/// A reader over `text` (`csv::ReaderBuilder` with `flexible(true)` and
/// `trim(Trim::All)`, headers on): its header row is the first of `text`'s
/// records (an empty row when there are none), and its `records()` yield the
/// others.
#[verifier::external_body]
fn csv_open<'a>(text: &'a str) -> (r: csv::Reader<&'a [u8]>)
    ensures
        csv_header(r) == header_record(csv_records(text@)),
        csv_pending(r) == data_records(csv_records(text@)),
{
    csv::ReaderBuilder::new().flexible(true).trim(csv::Trim::All).from_reader(text.as_bytes())
}

/// The header row (`csv::Reader::headers`). The reader reads it at the first
/// call and gives the same row at every call; the records still to come are
/// not touched.
#[verifier::external_body]
fn csv_headers(reader: &mut csv::Reader<&[u8]>) -> (r: Result<Vec<String>, Option<u64>>)
    ensures
        record_view(r) == csv_header(*old(reader)),
        csv_header(*final(reader)) == csv_header(*old(reader)),
        csv_pending(*final(reader)) == csv_pending(*old(reader)),
{
    match reader.headers() {
        Ok(h) => Ok(h.iter().map(String::from).collect()),
        Err(e) => Err(
            match e.position() {
                Some(p) => Some(p.line()),
                None => None,
            },
        ),
    }
}

/// The next record (`csv::Reader::records`, one step): none when the reader
/// has nothing left.
#[verifier::external_body]
fn csv_next_record(reader: &mut csv::Reader<&[u8]>) -> (r: Option<Result<Vec<String>, Option<u64>>>)
    ensures
        (r is None) == (csv_pending(*old(reader)).len() == 0),
        r matches Some(x) ==> record_view(x) == csv_pending(*old(reader))[0],
        (r matches Some(x) && x is Ok) ==> csv_pending(*final(reader)) == csv_pending(
            *old(reader),
        ).drop_first(),
        csv_header(*final(reader)) == csv_header(*old(reader)),
{
    match reader.records().next() {
        None => None,
        Some(Ok(rec)) => Some(Ok(rec.iter().map(String::from).collect())),
        Some(Err(e)) => Some(
            Err(
                match e.position() {
                    Some(p) => Some(p.line()),
                    None => None,
                },
            ),
        ),
    }
}


// ---------------------------------------------------------------------------
// From records to a schema
// ---------------------------------------------------------------------------

/// The header row: the first record, or an empty row when there is none.
pub open spec fn header_record(recs: Seq<CsvRecord>) -> CsvRecord {
    if recs.len() == 0 {
        Ok(Seq::empty())
    } else {
        recs[0]
    }
}

/// The records after the header.
pub open spec fn data_records(recs: Seq<CsvRecord>) -> Seq<CsvRecord> {
    if recs.len() == 0 {
        Seq::empty()
    } else {
        recs.drop_first()
    }
}

/// Index of the first failed record (the count when none failed).
pub open spec fn first_failure(items: Seq<CsvRecord>) -> nat
    decreases items.len(),
{
    if items.len() == 0 {
        0
    } else if items[0] is Err {
        0
    } else {
        1 + first_failure(items.drop_first())
    }
}

/// The fields of each record (a failed one has none).
pub open spec fn record_rows(items: Seq<CsvRecord>) -> Seq<Seq<Seq<char>>> {
    items.map_values(
        |r: CsvRecord|
            match r {
                Ok(v) => v,
                Err(_) => Seq::empty(),
            },
    )
}

/// The line of a failure, or `fallback` when the error does not know it.
pub open spec fn line_or(l: Option<u64>, fallback: int) -> usize {
    match l {
        Some(x) => x as usize,
        None => fallback as usize,
    }
}

/// Column `j` after one more row: its cell observed, or a null when the row
/// is too short to have one.
pub open spec fn column_step(st: ColumnStats, row: Seq<Seq<char>>, j: int) -> ColumnStats {
    if j < row.len() {
        observe_cell(st, row[j])
    } else {
        with_null(st)
    }
}

/// Column `j` over `rows`.
pub open spec fn column_stats(rows: Seq<Seq<Seq<char>>>, j: int) -> ColumnStats
    decreases rows.len(),
{
    if rows.len() == 0 {
        initial_stats()
    } else {
        column_step(column_stats(rows.drop_last(), j), rows.last(), j)
    }
}

/// What the header record gives: the column names, or the error (a failed
/// record, no fields, more than `MAX_COLS`).
pub open spec fn header_outcome(hr: CsvRecord) -> Result<Seq<Seq<char>>, SchemaError> {
    match hr {
        Err(l) => Err(SchemaError::CsvParseFailed { row: line_or(l, 0), column: None }),
        Ok(h) => if h.len() == 0 {
            Err(SchemaError::EmptyInput)
        } else if h.len() > MAX_COLS {
            Err(SchemaError::TooManyColumns { limit: MAX_COLS, actual: h.len() as usize })
        } else {
            Ok(h)
        },
    }
}

/// What the data records give after the header `h`: the rows taken (at most
/// `MAX_ROWS`) and whether records were left over, or the first failed
/// record among those taken (by its line, else its index), or no rows.
pub open spec fn records_outcome(h: Seq<Seq<char>>, items: Seq<CsvRecord>) -> Result<
    (Seq<Seq<char>>, Seq<Seq<Seq<char>>>, bool),
    SchemaError,
> {
    let k = if items.len() > MAX_ROWS {
        MAX_ROWS as int
    } else {
        items.len() as int
    };
    let e = first_failure(items) as int;
    if e < k {
        Err(
            SchemaError::CsvParseFailed {
                row: line_or(
                    match items[e] {
                        Err(l) => l,
                        Ok(_) => None,
                    },
                    e,
                ),
                column: None,
            },
        )
    } else if k == 0 {
        Err(SchemaError::EmptyInput)
    } else {
        Ok((h, record_rows(items.take(k)), items.len() > MAX_ROWS))
    }
}

/// What a CSV input gives: an error, or its header fields, the rows taken
/// (at most `MAX_ROWS`) and whether rows were left over.
pub open spec fn csv_outcome(input: Seq<char>) -> Result<
    (Seq<Seq<char>>, Seq<Seq<Seq<char>>>, bool),
    SchemaError,
> {
    if all_space(input) {
        Err(SchemaError::EmptyInput)
    } else {
        let recs = csv_records(csv_text(input));
        match header_outcome(header_record(recs)) {
            Err(e) => Err(e),
            Ok(h) => records_outcome(h, data_records(recs)),
        }
    }
}

/// `out` is the schema of a CSV with header `h` over `rows`.
pub open spec fn csv_schema_is(
    out: SchemaOutput,
    h: Seq<Seq<char>>,
    rows: Seq<Seq<Seq<char>>>,
    truncated: bool,
) -> bool {
    &&& out.row_count == rows.len()
    &&& out.truncated == truncated
    &&& out.detected_format@ == seq!['c', 's', 'v']
    &&& out.schemasniff_version@ == crate::schemasniff_version()
    &&& out.chunk_count == 1
    &&& out.columns@.len() == h.len()
    &&& forall|j: int|
        0 <= j < h.len() ==> finished_as(
            #[trigger] out.columns@[j],
            column_name(h[j]),
            j as usize,
            column_stats(rows, j),
            rows.len(),
        )
}

proof fn lemma_first_failure(items: Seq<CsvRecord>, k: int)
    requires
        0 <= k <= items.len(),
        forall|i: int| 0 <= i < k ==> #[trigger] items[i] is Ok,
        k == items.len() || items[k] is Err,
    ensures
        first_failure(items) == k,
    decreases k,
{
    if k > 0 {
        lemma_first_failure(items.drop_first(), k - 1);
    }
}

/// The line of a failure, or `fallback` (see `line_or`).
fn line_or_exec(l: Option<u64>, fallback: usize) -> (r: usize)
    ensures
        r == line_or(l, fallback as int),
{
    match l {
        Some(x) => x as usize,
        None => fallback,
    }
}

/// Accumulator `j` of a CSV parse over `rows` with header `h`.
pub open spec fn csv_acc_ok(
    a: ColumnAccumulator,
    h: Seq<Seq<char>>,
    rows: Seq<Seq<Seq<char>>>,
    j: int,
) -> bool {
    &&& a.wf()
    &&& a.name@ == column_name(h[j])
    &&& a.index == j
    &&& a.stats() == column_stats(rows, j)
}

/// Feed one record to every accumulator.
fn observe_record(
    accs: &mut Vec<ColumnAccumulator>,
    record: &Vec<String>,
    Ghost(h): Ghost<Seq<Seq<char>>>,
    Ghost(rows): Ghost<Seq<Seq<Seq<char>>>>,
)
    requires
        old(accs)@.len() == h.len(),
        forall|j: int| 0 <= j < h.len() ==> csv_acc_ok(#[trigger] old(accs)@[j], h, rows, j),
    ensures
        final(accs)@.len() == h.len(),
        forall|j: int|
            0 <= j < h.len() ==> csv_acc_ok(#[trigger] final(accs)@[j], h, rows.push(record.deep_view()), j),
{
    let ghost row = record.deep_view();
    let ghost prev = accs@;
    let n = accs.len();
    let mut c: usize = 0;
    while c < n
        invariant
            c <= n == accs@.len() == h.len() == prev.len(),
            row == record.deep_view(),
            forall|j: int| 0 <= j < h.len() ==> csv_acc_ok(#[trigger] prev[j], h, rows, j),
            forall|j: int|
                0 <= j < c ==> csv_acc_ok(#[trigger] accs@[j], h, rows.push(row), j),
            forall|j: int| c <= j < n ==> #[trigger] accs@[j] == prev[j],
        decreases n - c,
    {
        proof {
            assert(csv_acc_ok(prev[c as int], h, rows, c as int));
            assert(rows.push(row).drop_last() =~= rows);
        }
        if c < record.len() {
            accs[c].observe(record[c].as_str());
        } else {
            accs[c].add_null();
        }
        c = c + 1;
    }
}

/// A CSV schema taking shape one record at a time: the header gives the
/// columns, each data record then a row, until `MAX_ROWS` rows are in.
pub struct CsvSchemaBuilder {
    accs: Vec<ColumnAccumulator>,
    row_count: u64,
    truncated: bool,
    header: Ghost<Seq<Seq<char>>>,
    rows: Ghost<Seq<Seq<Seq<char>>>>,
}

impl CsvSchemaBuilder {
    /// The column names.
    pub closed spec fn header(&self) -> Seq<Seq<char>> {
        self.header@
    }

    /// The rows taken so far.
    pub closed spec fn rows(&self) -> Seq<Seq<Seq<char>>> {
        self.rows@
    }

    /// Whether a record came after the last row there was room for.
    pub closed spec fn truncated(&self) -> bool {
        self.truncated
    }

    /// The columns are those of the header over the rows taken.
    pub closed spec fn wf(&self) -> bool {
        &&& self.accs@.len() == self.header@.len()
        &&& 0 < self.header@.len() <= MAX_COLS
        &&& self.row_count == self.rows@.len() <= MAX_ROWS
        &&& (self.truncated ==> self.row_count == MAX_ROWS)
        &&& forall|j: int|
            0 <= j < self.header@.len() ==> csv_acc_ok(
                #[trigger] self.accs@[j],
                self.header@,
                self.rows@,
                j,
            )
    }

    /// Start from the header record (see `header_outcome`).
    pub fn start(header: Result<Vec<String>, Option<u64>>) -> (r: Result<CsvSchemaBuilder, SchemaError>)
        ensures
            match header_outcome(record_view(header)) {
                Err(e) => r matches Err(x) && x == e,
                Ok(h) => r matches Ok(b) && b.wf() && b.header() == h && b.rows() == Seq::<
                    Seq<Seq<char>>,
                >::empty() && !b.truncated(),
            },
    {
        let header = match header {
            Ok(h) => h,
            Err(l) => {
                return Err(SchemaError::CsvParseFailed { row: line_or_exec(l, 0), column: None });
            },
        };
        let ghost h = header.deep_view();
        let col_count = header.len();
        if col_count == 0 {
            return Err(SchemaError::EmptyInput);
        }
        if col_count > MAX_COLS {
            return Err(SchemaError::TooManyColumns { limit: MAX_COLS, actual: col_count });
        }
        let mut accs: Vec<ColumnAccumulator> = Vec::new();
        let mut i: usize = 0;
        let ghost no_rows: Seq<Seq<Seq<char>>> = Seq::empty();
        while i < col_count
            invariant
                i <= col_count == h.len(),
                h == header.deep_view(),
                accs@.len() == i,
                no_rows == Seq::<Seq<Seq<char>>>::empty(),
                forall|j: int| 0 <= j < i ==> csv_acc_ok(#[trigger] accs@[j], h, no_rows, j),
            decreases col_count - i,
        {
            let acc = ColumnAccumulator::new(column_name_of(&header[i]), i);
            assert(h[i as int] == header@[i as int]@);
            accs.push(acc);
            i = i + 1;
        }
        Ok(
            CsvSchemaBuilder {
                accs,
                row_count: 0,
                truncated: false,
                header: Ghost(h),
                rows: Ghost(no_rows),
            },
        )
    }

    /// Take the next data record. With `MAX_ROWS` rows in already, the
    /// schema is truncated and no more records are wanted (`false`); a
    /// failed record is an error at its line (else its row); any other
    /// becomes a row (`true`).
    pub fn push(&mut self, record: Result<Vec<String>, Option<u64>>) -> (r: Result<bool, SchemaError>)
        requires
            old(self).wf(),
        ensures
            final(self).wf(),
            final(self).header() == old(self).header(),
            old(self).rows().len() == MAX_ROWS ==> {
                &&& r == Ok::<bool, SchemaError>(false)
                &&& final(self).truncated()
                &&& final(self).rows() == old(self).rows()
            },
            old(self).rows().len() < MAX_ROWS ==> match record_view(record) {
                Err(l) => {
                    &&& r == Err::<bool, SchemaError>(
                        SchemaError::CsvParseFailed {
                            row: line_or(l, old(self).rows().len() as int),
                            column: None,
                        },
                    )
                    &&& final(self).rows() == old(self).rows()
                    &&& final(self).truncated() == old(self).truncated()
                },
                Ok(f) => {
                    &&& r == Ok::<bool, SchemaError>(true)
                    &&& final(self).rows() == old(self).rows().push(f)
                    &&& !final(self).truncated()
                },
            },
    {
        if self.row_count as usize >= MAX_ROWS {
            self.truncated = true;
            return Ok(false);
        }
        match record {
            Err(l) => Err(
                SchemaError::CsvParseFailed {
                    row: line_or_exec(l, self.row_count as usize),
                    column: None,
                },
            ),
            Ok(fields) => {
                let ghost rows = self.rows@;
                let ghost h = self.header@;
                observe_record(&mut self.accs, &fields, Ghost(h), Ghost(rows));
                self.rows = Ghost(rows.push(fields.deep_view()));
                self.row_count = self.row_count + 1;
                Ok(true)
            },
        }
    }

    /// The schema of the rows taken: no rows is `EmptyInput`.
    pub fn finish(self) -> (r: Result<SchemaOutput, SchemaError>)
        requires
            self.wf(),
        ensures
            self.rows().len() == 0 ==> r == Err::<SchemaOutput, SchemaError>(SchemaError::EmptyInput),
            self.rows().len() > 0 ==> (r matches Ok(out) && csv_schema_is(
                out,
                self.header(),
                self.rows(),
                self.truncated(),
            )),
    {
        if self.row_count == 0 {
            return Err(SchemaError::EmptyInput);
        }
        let ghost h = self.header@;
        let ghost rows = self.rows@;
        let ghost finals = self.accs@;
        let row_count = self.row_count;
        let columns = finish_all(self.accs, row_count);
        proof {
            assert forall|j: int| 0 <= j < h.len() implies finished_as(
                #[trigger] columns@[j],
                column_name(h[j]),
                j as usize,
                column_stats(rows, j),
                rows.len(),
            ) by {
                assert(csv_acc_ok(finals[j], h, rows, j));
            }
        }
        let f = "csv";
        proof {
            reveal_strlit("csv");
            assert(f@ =~= seq!['c', 's', 'v']);
        }
        Ok(
            SchemaOutput {
                row_count,
                truncated: self.truncated,
                detected_format: String::from_str(f),
                schemasniff_version: crate::version_string(),
                chunk_count: 1,
                columns,
            },
        )
    }
}

/// Parse a CSV string into a `SchemaOutput`.
pub fn parse_csv(input: &str) -> (r: Result<SchemaOutput, SchemaError>)
    ensures
        match csv_outcome(input@) {
            Err(e) => r == Err::<SchemaOutput, SchemaError>(e),
            Ok((h, rows, t)) => r matches Ok(out) && csv_schema_is(out, h, rows, t),
        },
{
    let chars = chars_of(input);
    let (lo, hi) = trim_bounds(chars.as_slice());
    if lo == hi {
        return Err(SchemaError::EmptyInput);
    }
    let text = csv_input(input, chars.as_slice());
    let ghost recs = csv_records(text@);
    let ghost items = data_records(recs);
    let mut reader = csv_open(text.as_str());
    let header = csv_headers(&mut reader);
    assert(record_view(header) == header_record(recs));
    let mut builder = match CsvSchemaBuilder::start(header) {
        Ok(b) => b,
        Err(e) => return Err(e),
    };
    let ghost h = builder.header();
    assert(csv_pending(reader) == items);
    assert(items.take(0) =~= Seq::<CsvRecord>::empty());
    assert(record_rows(items.take(0)) =~= Seq::<Seq<Seq<char>>>::empty());
    assert(items.skip(0) =~= items);
    loop
        invariant_except_break
            csv_pending(reader) == items.skip(builder.rows().len() as int),
            !builder.truncated(),
        invariant
            !all_space(input@),
            recs == csv_records(csv_text(input@)),
            items == data_records(recs),
            header_outcome(header_record(recs)) == Ok::<Seq<Seq<char>>, SchemaError>(h),
            builder.wf(),
            builder.header() == h,
            builder.rows().len() <= items.len(),
            builder.rows() == record_rows(items.take(builder.rows().len() as int)),
            forall|i: int| 0 <= i < builder.rows().len() ==> #[trigger] items[i] is Ok,
        ensures
            builder.truncated() ==> builder.rows().len() == MAX_ROWS && items.len() > MAX_ROWS,
            !builder.truncated() ==> builder.rows().len() == items.len(),
        decreases MAX_ROWS + 1 - builder.rows().len() + (if builder.truncated() { 0int } else { 1int }),
    {
        let ghost n = builder.rows().len() as int;
        match csv_next_record(&mut reader) {
            None => {
                assert(items.skip(n).len() == 0);
                break;
            },
            Some(res) => {
                proof {
                    assert(items[n] == items.skip(n)[0]);
                }
                match builder.push(res) {
                    Err(e) => {
                        proof {
                            lemma_first_failure(items, n);
                        }
                        return Err(e);
                    },
                    Ok(false) => {
                        break;
                    },
                    Ok(true) => {
                        proof {
                            assert(items.take(n + 1) =~= items.take(n).push(items[n]));
                            assert(record_rows(items.take(n + 1)) =~= record_rows(items.take(n)).push(
                                record_view(res)->Ok_0,
                            ));
                            assert(items.skip(n).drop_first() =~= items.skip(n + 1));
                        }
                    },
                }
            },
        }
    }
    proof {
        if !builder.truncated() {
            lemma_first_failure(items, items.len() as int);
        } else {
            lemma_first_failure_at_least(items, MAX_ROWS as int);
        }
    }
    builder.finish()
}

proof fn lemma_first_failure_at_least(items: Seq<CsvRecord>, k: int)
    requires
        0 <= k <= items.len(),
        forall|i: int| 0 <= i < k ==> #[trigger] items[i] is Ok,
    ensures
        first_failure(items) >= k,
    decreases k,
{
    if k > 0 {
        assert(items[0] is Ok);
        assert forall|i: int| 0 <= i < k - 1 implies #[trigger] items.drop_first()[i] is Ok by {
            assert(items.drop_first()[i] == items[i + 1]);
        }
        lemma_first_failure_at_least(items.drop_first(), k - 1);
        assert(first_failure(items) == 1 + first_failure(items.drop_first()));
    }
}

/// Column `j` over CSV rows has sound bounds and no more nulls than rows.
pub proof fn lemma_column_stats_sound(rows: Seq<Seq<Seq<char>>>, j: int)
    ensures
        bounds_sound(column_stats(rows, j)),
        column_stats(rows, j).nulls <= rows.len(),
    decreases rows.len(),
{
    if rows.len() > 0 {
        lemma_column_stats_sound(rows.drop_last(), j);
        let st = column_stats(rows.drop_last(), j);
        if j < rows.last().len() {
            lemma_observe_cell_sound(st, rows.last()[j]);
        }
    }
}

/// Every schema a CSV parse gives passes the output checks: at least one
/// row and at most `MAX_ROWS` (exactly that many when truncated), at most
/// `MAX_COLS` columns, names of at most 256 characters, null counts within
/// the rows, bounds only on numeric columns, finite and in order.
pub proof fn lemma_csv_schema_sound(input: Seq<char>, out: SchemaOutput)
    requires
        csv_outcome(input) matches Ok((h, rows, t)) && csv_schema_is(out, h, rows, t),
    ensures
        output_check(out) is Ok,
        0 < out.row_count <= MAX_ROWS,
        out.truncated ==> out.row_count == MAX_ROWS,
        out.columns@.len() <= MAX_COLS,
{
    if let Ok((h, rows, t)) = csv_outcome(input) {
        let cols = out.columns@;
        assert forall|j: int| 0 <= j < cols.len() implies column_sound(#[trigger] cols[j], out.row_count) by {
            lemma_column_stats_sound(rows, j);
            assert(finished_as(cols[j], column_name(h[j]), j as usize, column_stats(rows, j), rows.len()));
        }
        lemma_first_unsound(cols, out.row_count, cols.len() as int);
    }
}

/// The numbers the cells of column `j` hold, row by row (a short row has no
/// cell there).
pub open spec fn column_numbers(rows: Seq<Seq<Seq<char>>>, j: int) -> Seq<NumberView>
    decreases rows.len(),
{
    if rows.len() == 0 {
        Seq::empty()
    } else {
        push_number(
            column_numbers(rows.drop_last(), j),
            if j < rows.last().len() {
                cell_number(rows.last()[j])
            } else {
                None
            },
        )
    }
}

/// The bounds of a CSV column are the least and the greatest of the numbers
/// its cells hold, and there are none when it holds none.
pub proof fn lemma_csv_column_extremes(rows: Seq<Seq<Seq<char>>>, j: int)
    ensures
        least_of(column_stats(rows, j).min, column_numbers(rows, j)),
        greatest_of(column_stats(rows, j).max, column_numbers(rows, j)),
    decreases rows.len(),
{
    if rows.len() > 0 {
        lemma_csv_column_extremes(rows.drop_last(), j);
        let st = column_stats(rows.drop_last(), j);
        if j < rows.last().len() {
            lemma_observe_cell_extremes(st, column_numbers(rows.drop_last(), j), rows.last()[j]);
        }
    }
}

/// Row `row` has no usable cell in column `j`: it is too short, or the cell
/// is empty, or longer than `MAX_CELL_BYTES` bytes.
pub open spec fn null_cell(row: Seq<Seq<char>>, j: int) -> bool {
    j >= row.len() || row[j].len() == 0 || vstd::utf8::encode_utf8(row[j]).len() > MAX_CELL_BYTES
}

/// How many rows have no usable cell in column `j`.
pub open spec fn null_cells(rows: Seq<Seq<Seq<char>>>, j: int) -> nat
    decreases rows.len(),
{
    if rows.len() == 0 {
        0
    } else {
        null_cells(rows.drop_last(), j) + if null_cell(rows.last(), j) {
            1nat
        } else {
            0nat
        }
    }
}

/// A CSV column's null count, over the at most `MAX_ROWS` rows a parse
/// takes, is the number of rows with no usable cell in it: too short, empty,
/// or oversized.
pub proof fn lemma_csv_null_count(rows: Seq<Seq<Seq<char>>>, j: int)
    requires
        0 <= j,
        rows.len() <= MAX_ROWS,
    ensures
        column_stats(rows, j).nulls == null_cells(rows, j),
    decreases rows.len(),
{
    if rows.len() > 0 {
        lemma_csv_null_count(rows.drop_last(), j);
        lemma_column_stats_sound(rows.drop_last(), j);
    }
}

/// The bytes of the usable cells of column `j`, row by row.
pub open spec fn column_cell_bytes(rows: Seq<Seq<Seq<char>>>, j: int) -> Seq<Seq<u8>>
    decreases rows.len(),
{
    if rows.len() == 0 {
        Seq::empty()
    } else if null_cell(rows.last(), j) {
        column_cell_bytes(rows.drop_last(), j)
    } else {
        column_cell_bytes(rows.drop_last(), j).push(vstd::utf8::encode_utf8(rows.last()[j]))
    }
}

/// Observing a CSV cell puts its bytes into the column's sketch when it is
/// usable (not empty, at most `MAX_CELL_BYTES` bytes), and changes the
/// sketch in no other way.
pub proof fn lemma_observe_cell_sketch(st: ColumnStats, raw: Seq<char>)
    ensures
        observe_cell(st, raw).registers == (if raw.len() > 0 && vstd::utf8::encode_utf8(raw).len()
            <= MAX_CELL_BYTES {
            sketch_insert(st.registers, vstd::utf8::encode_utf8(raw))
        } else {
            st.registers
        }),
{
}

/// The sketch of a CSV column is the sketch of its usable cells, in order:
/// every one of them goes into it, and nothing else. By `lemma_sketch_set`,
/// it then depends only on the set of those cells.
pub proof fn lemma_csv_column_sketch(rows: Seq<Seq<Seq<char>>>, j: int)
    requires
        0 <= j,
    ensures
        column_stats(rows, j).registers == sketch_insert_all(empty_registers(), column_cell_bytes(rows, j)),
    decreases rows.len(),
{
    if rows.len() > 0 {
        lemma_csv_column_sketch(rows.drop_last(), j);
        let st = column_stats(rows.drop_last(), j);
        let prev = column_cell_bytes(rows.drop_last(), j);
        if j < rows.last().len() {
            lemma_observe_cell_sketch(st, rows.last()[j]);
        }
        if !null_cell(rows.last(), j) {
            assert(prev.push(vstd::utf8::encode_utf8(rows.last()[j])).drop_last() =~= prev);
        }
    }
}

} // verus!
