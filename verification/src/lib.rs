//! Zero-backend schema inference for CSV, JSON and NDJSON.
use vstd::prelude::*;
use vstd::string::StringExecFns;

pub mod cell;
pub mod csv_parser;
pub mod hll;
pub mod json_parser;
pub mod number;
pub mod security;
pub mod stats;
pub mod text;

use hll::Hll;
use number::{decimal_text, nat_digits, push_decimal, Decimal};

verus! {

/// Max rows processed; beyond this input is truncated.
pub const MAX_ROWS: usize = 1_000_000;

/// Max columns; exceeding returns `TooManyColumns`.
pub const MAX_COLS: usize = 1_024;

/// Max cell bytes; larger cells are treated as null.
pub const MAX_CELL_BYTES: usize = 65_536;

/// Max JSON nesting depth; deeper input returns `NestingTooDeep`.
pub const MAX_JSON_DEPTH: usize = 32;

/// Inferred column type.
#[derive(Debug, Clone, Copy, PartialEq, Eq, Structural)]
pub enum InferredType {
    /// 64-bit integer.
    Integer,
    /// 64-bit float.
    Float,
    /// Boolean (true/false/yes/no).
    Boolean,
    /// ISO-8601 date or datetime.
    Date,
    /// String or mixed.
    String,
    /// Fewer than 2 non-null values — insufficient for inference.
    Unknown,
}

/// A ratio `numerator / denominator` of counts.
#[derive(Debug, Clone, Copy, PartialEq, Eq, Structural)]
pub struct Ratio {
    pub numerator: u64,
    pub denominator: u64,
}

/// Structured error. Fields contain only counts and positions — never raw input.
#[derive(Debug, Clone, Copy, PartialEq, Eq, Structural)]
pub enum SchemaError {
    /// Input exceeded the 10 MB byte cap.
    InputTooLarge { limit_bytes: usize, actual_bytes: usize },
    /// Column count exceeded MAX_COLS.
    TooManyColumns { limit: usize, actual: usize },
    /// Row count exceeded MAX_ROWS.
    RowLimitReached { limit: usize },
    /// JSON nesting exceeded MAX_JSON_DEPTH.
    NestingTooDeep { limit: usize, detected_at_row: usize },
    /// Invalid encoding or NUL byte.
    EncodingError { byte_offset: Option<usize> },
    /// CSV parse failure (position only).
    CsvParseFailed { row: usize, column: Option<usize> },
    /// JSON parse failure (position only).
    JsonParseFailed { byte_offset: Option<usize> },
    /// Input was empty or whitespace-only.
    EmptyInput,
    /// Format not recognised as CSV, JSON, or NDJSON.
    UnrecognizedFormat,
}

/// The errors that mean a hard security cap was hit.
pub open spec fn security_event(e: SchemaError) -> bool {
    match e {
        SchemaError::InputTooLarge { .. } => true,
        SchemaError::TooManyColumns { .. } => true,
        SchemaError::RowLimitReached { .. } => true,
        SchemaError::NestingTooDeep { .. } => true,
        SchemaError::EncodingError { .. } => true,
        _ => false,
    }
}

/// The message of an error: fixed words and the error's counts and positions
/// in decimal, never any input text.
pub open spec fn error_message(e: SchemaError) -> Seq<char> {
    match e {
        SchemaError::InputTooLarge { limit_bytes, actual_bytes } => "input too large: "@
            + decimal_text(actual_bytes as nat) + " bytes exceeds "@ + decimal_text(
            limit_bytes as nat,
        ) + " byte limit"@,
        SchemaError::TooManyColumns { limit, actual } => "too many columns: "@ + decimal_text(
            actual as nat,
        ) + " exceeds limit of "@ + decimal_text(limit as nat),
        SchemaError::RowLimitReached { limit } => "row limit reached: processing stopped at "@
            + decimal_text(limit as nat) + " rows"@,
        SchemaError::NestingTooDeep { limit, detected_at_row } => "nesting too deep at row "@
            + decimal_text(detected_at_row as nat) + ": limit is "@ + decimal_text(limit as nat)
            + " levels"@,
        SchemaError::EncodingError { byte_offset: Some(pos) } => "encoding error at byte "@
            + decimal_text(pos as nat),
        SchemaError::EncodingError { byte_offset: None } => "encoding error at unknown position"@,
        SchemaError::CsvParseFailed { row, column: Some(col) } => "CSV parse failed at row "@
            + decimal_text(row as nat) + ", column "@ + decimal_text(col as nat),
        SchemaError::CsvParseFailed { row, column: None } => "CSV parse failed at row "@
            + decimal_text(row as nat),
        SchemaError::JsonParseFailed { byte_offset: Some(pos) } => "JSON parse failed at byte "@
            + decimal_text(pos as nat),
        SchemaError::JsonParseFailed { byte_offset: None } =>
            "JSON parse failed at unknown position"@,
        SchemaError::EmptyInput => "input contained no data rows"@,
        SchemaError::UnrecognizedFormat => "format not recognised as CSV, JSON, or NDJSON"@,
    }
}

impl SchemaError {
    /// True for errors that indicate a hard security cap was hit.
    pub fn is_security_event(&self) -> (b: bool)
        ensures
            b == security_event(*self),
    {
        match self {
            SchemaError::InputTooLarge { .. } => true,
            SchemaError::TooManyColumns { .. } => true,
            SchemaError::RowLimitReached { .. } => true,
            SchemaError::NestingTooDeep { .. } => true,
            SchemaError::EncodingError { .. } => true,
            _ => false,
        }
    }

    /// The error as a human-readable message.
    pub fn message(&self) -> (s: String)
        ensures
            s@ == error_message(*self),
    {
        match *self {
            SchemaError::InputTooLarge { limit_bytes, actual_bytes } => {
                let mut s = String::from_str("input too large: ");
                push_decimal(&mut s, actual_bytes as u64);
                s.append(" bytes exceeds ");
                push_decimal(&mut s, limit_bytes as u64);
                s.append(" byte limit");
                s
            },
            SchemaError::TooManyColumns { limit, actual } => {
                let mut s = String::from_str("too many columns: ");
                push_decimal(&mut s, actual as u64);
                s.append(" exceeds limit of ");
                push_decimal(&mut s, limit as u64);
                s
            },
            SchemaError::RowLimitReached { limit } => {
                let mut s = String::from_str("row limit reached: processing stopped at ");
                push_decimal(&mut s, limit as u64);
                s.append(" rows");
                s
            },
            SchemaError::NestingTooDeep { limit, detected_at_row } => {
                let mut s = String::from_str("nesting too deep at row ");
                push_decimal(&mut s, detected_at_row as u64);
                s.append(": limit is ");
                push_decimal(&mut s, limit as u64);
                s.append(" levels");
                s
            },
            SchemaError::EncodingError { byte_offset: Some(pos) } => {
                let mut s = String::from_str("encoding error at byte ");
                push_decimal(&mut s, pos as u64);
                s
            },
            SchemaError::EncodingError { byte_offset: None } => String::from_str(
                "encoding error at unknown position",
            ),
            SchemaError::CsvParseFailed { row, column: Some(col) } => {
                let mut s = String::from_str("CSV parse failed at row ");
                push_decimal(&mut s, row as u64);
                s.append(", column ");
                push_decimal(&mut s, col as u64);
                s
            },
            SchemaError::CsvParseFailed { row, column: None } => {
                let mut s = String::from_str("CSV parse failed at row ");
                push_decimal(&mut s, row as u64);
                s
            },
            SchemaError::JsonParseFailed { byte_offset: Some(pos) } => {
                let mut s = String::from_str("JSON parse failed at byte ");
                push_decimal(&mut s, pos as u64);
                s
            },
            SchemaError::JsonParseFailed { byte_offset: None } => String::from_str(
                "JSON parse failed at unknown position",
            ),
            SchemaError::EmptyInput => String::from_str("input contained no data rows"),
            SchemaError::UnrecognizedFormat => String::from_str(
                "format not recognised as CSV, JSON, or NDJSON",
            ),
        }
    }
}

/// Fixed texts with numbers in decimal between them: the first text, then
/// each number followed by the next text.
pub open spec fn fill(parts: Seq<Seq<char>>, nums: Seq<nat>) -> Seq<char>
    decreases nums.len(),
{
    if parts.len() == 0 {
        Seq::empty()
    } else if nums.len() == 0 {
        parts[0]
    } else {
        fill(parts.drop_last(), nums.drop_last()) + decimal_text(nums.last()) + parts.last()
    }
}

/// The fixed texts of an error's message; they depend on its variant and on
/// which of its optional positions are there, never on their values.
pub open spec fn message_parts(e: SchemaError) -> Seq<Seq<char>> {
    match e {
        SchemaError::InputTooLarge { .. } => seq![
            "input too large: "@,
            " bytes exceeds "@,
            " byte limit"@,
        ],
        SchemaError::TooManyColumns { .. } => seq![
            "too many columns: "@,
            " exceeds limit of "@,
            Seq::empty(),
        ],
        SchemaError::RowLimitReached { .. } => seq![
            "row limit reached: processing stopped at "@,
            " rows"@,
        ],
        SchemaError::NestingTooDeep { .. } => seq![
            "nesting too deep at row "@,
            ": limit is "@,
            " levels"@,
        ],
        SchemaError::EncodingError { byte_offset: Some(_) } => seq![
            "encoding error at byte "@,
            Seq::empty(),
        ],
        SchemaError::EncodingError { byte_offset: None } => seq!["encoding error at unknown position"@],
        SchemaError::CsvParseFailed { column: Some(_), .. } => seq![
            "CSV parse failed at row "@,
            ", column "@,
            Seq::empty(),
        ],
        SchemaError::CsvParseFailed { column: None, .. } => seq![
            "CSV parse failed at row "@,
            Seq::empty(),
        ],
        SchemaError::JsonParseFailed { byte_offset: Some(_) } => seq![
            "JSON parse failed at byte "@,
            Seq::empty(),
        ],
        SchemaError::JsonParseFailed { byte_offset: None } => seq![
            "JSON parse failed at unknown position"@,
        ],
        SchemaError::EmptyInput => seq!["input contained no data rows"@],
        SchemaError::UnrecognizedFormat => seq!["format not recognised as CSV, JSON, or NDJSON"@],
    }
}

/// The numbers an error's message shows, in order.
pub open spec fn message_numbers(e: SchemaError) -> Seq<nat> {
    match e {
        SchemaError::InputTooLarge { limit_bytes, actual_bytes } => seq![
            actual_bytes as nat,
            limit_bytes as nat,
        ],
        SchemaError::TooManyColumns { limit, actual } => seq![actual as nat, limit as nat],
        SchemaError::RowLimitReached { limit } => seq![limit as nat],
        SchemaError::NestingTooDeep { limit, detected_at_row } => seq![
            detected_at_row as nat,
            limit as nat,
        ],
        SchemaError::EncodingError { byte_offset: Some(pos) } => seq![pos as nat],
        SchemaError::CsvParseFailed { row, column: Some(col) } => seq![row as nat, col as nat],
        SchemaError::CsvParseFailed { row, column: None } => seq![row as nat],
        SchemaError::JsonParseFailed { byte_offset: Some(pos) } => seq![pos as nat],
        _ => Seq::empty(),
    }
}

/// An error with every number in it set to zero: its variant, and which of
/// its optional positions are there.
pub open spec fn error_shape(e: SchemaError) -> SchemaError {
    match e {
        SchemaError::InputTooLarge { .. } => SchemaError::InputTooLarge { limit_bytes: 0, actual_bytes: 0 },
        SchemaError::TooManyColumns { .. } => SchemaError::TooManyColumns { limit: 0, actual: 0 },
        SchemaError::RowLimitReached { .. } => SchemaError::RowLimitReached { limit: 0 },
        SchemaError::NestingTooDeep { .. } => SchemaError::NestingTooDeep { limit: 0, detected_at_row: 0 },
        SchemaError::EncodingError { byte_offset } => SchemaError::EncodingError {
            byte_offset: if byte_offset is Some { Some(0) } else { None },
        },
        SchemaError::CsvParseFailed { column, .. } => SchemaError::CsvParseFailed {
            row: 0,
            column: if column is Some { Some(0) } else { None },
        },
        SchemaError::JsonParseFailed { byte_offset } => SchemaError::JsonParseFailed {
            byte_offset: if byte_offset is Some { Some(0) } else { None },
        },
        SchemaError::EmptyInput => SchemaError::EmptyInput,
        SchemaError::UnrecognizedFormat => SchemaError::UnrecognizedFormat,
    }
}

/// Every character is ASCII.
pub open spec fn ascii_text(s: Seq<char>) -> bool {
    forall|k: int| 0 <= k < s.len() ==> (#[trigger] s[k]) as u32 <= 127
}

/// Every character is a decimal digit.
pub open spec fn digit_text(s: Seq<char>) -> bool {
    forall|k: int| 0 <= k < s.len() ==> '0' <= #[trigger] s[k] <= '9'
}

/// The digit values of a number are below ten.
proof fn lemma_nat_digits_small(n: nat)
    ensures
        forall|k: int| 0 <= k < nat_digits(n).len() ==> #[trigger] nat_digits(n)[k] < 10,
    decreases n,
{
    if n > 0 {
        lemma_nat_digits_small(n / 10);
        let d = nat_digits(n / 10);
        assert forall|k: int| 0 <= k < nat_digits(n).len() implies #[trigger] nat_digits(n)[k] < 10 by {
            if k < d.len() {
                assert(nat_digits(n)[k] == d[k]);
            }
        }
    }
}

/// A number in decimal is nothing but digits.
pub proof fn lemma_decimal_text_digits(n: nat)
    ensures
        digit_text(decimal_text(n)),
        decimal_text(n).len() > 0,
{
    if n > 0 {
        lemma_nat_digits_small(n);
        assert(nat_digits(n) == nat_digits(n / 10).push((n % 10) as u8));
    }
}

/// An error's message is its fixed ASCII texts with its numbers in decimal
/// between them, one number fewer than texts.
pub proof fn lemma_message_template(e: SchemaError)
    ensures
        error_message(e) == fill(message_parts(e), message_numbers(e)),
        message_parts(e).len() == message_numbers(e).len() + 1,
        forall|k: int| 0 <= k < message_parts(e).len() ==> ascii_text(#[trigger] message_parts(e)[k]),
        forall|k: int|
            0 <= k < message_numbers(e).len() ==> digit_text(decimal_text(#[trigger] message_numbers(e)[k])),
{
    reveal_strlit("input too large: ");
    reveal_strlit(" bytes exceeds ");
    reveal_strlit(" byte limit");
    reveal_strlit("too many columns: ");
    reveal_strlit(" exceeds limit of ");
    reveal_strlit("row limit reached: processing stopped at ");
    reveal_strlit(" rows");
    reveal_strlit("nesting too deep at row ");
    reveal_strlit(": limit is ");
    reveal_strlit(" levels");
    reveal_strlit("encoding error at byte ");
    reveal_strlit("encoding error at unknown position");
    reveal_strlit("CSV parse failed at row ");
    reveal_strlit(", column ");
    reveal_strlit("JSON parse failed at byte ");
    reveal_strlit("JSON parse failed at unknown position");
    reveal_strlit("input contained no data rows");
    reveal_strlit("format not recognised as CSV, JSON, or NDJSON");
    let parts = message_parts(e);
    let nums = message_numbers(e);
    assert forall|k: int| 0 <= k < nums.len() implies digit_text(decimal_text(#[trigger] nums[k])) by {
        lemma_decimal_text_digits(nums[k]);
    }
    reveal_with_fuel(fill, 3);
    assert(parts.len() == nums.len() + 1);
    if nums.len() == 2 {
        assert(parts.drop_last().drop_last() =~= seq![parts[0]]);
        assert(nums.drop_last().drop_last() =~= Seq::<nat>::empty());
        assert(parts.drop_last().last() == parts[1]);
        assert(nums.drop_last().last() == nums[0]);
    } else if nums.len() == 1 {
        assert(parts.drop_last() =~= seq![parts[0]]);
        assert(nums.drop_last() =~= Seq::<nat>::empty());
    }
    assert(error_message(e) =~= fill(parts, nums));
}

/// Two errors of one variant, with the same optional positions present,
/// have messages that differ only in the decimal numbers: the same fixed
/// texts, the same count of numbers, each number in the same place.
pub proof fn lemma_messages_differ_in_numbers(e1: SchemaError, e2: SchemaError)
    requires
        error_shape(e1) == error_shape(e2),
    ensures
        message_parts(e1) == message_parts(e2),
        message_numbers(e1).len() == message_numbers(e2).len(),
        error_message(e1) == fill(message_parts(e1), message_numbers(e1)),
        error_message(e2) == fill(message_parts(e1), message_numbers(e2)),
{
    lemma_message_template(e1);
    lemma_message_template(e2);
}

/// Per-column statistics. Never contains raw cell values.
#[derive(Debug)]
pub struct ColumnMeta {
    /// Column name, truncated to 256 chars.
    pub name: String,
    /// Zero-based column index.
    pub index: usize,
    /// Dominant inferred type.
    pub inferred_type: InferredType,
    /// True if any null/empty/missing values were found.
    pub nullable: bool,
    /// Count of null/empty/missing cells.
    pub null_count: u64,
    /// Share of null cells among the rows.
    pub null_ratio: Ratio,
    /// Min numeric value (Integer/Float only), exact.
    pub numeric_min: Option<Decimal>,
    /// Max numeric value (Integer/Float only), exact.
    pub numeric_max: Option<Decimal>,
    /// Sketch of the distinct values, for the cardinality estimate.
    pub cardinality: Hll,
}

/// Schema inference result. Never contains raw cell data.
#[derive(Debug)]
pub struct SchemaOutput {
    /// Rows processed (may be less than total if truncated).
    pub row_count: u64,
    /// True if input exceeded MAX_ROWS.
    pub truncated: bool,
    /// Detected format: "csv", "json", or "ndjson".
    pub detected_format: String,
    /// Library version.
    pub schemasniff_version: String,
    /// Always 1 — chunking is done by the caller.
    pub chunk_count: u64,
    /// Columns in source order.
    pub columns: Vec<ColumnMeta>,
}

/// Library version stamped into every schema.
pub const SCHEMASNIFF_VERSION: &'static str = "0.1.0";

/// Internal arithmetic helper.
pub fn add(left: u64, right: u64) -> (sum: u64)
    requires
        left + right <= u64::MAX,
    ensures
        sum == left + right,
{
    left + right
}

/// The library version as text.
pub open spec fn schemasniff_version() -> Seq<char> {
    seq!['0', '.', '1', '.', '0']
}

/// The library version, as stamped into a schema.
pub fn version_string() -> (s: String)
    ensures
        s@ == schemasniff_version(),
{
    let v = "0.1.0";
    proof {
        reveal_strlit("0.1.0");
        assert(v@ =~= schemasniff_version());
    }
    String::from_str(v)
}

/// The byte cap the testable core applies.
pub const JS_BYTE_CAP: usize = 10 * 1024 * 1024;

/// The placeholder schema of the testable core: no rows, format `stub`, one
/// string column `example_column`.
pub open spec fn stub_schema_is(out: SchemaOutput) -> bool {
    &&& out.row_count == 0
    &&& !out.truncated
    &&& out.detected_format@ == seq!['s', 't', 'u', 'b']
    &&& out.schemasniff_version@ == schemasniff_version()
    &&& out.chunk_count == 1
    &&& out.columns@.len() == 1
    &&& out.columns@[0].name@ == seq![
        'e', 'x', 'a', 'm', 'p', 'l', 'e', '_', 'c', 'o', 'l', 'u', 'm', 'n',
    ]
    &&& out.columns@[0].index == 0
    &&& out.columns@[0].inferred_type == InferredType::String
    &&& !out.columns@[0].nullable
    &&& out.columns@[0].null_count == 0
    &&& out.columns@[0].null_ratio == Ratio { numerator: 0, denominator: 1 }
    &&& out.columns@[0].numeric_min is None
    &&& out.columns@[0].numeric_max is None
    &&& out.columns@[0].cardinality@ == hll::empty_registers()
}

/// Testable core: the byte cap, then a placeholder schema.
pub fn infer_schema_inner(input: &str) -> (r: Result<SchemaOutput, SchemaError>)
    ensures
        vstd::utf8::encode_utf8(input@).len() > JS_BYTE_CAP ==> r == Err::<SchemaOutput, SchemaError>(
            SchemaError::InputTooLarge {
                limit_bytes: JS_BYTE_CAP,
                actual_bytes: vstd::utf8::encode_utf8(input@).len() as usize,
            },
        ),
        vstd::utf8::encode_utf8(input@).len() <= JS_BYTE_CAP ==> (r matches Ok(out) && stub_schema_is(out)),
{
    let len = input.as_bytes().len();
    if len > JS_BYTE_CAP {
        return Err(SchemaError::InputTooLarge { limit_bytes: JS_BYTE_CAP, actual_bytes: len });
    }
    let f = "stub";
    let n = "example_column";
    proof {
        reveal_strlit("stub");
        reveal_strlit("example_column");
        assert(f@ =~= seq!['s', 't', 'u', 'b']);
        assert(n@ =~= seq!['e', 'x', 'a', 'm', 'p', 'l', 'e', '_', 'c', 'o', 'l', 'u', 'm', 'n']);
    }
    let mut columns: Vec<ColumnMeta> = Vec::new();
    columns.push(
        ColumnMeta {
            name: String::from_str(n),
            index: 0,
            inferred_type: InferredType::String,
            nullable: false,
            null_count: 0,
            null_ratio: Ratio { numerator: 0, denominator: 1 },
            numeric_min: None,
            numeric_max: None,
            cardinality: Hll::new(),
        },
    );
    Ok(
        SchemaOutput {
            row_count: 0,
            truncated: false,
            detected_format: String::from_str(f),
            schemasniff_version: version_string(),
            chunk_count: 1,
            columns,
        },
    )
}

/// The input opens like JSON: its first non-blank character is `[` or `{`.
pub open spec fn opens_json(input: Seq<char>) -> bool {
    let t = text::trimmed(input);
    t.len() > 0 && (t[0] == '[' || t[0] == '{')
}

/// What the checks make of a parser's schema `out`: the schema itself, or
/// the first reason to hold it back.
pub open spec fn checked(out: SchemaOutput) -> Result<SchemaOutput, SchemaError> {
    match security::output_check(out) {
        Ok(()) => Ok(out),
        Err(e) => Err(e),
    }
}

/// Schema inference end to end: validate the input, parse it as JSON when
/// it opens like JSON and as CSV otherwise, and check the schema before it
/// leaves the library.
pub fn infer_schema(input: &str) -> (r: Result<SchemaOutput, SchemaError>)
    ensures
        match security::input_check(input@) {
            Err(e) => r == Err::<SchemaOutput, SchemaError>(e),
            Ok(()) => if opens_json(input@) {
                match json_parser::json_outcome(input@) {
                    Err(e) => r == Err::<SchemaOutput, SchemaError>(e),
                    Ok((f, cols, rows, t)) => exists|out: SchemaOutput|
                        #[trigger] json_parser::json_schema_is(out, f, cols, rows, t) && r == checked(
                            out,
                        ),
                }
            } else {
                match csv_parser::csv_outcome(input@) {
                    Err(e) => r == Err::<SchemaOutput, SchemaError>(e),
                    Ok((h, rows, t)) => exists|out: SchemaOutput|
                        #[trigger] csv_parser::csv_schema_is(out, h, rows, t) && r == checked(out),
                }
            },
        },
{
    security::PurityGuarantee::affirm();
    match security::validate_input(input) {
        Err(e) => return Err(e),
        Ok(()) => {},
    }
    let chars = text::chars_of(input);
    let (lo, hi) = text::trim_bounds(chars.as_slice());
    proof {
        if lo < hi {
            assert(text::trimmed(input@)[0] == chars@[lo as int]);
        }
    }
    let json = lo < hi && (chars[lo] == '[' || chars[lo] == '{');
    let result = if json {
        json_parser::parse_json(input)
    } else {
        csv_parser::parse_csv(input)
    };
    match result {
        Err(e) => Err(e),
        Ok(out) => {
            let ghost kept = out;
            let r = security::sanitize_output(out);
            proof {
                assert(r == checked(kept));
            }
            r
        },
    }
}

} // verus!
