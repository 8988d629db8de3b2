use schemasniff::csv_parser::parse_csv;
use schemasniff::json_parser::parse_json;
use schemasniff::security::{sanitize_output, validate_input};
use schemasniff::{
    infer_schema, infer_schema_inner, InferredType, SchemaError, SchemaOutput, MAX_CELL_BYTES,
    MAX_COLS, MAX_JSON_DEPTH, MAX_ROWS,
};

fn parse_any(input: &str) -> Result<SchemaOutput, SchemaError> {
    let trimmed = input.trim_start();
    let result = if trimmed.starts_with('[') || trimmed.starts_with('{') {
        parse_json(input)
    } else {
        parse_csv(input)
    };
    result.and_then(sanitize_output)
}

fn run_ok(input: &str) -> SchemaOutput {
    parse_any(input).expect("expected Ok")
}

fn run_err(input: &str) -> SchemaError {
    validate_input(input).err().unwrap_or_else(|| parse_any(input).err().expect("expected Err"))
}

#[test]
fn byte_cap_enforced() {
    let oversized = "x".repeat(10 * 1024 * 1024 + 1);
    let result = infer_schema_inner(&oversized);
    assert!(matches!(result.err().unwrap(), SchemaError::InputTooLarge { .. }));
}

#[test]
fn empty_input_returns_ok_stub() {
    assert!(infer_schema_inner("").is_ok());
}

#[test]
fn constants_are_sane() {
    assert!(MAX_ROWS > 0 && MAX_ROWS <= 10_000_000);
    assert!(MAX_COLS > 0 && MAX_COLS <= 10_000);
    assert!(MAX_CELL_BYTES > 0);
    assert!(MAX_JSON_DEPTH > 0);
}

#[test]
fn error_variants_contain_no_heap_strings() {
    let max_expected: usize = 4 * std::mem::size_of::<usize>();
    assert!(
        std::mem::size_of::<SchemaError>() <= max_expected,
        "SchemaError grew to {} bytes — a variant may contain heap data",
        std::mem::size_of::<SchemaError>(),
    );
}

fn assert_send_sync<T: Send + Sync>() {}

#[test]
fn error_is_send_sync() {
    assert_send_sync::<SchemaError>();
}

#[test]
fn error_is_clone_eq() {
    let e = SchemaError::EmptyInput;
    assert_eq!(e.clone(), e);
}

#[test]
fn display_contains_no_static_cell_content() {
    let errors = [
        SchemaError::InputTooLarge { limit_bytes: 100, actual_bytes: 200 },
        SchemaError::TooManyColumns { limit: 1024, actual: 2000 },
        SchemaError::RowLimitReached { limit: 1_000_000 },
        SchemaError::NestingTooDeep { limit: 32, detected_at_row: 5 },
        SchemaError::EncodingError { byte_offset: Some(42) },
        SchemaError::EncodingError { byte_offset: None },
        SchemaError::CsvParseFailed { row: 10, column: Some(3) },
        SchemaError::CsvParseFailed { row: 10, column: None },
        SchemaError::JsonParseFailed { byte_offset: Some(99) },
        SchemaError::JsonParseFailed { byte_offset: None },
        SchemaError::EmptyInput,
        SchemaError::UnrecognizedFormat,
    ];
    for err in &errors {
        let msg = err.message();
        assert!(msg.chars().all(|c| c.is_ascii()), "non-ASCII in: {msg:?}");
        assert!(msg.chars().any(|c| c.is_ascii_alphabetic()), "no letters in: {msg:?}");
    }
}

#[test]
fn error_messages_read_exactly() {
    assert_eq!(
        SchemaError::InputTooLarge { limit_bytes: 100, actual_bytes: 200 }.message(),
        "input too large: 200 bytes exceeds 100 byte limit"
    );
    assert_eq!(
        SchemaError::TooManyColumns { limit: 1024, actual: 2000 }.message(),
        "too many columns: 2000 exceeds limit of 1024"
    );
    assert_eq!(
        SchemaError::RowLimitReached { limit: 1_000_000 }.message(),
        "row limit reached: processing stopped at 1000000 rows"
    );
    assert_eq!(
        SchemaError::NestingTooDeep { limit: 32, detected_at_row: 5 }.message(),
        "nesting too deep at row 5: limit is 32 levels"
    );
    assert_eq!(SchemaError::EncodingError { byte_offset: Some(0) }.message(), "encoding error at byte 0");
    assert_eq!(
        SchemaError::CsvParseFailed { row: 10, column: Some(3) }.message(),
        "CSV parse failed at row 10, column 3"
    );
    assert_eq!(SchemaError::CsvParseFailed { row: 10, column: None }.message(), "CSV parse failed at row 10");
    assert_eq!(
        SchemaError::JsonParseFailed { byte_offset: None }.message(),
        "JSON parse failed at unknown position"
    );
    assert_eq!(SchemaError::EmptyInput.message(), "input contained no data rows");
    assert_eq!(
        SchemaError::UnrecognizedFormat.message(),
        "format not recognised as CSV, JSON, or NDJSON"
    );
}

#[test]
fn messages_of_one_kind_differ_only_in_their_numbers() {
    let digits_to_hash = |m: String| -> String {
        m.chars().map(|c| if c.is_ascii_digit() { '#' } else { c }).collect()
    };
    let pairs = [
        (SchemaError::TooManyColumns { limit: 1024, actual: 2000 }, SchemaError::TooManyColumns { limit: 7, actual: 123456 }),
        (SchemaError::CsvParseFailed { row: 0, column: Some(9) }, SchemaError::CsvParseFailed { row: 88, column: Some(1) }),
        (SchemaError::JsonParseFailed { byte_offset: Some(13) }, SchemaError::JsonParseFailed { byte_offset: Some(0) }),
    ];
    for (a, b) in pairs {
        let (ma, mb) = (a.message(), b.message());
        assert!(ma.is_ascii() && mb.is_ascii());
        let squeeze = |m: String| -> String {
            let mut out = String::new();
            for c in digits_to_hash(m).chars() {
                if !(c == '#' && out.ends_with('#')) {
                    out.push(c);
                }
            }
            out
        };
        assert_eq!(squeeze(ma), squeeze(mb));
    }
    assert_eq!(
        SchemaError::TooManyColumns { limit: 1024, actual: 2000 }.message(),
        "too many columns: 2000 exceeds limit of 1024"
    );
}

#[test]
fn security_events_are_the_cap_errors() {
    assert!(SchemaError::InputTooLarge { limit_bytes: 1, actual_bytes: 2 }.is_security_event());
    assert!(SchemaError::TooManyColumns { limit: 1, actual: 2 }.is_security_event());
    assert!(SchemaError::RowLimitReached { limit: 1 }.is_security_event());
    assert!(SchemaError::NestingTooDeep { limit: 1, detected_at_row: 0 }.is_security_event());
    assert!(SchemaError::EncodingError { byte_offset: None }.is_security_event());
    assert!(!SchemaError::CsvParseFailed { row: 0, column: None }.is_security_event());
    assert!(!SchemaError::JsonParseFailed { byte_offset: None }.is_security_event());
    assert!(!SchemaError::EmptyInput.is_security_event());
    assert!(!SchemaError::UnrecognizedFormat.is_security_event());
}

#[test]
fn happy_path_csv_10_rows_5_columns() {
    let csv = "name,age,score,active,joined\n\
               Alice,30,9.5,true,2023-01-01\n\
               Bob,25,8.0,false,2023-02-14\n\
               Carol,40,7.2,true,2023-03-10\n\
               Dave,35,6.8,false,2023-04-05\n\
               Eve,28,9.9,true,2023-05-20\n\
               Frank,52,5.5,false,2023-06-30\n\
               Grace,19,8.8,true,2023-07-07\n\
               Heidi,44,7.1,false,2023-08-01\n\
               Ivan,31,6.0,true,2023-09-15\n\
               Judy,27,9.2,false,2023-10-31";
    let out = run_ok(csv);
    assert_eq!(out.row_count, 10);
    assert_eq!(out.detected_format, "csv");
    assert_eq!(out.columns.len(), 5);
}

#[test]
fn malformed_json_returns_json_parse_failed() {
    assert!(matches!(run_err("{bad json}"), SchemaError::JsonParseFailed { .. }));
}

#[test]
fn oversized_input_returns_input_too_large() {
    let big = "a".repeat(10 * 1024 * 1024 + 1);
    assert!(matches!(run_err(&big), SchemaError::InputTooLarge { .. }));
}

#[test]
fn header_only_csv_returns_empty_input() {
    assert!(matches!(run_err("name,age\n"), SchemaError::EmptyInput));
}

#[test]
fn unicode_column_names_preserved() {
    let csv = "名前,年齢,score\nAlice,30,9.5\nBob,25,8.0";
    let out = run_ok(csv);
    assert_eq!(out.columns[0].name, "名前");
    assert_eq!(out.columns[1].name, "年齢");
}

#[test]
fn infer_schema_end_to_end() {
    let out = infer_schema("a,b\n1,x\n2,y").expect("parse");
    assert_eq!(out.detected_format, "csv");
    assert_eq!(out.columns[0].inferred_type, InferredType::Integer);
    let out = infer_schema("  [{\"a\":1}]").expect("parse");
    assert_eq!(out.detected_format, "json");
    assert!(matches!(infer_schema(" \n "), Err(SchemaError::EmptyInput)));
    assert!(matches!(infer_schema("a\u{0}b"), Err(SchemaError::EncodingError { byte_offset: Some(1) })));
    assert!(matches!(infer_schema("{\"a\":1}\n{"), Err(SchemaError::JsonParseFailed { .. })));
}

#[test]
fn stub_schema_fields() {
    let out = infer_schema_inner("anything").expect("stub");
    assert_eq!(out.row_count, 0);
    assert!(!out.truncated);
    assert_eq!(out.detected_format, "stub");
    assert_eq!(out.schemasniff_version, "0.1.0");
    assert_eq!(out.columns.len(), 1);
    assert_eq!(out.columns[0].name, "example_column");
    assert_eq!(out.columns[0].inferred_type, InferredType::String);
    assert!(out.columns[0].cardinality.registers().iter().all(|r| *r == 0));
}

#[test]
fn add_sums() {
    assert_eq!(schemasniff::add(2, 2), 4);
}
