use schemasniff::hll::Hll;
use schemasniff::number::{parse_float_text, Decimal};
use schemasniff::security::{sanitize_output, validate_input, RUST_BYTE_CAP};
use schemasniff::{ColumnMeta, InferredType, Ratio, SchemaError, SchemaOutput};

fn dec(text: &str) -> Decimal {
    let chars: Vec<char> = text.chars().collect();
    parse_float_text(&chars).unwrap()
}

fn make_output(cols: Vec<ColumnMeta>) -> SchemaOutput {
    SchemaOutput {
        row_count: 10,
        truncated: false,
        detected_format: "csv".to_string(),
        schemasniff_version: "0.1.0".to_string(),
        chunk_count: 1,
        columns: cols,
    }
}

fn make_col(name: &str, t: InferredType) -> ColumnMeta {
    ColumnMeta {
        name: name.to_string(),
        index: 0,
        inferred_type: t,
        nullable: false,
        null_count: 0,
        null_ratio: Ratio { numerator: 0, denominator: 1 },
        numeric_min: None,
        numeric_max: None,
        cardinality: Hll::new(),
    }
}

#[test]
fn empty_string_rejected() {
    assert!(matches!(validate_input(""), Err(SchemaError::EmptyInput)));
}

#[test]
fn whitespace_only_rejected() {
    assert!(matches!(validate_input("   \n\t  "), Err(SchemaError::EmptyInput)));
}

#[test]
fn oversized_input_rejected() {
    let big = "a".repeat(RUST_BYTE_CAP + 1);
    assert!(matches!(validate_input(&big), Err(SchemaError::InputTooLarge { .. })));
}

#[test]
fn nul_byte_rejected() {
    let err = validate_input("name,age\nAlice\x0030").expect_err("NUL must be rejected");
    assert!(matches!(err, SchemaError::EncodingError { byte_offset: Some(_) }));
}

#[test]
fn valid_input_passes() {
    assert!(validate_input("name,age\nAlice,30").is_ok());
    assert!(validate_input("{\"a\":1}").is_ok());
}

#[test]
fn unicode_input_passes() {
    assert!(validate_input("名前,年齢\nAlice,30").is_ok());
}

#[test]
fn nul_byte_offset_is_exact() {
    assert_eq!(
        validate_input("name,age\nAlice\x0030"),
        Err(SchemaError::EncodingError { byte_offset: Some(14) })
    );
    // the offset counts bytes, not characters
    assert_eq!(validate_input("é\x00"), Err(SchemaError::EncodingError { byte_offset: Some(2) }));
}

#[test]
fn byte_cap_is_checked_first() {
    let big = " ".repeat(RUST_BYTE_CAP + 1);
    assert_eq!(
        validate_input(&big),
        Err(SchemaError::InputTooLarge { limit_bytes: RUST_BYTE_CAP, actual_bytes: RUST_BYTE_CAP + 1 })
    );
    let exact = "a".repeat(RUST_BYTE_CAP);
    assert!(validate_input(&exact).is_ok());
}

#[test]
fn clean_output_passes() {
    assert!(sanitize_output(make_output(vec![make_col("age", InferredType::Integer)])).is_ok());
}

#[test]
fn unknown_format_rejected() {
    let mut out = make_output(vec![]);
    out.detected_format = "xml".to_string();
    assert!(sanitize_output(out).is_err());
}

#[test]
fn numeric_bounds_on_string_col_rejected() {
    let mut col = make_col("name", InferredType::String);
    col.numeric_min = Some(dec("1.0"));
    assert!(sanitize_output(make_output(vec![col])).is_err());
}

#[test]
fn infinite_numeric_max_rejected() {
    // a bound of 1e400 is one no f64 holds: it reads as infinity
    let mut col = make_col("score", InferredType::Float);
    col.numeric_min = Some(dec("1.0"));
    col.numeric_max = Some(dec("1e400"));
    assert!(sanitize_output(make_output(vec![col])).is_err());
}

#[test]
fn min_greater_than_max_rejected() {
    let mut col = make_col("score", InferredType::Float);
    col.numeric_min = Some(dec("9.0"));
    col.numeric_max = Some(dec("1.0"));
    assert!(sanitize_output(make_output(vec![col])).is_err());
}

#[test]
fn null_count_exceeding_row_count_rejected() {
    let mut col = make_col("x", InferredType::String);
    col.null_count = 11;
    assert!(sanitize_output(make_output(vec![col])).is_err());
}

#[test]
fn column_name_over_256_chars_rejected() {
    let mut col = make_col(&"a".repeat(257), InferredType::String);
    col.name = "a".repeat(257);
    assert!(sanitize_output(make_output(vec![col])).is_err());
}

#[test]
fn invalid_null_ratio_rejected() {
    let mut col = make_col("x", InferredType::String);
    col.null_ratio = Ratio { numerator: 3, denominator: 2 };
    assert!(sanitize_output(make_output(vec![col])).is_err());
}

#[test]
fn unsound_column_is_reported_by_index() {
    let mut col = make_col("x", InferredType::String);
    col.index = 7;
    col.null_count = 11;
    assert_eq!(
        sanitize_output(make_output(vec![make_col("ok", InferredType::String), col])).err(),
        Some(SchemaError::CsvParseFailed { row: 0, column: Some(7) })
    );
}

#[test]
fn equal_bounds_and_largest_finite_pass() {
    let mut col = make_col("score", InferredType::Float);
    col.numeric_min = Some(dec("-1.7976931348623157e308"));
    col.numeric_max = Some(dec("1.7976931348623157e308"));
    assert!(sanitize_output(make_output(vec![col])).is_ok());
    let mut col = make_col("n", InferredType::Integer);
    col.numeric_min = Some(dec("5"));
    col.numeric_max = Some(dec("5.000"));
    assert!(sanitize_output(make_output(vec![col])).is_ok());
}
