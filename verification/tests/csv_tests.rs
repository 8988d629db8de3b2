use schemasniff::csv_parser::{parse_csv, CsvSchemaBuilder};
use schemasniff::number::Decimal;
use schemasniff::{InferredType, SchemaError, MAX_CELL_BYTES, MAX_COLS, MAX_ROWS};

fn to_f64(d: &Decimal) -> f64 {
    let mut text = String::new();
    if d.is_negative() {
        text.push('-');
    }
    if d.digits().is_empty() {
        text.push('0');
    }
    for digit in d.digits() {
        text.push((b'0' + *digit) as char);
    }
    text.push('e');
    text.push_str(&d.exponent().to_string());
    text.parse::<f64>().unwrap()
}

fn bound(d: &Option<Decimal>) -> Option<f64> {
    d.as_ref().map(to_f64)
}

#[test]
fn happy_path_10_rows() {
    let csv = "name,age,score,active,joined\n\
        Alice,30,9.5,true,2023-01-01\nBob,25,8.0,false,2023-02-14\n\
        Carol,40,7.2,true,2023-03-10\nDave,35,6.8,false,2023-04-05\n\
        Eve,28,9.9,true,2023-05-20\nFrank,52,5.5,false,2023-06-30\n\
        Grace,19,8.8,true,2023-07-07\nHeidi,44,7.1,false,2023-08-01\n\
        Ivan,31,6.0,true,2023-09-15\nJudy,27,9.2,false,2023-10-31";
    let out = parse_csv(csv).expect("should parse");
    assert_eq!(out.row_count, 10);
    assert_eq!(out.columns.len(), 5);
    assert_eq!(out.columns[1].inferred_type, InferredType::Integer);
    assert_eq!(bound(&out.columns[1].numeric_min), Some(19.0));
    assert_eq!(bound(&out.columns[1].numeric_max), Some(52.0));
    assert_eq!(out.columns[2].inferred_type, InferredType::Float);
    assert_eq!(out.columns[3].inferred_type, InferredType::Boolean);
    assert_eq!(out.columns[4].inferred_type, InferredType::Date);
}

#[test]
fn unicode_column_names() {
    let out = parse_csv("名前,年齢\nAlice,30\nBob,25").expect("parse");
    assert_eq!(out.columns[0].name, "名前");
    assert_eq!(out.columns[1].name, "年齢");
}

#[test]
fn column_name_truncated_to_256_chars() {
    let csv = format!("{},age\nAlice,30", "a".repeat(300));
    assert_eq!(parse_csv(&csv).expect("parse").columns[0].name.chars().count(), 256);
}

#[test]
fn csv_parser_empty_input_error() {
    assert!(matches!(parse_csv(""), Err(SchemaError::EmptyInput)));
    assert!(matches!(parse_csv("   "), Err(SchemaError::EmptyInput)));
}

#[test]
fn header_only_is_empty_input() {
    assert!(matches!(parse_csv("name,age\n"), Err(SchemaError::EmptyInput)));
}

#[test]
fn csv_parser_too_many_columns_error() {
    let headers: Vec<String> = (0..=MAX_COLS).map(|i| format!("col{i}")).collect();
    assert!(matches!(parse_csv(&headers.join(",")), Err(SchemaError::TooManyColumns { .. })));
}

#[test]
fn oversized_cell_treated_as_null() {
    let csv = format!("value\n{}\nnormal", "x".repeat(MAX_CELL_BYTES + 1));
    let out = parse_csv(&csv).expect("parse");
    assert_eq!(out.columns[0].null_count, 1);
    assert_eq!(out.row_count, 2);
}

#[test]
fn null_ratio_correct() {
    let out = parse_csv("v\nfoo\n\nbar\n\nbaz").expect("parse");
    assert_eq!(out.columns[0].null_count, 2);
    let r = out.columns[0].null_ratio;
    assert!((r.numerator as f64 / r.denominator as f64 - 0.4).abs() < 1e-9);
}

#[test]
fn short_rows_padded_as_null() {
    let out = parse_csv("a,b\nfoo,bar\nbaz").expect("parse");
    assert_eq!(out.columns[1].null_count, 1);
}

#[test]
fn numeric_bounds_not_set_for_string_col() {
    let out = parse_csv("name\nAlice\nBob").expect("parse");
    assert!(out.columns[0].numeric_min.is_none());
    assert!(out.columns[0].numeric_max.is_none());
}

#[test]
fn csv_parser_truncation_flag_set_at_max_rows() {
    let mut csv = String::from("n\n");
    for i in 0..(MAX_ROWS + 2) {
        csv.push_str(&format!("{i}\n"));
    }
    let out = parse_csv(&csv).expect("parse");
    assert!(out.truncated);
    assert_eq!(out.row_count as usize, MAX_ROWS);
}

#[test]
fn csv_exact_columns_without_truncation() {
    let out = parse_csv("a\n1\n2\n3").expect("parse");
    assert!(!out.truncated);
    assert_eq!(out.row_count, 3);
    assert_eq!(out.detected_format, "csv");
    assert_eq!(out.schemasniff_version, "0.1.0");
    assert_eq!(out.chunk_count, 1);
    assert_eq!(out.columns[0].index, 0);
    assert_eq!(bound(&out.columns[0].numeric_min), Some(1.0));
    assert_eq!(bound(&out.columns[0].numeric_max), Some(3.0));
}

#[test]
fn csv_majority_vote_with_ties_to_integer() {
    // two integers, two floats: the tie goes to Integer, bounds cover all numbers
    let out = parse_csv("v\n1\n2.5\n3\n-0.5").expect("parse");
    assert_eq!(out.columns[0].inferred_type, InferredType::Integer);
    assert_eq!(bound(&out.columns[0].numeric_min), Some(-0.5));
    assert_eq!(bound(&out.columns[0].numeric_max), Some(3.0));
}

#[test]
fn csv_extreme_integers_keep_their_order() {
    let out = parse_csv("v\n9223372036854775807\n-9223372036854775808\n0").expect("parse");
    let min = out.columns[0].numeric_min.as_ref().unwrap();
    assert!(min.is_negative());
    assert_eq!(min.digits(), &vec![9, 2, 2, 3, 3, 7, 2, 0, 3, 6, 8, 5, 4, 7, 7, 5, 8, 0, 8]);
    assert_eq!(min.exponent(), 0);
    assert_eq!(bound(&out.columns[0].numeric_max), Some(9223372036854775807i64 as f64));
}

#[test]
fn csv_whitespace_only_cell_is_trimmed_to_null() {
    let out = parse_csv("a,b\n1,  \n2,x\n3,y").expect("parse");
    assert_eq!(out.columns[1].null_count, 1);
    assert_eq!(out.columns[1].inferred_type, InferredType::String);
}

#[test]
fn csv_single_typed_value_is_unknown() {
    // fewer than two non-null values are too few to infer a type from
    let out = parse_csv("v\n5").expect("parse");
    assert_eq!(out.columns[0].inferred_type, InferredType::Unknown);
    assert!(out.columns[0].numeric_min.is_none());
    let out = parse_csv("v,w\n5,\n6,x").expect("parse");
    assert_eq!(out.columns[0].inferred_type, InferredType::Integer);
    assert_eq!(out.columns[1].inferred_type, InferredType::Unknown);
}

#[test]
fn csv_all_empty_column_is_unknown_and_nullable() {
    let out = parse_csv("a,b\n1,\n2,").expect("parse");
    assert_eq!(out.columns[1].inferred_type, InferredType::Unknown);
    assert!(out.columns[1].nullable);
    assert_eq!(out.columns[1].null_count, 2);
    let r = out.columns[1].null_ratio;
    assert_eq!((r.numerator, r.denominator), (2, 2));
}

#[test]
fn csv_crlf_blank_lines_are_rows() {
    let out = parse_csv("v\r\n1\r\n\r\n2").expect("parse");
    assert_eq!(out.row_count, 3);
    assert_eq!(out.columns[0].null_count, 1);
}

#[test]
fn csv_quoted_fields_and_trimming() {
    let out = parse_csv("name , city\n\"Smith, J\" ,  Paris \n").expect("parse");
    assert_eq!(out.columns[0].name, "name");
    assert_eq!(out.columns[1].name, "city");
    assert_eq!(out.row_count, 1);
}

fn record(fields: &[&str]) -> Result<Vec<String>, Option<u64>> {
    Ok(fields.iter().map(|f| f.to_string()).collect())
}

#[test]
fn builder_takes_records_one_by_one() {
    let mut b = CsvSchemaBuilder::start(record(&["a", "b"])).expect("header");
    assert_eq!(b.push(record(&["1", "x"])), Ok(true));
    assert_eq!(b.push(record(&["2"])), Ok(true));
    let out = b.finish().expect("schema");
    assert_eq!(out.row_count, 2);
    assert_eq!(out.columns[0].inferred_type, InferredType::Integer);
    assert_eq!(out.columns[1].null_count, 1);
}

#[test]
fn builder_errors() {
    assert!(matches!(CsvSchemaBuilder::start(record(&[])), Err(SchemaError::EmptyInput)));
    assert!(matches!(
        CsvSchemaBuilder::start(Err(Some(3))),
        Err(SchemaError::CsvParseFailed { row: 3, column: None })
    ));
    assert!(matches!(CsvSchemaBuilder::start(Err(None)), Err(SchemaError::CsvParseFailed { row: 0, column: None })));
    let mut b = CsvSchemaBuilder::start(record(&["a"])).expect("header");
    assert_eq!(b.push(record(&["1"])), Ok(true));
    assert_eq!(b.push(Err(None)), Err(SchemaError::CsvParseFailed { row: 1, column: None }));
    assert_eq!(b.push(Err(Some(9))), Err(SchemaError::CsvParseFailed { row: 9, column: None }));
    let b = CsvSchemaBuilder::start(record(&["a"])).expect("header");
    assert!(matches!(b.finish(), Err(SchemaError::EmptyInput)));
}

#[test]
fn csv_header_is_not_a_data_row() {
    let out = parse_csv("a\n1\n").expect("parse");
    assert_eq!(out.row_count, 1);
    assert_eq!(out.columns[0].name, "a");
    assert_eq!(out.columns[0].null_count, 0);
}
