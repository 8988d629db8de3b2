use schemasniff::json_parser::{detect_json_format, parse_json, JsonFormat};
use schemasniff::number::Decimal;
use schemasniff::{ColumnMeta, InferredType, SchemaError, MAX_CELL_BYTES, MAX_COLS, MAX_JSON_DEPTH, MAX_ROWS};

fn to_f64(d: &Decimal) -> f64 {
    let mut text = String::new();
    if d.is_negative() {
        text.push('-');
    }
    if d.digits().is_empty() {
        text.push('0');
    }
    for digit in d.digits() {
        text.push((b'0' + *digit) as char);
    }
    text.push('e');
    text.push_str(&d.exponent().to_string());
    text.parse::<f64>().unwrap()
}

fn bound(d: &Option<Decimal>) -> Option<f64> {
    d.as_ref().map(to_f64)
}

fn column<'a>(cols: &'a [ColumnMeta], name: &str) -> &'a ColumnMeta {
    cols.iter().find(|c| c.name == name).unwrap()
}

#[test]
fn object_array_happy_path() {
    let json = r#"[
        {"name":"Alice","age":30,"score":9.5,"active":true,"joined":"2023-01-01"},
        {"name":"Bob",  "age":25,"score":8.0,"active":false,"joined":"2023-02-14"},
        {"name":"Carol","age":40,"score":7.2,"active":true, "joined":"2023-03-10"}
    ]"#;
    let out = parse_json(json).expect("parse");
    assert_eq!(out.row_count, 3);
    assert_eq!(out.detected_format, "json");
    assert_eq!(out.columns.len(), 5);
    let age = column(&out.columns, "age");
    assert_eq!(age.inferred_type, InferredType::Integer);
    assert_eq!(bound(&age.numeric_min), Some(25.0));
    assert_eq!(bound(&age.numeric_max), Some(40.0));
}

#[test]
fn object_array_missing_keys_are_null() {
    let json = r#"[{"a":1,"b":2},{"a":3},{"b":4}]"#;
    let out = parse_json(json).expect("parse");
    assert_eq!(column(&out.columns, "a").null_count, 1);
    assert_eq!(column(&out.columns, "b").null_count, 1);
}

#[test]
fn object_array_explicit_null_counted() {
    let json = r#"[{"x":1},{"x":null},{"x":3}]"#;
    let out = parse_json(json).expect("parse");
    let x = column(&out.columns, "x");
    assert_eq!(x.null_count, 1);
    assert!(x.nullable);
}

#[test]
fn ndjson_happy_path() {
    let ndjson = "{\"name\":\"Alice\",\"age\":30}\n{\"name\":\"Bob\",\"age\":25}\n";
    let out = parse_json(ndjson).expect("parse");
    assert_eq!(out.detected_format, "ndjson");
    assert_eq!(out.row_count, 2);
    assert_eq!(column(&out.columns, "age").inferred_type, InferredType::Integer);
}

#[test]
fn ndjson_blank_lines_skipped() {
    let out = parse_json("{\"a\":1}\n\n{\"a\":2}\n\n{\"a\":3}").expect("parse");
    assert_eq!(out.row_count, 3);
}

#[test]
fn ndjson_malformed_line_gives_byte_offset() {
    let err = parse_json("{\"a\":1}\n{bad json}\n{\"a\":3}").expect_err("fail");
    assert!(matches!(err, SchemaError::JsonParseFailed { byte_offset: Some(_) }));
}

#[test]
fn nesting_at_limit_is_accepted() {
    let mut json = String::from("[{\"k\":");
    for _ in 0..MAX_JSON_DEPTH {
        json.push('{');
    }
    json.push_str("\"v\":1");
    for _ in 0..MAX_JSON_DEPTH {
        json.push('}');
    }
    json.push_str("}]");
    let _ = parse_json(&json);
}

#[test]
fn nesting_over_limit_returns_error() {
    let mut inner = String::from("\"v\":1");
    for _ in 0..(MAX_JSON_DEPTH + 1) {
        inner = format!("\"k\":{{{inner}}}");
    }
    let err = parse_json(&format!("[{{{inner}}}]")).expect_err("fail");
    assert!(matches!(err, SchemaError::NestingTooDeep { .. }));
}

#[test]
fn json_parser_too_many_columns_error() {
    let rows: Vec<String> = (0..=MAX_COLS).map(|i| format!("{{\"col{i}\":1}}")).collect();
    assert!(matches!(
        parse_json(&format!("[{}]", rows.join(","))),
        Err(SchemaError::TooManyColumns { .. })
    ));
}

#[test]
fn json_parser_truncation_flag_set_at_max_rows() {
    let rows = (0..(MAX_ROWS + 2)).map(|i| format!("{{\"n\":{i}}}")).collect::<Vec<_>>().join(",");
    let out = parse_json(&format!("[{rows}]")).expect("parse");
    assert!(out.truncated);
    assert_eq!(out.row_count as usize, MAX_ROWS);
}

#[test]
fn oversized_string_value_treated_as_null() {
    let big = "x".repeat(MAX_CELL_BYTES + 1);
    let json = format!("[{{\"v\":\"{big}\"}},{{\"v\":\"normal\"}}]");
    let out = parse_json(&json).expect("parse");
    assert_eq!(column(&out.columns, "v").null_count, 1);
}

#[test]
fn json_parser_empty_input_error() {
    assert!(matches!(parse_json(""), Err(SchemaError::EmptyInput)));
    assert!(matches!(parse_json("   "), Err(SchemaError::EmptyInput)));
}

#[test]
fn unrecognised_format_error() {
    assert!(matches!(parse_json("not json"), Err(SchemaError::UnrecognizedFormat)));
    assert!(matches!(parse_json("[1,2,3]"), Err(SchemaError::UnrecognizedFormat)));
}

#[test]
fn numeric_string_values_inferred_correctly() {
    let json = r#"[{"v":"42"},{"v":"43"},{"v":"44"}]"#;
    let out = parse_json(json).expect("parse");
    assert_eq!(column(&out.columns, "v").inferred_type, InferredType::Integer);
}

#[test]
fn mixed_numeric_types_resolve_to_integer() {
    let json = r#"[{"v":1},{"v":2},{"v":3.5}]"#;
    let out = parse_json(json).expect("parse");
    assert_eq!(column(&out.columns, "v").inferred_type, InferredType::Integer);
}

#[test]
fn column_key_truncated_to_256_chars() {
    let json = format!("[{{\"{}\":1}}]", "k".repeat(300));
    assert_eq!(parse_json(&json).expect("parse").columns[0].name.chars().count(), 256);
}

#[test]
fn json_columns_in_order_of_first_appearance() {
    // an object's keys come in the order the text gives them
    let out = parse_json(r#"[{"b":1,"a":2},{"c":3,"a":4}]"#).expect("parse");
    let names: Vec<&str> = out.columns.iter().map(|c| c.name.as_str()).collect();
    assert_eq!(names, vec!["b", "a", "c"]);
    let idx: Vec<usize> = out.columns.iter().map(|c| c.index).collect();
    assert_eq!(idx, vec![0, 1, 2]);
}

#[test]
fn json_float_bounds_and_votes() {
    let out = parse_json(r#"[{"v":1.5},{"v":-2.25},{"v":100.0}]"#).expect("parse");
    let v = column(&out.columns, "v");
    assert_eq!(v.inferred_type, InferredType::Float);
    assert_eq!(bound(&v.numeric_min), Some(-2.25));
    assert_eq!(bound(&v.numeric_max), Some(100.0));
}

#[test]
fn json_booleans_and_nested_values() {
    let out = parse_json(r#"[{"b":true,"n":[1,2]},{"b":false,"n":{"x":1}},{"b":"yes","n":"s"}]"#).expect("parse");
    assert_eq!(column(&out.columns, "b").inferred_type, InferredType::Boolean);
    assert_eq!(column(&out.columns, "n").inferred_type, InferredType::String);
    assert!(column(&out.columns, "n").numeric_min.is_none());
}

#[test]
fn json_blank_string_is_null() {
    let out = parse_json(r#"[{"s":"  "},{"s":""},{"s":"a"},{"s":"b"}]"#).expect("parse");
    let s = column(&out.columns, "s");
    assert_eq!(s.null_count, 2);
    assert_eq!(s.inferred_type, InferredType::String);
}

#[test]
fn json_single_typed_value_is_unknown() {
    let out = parse_json(r#"[{"s":"  "},{"s":"a"},{"n":1}]"#).expect("parse");
    assert_eq!(column(&out.columns, "s").inferred_type, InferredType::Unknown);
    assert_eq!(column(&out.columns, "n").inferred_type, InferredType::Unknown);
    assert!(column(&out.columns, "n").numeric_max.is_none());
}

#[test]
fn json_non_object_rows_count_as_nulls() {
    let out = parse_json(r#"[{"a":1},2,"x"]"#).expect("parse");
    assert_eq!(out.row_count, 3);
    assert_eq!(column(&out.columns, "a").null_count, 2);
}

#[test]
fn json_empty_array_and_empty_objects_are_empty_input() {
    assert!(matches!(parse_json("[]"), Err(SchemaError::EmptyInput)));
    assert!(matches!(parse_json("[{},{}]"), Err(SchemaError::EmptyInput)));
    assert!(matches!(parse_json("{}\n{}"), Err(SchemaError::EmptyInput)));
}

#[test]
fn json_array_without_objects_is_unrecognized() {
    assert!(matches!(parse_json("[1] "), Err(SchemaError::UnrecognizedFormat)));
    assert!(matches!(parse_json("{\"a\":1} {\"b\":2}"), Err(SchemaError::JsonParseFailed { .. })));
}

#[test]
fn ndjson_error_offset_counts_earlier_lines() {
    // the first line takes 7 bytes and its end one more; the error is in column 2
    let err = parse_json("{\"a\":1}\n{bad json}\n{\"a\":3}").expect_err("fail");
    assert_eq!(err, SchemaError::JsonParseFailed { byte_offset: Some(8 + 2) });
}

#[test]
fn malformed_array_gives_byte_offset() {
    let err = parse_json("[{\"a\":1},]").expect_err("fail");
    assert!(matches!(err, SchemaError::JsonParseFailed { byte_offset: Some(_) }));
    // `{bad}` is on the third line, which starts at byte 11; the reader
    // stops two bytes into it
    let err = parse_json("[\n{\"a\":1},\n{bad}\n]").expect_err("fail");
    assert_eq!(err, SchemaError::JsonParseFailed { byte_offset: Some(13) });
}

#[test]
fn nesting_error_names_the_row() {
    let mut deep = String::from("1");
    for _ in 0..(MAX_JSON_DEPTH + 1) {
        deep = format!("[{deep}]");
    }
    let err = parse_json(&format!("[{{\"a\":1}},{{\"a\":{deep}}}]")).expect_err("fail");
    assert_eq!(err, SchemaError::NestingTooDeep { limit: MAX_JSON_DEPTH, detected_at_row: 1 });
}

#[test]
fn repeated_long_key_keeps_its_column() {
    // a key over 256 characters is known by its first 256: seen again, it
    // is the same column
    let key = "k".repeat(300);
    let out = parse_json(&format!("[{{\"{key}\":1}},{{\"{key}\":2}}]")).expect("parse");
    assert_eq!(out.columns.len(), 1);
    assert_eq!(out.columns[0].index, 0);
    assert_eq!(out.columns[0].null_count, 0);
    assert_eq!(out.columns[0].inferred_type, InferredType::Integer);
}

#[test]
fn keys_sharing_a_column_give_it_one_value_per_row() {
    // two keys cut to the same name: the first of them gives the value
    let k1 = "k".repeat(300);
    let k2 = format!("{}{}", "k".repeat(256), "x");
    let out = parse_json(&format!(
        "[{{\"{k1}\":null,\"{k2}\":null}},{{\"{k2}\":3,\"{k1}\":100}},{{\"{k1}\":5}}]"
    ))
    .expect("parse");
    assert_eq!(out.columns.len(), 1);
    assert_eq!(out.columns[0].null_count, 1);
    assert_eq!(out.columns[0].inferred_type, InferredType::Integer);
    assert_eq!(bound(&out.columns[0].numeric_max), Some(5.0));
    assert_eq!(bound(&out.columns[0].numeric_min), Some(3.0));
}

#[test]
fn detect_format_by_first_character() {
    assert_eq!(detect_json_format("  [1]"), Some(JsonFormat::ObjectArray));
    assert_eq!(detect_json_format("\n{}"), Some(JsonFormat::Ndjson));
    assert_eq!(detect_json_format("a,b"), None);
}

#[test]
fn deep_json_at_every_depth() {
    // objects nested `depth` levels below a row: the innermost value sits at
    // depth `depth + 1`, so 32 levels and more are too deep
    for depth in 0..=255u32 {
        let mut json = String::from("[{");
        for _ in 0..depth {
            json.push_str("\"k\":{");
        }
        json.push_str("\"v\":1");
        for _ in 0..depth {
            json.push('}');
        }
        json.push_str("}]");
        let r = parse_json(&json);
        if depth < MAX_JSON_DEPTH as u32 {
            assert!(r.is_ok(), "depth {depth}");
        } else {
            assert!(r.is_err(), "depth {depth}");
        }
        if (MAX_JSON_DEPTH as u32..=120).contains(&depth) {
            assert!(matches!(r, Err(SchemaError::NestingTooDeep { detected_at_row: 0, .. })), "depth {depth}");
        }
    }
}

#[test]
fn arbitrary_text_never_panics() {
    let inputs = [
        "", " ", "\u{0}", "[", "{", "]", "}", "[{", "[{]", "\"", "a,\"b", "\n\n\n", "\r\n\r\n",
        "[{\"a\":1e999}]", "[{\"a\":-0}]", "[{\"a\":18446744073709551615}]", "{\"a\":[}\n",
        "x,y\n\"unterminated", "名,\n,名", "[{\"\":\"\"}]",
    ];
    for input in inputs {
        let _ = parse_json(input);
        let _ = schemasniff::csv_parser::parse_csv(input);
        let _ = schemasniff::infer_schema(input);
    }
}

#[test]
fn json_big_unsigned_is_a_float() {
    // 2^64 - 1 does not fit an i64: it is taken by its f64 value
    let out = parse_json("[{\"a\":18446744073709551615},{\"a\":18446744073709551615}]").expect("parse");
    let a = column(&out.columns, "a");
    assert_eq!(a.inferred_type, InferredType::Float);
    assert_eq!(bound(&a.numeric_max), Some(18446744073709551615u64 as f64));
}

#[test]
fn json_schemas_pass_the_output_checks() {
    use_sanitize(r#"[{"a":1,"b":null},{"a":"x"},3,{"c":[1]}]"#);
    use_sanitize("{\"n\":1.5}\n{\"n\":-2}\n");
    let key = "k".repeat(300);
    use_sanitize(&format!("[{{\"{key}\":null}},{{\"{key}\":null}}]"));
    let other = format!("{}x", "k".repeat(260));
    use_sanitize(&format!("[{{\"{key}\":null,\"{other}\":null}}]"));
}

fn use_sanitize(input: &str) {
    let out = parse_json(input).expect("parse");
    let nulls: Vec<u64> = out.columns.iter().map(|c| c.null_count).collect();
    assert!(nulls.iter().all(|n| *n <= out.row_count), "{input:?}");
    assert!(schemasniff::security::sanitize_output(out).is_ok(), "{input:?}");
}
