use schemasniff::cell::infer_cell_type;
use schemasniff::InferredType;

#[test]
fn cell_integers() {
    assert_eq!(infer_cell_type("0"), InferredType::Integer);
    assert_eq!(infer_cell_type("42"), InferredType::Integer);
    assert_eq!(infer_cell_type("-17"), InferredType::Integer);
    assert_eq!(infer_cell_type("9223372036854775807"), InferredType::Integer);
}

#[test]
fn cell_leading_zero_is_string() {
    assert_eq!(infer_cell_type("007"), InferredType::String);
    assert_eq!(infer_cell_type("0042"), InferredType::String);
}

#[test]
fn cell_floats() {
    assert_eq!(infer_cell_type("3.14"), InferredType::Float);
    assert_eq!(infer_cell_type("-0.5"), InferredType::Float);
    assert_eq!(infer_cell_type("1e10"), InferredType::Float);
    assert_eq!(infer_cell_type("1.5E-3"), InferredType::Float);
}

#[test]
fn cell_nan_inf_are_string() {
    assert_eq!(infer_cell_type("NaN"), InferredType::String);
    assert_eq!(infer_cell_type("Infinity"), InferredType::String);
    assert_eq!(infer_cell_type("-Inf"), InferredType::String);
}

#[test]
fn cell_booleans() {
    assert_eq!(infer_cell_type("true"), InferredType::Boolean);
    assert_eq!(infer_cell_type("FALSE"), InferredType::Boolean);
    assert_eq!(infer_cell_type("yes"), InferredType::Boolean);
    assert_eq!(infer_cell_type("No"), InferredType::Boolean);
}

#[test]
fn cell_dates() {
    assert_eq!(infer_cell_type("2024-01-15"), InferredType::Date);
    assert_eq!(infer_cell_type("2024-01-15T09:30:00"), InferredType::Date);
    assert_eq!(infer_cell_type("2024-01-15 09:30:00"), InferredType::Date);
    assert_eq!(infer_cell_type("2024-1-1"), InferredType::String);
    assert_eq!(infer_cell_type("15-01-2024"), InferredType::String);
}

#[test]
fn cell_empty_is_unknown() {
    assert_eq!(infer_cell_type(""), InferredType::Unknown);
    assert_eq!(infer_cell_type("   "), InferredType::Unknown);
}

#[test]
fn cell_integer_beyond_i64_is_float_or_string() {
    // one past i64::MAX has no dot or exponent, so it is neither an integer nor a float
    assert_eq!(infer_cell_type("9223372036854775808"), InferredType::String);
    assert_eq!(infer_cell_type("-9223372036854775808"), InferredType::Integer);
    assert_eq!(infer_cell_type("-9223372036854775809"), InferredType::String);
}

#[test]
fn cell_float_overflow_is_string() {
    // the largest finite f64 and the first text that rounds to infinity
    assert_eq!(infer_cell_type("1.7976931348623157e308"), InferredType::Float);
    assert_eq!(infer_cell_type("1e309"), InferredType::String);
    assert_eq!(infer_cell_type("1e-400"), InferredType::Float);
}

#[test]
fn cell_type_is_taken_after_trimming() {
    assert_eq!(infer_cell_type("  42 "), InferredType::Integer);
    assert_eq!(infer_cell_type("\tYes\n"), InferredType::Boolean);
    assert_eq!(infer_cell_type("2024-01-15T09:30"), InferredType::String);
}
