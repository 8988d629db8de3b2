use schemasniff::csv_parser::parse_csv;
use schemasniff::json_parser::parse_json;
use schemasniff::number::{finite_float_text, parse_float_text, Decimal};
use schemasniff::security::sanitize_output;

fn dec(text: &str) -> Decimal {
    let chars: Vec<char> = text.chars().collect();
    parse_float_text(&chars).unwrap()
}

fn chars(text: &str) -> Vec<char> {
    text.chars().collect()
}

#[test]
fn decimal_order_is_by_value() {
    assert!(dec("1e2").less(&dec("100.5")));
    assert!(dec("99.9").less(&dec("1e2")));
    assert!(!dec("5").less(&dec("5.000")));
    assert!(!dec("5.000").less(&dec("5")));
    assert!(!dec("-0").less(&dec("0")));
    assert!(!dec("0").less(&dec("-0.0")));
    assert!(dec("-3").less(&dec("-2.5")));
    assert!(dec("-1e-9").less(&dec("0")));
    // transitive along a chain of very different exponents
    let chain = ["-1e300", "-7", "-0.5", "0", "1e-300", "3.25", "1e300"];
    for i in 0..chain.len() {
        for j in 0..chain.len() {
            assert_eq!(dec(chain[i]).less(&dec(chain[j])), i < j, "{} < {}", chain[i], chain[j]);
        }
    }
}

#[test]
fn decimal_parts_are_exact() {
    let d = dec("-0012.3400e+2");
    assert!(d.is_negative());
    assert_eq!(d.digits(), &vec![1, 2, 3, 4, 0, 0]);
    assert_eq!(d.exponent(), -2);
    let z = dec("000.000");
    assert!(z.digits().is_empty());
    assert_eq!(Decimal::from_i64(i64::MIN).digits().len(), 19);
    assert!(Decimal::from_i64(0).digits().is_empty());
    assert!(!Decimal::from_i64(0).is_negative());
}

#[test]
fn float_text_grammar() {
    assert!(parse_float_text(&chars("1.")).is_some());
    assert!(parse_float_text(&chars(".5")).is_some());
    assert!(parse_float_text(&chars("+1e5")).is_some());
    assert!(parse_float_text(&chars(".")).is_none());
    assert!(parse_float_text(&chars("1e")).is_none());
    assert!(parse_float_text(&chars("inf")).is_none());
    assert!(parse_float_text(&chars("1_000")).is_none());
}

#[test]
fn finiteness_threshold_is_exact() {
    // f64::MAX rounds to itself; halfway to the next power step rounds to infinity
    assert!(finite_float_text(&chars("179769313486231570814527423731704356798070567525844996598917476803157260780028538760589558632766878171540458953514382464234321326889464182768467546703537516986049910576551282076245490090389328944075868508455133942304583236903222948165808559332123348274797826204144723168738177180919299881250404026184124858368")));
    assert!(!finite_float_text(&chars("179769313486231580793728971405303415079934132710037826936173778980444968292764750946649017977587207096330286416692887910946555547851940402630657488671505820681908902000708383676273854845817711531764475730270069855571366959622842914819860834936475292719074168444365510704342711559699508093042880177904174497792")));
    assert!(finite_float_text(&chars("179769313486231580793728971405303415079934132710037826936173778980444968292764750946649017977587207096330286416692887910946555547851940402630657488671505820681908902000708383676273854845817711531764475730270069855571366959622842914819860834936475292719074168444365510704342711559699508093042880177904174497791")));
}

#[test]
fn csv_schemas_pass_the_output_checks() {
    for input in [
        "a,b\n1,x\n2,",
        "v\n1e308\n-1e308\n\n",
        "n\n-9223372036854775808\n9223372036854775807",
        "x\n1\n2.5\nfoo\n\n",
    ] {
        let out = parse_csv(input).expect("parse");
        assert!(sanitize_output(out).is_ok(), "{input:?}");
    }
}

#[test]
fn json_bounds_are_least_and_greatest() {
    let out = parse_json(r#"[{"v":3},{"v":"-7"},{"v":2.5},{"v":"x"},{"v":100}]"#).expect("parse");
    let v = &out.columns[0];
    let min = v.numeric_min.as_ref().unwrap();
    let max = v.numeric_max.as_ref().unwrap();
    assert!(min.is_negative());
    assert_eq!(min.digits(), &vec![7]);
    assert_eq!(max.digits(), &vec![1, 0, 0]);
    assert_eq!(max.exponent(), 0);
}

#[test]
fn csv_bounds_are_least_and_greatest() {
    let out = parse_csv("v\n3\n-7.25\n1e1\nx\n0.5").expect("parse");
    let v = &out.columns[0];
    let min = v.numeric_min.as_ref().unwrap();
    let max = v.numeric_max.as_ref().unwrap();
    assert!(min.is_negative());
    assert_eq!(min.digits(), &vec![7, 2, 5]);
    assert_eq!(min.exponent(), -2);
    assert_eq!(max.digits(), &vec![1]);
    assert_eq!(max.exponent(), 1);
}
