use tds_etl::date::Date;
use tds_etl::float::{whole_value_of, FloatArith};
use tds_etl::model::DataType;
use tds_etl::record::Record;
use tds_etl::transform::{apply_chain, apply_one, apply_scalar, cast, multiply_integer, Transform};
use tds_etl::value::Value;

/// Binary64 arithmetic through Rust's `f64`.
struct F64;

impl FloatArith for F64 {
    fn parse_float(&self, text: &str) -> Option<u64> {
        text.parse::<f64>().ok().map(f64::to_bits)
    }
    fn float_text(&self, bits: u64) -> String {
        f64::from_bits(bits).to_string()
    }
    fn int_to_float(&self, i: i64) -> u64 {
        (i as f64).to_bits()
    }
    fn mul(&self, a: u64, b: u64) -> u64 {
        (f64::from_bits(a) * f64::from_bits(b)).to_bits()
    }
    fn round_to(&self, bits: u64, decimals: u32) -> u64 {
        let f = f64::from_bits(bits);
        let factor = 10f64.powi(decimals as i32);
        ((f * factor).round() / factor).to_bits()
    }
}

fn s(text: &str) -> Value {
    Value::String(text.to_string())
}

fn f(x: f64) -> Value {
    Value::Float(x.to_bits())
}

fn date(y: i32, m: u32, d: u32) -> Value {
    Value::Date(Date::from_ymd(y, m, d).unwrap())
}

fn run(chain: &[Transform], values: Vec<Value>) -> Result<Vec<Value>, String> {
    apply_chain(chain, values, &F64)
}

#[test]
fn trim_and_concat() {
    let t = vec![Transform::Trim, Transform::Concat { separator: " ".to_string() }];
    let out = run(&t, vec![s("  Ada "), s("Lovelace")]).unwrap();
    assert_eq!(out, vec![s("Ada Lovelace")]);
}

#[test]
fn parse_date_passes_null_through() {
    let t = vec![Transform::ParseDate { format: "%m/%d/%Y".to_string() }];
    assert_eq!(run(&t, vec![Value::Null]).unwrap(), vec![Value::Null]);
    let out = run(&t, vec![s("12/10/1815")]).unwrap();
    assert_eq!(out, vec![date(1815, 12, 10)]);
}

#[test]
fn lookup_with_and_without_default() {
    let mut table = Record::new();
    table.insert("active".to_string(), Value::Bool(true));
    table.insert("inactive".to_string(), Value::Bool(false));
    let t = vec![Transform::Lookup { table, default: None }];
    let out = run(&t, vec![s("active")]).unwrap();
    assert_eq!(out, vec![Value::Bool(true)]);
    let err = run(&t, vec![s("closed")]).unwrap_err();
    assert!(err.contains("no entry for 'closed'"));
}

#[test]
fn multiply_round_cast_to_integer() {
    let t = vec![
        Transform::Multiply { by: 100f64.to_bits() },
        Transform::Round { decimals: 0 },
        Transform::Cast { to: DataType::Integer },
    ];
    let out = run(&t, vec![f(99.95)]).unwrap();
    assert_eq!(out, vec![Value::Integer(9995)]);
}

#[test]
fn cast_fractional_float_to_integer_fails() {
    let t = vec![Transform::Cast { to: DataType::Integer }];
    let err = run(&t, vec![f(1.5)]).unwrap_err();
    assert!(err.contains("round before casting"));
    assert_eq!(err, "cast: 1.5 has a fractional part; round before casting to integer");
}

#[test]
fn null_passes_every_scalar_transform_but_default() {
    let chain = vec![
        Transform::Trim,
        Transform::Uppercase,
        Transform::Lowercase,
        Transform::Replace { from: "a".to_string(), to: "b".to_string() },
        Transform::Split { separator: ",".to_string(), index: 3 },
        Transform::Lookup { table: Record::new(), default: None },
        Transform::Cast { to: DataType::Integer },
        Transform::ParseDate { format: "%Y".to_string() },
        Transform::FormatDate { format: "%Y".to_string() },
        Transform::Multiply { by: 2f64.to_bits() },
        Transform::Round { decimals: 2 },
    ];
    assert_eq!(run(&chain, vec![Value::Null, Value::Null]).unwrap(), vec![Value::Null, Value::Null]);
    let with_default = vec![Transform::Trim, Transform::Default { value: s("n/a") }];
    assert_eq!(run(&with_default, vec![Value::Null, s(" x ")]).unwrap(), vec![s("n/a"), s("x")]);
}

#[test]
fn string_transforms() {
    assert_eq!(run(&[Transform::Trim], vec![s("\t a b \u{3000}")]).unwrap(), vec![s("a b")]);
    assert_eq!(run(&[Transform::Uppercase], vec![s("straße")]).unwrap(), vec![s("STRASSE")]);
    assert_eq!(run(&[Transform::Lowercase], vec![s("ÀB")]).unwrap(), vec![s("àb")]);
    let replace = Transform::Replace { from: "-".to_string(), to: "".to_string() };
    assert_eq!(run(&[replace], vec![s("1-2-3")]).unwrap(), vec![s("123")]);
    let replace_empty = Transform::Replace { from: "".to_string(), to: "x".to_string() };
    assert_eq!(run(&[replace_empty], vec![s("ab")]).unwrap(), vec![s("xaxbx")]);
    let split = Transform::Split { separator: "@".to_string(), index: 1 };
    assert_eq!(run(&[split], vec![s("a@b.com")]).unwrap(), vec![s("b.com")]);
}

#[test]
fn split_out_of_range_is_an_error() {
    let split = Transform::Split { separator: "@".to_string(), index: 2 };
    let err = run(&[split], vec![s("a@b")]).unwrap_err();
    assert_eq!(err, "split index 2 out of range for 'a@b'");
}

#[test]
fn string_transform_on_integer_is_a_type_error() {
    let err = run(&[Transform::Trim], vec![Value::Integer(7)]).unwrap_err();
    assert_eq!(err, "trim: cannot apply to integer value (7)");
    let err = run(&[Transform::Round { decimals: 1 }], vec![s("x")]).unwrap_err();
    assert_eq!(err, "round: cannot apply to string value (x)");
    let err = run(&[Transform::FormatDate { format: "%Y".to_string() }], vec![Value::Bool(true)]).unwrap_err();
    assert_eq!(err, "format_date: cannot apply to boolean value (true)");
}

#[test]
fn concat_skips_nulls_and_coalesce_takes_first() {
    let concat = Transform::Concat { separator: "-".to_string() };
    let out = run(&[concat], vec![s("a"), Value::Null, Value::Integer(3), Value::Bool(false)]).unwrap();
    assert_eq!(out, vec![s("a-3-false")]);
    let out = run(&[Transform::Concat { separator: ",".to_string() }], vec![Value::Null]).unwrap();
    assert_eq!(out, vec![s("")]);
    let out = run(&[Transform::Coalesce], vec![Value::Null, Value::Integer(2), Value::Integer(3)]).unwrap();
    assert_eq!(out, vec![Value::Integer(2)]);
    let out = run(&[Transform::Coalesce], vec![Value::Null, Value::Null]).unwrap();
    assert_eq!(out, vec![Value::Null]);
}

#[test]
fn constant_discards_inputs() {
    let out = run(&[Transform::Constant { value: s("legacy_crm") }], vec![s("x"), s("y")]).unwrap();
    assert_eq!(out, vec![s("legacy_crm")]);
    let out = run(&[Transform::Constant { value: Value::Integer(1) }], vec![]).unwrap();
    assert_eq!(out, vec![Value::Integer(1)]);
}

#[test]
fn chain_without_transforms_keeps_values() {
    assert_eq!(run(&[], vec![s("a"), s("b")]).unwrap(), vec![s("a"), s("b")]);
}

#[test]
fn lookup_default_is_used_for_unknown_keys() {
    let mut table = Record::new();
    table.insert("y".to_string(), Value::Bool(true));
    let t = vec![Transform::Lookup { table, default: Some(Value::Bool(false)) }];
    assert_eq!(run(&t, vec![s("y"), s("z")]).unwrap(), vec![Value::Bool(true), Value::Bool(false)]);
}

#[test]
fn parse_and_format_dates() {
    let t = vec![Transform::ParseDate { format: "%d.%m.%Y".to_string() }];
    let err = run(&t, vec![s("31.02.2020")]).unwrap_err();
    assert!(err.starts_with("parse_date: '31.02.2020' does not match '%d.%m.%Y': "));
    let fmt = vec![Transform::FormatDate { format: "%d/%m/%Y".to_string() }];
    assert_eq!(run(&fmt, vec![date(2015, 9, 5)]).unwrap(), vec![s("05/09/2015")]);
    let bad = vec![Transform::FormatDate { format: "%H:%M".to_string() }];
    let err = run(&bad, vec![date(2015, 9, 5)]).unwrap_err();
    assert_eq!(err, "format_date: cannot write a date with format '%H:%M'");
}

#[test]
fn multiply_keeps_integers_for_whole_factors() {
    let t = vec![Transform::Multiply { by: 3f64.to_bits() }];
    assert_eq!(run(&t, vec![Value::Integer(7)]).unwrap(), vec![Value::Integer(21)]);
    let t = vec![Transform::Multiply { by: 0.5f64.to_bits() }];
    assert_eq!(run(&t, vec![Value::Integer(7)]).unwrap(), vec![f(3.5)]);
    let t = vec![Transform::Multiply { by: 2f64.to_bits() }];
    assert_eq!(run(&t, vec![f(1.25)]).unwrap(), vec![f(2.5)]);
    let err = run(&t, vec![Value::Integer(i64::MAX)]).unwrap_err();
    assert_eq!(err, "multiply: 9223372036854775807 times 2 overflows a 64-bit integer");
    let err = run(&t, vec![s("3")]).unwrap_err();
    assert_eq!(err, "multiply: cannot apply to string value (3)");
}

#[test]
fn round_to_decimals() {
    let t = vec![Transform::Round { decimals: 2 }];
    assert_eq!(run(&t, vec![f(1.23456), Value::Integer(4)]).unwrap(), vec![f(1.23), Value::Integer(4)]);
}

#[test]
fn cast_matrix() {
    let a = &F64;
    assert_eq!(cast(Value::Integer(5), DataType::String, a).unwrap(), s("5"));
    assert_eq!(cast(date(2020, 2, 29), DataType::String, a).unwrap(), s("2020-02-29"));
    assert_eq!(cast(s("42"), DataType::Integer, a).unwrap(), Value::Integer(42));
    assert_eq!(cast(s("YES"), DataType::Boolean, a).unwrap(), Value::Bool(true));
    assert_eq!(cast(s("2021-01-02"), DataType::Date, a).unwrap(), date(2021, 1, 2));
    assert_eq!(cast(s("2.5"), DataType::Float, a).unwrap(), f(2.5));
    assert_eq!(cast(Value::Integer(2), DataType::Float, a).unwrap(), f(2.0));
    assert_eq!(cast(f(3.0), DataType::Integer, a).unwrap(), Value::Integer(3));
    assert_eq!(cast(Value::Bool(true), DataType::Integer, a).unwrap(), Value::Integer(1));
    assert_eq!(cast(Value::Bool(false), DataType::Boolean, a).unwrap(), Value::Bool(false));
    assert_eq!(cast(date(2020, 1, 1), DataType::Date, a).unwrap(), date(2020, 1, 1));
    assert_eq!(cast(Value::Integer(1), DataType::Boolean, a).unwrap_err(), "cast: cannot cast integer to boolean");
    assert_eq!(cast(Value::Bool(true), DataType::Float, a).unwrap_err(), "cast: cannot cast boolean to float");
    assert_eq!(cast(f(1.0), DataType::Date, a).unwrap_err(), "cast: cannot cast float to date");
}

#[test]
fn transform_names() {
    assert_eq!(Transform::Trim.name(), "trim");
    assert_eq!(Transform::ParseDate { format: String::new() }.name(), "parse_date");
    assert_eq!(Transform::Multiply { by: 0 }.name(), "multiply");
    assert_eq!(Transform::Coalesce.name(), "coalesce");
}

#[test]
fn string_transforms_refuse_floats_with_their_text() {
    let err = run(&[Transform::Trim], vec![f(1.5)]).unwrap_err();
    assert_eq!(err, "trim: cannot apply to float value (1.5)");
    let err = run(&[Transform::Uppercase], vec![s("a"), f(-2.25)]).unwrap_err();
    assert_eq!(err, "uppercase: cannot apply to float value (-2.25)");
    let err = run(&[Transform::FormatDate { format: "%Y".to_string() }], vec![f(3.0)]).unwrap_err();
    assert_eq!(err, "format_date: cannot apply to float value (3)");
}

#[test]
fn every_value_casts_to_a_string_and_back() {
    let to_string = Transform::Cast { to: DataType::String };
    let out = run(&[to_string], vec![Value::Integer(-42), Value::Bool(false), date(2021, 3, 9), f(0.5)]).unwrap();
    assert_eq!(out, vec![s("-42"), s("false"), s("2021-03-09"), s("0.5")]);
    let back = run(&[Transform::Cast { to: DataType::Integer }], vec![s("-42")]).unwrap();
    assert_eq!(back, vec![Value::Integer(-42)]);
    let back = run(&[Transform::Cast { to: DataType::Boolean }], vec![s("false")]).unwrap();
    assert_eq!(back, vec![Value::Bool(false)]);
    let back = run(&[Transform::Cast { to: DataType::Date }], vec![s("2021-03-09")]).unwrap();
    assert_eq!(back, vec![date(2021, 3, 9)]);
}

#[test]
fn a_chain_of_two_parts_is_the_parts_in_turn() {
    let first = vec![Transform::Trim, Transform::Uppercase];
    let second = vec![Transform::Concat { separator: "-".to_string() }];
    let whole: Vec<Transform> = vec![Transform::Trim, Transform::Uppercase, Transform::Concat { separator: "-".to_string() }];
    let mid = run(&first, vec![s(" a "), s("b ")]).unwrap();
    assert_eq!(run(&second, mid).unwrap(), run(&whole, vec![s(" a "), s("b ")]).unwrap());
    assert_eq!(run(&whole, vec![s(" a "), s("b ")]).unwrap(), vec![s("A-B")]);
}

#[test]
fn the_list_step_fails_at_the_first_bad_value() {
    let err = run(&[Transform::Trim], vec![s("ok"), Value::Integer(1), Value::Bool(true)]).unwrap_err();
    assert_eq!(err, "trim: cannot apply to integer value (1)");
    let out = run(&[Transform::Lowercase], vec![s("A"), Value::Null, s("B")]).unwrap();
    assert_eq!(out, vec![s("a"), Value::Null, s("b")]);
}

#[test]
fn integer_products_are_exact_or_refused() {
    assert_eq!(multiply_integer(6, 7).unwrap(), Value::Integer(42));
    assert_eq!(multiply_integer(-3, 0).unwrap(), Value::Integer(0));
    assert_eq!(
        multiply_integer(i64::MAX, 2).unwrap_err(),
        format!("multiply: {} times 2 overflows a 64-bit integer", i64::MAX)
    );
    let out = run(&[Transform::Multiply { by: 3f64.to_bits() }], vec![Value::Integer(-5)]).unwrap();
    assert_eq!(out, vec![Value::Integer(-15)]);
}

#[test]
fn a_list_step_is_each_scalar_step_in_turn() {
    let t = Transform::Cast { to: DataType::Integer };
    let vs = vec![s("1"), Value::Null, s("-2")];
    let each: Vec<Value> = vs.iter().map(|v| apply_scalar(&t, v.clone(), &F64).unwrap()).collect();
    assert_eq!(apply_one(&t, vs, &F64).unwrap(), each);
    let bad = vec![s("1"), s("x"), s("y")];
    assert_eq!(apply_one(&t, bad, &F64).unwrap_err(), apply_scalar(&t, s("x"), &F64).unwrap_err());
}

#[test]
fn two_runs_of_a_chain_agree() {
    let chain = vec![Transform::Trim, Transform::Split { separator: ",".to_string(), index: 1 }];
    let first = run(&chain, vec![s(" a,b "), s("c,d")]);
    let second = run(&chain, vec![s(" a,b "), s("c,d")]);
    assert_eq!(first, second);
    assert_eq!(first.unwrap(), vec![s("b"), s("d")]);
}

#[test]
fn trim_removes_unicode_white_space_at_both_ends() {
    let out = run(&[Transform::Trim], vec![s("\u{3000}\t a b \n\u{a0}"), s("   "), s("x")]).unwrap();
    assert_eq!(out, vec![s("a b"), s(""), s("x")]);
}

#[test]
fn whole_values_are_read_off_the_bit_pattern() {
    let w = |x: f64| whole_value_of(x.to_bits());
    assert_eq!(w(3.0), Some(3));
    assert_eq!(w(-0.0), Some(0));
    assert_eq!(w(0.0), Some(0));
    assert_eq!(w(-42.0), Some(-42));
    assert_eq!(w(1.5), None);
    assert_eq!(w(0.25), None);
    assert_eq!(w(f64::from_bits(1)), None);
    assert_eq!(w(f64::INFINITY), None);
    assert_eq!(w(f64::NAN), None);
    assert_eq!(w(4503599627370497.0), Some(4503599627370497));
    assert_eq!(w(9007199254740992.0 * 2.0), Some(18014398509481984));
    assert_eq!(w(1e19), Some(i64::MAX));
    assert_eq!(w(-1e19), Some(i64::MIN));
    assert_eq!(w(-9223372036854775808.0), Some(i64::MIN));
    for x in [1.0, 2.0, 1024.0, 123456789.0, -7.0, 1e15, 2f64.powi(62), -(2f64.powi(62))] {
        assert_eq!(w(x), Some(x as i64));
    }
}

#[test]
fn multiply_by_a_whole_factor_keeps_the_exact_product() {
    let out = run(&[Transform::Multiply { by: 100f64.to_bits() }], vec![Value::Integer(125050)]).unwrap();
    assert_eq!(out, vec![Value::Integer(12505000)]);
    let out = run(&[Transform::Multiply { by: (-2.0f64).to_bits() }], vec![Value::Integer(21)]).unwrap();
    assert_eq!(out, vec![Value::Integer(-42)]);
    let out = run(&[Transform::Multiply { by: 0.5f64.to_bits() }], vec![Value::Integer(3)]).unwrap();
    assert_eq!(out, vec![f(1.5)]);
    let err = run(&[Transform::Cast { to: DataType::Integer }], vec![f(2.5)]).unwrap_err();
    assert_eq!(err, "cast: 2.5 has a fractional part; round before casting to integer");
    assert_eq!(run(&[Transform::Cast { to: DataType::Integer }], vec![f(-4.0)]).unwrap(), vec![Value::Integer(-4)]);
}
