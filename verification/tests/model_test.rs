use tds_etl::date::Date;
use tds_etl::float::FloatArith;
use tds_etl::model::{DataType, Field, JsonCell, Model};
use tds_etl::record::Record;
use tds_etl::value::Value;

/// Binary64 arithmetic through Rust's `f64`.
struct F64;

impl FloatArith for F64 {
    fn parse_float(&self, text: &str) -> Option<u64> {
        text.parse::<f64>().ok().map(f64::to_bits)
    }
    fn float_text(&self, bits: u64) -> String {
        f64::from_bits(bits).to_string()
    }
    fn int_to_float(&self, i: i64) -> u64 {
        (i as f64).to_bits()
    }
    fn mul(&self, a: u64, b: u64) -> u64 {
        (f64::from_bits(a) * f64::from_bits(b)).to_bits()
    }
    fn round_to(&self, bits: u64, decimals: u32) -> u64 {
        let f = f64::from_bits(bits);
        let factor = 10f64.powi(decimals as i32);
        ((f * factor).round() / factor).to_bits()
    }
}

fn field(name: &str, dtype: DataType, required: bool) -> Field {
    Field { name: name.to_string(), dtype, required }
}

fn model() -> Model {
    Model {
        name: "t".to_string(),
        fields: vec![field("id", DataType::Integer, true), field("note", DataType::String, false)],
    }
}

#[test]
fn validate_passes_conforming_record() {
    let mut r = Record::new();
    r.insert("id".into(), Value::Integer(1));
    assert!(model().validate(&r, &F64).is_empty());
}

#[test]
fn validate_flags_missing_required_and_bad_type() {
    let mut r = Record::new();
    r.insert("note".into(), Value::Integer(7));
    let errors = model().validate(&r, &F64);
    assert_eq!(errors.len(), 2);
    assert!(errors[0].contains("required field 'id'"));
    assert!(errors[1].contains("expected string"));
    assert_eq!(errors[0], "required field 'id' is missing");
    assert_eq!(errors[1], "field 'note' expected string but got integer (7)");
}

#[test]
fn parse_str_empty_is_null() {
    assert_eq!(DataType::Integer.parse_str("", &F64).unwrap(), Value::Null);
    for t in [DataType::String, DataType::Float, DataType::Boolean, DataType::Date] {
        assert_eq!(t.parse_str("", &F64).unwrap(), Value::Null);
    }
}

#[test]
fn validate_treats_null_as_missing_and_ignores_undeclared_fields() {
    let mut r = Record::new();
    r.insert("id".into(), Value::Null);
    r.insert("extra".into(), Value::Bool(true));
    let errors = model().validate(&r, &F64);
    assert_eq!(errors, vec!["required field 'id' is missing".to_string()]);
    let mut r = Record::new();
    r.insert("id".into(), Value::Float(2.5f64.to_bits()));
    let errors = model().validate(&r, &F64);
    assert_eq!(errors, vec!["field 'id' expected integer but got float (2.5)".to_string()]);
}

#[test]
fn parse_str_by_type() {
    let a = &F64;
    assert_eq!(DataType::String.parse_str(" x ", a).unwrap(), Value::String(" x ".into()));
    assert_eq!(DataType::Integer.parse_str("-42", a).unwrap(), Value::Integer(-42));
    assert_eq!(DataType::Integer.parse_str("+7", a).unwrap(), Value::Integer(7));
    assert_eq!(DataType::Integer.parse_str("1.0", a).unwrap_err(), "'1.0' is not a valid integer");
    assert_eq!(
        DataType::Integer.parse_str("9223372036854775808", a).unwrap_err(),
        "'9223372036854775808' is not a valid integer"
    );
    assert_eq!(DataType::Float.parse_str("1250.50", a).unwrap(), Value::Float(1250.5f64.to_bits()));
    assert_eq!(DataType::Float.parse_str("not-a-number", a).unwrap_err(), "'not-a-number' is not a valid float");
    assert_eq!(DataType::Boolean.parse_str("Yes", a).unwrap(), Value::Bool(true));
    assert_eq!(DataType::Boolean.parse_str("0", a).unwrap(), Value::Bool(false));
    assert_eq!(DataType::Boolean.parse_str("FALSE", a).unwrap(), Value::Bool(false));
    assert_eq!(DataType::Boolean.parse_str("maybe", a).unwrap_err(), "'maybe' is not a valid boolean");
    assert_eq!(
        DataType::Date.parse_str("1815-12-10", a).unwrap(),
        Value::Date(Date::from_ymd(1815, 12, 10).unwrap())
    );
    assert_eq!(
        DataType::Date.parse_str("12/10/1815", a).unwrap_err(),
        "'12/10/1815' is not a valid ISO date (YYYY-MM-DD)"
    );
}

#[test]
fn coerce_json_cells() {
    let a = &F64;
    assert_eq!(DataType::Integer.coerce_json(&JsonCell::Null, a).unwrap(), Value::Null);
    let five = JsonCell::Number { integer: Some(5), text: "5".into() };
    assert_eq!(DataType::Integer.coerce_json(&five, a).unwrap(), Value::Integer(5));
    assert_eq!(DataType::Float.coerce_json(&five, a).unwrap(), Value::Float(5f64.to_bits()));
    let half = JsonCell::Number { integer: None, text: "1.5".into() };
    assert_eq!(DataType::Integer.coerce_json(&half, a).unwrap_err(), "JSON value 1.5 is not a valid integer");
    assert_eq!(DataType::String.coerce_json(&five, a).unwrap_err(), "JSON value 5 is not a valid string");
    assert_eq!(DataType::Boolean.coerce_json(&JsonCell::Bool(true), a).unwrap(), Value::Bool(true));
    assert_eq!(
        DataType::Integer.coerce_json(&JsonCell::Bool(true), a).unwrap_err(),
        "JSON value true is not a valid integer"
    );
    assert_eq!(
        DataType::Date.coerce_json(&JsonCell::String("2020-02-29".into()), a).unwrap(),
        Value::Date(Date::from_ymd(2020, 2, 29).unwrap())
    );
    assert_eq!(DataType::Integer.coerce_json(&JsonCell::String("12".into()), a).unwrap(), Value::Integer(12));
    assert_eq!(
        DataType::String.coerce_json(&JsonCell::Other("[1,2]".into()), a).unwrap_err(),
        "JSON value [1,2] is not a valid string"
    );
}

#[test]
fn check_and_names() {
    assert!(DataType::Date.check(&Value::Null));
    assert!(DataType::Float.check(&Value::Float(0)));
    assert!(!DataType::Float.check(&Value::Integer(0)));
    assert!(DataType::Boolean.check(&Value::Bool(false)));
    assert!(!DataType::String.check(&Value::Bool(false)));
    assert_eq!(DataType::Boolean.name(), "boolean");
    assert_eq!(DataType::Date.name(), "date");
    assert_eq!(Value::Bool(true).kind_name(), "boolean");
    assert_eq!(Value::Null.kind_name(), "null");
}

#[test]
fn model_field_finds_first_by_name() {
    let m = Model {
        name: "m".into(),
        fields: vec![
            field("a", DataType::Integer, false),
            field("b", DataType::String, true),
            field("a", DataType::Date, true),
        ],
    };
    assert_eq!(m.field("a").unwrap().dtype, DataType::Integer);
    assert!(m.field("b").unwrap().required);
    assert!(m.field("c").is_none());
}

#[test]
fn dates_exist_only_in_the_calendar() {
    assert!(Date::from_ymd(2024, 2, 29).is_some());
    assert!(Date::from_ymd(2023, 2, 29).is_none());
    assert!(Date::from_ymd(1900, 2, 29).is_none());
    assert!(Date::from_ymd(2000, 2, 29).is_some());
    assert!(Date::from_ymd(2023, 4, 31).is_none());
    assert!(Date::from_ymd(2023, 13, 1).is_none());
    assert!(Date::from_ymd(262142, 12, 31).is_some());
    assert!(Date::from_ymd(262143, 1, 1).is_none());
    assert!(Date::from_ymd(-262143, 1, 1).is_some());
    assert!(Date::from_ymd(-262144, 12, 31).is_none());
    let d = Date::from_ymd(-1, 1, 1).unwrap();
    assert_eq!(d.text(), "-0001-01-01");
    assert_eq!(Date::from_ymd(10000, 12, 31).unwrap().text(), "+10000-12-31");
    assert_eq!(Date::from_ymd(5, 3, 9).unwrap().text(), "0005-03-09");
    let d = Date::from_ymd(2015, 9, 5).unwrap();
    assert_eq!((d.year(), d.month(), d.day()), (2015, 9, 5));
    assert_eq!(d.format("%A, %-d %B").unwrap(), "Saturday, 5 September");
}

#[test]
fn value_text() {
    let a = &F64;
    assert_eq!(Value::Null.text(a), "");
    assert_eq!(Value::Integer(-12).text(a), "-12");
    assert_eq!(Value::Bool(false).text(a), "false");
    assert_eq!(Value::Float(0.1f64.to_bits()).text(a), "0.1");
    assert_eq!(Value::String("x y".into()).text(a), "x y");
    assert!(Value::Null.is_null());
    assert!(!Value::String(String::new()).is_null());
}

#[test]
fn integer_text_edges() {
    let a = &F64;
    assert_eq!(DataType::Integer.parse_str("+7", a).unwrap(), Value::Integer(7));
    assert_eq!(DataType::Integer.parse_str("-9223372036854775808", a).unwrap(), Value::Integer(i64::MIN));
    assert_eq!(DataType::Integer.parse_str("9223372036854775807", a).unwrap(), Value::Integer(i64::MAX));
    assert_eq!(
        DataType::Integer.parse_str("9223372036854775808", a).unwrap_err(),
        "'9223372036854775808' is not a valid integer"
    );
    assert_eq!(DataType::Integer.parse_str("-", a).unwrap_err(), "'-' is not a valid integer");
    assert_eq!(DataType::Integer.parse_str("1_0", a).unwrap_err(), "'1_0' is not a valid integer");
    assert_eq!(DataType::Integer.parse_str(" 1", a).unwrap_err(), "' 1' is not a valid integer");
}
