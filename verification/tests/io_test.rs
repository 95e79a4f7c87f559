use tds_etl::date::Date;
use tds_etl::float::FloatArith;
use tds_etl::io::{csv_row, csv_rows, json_cell, json_row, json_rows, jsonl_rows, model_values, row_cells, JsonItem};
use tds_etl::model::{DataType, Field, JsonCell, Model};
use tds_etl::record::Record;
use tds_etl::value::Value;

/// Binary64 arithmetic through Rust's `f64`.
struct F64;

impl FloatArith for F64 {
    fn parse_float(&self, text: &str) -> Option<u64> {
        text.parse::<f64>().ok().map(f64::to_bits)
    }
    fn float_text(&self, bits: u64) -> String {
        f64::from_bits(bits).to_string()
    }
    fn int_to_float(&self, i: i64) -> u64 {
        (i as f64).to_bits()
    }
    fn mul(&self, a: u64, b: u64) -> u64 {
        (f64::from_bits(a) * f64::from_bits(b)).to_bits()
    }
    fn round_to(&self, bits: u64, decimals: u32) -> u64 {
        let f = f64::from_bits(bits);
        let factor = 10f64.powi(decimals as i32);
        ((f * factor).round() / factor).to_bits()
    }
}

fn model() -> Model {
    Model {
        name: "m".into(),
        fields: vec![
            Field { name: "id".into(), dtype: DataType::Integer, required: true },
            Field { name: "when".into(), dtype: DataType::Date, required: false },
            Field { name: "score".into(), dtype: DataType::Float, required: false },
        ],
    }
}

fn strings(cells: &[&str]) -> Vec<String> {
    cells.iter().map(|c| c.to_string()).collect()
}

#[test]
fn csv_cells_are_coerced_by_the_model() {
    let headers = strings(&["id", "when", "note", "blank"]);
    let rec = csv_row(&headers, &strings(&["7", "2020-01-31", "hi", ""]), &model(), &F64).unwrap();
    let keys: Vec<&String> = rec.keys().collect();
    assert_eq!(keys, vec!["id", "when", "note", "blank"]);
    assert_eq!(rec.get("id"), Some(&Value::Integer(7)));
    assert_eq!(rec.get("when"), Some(&Value::Date(Date::from_ymd(2020, 1, 31).unwrap())));
    assert_eq!(rec.get("note"), Some(&Value::String("hi".into())));
    assert_eq!(rec.get("blank"), Some(&Value::Null));
}

#[test]
fn csv_row_collects_every_bad_cell() {
    let headers = strings(&["id", "when", "score"]);
    let errors = csv_row(&headers, &strings(&["x", "31/01/2020", "1e3"]), &model(), &F64).unwrap_err();
    assert_eq!(
        errors,
        vec![
            "field 'id': 'x' is not a valid integer".to_string(),
            "field 'when': '31/01/2020' is not a valid ISO date (YYYY-MM-DD)".to_string(),
        ]
    );
}

#[test]
fn csv_row_stops_at_the_shorter_of_headers_and_cells() {
    let rec = csv_row(&strings(&["id", "when"]), &strings(&["1"]), &model(), &F64).unwrap();
    assert_eq!(rec.len(), 1);
    let rec = csv_row(&strings(&["id"]), &strings(&["1", "extra"]), &model(), &F64).unwrap();
    assert_eq!(rec.len(), 1);
}

#[test]
fn json_items_are_coerced_by_the_model() {
    let item = JsonItem::Object(vec![
        ("id".into(), "3".into(), None),
        ("score".into(), "0.5".into(), None),
        ("tags".into(), "[\"a\"]".into(), None),
        ("flag".into(), "true".into(), None),
        ("gone".into(), "null".into(), None),
    ]);
    let rec = json_row(&item, &model(), &F64).unwrap();
    assert_eq!(rec.get("id"), Some(&Value::Integer(3)));
    assert_eq!(rec.get("score"), Some(&Value::Float(0.5f64.to_bits())));
    assert_eq!(rec.get("tags"), Some(&Value::String("[\"a\"]".into())));
    assert_eq!(rec.get("flag"), Some(&Value::String("true".into())));
    assert_eq!(rec.get("gone"), Some(&Value::Null));
}

#[test]
fn json_row_refuses_non_objects_and_bad_cells() {
    let errors = json_row(&JsonItem::NotObject("[1]".into()), &model(), &F64).unwrap_err();
    assert_eq!(errors, vec!["expected a JSON object, got [1]".to_string()]);
    let item = JsonItem::Object(vec![("id".into(), "false".into(), None)]);
    let errors = json_row(&item, &model(), &F64).unwrap_err();
    assert_eq!(errors, vec!["field 'id': JSON value false is not a valid integer".to_string()]);
}

#[test]
fn output_cells_follow_the_model() {
    let mut rec = Record::new();
    rec.insert("score".into(), Value::Float(2.25f64.to_bits()));
    rec.insert("other".into(), Value::Bool(true));
    rec.insert("id".into(), Value::Integer(-1));
    rec.insert("when".into(), Value::Null);
    assert_eq!(row_cells(&rec, &model(), &F64), strings(&["-1", "", "2.25"]));
    assert_eq!(row_cells(&Record::new(), &model(), &F64), strings(&["", "", ""]));
}

#[test]
fn csv_text_is_read_header_first() {
    let rows = csv_rows("id,when,note\n7,2020-01-31,hi\nx,,\n", &model(), &F64).unwrap();
    assert_eq!(rows.len(), 2);
    let first = rows[0].as_ref().unwrap();
    assert_eq!(first.get("id"), Some(&Value::Integer(7)));
    assert_eq!(first.get("note"), Some(&Value::String("hi".into())));
    assert_eq!(rows[1].as_ref().unwrap_err(), &vec!["field 'id': 'x' is not a valid integer".to_string()]);
}

#[test]
fn a_short_csv_record_is_a_row_that_could_not_be_read() {
    let rows = csv_rows("id,when\n1\n2,2020-01-01\n", &model(), &F64).unwrap();
    assert_eq!(rows.len(), 2);
    let errors = rows[0].as_ref().unwrap_err();
    assert_eq!(errors.len(), 1);
    assert!(errors[0].contains("found record with 1 field"), "{}", errors[0]);
    assert_eq!(rows[1].as_ref().unwrap().get("id"), Some(&Value::Integer(2)));
    assert!(csv_rows("id\n", &model(), &F64).unwrap().is_empty());
}

#[test]
fn json_text_must_be_an_array() {
    let rows = json_rows("[{\"id\": 3, \"score\": 0.5}, 7]", &model(), &F64).unwrap();
    assert_eq!(rows.len(), 2);
    let first = rows[0].as_ref().unwrap();
    assert_eq!(first.get("id"), Some(&Value::Integer(3)));
    assert_eq!(first.get("score"), Some(&Value::Float(0.5f64.to_bits())));
    assert_eq!(rows[1].as_ref().unwrap_err(), &vec!["expected a JSON object, got 7".to_string()]);
    assert_eq!(
        json_rows("{\"id\": 1}", &model(), &F64).unwrap_err(),
        "JSON input must be a top-level array of objects"
    );
    assert!(json_rows("[", &model(), &F64).is_err());
}

#[test]
fn json_lines_skip_blank_lines() {
    let text = "{\"id\": 1}\r\n\n   \n{\"id\": \"x\", \"tags\": [1, 2]}\n";
    let rows = jsonl_rows(text, &model(), &F64);
    assert_eq!(rows.len(), 2);
    assert_eq!(rows[0].as_ref().unwrap().get("id"), Some(&Value::Integer(1)));
    assert_eq!(rows[1].as_ref().unwrap_err(), &vec!["field 'id': 'x' is not a valid integer".to_string()]);
    assert!(jsonl_rows("", &model(), &F64).is_empty());
}

#[test]
fn a_json_line_that_is_not_json_is_a_row_that_could_not_be_read() {
    let rows = jsonl_rows("{\"id\": 1}\nnot json\n{\"id\": 2}\n", &model(), &F64);
    assert_eq!(rows.len(), 3);
    let errors = rows[1].as_ref().unwrap_err();
    assert_eq!(errors.len(), 1);
    assert!(errors[0].contains("at line 1 column"), "{}", errors[0]);
    assert_eq!(rows[2].as_ref().unwrap().get("id"), Some(&Value::Integer(2)));
}

#[test]
fn json_members_come_in_key_order_with_their_text() {
    let rows = json_rows("[{\"zeta\": [1, 2], \"id\": 4, \"flag\": false}]", &model(), &F64).unwrap();
    let rec = rows[0].as_ref().unwrap();
    let keys: Vec<&String> = rec.keys().collect();
    assert_eq!(keys, vec!["flag", "id", "zeta"]);
    assert_eq!(rec.get("zeta"), Some(&Value::String("[1,2]".into())));
    assert_eq!(rec.get("flag"), Some(&Value::String("false".into())));
}

#[test]
fn json_cells_are_told_apart_by_their_text() {
    assert!(matches!(json_cell(&"\"x\"".into(), &Some("x".into())), JsonCell::String(s) if s == "x"));
    assert!(matches!(json_cell(&"null".into(), &None), JsonCell::Null));
    assert!(matches!(json_cell(&"false".into(), &None), JsonCell::Bool(false)));
    assert!(matches!(json_cell(&"-12".into(), &None), JsonCell::Number { integer: Some(-12), .. }));
    assert!(matches!(json_cell(&"1.5".into(), &None), JsonCell::Number { integer: None, .. }));
    assert!(matches!(json_cell(&"18446744073709551615".into(), &None), JsonCell::Number { integer: None, .. }));
    assert!(matches!(json_cell(&"[1]".into(), &None), JsonCell::Other(t) if t == "[1]"));
}

#[test]
fn output_values_follow_the_model() {
    let mut rec = Record::new();
    rec.insert("other".into(), Value::Bool(true));
    rec.insert("score".into(), Value::Float(2.25f64.to_bits()));
    rec.insert("id".into(), Value::Integer(-1));
    let pairs = model_values(&rec, &model());
    assert_eq!(
        pairs,
        vec![
            ("id".to_string(), Value::Integer(-1)),
            ("when".to_string(), Value::Null),
            ("score".to_string(), Value::Float(2.25f64.to_bits())),
        ]
    );
}
