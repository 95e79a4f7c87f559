use tds_etl::float::FloatArith;
use tds_etl::mapping::{FieldMap, Mapping};
use tds_etl::model::{DataType, Field, Model};
use tds_etl::record::Record;
use tds_etl::transform::Transform;
use tds_etl::value::Value;

/// Binary64 arithmetic through Rust's `f64`.
struct F64;

impl FloatArith for F64 {
    fn parse_float(&self, text: &str) -> Option<u64> {
        text.parse::<f64>().ok().map(f64::to_bits)
    }
    fn float_text(&self, bits: u64) -> String {
        f64::from_bits(bits).to_string()
    }
    fn int_to_float(&self, i: i64) -> u64 {
        (i as f64).to_bits()
    }
    fn mul(&self, a: u64, b: u64) -> u64 {
        (f64::from_bits(a) * f64::from_bits(b)).to_bits()
    }
    fn round_to(&self, bits: u64, decimals: u32) -> u64 {
        let f = f64::from_bits(bits);
        let factor = 10f64.powi(decimals as i32);
        ((f * factor).round() / factor).to_bits()
    }
}

fn field(name: &str, dtype: DataType, required: bool) -> Field {
    Field { name: name.to_string(), dtype, required }
}

fn models() -> (Model, Model) {
    let left = Model {
        name: "l".into(),
        fields: vec![field("a", DataType::String, false), field("b", DataType::String, false)],
    };
    let right = Model { name: "r".into(), fields: vec![field("ab", DataType::String, true)] };
    (left, right)
}

fn fm(target: &str, source: Option<&str>, sources: &[&str], transforms: Vec<Transform>) -> FieldMap {
    FieldMap {
        target: target.to_string(),
        source: source.map(|s| s.to_string()),
        sources: sources.iter().map(|s| s.to_string()).collect(),
        transforms,
    }
}

fn ab_record() -> Record {
    let mut rec = Record::new();
    rec.insert("a".into(), Value::String("x".into()));
    rec.insert("b".into(), Value::String("y".into()));
    rec
}

#[test]
fn validate_catches_unknown_fields_and_unmapped_required() {
    let (left, right) = models();
    let mapping = Mapping {
        left: "l".into(),
        right: "r".into(),
        fields: vec![fm("nope", Some("missing"), &[], vec![])],
    };
    let errors = mapping.validate(&left, &right);
    assert_eq!(errors.len(), 3);
    assert_eq!(errors[0], "target field 'nope' does not exist in right model 'r'");
    assert_eq!(errors[1], "source field 'missing' (for target 'nope') does not exist in left model 'l'");
    assert_eq!(errors[2], "required right field 'ab' has no mapping");
}

#[test]
fn apply_maps_two_sources_to_one_target() {
    let (_, _) = models();
    let mapping = Mapping {
        left: "l".into(),
        right: "r".into(),
        fields: vec![fm("ab", None, &["a", "b"], vec![Transform::Concat { separator: "-".into() }])],
    };
    let out = mapping.apply(&ab_record(), &F64).unwrap();
    assert_eq!(out.get("ab"), Some(&Value::String("x-y".into())));
}

#[test]
fn apply_reports_uncombined_sources() {
    let mapping = Mapping {
        left: "l".into(),
        right: "r".into(),
        fields: vec![fm("ab", None, &["a", "b"], vec![])],
    };
    let errors = mapping.apply(&ab_record(), &F64).unwrap_err();
    assert!(errors[0].contains("combining transform"));
    assert_eq!(
        errors[0],
        "target 'ab': 2 values remain after transforms; add a combining transform such as concat or coalesce"
    );
}

#[test]
fn validate_accepts_a_consistent_mapping() {
    let (left, right) = models();
    let mapping = Mapping {
        left: "l".into(),
        right: "r".into(),
        fields: vec![fm("ab", None, &["a", "b"], vec![Transform::Coalesce])],
    };
    assert!(mapping.validate(&left, &right).is_empty());
}

#[test]
fn validate_reports_names_duplicates_and_both_sources() {
    let (left, right) = models();
    let mapping = Mapping {
        left: "L".into(),
        right: "R".into(),
        fields: vec![
            fm("ab", Some("a"), &[], vec![]),
            fm("ab", Some("a"), &["b"], vec![]),
        ],
    };
    let errors = mapping.validate(&left, &right);
    assert_eq!(
        errors,
        vec![
            "mapping declares left model 'L' but was given 'l'".to_string(),
            "mapping declares right model 'R' but was given 'r'".to_string(),
            "target field 'ab' is mapped more than once".to_string(),
            "target field 'ab' declares both 'source' and 'sources'".to_string(),
        ]
    );
}

#[test]
fn apply_keeps_target_order_and_nulls_missing_sources() {
    let mapping = Mapping {
        left: "l".into(),
        right: "r".into(),
        fields: vec![
            fm("z", Some("missing"), &[], vec![]),
            fm("tag", None, &[], vec![Transform::Constant { value: Value::String("c".into()) }]),
            fm("empty", None, &[], vec![]),
            fm("a2", Some("a"), &[], vec![Transform::Uppercase]),
        ],
    };
    let out = mapping.apply(&ab_record(), &F64).unwrap();
    let keys: Vec<&String> = out.keys().collect();
    assert_eq!(keys, vec!["z", "tag", "empty", "a2"]);
    assert_eq!(out.get("z"), Some(&Value::Null));
    assert_eq!(out.get("tag"), Some(&Value::String("c".into())));
    assert_eq!(out.get("empty"), Some(&Value::Null));
    assert_eq!(out.get("a2"), Some(&Value::String("X".into())));
}

#[test]
fn apply_reports_each_failed_target() {
    let mapping = Mapping {
        left: "l".into(),
        right: "r".into(),
        fields: vec![
            fm("n", Some("a"), &[], vec![Transform::Cast { to: DataType::Integer }]),
            fm("ok", Some("b"), &[], vec![]),
            fm("m", Some("b"), &[], vec![Transform::Round { decimals: 0 }]),
        ],
    };
    let errors = mapping.apply(&ab_record(), &F64).unwrap_err();
    assert_eq!(
        errors,
        vec![
            "target 'n': 'x' is not a valid integer".to_string(),
            "target 'm': round: cannot apply to string value (y)".to_string(),
        ]
    );
}

#[test]
fn source_names_prefers_single_source() {
    let one = fm("t", Some("a"), &["b", "c"], vec![]);
    assert_eq!(one.source_names(), vec!["a"]);
    let many = fm("t", None, &["b", "c"], vec![]);
    assert_eq!(many.source_names(), vec!["b", "c"]);
    let none = fm("t", None, &[], vec![]);
    assert!(none.source_names().is_empty());
}

#[test]
fn a_float_step_leaves_other_targets_to_themselves() {
    let mut rec = Record::new();
    rec.insert("a".into(), Value::Integer(2));
    rec.insert("b".into(), Value::String("y".into()));
    let by = 1.5f64.to_bits();
    let failing = Mapping {
        left: "l".into(),
        right: "r".into(),
        fields: vec![
            fm("x", Some("a"), &[], vec![Transform::Multiply { by }]),
            fm("y", Some("b"), &[], vec![Transform::Cast { to: DataType::Integer }]),
        ],
    };
    let errors = failing.apply(&rec, &F64).unwrap_err();
    assert_eq!(errors, vec!["target 'y': 'y' is not a valid integer".to_string()]);
    let passing = Mapping {
        left: "l".into(),
        right: "r".into(),
        fields: vec![
            fm("x", Some("a"), &[], vec![Transform::Multiply { by }]),
            fm("y", Some("b"), &[], vec![Transform::Uppercase]),
        ],
    };
    let out = passing.apply(&rec, &F64).unwrap();
    assert_eq!(out.get("x"), Some(&Value::Float(3.0f64.to_bits())));
    assert_eq!(out.get("y"), Some(&Value::String("Y".into())));
}
