use tds_etl::date::Date;
use tds_etl::float::FloatArith;
use tds_etl::io::{csv_row, Endpoint, Format, RowResult};
use tds_etl::mapping::{FieldMap, Mapping};
use tds_etl::model::{DataType, Field, Model};
use tds_etl::pipeline::{Pipeline, PipelineSpec, Stage};
use tds_etl::record::Record;
use tds_etl::transform::Transform;
use tds_etl::value::Value;

/// Binary64 arithmetic through Rust's `f64`.
struct F64;

impl FloatArith for F64 {
    fn parse_float(&self, text: &str) -> Option<u64> {
        text.parse::<f64>().ok().map(f64::to_bits)
    }
    fn float_text(&self, bits: u64) -> String {
        f64::from_bits(bits).to_string()
    }
    fn int_to_float(&self, i: i64) -> u64 {
        (i as f64).to_bits()
    }
    fn mul(&self, a: u64, b: u64) -> u64 {
        (f64::from_bits(a) * f64::from_bits(b)).to_bits()
    }
    fn round_to(&self, bits: u64, decimals: u32) -> u64 {
        let f = f64::from_bits(bits);
        let factor = 10f64.powi(decimals as i32);
        ((f * factor).round() / factor).to_bits()
    }
}

fn field(name: &str, dtype: DataType, required: bool) -> Field {
    Field { name: name.to_string(), dtype, required }
}

fn fm(target: &str, source: Option<&str>, sources: &[&str], transforms: Vec<Transform>) -> FieldMap {
    FieldMap {
        target: target.to_string(),
        source: source.map(|s| s.to_string()),
        sources: sources.iter().map(|s| s.to_string()).collect(),
        transforms,
    }
}

fn endpoint(format: Format, path: &str) -> Endpoint {
    Endpoint { format, path: path.to_string() }
}

/// The customers example of the documentation: raw customers to customers.
fn customers() -> Pipeline {
    let left = Model {
        name: "customer_raw".into(),
        fields: vec![
            field("first_name", DataType::String, true),
            field("last_name", DataType::String, false),
            field("dob", DataType::String, false),
            field("balance", DataType::Float, false),
            field("status", DataType::String, false),
        ],
    };
    let right = Model {
        name: "customer".into(),
        fields: vec![
            field("full_name", DataType::String, true),
            field("birth_date", DataType::Date, false),
            field("balance_cents", DataType::Integer, false),
            field("is_active", DataType::Boolean, false),
            field("source_system", DataType::String, false),
        ],
    };
    let mut table = Record::new();
    table.insert("active".into(), Value::Bool(true));
    table.insert("inactive".into(), Value::Bool(false));
    let mapping = Mapping {
        left: "customer_raw".into(),
        right: "customer".into(),
        fields: vec![
            fm(
                "full_name",
                None,
                &["first_name", "last_name"],
                vec![Transform::Trim, Transform::Concat { separator: " ".into() }],
            ),
            fm("birth_date", Some("dob"), &[], vec![Transform::ParseDate { format: "%m/%d/%Y".into() }]),
            fm(
                "balance_cents",
                Some("balance"),
                &[],
                vec![
                    Transform::Multiply { by: 100f64.to_bits() },
                    Transform::Round { decimals: 0 },
                    Transform::Cast { to: DataType::Integer },
                ],
            ),
            fm(
                "is_active",
                Some("status"),
                &[],
                vec![Transform::Trim, Transform::Lowercase, Transform::Lookup { table, default: None }],
            ),
            fm("source_system", None, &[], vec![Transform::Constant { value: Value::String("legacy_crm".into()) }]),
        ],
    };
    let spec = PipelineSpec {
        left_model: "left.yaml".into(),
        right_model: "right.yaml".into(),
        mapping: "map.yaml".into(),
        input: endpoint(Format::Csv, "input.csv"),
        output: endpoint(Format::Json, "../out/customers.json"),
        rejects: Some("../out/customers.rejects.json".into()),
    };
    Pipeline { spec: PipelineSpec::load(spec, "examples/customers/pipeline.yaml"), left, right, mapping }
}

fn strings(cells: &[&str]) -> Vec<String> {
    cells.iter().map(|c| c.to_string()).collect()
}

fn customer_rows(p: &Pipeline) -> Vec<RowResult> {
    let headers = strings(&["first_name", "last_name", "dob", "balance", "status"]);
    let data = [
        ["Ada", "Lovelace", "12/10/1815", "1250.50", "active"],
        ["Grace", "Hopper", "12/09/1906", "99.95", " Active "],
        ["Alan", "Turing", "", "0", "inactive"],
        ["", "Unknown", "01/01/1900", "10", "active"],
        ["Bad", "Balance", "01/01/1900", "not-a-number", "active"],
        ["Pending", "Person", "01/01/1900", "5", "pending"],
    ];
    data.iter().map(|row| csv_row(&headers, &strings(row), &p.left, &F64)).collect()
}

#[test]
fn customers_example_runs_end_to_end() {
    let pipeline = customers();
    assert!(pipeline.check().is_ok());
    let (output, report) = pipeline.process(customer_rows(&pipeline), &F64);

    assert_eq!(report.rows_read, 6);
    assert_eq!(report.rows_written, 3);
    assert_eq!(report.rejects.len(), 3);

    // Row 4: missing required first_name -> left validation.
    // Row 5: balance not a float -> extract (coercion against left model).
    // Row 6: status 'pending' not in lookup table -> transform.
    let stages: Vec<(usize, Stage)> = report.rejects.iter().map(|r| (r.row, r.stage)).collect();
    assert!(stages.contains(&(4, Stage::ValidateLeft)));
    assert!(stages.contains(&(5, Stage::Extract)));
    assert!(stages.contains(&(6, Stage::Transform)));

    assert_eq!(output.len(), 3);
    let text = |v: Option<&Value>| v.map(|v| v.text(&F64));
    assert_eq!(text(output[0].get("full_name")), Some("Ada Lovelace".to_string()));
    assert_eq!(text(output[0].get("birth_date")), Some("1815-12-10".to_string()));
    assert_eq!(output[0].get("balance_cents"), Some(&Value::Integer(125050)));
    assert_eq!(output[0].get("is_active"), Some(&Value::Bool(true)));
    assert_eq!(output[1].get("balance_cents"), Some(&Value::Integer(9995))); // 99.95 * 100 rounded exactly
    assert_eq!(text(output[2].get("full_name")), Some("Alan Turing".to_string()));
    assert_eq!(output[2].get("birth_date"), Some(&Value::Null)); // empty dob passes through
    assert_eq!(output[2].get("is_active"), Some(&Value::Bool(false)));
    for row in &output {
        assert_eq!(row.get("source_system"), Some(&Value::String("legacy_crm".into())));
    }
}

#[test]
fn mapped_record_stays_typed_in_memory() {
    let pipeline = customers();
    let mut rec = Record::new();
    rec.insert("first_name".into(), Value::String("Ada".into()));
    rec.insert("last_name".into(), Value::String("Lovelace".into()));
    rec.insert("balance".into(), Value::Float(1.5f64.to_bits()));
    rec.insert("status".into(), Value::String("active".into()));
    let out = pipeline.mapping.apply(&rec, &F64).unwrap();
    assert_eq!(out.get("balance_cents"), Some(&Value::Integer(150)));
    assert_eq!(out.get("is_active"), Some(&Value::Bool(true)));
    assert!(pipeline.right.validate(&out, &F64).is_empty());
}

#[test]
fn rejects_carry_reasons_and_snapshots() {
    let pipeline = customers();
    let (_, report) = pipeline.process(customer_rows(&pipeline), &F64);
    let left = &report.rejects[0];
    assert_eq!((left.row, left.stage), (4, Stage::ValidateLeft));
    assert_eq!(left.errors, vec!["required field 'first_name' is missing".to_string()]);
    assert_eq!(left.record.as_ref().unwrap().get("last_name"), Some(&Value::String("Unknown".into())));
    let extract = &report.rejects[1];
    assert_eq!((extract.row, extract.stage), (5, Stage::Extract));
    assert_eq!(extract.errors, vec!["field 'balance': 'not-a-number' is not a valid float".to_string()]);
    assert!(extract.record.is_none());
    let transform = &report.rejects[2];
    assert_eq!((transform.row, transform.stage), (6, Stage::Transform));
    assert_eq!(
        transform.errors,
        vec!["target 'is_active': lookup: no entry for 'pending' and no default given".to_string()]
    );
}

#[test]
fn right_validation_rejects_mapped_rows() {
    let mut pipeline = customers();
    pipeline.right.fields[4].dtype = DataType::Integer;
    let (output, report) = pipeline.process(customer_rows(&pipeline), &F64);
    assert!(output.is_empty());
    assert_eq!(report.rows_written, 0);
    assert_eq!(report.rejects.len(), 6);
    let r = &report.rejects[0];
    assert_eq!((r.row, r.stage), (1, Stage::ValidateRight));
    assert_eq!(r.errors, vec!["field 'source_system' expected integer but got string (legacy_crm)".to_string()]);
    assert_eq!(r.record.as_ref().unwrap().get("source_system"), Some(&Value::String("legacy_crm".into())));
}

#[test]
fn inconsistent_mapping_is_refused_before_any_row() {
    let mut pipeline = customers();
    pipeline.mapping.right = "other".into();
    pipeline.mapping.fields.remove(0);
    assert_eq!(
        pipeline.validate(),
        vec![
            "mapping declares right model 'other' but was given 'customer'".to_string(),
            "required right field 'full_name' has no mapping".to_string(),
        ]
    );
    assert_eq!(
        pipeline.check().unwrap_err(),
        "mapping is inconsistent with the models:\n  - mapping declares right model 'other' but was given 'customer'\n  - required right field 'full_name' has no mapping"
    );
}

#[test]
fn spec_paths_resolve_against_the_spec_directory() {
    let pipeline = customers();
    let spec = &pipeline.spec;
    assert_eq!(spec.left_model, "examples/customers/left.yaml");
    assert_eq!(spec.mapping, "examples/customers/map.yaml");
    assert_eq!(spec.input.path, "examples/customers/input.csv");
    assert_eq!(spec.input.format, Format::Csv);
    assert_eq!(spec.output.path, "examples/customers/../out/customers.json");
    assert_eq!(spec.rejects.as_deref(), Some("examples/customers/../out/customers.rejects.json"));

    let raw = PipelineSpec {
        left_model: "/abs/left.yaml".into(),
        right_model: "right.yaml".into(),
        mapping: "map.json".into(),
        input: endpoint(Format::Jsonl, "in.jsonl"),
        output: endpoint(Format::Csv, "out/x.csv"),
        rejects: None,
    };
    let spec = PipelineSpec::load(raw, "pipeline.yaml");
    assert_eq!(spec.left_model, "/abs/left.yaml");
    assert_eq!(spec.right_model, "right.yaml");
    assert_eq!(spec.output.path, "out/x.csv");
    assert_eq!(spec.output.format, Format::Csv);
    assert!(spec.rejects.is_none());
}

#[test]
fn empty_input_writes_nothing() {
    let pipeline = customers();
    let (output, report) = pipeline.process(Vec::new(), &F64);
    assert!(output.is_empty());
    assert_eq!((report.rows_read, report.rows_written, report.rejects.len()), (0, 0, 0));
}

#[test]
fn run_report_starts_empty() {
    let report = tds_etl::pipeline::RunReport::default();
    assert_eq!((report.rows_read, report.rows_written, report.rejects.len()), (0, 0, 0));
}

#[test]
fn extracted_date_is_typed() {
    let pipeline = customers();
    let mut rec = Record::new();
    rec.insert("first_name".into(), Value::String("A".into()));
    rec.insert("dob".into(), Value::String("02/29/2000".into()));
    let out = pipeline.mapping.apply(&rec, &F64).unwrap();
    assert_eq!(out.get("birth_date"), Some(&Value::Date(Date::from_ymd(2000, 2, 29).unwrap())));
    assert_eq!(out.get("balance_cents"), Some(&Value::Null));
    assert_eq!(out.get("is_active"), Some(&Value::Null));
}

#[test]
fn a_spec_loaded_from_two_places_differs_only_in_paths() {
    let raw = || PipelineSpec {
        left_model: "/abs/left.yaml".into(),
        right_model: "right.yaml".into(),
        mapping: "map.json".into(),
        input: endpoint(Format::Jsonl, "in.jsonl"),
        output: endpoint(Format::Csv, "/abs/out.csv"),
        rejects: Some("rejects.json".into()),
    };
    let a = PipelineSpec::load(raw(), "one/pipeline.yaml");
    let b = PipelineSpec::load(raw(), "two/deeper/pipeline.yaml");
    assert_eq!(a.input.format, b.input.format);
    assert_eq!(a.output.format, b.output.format);
    assert_eq!(a.left_model, b.left_model);
    assert_eq!(a.output.path, b.output.path);
    assert_eq!(a.right_model, "one/right.yaml");
    assert_eq!(b.right_model, "two/deeper/right.yaml");
    assert_eq!(a.rejects.as_deref(), Some("one/rejects.json"));
    assert_eq!(b.rejects.as_deref(), Some("two/deeper/rejects.json"));
    let c = PipelineSpec::load(raw(), "one/other.yaml");
    assert_eq!(a.mapping, c.mapping);
    assert_eq!(a.input.path, c.input.path);
}
