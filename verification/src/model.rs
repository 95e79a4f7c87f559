//! Models: named, ordered lists of typed fields, and the checks of a record
//! against one.
use vstd::prelude::*;
use crate::date::Date;
use crate::float::{
    binary_decimal, exact_decimal, finite_parts, float_read_fits, float_syntax, is_negative, law_round_parts_exact,
    magnitude, minus_sign, read_float, FloatArith,
};
use crate::record::{entries, lookup, record_get, Entries, Record};
use crate::text::{ascii_lower, concat3, decimal_i64, parse_i64, same_text, to_ascii_lowercase, unsigned_part};
use crate::value::{kind_name_of, value_text, Value, ValueView};

verus! {

/// Declared type of a model field.
#[derive(Debug, Clone, Copy, PartialEq, Eq, Structural)]
pub enum DataType {
    String,
    Integer,
    Float,
    Boolean,
    Date,
}

/// The name of a data type as model files write it.
pub open spec fn type_label(t: DataType) -> Seq<char> {
    match t {
        DataType::String => "string"@,
        DataType::Integer => "integer"@,
        DataType::Float => "float"@,
        DataType::Boolean => "boolean"@,
        DataType::Date => "date"@,
    }
}

/// Does a value satisfy a declared type? Null satisfies every type.
pub open spec fn type_accepts(t: DataType, v: ValueView) -> bool {
    match (t, v) {
        (_, ValueView::Null) => true,
        (DataType::String, ValueView::String(_)) => true,
        (DataType::Integer, ValueView::Integer(_)) => true,
        (DataType::Float, ValueView::Float(_)) => true,
        (DataType::Boolean, ValueView::Bool(_)) => true,
        (DataType::Date, ValueView::Date(_)) => true,
        _ => false,
    }
}

/// A result as the contracts see it.
pub open spec fn result_view(r: Result<Value, String>) -> Result<ValueView, Seq<char>> {
    match r {
        Ok(v) => Ok(v@),
        Err(e) => Err(e@),
    }
}

/// `'<raw>'` followed by `tail`.
pub open spec fn quoted(raw: Seq<char>, tail: Seq<char>) -> Seq<char> {
    "'"@ + raw + tail
}

/// The format of ISO dates in text cells.
pub open spec fn iso_format() -> Seq<char> {
    "%Y-%m-%d"@
}

/// What parsing a raw text cell gives for a declared type. Empty text is
/// null. A float's value comes from the float implementation, so a float
/// cell with text of the float syntax is `None` here.
pub open spec fn parse_spec(t: DataType, raw: Seq<char>) -> Option<Result<ValueView, Seq<char>>> {
    if raw.len() == 0 {
        Some(Ok(ValueView::Null))
    } else {
        match t {
            DataType::String => Some(Ok(ValueView::String(raw))),
            DataType::Integer => Some(
                match decimal_i64(raw) {
                    Some(i) => Ok(ValueView::Integer(i)),
                    None => Err(quoted(raw, "' is not a valid integer"@)),
                },
            ),
            DataType::Float => if float_syntax(raw) {
                None
            } else {
                Some(Err(quoted(raw, "' is not a valid float"@)))
            },
            DataType::Boolean => {
                let l = ascii_lower(raw);
                Some(
                    if l == "true"@ || l == "1"@ || l == "yes"@ {
                        Ok(ValueView::Bool(true))
                    } else if l == "false"@ || l == "0"@ || l == "no"@ {
                        Ok(ValueView::Bool(false))
                    } else {
                        Err(quoted(raw, "' is not a valid boolean"@))
                    },
                )
            },
            DataType::Date => Some(
                match crate::date::chrono_parse(raw, iso_format()) {
                    Ok(t) => Ok(ValueView::Date(Date::from_parts(t.0, t.1, t.2))),
                    Err(_) => Err(quoted(raw, "' is not a valid ISO date (YYYY-MM-DD)"@)),
                },
            ),
        }
    }
}

/// The outcomes parsing a raw text cell can have: the one `parse_spec`
/// gives, or, for text a float parser accepts, a float with the text's
/// sign and, where `exact_decimal` reads the text, the text's decimal value
/// rounded to nearest.
pub open spec fn parse_allows(t: DataType, raw: Seq<char>, r: Result<ValueView, Seq<char>>) -> bool {
    match parse_spec(t, raw) {
        Some(x) => r == x,
        None => r matches Ok(ValueView::Float(b)) && float_read_fits(raw, b),
    }
}

/// A JSON cell as read from a JSON document, with the text that JSON
/// writes for it where an error message needs that text.
#[derive(Debug)]
pub enum JsonCell {
    Null,
    Bool(bool),
    /// A number: its value as an `i64` when it is one, and its JSON text.
    Number { integer: Option<i64>, text: String },
    String(String),
    /// An array or an object, by its JSON text.
    Other(String),
}

/// A JSON cell as the contracts see it: texts by their characters.
pub enum JsonCellView {
    Null,
    Bool(bool),
    Number { integer: Option<i64>, text: Seq<char> },
    String(Seq<char>),
    Other(Seq<char>),
}

impl View for JsonCell {
    type V = JsonCellView;

    open spec fn view(&self) -> JsonCellView {
        match self {
            JsonCell::Null => JsonCellView::Null,
            JsonCell::Bool(b) => JsonCellView::Bool(*b),
            JsonCell::Number { integer, text } => JsonCellView::Number { integer: *integer, text: text@ },
            JsonCell::String(s) => JsonCellView::String(s@),
            JsonCell::Other(text) => JsonCellView::Other(text@),
        }
    }
}

/// JSON text of a cell that is not a string.
pub open spec fn json_text(c: JsonCellView) -> Seq<char> {
    match c {
        JsonCellView::Null => "null"@,
        JsonCellView::Bool(b) => if b {
            "true"@
        } else {
            "false"@
        },
        JsonCellView::Number { text, .. } => text,
        JsonCellView::String(s) => s,
        JsonCellView::Other(text) => text,
    }
}

/// What coercing a JSON cell to a declared type gives; `None` where a float
/// has to be read from text.
pub open spec fn coerce_spec(t: DataType, c: JsonCellView) -> Option<Result<ValueView, Seq<char>>> {
    match (t, c) {
        (_, JsonCellView::Null) => Some(Ok(ValueView::Null)),
        (DataType::String, JsonCellView::String(s)) => Some(Ok(ValueView::String(s))),
        (DataType::Integer, JsonCellView::Number { integer: Some(i), .. }) => Some(Ok(ValueView::Integer(i))),
        (DataType::Float, JsonCellView::Number { text, .. }) => if float_syntax(text) {
            None
        } else {
            Some(Err("JSON value "@ + text + " is not a valid "@ + type_label(t)))
        },
        (DataType::Boolean, JsonCellView::Bool(b)) => Some(Ok(ValueView::Bool(b))),
        (_, JsonCellView::String(s)) => parse_spec(t, s),
        _ => Some(Err("JSON value "@ + json_text(c) + " is not a valid "@ + type_label(t))),
    }
}

/// The outcomes coercing a JSON cell can have: the one `coerce_spec` gives,
/// or, where a float is read from text, a float as `float_read_fits` says.
pub open spec fn coerce_allows(t: DataType, c: JsonCellView, r: Result<ValueView, Seq<char>>) -> bool {
    match coerce_spec(t, c) {
        Some(x) => r == x,
        None => match c {
            JsonCellView::String(s) => parse_allows(t, s, r),
            JsonCellView::Number { text, .. } => r matches Ok(ValueView::Float(b)) && float_read_fits(text, b),
            _ => false,
        },
    }
}

impl DataType {
    pub fn name(&self) -> (r: &'static str)
        ensures
            r@ == type_label(*self),
    {
        match self {
            DataType::String => "string",
            DataType::Integer => "integer",
            DataType::Float => "float",
            DataType::Boolean => "boolean",
            DataType::Date => "date",
        }
    }

    /// Parse a raw text cell (e.g. from CSV) into a typed value.
    /// Empty text is treated as null.
    pub fn parse_str<A: FloatArith>(&self, raw: &str, arith: &A) -> (r: Result<Value, String>)
        ensures
            parse_allows(*self, raw@, result_view(r)),
            r matches Ok(v) ==> type_accepts(*self, v@),
    {
        if raw.unicode_len() == 0 {
            return Ok(Value::Null);
        }
        match self {
            DataType::String => Ok(Value::String(String::from_str(raw))),
            DataType::Integer => match parse_i64(raw) {
                Some(i) => Ok(Value::Integer(i)),
                None => Err(concat3("'", raw, "' is not a valid integer")),
            },
            DataType::Float => match read_float(arith, raw) {
                Some(f) => Ok(Value::Float(f)),
                None => Err(concat3("'", raw, "' is not a valid float")),
            },
            DataType::Boolean => {
                let lower = to_ascii_lowercase(raw);
                let l = lower.as_str();
                if same_text(l, "true") || same_text(l, "1") || same_text(l, "yes") {
                    Ok(Value::Bool(true))
                } else if same_text(l, "false") || same_text(l, "0") || same_text(l, "no") {
                    Ok(Value::Bool(false))
                } else {
                    Err(concat3("'", raw, "' is not a valid boolean"))
                }
            },
            DataType::Date => match Date::parse(raw, "%Y-%m-%d") {
                Ok(d) => Ok(Value::Date(d)),
                Err(_) => Err(concat3("'", raw, "' is not a valid ISO date (YYYY-MM-DD)")),
            },
        }
    }

    /// Coerce a JSON cell into this type.
    pub fn coerce_json<A: FloatArith>(&self, c: &JsonCell, arith: &A) -> (r: Result<Value, String>)
        ensures
            coerce_allows(*self, c@, result_view(r)),
    {
        match (self, c) {
            (_, JsonCell::Null) => Ok(Value::Null),
            (DataType::String, JsonCell::String(s)) => Ok(Value::String(s.clone())),
            (DataType::Integer, JsonCell::Number { integer: Some(i), .. }) => Ok(Value::Integer(*i)),
            (DataType::Float, JsonCell::Number { text, .. }) => match read_float(arith, text.as_str()) {
                Some(f) => Ok(Value::Float(f)),
                None => {
                    let mut msg = concat3("JSON value ", text.as_str(), " is not a valid ");
                    msg.append(self.name());
                    Err(msg)
                },
            },
            (DataType::Boolean, JsonCell::Bool(b)) => Ok(Value::Bool(*b)),
            (_, JsonCell::String(s)) => self.parse_str(s.as_str(), arith),
            (_, JsonCell::Bool(b)) => {
                let text = if *b {
                    "true"
                } else {
                    "false"
                };
                let mut msg = concat3("JSON value ", text, " is not a valid ");
                msg.append(self.name());
                Err(msg)
            },
            (_, JsonCell::Number { text, .. }) => {
                let mut msg = concat3("JSON value ", text.as_str(), " is not a valid ");
                msg.append(self.name());
                Err(msg)
            },
            (_, JsonCell::Other(text)) => {
                let mut msg = concat3("JSON value ", text.as_str(), " is not a valid ");
                msg.append(self.name());
                Err(msg)
            },
        }
    }

    /// Does an in-memory value satisfy this declared type?
    pub fn check(&self, v: &Value) -> (r: bool)
        ensures
            r == type_accepts(*self, v@),
    {
        match (self, v) {
            (_, Value::Null) => true,
            (DataType::String, Value::String(_)) => true,
            (DataType::Integer, Value::Integer(_)) => true,
            (DataType::Float, Value::Float(_)) => true,
            (DataType::Boolean, Value::Bool(_)) => true,
            (DataType::Date, Value::Date(_)) => true,
            _ => false,
        }
    }
}

/// One field of a model.
#[derive(Debug)]
pub struct Field {
    pub name: String,
    pub dtype: DataType,
    pub required: bool,
}

/// A data model: an ordered set of typed fields. Both the left (source) and
/// right (target) side of a mapping are described by one of these.
#[derive(Debug)]
pub struct Model {
    pub name: String,
    pub fields: Vec<Field>,
}

/// Position of the first field named `name`.
pub open spec fn first_field(fields: Seq<Field>, name: Seq<char>) -> Option<int>
    decreases fields.len(),
{
    if fields.len() == 0 {
        None
    } else if fields[0].name@ == name {
        Some(0)
    } else {
        match first_field(fields.skip(1), name) {
            Some(i) => Some(i + 1),
            None => None,
        }
    }
}

/// The text of a message: exactly known, or known around the text of a
/// float that it shows.
pub enum MsgSpec {
    Exact(Seq<char>),
    Around(Seq<char>, Seq<char>),
}

/// `x` between `pre` and `post`.
pub open spec fn framed(pre: Seq<char>, x: Seq<char>, post: Seq<char>) -> Seq<char> {
    pre + x + post
}

/// `m` is some text framed by `pre` and `post`: it starts with `pre`, ends
/// with `post`, and the two do not overlap.
pub open spec fn framed_by(m: Seq<char>, pre: Seq<char>, post: Seq<char>) -> bool {
    &&& m.len() >= pre.len() + post.len()
    &&& m.subrange(0, pre.len() as int) == pre
    &&& m.subrange(m.len() - post.len(), m.len() as int) == post
}

/// Text between `pre` and `post` is framed by them.
pub proof fn lemma_framed(pre: Seq<char>, x: Seq<char>, post: Seq<char>)
    ensures
        framed_by(framed(pre, x, post), pre, post),
{
    let m = framed(pre, x, post);
    assert(m.subrange(0, pre.len() as int) =~= pre);
    assert(m.subrange(m.len() - post.len(), m.len() as int) =~= post);
}

/// A message has the stated text.
pub open spec fn msg_fits(m: Seq<char>, s: MsgSpec) -> bool {
    match s {
        MsgSpec::Exact(t) => m == t,
        MsgSpec::Around(pre, post) => framed_by(m, pre, post),
    }
}

/// What is wrong with one field of a record, if anything.
pub open spec fn field_issue(f: Field, es: Entries) -> Option<MsgSpec> {
    let missing = match lookup(es, f.name@) {
        Some(v) => v is Null,
        None => true,
    };
    if missing {
        if f.required {
            Some(MsgSpec::Exact("required field '"@ + f.name@ + "' is missing"@))
        } else {
            None
        }
    } else {
        let v = lookup(es, f.name@).unwrap();
        if type_accepts(f.dtype, v) {
            None
        } else {
            let pre = "field '"@ + f.name@ + "' expected "@ + type_label(f.dtype) + " but got "@ + kind_name_of(v)
                + " ("@;
            Some(
                match value_text(v) {
                    Some(t) => MsgSpec::Exact(pre + t + ")"@),
                    None => MsgSpec::Around(pre, ")"@),
                },
            )
        }
    }
}

/// The problems of a record against a list of fields, in field order.
pub open spec fn issues(fields: Seq<Field>, es: Entries) -> Seq<MsgSpec>
    decreases fields.len(),
{
    if fields.len() == 0 {
        Seq::empty()
    } else {
        let prev = issues(fields.drop_last(), es);
        match field_issue(fields.last(), es) {
            Some(m) => prev.push(m),
            None => prev,
        }
    }
}

/// A record conforms to a list of fields: every required field is present
/// and not null, and every present value has its field's declared type.
pub open spec fn conforms(fields: Seq<Field>, es: Entries) -> bool {
    forall|i: int| 0 <= i < fields.len() ==> #[trigger] field_issue(fields[i], es) is None
}

/// The messages match the problems: as many, in order, each with its
/// stated text.
pub open spec fn messages_match(msgs: Seq<String>, problems: Seq<MsgSpec>) -> bool {
    &&& msgs.len() == problems.len()
    &&& forall|i: int| 0 <= i < msgs.len() ==> msg_fits(msgs[i]@, #[trigger] problems[i])
}

impl Model {
    pub fn field(&self, name: &str) -> (r: Option<&Field>)
        ensures
            match first_field(self.fields@, name@) {
                Some(i) => r matches Some(f) && *f == self.fields@[i],
                None => r is None,
            },
    {
        let mut i: usize = 0;
        while i < self.fields.len()
            invariant
                i <= self.fields.len(),
                forall|j: int| 0 <= j < i ==> (#[trigger] self.fields@[j]).name@ != name@,
            decreases self.fields.len() - i,
        {
            if same_text(self.fields[i].name.as_str(), name) {
                proof {
                    lemma_first_field(self.fields@, name@, i as int);
                }
                return Some(&self.fields[i]);
            }
            i += 1;
        }
        proof {
            lemma_first_field(self.fields@, name@, i as int);
        }
        None
    }

    /// Validate a record against this model. Returns one message per problem;
    /// empty means the record conforms. Fields not declared in the model are
    /// ignored (they simply won't be mapped).
    pub fn validate<A: FloatArith>(&self, record: &Record, arith: &A) -> (r: Vec<String>)
        ensures
            messages_match(r@, issues(self.fields@, entries(*record))),
    {
        let mut errors: Vec<String> = Vec::new();
        let mut i: usize = 0;
        while i < self.fields.len()
            invariant
                i <= self.fields.len(),
                messages_match(errors@, issues(self.fields@.take(i as int), entries(*record))),
            decreases self.fields.len() - i,
        {
            let field = &self.fields[i];
            assert(self.fields@.take(i + 1).drop_last() =~= self.fields@.take(i as int));
            assert(self.fields@.take(i + 1).last() == *field);
            let ghost issue = field_issue(*field, entries(*record));
            let ghost before = errors@;
            match record_get(record, field.name.as_str()) {
                Some(v) if !v.is_null() => {
                    if !field.dtype.check(v) {
                        let mut msg = concat3("field '", field.name.as_str(), "' expected ");
                        msg.append(field.dtype.name());
                        msg.append(" but got ");
                        msg.append(v.kind_name());
                        msg.append(" (");
                        let ghost pre = msg@;
                        let text = v.text(arith);
                        msg.append(text.as_str());
                        msg.append(")");
                        proof {
                            assert(pre =~= "field '"@ + field.name@ + "' expected "@ + type_label(field.dtype)
                                + " but got "@ + kind_name_of(v@) + " ("@);
                            assert(msg@ =~= pre + text@ + ")"@);
                            assert(msg@ == framed(pre, text@, ")"@));
                            lemma_framed(pre, text@, ")"@);
                        }
                        errors.push(msg);
                    }
                },
                _ => {
                    if field.required {
                        let msg = concat3("required field '", field.name.as_str(), "' is missing");
                        assert(msg@ =~= "required field '"@ + field.name@ + "' is missing"@);
                        errors.push(msg);
                    }
                },
            }
            proof {
                let p = issues(self.fields@.take(i + 1), entries(*record));
                assert forall|j: int| 0 <= j < errors@.len() implies msg_fits(errors@[j]@, #[trigger] p[j]) by {
                    if j < before.len() {
                        assert(errors@[j] == before[j]);
                    }
                }
            }
            i += 1;
        }
        assert(self.fields@.take(self.fields.len() as int) =~= self.fields@);
        errors
    }
}

/// The first field named `name` is the first one whose name is `name`.
pub proof fn lemma_first_field(fields: Seq<Field>, name: Seq<char>, i: int)
    requires
        0 <= i <= fields.len(),
        forall|j: int| 0 <= j < i ==> (#[trigger] fields[j]).name@ != name,
    ensures
        i < fields.len() && fields[i].name@ == name ==> first_field(fields, name) == Some(i),
        i == fields.len() ==> first_field(fields, name) is None,
    decreases i,
{
    if i > 0 {
        let rest = fields.skip(1);
        assert forall|j: int| 0 <= j < i - 1 implies (#[trigger] rest[j]).name@ != name by {
            assert(rest[j] == fields[j + 1]);
        }
        lemma_first_field(rest, name, i - 1);
        assert(fields[0].name@ != name);
        if i < fields.len() {
            assert(rest[i - 1] == fields[i]);
        }
    }
}

/// The problems of a record against a model are none exactly when the
/// record conforms.
pub proof fn law_validate_empty_iff_conforms(fields: Seq<Field>, es: Entries)
    ensures
        issues(fields, es).len() == 0 <==> conforms(fields, es),
    decreases fields.len(),
{
    if fields.len() > 0 {
        law_validate_empty_iff_conforms(fields.drop_last(), es);
        lemma_issues_len_bound(fields.drop_last(), es);
        if conforms(fields, es) {
            assert forall|i: int| 0 <= i < fields.drop_last().len() implies #[trigger] field_issue(
                fields.drop_last()[i],
                es,
            ) is None by {
                assert(fields.drop_last()[i] == fields[i]);
            }
            assert(field_issue(fields[fields.len() - 1], es) is None);
        } else {
            let k = choose|i: int| 0 <= i < fields.len() && !(#[trigger] field_issue(fields[i], es) is None);
            if k < fields.len() - 1 {
                assert(fields.drop_last()[k] == fields[k]);
                assert(!conforms(fields.drop_last(), es));
            }
        }
    }
}

proof fn lemma_issues_len_bound(fields: Seq<Field>, es: Entries)
    ensures
        issues(fields, es).len() <= fields.len(),
    decreases fields.len(),
{
    if fields.len() > 0 {
        lemma_issues_len_bound(fields.drop_last(), es);
    }
}

} // verus!

verus! {

/// An empty cell is null, whatever type its field declares.
pub proof fn law_empty_cell_is_null(t: DataType)
    ensures
        parse_spec(t, Seq::empty()) == Some(Ok::<ValueView, Seq<char>>(ValueView::Null)),
{
}

/// Null satisfies every declared type; whether a missing value is a
/// problem is decided by `required` alone.
pub proof fn law_null_satisfies_every_type(t: DataType)
    ensures
        type_accepts(t, ValueView::Null),
{
}

/// A parsed cell has the type it was parsed as.
pub proof fn law_parsed_value_has_declared_type(t: DataType, raw: Seq<char>)
    ensures
        parse_spec(t, raw) matches Some(Ok(v)) ==> type_accepts(t, v),
{
}

/// In a record whose cells were typed by the model (as extraction leaves
/// them), for a model whose field names are distinct, the only problem left
/// to validation is a required field that is missing or null.
pub proof fn law_typed_records_fail_only_on_missing(model: Model, es: Entries)
    requires
        crate::io::typed_by(model, es),
        forall|i: int, j: int| 0 <= i < j < model.fields@.len() ==> (#[trigger] model.fields@[i]).name@
            != (#[trigger] model.fields@[j]).name@,
    ensures
        forall|i: int| 0 <= i < model.fields@.len() ==> (#[trigger] field_issue(model.fields@[i], es)) is Some
            ==> model.fields@[i].required && (lookup(es, model.fields@[i].name@) matches Some(v) ==> v is Null),
{
    assert forall|i: int| 0 <= i < model.fields@.len() && (#[trigger] field_issue(model.fields@[i], es)) is Some
        implies model.fields@[i].required && (lookup(es, model.fields@[i].name@) matches Some(v) ==> v is Null) by {
        let f = model.fields@[i];
        crate::record::lemma_find_key_bound(es, f.name@);
        if let Some(k) = crate::record::find_key(es, f.name@) {
            assert forall|j: int| 0 <= j < i implies (#[trigger] model.fields@[j]).name@ != f.name@ by {}
            lemma_first_field(model.fields@, f.name@, i);
            assert(first_field(model.fields@, es[k].0) == Some(i));
        }
    }
}

/// A non-empty float cell is read exactly when `str::parse::<f64>` accepts
/// its text (by the grammar the standard library documents); the float
/// read is negative exactly when the text starts with `-`, and where
/// `exact_decimal` reads the text it is the decimal value rounded to
/// nearest; otherwise the cell is refused with its text.
pub proof fn law_float_cell_read_iff_float_syntax(raw: Seq<char>, r: Result<ValueView, Seq<char>>)
    requires
        raw.len() > 0,
        parse_allows(DataType::Float, raw, r),
    ensures
        r is Ok <==> float_syntax(raw),
        r matches Ok(w) ==> (w matches ValueView::Float(b) && is_negative(b) == minus_sign(raw)),
        r matches Ok(w) ==> (w matches ValueView::Float(b) && (exact_decimal(unsigned_part(ascii_lower(raw)))
            matches Some(pp) ==> finite_parts(b) == Some(pp))),
        r is Err ==> r == Err::<ValueView, Seq<char>>(quoted(raw, "' is not a valid float"@)),
{
}

/// A float cell whose decimal value a float holds exactly (the digits
/// times `5^K`, or divided by `5^-K`, below 2^53) reads as exactly that
/// value with the text's sign: `-12.5` reads as -12.5.
pub proof fn law_exact_float_cell(raw: Seq<char>, r: Result<ValueView, Seq<char>>)
    requires
        raw.len() > 0,
        float_syntax(raw),
        parse_allows(DataType::Float, raw, r),
        binary_decimal(unsigned_part(ascii_lower(raw))) matches Some((p, e)) && p < 0x20_0000_0000_0000,
    ensures
        r matches Ok(ValueView::Float(b)) && is_negative(b) == minus_sign(raw),
        r matches Ok(ValueView::Float(b)) && (binary_decimal(unsigned_part(ascii_lower(raw))) matches Some((p, e))
            && finite_parts(b) matches Some((sig, q)) && q <= e && sig == p * vstd::arithmetic::power2::pow2(
            (e - q) as nat,
        )),
{
    let (p, e) = binary_decimal(unsigned_part(ascii_lower(raw)))->Some_0;
    if p > 0 {
        law_round_parts_exact(p, e);
    }
}

/// A JSON number read as a float agrees with the same text read from a
/// CSV cell: both are read or both are refused, both carry the text's
/// sign, and where the text's decimal value is read exactly they are the
/// same float.
pub proof fn law_json_number_reads_like_its_text(
    integer: Option<i64>,
    text: Seq<char>,
    r1: Result<ValueView, Seq<char>>,
    r2: Result<ValueView, Seq<char>>,
)
    requires
        text.len() > 0,
        coerce_allows(DataType::Float, JsonCellView::Number { integer, text }, r1),
        parse_allows(DataType::Float, text, r2),
    ensures
        r1 is Ok <==> r2 is Ok,
        r1 matches Ok(w) ==> (w matches ValueView::Float(b) && is_negative(b) == minus_sign(text)),
        r2 matches Ok(w) ==> (w matches ValueView::Float(b) && is_negative(b) == minus_sign(text)),
        r1 is Ok && exact_decimal(unsigned_part(ascii_lower(text))) is Some ==> r1 == r2,
{
    if r1 is Ok && exact_decimal(unsigned_part(ascii_lower(text))) is Some {
        crate::float::lemma_same_float(r1->Ok_0->Float_0, r2->Ok_0->Float_0);
    }
}

/// A minus sign before float text flips the sign of the float read and
/// nothing else about whether the text is read; where the decimal value is
/// read exactly, the magnitude stays.
pub proof fn law_minus_flips_float_sign(s: Seq<char>, r1: Result<ValueView, Seq<char>>, r2: Result<ValueView, Seq<char>>)
    requires
        s.len() > 0,
        s[0] != '+' && s[0] != '-',
        parse_allows(DataType::Float, s, r1),
        parse_allows(DataType::Float, seq!['-'] + s, r2),
    ensures
        r1 is Ok <==> r2 is Ok,
        r1 matches Ok(w1) ==> (w1 matches ValueView::Float(b1) && !is_negative(b1)),
        r2 matches Ok(w2) ==> (w2 matches ValueView::Float(b2) && is_negative(b2)),
        r1 is Ok && exact_decimal(ascii_lower(s)) is Some ==> magnitude(r1->Ok_0->Float_0) == magnitude(
            r2->Ok_0->Float_0,
        ),
{
    let t = seq!['-'] + s;
    let ls = crate::text::ascii_lower(s);
    let lt = crate::text::ascii_lower(t);
    assert(lt =~= seq!['-'] + ls);
    assert(lt.skip(1) =~= ls);
    assert(ls[0] == crate::text::ascii_lower_char(s[0]));
    assert(crate::text::unsigned_part(lt) == ls);
    assert(crate::text::unsigned_part(ls) == ls);
    assert(float_syntax(t) == float_syntax(s));
    if r1 is Ok && exact_decimal(ls) is Some {
        crate::float::lemma_magnitude_fields(r1->Ok_0->Float_0);
        crate::float::lemma_magnitude_fields(r2->Ok_0->Float_0);
    }
}

} // verus!
