//! Transforms: pure data naming what to do to the values pulled from the
//! source fields, and their interpreter.
use vstd::prelude::*;
use crate::date::{chrono_format, chrono_parse, Date};
use crate::float::{
    float_of_int, int_float_fits, int_product_fits, is_nan, is_negative, magnitude, nearest_whole, product, product_fits,
    away_int, finite_parts, round_decimal_fits, rounded, whole_magnitude, whole_value, whole_value_of, FloatArith,
};
use crate::model::{framed, framed_by, lemma_framed, msg_fits, parse_allows, parse_spec, result_view, type_label, DataType, MsgSpec};
use crate::record::{entries, lookup, record_get, Record};
use crate::text::{
    concat3, i64_text, int_text, join, lemma_int_text_parses, replace, replaced, split, split_pieces, to_lowercase,
    to_uppercase, trim, trimmed, unicode_lower, unicode_upper, usize_text,
};
use crate::value::{kind_name_of, value_text, Value, ValueView};

verus! {

/// A transform is pure data, read from the mapping file. Each target field
/// declares a chain of these, applied left to right to the list of values
/// pulled from the source fields.
///
/// Scalar transforms (trim, cast, ...) apply element-wise and pass null
/// through untouched; combining transforms (concat, coalesce, constant)
/// reduce the list to a single value.
#[derive(Debug)]
#[allow(inconsistent_fields)]
pub enum Transform {
    Trim,
    Uppercase,
    Lowercase,
    Replace { from: String, to: String },
    Split { separator: String, index: usize },
    Concat { separator: String },
    Coalesce,
    Constant { value: Value },
    Default { value: Value },
    Lookup { table: Record, default: Option<Value> },
    Cast { to: DataType },
    ParseDate { format: String },
    FormatDate { format: String },
    /// Multiply by an `f64`, given by its bit pattern.
    Multiply { by: u64 },
    Round { decimals: u32 },
}

/// The values a list holds, as the contracts see them.
pub open spec fn views(vs: Seq<Value>) -> Seq<ValueView> {
    vs.map_values(|v: Value| v@)
}

pub open spec fn list_view(r: Result<Vec<Value>, String>) -> Result<Seq<ValueView>, Seq<char>> {
    match r {
        Ok(vs) => Ok(views(vs@)),
        Err(e) => Err(e@),
    }
}

/// Combining transforms reduce the whole list to one value.
pub open spec fn is_combining(t: Transform) -> bool {
    t is Concat || t is Coalesce || t is Constant
}

pub open spec fn transform_label(t: Transform) -> Seq<char> {
    match t {
        Transform::Trim => "trim"@,
        Transform::Uppercase => "uppercase"@,
        Transform::Lowercase => "lowercase"@,
        Transform::Replace { .. } => "replace"@,
        Transform::Split { .. } => "split"@,
        Transform::Concat { .. } => "concat"@,
        Transform::Coalesce => "coalesce"@,
        Transform::Constant { .. } => "constant"@,
        Transform::Default { .. } => "default"@,
        Transform::Lookup { .. } => "lookup"@,
        Transform::Cast { .. } => "cast"@,
        Transform::ParseDate { .. } => "parse_date"@,
        Transform::FormatDate { .. } => "format_date"@,
        Transform::Multiply { .. } => "multiply"@,
        Transform::Round { .. } => "round"@,
    }
}

/// The message for a value a transform does not take. Its text shows the
/// value, so it is known exactly except around the text of a float.
pub open spec fn type_error_msg(t: Transform, v: ValueView) -> MsgSpec {
    let pre = transform_label(t) + ": cannot apply to "@ + kind_name_of(v) + " value ("@;
    match value_text(v) {
        Some(x) => MsgSpec::Exact(pre + x + ")"@),
        None => MsgSpec::Around(pre, ")"@),
    }
}

/// The refusal of a value whose text is known.
pub open spec fn refused(t: Transform, v: ValueView) -> Option<Result<ValueView, Seq<char>>> {
    match type_error_msg(t, v) {
        MsgSpec::Exact(m) => Some(Err(m)),
        MsgSpec::Around(_, _) => None,
    }
}

/// Explicit type conversion, following the conversion matrix. `None` where
/// float arithmetic (or a float's text) decides the outcome.
pub open spec fn cast_spec(v: ValueView, to: DataType) -> Option<Result<ValueView, Seq<char>>> {
    match (v, to) {
        (_, DataType::String) => match value_text(v) {
            Some(x) => Some(Ok(ValueView::String(x))),
            None => None,
        },
        (ValueView::String(s), _) => parse_spec(to, s),
        (ValueView::Integer(i), DataType::Integer) => Some(Ok(ValueView::Integer(i))),
        (ValueView::Integer(_), DataType::Float) => None,
        (ValueView::Float(f), DataType::Integer) => match whole_value(f) {
            Some(k) => Some(Ok(ValueView::Integer(k))),
            None => None,
        },
        (ValueView::Float(f), DataType::Float) => Some(Ok(ValueView::Float(f))),
        (ValueView::Bool(b), DataType::Integer) => Some(
            Ok(ValueView::Integer(
                if b {
                    1
                } else {
                    0
                },
            )),
        ),
        (ValueView::Bool(b), DataType::Boolean) => Some(Ok(ValueView::Bool(b))),
        (ValueView::Date(d), DataType::Date) => Some(Ok(ValueView::Date(d))),
        _ => Some(Err("cast: cannot cast "@ + kind_name_of(v) + " to "@ + type_label(to))),
    }
}

/// The outcomes a cast can have: the one `cast_spec` gives, and where float
/// arithmetic decides, a value of the target type (an integer cast to a
/// float keeps its sign and becomes the nearest float, so its value when it
/// lies within 2^53 of zero) or the refusal to drop a fractional part.
pub open spec fn cast_allows(v: ValueView, to: DataType, r: Result<ValueView, Seq<char>>) -> bool {
    match cast_spec(v, to) {
        Some(x) => r == x,
        None => match (v, to) {
            (ValueView::String(s), _) => parse_allows(to, s, r),
            (_, DataType::String) => r matches Ok(w) && w is String,
            (ValueView::Integer(i), DataType::Float) => r matches Ok(ValueView::Float(b)) && is_negative(b) == (i < 0)
                && whole_magnitude(b) == Some(nearest_whole(if i < 0 { -i } else { i as int }))
                && (-0x20_0000_0000_0000 <= i <= 0x20_0000_0000_0000 ==> whole_value(b) == Some(i)),
            (ValueView::Float(_), DataType::Integer) => r matches Err(e) && framed_by(
                e,
                "cast: "@,
                " has a fractional part; round before casting to integer"@,
            ),
            _ => false,
        },
    }
}

/// A string transform applied to a string.
pub open spec fn string_step(t: Transform, s: Seq<char>) -> Result<ValueView, Seq<char>> {
    match t {
        Transform::Trim => Ok(ValueView::String(trimmed(s))),
        Transform::Uppercase => Ok(ValueView::String(unicode_upper(s))),
        Transform::Lowercase => Ok(ValueView::String(unicode_lower(s))),
        Transform::Replace { from, to } => Ok(ValueView::String(replaced(s, from@, to@))),
        Transform::Split { separator, index } => {
            let pieces = split_pieces(s, separator@);
            if index < pieces.len() {
                Ok(ValueView::String(pieces[index as int]))
            } else {
                Err("split index "@ + int_text(index as int) + " out of range for '"@ + s + "'"@)
            }
        },
        Transform::Lookup { table, default } => match lookup(entries(table), s) {
            Some(m) => Ok(m),
            None => match default {
                Some(d) => Ok(d@),
                None => Err("lookup: no entry for '"@ + s + "' and no default given"@),
            },
        },
        Transform::ParseDate { format } => match chrono_parse(s, format@) {
            Ok(p) => Ok(ValueView::Date(Date::from_parts(p.0, p.1, p.2))),
            Err(e) => Err("parse_date: '"@ + s + "' does not match '"@ + format@ + "': "@ + e),
        },
        _ => Ok(ValueView::String(s)),
    }
}

/// A scalar transform applied to one value, where the outcome does not
/// depend on float arithmetic. Null passes through every scalar transform
/// except `default`, which replaces it.
pub open spec fn scalar_spec(t: Transform, v: ValueView) -> Option<Result<ValueView, Seq<char>>> {
    if v is Null {
        Some(
            Ok(
                match t {
                    Transform::Default { value } => value@,
                    _ => ValueView::Null,
                },
            ),
        )
    } else {
        match t {
            Transform::Default { .. } => Some(Ok(v)),
            Transform::Cast { to } => cast_spec(v, to),
            Transform::FormatDate { format } => match v {
                ValueView::Date(d) => Some(
                    match chrono_format(d.spec_year(), d.spec_month(), d.spec_day(), format@) {
                        Some(x) => Ok(ValueView::String(x)),
                        None => Err("format_date: cannot write a date with format '"@ + format@ + "'"@),
                    },
                ),
                _ => refused(t, v),
            },
            Transform::Multiply { by } => match v {
                ValueView::Integer(i) => match whole_value(by) {
                    Some(k) => Some(integer_product(i, k)),
                    None => None,
                },
                ValueView::Float(_) => None,
                _ => refused(t, v),
            },
            Transform::Round { .. } => match v {
                ValueView::Float(_) => None,
                ValueView::Integer(_) => Some(Ok(v)),
                _ => refused(t, v),
            },
            _ => match v {
                ValueView::String(s) => Some(string_step(t, s)),
                _ => refused(t, v),
            },
        }
    }
}

/// What multiplying an integer by a whole factor `k` gives: the product
/// when it fits in an `i64`, otherwise the refusal naming both numbers.
pub open spec fn integer_product(i: i64, k: i64) -> Result<ValueView, Seq<char>> {
    if i64::MIN <= i * k <= i64::MAX {
        Ok(ValueView::Integer((i * k) as i64))
    } else {
        Err("multiply: "@ + int_text(i as int) + " times "@ + int_text(k as int) + " overflows a 64-bit integer"@)
    }
}

/// The outcomes a scalar transform can have on one value: the one
/// `scalar_spec` gives; otherwise the binary64 product of a float (or of the
/// float nearest to an integer) and the factor, a rounding as
/// `round_decimal_fits` says, a cast as `cast_allows` says, or the refusal
/// of a float the transform does not take.
pub open spec fn scalar_allows(t: Transform, v: ValueView, r: Result<ValueView, Seq<char>>) -> bool {
    match scalar_spec(t, v) {
        Some(x) => r == x,
        None => match t {
            Transform::Cast { to } => cast_allows(v, to, r),
            Transform::Multiply { by } => r matches Ok(ValueView::Float(b)) && match v {
                ValueView::Float(f) => product_fits(f, by, b),
                ValueView::Integer(i) => int_product_fits(i, by, b),
                _ => false,
            },
            Transform::Round { decimals } => r matches Ok(ValueView::Float(b)) && (v matches ValueView::Float(f)
                && round_decimal_fits(f, decimals, b)),
            _ => r matches Err(e) && msg_fits(e, type_error_msg(t, v)),
        },
    }
}

/// The list a scalar transform leaves from the outcome on each value: all
/// the values when none failed, otherwise the first error.
pub open spec fn collected(outs: Seq<Result<ValueView, Seq<char>>>) -> Result<Seq<ValueView>, Seq<char>>
    decreases outs.len(),
{
    if outs.len() == 0 {
        Ok(Seq::empty())
    } else {
        match collected(outs.drop_last()) {
            Ok(p) => match outs.last() {
                Ok(x) => Ok(p.push(x)),
                Err(e) => Err(e),
            },
            Err(e) => Err(e),
        }
    }
}

/// Outcomes on each value of a list, each one allowed for its value up to
/// the first error (the values after it are never looked at).
pub open spec fn map_fits(t: Transform, vals: Seq<ValueView>, outs: Seq<Result<ValueView, Seq<char>>>) -> bool {
    &&& outs.len() == vals.len()
    &&& forall|i: int|
        0 <= i < vals.len() && collected(outs.take(i)) is Ok ==> scalar_allows(t, vals[i], #[trigger] outs[i])
}

/// Texts for the values of a list: each one the value's text where it is
/// known (a float's text comes from the float implementation).
pub open spec fn texts_fit(vals: Seq<ValueView>, xs: Seq<Seq<char>>) -> bool {
    &&& xs.len() == vals.len()
    &&& forall|i: int| 0 <= i < vals.len() ==> (value_text(vals[i]) matches Some(x) ==> #[trigger] xs[i] == x)
}

/// The texts of the non-null values, in order.
pub open spec fn picked_texts(vals: Seq<ValueView>, xs: Seq<Seq<char>>) -> Seq<Seq<char>>
    decreases vals.len(),
{
    if vals.len() == 0 {
        Seq::empty()
    } else {
        let prev = picked_texts(vals.drop_last(), xs.drop_last());
        if vals.last() is Null {
            prev
        } else {
            prev.push(xs.last())
        }
    }
}

/// The first non-null value, or null when all are null.
pub open spec fn first_non_null(vals: Seq<ValueView>) -> ValueView
    decreases vals.len(),
{
    if vals.len() == 0 {
        ValueView::Null
    } else if !(vals[0] is Null) {
        vals[0]
    } else {
        first_non_null(vals.skip(1))
    }
}

/// The outcomes one transform can have on a list of values: `concat` joins
/// the texts of the non-null values, `coalesce` keeps the first non-null
/// value, `constant` gives its value; a scalar transform is applied to each
/// value in order and the first error ends it.
pub open spec fn one_allows(t: Transform, vals: Seq<ValueView>, r: Result<Seq<ValueView>, Seq<char>>) -> bool {
    match t {
        Transform::Concat { separator } => exists|xs: Seq<Seq<char>>|
            #[trigger] texts_fit(vals, xs) && r == Ok::<Seq<ValueView>, Seq<char>>(
                seq![ValueView::String(join(picked_texts(vals, xs), separator@))],
            ),
        Transform::Coalesce => r == Ok::<Seq<ValueView>, Seq<char>>(seq![first_non_null(vals)]),
        Transform::Constant { value } => r == Ok::<Seq<ValueView>, Seq<char>>(seq![value@]),
        _ => exists|outs: Seq<Result<ValueView, Seq<char>>>| #[trigger] map_fits(t, vals, outs) && r == collected(outs),
    }
}

/// One step of a chain: a list goes through the transform; an error stays.
pub open spec fn step_fits(t: Transform, before: Result<Seq<ValueView>, Seq<char>>, after: Result<Seq<ValueView>, Seq<char>>) -> bool {
    match before {
        Ok(v) => one_allows(t, v, after),
        Err(_) => after == before,
    }
}

/// Step `k` of a chain, from stage `k` to stage `k + 1`.
pub open spec fn step_at(ts: Seq<Transform>, stages: Seq<Result<Seq<ValueView>, Seq<char>>>, k: int) -> bool {
    step_fits(ts[k], stages[k], stages[k + 1])
}

/// What a list is before each transform of a chain and after the last: it
/// starts as the given values, and each step is one its transform allows.
pub open spec fn stages_fit(ts: Seq<Transform>, vals: Seq<ValueView>, stages: Seq<Result<Seq<ValueView>, Seq<char>>>) -> bool {
    &&& stages.len() == ts.len() + 1
    &&& stages[0] == Ok::<Seq<ValueView>, Seq<char>>(vals)
    &&& forall|k: int| 0 <= k < ts.len() ==> #[trigger] step_at(ts, stages, k)
}

/// The outcomes a chain of transforms can have, applied left to right to a
/// list of values; the first error ends it.
pub open spec fn chain_allows(ts: Seq<Transform>, vals: Seq<ValueView>, r: Result<Seq<ValueView>, Seq<char>>) -> bool {
    exists|stages: Seq<Result<Seq<ValueView>, Seq<char>>>| #[trigger] stages_fit(ts, vals, stages) && r == stages.last()
}

/// How many values a chain leaves from `n`: one after a combining transform,
/// otherwise as many as it was given.
pub open spec fn chain_len(ts: Seq<Transform>, n: nat) -> nat
    decreases ts.len(),
{
    if ts.len() == 0 {
        n
    } else if is_combining(ts.last()) {
        1
    } else {
        chain_len(ts.drop_last(), n)
    }
}

impl Transform {
    pub fn name(&self) -> (r: &'static str)
        ensures
            r@ == transform_label(*self),
    {
        match self {
            Transform::Trim => "trim",
            Transform::Uppercase => "uppercase",
            Transform::Lowercase => "lowercase",
            Transform::Replace { .. } => "replace",
            Transform::Split { .. } => "split",
            Transform::Concat { .. } => "concat",
            Transform::Coalesce => "coalesce",
            Transform::Constant { .. } => "constant",
            Transform::Default { .. } => "default",
            Transform::Lookup { .. } => "lookup",
            Transform::Cast { .. } => "cast",
            Transform::ParseDate { .. } => "parse_date",
            Transform::FormatDate { .. } => "format_date",
            Transform::Multiply { .. } => "multiply",
            Transform::Round { .. } => "round",
        }
    }
}

/// The message for a value a transform does not take.
fn type_error<A: FloatArith>(t: &Transform, v: &Value, arith: &A) -> (r: String)
    ensures
        msg_fits(r@, type_error_msg(*t, v@)),
{
    let mut msg = String::from_str(t.name());
    msg.append(": cannot apply to ");
    msg.append(v.kind_name());
    msg.append(" value (");
    let ghost pre = msg@;
    let text = v.text(arith);
    msg.append(text.as_str());
    msg.append(")");
    proof {
        let p = transform_label(*t) + ": cannot apply to "@ + kind_name_of(v@) + " value ("@;
        assert(pre =~= p);
        assert(msg@ =~= p + text@ + ")"@);
        match value_text(v@) {
            Some(x) => {
                assert(type_error_msg(*t, v@) == MsgSpec::Exact(p + x + ")"@));
                assert(msg_fits(msg@, type_error_msg(*t, v@)));
            },
            None => {
                assert(msg@ == framed(p, text@, ")"@));
                lemma_framed(p, text@, ")"@);
                assert(type_error_msg(*t, v@) == MsgSpec::Around(p, ")"@));
                assert(msg_fits(msg@, MsgSpec::Around(p, ")"@)));
                assert(msg_fits(msg@, type_error_msg(*t, v@)));
            },
        }
    }
    msg
}

/// Explicit type conversion of one value. A float becomes an integer only
/// when it has no fractional part: data loss has to be made explicit with
/// `round`.
pub fn cast<A: FloatArith>(v: Value, to: DataType, arith: &A) -> (r: Result<Value, String>)
    ensures
        cast_allows(v@, to, result_view(r)),
        r matches Ok(w) ==> crate::model::type_accepts(to, w@),
        v@ matches ValueView::Date(d) && 0 <= d.spec_year() <= 9999 && to == DataType::String ==> (r matches Ok(w)
            && cast_spec(w@, DataType::Date) == Some(Ok::<ValueView, Seq<char>>(v@))),
{
    match (v, to) {
        (v, DataType::String) => {
            let text = v.text(arith);
            proof {
                if let ValueView::Date(d) = v@ {
                    d.lemma_from_own_parts();
                    d.lemma_iso_nonempty();
                    assert(crate::model::iso_format() == crate::date::iso_date_format());
                }
            }
            Ok(Value::String(text))
        },
        (Value::String(s), to) => to.parse_str(s.as_str(), arith),
        (Value::Integer(i), DataType::Integer) => Ok(Value::Integer(i)),
        (Value::Integer(i), DataType::Float) => Ok(Value::Float(float_of_int(i))),
        (Value::Float(f), DataType::Integer) => match whole_value_of(f) {
            Some(i) => Ok(Value::Integer(i)),
            None => {
                let text = arith.float_text(f);
                let msg = concat3("cast: ", text.as_str(),
                    " has a fractional part; round before casting to integer");
                assert(msg@ == framed("cast: "@, text@, " has a fractional part; round before casting to integer"@));
                proof {
                    lemma_framed("cast: "@, text@, " has a fractional part; round before casting to integer"@);
                }
                Err(msg)
            },
        },
        (Value::Float(f), DataType::Float) => Ok(Value::Float(f)),
        (Value::Bool(b), DataType::Integer) => Ok(Value::Integer(
            if b {
                1
            } else {
                0
            },
        )),
        (Value::Bool(b), DataType::Boolean) => Ok(Value::Bool(b)),
        (Value::Date(d), DataType::Date) => Ok(Value::Date(d)),
        (v, to) => {
            let mut msg = concat3("cast: cannot cast ", v.kind_name(), " to ");
            msg.append(to.name());
            Err(msg)
        },
    }
}

/// An integer multiplied by a whole factor: the product, or the refusal
/// when it overflows an `i64`.
pub fn multiply_integer(i: i64, k: i64) -> (r: Result<Value, String>)
    ensures
        result_view(r) == integer_product(i, k),
{
    match i.checked_mul(k) {
        Some(p) => Ok(Value::Integer(p)),
        None => {
            let product = concat3(i64_text(i).as_str(), " times ", i64_text(k).as_str());
            let msg = concat3("multiply: ", product.as_str(), " overflows a 64-bit integer");
            assert(msg@ =~= "multiply: "@ + int_text(i as int) + " times "@ + int_text(k as int)
                + " overflows a 64-bit integer"@);
            Err(msg)
        },
    }
}

/// One scalar transform applied to one value.
pub fn apply_scalar<A: FloatArith>(t: &Transform, v: Value, arith: &A) -> (r: Result<Value, String>)
    requires
        !is_combining(*t),
    ensures
        scalar_allows(*t, v@, result_view(r)),
{
    if v.is_null() {
        return match t {
            Transform::Default { value } => Ok(value.clone()),
            _ => Ok(Value::Null),
        };
    }
    match t {
        Transform::Default { .. } => Ok(v),
        Transform::Cast { to } => cast(v, *to, arith),
        Transform::FormatDate { format } => match v {
            Value::Date(d) => match d.format(format.as_str()) {
                Some(x) => Ok(Value::String(x)),
                None => Err(concat3("format_date: cannot write a date with format '", format.as_str(), "'")),
            },
            other => Err(type_error(t, &other, arith)),
        },
        Transform::Multiply { by } => match v {
            Value::Integer(i) => match whole_value_of(*by) {
                Some(k) => multiply_integer(i, k),
                None => {
                    let c = float_of_int(i);
                    let b = product(c, *by);
                    assert(int_float_fits(i, c) && product_fits(c, *by, b));
                    assert(int_product_fits(i, *by, b));
                    Ok(Value::Float(b))
                },
            },
            Value::Float(f) => Ok(Value::Float(product(f, *by))),
            other => Err(type_error(t, &other, arith)),
        },
        Transform::Round { decimals } => match v {
            Value::Float(f) => Ok(Value::Float(rounded(arith, f, *decimals))),
            Value::Integer(i) => Ok(Value::Integer(i)),
            other => Err(type_error(t, &other, arith)),
        },
        _ => match v {
            Value::String(s) => string_transform(t, s, arith),
            other => Err(type_error(t, &other, arith)),
        },
    }
}

/// A string transform applied to a string.
fn string_transform<A: FloatArith>(t: &Transform, s: String, arith: &A) -> (r: Result<Value, String>)
    requires
        !is_combining(*t),
        !(t is Default || t is Cast || t is FormatDate || t is Multiply || t is Round),
    ensures
        result_view(r) == string_step(*t, s@),
{
    match t {
        Transform::Trim => Ok(Value::String(String::from_str(trim(s.as_str())))),
        Transform::Uppercase => Ok(Value::String(to_uppercase(s.as_str()))),
        Transform::Lowercase => Ok(Value::String(to_lowercase(s.as_str()))),
        Transform::Replace { from, to } => Ok(Value::String(replace(s.as_str(), from.as_str(), to.as_str()))),
        Transform::Split { separator, index } => {
            let mut pieces = split(s.as_str(), separator.as_str());
            if *index < pieces.len() {
                Ok(Value::String(pieces.swap_remove(*index)))
            } else {
                let mut msg = concat3("split index ", usize_text(*index).as_str(), " out of range for '");
                msg.append(s.as_str());
                msg.append("'");
                Err(msg)
            }
        },
        Transform::Lookup { table, default } => match record_get(table, s.as_str()) {
            Some(mapped) => Ok(mapped.clone()),
            None => match default {
                Some(d) => Ok(d.clone()),
                None => Err(concat3("lookup: no entry for '", s.as_str(), "' and no default given")),
            },
        },
        Transform::ParseDate { format } => match Date::parse(s.as_str(), format.as_str()) {
            Ok(d) => Ok(Value::Date(d)),
            Err(e) => {
                let mut msg = concat3("parse_date: '", s.as_str(), "' does not match '");
                msg.append(format.as_str());
                msg.append("': ");
                msg.append(e.as_str());
                Err(msg)
            },
        },
        _ => Ok(Value::String(s)),
    }
}

/// Apply a chain of transforms to the values pulled from the source fields.
pub fn apply_chain<A: FloatArith>(transforms: &[Transform], values: Vec<Value>, arith: &A) -> (r: Result<Vec<Value>, String>)
    ensures
        chain_allows(transforms@, views(values@), list_view(r)),
        r matches Ok(out) ==> out@.len() == chain_len(transforms@, values@.len()),
{
    let ghost ts = transforms@;
    let ghost v0 = views(values@);
    let ghost n0 = values@.len();
    let ghost mut stages: Seq<Result<Seq<ValueView>, Seq<char>>> = seq![Ok(v0)];
    let mut current = values;
    let mut i: usize = 0;
    assert(ts.take(0) =~= Seq::<Transform>::empty());
    while i < transforms.len()
        invariant
            i <= ts.len(),
            ts == transforms@,
            v0 == views(values@),
            stages.len() == i + 1,
            stages[0] == Ok::<Seq<ValueView>, Seq<char>>(v0),
            forall|k: int| 0 <= k < i ==> #[trigger] step_at(ts, stages, k),
            stages[i as int] == Ok::<Seq<ValueView>, Seq<char>>(views(current@)),
            current@.len() == chain_len(ts.take(i as int), n0),
        decreases transforms.len() - i,
    {
        assert(ts.take(i + 1).drop_last() =~= ts.take(i as int));
        assert(ts.take(i + 1).last() == ts[i as int]);
        let ghost prev = stages;
        let ghost cur = views(current@);
        let res = apply_one(&transforms[i], current, arith);
        proof {
            stages = stages.push(list_view(res));
            assert(one_allows(ts[i as int], cur, list_view(res)));
            assert(stages[i as int] == Ok::<Seq<ValueView>, Seq<char>>(cur));
            assert(stages[i + 1] == list_view(res));
            assert(step_at(ts, stages, i as int));
            assert forall|k: int| 0 <= k < i + 1 implies #[trigger] step_at(ts, stages, k) by {
                if k < i {
                    assert(stages[k] == prev[k] && stages[k + 1] == prev[k + 1]);
                    assert(step_at(ts, prev, k));
                }
            }
        }
        match res {
            Ok(next) => {
                current = next;
            },
            Err(e) => {
                proof {
                    let err: Result<Seq<ValueView>, Seq<char>> = Err(e@);
                    let full = stages + Seq::new((ts.len() - i - 1) as nat, |k: int| err);
                    assert forall|k: int| 0 <= k < ts.len() implies #[trigger] step_at(ts, full, k) by {
                        if k < i + 1 {
                            assert(full[k] == stages[k] && full[k + 1] == stages[k + 1]);
                            assert(step_at(ts, stages, k));
                        } else {
                            assert(full[k] == err && full[k + 1] == err);
                        }
                    }
                    assert(stages_fit(ts, v0, full));
                    assert(full.last() == err);
                }
                return Err(e);
            },
        }
        i += 1;
    }
    assert(ts.take(ts.len() as int) =~= ts);
    assert(stages_fit(ts, v0, stages));
    Ok(current)
}

/// Collecting stops at the first error: outcomes after it change nothing.
proof fn lemma_collected_err_prefix(a: Seq<Result<ValueView, Seq<char>>>, b: Seq<Result<ValueView, Seq<char>>>)
    requires
        collected(a) is Err,
    ensures
        collected(a + b) == collected(a),
    decreases b.len(),
{
    if b.len() > 0 {
        assert((a + b).drop_last() =~= a + b.drop_last());
        lemma_collected_err_prefix(a, b.drop_last());
    } else {
        assert(a + b =~= a);
    }
}

/// A list collected without error holds one value per outcome.
proof fn lemma_collected_ok(outs: Seq<Result<ValueView, Seq<char>>>)
    ensures
        collected(outs) matches Ok(w) ==> w.len() == outs.len() && forall|i: int|
            0 <= i < outs.len() ==> #[trigger] outs[i] == Ok::<ValueView, Seq<char>>(w[i]),
        collected(outs) is Ok ==> forall|k: int| 0 <= k <= outs.len() ==> #[trigger] collected(outs.take(k)) is Ok,
    decreases outs.len(),
{
    if outs.len() > 0 {
        let p = outs.drop_last();
        lemma_collected_ok(p);
        if collected(outs) is Ok {
            assert forall|k: int| 0 <= k <= outs.len() implies #[trigger] collected(outs.take(k)) is Ok by {
                if k < outs.len() {
                    assert(outs.take(k) =~= p.take(k));
                } else {
                    assert(outs.take(k) =~= outs);
                }
            }
            let w = collected(outs)->Ok_0;
            assert forall|i: int| 0 <= i < outs.len() implies #[trigger] outs[i] == Ok::<ValueView, Seq<char>>(w[i]) by {
                if i < outs.len() - 1 {
                    assert(outs[i] == p[i]);
                }
            }
        }
    }
}

/// When all values before position `k` are null, the first non-null value
/// is at `k` or there is none.
proof fn lemma_first_non_null(vals: Seq<ValueView>, k: int)
    requires
        0 <= k <= vals.len(),
        forall|j: int| 0 <= j < k ==> (#[trigger] vals[j]) is Null,
    ensures
        k < vals.len() && !(vals[k] is Null) ==> first_non_null(vals) == vals[k],
        k == vals.len() ==> first_non_null(vals) == ValueView::Null,
    decreases k,
{
    if k > 0 {
        let rest = vals.skip(1);
        assert forall|j: int| 0 <= j < k - 1 implies (#[trigger] rest[j]) is Null by {
            assert(rest[j] == vals[j + 1]);
        }
        lemma_first_non_null(rest, k - 1);
        assert(vals[0] is Null);
        if k < vals.len() {
            assert(rest[k - 1] == vals[k]);
        }
    }
}

/// Apply one transform to the list of values.
pub fn apply_one<A: FloatArith>(t: &Transform, values: Vec<Value>, arith: &A) -> (r: Result<Vec<Value>, String>)
    ensures
        one_allows(*t, views(values@), list_view(r)),
        r matches Ok(out) ==> out@.len() == (if is_combining(*t) {
            1
        } else {
            values@.len()
        }),
{
    let ghost vals = views(values@);
    match t {
        Transform::Concat { separator } => {
            let mut joined = String::new();
            let mut count: usize = 0;
            let ghost mut xs: Seq<Seq<char>> = Seq::empty();
            let mut i: usize = 0;
            assert(vals.take(0) =~= Seq::<ValueView>::empty());
            while i < values.len()
                invariant
                    i <= values@.len(),
                    vals == views(values@),
                    count <= i,
                    texts_fit(vals.take(i as int), xs),
                    joined@ == join(picked_texts(vals.take(i as int), xs), separator@),
                    picked_texts(vals.take(i as int), xs).len() == count,
                decreases values.len() - i,
            {
                let ghost prev_xs = xs;
                let ghost prev = joined@;
                assert(vals.take(i + 1).drop_last() =~= vals.take(i as int));
                assert(vals.take(i + 1).last() == values@[i as int]@);
                if !values[i].is_null() {
                    if count > 0 {
                        joined.append(separator.as_str());
                    }
                    let text = values[i].text(arith);
                    joined.append(text.as_str());
                    count += 1;
                    proof {
                        xs = xs.push(text@);
                        assert(xs.drop_last() =~= prev_xs);
                        let p = picked_texts(vals.take(i as int), prev_xs);
                        assert(p.push(text@).drop_last() =~= p);
                        if p.len() == 0 {
                            assert(prev =~= Seq::<char>::empty());
                            assert(joined@ =~= text@);
                        } else {
                            assert(joined@ =~= prev + separator@ + text@);
                        }
                    }
                } else {
                    proof {
                        xs = xs.push(Seq::<char>::empty());
                        assert(xs.drop_last() =~= prev_xs);
                    }
                }
                proof {
                    assert forall|j: int| 0 <= j < vals.take(i + 1).len() implies (value_text(
                        vals.take(i + 1)[j],
                    ) matches Some(x) ==> #[trigger] xs[j] == x) by {
                        if j < i {
                            assert(vals.take(i + 1)[j] == vals.take(i as int)[j]);
                            assert(xs[j] == prev_xs[j]);
                        }
                    }
                }
                i += 1;
            }
            assert(vals.take(values.len() as int) =~= vals);
            let ghost text = joined@;
            let mut out: Vec<Value> = Vec::new();
            out.push(Value::String(joined));
            assert(views(out@) =~= seq![ValueView::String(text)]);
            assert(texts_fit(vals, xs));
            Ok(out)
        },
        Transform::Coalesce => {
            let mut i: usize = 0;
            while i < values.len()
                invariant
                    i <= values@.len(),
                    vals == views(values@),
                    *t is Coalesce,
                    forall|j: int| 0 <= j < i ==> (#[trigger] vals[j]) is Null,
                decreases values.len() - i,
            {
                if !values[i].is_null() {
                    proof {
                        lemma_first_non_null(vals, i as int);
                    }
                    let first = values[i].clone();
                    let mut out: Vec<Value> = Vec::new();
                    out.push(first);
                    assert(views(out@) =~= seq![vals[i as int]]);
                    return Ok(out);
                }
                i += 1;
            }
            proof {
                lemma_first_non_null(vals, i as int);
            }
            let mut out: Vec<Value> = Vec::new();
            out.push(Value::Null);
            assert(views(out@) =~= seq![ValueView::Null]);
            Ok(out)
        },
        Transform::Constant { value } => {
            let mut out: Vec<Value> = Vec::new();
            out.push(value.clone());
            assert(views(out@) =~= seq![value@]);
            Ok(out)
        },
        _ => {
            let mut out: Vec<Value> = Vec::new();
            let ghost mut outs: Seq<Result<ValueView, Seq<char>>> = Seq::empty();
            let mut i: usize = 0;
            assert(views(out@) =~= Seq::<ValueView>::empty());
            while i < values.len()
                invariant
                    i <= values@.len(),
                    vals == views(values@),
                    out@.len() == i,
                    outs.len() == i,
                    !is_combining(*t),
                    collected(outs) == Ok::<Seq<ValueView>, Seq<char>>(views(out@)),
                    forall|j: int| 0 <= j < i ==> scalar_allows(*t, vals[j], #[trigger] outs[j]),
                decreases values.len() - i,
            {
                let ghost prev_outs = outs;
                let res = apply_scalar(t, values[i].clone(), arith);
                match res {
                    Ok(w) => {
                        let ghost prev = out@;
                        out.push(w);
                        proof {
                            outs = outs.push(Ok(w@));
                            assert(outs.drop_last() =~= prev_outs);
                            assert(views(out@) =~= views(prev).push(w@));
                        }
                    },
                    Err(e) => {
                        proof {
                            let rest: Seq<Result<ValueView, Seq<char>>> = Seq::new(
                                (vals.len() - i - 1) as nat,
                                |k: int| Err(e@),
                            );
                            let head = outs.push(Err(e@));
                            assert(head.drop_last() =~= outs);
                            assert(collected(head) == Err::<Seq<ValueView>, Seq<char>>(e@));
                            let full = head + rest;
                            lemma_collected_err_prefix(head, rest);
                            assert forall|j: int|
                                0 <= j < vals.len() && collected(full.take(j)) is Ok implies scalar_allows(
                                *t,
                                vals[j],
                                #[trigger] full[j],
                            ) by {
                                if j < i {
                                    assert(full[j] == outs[j]);
                                } else if j == i {
                                    assert(full[j] == Err::<ValueView, Seq<char>>(e@));
                                } else {
                                    assert(full.take(j) =~= head + rest.take(j - i - 1));
                                    lemma_collected_err_prefix(head, rest.take(j - i - 1));
                                }
                            }
                            assert(map_fits(*t, vals, full));
                        }
                        return Err(e);
                    },
                }
                i += 1;
            }
            proof {
                lemma_collected_ok(outs);
                assert forall|j: int|
                    0 <= j < vals.len() && collected(outs.take(j)) is Ok implies scalar_allows(
                    *t,
                    vals[j],
                    #[trigger] outs[j],
                ) by {}
                assert(map_fits(*t, vals, outs));
            }
            Ok(out)
        },
    }
}

} // verus!

verus! {

/// Null passes through every scalar transform untouched, except `default`,
/// whose purpose is to replace it.
pub proof fn law_null_passes_scalar_transforms(t: Transform)
    requires
        !is_combining(t),
    ensures
        scalar_spec(t, ValueView::Null) == Some(
            Ok::<ValueView, Seq<char>>(
                match t {
                    Transform::Default { value } => value@,
                    _ => ValueView::Null,
                },
            ),
        ),
{
}

/// `n` nulls.
pub open spec fn nulls(n: nat) -> Seq<ValueView> {
    Seq::new(n, |i: int| ValueView::Null)
}

/// Outcomes that fit a list fit each of its prefixes.
proof fn lemma_map_fits_prefix(t: Transform, vals: Seq<ValueView>, outs: Seq<Result<ValueView, Seq<char>>>, k: int)
    requires
        map_fits(t, vals, outs),
        0 <= k <= vals.len(),
    ensures
        map_fits(t, vals.take(k), outs.take(k)),
{
    assert forall|i: int|
        0 <= i < vals.take(k).len() && collected(outs.take(k).take(i)) is Ok implies scalar_allows(
        t,
        vals.take(k)[i],
        #[trigger] outs.take(k)[i],
    ) by {
        assert(outs.take(k).take(i) =~= outs.take(i));
        assert(outs.take(k)[i] == outs[i]);
    }
}

proof fn lemma_map_nulls(t: Transform, n: nat, outs: Seq<Result<ValueView, Seq<char>>>)
    requires
        !is_combining(t),
        !(t is Default),
        map_fits(t, nulls(n), outs),
    ensures
        collected(outs) == Ok::<Seq<ValueView>, Seq<char>>(nulls(n)),
    decreases n,
{
    if n > 0 {
        lemma_map_fits_prefix(t, nulls(n), outs, n - 1);
        assert(nulls(n).take(n - 1) =~= nulls((n - 1) as nat));
        assert(outs.take(n - 1) =~= outs.drop_last());
        lemma_map_nulls(t, (n - 1) as nat, outs.drop_last());
        assert(scalar_allows(t, nulls(n)[n - 1], outs[n - 1]));
        assert(nulls((n - 1) as nat).push(ValueView::Null) =~= nulls(n));
    } else {
        assert(nulls(n) =~= Seq::<ValueView>::empty());
    }
}

/// Once a chain has failed, every later stage is that failure.
proof fn lemma_error_persists(ts: Seq<Transform>, vals: Seq<ValueView>, stages: Seq<Result<Seq<ValueView>, Seq<char>>>, k: int, j: int)
    requires
        stages_fit(ts, vals, stages),
        0 <= k <= j <= ts.len(),
        stages[k] is Err,
    ensures
        stages[j] == stages[k],
    decreases j - k,
{
    if k < j {
        lemma_error_persists(ts, vals, stages, k, j - 1);
        assert(step_at(ts, stages, j - 1));
    }
}

/// Optional source fields flow through chains without special cases: a
/// chain of scalar transforms other than `default` leaves nulls as nulls.
pub proof fn law_nulls_flow_through_scalar_chains(ts: Seq<Transform>, n: nat, r: Result<Seq<ValueView>, Seq<char>>)
    requires
        forall|i: int| 0 <= i < ts.len() ==> !is_combining(#[trigger] ts[i]) && !(ts[i] is Default),
        chain_allows(ts, nulls(n), r),
    ensures
        r == Ok::<Seq<ValueView>, Seq<char>>(nulls(n)),
{
    let stages = choose|stages: Seq<Result<Seq<ValueView>, Seq<char>>>|
        #[trigger] stages_fit(ts, nulls(n), stages) && r == stages.last();
    lemma_null_stages(ts, n, stages, ts.len() as int);
}

proof fn lemma_null_stages(ts: Seq<Transform>, n: nat, stages: Seq<Result<Seq<ValueView>, Seq<char>>>, k: int)
    requires
        forall|i: int| 0 <= i < ts.len() ==> !is_combining(#[trigger] ts[i]) && !(ts[i] is Default),
        stages_fit(ts, nulls(n), stages),
        0 <= k <= ts.len(),
    ensures
        stages[k] == Ok::<Seq<ValueView>, Seq<char>>(nulls(n)),
    decreases k,
{
    if k > 0 {
        lemma_null_stages(ts, n, stages, k - 1);
        assert(step_at(ts, stages, k - 1));
        assert(!is_combining(ts[k - 1]) && !(ts[k - 1] is Default));
        let outs = choose|outs: Seq<Result<ValueView, Seq<char>>>|
            #[trigger] map_fits(ts[k - 1], nulls(n), outs) && stages[k] == collected(outs);
        lemma_map_nulls(ts[k - 1], n, outs);
    }
}

proof fn lemma_stage_lengths(ts: Seq<Transform>, vals: Seq<ValueView>, stages: Seq<Result<Seq<ValueView>, Seq<char>>>, k: int)
    requires
        stages_fit(ts, vals, stages),
        0 <= k <= ts.len(),
    ensures
        stages[k] matches Ok(v) ==> v.len() == chain_len(ts.take(k), vals.len()),
    decreases k,
{
    if k == 0 {
        assert(ts.take(0) =~= Seq::<Transform>::empty());
    } else {
        lemma_stage_lengths(ts, vals, stages, k - 1);
        assert(step_at(ts, stages, k - 1));
        assert(ts.take(k).drop_last() =~= ts.take(k - 1));
        assert(ts.take(k).last() == ts[k - 1]);
        if stages[k - 1] is Ok && stages[k] is Ok && !is_combining(ts[k - 1]) {
            let outs = choose|outs: Seq<Result<ValueView, Seq<char>>>|
                #[trigger] map_fits(ts[k - 1], stages[k - 1]->Ok_0, outs) && stages[k] == collected(outs);
            lemma_collected_ok(outs);
        }
    }
}

/// A chain ends with one value after a combining transform, otherwise with
/// as many values as it was given.
pub proof fn law_chain_length(ts: Seq<Transform>, vals: Seq<ValueView>, out: Seq<ValueView>)
    requires
        chain_allows(ts, vals, Ok(out)),
    ensures
        out.len() == chain_len(ts, vals.len()),
{
    let r: Result<Seq<ValueView>, Seq<char>> = Ok(out);
    let stages = choose|stages: Seq<Result<Seq<ValueView>, Seq<char>>>|
        #[trigger] stages_fit(ts, vals, stages) && r == stages.last();
    lemma_stage_lengths(ts, vals, stages, ts.len() as int);
    assert(ts.take(ts.len() as int) =~= ts);
}

/// Applying two chains one after the other is applying the chain of both:
/// the second starts from what the first leaves, and a failure of the first
/// is the failure of the whole.
pub proof fn law_chain_concat(
    a: Seq<Transform>,
    b: Seq<Transform>,
    vals: Seq<ValueView>,
    r: Result<Seq<ValueView>, Seq<char>>,
)
    ensures
        chain_allows(a + b, vals, r) <==> exists|mid: Result<Seq<ValueView>, Seq<char>>|
            #[trigger] chain_allows(a, vals, mid) && match mid {
                Ok(v) => chain_allows(b, v, r),
                Err(_) => r == mid,
            },
{
    let ab = a + b;
    let na = a.len() as int;
    if chain_allows(ab, vals, r) {
        let s = choose|s: Seq<Result<Seq<ValueView>, Seq<char>>>| #[trigger] stages_fit(ab, vals, s) && r == s.last();
        let sa = s.take(na + 1);
        let mid = s[na];
        assert forall|k: int| 0 <= k < a.len() implies #[trigger] step_at(a, sa, k) by {
            assert(step_at(ab, s, k));
            assert(ab[k] == a[k]);
        }
        assert(stages_fit(a, vals, sa));
        assert(sa.last() == mid);
        assert(chain_allows(a, vals, mid));
        match mid {
            Ok(v) => {
                let sb = s.skip(na);
                assert forall|k: int| 0 <= k < b.len() implies #[trigger] step_at(b, sb, k) by {
                    assert(step_at(ab, s, na + k));
                    assert(ab[na + k] == b[k]);
                }
                assert(stages_fit(b, v, sb));
                assert(sb.last() == s.last());
                assert(chain_allows(b, v, r));
            },
            Err(_) => {
                lemma_error_persists(ab, vals, s, na, ab.len() as int);
            },
        }
    }
    if exists|mid: Result<Seq<ValueView>, Seq<char>>|
        #[trigger] chain_allows(a, vals, mid) && match mid {
            Ok(v) => chain_allows(b, v, r),
            Err(_) => r == mid,
        } {
        let mid = choose|mid: Result<Seq<ValueView>, Seq<char>>|
            #[trigger] chain_allows(a, vals, mid) && match mid {
                Ok(v) => chain_allows(b, v, r),
                Err(_) => r == mid,
            };
        let sa = choose|s: Seq<Result<Seq<ValueView>, Seq<char>>>| #[trigger] stages_fit(a, vals, s) && mid == s.last();
        let tail: Seq<Result<Seq<ValueView>, Seq<char>>> = match mid {
            Ok(v) => {
                let sb = choose|s: Seq<Result<Seq<ValueView>, Seq<char>>>| #[trigger] stages_fit(b, v, s) && r == s.last();
                sb
            },
            Err(_) => Seq::new(b.len() + 1, |k: int| mid),
        };
        assert(tail.len() == b.len() + 1);
        assert(tail[0] == mid);
        assert forall|k: int| 0 <= k < b.len() implies #[trigger] step_at(b, tail, k) by {}
        assert(tail.last() == r);
        let s = sa + tail.skip(1);
        assert forall|k: int| 0 <= k < ab.len() implies #[trigger] step_at(ab, s, k) by {
            if k < na {
                assert(step_at(a, sa, k));
                assert(ab[k] == a[k]);
                assert(s[k] == sa[k] && s[k + 1] == sa[k + 1]);
            } else {
                assert(step_at(b, tail, k - na));
                assert(ab[k] == b[k - na]);
                assert(s[k] == tail[k - na] && s[k + 1] == tail[k - na + 1]);
            }
        }
        assert(stages_fit(ab, vals, s));
        assert(s.last() == tail.last());
        assert(chain_allows(ab, vals, r));
    }
}

/// A transform decides its outcome on a list without float arithmetic:
/// `concat` when every value's text is known, `coalesce` and `constant`
/// always, a scalar transform when its outcome on each value is.
pub open spec fn settles(t: Transform, vals: Seq<ValueView>) -> bool {
    match t {
        Transform::Concat { .. } => forall|i: int| 0 <= i < vals.len() ==> value_text(#[trigger] vals[i]) is Some,
        Transform::Coalesce => true,
        Transform::Constant { .. } => true,
        _ => forall|i: int| 0 <= i < vals.len() ==> scalar_spec(t, #[trigger] vals[i]) is Some,
    }
}

/// Every list a chain can reach on its way is one its next transform
/// settles.
pub open spec fn chain_settles(ts: Seq<Transform>, vals: Seq<ValueView>) -> bool {
    forall|stages: Seq<Result<Seq<ValueView>, Seq<char>>>|
        #[trigger] stages_fit(ts, vals, stages) ==> forall|k: int|
            0 <= k < ts.len() && (#[trigger] stages[k]) is Ok ==> settles(ts[k], stages[k]->Ok_0)
}

proof fn lemma_collected_agree(
    t: Transform,
    vals: Seq<ValueView>,
    a: Seq<Result<ValueView, Seq<char>>>,
    b: Seq<Result<ValueView, Seq<char>>>,
    k: int,
)
    requires
        map_fits(t, vals, a),
        map_fits(t, vals, b),
        forall|i: int| 0 <= i < vals.len() ==> scalar_spec(t, #[trigger] vals[i]) is Some,
        0 <= k <= vals.len(),
    ensures
        collected(a.take(k)) == collected(b.take(k)),
    decreases k,
{
    if k > 0 {
        lemma_collected_agree(t, vals, a, b, k - 1);
        assert(a.take(k).drop_last() =~= a.take(k - 1));
        assert(b.take(k).drop_last() =~= b.take(k - 1));
        assert(a.take(k).last() == a[k - 1]);
        assert(b.take(k).last() == b[k - 1]);
        if collected(a.take(k - 1)) is Ok {
            assert(scalar_spec(t, vals[k - 1]) is Some);
            assert(scalar_allows(t, vals[k - 1], a[k - 1]));
            assert(scalar_allows(t, vals[k - 1], b[k - 1]));
        }
    }
}

/// A transform that settles a list has one outcome on it.
pub proof fn law_settled_step_is_unique(
    t: Transform,
    vals: Seq<ValueView>,
    r1: Result<Seq<ValueView>, Seq<char>>,
    r2: Result<Seq<ValueView>, Seq<char>>,
)
    requires
        settles(t, vals),
        one_allows(t, vals, r1),
        one_allows(t, vals, r2),
    ensures
        r1 == r2,
{
    match t {
        Transform::Concat { separator } => {
            let xs1 = choose|xs: Seq<Seq<char>>|
                #[trigger] texts_fit(vals, xs) && r1 == Ok::<Seq<ValueView>, Seq<char>>(
                    seq![ValueView::String(join(picked_texts(vals, xs), separator@))],
                );
            let xs2 = choose|xs: Seq<Seq<char>>|
                #[trigger] texts_fit(vals, xs) && r2 == Ok::<Seq<ValueView>, Seq<char>>(
                    seq![ValueView::String(join(picked_texts(vals, xs), separator@))],
                );
            assert forall|i: int| 0 <= i < xs1.len() implies xs1[i] == xs2[i] by {
                assert(value_text(vals[i]) is Some);
            }
            assert(xs1 =~= xs2);
        },
        Transform::Coalesce => {},
        Transform::Constant { .. } => {},
        _ => {
            let o1 = choose|outs: Seq<Result<ValueView, Seq<char>>>| #[trigger] map_fits(t, vals, outs) && r1 == collected(outs);
            let o2 = choose|outs: Seq<Result<ValueView, Seq<char>>>| #[trigger] map_fits(t, vals, outs) && r2 == collected(outs);
            lemma_collected_agree(t, vals, o1, o2, vals.len() as int);
            assert(o1.take(vals.len() as int) =~= o1);
            assert(o2.take(vals.len() as int) =~= o2);
        },
    }
}

/// Two runs of one chain on one list agree wherever no float decides a
/// step: a chain that every list on its way settles has one outcome.
pub proof fn law_settled_chain_is_unique(
    ts: Seq<Transform>,
    vals: Seq<ValueView>,
    r1: Result<Seq<ValueView>, Seq<char>>,
    r2: Result<Seq<ValueView>, Seq<char>>,
)
    requires
        chain_settles(ts, vals),
        chain_allows(ts, vals, r1),
        chain_allows(ts, vals, r2),
    ensures
        r1 == r2,
{
    let s1 = choose|s: Seq<Result<Seq<ValueView>, Seq<char>>>| #[trigger] stages_fit(ts, vals, s) && r1 == s.last();
    let s2 = choose|s: Seq<Result<Seq<ValueView>, Seq<char>>>| #[trigger] stages_fit(ts, vals, s) && r2 == s.last();
    lemma_stages_agree(ts, vals, s1, s2, ts.len() as int);
}

/// The outcome of a scalar transform on each value of a list, where no
/// float decides it.
pub open spec fn exact_outcomes(t: Transform, vals: Seq<ValueView>) -> Seq<Result<ValueView, Seq<char>>> {
    Seq::new(vals.len(), |i: int| scalar_spec(t, vals[i])->Some_0)
}

/// Where no float decides, the list step of a scalar transform is exactly
/// the scalar step on each value in turn: the values when every one
/// succeeds, otherwise the first error.
pub proof fn law_settled_list_step_is_each_scalar_step(
    t: Transform,
    vals: Seq<ValueView>,
    r: Result<Seq<ValueView>, Seq<char>>,
)
    requires
        !is_combining(t),
        settles(t, vals),
        one_allows(t, vals, r),
    ensures
        r == collected(exact_outcomes(t, vals)),
{
    let exact = exact_outcomes(t, vals);
    assert forall|i: int| 0 <= i < vals.len() && collected(exact.take(i)) is Ok implies scalar_allows(
        t,
        vals[i],
        #[trigger] exact[i],
    ) by {
        assert(scalar_spec(t, vals[i]) is Some);
    }
    assert(map_fits(t, vals, exact));
    let outs = choose|outs: Seq<Result<ValueView, Seq<char>>>| #[trigger] map_fits(t, vals, outs) && r == collected(outs);
    lemma_collected_agree(t, vals, outs, exact, vals.len() as int);
    assert(outs.take(vals.len() as int) =~= outs);
    assert(exact.take(vals.len() as int) =~= exact);
}

/// A chain without transforms gives back the values it was given.
pub proof fn law_empty_chain_keeps_values(vals: Seq<ValueView>, r: Result<Seq<ValueView>, Seq<char>>)
    requires
        chain_allows(Seq::empty(), vals, r),
    ensures
        r == Ok::<Seq<ValueView>, Seq<char>>(vals),
{
    let s = choose|s: Seq<Result<Seq<ValueView>, Seq<char>>>|
        #[trigger] stages_fit(Seq::empty(), vals, s) && r == s.last();
    assert(s.len() == 1);
}

/// Where no float decides, running a concatenated chain gives exactly what
/// running the first part, then the second part on its result, gives; an
/// error of the first part is the result.
pub proof fn law_settled_chain_concat(
    a: Seq<Transform>,
    b: Seq<Transform>,
    vals: Seq<ValueView>,
    r: Result<Seq<ValueView>, Seq<char>>,
    mid: Result<Seq<ValueView>, Seq<char>>,
    r2: Result<Seq<ValueView>, Seq<char>>,
)
    requires
        chain_settles(a + b, vals),
        chain_allows(a + b, vals, r),
        chain_allows(a, vals, mid),
        match mid {
            Ok(v) => chain_allows(b, v, r2),
            Err(_) => r2 == mid,
        },
    ensures
        r == r2,
{
    law_chain_concat(a, b, vals, r2);
    law_settled_chain_is_unique(a + b, vals, r, r2);
}

proof fn lemma_stages_agree(
    ts: Seq<Transform>,
    vals: Seq<ValueView>,
    s1: Seq<Result<Seq<ValueView>, Seq<char>>>,
    s2: Seq<Result<Seq<ValueView>, Seq<char>>>,
    k: int,
)
    requires
        chain_settles(ts, vals),
        stages_fit(ts, vals, s1),
        stages_fit(ts, vals, s2),
        0 <= k <= ts.len(),
    ensures
        s1[k] == s2[k],
    decreases k,
{
    if k > 0 {
        lemma_stages_agree(ts, vals, s1, s2, k - 1);
        assert(step_at(ts, s1, k - 1));
        assert(step_at(ts, s2, k - 1));
        if s1[k - 1] is Ok {
            assert(settles(ts[k - 1], s1[k - 1]->Ok_0));
            law_settled_step_is_unique(ts[k - 1], s1[k - 1]->Ok_0, s1[k], s2[k]);
        }
    }
}

/// The list step of a scalar transform: the list comes out whole exactly
/// when every value's outcome is a value, and then holds those values in
/// order; otherwise its error is the outcome of the first value that
/// failed. Each outcome up to there is one its value allows.
pub proof fn law_list_step(t: Transform, vals: Seq<ValueView>, outs: Seq<Result<ValueView, Seq<char>>>)
    requires
        !is_combining(t),
        map_fits(t, vals, outs),
    ensures
        collected(outs) is Ok <==> forall|i: int| 0 <= i < outs.len() ==> #[trigger] outs[i] is Ok,
        collected(outs) matches Ok(ws) ==> ws.len() == vals.len() && forall|i: int|
            0 <= i < vals.len() ==> #[trigger] scalar_allows(t, vals[i], Ok(ws[i])),
        collected(outs) matches Err(e) ==> exists|k: int|
            0 <= k < vals.len() && #[trigger] outs[k] == Err::<ValueView, Seq<char>>(e) && scalar_allows(
                t,
                vals[k],
                outs[k],
            ) && forall|j: int| 0 <= j < k ==> #[trigger] outs[j] is Ok,
    decreases vals.len(),
{
    lemma_collected_ok(outs);
    if vals.len() > 0 {
        let n = vals.len() - 1;
        lemma_map_fits_prefix(t, vals, outs, n);
        assert(outs.take(n) =~= outs.drop_last());
        assert(vals.take(n) =~= vals.drop_last());
        law_list_step(t, vals.drop_last(), outs.drop_last());
        assert forall|i: int| 0 <= i < n implies #[trigger] outs[i] == outs.drop_last()[i] by {}
        if collected(outs) is Ok {
            let ws = collected(outs)->Ok_0;
            assert forall|i: int| 0 <= i < vals.len() implies #[trigger] scalar_allows(t, vals[i], Ok(ws[i])) by {
                assert(collected(outs.take(i)) is Ok);
                assert(outs[i] == Ok::<ValueView, Seq<char>>(ws[i]));
            }
        }
        if forall|i: int| 0 <= i < outs.len() ==> #[trigger] outs[i] is Ok {
            assert forall|i: int| 0 <= i < outs.drop_last().len() implies #[trigger] outs.drop_last()[i] is Ok by {
                assert(outs[i] is Ok);
            }
            assert(outs[n] is Ok);
        }
        if collected(outs) is Err {
            let e = collected(outs)->Err_0;
            match collected(outs.drop_last()) {
                Ok(_) => {
                    assert(outs[n] == Err::<ValueView, Seq<char>>(e));
                    lemma_collected_ok(outs.drop_last());
                    assert(collected(outs.take(n)) is Ok);
                    assert forall|j: int| 0 <= j < n implies #[trigger] outs[j] is Ok by {
                        assert(outs.drop_last()[j] is Ok);
                    }
                },
                Err(_) => {
                    let k = choose|k: int|
                        0 <= k < vals.drop_last().len() && #[trigger] outs.drop_last()[k] == Err::<
                            ValueView,
                            Seq<char>,
                        >(e) && scalar_allows(t, vals.drop_last()[k], outs.drop_last()[k]) && forall|j: int|
                            0 <= j < k ==> #[trigger] outs.drop_last()[j] is Ok;
                    assert(outs[k] == Err::<ValueView, Seq<char>>(e));
                    assert forall|j: int| 0 <= j < k implies #[trigger] outs[j] is Ok by {
                        assert(outs.drop_last()[j] is Ok);
                    }
                },
            }
        }
    }
}

/// A successful cast gives a value of the type cast to.
pub proof fn law_cast_gives_target_type(v: ValueView, to: DataType, w: ValueView)
    requires
        cast_allows(v, to, Ok(w)),
    ensures
        crate::model::type_accepts(to, w),
{
}

/// Every value casts to a string: its text, where the text is known.
pub proof fn law_every_value_casts_to_string(v: ValueView, r: Result<ValueView, Seq<char>>)
    requires
        cast_allows(v, DataType::String, r),
    ensures
        r matches Ok(w) && w is String,
        value_text(v) matches Some(x) ==> r == Ok::<ValueView, Seq<char>>(ValueView::String(x)),
{
}

/// An integer cast to a string and back is the same integer.
pub proof fn law_integer_text_round_trip(i: i64)
    ensures
        cast_spec(ValueView::Integer(i), DataType::String) == Some(
            Ok::<ValueView, Seq<char>>(ValueView::String(int_text(i as int))),
        ),
        cast_spec(ValueView::String(int_text(i as int)), DataType::Integer) == Some(
            Ok::<ValueView, Seq<char>>(ValueView::Integer(i)),
        ),
{
    lemma_int_text_parses(i);
    crate::text::lemma_nat_text_digits(if i < 0 {
        (-(i as int)) as nat
    } else {
        i as nat
    });
}

/// A boolean cast to a string and back is the same boolean.
pub proof fn law_boolean_text_round_trip(b: bool)
    ensures
        cast_spec(ValueView::Bool(b), DataType::String) == Some(
            Ok::<ValueView, Seq<char>>(
                ValueView::String(
                    if b {
                        "true"@
                    } else {
                        "false"@
                    },
                ),
            ),
        ),
        cast_spec(
            ValueView::String(
                if b {
                    "true"@
                } else {
                    "false"@
                },
            ),
            DataType::Boolean,
        ) == Some(Ok::<ValueView, Seq<char>>(ValueView::Bool(b))),
{
    reveal_strlit("true");
    reveal_strlit("false");
    reveal_strlit("1");
    reveal_strlit("yes");
    assert(crate::text::ascii_lower("true"@) =~= "true"@);
    assert(crate::text::ascii_lower("false"@) =~= "false"@);
    assert("false"@ != "true"@);
    assert("false"@ != "1"@);
    assert("false"@ != "yes"@);
}

/// `constant` discards its inputs and produces its literal value.
pub proof fn law_constant_discards_inputs(value: Value, vals: Seq<ValueView>, r: Result<Seq<ValueView>, Seq<char>>)
    requires
        one_allows(Transform::Constant { value }, vals, r),
    ensures
        r == Ok::<Seq<ValueView>, Seq<char>>(seq![value@]),
{
}

/// `coalesce` gives the first non-null value, or null if all are null.
pub proof fn law_coalesce_takes_first_non_null(vals: Seq<ValueView>, k: int, r: Result<Seq<ValueView>, Seq<char>>)
    requires
        0 <= k <= vals.len(),
        forall|j: int| 0 <= j < k ==> (#[trigger] vals[j]) is Null,
        k == vals.len() || !(vals[k] is Null),
        one_allows(Transform::Coalesce, vals, r),
    ensures
        r == Ok::<Seq<ValueView>, Seq<char>>(
            seq![
                if k == vals.len() {
                    ValueView::Null
                } else {
                    vals[k]
                },
            ],
        ),
{
    lemma_first_non_null(vals, k);
}

/// Without a default, `lookup` refuses a string with no entry in its table
/// instead of passing it on.
pub proof fn law_lookup_without_default_refuses_unknown(table: Record, s: Seq<char>)
    requires
        lookup(entries(table), s) is None,
    ensures
        scalar_spec(Transform::Lookup { table, default: None }, ValueView::String(s)) == Some(
            Err::<ValueView, Seq<char>>("lookup: no entry for '"@ + s + "' and no default given"@),
        ),
{
}

/// The texts of the non-null values of a list, in order, where every text
/// is known.
pub open spec fn non_null_texts(vals: Seq<ValueView>) -> Seq<Seq<char>>
    decreases vals.len(),
{
    if vals.len() == 0 {
        Seq::empty()
    } else {
        let prev = non_null_texts(vals.drop_last());
        if vals.last() is Null {
            prev
        } else {
            prev.push(value_text(vals.last())->Some_0)
        }
    }
}

proof fn lemma_picked_texts(vals: Seq<ValueView>, xs: Seq<Seq<char>>)
    requires
        texts_fit(vals, xs),
        forall|i: int| 0 <= i < vals.len() ==> value_text(#[trigger] vals[i]) is Some,
    ensures
        picked_texts(vals, xs) == non_null_texts(vals),
    decreases vals.len(),
{
    if vals.len() > 0 {
        let n = vals.len() - 1;
        assert forall|i: int| 0 <= i < vals.drop_last().len() implies value_text(#[trigger] vals.drop_last()[i]) is Some by {
            assert(vals.drop_last()[i] == vals[i]);
        }
        assert forall|i: int| 0 <= i < vals.drop_last().len() implies (value_text(vals.drop_last()[i]) matches Some(x)
            ==> #[trigger] xs.drop_last()[i] == x) by {
            assert(vals.drop_last()[i] == vals[i]);
            assert(xs.drop_last()[i] == xs[i]);
        }
        lemma_picked_texts(vals.drop_last(), xs.drop_last());
        assert(value_text(vals[n]) is Some);
    }
}

/// `concat` joins, with its separator, the text of every non-null value
/// in order, where every value's text is known: a float's text is the one
/// `f64`'s `Display` writes (12.5 as `12.5`, 3.0 as `3`).
pub proof fn law_concat_joins_value_texts(separator: String, vals: Seq<ValueView>, r: Result<Seq<ValueView>, Seq<char>>)
    requires
        one_allows(Transform::Concat { separator }, vals, r),
        forall|i: int| 0 <= i < vals.len() ==> value_text(#[trigger] vals[i]) is Some,
    ensures
        r == Ok::<Seq<ValueView>, Seq<char>>(seq![ValueView::String(join(non_null_texts(vals), separator@))]),
{
    let xs = choose|xs: Seq<Seq<char>>|
        #[trigger] texts_fit(vals, xs) && r == Ok::<Seq<ValueView>, Seq<char>>(
            seq![ValueView::String(join(picked_texts(vals, xs), separator@))],
        );
    lemma_picked_texts(vals, xs);
}

/// An integer cast to a float keeps its sign, and one within 2^53 of zero
/// casts back to the same integer.
pub proof fn law_integer_float_round_trip(i: i64, r: Result<ValueView, Seq<char>>)
    requires
        cast_allows(ValueView::Integer(i), DataType::Float, r),
    ensures
        r matches Ok(ValueView::Float(b)) && is_negative(b) == (i < 0),
        -0x20_0000_0000_0000 <= i <= 0x20_0000_0000_0000 ==> cast_spec(r->Ok_0, DataType::Integer) == Some(
            Ok::<ValueView, Seq<char>>(ValueView::Integer(i)),
        ),
{
}

/// An integer cast to a float becomes the float nearest to it: the sign is
/// kept, and the magnitude differs from `|i|` by at most `|i| / 2^53`.
pub proof fn law_integer_to_float_is_nearest(i: i64, r: Result<ValueView, Seq<char>>)
    requires
        cast_allows(ValueView::Integer(i), DataType::Float, r),
    ensures
        r matches Ok(ValueView::Float(b)) && is_negative(b) == (i < 0),
        r matches Ok(ValueView::Float(b)) && (whole_magnitude(b) matches Some(m) && {
            let a = if i < 0 { -i } else { i as int };
            -a <= (m - a) * 0x20_0000_0000_0000 <= a
        }),
{
    crate::float::law_nearest_whole_is_close(if i < 0 { -i } else { i as int });
}

/// A float product's sign is the exclusive or of the signs of the value and
/// the factor, for a float value and for an integer times a factor that is
/// not whole.
pub proof fn law_product_sign(by: u64, v: ValueView, r: Result<ValueView, Seq<char>>)
    requires
        scalar_allows(Transform::Multiply { by }, v, r),
        v is Float || (v is Integer && whole_value(by) is None),
    ensures
        r matches Ok(ValueView::Float(b)) && is_negative(b) == (match v {
            ValueView::Float(f) => is_negative(f),
            ValueView::Integer(i) => i < 0,
            _ => false,
        } != is_negative(by)),
{
}

/// Multiplying a float that is not a NaN by 1.0 keeps it, and by -1.0
/// negates it: the magnitude stays, the sign is the exclusive or.
pub proof fn law_multiply_by_one(by: u64, f: u64, r: Result<ValueView, Seq<char>>)
    requires
        scalar_allows(Transform::Multiply { by }, ValueView::Float(f), r),
        by == 0x3ff0_0000_0000_0000 || by == 0xbff0_0000_0000_0000,
        !is_nan(f),
    ensures
        r matches Ok(ValueView::Float(b)) && magnitude(b) == magnitude(f) && is_negative(b) == (is_negative(f)
            != is_negative(by)),
{
    crate::float::law_product_with_one(f, by, r->Ok_0->Float_0);
}

/// An integer times a whole factor is the exact product, or the refusal
/// when that overflows an `i64`; it never turns into a float.
pub proof fn law_whole_factor_keeps_integers(by: u64, i: i64, r: Result<ValueView, Seq<char>>)
    requires
        scalar_allows(Transform::Multiply { by }, ValueView::Integer(i), r),
        whole_value(by) is Some,
    ensures
        i64::MIN <= i * whole_value(by)->Some_0 <= i64::MAX ==> r == Ok::<ValueView, Seq<char>>(
            ValueView::Integer((i * whole_value(by)->Some_0) as i64),
        ),
        !(i64::MIN <= i * whole_value(by)->Some_0 <= i64::MAX) ==> r is Err,
{
}

/// The documented money pattern: a finite float rounded to no decimal
/// places casts to an integer without error (up to a rounded value of
/// 2^64, beyond which the float implementation decides).
pub proof fn law_round_then_cast(f: u64, r: Result<ValueView, Seq<char>>)
    requires
        scalar_allows(Transform::Round { decimals: 0 }, ValueView::Float(f), r),
        finite_parts(f) is Some,
        away_int(finite_parts(f)->Some_0.0, finite_parts(f)->Some_0.1) < 0x1_0000_0000_0000_0000,
    ensures
        r matches Ok(ValueView::Float(b)) && cast_spec(ValueView::Float(b), DataType::Integer) matches Some(
            Ok(ValueView::Integer(_)),
        ),
{
    crate::float::law_round_to_whole(f, r->Ok_0->Float_0);
}

/// Rounding a float keeps its sign.
pub proof fn law_round_keeps_sign(decimals: u32, f: u64, r: Result<ValueView, Seq<char>>)
    requires
        scalar_allows(Transform::Round { decimals }, ValueView::Float(f), r),
    ensures
        r matches Ok(ValueView::Float(b)) && is_negative(b) == is_negative(f),
{
}

} // verus!
