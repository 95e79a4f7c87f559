//! The dynamic scalar that every cell holds.
use vstd::prelude::*;
use crate::date::Date;
use crate::float::{float_display, is_nan, is_negative, known_float_text, FloatArith};
use crate::text::{i64_text, int_text};

verus! {

/// One cell of a record. A float is held as the bit pattern of an `f64`.
#[derive(Debug, PartialEq)]
pub enum Value {
    Null,
    Bool(bool),
    Integer(i64),
    Float(u64),
    String(String),
    Date(Date),
}

/// A value as the contracts see it: strings by their characters.
pub enum ValueView {
    Null,
    Bool(bool),
    Integer(i64),
    Float(u64),
    String(Seq<char>),
    Date(Date),
}

impl View for Value {
    type V = ValueView;

    open spec fn view(&self) -> ValueView {
        match self {
            Value::Null => ValueView::Null,
            Value::Bool(b) => ValueView::Bool(*b),
            Value::Integer(i) => ValueView::Integer(*i),
            Value::Float(f) => ValueView::Float(*f),
            Value::String(s) => ValueView::String(s@),
            Value::Date(d) => ValueView::Date(*d),
        }
    }
}

/// The name of a value's type, as data types are named in models.
pub open spec fn kind_name_of(v: ValueView) -> Seq<char> {
    match v {
        ValueView::Null => "null"@,
        ValueView::Bool(_) => "boolean"@,
        ValueView::Integer(_) => "integer"@,
        ValueView::Float(_) => "float"@,
        ValueView::String(_) => "string"@,
        ValueView::Date(_) => "date"@,
    }
}

/// The text of a value: empty for null, `true`/`false`, decimal integers,
/// strings as they are, dates in ISO 8601, and a float as `f64`'s
/// `Display` writes it where the bit pattern alone decides that text
/// (`None` where the float implementation writes it).
pub open spec fn value_text(v: ValueView) -> Option<Seq<char>> {
    match v {
        ValueView::Null => Some(Seq::empty()),
        ValueView::Bool(b) => Some(
            if b {
                "true"@
            } else {
                "false"@
            },
        ),
        ValueView::Integer(i) => Some(int_text(i as int)),
        ValueView::Float(b) => known_float_text(b),
        ValueView::String(s) => Some(s),
        ValueView::Date(d) => Some(d.iso()),
    }
}

impl Clone for Value {
    fn clone(&self) -> (r: Self)
        ensures
            r == *self,
    {
        match self {
            Value::Null => Value::Null,
            Value::Bool(b) => Value::Bool(*b),
            Value::Integer(i) => Value::Integer(*i),
            Value::Float(f) => Value::Float(*f),
            Value::String(s) => Value::String(s.clone()),
            Value::Date(d) => Value::Date(*d),
        }
    }
}

impl Value {
    pub fn is_null(&self) -> (r: bool)
        ensures
            r == (self@ is Null),
    {
        match self {
            Value::Null => true,
            _ => false,
        }
    }

    /// The name of the value's type.
    pub fn kind_name(&self) -> (r: &'static str)
        ensures
            r@ == kind_name_of(self@),
    {
        match self {
            Value::Null => "null",
            Value::Bool(_) => "boolean",
            Value::Integer(_) => "integer",
            Value::Float(_) => "float",
            Value::String(_) => "string",
            Value::Date(_) => "date",
        }
    }

    /// The value's text; a float's text is what `arith` writes for it.
    pub fn text<A: FloatArith>(&self, arith: &A) -> (r: String)
        ensures
            value_text(self@) matches Some(t) ==> r@ == t,
            self@ matches ValueView::Float(b) ==> (is_negative(b) && !is_nan(b) ==> r@.len() > 0 && r@[0] == '-'),
            self@ matches ValueView::Date(d) ==> (0 <= d.spec_year() <= 9999 ==> crate::date::chrono_parse(
                r@,
                crate::date::iso_date_format(),
            ) == crate::date::parsed_ymd(d.spec_year(), d.spec_month(), d.spec_day())),
    {
        match self {
            Value::Null => String::new(),
            Value::Bool(b) => {
                if *b {
                    String::from_str("true")
                } else {
                    String::from_str("false")
                }
            },
            Value::Integer(i) => i64_text(*i),
            Value::Float(f) => float_display(arith, *f),
            Value::String(s) => s.clone(),
            Value::Date(d) => d.text(),
        }
    }
}

} // verus!
