//! Endpoints, and the shaping of rows on the way in (read from CSV, JSON
//! or JSON-lines text and typed by the left model) and on the way out (in
//! the right model's column order). Reading and writing the files
//! themselves is left to the program around the library.
use serde_json::Value as Json;
use vstd::prelude::*;
use crate::float::FloatArith;
use crate::model::{
    coerce_allows, first_field, json_text, parse_allows, result_view, type_accepts, JsonCell, JsonCellView, Model,
};
use crate::record::{
    entries, inserted, keys_of, lemma_keys_of_inserted, lemma_lookup_inserted, lookup, record_get, record_insert,
    record_new, Entries, Record,
};
use crate::text::{concat3, decimal_i64, is_ascii_digit, lines, parse_i64, same_text, text_lines, trim, trimmed};
use crate::value::{value_text, Value, ValueView};
use crate::mapping::texts;

verus! {

#[derive(Debug, Clone, Copy, PartialEq, Eq, Structural)]
pub enum Format {
    Csv,
    Json,
    Jsonl,
}

/// Where records come from or go to.
#[derive(Debug)]
pub struct Endpoint {
    pub format: Format,
    pub path: String,
}

/// One input row: either a typed record, or the reasons it could not even be
/// read (e.g. a CSV cell that fails type coercion against the left model).
pub type RowResult = Result<Record, Vec<String>>;

pub open spec fn row_view(r: RowResult) -> Result<Entries, Seq<Seq<char>>> {
    match r {
        Ok(rec) => Ok(entries(rec)),
        Err(es) => Err(texts(es@)),
    }
}

/// Every cell whose key names a field of the model holds a value of that
/// field's declared type.
pub open spec fn typed_by(model: Model, es: Entries) -> bool {
    forall|k: int|
        0 <= k < es.len() ==> (#[trigger] first_field(model.fields@, es[k].0) matches Some(i) ==> type_accepts(
            model.fields@[i].dtype,
            es[k].1,
        ))
}

/// The entries and error messages of a row built from one outcome per cell,
/// in order: each value inserted under its key, each error noted with it.
pub open spec fn row_built(keys: Seq<Seq<char>>, outs: Seq<Result<ValueView, Seq<char>>>) -> (Entries, Seq<Seq<char>>)
    decreases outs.len(),
{
    if outs.len() == 0 {
        (Seq::empty(), Seq::empty())
    } else {
        let (es, errs) = row_built(keys, outs.drop_last());
        let k = keys[outs.len() - 1];
        match outs.last() {
            Ok(v) => (inserted(es, k, v), errs),
            Err(e) => (es, errs.push("field '"@ + k + "': "@ + e)),
        }
    }
}

/// The row built from one outcome per cell: the record, or every error.
pub open spec fn row_result(keys: Seq<Seq<char>>, outs: Seq<Result<ValueView, Seq<char>>>) -> Result<Entries, Seq<Seq<char>>> {
    let (es, errs) = row_built(keys, outs);
    if errs.len() == 0 {
        Ok(es)
    } else {
        Err(errs)
    }
}

/// The outcomes one CSV cell can have: coerced to its field's type when the
/// model declares the column, otherwise carried as a string (null when
/// empty).
pub open spec fn csv_cell_allows(model: Model, header: Seq<char>, cell: Seq<char>, o: Result<ValueView, Seq<char>>) -> bool {
    match first_field(model.fields@, header) {
        Some(i) => parse_allows(model.fields@[i].dtype, cell, o),
        None => o == Ok::<ValueView, Seq<char>>(
            if cell.len() == 0 {
                ValueView::Null
            } else {
                ValueView::String(cell)
            },
        ),
    }
}

/// The (header, cell) pairs of a CSV row, as far as both run.
pub open spec fn csv_pairs(headers: Seq<Seq<char>>, cells: Seq<Seq<char>>) -> nat {
    if headers.len() <= cells.len() {
        headers.len()
    } else {
        cells.len()
    }
}

/// One outcome per (header, cell) pair, each one its cell allows.
pub open spec fn csv_cells_fit(
    headers: Seq<Seq<char>>,
    cells: Seq<Seq<char>>,
    model: Model,
    outs: Seq<Result<ValueView, Seq<char>>>,
) -> bool {
    &&& outs.len() == csv_pairs(headers, cells)
    &&& forall|j: int| 0 <= j < outs.len() ==> csv_cell_allows(model, headers[j], cells[j], #[trigger] outs[j])
}

/// The outcomes reading a CSV row can have: each cell its own outcome, the
/// row built from them.
pub open spec fn csv_row_allows(headers: Seq<Seq<char>>, cells: Seq<Seq<char>>, model: Model, r: Result<Entries, Seq<Seq<char>>>) -> bool {
    exists|outs: Seq<Result<ValueView, Seq<char>>>|
        #[trigger] csv_cells_fit(headers, cells, model, outs) && r == row_result(headers, outs)
}

/// A member of a JSON object: its key, its JSON text, and its content
/// when it is a string.
pub type JsonMember = (String, String, Option<String>);

/// A JSON item of an input document.
#[derive(Debug)]
pub enum JsonItem {
    /// An object: its members in order.
    Object(Vec<JsonMember>),
    /// Anything else, by its JSON text.
    NotObject(String),
}

/// A parsed JSON document: the document as one item, and its elements when
/// it is an array.
#[derive(Debug)]
pub struct JsonDoc(pub JsonItem, pub Option<Vec<JsonItem>>);

/// An optional text by its characters.
pub open spec fn text_opt(s: Option<String>) -> Option<Seq<char>> {
    match s {
        Some(x) => Some(x@),
        None => None,
    }
}

/// The cell a JSON value is, told from its JSON text (RFC 8259): a string by
/// its content; otherwise `null`, `true` and `false` are themselves, a text
/// that starts with `-` or a digit is a number (an `i64` when its text is
/// one), and anything else (an array or an object) is kept as its text.
pub open spec fn cell_from(text: Seq<char>, string: Option<Seq<char>>) -> JsonCellView {
    match string {
        Some(s) => JsonCellView::String(s),
        None => if text == "null"@ {
            JsonCellView::Null
        } else if text == "true"@ {
            JsonCellView::Bool(true)
        } else if text == "false"@ {
            JsonCellView::Bool(false)
        } else if text.len() > 0 && (text[0] == '-' || is_ascii_digit(text[0])) {
            JsonCellView::Number { integer: decimal_i64(text), text }
        } else {
            JsonCellView::Other(text)
        },
    }
}

/// The cell of a member, from its JSON text and its string content.
pub fn json_cell(text: &String, string: &Option<String>) -> (c: JsonCell)
    ensures
        c@ == cell_from(text@, text_opt(*string)),
{
    match string {
        Some(s) => JsonCell::String(s.clone()),
        None => {
            let t = text.as_str();
            let numeric = if t.unicode_len() > 0 {
                let c0 = t.get_char(0);
                c0 == '-' || ('0' <= c0 && c0 <= '9')
            } else {
                false
            };
            if same_text(t, "null") {
                JsonCell::Null
            } else if same_text(t, "true") {
                JsonCell::Bool(true)
            } else if same_text(t, "false") {
                JsonCell::Bool(false)
            } else if numeric {
                JsonCell::Number { integer: parse_i64(t), text: text.clone() }
            } else {
                JsonCell::Other(text.clone())
            }
        },
    }
}

/// The outcomes one member of a JSON object can have: coerced to its
/// field's type when the model declares the key; otherwise null stays null,
/// a string stays a string, and anything else is kept as its JSON text.
pub open spec fn json_cell_allows(model: Model, key: Seq<char>, c: JsonCellView, o: Result<ValueView, Seq<char>>) -> bool {
    match first_field(model.fields@, key) {
        Some(i) => coerce_allows(model.fields@[i].dtype, c, o),
        None => o == Ok::<ValueView, Seq<char>>(
            match c {
                JsonCellView::Null => ValueView::Null,
                JsonCellView::String(s) => ValueView::String(s),
                _ => ValueView::String(json_text(c)),
            },
        ),
    }
}

/// The keys of an object's members, in order.
pub open spec fn member_keys(members: Seq<JsonMember>) -> Seq<Seq<char>> {
    members.map_values(|m: JsonMember| m.0@)
}

/// The cell of a member.
pub open spec fn member_cell(m: JsonMember) -> JsonCellView {
    cell_from(m.1@, text_opt(m.2))
}

/// One outcome per member, each one its member allows.
pub open spec fn json_cells_fit(members: Seq<JsonMember>, model: Model, outs: Seq<Result<ValueView, Seq<char>>>) -> bool {
    &&& outs.len() == members.len()
    &&& forall|j: int|
        0 <= j < outs.len() ==> json_cell_allows(model, members[j].0@, member_cell(members[j]), #[trigger] outs[j])
}

/// The outcomes reading a JSON item can have: an item that is not an
/// object is refused; an object gives each member its own outcome and the
/// row is built from them.
pub open spec fn json_row_allows(item: JsonItem, model: Model, r: Result<Entries, Seq<Seq<char>>>) -> bool {
    match item {
        JsonItem::NotObject(text) => r == Err::<Entries, Seq<Seq<char>>>(seq!["expected a JSON object, got "@ + text@]),
        JsonItem::Object(members) => exists|outs: Seq<Result<ValueView, Seq<char>>>|
            #[trigger] json_cells_fit(members@, model, outs) && r == row_result(member_keys(members@), outs),
    }
}

/// The text of each output column for a record, in the model's field order:
/// a present value's text, an empty text for a missing field. `None` for the
/// text of a float.
pub open spec fn row_cells_spec(model: Model, es: Entries) -> Seq<Option<Seq<char>>> {
    Seq::new(
        model.fields@.len(),
        |i: int|
            match lookup(es, model.fields@[i].name@) {
                Some(v) => value_text(v),
                None => Some(Seq::empty()),
            },
    )
}

/// One cell of a row under construction: insert it or note its error.
fn put_cell(rec: &mut Record, errors: &mut Vec<String>, key: &str, outcome: Result<Value, String>)
    ensures
        match outcome {
            Ok(v) => entries(*final(rec)) == inserted(entries(*old(rec)), key@, v@) && final(errors)@
                == old(errors)@,
            Err(e) => entries(*final(rec)) == entries(*old(rec)) && texts(final(errors)@) == texts(
                old(errors)@,
            ).push("field '"@ + key@ + "': "@ + e@),
        },
{
    match outcome {
        Ok(v) => record_insert(rec, String::from_str(key), v),
        Err(e) => {
            let mut msg = concat3("field '", key, "': ");
            msg.append(e.as_str());
            let ghost prev = texts(errors@);
            errors.push(msg);
            assert(texts(errors@) =~= prev.push(msg@));
        },
    }
}

/// Read one CSV row: each cell is coerced to the type the model declares for
/// its column. Undeclared columns are carried along as strings.
pub fn csv_row<A: FloatArith>(headers: &Vec<String>, cells: &Vec<String>, model: &Model, arith: &A) -> (r: RowResult)
    ensures
        csv_row_allows(texts(headers@), texts(cells@), *model, row_view(r)),
        r matches Ok(rec) ==> typed_by(*model, entries(rec)),
{
    let n: usize = if headers.len() <= cells.len() {
        headers.len()
    } else {
        cells.len()
    };
    let ghost hs = texts(headers@);
    let ghost cs = texts(cells@);
    let mut rec = record_new();
    let mut errors: Vec<String> = Vec::new();
    let ghost mut outs: Seq<Result<ValueView, Seq<char>>> = Seq::empty();
    let mut i: usize = 0;
    assert(texts(errors@) =~= Seq::<Seq<char>>::empty());
    while i < n
        invariant
            i <= n,
            n == csv_pairs(hs, cs),
            hs == texts(headers@),
            cs == texts(cells@),
            outs.len() == i,
            forall|j: int| 0 <= j < i ==> csv_cell_allows(*model, hs[j], cs[j], #[trigger] outs[j]),
            row_built(hs, outs) == (entries(rec), texts(errors@)),
            typed_by(*model, entries(rec)),
        decreases n - i,
    {
        let header = headers[i].as_str();
        let cell = cells[i].as_str();
        let outcome = match model.field(header) {
            Some(field) => field.dtype.parse_str(cell, arith),
            None => if cell.unicode_len() == 0 {
                Ok(Value::Null)
            } else {
                Ok(Value::String(String::from_str(cell)))
            },
        };
        proof {
            if outcome is Ok {
                lemma_typed_insert(*model, entries(rec), header@, outcome->Ok_0@);
            }
        }
        let ghost o = result_view(outcome);
        let ghost prev_outs = outs;
        put_cell(&mut rec, &mut errors, header, outcome);
        proof {
            outs = outs.push(o);
            assert(outs.drop_last() =~= prev_outs);
            assert forall|j: int| 0 <= j < i + 1 implies csv_cell_allows(*model, hs[j], cs[j], #[trigger] outs[j]) by {
                if j < i {
                    assert(outs[j] == prev_outs[j]);
                }
            }
        }
        i += 1;
    }
    assert(csv_cells_fit(hs, cs, *model, outs));
    if errors.len() == 0 {
        Ok(rec)
    } else {
        Err(errors)
    }
}

/// Read one JSON item: each member is coerced to the type the model
/// declares for its key; undeclared keys are carried along.
pub fn json_row<A: FloatArith>(item: &JsonItem, model: &Model, arith: &A) -> (r: RowResult)
    ensures
        json_row_allows(*item, *model, row_view(r)),
        r matches Ok(rec) ==> typed_by(*model, entries(rec)),
{
    match item {
        JsonItem::NotObject(text) => {
            let mut msg2 = String::from_str("expected a JSON object, got ");
            msg2.append(text.as_str());
            let mut errors: Vec<String> = Vec::new();
            errors.push(msg2);
            assert(texts(errors@) =~= seq!["expected a JSON object, got "@ + text@]);
            Err(errors)
        },
        JsonItem::Object(members) => {
            let n = members.len();
            let ghost keys = member_keys(members@);
            let mut rec = record_new();
            let mut errors: Vec<String> = Vec::new();
            let ghost mut outs: Seq<Result<ValueView, Seq<char>>> = Seq::empty();
            let mut i: usize = 0;
            assert(texts(errors@) =~= Seq::<Seq<char>>::empty());
            while i < n
                invariant
                    i <= n,
                    n == members@.len(),
                    keys == member_keys(members@),
                    outs.len() == i,
                    forall|j: int|
                        0 <= j < i ==> json_cell_allows(*model, members@[j].0@, member_cell(members@[j]), #[trigger] outs[j]),
                    row_built(keys, outs) == (entries(rec), texts(errors@)),
                    typed_by(*model, entries(rec)),
                decreases n - i,
            {
                let key = members[i].0.as_str();
                let cell = json_cell(&members[i].1, &members[i].2);
                let raw = &cell;
                let outcome = match model.field(key) {
                    Some(field) => field.dtype.coerce_json(raw, arith),
                    None => match raw {
                        JsonCell::Null => Ok(Value::Null),
                        JsonCell::String(s) => Ok(Value::String(s.clone())),
                        JsonCell::Bool(b) => Ok(Value::String(String::from_str(
                            if *b {
                                "true"
                            } else {
                                "false"
                            },
                        ))),
                        JsonCell::Number { text, .. } => Ok(Value::String(text.clone())),
                        JsonCell::Other(text) => Ok(Value::String(text.clone())),
                    },
                };
                proof {
                    if outcome is Ok {
                        lemma_typed_insert(*model, entries(rec), key@, outcome->Ok_0@);
                    }
                }
                let ghost o = result_view(outcome);
                let ghost prev_outs = outs;
                assert(keys[i as int] == key@);
                put_cell(&mut rec, &mut errors, key, outcome);
                proof {
                    outs = outs.push(o);
                    assert(outs.drop_last() =~= prev_outs);
                    assert forall|j: int| 0 <= j < i + 1 implies json_cell_allows(
                        *model,
                        members@[j].0@,
                        member_cell(members@[j]),
                        #[trigger] outs[j],
                    ) by {
                        if j < i {
                            assert(outs[j] == prev_outs[j]);
                        }
                    }
                }
                i += 1;
            }
            assert(json_cells_fit(members@, *model, outs));
            if errors.len() == 0 {
                Ok(rec)
            } else {
                Err(errors)
            }
        },
    }
}

/// Name for what the `csv` crate's default reader reads from a text: the
/// header row, or the text of its error; then each record after it, as its
/// fields' text or the text of the error that record gave.
pub uninterp spec fn csv_records(text: Seq<char>) -> Result<(Seq<Seq<char>>, Seq<Result<Seq<Seq<char>>, Seq<char>>>), Seq<char>>;

/// A record read, or its error, as text.
pub open spec fn record_view(rec: Result<Vec<String>, String>) -> Result<Seq<Seq<char>>, Seq<char>> {
    match rec {
        Ok(fields) => Ok(texts(fields@)),
        Err(e) => Err(e@),
    }
}

/// `csv::Reader` over the bytes of a text: its `headers`, then every item
/// of `records`, each record's fields or its error as `Display` text. The
/// reader goes on after a record that fails (a record with another number
/// of fields than the header, or one that is not UTF-8).
#[verifier::external_body]
fn parse_csv(text: &str) -> (r: Result<(Vec<String>, Vec<Result<Vec<String>, String>>), String>)
    ensures
        match r {
            Ok(p) => csv_records(text@) == Ok::<(Seq<Seq<char>>, Seq<Result<Seq<Seq<char>>, Seq<char>>>), Seq<char>>(
                (texts(p.0@), p.1@.map_values(|rec: Result<Vec<String>, String>| record_view(rec))),
            ),
            Err(e) => csv_records(text@) == Err::<(Seq<Seq<char>>, Seq<Result<Seq<Seq<char>>, Seq<char>>>), Seq<char>>(
                e@,
            ),
        },
{
    let mut reader = csv::Reader::from_reader(text.as_bytes());
    let headers: Vec<String> = reader.headers().map_err(|e| e.to_string())?.iter().map(String::from).collect();
    let records = reader.records().map(
        |rec| rec.map(|fields| fields.iter().map(String::from).collect()).map_err(|e| e.to_string()),
    ).collect();
    Ok((headers, records))
}

/// Name for what `serde_json::from_str` reads from a text as a JSON value,
/// in the library's JSON shapes, or the text of its error.
pub uninterp spec fn json_doc(text: Seq<char>) -> Result<JsonDoc, Seq<char>>;

/// `serde_json::from_str` into a `serde_json::Value`, taken apart into the
/// library's JSON shapes: the value as an item and, when it is an array, its
/// elements as items; an object item keeps each member's key, `Display` text
/// and `as_str` content, anything else its `Display` text.
#[verifier::external_body]
fn parse_json(text: &str) -> (r: Result<JsonDoc, String>)
    ensures
        match r {
            Ok(d) => json_doc(text@) == Ok::<JsonDoc, Seq<char>>(d),
            Err(e) => json_doc(text@) == Err::<JsonDoc, Seq<char>>(e@),
        },
{
    let v: Json = serde_json::from_str(text).map_err(|e| e.to_string())?;
    let item = |x: &Json| match x {
        Json::Object(o) => JsonItem::Object(
            o.iter().map(|(k, c)| (k.clone(), c.to_string(), c.as_str().map(String::from))).collect(),
        ),
        other => JsonItem::NotObject(other.to_string()),
    };
    Ok(JsonDoc(item(&v), v.as_array().map(|a| a.iter().map(&item).collect())))
}

/// Read CSV text: a header row, then one row per record, each cell coerced
/// to the type the model declares for its column. A record the reader
/// cannot take is a row that could not be read, with the reader's error.
pub fn csv_rows<A: FloatArith>(text: &str, model: &Model, arith: &A) -> (r: Result<Vec<RowResult>, String>)
    ensures
        match csv_records(text@) {
            Ok(p) => r matches Ok(rows) && rows@.len() == p.1.len() && forall|i: int|
                0 <= i < rows@.len() ==> match p.1[i] {
                    Ok(cells) => csv_row_allows(p.0, cells, *model, row_view(#[trigger] rows@[i])),
                    Err(e) => row_view(rows@[i]) == Err::<Entries, Seq<Seq<char>>>(seq![e]),
                },
            Err(e) => r matches Err(m) && m@ == e,
        },
{
    match parse_csv(text) {
        Err(e) => Err(e),
        Ok((headers, records)) => {
            let ghost recs = records@.map_values(|rec: Result<Vec<String>, String>| record_view(rec));
            let mut rows: Vec<RowResult> = Vec::new();
            let mut i: usize = 0;
            while i < records.len()
                invariant
                    i <= records@.len(),
                    recs == records@.map_values(|rec: Result<Vec<String>, String>| record_view(rec)),
                    rows@.len() == i,
                    forall|j: int|
                        0 <= j < i ==> match recs[j] {
                            Ok(cells) => csv_row_allows(texts(headers@), cells, *model, row_view(#[trigger] rows@[j])),
                            Err(e) => row_view(rows@[j]) == Err::<Entries, Seq<Seq<char>>>(seq![e]),
                        },
                decreases records.len() - i,
            {
                let row = match &records[i] {
                    Ok(cells) => csv_row(&headers, cells, model, arith),
                    Err(e) => {
                        let mut errors: Vec<String> = Vec::new();
                        errors.push(e.clone());
                        assert(texts(errors@) =~= seq![e@]);
                        Err(errors)
                    },
                };
                assert(recs[i as int] == record_view(records@[i as int]));
                rows.push(row);
                i += 1;
            }
            Ok(rows)
        },
    }
}

/// Read JSON text: a top-level array whose items are rows.
pub fn json_rows<A: FloatArith>(text: &str, model: &Model, arith: &A) -> (r: Result<Vec<RowResult>, String>)
    ensures
        match json_doc(text@) {
            Err(e) => r matches Err(m) && m@ == e,
            Ok(d) => match d.1 {
                None => r matches Err(m) && m@ == "JSON input must be a top-level array of objects"@,
                Some(items) => r matches Ok(rows) && rows@.len() == items@.len() && forall|i: int|
                    0 <= i < rows@.len() ==> json_row_allows(items@[i], *model, row_view(#[trigger] rows@[i])),
            },
        },
{
    match parse_json(text) {
        Err(e) => Err(e),
        Ok(doc) => match doc.1 {
            None => Err(String::from_str("JSON input must be a top-level array of objects")),
            Some(items) => {
                let mut rows: Vec<RowResult> = Vec::new();
                let mut i: usize = 0;
                while i < items.len()
                    invariant
                        i <= items@.len(),
                        rows@.len() == i,
                        forall|j: int| 0 <= j < i ==> json_row_allows(items@[j], *model, row_view(#[trigger] rows@[j])),
                    decreases items.len() - i,
                {
                    let row = json_row(&items[i], model, arith);
                    rows.push(row);
                    i += 1;
                }
                Ok(rows)
            },
        },
    }
}

/// The lines that hold more than white space, in order.
pub open spec fn non_blank(ls: Seq<Seq<char>>) -> Seq<Seq<char>>
    decreases ls.len(),
{
    if ls.len() == 0 {
        Seq::empty()
    } else {
        let prev = non_blank(ls.drop_last());
        if trimmed(ls.last()).len() == 0 {
            prev
        } else {
            prev.push(ls.last())
        }
    }
}

/// Read JSON-lines text: one row per line that holds more than white space,
/// in order. A line that is not JSON is a row that could not be read, with
/// the parser's error.
pub fn jsonl_rows<A: FloatArith>(text: &str, model: &Model, arith: &A) -> (rows: Vec<RowResult>)
    ensures
        rows@.len() == non_blank(text_lines(text@)).len(),
        forall|i: int|
            0 <= i < rows@.len() ==> match json_doc(#[trigger] non_blank(text_lines(text@))[i]) {
                Ok(d) => json_row_allows(d.0, *model, row_view(rows@[i])),
                Err(e) => row_view(rows@[i]) == Err::<Entries, Seq<Seq<char>>>(seq![e]),
            },
{
    let ls = lines(text);
    let ghost all = text_lines(text@);
    let mut rows: Vec<RowResult> = Vec::new();
    let mut i: usize = 0;
    assert(all.take(0) =~= Seq::<Seq<char>>::empty());
    while i < ls.len()
        invariant
            i <= ls@.len(),
            ls@.len() == all.len(),
            all == text_lines(text@),
            forall|j: int| 0 <= j < ls@.len() ==> #[trigger] ls@[j]@ == all[j],
            rows@.len() == non_blank(all.take(i as int)).len(),
            forall|j: int|
                0 <= j < rows@.len() ==> match json_doc(#[trigger] non_blank(all.take(i as int))[j]) {
                    Ok(d) => json_row_allows(d.0, *model, row_view(rows@[j])),
                    Err(e) => row_view(rows@[j]) == Err::<Entries, Seq<Seq<char>>>(seq![e]),
                },
        decreases ls.len() - i,
    {
        let line = ls[i];
        let ghost before = non_blank(all.take(i as int));
        assert(all.take(i + 1).drop_last() =~= all.take(i as int));
        assert(all.take(i + 1).last() == all[i as int]);
        if trim(line).unicode_len() != 0 {
            let ghost after = non_blank(all.take(i + 1));
            assert(after == before.push(line@));
            let row = match parse_json(line) {
                Ok(doc) => json_row(&doc.0, model, arith),
                Err(e) => {
                    let mut errors: Vec<String> = Vec::new();
                    errors.push(e);
                    assert(texts(errors@) =~= seq![e@]);
                    Err(errors)
                },
            };
            rows.push(row);
            assert forall|j: int|
                0 <= j < rows@.len() implies match json_doc(#[trigger] after[j]) {
                Ok(d) => json_row_allows(d.0, *model, row_view(rows@[j])),
                Err(e) => row_view(rows@[j]) == Err::<Entries, Seq<Seq<char>>>(seq![e]),
            } by {
                if j < before.len() {
                    assert(after[j] == before[j]);
                }
            }
        }
        i += 1;
    }
    assert(all.take(all.len() as int) =~= all);
    rows
}

proof fn lemma_row_built(keys: Seq<Seq<char>>, outs: Seq<Result<ValueView, Seq<char>>>, n: int)
    requires
        0 <= n <= outs.len() <= keys.len(),
        forall|i: int, j: int| 0 <= i < j < outs.len() ==> keys[i] != keys[j],
    ensures
        row_built(keys, outs.take(n)).1.len() == 0 <==> forall|j: int| 0 <= j < n ==> #[trigger] outs[j] is Ok,
        row_built(keys, outs.take(n)).1.len() == 0 ==> keys_of(row_built(keys, outs.take(n)).0) == keys.take(n),
        row_built(keys, outs.take(n)).1.len() == 0 ==> forall|j: int|
            0 <= j < n ==> lookup(row_built(keys, outs.take(n)).0, #[trigger] keys[j]) == Some(outs[j]->Ok_0),
    decreases n,
{
    if n == 0 {
        assert(keys.take(0) =~= Seq::<Seq<char>>::empty());
    } else {
        lemma_row_built(keys, outs, n - 1);
        let p = outs.take(n);
        assert(p.drop_last() =~= outs.take(n - 1));
        assert(p.last() == outs[n - 1]);
        let (es, errs) = row_built(keys, outs.take(n - 1));
        let k = keys[n - 1];
        if row_built(keys, p).1.len() == 0 {
            let v = outs[n - 1]->Ok_0;
            assert(outs[n - 1] is Ok);
            lemma_keys_of_inserted(es, k, v);
            assert(!keys.take(n - 1).contains(k)) by {
                if keys.take(n - 1).contains(k) {
                    let i = choose|i: int| 0 <= i < n - 1 && #[trigger] keys.take(n - 1)[i] == k;
                    assert(keys[i] == keys[n - 1]);
                }
            }
            assert(keys.take(n - 1).push(k) =~= keys.take(n));
            assert forall|j: int| 0 <= j < n implies lookup(row_built(keys, p).0, #[trigger] keys[j]) == Some(
                outs[j]->Ok_0,
            ) by {
                lemma_lookup_inserted(es, k, v, keys[j]);
            }
        } else if forall|j: int| 0 <= j < n ==> #[trigger] outs[j] is Ok {
            assert(outs[n - 1] is Ok);
        }
    }
}

/// A row read without error holds one cell per (key, outcome) pair, in the
/// order of the keys, each key holding its own cell's value; a row with an
/// error in any cell is refused. Keys are distinct, as a header row or a
/// JSON object's keys are.
pub proof fn law_row_holds_each_cell(keys: Seq<Seq<char>>, outs: Seq<Result<ValueView, Seq<char>>>)
    requires
        outs.len() <= keys.len(),
        forall|i: int, j: int| 0 <= i < j < outs.len() ==> keys[i] != keys[j],
    ensures
        row_result(keys, outs) is Ok <==> forall|j: int| 0 <= j < outs.len() ==> #[trigger] outs[j] is Ok,
        row_result(keys, outs) matches Ok(es) ==> keys_of(es) == keys.take(outs.len() as int) && forall|j: int|
            0 <= j < outs.len() ==> lookup(es, #[trigger] keys[j]) == Some(outs[j]->Ok_0),
{
    lemma_row_built(keys, outs, outs.len() as int);
    assert(outs.take(outs.len() as int) =~= outs);
}

/// Inserting a value keeps a record typed by a model when the value has the
/// type the model declares for its key.
proof fn lemma_typed_insert(model: Model, es: Entries, k: Seq<char>, v: ValueView)
    requires
        typed_by(model, es),
        first_field(model.fields@, k) matches Some(i) ==> type_accepts(model.fields@[i].dtype, v),
    ensures
        typed_by(model, inserted(es, k, v)),
{
    let out = inserted(es, k, v);
    assert forall|j: int| 0 <= j < out.len() implies (#[trigger] first_field(model.fields@, out[j].0) matches Some(i)
        ==> type_accepts(model.fields@[i].dtype, out[j].1)) by {
        match crate::record::find_key(es, k) {
            Some(idx) => {
                crate::record::lemma_find_key_bound(es, k);
                if j != idx {
                    assert(out[j] == es[j]);
                }
            },
            None => {
                if j < es.len() {
                    assert(out[j] == es[j]);
                }
            },
        }
    }
}

/// The text of each output column for a record, in the model's field order;
/// a field the record lacks gives an empty text.
pub fn row_cells<A: FloatArith>(record: &Record, model: &Model, arith: &A) -> (r: Vec<String>)
    ensures
        r@.len() == model.fields@.len(),
        forall|i: int| 0 <= i < r@.len() ==> (#[trigger] row_cells_spec(*model, entries(*record))[i] matches Some(t)
            ==> r@[i]@ == t),
{
    let mut out: Vec<String> = Vec::new();
    let mut i: usize = 0;
    while i < model.fields.len()
        invariant
            i <= model.fields@.len(),
            out@.len() == i,
            forall|j: int| 0 <= j < i ==> (#[trigger] row_cells_spec(*model, entries(*record))[j] matches Some(t)
                ==> out@[j]@ == t),
        decreases model.fields.len() - i,
    {
        let text = match record_get(record, model.fields[i].name.as_str()) {
            Some(v) => v.text(arith),
            None => String::new(),
        };
        out.push(text);
        i += 1;
    }
    out
}

/// Each field of the model with its value in a record, in the model's field
/// order: the record's value, or null where the record lacks the field.
pub open spec fn model_values_spec(model: Model, es: Entries) -> Seq<(Seq<char>, ValueView)> {
    Seq::new(
        model.fields@.len(),
        |i: int|
            (
                model.fields@[i].name@,
                match lookup(es, model.fields@[i].name@) {
                    Some(v) => v,
                    None => ValueView::Null,
                },
            ),
    )
}

/// The fields of an output record, in the model's field order: only the
/// model's fields, each with the record's value, null where it has none.
pub fn model_values(record: &Record, model: &Model) -> (r: Vec<(String, Value)>)
    ensures
        r@.len() == model.fields@.len(),
        forall|i: int|
            0 <= i < r@.len() ==> (#[trigger] r@[i]).0@ == model_values_spec(*model, entries(*record))[i].0
                && r@[i].1@ == model_values_spec(*model, entries(*record))[i].1,
{
    let mut out: Vec<(String, Value)> = Vec::new();
    let mut i: usize = 0;
    while i < model.fields.len()
        invariant
            i <= model.fields@.len(),
            out@.len() == i,
            forall|j: int|
                0 <= j < i ==> (#[trigger] out@[j]).0@ == model_values_spec(*model, entries(*record))[j].0
                    && out@[j].1@ == model_values_spec(*model, entries(*record))[j].1,
        decreases model.fields.len() - i,
    {
        let name = model.fields[i].name.as_str();
        let value = match record_get(record, name) {
            Some(v) => v.clone(),
            None => Value::Null,
        };
        out.push((String::from_str(name), value));
        i += 1;
    }
    out
}

} // verus!
