//! The map between a left and a right model: which source fields feed each
//! target field, and the transforms that shape its value.
use vstd::prelude::*;
use crate::float::FloatArith;
use crate::model::{first_field, Field, Model};
use crate::record::{
    add_key, entries, inserted, keys_of, lemma_keys_of_inserted, lookup, record_get, record_insert, record_new,
    Entries, Record,
};
use crate::text::{concat3, int_text, same_text, usize_text};
use crate::transform::{apply_chain, chain_allows, list_view, views, Transform};
use crate::value::{Value, ValueView};

verus! {

/// How one target (right-model) field is produced: which left-model fields
/// feed it and which transform chain shapes the value. All data.
#[derive(Debug)]
pub struct FieldMap {
    pub target: String,
    /// Convenience for the common single-source case.
    pub source: Option<String>,
    pub sources: Vec<String>,
    pub transforms: Vec<Transform>,
}

/// The map between the left and right models.
#[derive(Debug)]
pub struct Mapping {
    pub left: String,
    pub right: String,
    pub fields: Vec<FieldMap>,
}

/// The source field names of a field map: `source` when it is given,
/// otherwise `sources`.
pub open spec fn source_list(fm: FieldMap) -> Seq<Seq<char>> {
    match fm.source {
        Some(s) => seq![s@],
        None => fm.sources@.map_values(|x: String| x@),
    }
}

/// `target` occurs as the target of one of the field maps.
pub open spec fn has_target(fms: Seq<FieldMap>, target: Seq<char>) -> bool {
    exists|j: int| 0 <= j < fms.len() && (#[trigger] fms[j]).target@ == target
}

/// The problems with each source of a field map, in order.
pub open spec fn source_problems(names: Seq<Seq<char>>, target: Seq<char>, left: Model) -> Seq<Seq<char>>
    decreases names.len(),
{
    if names.len() == 0 {
        Seq::empty()
    } else {
        let prev = source_problems(names.drop_last(), target, left);
        if first_field(left.fields@, names.last()) is None {
            prev.push(
                "source field '"@ + names.last() + "' (for target '"@ + target + "') does not exist in left model '"@
                    + left.name@ + "'"@,
            )
        } else {
            prev
        }
    }
}

/// The problems with the field map at position `i`.
pub open spec fn field_map_problems(fms: Seq<FieldMap>, i: int, left: Model, right: Model) -> Seq<Seq<char>> {
    let fm = fms[i];
    let t = fm.target@;
    let dup: Seq<Seq<char>> = if has_target(fms.take(i), t) {
        seq!["target field '"@ + t + "' is mapped more than once"@]
    } else {
        Seq::empty()
    };
    let unknown: Seq<Seq<char>> = if first_field(right.fields@, t) is None {
        seq!["target field '"@ + t + "' does not exist in right model '"@ + right.name@ + "'"@]
    } else {
        Seq::empty()
    };
    let both: Seq<Seq<char>> = if fm.source is Some && fm.sources@.len() > 0 {
        seq!["target field '"@ + t + "' declares both 'source' and 'sources'"@]
    } else {
        Seq::empty()
    };
    dup + unknown + both + source_problems(source_list(fm), t, left)
}

/// The problems with the first `n` field maps.
pub open spec fn field_maps_problems(fms: Seq<FieldMap>, n: int, left: Model, right: Model) -> Seq<Seq<char>>
    decreases n,
{
    if n <= 0 {
        Seq::empty()
    } else {
        field_maps_problems(fms, n - 1, left, right) + field_map_problems(fms, n - 1, left, right)
    }
}

/// The required right fields, among the given ones, that no field map targets.
pub open spec fn unmapped_required(fields: Seq<Field>, fms: Seq<FieldMap>) -> Seq<Seq<char>>
    decreases fields.len(),
{
    if fields.len() == 0 {
        Seq::empty()
    } else {
        let prev = unmapped_required(fields.drop_last(), fms);
        let f = fields.last();
        if f.required && !has_target(fms, f.name@) {
            prev.push("required right field '"@ + f.name@ + "' has no mapping"@)
        } else {
            prev
        }
    }
}

/// Every message static validation gives, in order.
pub open spec fn mapping_problems(m: Mapping, left: Model, right: Model) -> Seq<Seq<char>> {
    let l: Seq<Seq<char>> = if m.left@ != left.name@ {
        seq!["mapping declares left model '"@ + m.left@ + "' but was given '"@ + left.name@ + "'"@]
    } else {
        Seq::empty()
    };
    let r: Seq<Seq<char>> = if m.right@ != right.name@ {
        seq!["mapping declares right model '"@ + m.right@ + "' but was given '"@ + right.name@ + "'"@]
    } else {
        Seq::empty()
    };
    l + r + field_maps_problems(m.fields@, m.fields@.len() as int, left, right) + unmapped_required(
        right.fields@,
        m.fields@,
    )
}

/// The values a field map pulls from a record: one per source, null where
/// the record has no such field.
pub open spec fn inputs_of(fm: FieldMap, es: Entries) -> Seq<ValueView> {
    let names = source_list(fm);
    Seq::new(
        names.len(),
        |j: int|
            match lookup(es, names[j]) {
                Some(v) => v,
                None => ValueView::Null,
            },
    )
}

/// What a target field gets from the list its chain left, or from the
/// chain's error: nothing left is null, one value is that value, more than
/// one is an error.
pub open spec fn finished(t: Seq<char>, r: Result<Seq<ValueView>, Seq<char>>) -> Result<ValueView, Seq<char>> {
    match r {
        Err(e) => Err("target '"@ + t + "': "@ + e),
        Ok(vs) => if vs.len() == 0 {
            Ok(ValueView::Null)
        } else if vs.len() == 1 {
            Ok(vs[0])
        } else {
            Err("target '"@ + t + "': "@ + int_text(vs.len() as int)
                + " values remain after transforms; add a combining transform such as concat or coalesce"@)
        },
    }
}

/// The outcomes one field map can have on a record: its chain applied to
/// the values pulled from the record, finished for its target.
pub open spec fn target_allows(fm: FieldMap, es: Entries, o: Result<ValueView, Seq<char>>) -> bool {
    exists|r: Result<Seq<ValueView>, Seq<char>>|
        #[trigger] chain_allows(fm.transforms@, inputs_of(fm, es), r) && o == finished(fm.target@, r)
}

/// The entries and the error messages built from the outcomes of the first
/// field maps, in order: each value inserted under its target, each error
/// noted.
pub open spec fn assembled_from(fms: Seq<FieldMap>, outs: Seq<Result<ValueView, Seq<char>>>) -> (Entries, Seq<Seq<char>>)
    decreases outs.len(),
{
    if outs.len() == 0 {
        (Seq::empty(), Seq::empty())
    } else {
        let (es, errs) = assembled_from(fms, outs.drop_last());
        match outs.last() {
            Ok(v) => (inserted(es, fms[outs.len() - 1].target@, v), errs),
            Err(e) => (es, errs.push(e)),
        }
    }
}

/// The record built from one outcome per field map, or every error among
/// them when there is one.
pub open spec fn assembled(fms: Seq<FieldMap>, outs: Seq<Result<ValueView, Seq<char>>>) -> Result<Entries, Seq<Seq<char>>> {
    let (es, errs) = assembled_from(fms, outs);
    if errs.len() == 0 {
        Ok(es)
    } else {
        Err(errs)
    }
}

/// One outcome per field map, each one that field map allows on the record.
pub open spec fn targets_fit(fms: Seq<FieldMap>, es: Entries, outs: Seq<Result<ValueView, Seq<char>>>) -> bool {
    &&& outs.len() == fms.len()
    &&& forall|j: int| 0 <= j < fms.len() ==> target_allows(fms[j], es, #[trigger] outs[j])
}

/// The outcomes applying a mapping to a record can have: each target field
/// gets its own outcome, and the record is assembled from them.
pub open spec fn apply_allows(m: Mapping, es: Entries, r: Result<Entries, Seq<Seq<char>>>) -> bool {
    exists|outs: Seq<Result<ValueView, Seq<char>>>| #[trigger] targets_fit(m.fields@, es, outs) && r == assembled(m.fields@, outs)
}

/// The order of the target fields in a mapped record: each target at its
/// first mapping.
pub open spec fn target_order(fms: Seq<FieldMap>) -> Seq<Seq<char>>
    decreases fms.len(),
{
    if fms.len() == 0 {
        Seq::empty()
    } else {
        add_key(target_order(fms.drop_last()), fms.last().target@)
    }
}

pub open spec fn texts(ms: Seq<String>) -> Seq<Seq<char>> {
    ms.map_values(|m: String| m@)
}

pub open spec fn mapped_view(r: Result<Record, Vec<String>>) -> Result<Entries, Seq<Seq<char>>> {
    match r {
        Ok(rec) => Ok(entries(rec)),
        Err(es) => Err(texts(es@)),
    }
}

impl FieldMap {
    pub fn source_names(&self) -> (r: Vec<&str>)
        ensures
            r@.len() == source_list(*self).len(),
            forall|i: int| 0 <= i < r@.len() ==> #[trigger] r@[i]@ == source_list(*self)[i],
    {
        let mut names: Vec<&str> = Vec::new();
        match &self.source {
            Some(s) => {
                names.push(s.as_str());
            },
            None => {
                let mut i: usize = 0;
                while i < self.sources.len()
                    invariant
                        i <= self.sources@.len(),
                        self.source is None,
                        names@.len() == i,
                        forall|j: int| 0 <= j < i ==> #[trigger] names@[j]@ == self.sources@[j]@,
                    decreases self.sources.len() - i,
                {
                    names.push(self.sources[i].as_str());
                    i += 1;
                }
            },
        }
        names
    }
}

/// Whether one of the first `n` field maps targets `target`.
fn targets_before(fms: &Vec<FieldMap>, n: usize, target: &str) -> (r: bool)
    requires
        n <= fms@.len(),
    ensures
        r == has_target(fms@.take(n as int), target@),
{
    let mut j: usize = 0;
    while j < n
        invariant
            j <= n <= fms@.len(),
            forall|k: int| 0 <= k < j ==> (#[trigger] fms@[k]).target@ != target@,
        decreases n - j,
    {
        if same_text(fms[j].target.as_str(), target) {
            assert(fms@.take(n as int)[j as int] == fms@[j as int]);
            return true;
        }
        j += 1;
    }
    assert forall|k: int| 0 <= k < n implies (#[trigger] fms@.take(n as int)[k]).target@ != target@ by {
        assert(fms@.take(n as int)[k] == fms@[k]);
    }
    false
}

impl Mapping {
    /// Static consistency checks against the two models. Run before any data
    /// is touched; returns one message per problem.
    pub fn validate(&self, left: &Model, right: &Model) -> (r: Vec<String>)
        ensures
            texts(r@) == mapping_problems(*self, *left, *right),
    {
        let mut errors: Vec<String> = Vec::new();
        if !same_text(self.left.as_str(), left.name.as_str()) {
            let mut msg = concat3("mapping declares left model '", self.left.as_str(), "' but was given '");
            msg.append(left.name.as_str());
            msg.append("'");
            errors.push(msg);
        }
        if !same_text(self.right.as_str(), right.name.as_str()) {
            let mut msg = concat3("mapping declares right model '", self.right.as_str(), "' but was given '");
            msg.append(right.name.as_str());
            msg.append("'");
            errors.push(msg);
        }
        let ghost header = texts(errors@);
        let mut i: usize = 0;
        while i < self.fields.len()
            invariant
                i <= self.fields@.len(),
                texts(errors@) == header + field_maps_problems(self.fields@, i as int, *left, *right),
            decreases self.fields.len() - i,
        {
            let ghost before = texts(errors@);
            let fm = &self.fields[i];
            let t = fm.target.as_str();
            if targets_before(&self.fields, i, t) {
                errors.push(concat3("target field '", t, "' is mapped more than once"));
            }
            if right.field(t).is_none() {
                let mut msg = concat3("target field '", t, "' does not exist in right model '");
                msg.append(right.name.as_str());
                msg.append("'");
                errors.push(msg);
            }
            if fm.source.is_some() && fm.sources.len() > 0 {
                errors.push(concat3("target field '", t, "' declares both 'source' and 'sources'"));
            }
            let ghost mid = texts(errors@);
            let names = fm.source_names();
            let mut j: usize = 0;
            while j < names.len()
                invariant
                    j <= names@.len(),
                    t@ == fm.target@,
                    names@.len() == source_list(*fm).len(),
                    forall|k: int| 0 <= k < names@.len() ==> #[trigger] names@[k]@ == source_list(*fm)[k],
                    texts(errors@) == mid + source_problems(source_list(*fm).take(j as int), fm.target@, *left),
                decreases names.len() - j,
            {
                assert(source_list(*fm).take(j + 1).drop_last() =~= source_list(*fm).take(j as int));
                assert(source_list(*fm).take(j + 1).last() == names@[j as int]@);
                let ghost prev = texts(errors@);
                if left.field(names[j]).is_none() {
                    let mut msg = concat3("source field '", names[j], "' (for target '");
                    msg.append(t);
                    msg.append("') does not exist in left model '");
                    msg.append(left.name.as_str());
                    msg.append("'");
                    assert(msg@ =~= "source field '"@ + names@[j as int]@ + "' (for target '"@ + fm.target@
                        + "') does not exist in left model '"@ + left.name@ + "'"@);
                    errors.push(msg);
                    assert(texts(errors@) =~= prev.push(msg@));
                }
                j += 1;
            }
            assert(source_list(*fm).take(names.len() as int) =~= source_list(*fm));
            proof {
                assert(texts(errors@) =~= before + field_map_problems(self.fields@, i as int, *left, *right));
            }
            i += 1;
        }
        let ghost body = texts(errors@);
        let mut k: usize = 0;
        while k < right.fields.len()
            invariant
                k <= right.fields@.len(),
                texts(errors@) == body + unmapped_required(right.fields@.take(k as int), self.fields@),
            decreases right.fields.len() - k,
        {
            assert(right.fields@.take(k + 1).drop_last() =~= right.fields@.take(k as int));
            let field = &right.fields[k];
            if field.required && !targets_before(&self.fields, self.fields.len(), field.name.as_str()) {
                let ghost prev = texts(errors@);
                errors.push(concat3("required right field '", field.name.as_str(), "' has no mapping"));
                assert(texts(errors@) =~= prev.push(
                    "required right field '"@ + field.name@ + "' has no mapping"@,
                ));
            }
            assert(self.fields@.take(self.fields@.len() as int) =~= self.fields@);
            k += 1;
        }
        assert(right.fields@.take(right.fields@.len() as int) =~= right.fields@);
        errors
    }
}

impl Mapping {
    /// Apply the mapping to one left-model record, producing a right-model
    /// record. Returns one message per failed target field.
    pub fn apply<A: FloatArith>(&self, record: &Record, arith: &A) -> (r: Result<Record, Vec<String>>)
        ensures
            apply_allows(*self, entries(*record), mapped_view(r)),
            r matches Err(errs) ==> errs@.len() > 0,
            r matches Ok(out) ==> keys_of(entries(out)) == target_order(self.fields@),
    {
        let ghost es = entries(*record);
        let ghost fms = self.fields@;
        let mut out = record_new();
        let mut errors: Vec<String> = Vec::new();
        let ghost mut outs: Seq<Result<ValueView, Seq<char>>> = Seq::empty();
        let mut i: usize = 0;
        assert(texts(errors@) =~= Seq::<Seq<char>>::empty());
        while i < self.fields.len()
            invariant
                i <= self.fields@.len(),
                es == entries(*record),
                fms == self.fields@,
                outs.len() == i,
                forall|j: int| 0 <= j < i ==> target_allows(fms[j], es, #[trigger] outs[j]),
                assembled_from(fms, outs) == (entries(out), texts(errors@)),
                errors@.len() == 0 ==> keys_of(entries(out)) == target_order(self.fields@.take(i as int)),
            decreases self.fields.len() - i,
        {
            let fm = &self.fields[i];
            let names = fm.source_names();
            let mut inputs: Vec<Value> = Vec::new();
            let mut j: usize = 0;
            while j < names.len()
                invariant
                    j <= names@.len(),
                    es == entries(*record),
                    names@.len() == source_list(*fm).len(),
                    forall|k: int| 0 <= k < names@.len() ==> #[trigger] names@[k]@ == source_list(*fm)[k],
                    inputs@.len() == j,
                    forall|k: int| 0 <= k < j ==> #[trigger] views(inputs@)[k] == inputs_of(*fm, es)[k],
                decreases names.len() - j,
            {
                let ghost prev = inputs@;
                match record_get(record, names[j]) {
                    Some(v) => inputs.push(v.clone()),
                    None => inputs.push(Value::Null),
                }
                assert forall|k: int| 0 <= k < j + 1 implies #[trigger] views(inputs@)[k] == inputs_of(*fm, es)[k] by {
                    if k < j {
                        assert(inputs@[k] == prev[k]);
                        assert(views(prev)[k] == inputs_of(*fm, es)[k]);
                    }
                }
                j += 1;
            }
            assert(views(inputs@) =~= inputs_of(*fm, es));
            let ghost prev_out = entries(out);
            let ghost prev_errs = texts(errors@);
            let ghost prev_outs = outs;
            let t = fm.target.as_str();
            assert(self.fields@.take(i + 1).drop_last() =~= self.fields@.take(i as int));
            assert(self.fields@.take(i + 1).last() == *fm);
            proof {
                lemma_keys_of_inserted(entries(out), fm.target@, ValueView::Null);
            }
            let res = apply_chain(fm.transforms.as_slice(), inputs, arith);
            let ghost o = finished(fm.target@, list_view(res));
            assert(target_allows(*fm, es, o));
            match res {
                Ok(mut values) => {
                    if values.len() == 0 {
                        record_insert(&mut out, String::from_str(t), Value::Null);
                    } else if values.len() == 1 {
                        let ghost vs = views(values@);
                        let v = values.pop().unwrap();
                        assert(v@ == vs[0]);
                        proof {
                            lemma_keys_of_inserted(entries(out), fm.target@, v@);
                        }
                        record_insert(&mut out, String::from_str(t), v);
                    } else {
                        let mut msg = concat3("target '", t, "': ");
                        msg.append(usize_text(values.len()).as_str());
                        msg.append(" values remain after transforms; add a combining transform such as concat or coalesce");
                        assert(msg@ =~= "target '"@ + fm.target@ + "': "@ + int_text(values@.len() as int)
                            + " values remain after transforms; add a combining transform such as concat or coalesce"@);
                        errors.push(msg);
                        assert(texts(errors@) =~= prev_errs.push(msg@));
                    }
                },
                Err(e) => {
                    let mut msg = concat3("target '", t, "': ");
                    msg.append(e.as_str());
                    errors.push(msg);
                    assert(texts(errors@) =~= prev_errs.push(msg@));
                },
            }
            proof {
                outs = outs.push(o);
                assert(outs.drop_last() =~= prev_outs);
                assert forall|j: int| 0 <= j < i + 1 implies target_allows(fms[j], es, #[trigger] outs[j]) by {
                    if j < i {
                        assert(outs[j] == prev_outs[j]);
                    }
                }
            }
            i += 1;
        }
        assert(self.fields@.take(self.fields@.len() as int) =~= self.fields@);
        assert(targets_fit(fms, es, outs));
        if errors.len() == 0 {
            Ok(out)
        } else {
            Err(errors)
        }
    }
}

} // verus!

verus! {

/// The consistency rules of a mapping against its two models: the model
/// names match; each target exists in the right model and is mapped at most
/// once; no field map declares both `source` and `sources`; each source
/// exists in the left model; every required right field has a mapping.
pub open spec fn consistent(m: Mapping, left: Model, right: Model) -> bool {
    let fms = m.fields@;
    &&& m.left@ == left.name@
    &&& m.right@ == right.name@
    &&& forall|i: int, j: int| 0 <= i < j < fms.len() ==> (#[trigger] fms[i]).target@ != (#[trigger] fms[j]).target@
    &&& forall|i: int| 0 <= i < fms.len() ==> first_field(right.fields@, (#[trigger] fms[i]).target@) is Some
    &&& forall|i: int| 0 <= i < fms.len() ==> !((#[trigger] fms[i]).source is Some && fms[i].sources@.len() > 0)
    &&& forall|i: int, k: int| 0 <= i < fms.len() && 0 <= k < source_list(fms[i]).len() ==> first_field(
        left.fields@,
        #[trigger] source_list(#[trigger] fms[i])[k],
    ) is Some
    &&& forall|f: int| 0 <= f < right.fields@.len() && (#[trigger] right.fields@[f]).required ==> has_target(
        fms,
        right.fields@[f].name@,
    )
}

proof fn lemma_source_problems_empty(names: Seq<Seq<char>>, target: Seq<char>, left: Model)
    ensures
        source_problems(names, target, left).len() == 0 <==> forall|k: int| 0 <= k < names.len() ==> first_field(
            left.fields@,
            #[trigger] names[k],
        ) is Some,
    decreases names.len(),
{
    if names.len() > 0 {
        lemma_source_problems_empty(names.drop_last(), target, left);
        assert forall|k: int| 0 <= k < names.len() - 1 implies names.drop_last()[k] == #[trigger] names[k] by {}
        if source_problems(names, target, left).len() == 0 {
            assert forall|k: int| 0 <= k < names.len() implies first_field(left.fields@, #[trigger] names[k]) is Some by {
                if k < names.len() - 1 {
                    assert(names.drop_last()[k] == names[k]);
                }
            }
        }
    }
}

proof fn lemma_field_maps_problems_empty(fms: Seq<FieldMap>, n: int, left: Model, right: Model)
    requires
        0 <= n <= fms.len(),
    ensures
        field_maps_problems(fms, n, left, right).len() == 0 <==> forall|i: int| 0 <= i < n ==> (
        #[trigger] field_map_problems(fms, i, left, right)).len() == 0,
    decreases n,
{
    if n > 0 {
        lemma_field_maps_problems_empty(fms, n - 1, left, right);
    }
}

proof fn lemma_unmapped_required_empty(fields: Seq<Field>, fms: Seq<FieldMap>)
    ensures
        unmapped_required(fields, fms).len() == 0 <==> forall|f: int| 0 <= f < fields.len() && (
        #[trigger] fields[f]).required ==> has_target(fms, fields[f].name@),
    decreases fields.len(),
{
    if fields.len() > 0 {
        lemma_unmapped_required_empty(fields.drop_last(), fms);
        assert forall|f: int| 0 <= f < fields.len() - 1 implies fields.drop_last()[f] == #[trigger] fields[f] by {}
        if unmapped_required(fields, fms).len() == 0 {
            assert forall|f: int| 0 <= f < fields.len() && (#[trigger] fields[f]).required implies has_target(
                fms,
                fields[f].name@,
            ) by {
                if f < fields.len() - 1 {
                    assert(fields.drop_last()[f] == fields[f]);
                }
            }
        }
    }
}

/// The error messages among the outcomes, in order.
pub open spec fn failures(outs: Seq<Result<ValueView, Seq<char>>>) -> Seq<Seq<char>>
    decreases outs.len(),
{
    if outs.len() == 0 {
        Seq::empty()
    } else {
        let prev = failures(outs.drop_last());
        match outs.last() {
            Ok(_) => prev,
            Err(e) => prev.push(e),
        }
    }
}

proof fn lemma_assembled_errors(fms: Seq<FieldMap>, outs: Seq<Result<ValueView, Seq<char>>>)
    ensures
        assembled_from(fms, outs).1 == failures(outs),
        failures(outs).len() == 0 <==> forall|j: int| 0 <= j < outs.len() ==> #[trigger] outs[j] is Ok,
    decreases outs.len(),
{
    if outs.len() > 0 {
        lemma_assembled_errors(fms, outs.drop_last());
        if failures(outs).len() == 0 {
            assert forall|j: int| 0 <= j < outs.len() implies #[trigger] outs[j] is Ok by {
                if j < outs.len() - 1 {
                    assert(outs.drop_last()[j] == outs[j]);
                }
            }
        }
        if forall|j: int| 0 <= j < outs.len() ==> #[trigger] outs[j] is Ok {
            assert forall|j: int| 0 <= j < outs.drop_last().len() implies #[trigger] outs.drop_last()[j] is Ok by {
                assert(outs[j] is Ok);
            }
            assert(outs[outs.len() - 1] is Ok);
        }
    }
}

proof fn lemma_assembled_values(fms: Seq<FieldMap>, outs: Seq<Result<ValueView, Seq<char>>>, n: int)
    requires
        0 <= n <= outs.len(),
        outs.len() <= fms.len(),
        forall|i: int, j: int| 0 <= i < j < fms.len() ==> (#[trigger] fms[i]).target@ != (#[trigger] fms[j]).target@,
        forall|j: int| 0 <= j < outs.len() ==> #[trigger] outs[j] is Ok,
    ensures
        forall|j: int|
            0 <= j < n ==> lookup(assembled_from(fms, outs.take(n)).0, #[trigger] fms[j].target@) == Some(
                outs[j]->Ok_0,
            ),
    decreases n,
{
    if n > 0 {
        lemma_assembled_values(fms, outs, n - 1);
        let p = outs.take(n);
        assert(p.drop_last() =~= outs.take(n - 1));
        assert(p.last() == outs[n - 1]);
        assert(outs[n - 1] is Ok);
        let prev = assembled_from(fms, outs.take(n - 1)).0;
        assert forall|j: int| 0 <= j < n implies lookup(assembled_from(fms, p).0, #[trigger] fms[j].target@) == Some(
            outs[j]->Ok_0,
        ) by {
            crate::record::lemma_lookup_inserted(prev, fms[n - 1].target@, outs[n - 1]->Ok_0, fms[j].target@);
        }
    }
}

/// A mapping fails exactly when one of its target fields fails, and then
/// reports one message per failed target field, in field-map order; no
/// partly mapped record comes out.
pub proof fn law_failed_targets_are_reported(fms: Seq<FieldMap>, outs: Seq<Result<ValueView, Seq<char>>>)
    ensures
        assembled(fms, outs) is Err <==> exists|j: int| 0 <= j < outs.len() && #[trigger] outs[j] is Err,
        assembled(fms, outs) matches Err(errs) ==> errs == failures(outs),
{
    lemma_assembled_errors(fms, outs);
}

/// When the targets are distinct and the mapping succeeds, each target field
/// of the record holds the value its own field map gave, whatever the other
/// field maps did.
pub proof fn law_each_target_holds_its_value(fms: Seq<FieldMap>, outs: Seq<Result<ValueView, Seq<char>>>, es: Entries)
    requires
        outs.len() == fms.len(),
        forall|i: int, j: int| 0 <= i < j < fms.len() ==> (#[trigger] fms[i]).target@ != (#[trigger] fms[j]).target@,
        assembled(fms, outs) == Ok::<Entries, Seq<Seq<char>>>(es),
    ensures
        forall|j: int|
            0 <= j < fms.len() ==> (#[trigger] outs[j]) is Ok && lookup(es, fms[j].target@) == Some(outs[j]->Ok_0),
{
    lemma_assembled_errors(fms, outs);
    lemma_assembled_values(fms, outs, outs.len() as int);
    assert(outs.take(outs.len() as int) =~= outs);
    assert forall|j: int| 0 <= j < fms.len() implies (#[trigger] outs[j]) is Ok && lookup(es, fms[j].target@) == Some(
        outs[j]->Ok_0,
    ) by {
        assert(lookup(assembled_from(fms, outs.take(outs.len() as int)).0, fms[j].target@) == Some(outs[j]->Ok_0));
    }
}

/// Static validation finds no problem exactly when the mapping follows every
/// consistency rule against the two models.
pub proof fn law_validate_empty_iff_consistent(m: Mapping, left: Model, right: Model)
    ensures
        mapping_problems(m, left, right).len() == 0 <==> consistent(m, left, right),
{
    let fms = m.fields@;
    let n = fms.len() as int;
    lemma_field_maps_problems_empty(fms, n, left, right);
    lemma_unmapped_required_empty(right.fields@, fms);
    assert forall|i: int| 0 <= i < n implies ((#[trigger] field_map_problems(fms, i, left, right)).len() == 0 <==> {
        &&& !has_target(fms.take(i), fms[i].target@)
        &&& first_field(right.fields@, fms[i].target@) is Some
        &&& !(fms[i].source is Some && fms[i].sources@.len() > 0)
        &&& forall|k: int| 0 <= k < source_list(fms[i]).len() ==> first_field(
            left.fields@,
            #[trigger] source_list(fms[i])[k],
        ) is Some
    }) by {
        lemma_source_problems_empty(source_list(fms[i]), fms[i].target@, left);
    }
    if mapping_problems(m, left, right).len() == 0 {
        assert forall|i: int, j: int| 0 <= i < j < fms.len() implies (#[trigger] fms[i]).target@
            != (#[trigger] fms[j]).target@ by {
            assert(field_map_problems(fms, j, left, right).len() == 0);
            assert(fms.take(j)[i] == fms[i]);
        }
        assert forall|i: int| 0 <= i < fms.len() implies first_field(right.fields@, (#[trigger] fms[i]).target@) is Some by {
            assert(field_map_problems(fms, i, left, right).len() == 0);
        }
        assert forall|i: int| 0 <= i < fms.len() implies !((#[trigger] fms[i]).source is Some
            && fms[i].sources@.len() > 0) by {
            assert(field_map_problems(fms, i, left, right).len() == 0);
        }
        assert forall|i: int, k: int| 0 <= i < fms.len() && 0 <= k < source_list(fms[i]).len() implies first_field(
            left.fields@,
            #[trigger] source_list(#[trigger] fms[i])[k],
        ) is Some by {
            assert(field_map_problems(fms, i, left, right).len() == 0);
        }
    }
    if consistent(m, left, right) {
        assert forall|i: int| 0 <= i < n implies (#[trigger] field_map_problems(fms, i, left, right)).len() == 0 by {
            if has_target(fms.take(i), fms[i].target@) {
                let j = choose|j: int| 0 <= j < fms.take(i).len() && (#[trigger] fms.take(i)[j]).target@ == fms[i].target@;
                assert(fms.take(i)[j] == fms[j]);
            }
            assert(first_field(right.fields@, fms[i].target@) is Some);
            assert(!(fms[i].source is Some && fms[i].sources@.len() > 0));
        }
    }
}

} // verus!
