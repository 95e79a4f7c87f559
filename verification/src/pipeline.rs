//! The pipeline: a spec binding models, mapping and endpoints, and the
//! four-stage life of every row (extract, validate_left, transform,
//! validate_right).
use std::path::Path;
use vstd::prelude::*;
use crate::float::FloatArith;
use crate::io::{row_view, Endpoint, RowResult};
use crate::mapping::{apply_allows, mapping_problems, texts, Mapping};
use crate::model::{conforms, issues, law_validate_empty_iff_conforms, messages_match, Model};
use crate::record::{entries, Entries, Record};
use crate::text::join;

verus! {

/// Name for `Path::parent` on the build target, as text.
pub uninterp spec fn path_parent(p: Seq<char>) -> Option<Seq<char>>;

/// Name for `Path::is_absolute` on the build target.
pub uninterp spec fn path_is_absolute(p: Seq<char>) -> bool;

/// Name for `Path::join` on the build target, as text.
pub uninterp spec fn path_join(base: Seq<char>, p: Seq<char>) -> Seq<char>;

/// `Path::parent` of a path given as text; the parent is a prefix of a
/// valid UTF-8 path, so it is text too.
#[verifier::external_body]
fn parent_of(p: &str) -> (r: Option<String>)
    ensures
        match r {
            Some(s) => path_parent(p@) == Some(s@),
            None => path_parent(p@) == None::<Seq<char>>,
        },
{
    Path::new(p).parent().map(|q| q.to_string_lossy().into_owned())
}

/// `Path::is_absolute` of a path given as text.
#[verifier::external_body]
fn is_absolute(p: &str) -> (r: bool)
    ensures
        r == path_is_absolute(p@),
{
    Path::new(p).is_absolute()
}

/// `Path::join` of two paths given as text; joining two UTF-8 paths gives
/// UTF-8 text. The standard library documents that joining onto an
/// absolute path appends (which keeps it absolute) unless the joined path
/// replaces it, as an absolute path, or on Windows a path with a prefix but
/// no root, does.
#[verifier::external_body]
fn join_path(base: &str, p: &str) -> (r: String)
    ensures
        r@ == path_join(base@, p@),
        path_is_absolute(base@) ==> path_is_absolute(r@) || r@ == p@,
{
    Path::new(base).join(p).to_string_lossy().into_owned()
}

/// A path resolved against a base directory: absolute paths stay as they
/// are, relative ones are joined onto the base.
pub open spec fn resolved(base: Seq<char>, p: Seq<char>) -> Seq<char> {
    if path_is_absolute(p) {
        p
    } else {
        path_join(base, p)
    }
}

/// The directory a spec file lives in (`.` when the path has no parent).
pub open spec fn spec_dir(path: Seq<char>) -> Seq<char> {
    match path_parent(path) {
        Some(d) => d,
        None => "."@,
    }
}

/// A path resolved against a base. Against an absolute base, or for an
/// absolute path, resolving again changes nothing; against an absolute base
/// the result is absolute unless it is the path itself (on Windows, a path
/// with a drive prefix but no root replaces the base).
fn resolve(base: &str, p: &str) -> (r: String)
    ensures
        r@ == resolved(base@, p@),
        path_is_absolute(base@) || path_is_absolute(p@) ==> resolved(base@, r@) == r@,
        path_is_absolute(base@) && r@ != p@ ==> path_is_absolute(r@),
{
    if is_absolute(p) {
        String::from_str(p)
    } else {
        join_path(base, p)
    }
}

/// The top-level worker spec: everything a run needs, all of it data.
/// Relative paths are resolved against the directory the spec file lives in.
#[derive(Debug)]
pub struct PipelineSpec {
    pub left_model: String,
    pub right_model: String,
    pub mapping: String,
    pub input: Endpoint,
    pub output: Endpoint,
    /// Optional JSON file collecting rejected rows with their errors.
    pub rejects: Option<String>,
}

/// `r` is the spec as read from the file at `path`: the same spec, with
/// every path in it resolved against the directory that file lives in.
pub open spec fn loaded_from(r: PipelineSpec, spec: PipelineSpec, path: Seq<char>) -> bool {
    let dir = spec_dir(path);
    &&& r.left_model@ == resolved(dir, spec.left_model@)
    &&& r.right_model@ == resolved(dir, spec.right_model@)
    &&& r.mapping@ == resolved(dir, spec.mapping@)
    &&& r.input.format == spec.input.format
    &&& r.input.path@ == resolved(dir, spec.input.path@)
    &&& r.output.format == spec.output.format
    &&& r.output.path@ == resolved(dir, spec.output.path@)
    &&& match spec.rejects {
        Some(p) => r.rejects matches Some(q) && q@ == resolved(dir, p@),
        None => r.rejects is None,
    }
}

impl PipelineSpec {
    /// The spec as read from the file at `path`, with every path in it
    /// resolved against the directory that file lives in.
    pub fn load(spec: PipelineSpec, path: &str) -> (r: PipelineSpec)
        ensures
            loaded_from(r, spec, path@),
    {
        let base = match parent_of(path) {
            Some(d) => d,
            None => String::from_str("."),
        };
        let b = base.as_str();
        let rejects = match &spec.rejects {
            Some(p) => Some(resolve(b, p.as_str())),
            None => None,
        };
        PipelineSpec {
            left_model: resolve(b, spec.left_model.as_str()),
            right_model: resolve(b, spec.right_model.as_str()),
            mapping: resolve(b, spec.mapping.as_str()),
            input: Endpoint { format: spec.input.format, path: resolve(b, spec.input.path.as_str()) },
            output: Endpoint { format: spec.output.format, path: resolve(b, spec.output.path.as_str()) },
            rejects,
        }
    }
}

/// A fully loaded pipeline: spec plus the three data artifacts it references.
#[derive(Debug)]
pub struct Pipeline {
    pub spec: PipelineSpec,
    pub left: Model,
    pub right: Model,
    pub mapping: Mapping,
}

/// The stage at which a row was rejected.
#[derive(Debug, Clone, Copy, PartialEq, Eq, Structural)]
pub enum Stage {
    Extract,
    ValidateLeft,
    Transform,
    ValidateRight,
}

/// A rejected row: its 1-based number, the stage, the messages, and the
/// record as it entered the failing stage (none when it could not be read).
#[derive(Debug)]
pub struct Reject {
    pub row: usize,
    pub stage: Stage,
    pub errors: Vec<String>,
    pub record: Option<Record>,
}

#[derive(Debug)]
pub struct RunReport {
    pub rows_read: usize,
    pub rows_written: usize,
    pub rejects: Vec<Reject>,
}

impl Default for RunReport {
    fn default() -> (r: Self)
        ensures
            r.rows_read == 0,
            r.rows_written == 0,
            r.rejects@.len() == 0,
    {
        RunReport { rows_read: 0, rows_written: 0, rejects: Vec::new() }
    }
}

impl RunReport {
    fn reject(&mut self, row: usize, stage: Stage, errors: Vec<String>, rec: Option<Record>)
        ensures
            final(self).rows_read == old(self).rows_read,
            final(self).rows_written == old(self).rows_written,
            final(self).rejects@ == old(self).rejects@.push(Reject { row, stage, errors, record: rec }),
    {
        self.rejects.push(Reject { row, stage, errors, record: rec });
    }
}

/// The row numbers of the rejects, in order.
pub open spec fn reject_rows(rs: Seq<Reject>) -> Seq<int> {
    rs.map_values(|r: Reject| r.row as int)
}

pub open spec fn increasing(s: Seq<int>) -> bool {
    forall|i: int, j: int| 0 <= i < j < s.len() ==> s[i] < s[j]
}

/// A reject says the truth about its row: the row failed at that stage,
/// with those messages, and passed every stage before it.
pub open spec fn reject_explains(p: Pipeline, row: Result<Entries, Seq<Seq<char>>>, r: Reject) -> bool {
    match r.stage {
        Stage::Extract => row == Err::<Entries, Seq<Seq<char>>>(texts(r.errors@)) && r.record is None,
        Stage::ValidateLeft => row matches Ok(es) && r.record matches Some(rec) && entries(rec) == es
            && r.errors@.len() > 0 && messages_match(r.errors@, issues(p.left.fields@, es)),
        Stage::Transform => row matches Ok(es) && r.record matches Some(rec) && entries(rec) == es
            && conforms(p.left.fields@, es) && r.errors@.len() > 0 && apply_allows(
            p.mapping,
            es,
            Err(texts(r.errors@)),
        ),
        Stage::ValidateRight => row matches Ok(es) && r.record matches Some(mapped) && conforms(p.left.fields@, es)
            && apply_allows(p.mapping, es, Ok(entries(mapped)))
            && r.errors@.len() > 0 && messages_match(r.errors@, issues(p.right.fields@, entries(mapped))),
    }
}

/// An output record came from its row: the row was read, conforms to the
/// left model, and maps to this record, which conforms to the right model.
pub open spec fn output_explains(p: Pipeline, row: Result<Entries, Seq<Seq<char>>>, out: Entries) -> bool {
    &&& row matches Ok(es) && conforms(p.left.fields@, es) && apply_allows(p.mapping, es, Ok(out))
    &&& conforms(p.right.fields@, out)
}

/// The first `n` rows are accounted for exactly once: rejected (with the
/// reason) or written (as their mapped record), in input order.
/// `sources[k]` is the row number of the `k`-th output record.
pub open spec fn accounted_upto(
    p: Pipeline,
    rows: Seq<Result<Entries, Seq<Seq<char>>>>,
    n: int,
    out: Seq<Record>,
    rejects: Seq<Reject>,
    sources: Seq<int>,
) -> bool {
    let rr = reject_rows(rejects);
    &&& n <= rows.len()
    &&& sources.len() == out.len()
    &&& out.len() + rejects.len() == n
    &&& increasing(rr)
    &&& increasing(sources)
    &&& forall|j: int| 0 <= j < rr.len() ==> 1 <= #[trigger] rr[j] <= n
    &&& forall|k: int| 0 <= k < sources.len() ==> 1 <= #[trigger] sources[k] <= n
    &&& forall|j: int, k: int| 0 <= j < rr.len() && 0 <= k < sources.len() ==> #[trigger] rr[j] != #[trigger] sources[k]
    &&& forall|t: int| 1 <= t <= n ==> #[trigger] rr.contains(t) || sources.contains(t)
    &&& forall|j: int| 0 <= j < rejects.len() ==> reject_explains(p, rows[rr[j] - 1], #[trigger] rejects[j])
    &&& forall|k: int| 0 <= k < out.len() ==> output_explains(p, rows[sources[k] - 1], entries(#[trigger] out[k]))
}

/// Every row of the input is accounted for exactly once: rejected (with the
/// reason) or written (as its mapped record), in input order.
pub open spec fn accounted(
    p: Pipeline,
    rows: Seq<Result<Entries, Seq<Seq<char>>>>,
    out: Seq<Record>,
    rejects: Seq<Reject>,
    sources: Seq<int>,
) -> bool {
    accounted_upto(p, rows, rows.len() as int, out, rejects, sources)
}

pub open spec fn rows_view(rows: Seq<RowResult>) -> Seq<Result<Entries, Seq<Seq<char>>>> {
    rows.map_values(|r: RowResult| row_view(r))
}

/// `"  - "`-separated messages after the inconsistency heading.
pub open spec fn inconsistency_text(problems: Seq<Seq<char>>) -> Seq<char> {
    "mapping is inconsistent with the models:\n  - "@ + join(problems, "\n  - "@)
}

impl Pipeline {
    /// Static checks only — no data touched.
    pub fn validate(&self) -> (r: Vec<String>)
        ensures
            texts(r@) == mapping_problems(self.mapping, self.left, self.right),
    {
        self.mapping.validate(&self.left, &self.right)
    }

    /// The static check a run starts with: the mapping must be consistent
    /// with both models before any row is read.
    pub fn check(&self) -> (r: Result<(), String>)
        ensures
            mapping_problems(self.mapping, self.left, self.right).len() == 0 <==> r is Ok,
            r matches Err(e) ==> e@ == inconsistency_text(mapping_problems(self.mapping, self.left, self.right)),
    {
        let problems = self.validate();
        if problems.len() == 0 {
            return Ok(());
        }
        let mut joined = String::new();
        let mut i: usize = 0;
        while i < problems.len()
            invariant
                0 < problems@.len(),
                i <= problems@.len(),
                joined@ == join(texts(problems@).take(i as int), "\n  - "@),
            decreases problems.len() - i,
        {
            let ghost prev = joined@;
            assert(texts(problems@).take(i + 1).drop_last() =~= texts(problems@).take(i as int));
            if i > 0 {
                joined.append("\n  - ");
            }
            joined.append(problems[i].as_str());
            proof {
                if i == 0 {
                    assert(prev =~= Seq::<char>::empty());
                    assert(joined@ =~= problems@[0]@);
                }
            }
            i += 1;
        }
        assert(texts(problems@).take(problems.len() as int) =~= texts(problems@));
        let mut msg = String::from_str("mapping is inconsistent with the models:\n  - ");
        msg.append(joined.as_str());
        Err(msg)
    }
}

impl Pipeline {
    /// Run every row through the four stages. A failure at any stage rejects
    /// the row, with its number, the stage, the messages and the record as it
    /// entered that stage; the other rows go on. Returns the records that
    /// passed every stage, in input order, and the report.
    pub fn process<A: FloatArith>(&self, rows: Vec<RowResult>, arith: &A) -> (r: (Vec<Record>, RunReport))
        ensures
            r.1.rows_read == rows@.len(),
            r.1.rows_written == r.0@.len(),
            exists|sources: Seq<int>| #[trigger] accounted(*self, rows_view(rows@), r.0@, r.1.rejects@, sources),
    {
        let ghost input = rows_view(rows@);
        let n = rows.len();
        let mut pending = rows;
        let mut report = RunReport { rows_read: n, rows_written: 0, rejects: Vec::new() };
        let mut output: Vec<Record> = Vec::new();
        let ghost mut sources: Seq<int> = Seq::empty();
        let mut i: usize = 0;
        while i < n
            invariant
                n == pending@.len(),
                input == rows_view(rows@),
                i <= n,
                input.len() == n,
                forall|k: int| i <= k < n ==> row_view(#[trigger] pending@[k]) == input[k],
                report.rows_read == n,
                accounted_upto(*self, input, i as int, output@, report.rejects@, sources),
            decreases n - i,
        {
            let ghost rejects_before = report.rejects@;
            let ghost out_before = output@;
            let ghost sources_before = sources;
            let mut row: RowResult = Err(Vec::new());
            pending.set_and_swap(i, &mut row);
            assert(row_view(row) == input[i as int]);
            let row_number = i + 1;
            match row {
                Err(errors) => {
                    report.reject(row_number, Stage::Extract, errors, None);
                },
                Ok(rec) => {
                    let left_errors = self.left.validate(&rec, arith);
                    proof {
                        law_validate_empty_iff_conforms(self.left.fields@, entries(rec));
                    }
                    if left_errors.len() > 0 {
                        report.reject(row_number, Stage::ValidateLeft, left_errors, Some(rec));
                    } else {
                        match self.mapping.apply(&rec, arith) {
                            Err(errors) => {
                                report.reject(row_number, Stage::Transform, errors, Some(rec));
                            },
                            Ok(mapped) => {
                                let right_errors = self.right.validate(&mapped, arith);
                                proof {
                                    law_validate_empty_iff_conforms(self.right.fields@, entries(mapped));
                                }
                                if right_errors.len() > 0 {
                                    report.reject(row_number, Stage::ValidateRight, right_errors, Some(mapped));
                                } else {
                                    output.push(mapped);
                                    proof {
                                        sources = sources.push(row_number as int);
                                    }
                                }
                            },
                        }
                    }
                },
            }
            proof {
                let rr = reject_rows(report.rejects@);
                let rb = reject_rows(rejects_before);
                assert forall|j: int| 0 <= j < rb.len() implies rr[j] == #[trigger] rb[j] by {
                    assert(report.rejects@[j] == rejects_before[j]);
                }
                assert forall|t: int| 1 <= t <= i + 1 implies #[trigger] rr.contains(t) || sources.contains(t) by {
                    if t == i + 1 {
                        if rr.len() > rb.len() {
                            assert(rr[rr.len() - 1] == t);
                        } else {
                            assert(sources[sources.len() - 1] == t);
                        }
                    } else {
                        if rb.contains(t) {
                            let j = choose|j: int| 0 <= j < rb.len() && rb[j] == t;
                            assert(rr[j] == t);
                        } else {
                            let k = choose|k: int| 0 <= k < sources_before.len() && sources_before[k] == t;
                            assert(sources[k] == t);
                        }
                    }
                }
                assert forall|j: int| 0 <= j < report.rejects@.len() implies reject_explains(
                    *self,
                    input[rr[j] - 1],
                    #[trigger] report.rejects@[j],
                ) by {
                    if j < rejects_before.len() {
                        assert(report.rejects@[j] == rejects_before[j]);
                    }
                }
                assert forall|k: int| 0 <= k < output@.len() implies output_explains(
                    *self,
                    input[sources[k] - 1],
                    entries(#[trigger] output@[k]),
                ) by {
                    if k < out_before.len() {
                        assert(output@[k] == out_before[k]);
                    }
                }
            }
            i += 1;
        }
        report.rows_written = output.len();
        let result = (output, report);
        assert(accounted(*self, rows_view(rows@), result.0@, result.1.rejects@, sources));
        result
    }
}

} // verus!

verus! {

/// A spec loaded from two places differs only in its resolved paths: the
/// formats and whether rejects are kept are the spec's own, an absolute path
/// is kept as written, and two files in one directory give the same spec.
pub proof fn law_load_differs_only_in_paths(spec: PipelineSpec, a: Seq<char>, b: Seq<char>, ra: PipelineSpec, rb: PipelineSpec)
    requires
        loaded_from(ra, spec, a),
        loaded_from(rb, spec, b),
    ensures
        ra.input.format == rb.input.format,
        ra.output.format == rb.output.format,
        ra.rejects is Some <==> rb.rejects is Some,
        path_is_absolute(spec.left_model@) ==> ra.left_model@ == rb.left_model@,
        path_is_absolute(spec.right_model@) ==> ra.right_model@ == rb.right_model@,
        path_is_absolute(spec.mapping@) ==> ra.mapping@ == rb.mapping@,
        path_is_absolute(spec.input.path@) ==> ra.input.path@ == rb.input.path@,
        path_is_absolute(spec.output.path@) ==> ra.output.path@ == rb.output.path@,
        spec.rejects matches Some(p) && path_is_absolute(p@) ==> (ra.rejects->0)@ == (rb.rejects->0)@,
        spec_dir(a) == spec_dir(b) ==> ra.left_model@ == rb.left_model@ && ra.right_model@ == rb.right_model@
            && ra.mapping@ == rb.mapping@ && ra.input.path@ == rb.input.path@ && ra.output.path@ == rb.output.path@,
{
}

/// A run never stops at a bad row: every input row ends up in exactly one
/// place, either among the rejects or among the written records.
pub proof fn law_each_row_rejected_or_written(
    p: Pipeline,
    rows: Seq<Result<Entries, Seq<Seq<char>>>>,
    out: Seq<Record>,
    rejects: Seq<Reject>,
    sources: Seq<int>,
    t: int,
)
    requires
        accounted(p, rows, out, rejects, sources),
        1 <= t <= rows.len(),
    ensures
        reject_rows(rejects).contains(t) != sources.contains(t),
{
    let rr = reject_rows(rejects);
    assert(rr.contains(t) || sources.contains(t));
    if rr.contains(t) && sources.contains(t) {
        let j = choose|j: int| 0 <= j < rr.len() && rr[j] == t;
        let k = choose|k: int| 0 <= k < sources.len() && sources[k] == t;
        assert(rr[j] != sources[k]);
    }
}

/// Nothing that reaches the output violates the right model, and every
/// written record is the mapping of a row that conformed to the left model.
pub proof fn law_written_records_conform(
    p: Pipeline,
    rows: Seq<Result<Entries, Seq<Seq<char>>>>,
    out: Seq<Record>,
    rejects: Seq<Reject>,
    sources: Seq<int>,
    k: int,
)
    requires
        accounted(p, rows, out, rejects, sources),
        0 <= k < out.len(),
    ensures
        conforms(p.right.fields@, entries(out[k])),
        rows[sources[k] - 1] matches Ok(es) && conforms(p.left.fields@, es),
{
    assert(output_explains(p, rows[sources[k] - 1], entries(out[k])));
}

} // verus!
