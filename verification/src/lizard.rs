//! Reading Lizard's CSV report of per-function metrics into symbol evidence.
use vstd::prelude::*;
use vstd::utf8::{valid_utf8, decode_utf8};

use crate::commands::texts;
use crate::coverage::from_utf8;
use crate::identity::SnapshotId;
use crate::git::PACKAGE_VERSION;
use crate::identity::{EntityId, ModelId, RelationId};
use crate::kernel::{
    AttributeValue, AttributeView, Attributes, Entity, EntityObservation, EvidenceProvenance, Measurement, Relation,
    RelationObservation,
    attribute_pairs, text_value,
};
use crate::maps::seq_map;
use crate::model_code::{node_kind_name, repository_world, symbol_id, symbol_identity, CODE_MODEL_ID};
use crate::numbers::{count_bits, exact_double};
use crate::observation::{revision_view, AnalysisCoverage, AnalyzerProvenance, BatchView, CodeBatch, ObservationBatch};
use crate::model::{AnalysisInput, AnalyzerError, Artifact};
use crate::model_code::{NodeKind, RevisionId};
use crate::numbers::{IntErrorKind, kind_message, parse_unsigned_spec, parse_u32_chars};
use crate::query::{same_ignoring_ascii_case, eq_ignore_ascii_case};
use crate::text::{append_chars, chars_of, decode_lossy, lossy_text, string_of, slice_chars, trim, trimmed, contains_seq, contains_chars, occurs_at, starts_with, same_chars};

verus! {

/// The reading state of the CSV scanner.
pub struct CsvState {
    pub records: Seq<Seq<Seq<char>>>,
    pub record: Seq<Seq<char>>,
    pub field: Seq<char>,
    pub quoted: bool,
}

/// A field ends at a line break; a carriage return before it is dropped.
pub open spec fn without_cr(f: Seq<char>) -> Seq<char> {
    if f.len() > 0 && f.last() == '\r' {
        f.drop_last()
    } else {
        f
    }
}

pub open spec fn some_nonempty(r: Seq<Seq<char>>) -> bool {
    exists|i: int| 0 <= i < r.len() && (#[trigger] r[i]).len() > 0
}

/// Scanning `t` from position `i`: quoted fields may hold commas, line breaks
/// and doubled quotes; a record of only empty fields is dropped.
pub open spec fn csv_from(t: Seq<char>, i: int, st: CsvState) -> Option<Seq<Seq<Seq<char>>>>
    decreases t.len() - i,
{
    if i < 0 || i >= t.len() {
        if st.quoted {
            None
        } else if st.field.len() > 0 || st.record.len() > 0 {
            Some(st.records.push(st.record.push(st.field)))
        } else {
            Some(st.records)
        }
    } else {
        let c = t[i];
        if c == '"' && st.quoted && i + 1 < t.len() && t[i + 1] == '"' {
            csv_from(t, i + 2, CsvState { field: st.field.push('"'), ..st })
        } else if c == '"' {
            csv_from(t, i + 1, CsvState { quoted: !st.quoted, ..st })
        } else if c == ',' && !st.quoted {
            csv_from(t, i + 1, CsvState { record: st.record.push(st.field), field: Seq::empty(), ..st })
        } else if c == '\n' && !st.quoted {
            let rec = st.record.push(without_cr(st.field));
            let records = if some_nonempty(rec) {
                st.records.push(rec)
            } else {
                st.records
            };
            csv_from(t, i + 1, CsvState { records, record: Seq::empty(), field: Seq::empty(), ..st })
        } else {
            csv_from(t, i + 1, CsvState { field: st.field.push(c), ..st })
        }
    }
}

/// The records of a CSV text, or `None` when a quoted field is left open.
pub open spec fn csv_spec(t: Seq<char>) -> Option<Seq<Seq<Seq<char>>>> {
    csv_from(t, 0, CsvState { records: Seq::empty(), record: Seq::empty(), field: Seq::empty(), quoted: false })
}

pub open spec fn records_view(v: Seq<Vec<String>>) -> Seq<Seq<Seq<char>>> {
    v.map_values(|r: Vec<String>| texts(r@))
}

fn failed(message: &str) -> (e: AnalyzerError)
    ensures
        e matches AnalyzerError::Failed(m) && m@ == message@,
{
    AnalyzerError::Failed(message.to_owned())
}

/// Splits Lizard's CSV output into records of fields.
pub fn csv_records(output: &[u8]) -> (r: Result<Vec<Vec<String>>, AnalyzerError>)
    ensures
        !valid_utf8(output@) ==> (r matches Err(AnalyzerError::Failed(m)) && m@ == "Lizard returned non-UTF-8 CSV"@),
        valid_utf8(output@) ==> match csv_spec(decode_utf8(output@)) {
            Some(recs) => r matches Ok(v) && records_view(v@) == recs,
            None => r matches Err(AnalyzerError::Failed(m)) && m@ == "Lizard returned malformed quoted CSV"@,
        },
{
    let text = match from_utf8(output) {
        Ok(s) => chars_of(s),
        Err(_) => return Err(failed("Lizard returned non-UTF-8 CSV")),
    };
    let ghost t = text@;
    let mut records: Vec<Vec<String>> = Vec::new();
    let mut record: Vec<String> = Vec::new();
    let mut field: Vec<char> = Vec::new();
    let mut quoted = false;
    let mut i: usize = 0;
    proof {
        assert(records_view(records@) =~= Seq::<Seq<Seq<char>>>::empty());
        assert(texts(record@) =~= Seq::<Seq<char>>::empty());
    }
    while i < text.len()
        invariant
            i <= text@.len(),
            t == text@,
            csv_spec(t) == csv_from(
                t,
                i as int,
                CsvState { records: records_view(records@), record: texts(record@), field: field@, quoted },
            ),
        decreases text@.len() - i,
    {
        let c = text[i];
        if c == '"' && quoted && i + 1 < text.len() && text[i + 1] == '"' {
            field.push('"');
            i = i + 2;
        } else if c == '"' {
            quoted = !quoted;
            i = i + 1;
        } else if c == ',' && !quoted {
            let ghost before = record@;
            record.push(string_of(&field));
            assert(texts(record@) =~= texts(before).push(field@));
            field = Vec::new();
            i = i + 1;
        } else if c == '\n' && !quoted {
            if field.len() > 0 && field[field.len() - 1] == '\r' {
                field.pop();
            }
            let ghost before = record@;
            record.push(string_of(&field));
            assert(texts(record@) =~= texts(before).push(field@));
            let mut any = false;
            let mut k: usize = 0;
            while k < record.len()
                invariant
                    k <= record@.len(),
                    any == exists|x: int| 0 <= x < k && (#[trigger] record@[x])@.len() > 0,
                decreases record@.len() - k,
            {
                if !record[k].as_str().is_empty() {
                    any = true;
                }
                k = k + 1;
            }
            proof {
                let rv = texts(record@);
                if some_nonempty(rv) {
                    let x = choose|x: int| 0 <= x < rv.len() && (#[trigger] rv[x]).len() > 0;
                    assert(record@[x]@.len() > 0);
                }
                if any {
                    let x = choose|x: int| 0 <= x < k && (#[trigger] record@[x])@.len() > 0;
                    assert(rv[x].len() > 0);
                }
            }
            let mut finished: Vec<String> = Vec::new();
            std::mem::swap(&mut finished, &mut record);
            if any {
                let ghost rb = records@;
                records.push(finished);
                assert(records_view(records@) =~= records_view(rb).push(texts(finished@)));
            }
            field = Vec::new();
            assert(texts(record@) =~= Seq::<Seq<char>>::empty());
            i = i + 1;
        } else {
            field.push(c);
            i = i + 1;
        }
    }
    if quoted {
        return Err(failed("Lizard returned malformed quoted CSV"));
    }
    if field.len() > 0 || record.len() > 0 {
        let ghost before = record@;
        record.push(string_of(&field));
        assert(texts(record@) =~= texts(before).push(field@));
        let ghost rb = records@;
        records.push(record);
        assert(records_view(records@) =~= records_view(rb).push(texts(before).push(field@)));
    }
    Ok(records)
}

/// Where each metric is in a record.
#[derive(Debug, Clone, Copy, PartialEq, Eq)]
pub struct CsvColumns {
    pub nloc: usize,
    pub complexity: usize,
    pub parameters: usize,
    pub file: usize,
    pub function: usize,
    pub long_name: usize,
    pub start: usize,
    pub end: usize,
}

/// The position of the first header equal, ignoring ASCII case, to one of
/// `names`, looking from position `i`.
pub open spec fn header_from(headers: Seq<Seq<char>>, names: Seq<Seq<char>>, i: int) -> Option<int>
    decreases headers.len() - i,
{
    if i < 0 || i >= headers.len() {
        None
    } else if exists|k: int| 0 <= k < names.len() && same_ignoring_ascii_case(headers[i], #[trigger] names[k]) {
        Some(i)
    } else {
        header_from(headers, names, i + 1)
    }
}

/// The message for a column the header row lacks.
pub open spec fn lacks(name: Seq<char>) -> Seq<char> {
    "Lizard CSV lacks "@ + name
}

/// The columns a header row names, or the first column it lacks.
pub open spec fn columns_from_headers(h: Seq<Seq<char>>) -> Result<CsvColumns, Seq<char>> {
    match (
        header_from(h, seq!["NLOC"@], 0),
        header_from(h, seq!["CCN"@, "cyclomatic_complexity"@], 0),
        header_from(h, seq!["PARAM"@, "parameter_count"@], 0),
        header_from(h, seq!["file"@, "filename"@], 0),
        header_from(h, seq!["function"@, "name"@], 0),
        header_from(h, seq!["long_name"@, "long name"@], 0),
        header_from(h, seq!["start"@, "start_line"@], 0),
        header_from(h, seq!["end"@, "end_line"@], 0),
    ) {
        (None, _, _, _, _, _, _, _) => Err(lacks("NLOC"@)),
        (_, None, _, _, _, _, _, _) => Err(lacks("CCN"@)),
        (_, _, None, _, _, _, _, _) => Err(lacks("PARAM"@)),
        (_, _, _, None, _, _, _, _) => Err(lacks("file"@)),
        (_, _, _, _, None, _, _, _) => Err(lacks("function"@)),
        (_, _, _, _, _, None, _, _) => Err(lacks("long_name"@)),
        (_, _, _, _, _, _, None, _) => Err(lacks("start"@)),
        (_, _, _, _, _, _, _, None) => Err(lacks("end"@)),
        (Some(a), Some(b), Some(c), Some(d), Some(e), Some(f), Some(g), Some(x)) => Ok(
            CsvColumns {
                nloc: a as usize,
                complexity: b as usize,
                parameters: c as usize,
                file: d as usize,
                function: e as usize,
                long_name: f as usize,
                start: g as usize,
                end: x as usize,
            },
        ),
    }
}

fn header_index(headers: &[String], names: &[&str]) -> (r: Option<usize>)
    ensures
        match header_from(texts(headers@), names@.map_values(|n: &str| n@), 0) {
            Some(i) => r == Some(i as usize),
            None => r is None,
        },
{
    let ghost hs = texts(headers@);
    let ghost ns = names@.map_values(|n: &str| n@);
    let mut i: usize = 0;
    while i < headers.len()
        invariant
            i <= headers@.len(),
            hs == texts(headers@),
            ns == names@.map_values(|n: &str| n@),
            header_from(hs, ns, 0) == header_from(hs, ns, i as int),
        decreases headers@.len() - i,
    {
        let mut k: usize = 0;
        let mut hit = false;
        while k < names.len()
            invariant
                k <= names@.len(),
                i < headers@.len(),
                hs == texts(headers@),
                ns == names@.map_values(|n: &str| n@),
                hit == exists|x: int| 0 <= x < k && same_ignoring_ascii_case(hs[i as int], #[trigger] ns[x]),
            decreases names@.len() - k,
        {
            if eq_ignore_ascii_case(headers[i].as_str(), names[k]) {
                hit = true;
            }
            assert(ns[k as int] == names@[k as int]@);
            k = k + 1;
        }
        if hit {
            return Some(i);
        }
        i = i + 1;
    }
    None
}

impl CsvColumns {
    /// Lizard's documented, headerless column order.
    pub fn lizard_default() -> (c: Self)
        ensures
            c == (CsvColumns { nloc: 0, complexity: 1, parameters: 3, file: 6, function: 7, long_name: 8, start: 9, end: 10 }),
    {
        CsvColumns { nloc: 0, complexity: 1, parameters: 3, file: 6, function: 7, long_name: 8, start: 9, end: 10 }
    }

    /// The columns a header row names, each found by any of its usual names,
    /// ignoring ASCII case.
    pub fn from_headers(headers: &[String]) -> (r: Result<Self, AnalyzerError>)
        ensures
            match columns_from_headers(texts(headers@)) {
                Ok(c) => r == Ok::<CsvColumns, AnalyzerError>(c),
                Err(m) => r matches Err(AnalyzerError::Failed(e)) && e@ == m,
            },
    {
        proof {
            assert(["NLOC"]@.map_values(|n: &str| n@) =~= seq!["NLOC"@]);
            assert(["CCN", "cyclomatic_complexity"]@.map_values(|n: &str| n@) =~= seq!["CCN"@, "cyclomatic_complexity"@]);
            assert(["PARAM", "parameter_count"]@.map_values(|n: &str| n@) =~= seq!["PARAM"@, "parameter_count"@]);
            assert(["file", "filename"]@.map_values(|n: &str| n@) =~= seq!["file"@, "filename"@]);
            assert(["function", "name"]@.map_values(|n: &str| n@) =~= seq!["function"@, "name"@]);
            assert(["long_name", "long name"]@.map_values(|n: &str| n@) =~= seq!["long_name"@, "long name"@]);
            assert(["start", "start_line"]@.map_values(|n: &str| n@) =~= seq!["start"@, "start_line"@]);
            assert(["end", "end_line"]@.map_values(|n: &str| n@) =~= seq!["end"@, "end_line"@]);
        }
        let nloc = match header_index(headers, &["NLOC"]) {
            Some(i) => i,
            None => return Err(lacking("NLOC")),
        };
        let complexity = match header_index(headers, &["CCN", "cyclomatic_complexity"]) {
            Some(i) => i,
            None => return Err(lacking("CCN")),
        };
        let parameters = match header_index(headers, &["PARAM", "parameter_count"]) {
            Some(i) => i,
            None => return Err(lacking("PARAM")),
        };
        let file = match header_index(headers, &["file", "filename"]) {
            Some(i) => i,
            None => return Err(lacking("file")),
        };
        let function = match header_index(headers, &["function", "name"]) {
            Some(i) => i,
            None => return Err(lacking("function")),
        };
        let long_name = match header_index(headers, &["long_name", "long name"]) {
            Some(i) => i,
            None => return Err(lacking("long_name")),
        };
        let start = match header_index(headers, &["start", "start_line"]) {
            Some(i) => i,
            None => return Err(lacking("start")),
        };
        let end = match header_index(headers, &["end", "end_line"]) {
            Some(i) => i,
            None => return Err(lacking("end")),
        };
        Ok(CsvColumns { nloc, complexity, parameters, file, function, long_name, start, end })
    }
}

fn lacking(name: &str) -> (e: AnalyzerError)
    ensures
        e matches AnalyzerError::Failed(m) && m@ == lacks(name@),
{
    let mut m = chars_of("Lizard CSV lacks ");
    append_chars(&mut m, &chars_of(name));
    AnalyzerError::Failed(string_of(&m))
}

/// What `Path::strip_prefix` leaves of `path` below the directory `base`, as
/// text; `None` when `base` is not a prefix of `path`, component by component.
pub uninterp spec fn path_relative_to(path: Seq<char>, base: Seq<char>) -> Option<Seq<char>>;

/// `Path::strip_prefix`, with the remainder read back as text.
#[verifier::external_body]
pub(crate) fn strip_path_prefix(path: &str, base: &str) -> (r: Option<String>)
    ensures
        path_relative_to(path@, base@) == (match r {
            Some(s) => Some(s@),
            None => None::<Seq<char>>,
        }),
{
    std::path::Path::new(path).strip_prefix(base).ok().map(|p| p.to_string_lossy().into_owned())
}

/// `s` without its leading slashes.
pub open spec fn without_leading_slashes(s: Seq<char>) -> Seq<char>
    decreases s.len(),
{
    if s.len() > 0 && s[0] == '/' {
        without_leading_slashes(s.drop_first())
    } else {
        s
    }
}

/// The text before the first `(`, or all of it.
pub open spec fn before_paren(s: Seq<char>) -> Seq<char>
    decreases s.len(),
{
    if s.len() == 0 {
        s
    } else if s.last() == '(' && !s.drop_last().contains('(') {
        s.drop_last()
    } else if s.drop_last().contains('(') {
        before_paren(s.drop_last())
    } else {
        s
    }
}

/// One function that Lizard measured.
#[derive(Debug, Clone, PartialEq, Eq)]
pub struct LizardRow {
    pub path: String,
    pub name: String,
    pub qualified_name: String,
    pub nloc: u32,
    pub complexity: u32,
    pub parameters: u32,
    pub start: u32,
    pub end: u32,
}

/// What a row holds, as text and numbers.
pub struct RowView {
    pub path: Seq<char>,
    pub name: Seq<char>,
    pub qualified_name: Seq<char>,
    pub nloc: u32,
    pub complexity: u32,
    pub parameters: u32,
    pub start: u32,
    pub end: u32,
}

impl View for LizardRow {
    type V = RowView;

    open spec fn view(&self) -> RowView {
        RowView {
            path: self.path@,
            name: self.name@,
            qualified_name: self.qualified_name@,
            nloc: self.nloc,
            complexity: self.complexity,
            parameters: self.parameters,
            start: self.start,
            end: self.end,
        }
    }
}

/// The metric at `column`, read as a `u32`, or why it cannot be.
pub open spec fn metric(rec: Seq<Seq<char>>, column: usize, label: Seq<char>) -> Result<u32, Seq<char>> {
    if column >= rec.len() {
        Err(lacks(label))
    } else {
        match parse_unsigned_spec(rec[column as int], u32::MAX as nat) {
            Ok(v) => Ok(v as u32),
            Err(k) => Err("invalid Lizard "@ + label + ": "@ + kind_message(k)),
        }
    }
}

/// The function a record describes; `None` for a record without a file or a
/// function name.
pub open spec fn row_spec(c: CsvColumns, rec: Seq<Seq<char>>, temporary: Seq<char>) -> Result<Option<RowView>, Seq<char>> {
    if c.file >= rec.len() {
        Ok(None)
    } else {
        let file = rec[c.file as int];
        let path = without_leading_slashes(
            match path_relative_to(file, temporary) {
                Some(p) => p,
                None => file,
            },
        );
        let name = trim(if c.function < rec.len() {
            rec[c.function as int]
        } else {
            Seq::empty()
        });
        if name.len() == 0 {
            Ok(None)
        } else {
            let qualified_name = trim(before_paren(if c.long_name < rec.len() {
                rec[c.long_name as int]
            } else {
                name
            }));
            match (
                metric(rec, c.nloc, "NLOC"@),
                metric(rec, c.complexity, "CCN"@),
                metric(rec, c.parameters, "PARAM"@),
                metric(rec, c.start, "start"@),
                metric(rec, c.end, "end"@),
            ) {
                (Err(m), _, _, _, _) => Err(m),
                (_, Err(m), _, _, _) => Err(m),
                (_, _, Err(m), _, _) => Err(m),
                (_, _, _, Err(m), _) => Err(m),
                (_, _, _, _, Err(m)) => Err(m),
                (Ok(nloc), Ok(complexity), Ok(parameters), Ok(start), Ok(end)) => Ok(
                    Some(RowView { path, name, qualified_name, nloc, complexity, parameters, start, end }),
                ),
            }
        }
    }
}

fn strip_leading_slashes(s: &[char]) -> (r: Vec<char>)
    ensures
        r@ == without_leading_slashes(s@),
{
    let mut i: usize = 0;
    assert(s@.skip(0) =~= s@);
    while i < s.len() && s[i] == '/'
        invariant
            i <= s@.len(),
            without_leading_slashes(s@) == without_leading_slashes(s@.skip(i as int)),
        decreases s@.len() - i,
    {
        assert(s@.skip(i as int).drop_first() =~= s@.skip(i + 1));
        i = i + 1;
    }
    assert(s@.skip(i as int) =~= s@.subrange(i as int, s@.len() as int));
    slice_chars(s, i, s.len())
}

proof fn lemma_before_paren(s: Seq<char>, k: int)
    requires
        0 <= k <= s.len(),
        !s.take(k).contains('('),
        k == s.len() || s[k] == '(',
    ensures
        before_paren(s) == s.take(k),
    decreases s.len(),
{
    if s.len() > 0 {
        if k == s.len() {
            assert(s.take(k) =~= s);
            if s.drop_last().contains('(') {
                let j = choose|j: int| 0 <= j < s.drop_last().len() && s.drop_last()[j] == '(';
                assert(s.take(k)[j] == '(');
            }
            if s.last() == '(' {
                assert(s.take(k)[s.len() - 1] == '(');
            }
        } else {
            assert(s.drop_last().take(k) =~= s.take(k));
            if k == s.len() - 1 {
                assert(s.drop_last() =~= s.take(k));
            } else {
                assert(s.drop_last()[k] == s[k]);
                assert(s.drop_last().contains('('));
                lemma_before_paren(s.drop_last(), k);
            }
        }
    }
}

fn before_paren_exec(s: &[char]) -> (r: Vec<char>)
    ensures
        r@ == before_paren(s@),
{
    let mut k: usize = 0;
    while k < s.len() && s[k] != '('
        invariant
            k <= s@.len(),
            !s@.take(k as int).contains('('),
        decreases s@.len() - k,
    {
        proof {
            assert forall|j: int| 0 <= j < k + 1 implies #[trigger] s@.take(k + 1)[j] != '(' by {
                if j < k {
                    assert(s@.take(k + 1)[j] == s@.take(k as int)[j]);
                }
            }
        }
        k = k + 1;
    }
    proof {
        lemma_before_paren(s@, k as int);
    }
    slice_chars(s, 0, k)
}

fn metric_exec(record: &[String], column: usize, label: &str) -> (r: Result<u32, AnalyzerError>)
    ensures
        match metric(texts(record@), column, label@) {
            Ok(v) => r == Ok::<u32, AnalyzerError>(v),
            Err(m) => r matches Err(AnalyzerError::Failed(e)) && e@ == m,
        },
{
    if column >= record.len() {
        return Err(lacking(label));
    }
    match parse_u32_chars(&chars_of(record[column].as_str())) {
        Ok(v) => Ok(v),
        Err(k) => {
            let mut m = chars_of("invalid Lizard ");
            append_chars(&mut m, &chars_of(label));
            append_chars(&mut m, &chars_of(": "));
            append_chars(&mut m, &chars_of(k.message()));
            Err(AnalyzerError::Failed(string_of(&m)))
        },
    }
}

impl CsvColumns {
    /// The function one record describes, with its path made relative to the
    /// directory Lizard scanned; `None` for a record without a file or a
    /// function name.
    pub fn parse(&self, record: &[String], temporary: &str) -> (r: Result<Option<LizardRow>, AnalyzerError>)
        ensures
            match row_spec(*self, texts(record@), temporary@) {
                Ok(Some(v)) => r matches Ok(Some(row)) && row@ == v,
                Ok(None) => r matches Ok(None),
                Err(m) => r matches Err(AnalyzerError::Failed(e)) && e@ == m,
            },
    {
        let ghost rec = texts(record@);
        if self.file >= record.len() {
            return Ok(None);
        }
        let file = record[self.file].as_str();
        let relative = match strip_path_prefix(file, temporary) {
            Some(p) => chars_of(p.as_str()),
            None => chars_of(file),
        };
        let path = strip_leading_slashes(&relative);
        let raw_name = if self.function < record.len() {
            chars_of(record[self.function].as_str())
        } else {
            Vec::new()
        };
        let name = trimmed(&raw_name);
        if name.len() == 0 {
            return Ok(None);
        }
        let long = if self.long_name < record.len() {
            chars_of(record[self.long_name].as_str())
        } else {
            slice_chars(&name, 0, name.len())
        };
        assert(self.long_name >= record@.len() ==> long@ =~= name@);
        let qualified_name = trimmed(&before_paren_exec(&long));
        let nloc = match metric_exec(record, self.nloc, "NLOC") {
            Ok(v) => v,
            Err(e) => return Err(e),
        };
        let complexity = match metric_exec(record, self.complexity, "CCN") {
            Ok(v) => v,
            Err(e) => return Err(e),
        };
        let parameters = match metric_exec(record, self.parameters, "PARAM") {
            Ok(v) => v,
            Err(e) => return Err(e),
        };
        let start = match metric_exec(record, self.start, "start") {
            Ok(v) => v,
            Err(e) => return Err(e),
        };
        let end = match metric_exec(record, self.end, "end") {
            Ok(v) => v,
            Err(e) => return Err(e),
        };
        Ok(
            Some(
                LizardRow {
                    path: string_of(&path),
                    name: string_of(&name),
                    qualified_name: string_of(&qualified_name),
                    nloc,
                    complexity,
                    parameters,
                    start,
                    end,
                },
            ),
        )
    }
}

/// The functions of the records `recs`, or the first record's error.
pub open spec fn rows_spec(c: CsvColumns, recs: Seq<Seq<Seq<char>>>, temporary: Seq<char>) -> Result<Seq<RowView>, Seq<char>>
    decreases recs.len(),
{
    if recs.len() == 0 {
        Ok(Seq::empty())
    } else {
        match rows_spec(c, recs.drop_last(), temporary) {
            Err(m) => Err(m),
            Ok(v) => match row_spec(c, recs.last(), temporary) {
                Err(m) => Err(m),
                Ok(None) => Ok(v),
                Ok(Some(x)) => Ok(v.push(x)),
            },
        }
    }
}

proof fn lemma_rows_error_persists(c: CsvColumns, recs: Seq<Seq<Seq<char>>>, temporary: Seq<char>, k: int)
    requires
        0 <= k <= recs.len(),
        rows_spec(c, recs.take(k), temporary) is Err,
    ensures
        rows_spec(c, recs, temporary) == rows_spec(c, recs.take(k), temporary),
    decreases recs.len() - k,
{
    if k < recs.len() {
        assert(recs.take(k + 1).drop_last() =~= recs.take(k));
        lemma_rows_error_persists(c, recs, temporary, k + 1);
    } else {
        assert(recs.take(k) =~= recs);
    }
}

/// The functions of a CSV report: read by its header row when the first field
/// is `NLOC` (ignoring ASCII case), else in Lizard's default column order.
pub open spec fn csv_rows(t: Seq<Seq<Seq<char>>>, temporary: Seq<char>) -> Result<Seq<RowView>, Seq<char>> {
    if t.len() == 0 {
        Err("Lizard returned empty CSV output"@)
    } else if t[0].len() > 0 && same_ignoring_ascii_case(t[0][0], "NLOC"@) {
        match columns_from_headers(t[0]) {
            Err(m) => Err(m),
            Ok(c) => rows_spec(c, t.drop_first(), temporary),
        }
    } else {
        rows_spec(
            CsvColumns { nloc: 0, complexity: 1, parameters: 3, file: 6, function: 7, long_name: 8, start: 9, end: 10 },
            t,
            temporary,
        )
    }
}

/// The functions in Lizard's CSV output, or why it cannot be read.
pub open spec fn lizard_output(output: Seq<u8>, temporary: Seq<char>) -> Result<Seq<RowView>, Seq<char>> {
    if !valid_utf8(output) {
        Err("Lizard returned non-UTF-8 CSV"@)
    } else {
        match csv_spec(decode_utf8(output)) {
            None => Err("Lizard returned malformed quoted CSV"@),
            Some(t) => csv_rows(t, temporary),
        }
    }
}

fn parse_records(columns: &CsvColumns, records: &[Vec<String>], temporary: &str) -> (r: Result<Vec<LizardRow>, AnalyzerError>)
    ensures
        match rows_spec(*columns, records@.map_values(|x: Vec<String>| texts(x@)), temporary@) {
            Ok(v) => r matches Ok(rows) && rows@.map_values(|x: LizardRow| x@) == v,
            Err(m) => r matches Err(AnalyzerError::Failed(e)) && e@ == m,
        },
{
    let ghost recs = records@.map_values(|x: Vec<String>| texts(x@));
    let mut rows: Vec<LizardRow> = Vec::new();
    let mut i: usize = 0;
    assert(recs.take(0) =~= Seq::<Seq<Seq<char>>>::empty());
    assert(rows@.map_values(|x: LizardRow| x@) =~= Seq::<RowView>::empty());
    while i < records.len()
        invariant
            i <= records@.len(),
            recs == records@.map_values(|x: Vec<String>| texts(x@)),
            rows_spec(*columns, recs.take(i as int), temporary@) == Ok::<Seq<RowView>, Seq<char>>(rows@.map_values(|x: LizardRow| x@)),
        decreases records@.len() - i,
    {
        proof {
            assert(recs.take(i + 1).drop_last() =~= recs.take(i as int));
            assert(recs.take(i + 1).last() == texts(records@[i as int]@));
        }
        match columns.parse(records[i].as_slice(), temporary) {
            Err(e) => {
                proof {
                    lemma_rows_error_persists(*columns, recs, temporary@, i + 1);
                }
                return Err(e);
            },
            Ok(None) => {},
            Ok(Some(row)) => {
                let ghost before = rows@;
                rows.push(row);
                assert(rows@.map_values(|x: LizardRow| x@) =~= before.map_values(|x: LizardRow| x@).push(row@));
            },
        }
        i = i + 1;
    }
    assert(recs.take(i as int) =~= recs);
    Ok(rows)
}

/// The functions in Lizard's CSV output, with paths relative to the
/// directory `temporary` that Lizard scanned.
pub fn lizard_rows(output: &[u8], temporary: &str) -> (r: Result<Vec<LizardRow>, AnalyzerError>)
    ensures
        match lizard_output(output@, temporary@) {
            Ok(v) => r matches Ok(rows) && rows@.map_values(|x: LizardRow| x@) == v,
            Err(m) => r matches Err(AnalyzerError::Failed(e)) && e@ == m,
        },
{
    let records = match csv_records(output) {
        Ok(r) => r,
        Err(e) => return Err(e),
    };
    let ghost t = records_view(records@);
    if records.len() == 0 {
        return Err(failed("Lizard returned empty CSV output"));
    }
    let first = &records[0];
    assert(t[0] == texts(first@));
    let header = first.len() > 0 && eq_ignore_ascii_case(first[0].as_str(), "NLOC");
    if header {
        let columns = match CsvColumns::from_headers(first.as_slice()) {
            Ok(c) => c,
            Err(e) => return Err(e),
        };
        let rest = slice_records(&records, 1);
        assert(rest@.map_values(|x: Vec<String>| texts(x@)) =~= t.drop_first());
        parse_records(&columns, rest.as_slice(), temporary)
    } else {
        let columns = CsvColumns::lizard_default();
        assert(records@.map_values(|x: Vec<String>| texts(x@)) =~= t);
        parse_records(&columns, records.as_slice(), temporary)
    }
}

fn slice_records(records: &Vec<Vec<String>>, from: usize) -> (r: Vec<Vec<String>>)
    requires
        from <= records@.len(),
    ensures
        r@.map_values(|x: Vec<String>| texts(x@)) == records@.skip(from as int).map_values(|x: Vec<String>| texts(x@)),
{
    let mut out: Vec<Vec<String>> = Vec::new();
    let mut i = from;
    while i < records.len()
        invariant
            from <= i <= records@.len(),
            out@.map_values(|x: Vec<String>| texts(x@)) == records@.subrange(from as int, i as int).map_values(|x: Vec<String>| texts(x@)),
        decreases records@.len() - i,
    {
        let mut copy: Vec<String> = Vec::new();
        let mut k: usize = 0;
        while k < records[i].len()
            invariant
                i < records@.len(),
                k <= records@[i as int]@.len(),
                texts(copy@) == texts(records@[i as int]@.take(k as int)),
            decreases records@[i as int]@.len() - k,
        {
            let ghost before = copy@;
            copy.push(records[i][k].clone());
            assert(texts(copy@) =~= texts(before).push(records@[i as int]@[k as int]@));
            assert(texts(records@[i as int]@.take(k + 1)) =~= texts(records@[i as int]@.take(k as int)).push(records@[i as int]@[k as int]@));
            k = k + 1;
        }
        assert(records@[i as int]@.take(k as int) =~= records@[i as int]@);
        let ghost before = out@;
        out.push(copy);
        assert(out@.map_values(|x: Vec<String>| texts(x@)) =~= before.map_values(|x: Vec<String>| texts(x@)).push(texts(records@[i as int]@)));
        assert(records@.subrange(from as int, i + 1).map_values(|x: Vec<String>| texts(x@)) =~= records@.subrange(from as int, i as int).map_values(|x: Vec<String>| texts(x@)).push(texts(records@[i as int]@)));
        i = i + 1;
    }
    assert(records@.subrange(from as int, i as int) =~= records@.skip(from as int));
    out
}

/// The revision a code snapshot stands for: its world names the repository
/// after `code.repository:`, its version is the commit.
pub open spec fn revision_spec(snapshot: SnapshotId) -> Option<(Seq<char>, Seq<char>)> {
    let w = snapshot.world@;
    let p = "code.repository:"@;
    if p.len() <= w.len() && w.take(p.len() as int) == p {
        Some((w.skip(p.len() as int), snapshot.version@))
    } else {
        None
    }
}

/// The revision a code snapshot stands for.
pub fn revision(input: &AnalysisInput) -> (r: Result<RevisionId, AnalyzerError>)
    ensures
        match revision_spec(input.snapshot) {
            Some((repository, commit)) => r matches Ok(rev) && rev.repository@ == repository && rev.commit@ == commit,
            None => r matches Err(AnalyzerError::Failed(m)) && m@ == "snapshot is not a code repository"@,
        },
{
    let world = chars_of(input.snapshot.world.as_str());
    let prefix = chars_of("code.repository:");
    if !starts_with(&world, &prefix) {
        return Err(failed("snapshot is not a code repository"));
    }
    let repository = slice_chars(&world, prefix.len(), world.len());
    assert(repository@ =~= world@.skip(prefix@.len() as int));
    Ok(RevisionId::new(string_of(&repository).as_str(), input.snapshot.version.as_str()))
}

/// The language an artifact list records for `path`: that of the last
/// artifact with the path, when it has a `language` text attribute.
pub open spec fn artifact_language(arts: Seq<Artifact>, path: Seq<char>) -> Option<Seq<char>>
    decreases arts.len(),
{
    if arts.len() == 0 {
        None
    } else if arts.last().path@ == path {
        text_value(arts.last().attributes.get_spec("language"@))
    } else {
        artifact_language(arts.drop_last(), path)
    }
}

fn artifact_language_exec(artifacts: &[Artifact], path: &String) -> (r: Option<String>)
    requires
        forall|i: int| 0 <= i < artifacts@.len() ==> (#[trigger] artifacts@[i]).attributes.wf(),
    ensures
        match artifact_language(artifacts@, path@) {
            Some(l) => r matches Some(s) && s@ == l,
            None => r is None,
        },
{
    let mut i = artifacts.len();
    assert(artifacts@.take(i as int) =~= artifacts@);
    while i > 0
        invariant
            i <= artifacts@.len(),
            forall|k: int| 0 <= k < artifacts@.len() ==> (#[trigger] artifacts@[k]).attributes.wf(),
            artifact_language(artifacts@, path@) == artifact_language(artifacts@.take(i as int), path@),
        decreases i,
    {
        assert(artifacts@.take(i as int).drop_last() =~= artifacts@.take(i - 1));
        let a = &artifacts[i - 1];
        if a.path == *path {
            return match a.attributes.get("language") {
                Some(v) => match v.as_text() {
                    Some(t) => Some(t.to_owned()),
                    None => None,
                },
                None => None,
            };
        }
        i = i - 1;
    }
    None
}

/// The kind Lizard evidence gives a function: unknown for Rust, whose
/// Tree-sitter analysis decides it; a method when the qualified name is
/// qualified by `::` or `.`; else a function.
pub open spec fn lizard_kind(language: Seq<char>, qualified_name: Seq<char>) -> NodeKind {
    if language == "rust"@ {
        NodeKind::Unknown
    } else if contains_seq(qualified_name, "::"@) || contains_seq(qualified_name, "."@) {
        NodeKind::Method
    } else {
        NodeKind::Function
    }
}

/// The kind Lizard evidence gives a function outside Rust: a method when its
/// qualified name holds `::` or a `.` anywhere, a function otherwise; Rust
/// functions are left to the syntax analysis.
pub proof fn law_lizard_kinds(language: Seq<char>, q: Seq<char>)
    ensures
        language == "rust"@ ==> lizard_kind(language, q) == NodeKind::Unknown,
        language != "rust"@ && (exists|i: int| 0 <= i && i + 1 < q.len() && #[trigger] q[i] == ':' && q[i + 1] == ':')
            ==> lizard_kind(language, q) == NodeKind::Method,
        language != "rust"@ && (exists|i: int| 0 <= i < q.len() && #[trigger] q[i] == '.') ==> lizard_kind(language, q)
            == NodeKind::Method,
        language != "rust"@ && !(exists|i: int| 0 <= i && i + 1 < q.len() && #[trigger] q[i] == ':' && q[i + 1] == ':')
            && !(exists|i: int| 0 <= i < q.len() && #[trigger] q[i] == '.') ==> lizard_kind(language, q)
            == NodeKind::Function,
{
    reveal_strlit("::");
    reveal_strlit(".");
    if exists|i: int| 0 <= i && i + 1 < q.len() && #[trigger] q[i] == ':' && q[i + 1] == ':' {
        let i = choose|i: int| 0 <= i && i + 1 < q.len() && #[trigger] q[i] == ':' && q[i + 1] == ':';
        assert(q.subrange(i, i + 2) =~= "::"@);
        assert(occurs_at(q, "::"@, i));
    }
    if exists|i: int| 0 <= i < q.len() && #[trigger] q[i] == '.' {
        let i = choose|i: int| 0 <= i < q.len() && #[trigger] q[i] == '.';
        assert(q.subrange(i, i + 1) =~= "."@);
        assert(occurs_at(q, "."@, i));
    }
    if contains_seq(q, "::"@) {
        let i = choose|i: int| occurs_at(q, "::"@, i);
        assert(q.subrange(i, i + 2)[0] == q[i] && q.subrange(i, i + 2)[1] == q[i + 1]);
        assert(q[i] == ':' && q[i + 1] == ':');
    }
    if contains_seq(q, "."@) {
        let i = choose|i: int| occurs_at(q, "."@, i);
        assert(q.subrange(i, i + 1)[0] == q[i]);
        assert(q[i] == '.');
    }
}

/// One function Lizard measured, with what the library makes of it.
#[derive(Debug, Clone, PartialEq, Eq)]
pub struct LizardSymbol {
    pub row: LizardRow,
    pub language: String,
    pub kind: NodeKind,
    pub qualified_name: String,
}

/// The symbol evidence of one Lizard run over a snapshot.
#[derive(Debug, Clone, PartialEq, Eq)]
pub struct LizardEvidence {
    pub revision: RevisionId,
    pub symbols: Vec<LizardSymbol>,
}

/// What the library makes of one function: its language (`unknown` when the
/// artifacts do not say), kind and qualified name (the bare name for Rust).
pub open spec fn symbol_of(s: LizardSymbol, row: RowView, arts: Seq<Artifact>) -> bool {
    let language = match artifact_language(arts, row.path) {
        Some(l) => l,
        None => "unknown"@,
    };
    &&& s.row@ == row
    &&& s.language@ == language
    &&& s.kind == lizard_kind(language, row.qualified_name)
    &&& s.qualified_name@ == (if language == "rust"@ {
        row.name
    } else {
        row.qualified_name
    })
}

/// Reads the CSV output of a Lizard run over the artifacts of a snapshot,
/// materialized under the directory `temporary`, into symbol evidence.
pub fn lizard_evidence(input: &AnalysisInput, temporary: &str, artifacts: &[Artifact], output: &[u8]) -> (r: Result<LizardEvidence, AnalyzerError>)
    requires
        forall|i: int| 0 <= i < artifacts@.len() ==> (#[trigger] artifacts@[i]).attributes.wf(),
    ensures
        match revision_spec(input.snapshot) {
            None => r matches Err(AnalyzerError::Failed(m)) && m@ == "snapshot is not a code repository"@,
            Some((repository, commit)) => match lizard_output(output@, temporary@) {
                Err(m) => r matches Err(AnalyzerError::Failed(e)) && e@ == m,
                Ok(rows) => r matches Ok(ev) && ev.revision.repository@ == repository && ev.revision.commit@ == commit
                    && ev.symbols@.len() == rows.len()
                    && forall|i: int| 0 <= i < rows.len() ==> symbol_of(#[trigger] ev.symbols@[i], rows[i], artifacts@),
            },
        },
{
    let revision = match revision(input) {
        Ok(r) => r,
        Err(e) => return Err(e),
    };
    let rows = match lizard_rows(output, temporary) {
        Ok(rows) => rows,
        Err(e) => return Err(e),
    };
    let ghost rv = rows@.map_values(|x: LizardRow| x@);
    let mut symbols: Vec<LizardSymbol> = Vec::new();
    let mut i: usize = 0;
    while i < rows.len()
        invariant
            i <= rows@.len(),
            rv == rows@.map_values(|x: LizardRow| x@),
            symbols@.len() == i,
            forall|k: int| 0 <= k < i ==> symbol_of(#[trigger] symbols@[k], rv[k], artifacts@),
            forall|k: int| 0 <= k < artifacts@.len() ==> (#[trigger] artifacts@[k]).attributes.wf(),
        decreases rows@.len() - i,
    {
        let row = &rows[i];
        assert(rv[i as int] == row@);
        let language = match artifact_language_exec(artifacts, &row.path) {
            Some(l) => l,
            None => "unknown".to_owned(),
        };
        let rust = language == "rust".to_owned();
        let q = chars_of(row.qualified_name.as_str());
        let kind = if rust {
            NodeKind::Unknown
        } else if contains_chars(&q, &chars_of("::")) || contains_chars(&q, &chars_of(".")) {
            NodeKind::Method
        } else {
            NodeKind::Function
        };
        let qualified_name = if rust {
            row.name.clone()
        } else {
            row.qualified_name.clone()
        };
        let copy = LizardRow {
            path: row.path.clone(),
            name: row.name.clone(),
            qualified_name: row.qualified_name.clone(),
            nloc: row.nloc,
            complexity: row.complexity,
            parameters: row.parameters,
            start: row.start,
            end: row.end,
        };
        symbols.push(LizardSymbol { row: copy, language, kind, qualified_name });
        i = i + 1;
    }
    Ok(LizardEvidence { revision, symbols })
}

/// The bits of the double-precision `1.0`, the weight of a containment.
pub const UNIT_WEIGHT: u64 = 0x3ff0_0000_0000_0000;

/// The attributes of a function Lizard measured: its file, language, first
/// line and last line.
pub open spec fn lizard_attributes(path: Seq<char>, language: Seq<char>, start: u32, end: u32) -> Map<
    Seq<char>,
    AttributeView,
> {
    Map::empty()
        .insert("file_path"@, AttributeView::Text(path))
        .insert("language"@, AttributeView::Text(language))
        .insert("line_start"@, AttributeView::Unsigned(start as u64))
        .insert("lizard.line_end"@, AttributeView::Unsigned(end as u64))
}

/// A measurement named `name` that counts `n`.
pub open spec fn counted(m: Measurement, name: Seq<char>, n: u32) -> bool {
    &&& m.name@ == name
    &&& m.value == exact_double(n as nat)
    &&& m.unit matches Some(u) && u@ == "count"@
}

/// The observation of a function in the snapshot of `repository` at
/// `commit`, with the language, kind and label the library gives it.
pub open spec fn lizard_entity(
    o: EntityObservation,
    row: RowView,
    language: Seq<char>,
    kind: NodeKind,
    label: Seq<char>,
    repository: Seq<char>,
    commit: Seq<char>,
) -> bool {
    &&& o.wf()
    &&& o.snapshot.world@ == repository_world(repository)
    &&& o.snapshot.version@ == commit
    &&& o.entity.id@ == symbol_identity(row.path, row.name, row.start as nat)
    &&& o.entity.model@ == CODE_MODEL_ID@
    &&& o.entity.kind@ == node_kind_name(kind)
    &&& o.entity.label@ == label
    &&& o.attributes@ == lizard_attributes(row.path, language, row.start, row.end)
    &&& o.measurements@.len() == 3
    &&& counted(o.measurements@[0], "code.lines_of_code"@, row.nloc)
    &&& counted(o.measurements@[1], "code.cyclomatic_complexity"@, row.complexity)
    &&& counted(o.measurements@[2], "code.parameters"@, row.parameters)
    &&& forall|i: int| 0 <= i < 3 ==> lizard_vouched(#[trigger] o.measurements@[i].evidence)
    &&& o.scores@.len() == 0
}

/// The relation saying that the file `path` contains the symbol `symbol`.
pub open spec fn file_contains(o: RelationObservation, path: Seq<char>, symbol: Seq<char>, repository: Seq<char>, commit: Seq<char>) -> bool {
    &&& o.wf()
    &&& o.snapshot.world@ == repository_world(repository)
    &&& o.snapshot.version@ == commit
    &&& o.relation.id@ == "file:"@ + path + ":contains:"@ + symbol
    &&& o.relation.model@ == CODE_MODEL_ID@
    &&& o.relation.kind@ == "contains"@
    &&& o.relation.from@ == "file:"@ + path
    &&& o.relation.to@ == symbol
    &&& o.weight == UNIT_WEIGHT
    &&& o.attributes@ == Map::<Seq<char>, AttributeView>::empty()
}

/// The language the library gives the function of `row`: that of its
/// artifact, `unknown` when the artifacts do not say.
pub open spec fn row_language(arts: Seq<Artifact>, row: RowView) -> Seq<char> {
    match artifact_language(arts, row.path) {
        Some(l) => l,
        None => "unknown"@,
    }
}

/// The label of a function: its bare name for Rust, else its qualified name.
pub open spec fn row_label(arts: Seq<Artifact>, row: RowView) -> Seq<char> {
    if row_language(arts, row) == "rust"@ {
        row.name
    } else {
        row.qualified_name
    }
}

/// The relation saying that the file `path` contains the symbol `symbol`,
/// with the weight one.
pub fn file_contains_symbol(revision: &RevisionId, path: &str, symbol: &str) -> (o: RelationObservation)
    ensures
        file_contains(o, path@, symbol@, revision.repository@, revision.commit@),
{
    let mut file = chars_of("file:");
    append_chars(&mut file, &chars_of(path));
    let mut relation_id = file.clone();
    append_chars(&mut relation_id, &chars_of(":contains:"));
    append_chars(&mut relation_id, &chars_of(symbol));
    RelationObservation {
        snapshot: revision.snapshot(),
        relation: Relation {
            id: RelationId::new(string_of(&relation_id).as_str()),
            model: ModelId::new(CODE_MODEL_ID),
            kind: "contains".to_owned(),
            from: EntityId::new(string_of(&file).as_str()),
            to: EntityId::new(symbol),
        },
        weight: UNIT_WEIGHT,
        attributes: Attributes::new(),
    }
}

/// The relation of kind `kind` from `from` to `to`, with the weight one; its
/// identifier joins the three with `:`.
pub open spec fn relation_between(
    o: RelationObservation,
    kind: Seq<char>,
    from: Seq<char>,
    to: Seq<char>,
    repository: Seq<char>,
    commit: Seq<char>,
) -> bool {
    &&& o.wf()
    &&& o.snapshot.world@ == repository_world(repository)
    &&& o.snapshot.version@ == commit
    &&& o.relation.id@ == from + ":"@ + kind + ":"@ + to
    &&& o.relation.model@ == CODE_MODEL_ID@
    &&& o.relation.kind@ == kind
    &&& o.relation.from@ == from
    &&& o.relation.to@ == to
    &&& o.weight == UNIT_WEIGHT
    &&& o.attributes@ == Map::<Seq<char>, AttributeView>::empty()
}

/// The dependency of kind `kind` of the symbol `from` on the symbol `to`.
pub fn dependency_relation(revision: &RevisionId, kind: &str, from: &str, to: &str) -> (o: RelationObservation)
    ensures
        relation_between(o, kind@, from@, to@, revision.repository@, revision.commit@),
{
    let mut id = chars_of(from);
    append_chars(&mut id, &chars_of(":"));
    append_chars(&mut id, &chars_of(kind));
    append_chars(&mut id, &chars_of(":"));
    append_chars(&mut id, &chars_of(to));
    RelationObservation {
        snapshot: revision.snapshot(),
        relation: Relation {
            id: RelationId::new(string_of(&id).as_str()),
            model: ModelId::new(CODE_MODEL_ID),
            kind: kind.to_owned(),
            from: EntityId::new(from),
            to: EntityId::new(to),
        },
        weight: UNIT_WEIGHT,
        attributes: Attributes::new(),
    }
}

/// The measurement `name` counting `n`, without evidence.
pub(crate) fn count_measurement(name: &str, n: u32) -> (m: Measurement)
    ensures
        counted(m, name@, n),
        m.evidence is None,
{
    Measurement { name: name.to_owned(), value: count_bits(n as u64), unit: Some("count".to_owned()), evidence: None }
}

/// The bits of `0.8`, the confidence of what Lizard measures.
pub const LIZARD_CONFIDENCE: u64 = 0x3fe9_9999_9999_999a;

/// The evidence Lizard gives its measurements: itself, with confidence 0.8.
pub open spec fn lizard_vouched(e: Option<EvidenceProvenance>) -> bool {
    e matches Some(x) && x.observer@ == "lizard"@ && x.confidence == LIZARD_CONFIDENCE
}

/// The measurement `name` counting `n`, as Lizard's evidence.
fn lizard_measurement(name: &str, n: u32) -> (m: Measurement)
    ensures
        counted(m, name@, n),
        lizard_vouched(m.evidence),
{
    Measurement {
        name: name.to_owned(),
        value: count_bits(n as u64),
        unit: Some("count".to_owned()),
        evidence: Some(EvidenceProvenance { observer: "lizard".to_owned(), confidence: LIZARD_CONFIDENCE }),
    }
}

/// The observations of one function Lizard measured: the function and its
/// containment in its file.
fn symbol_observations(revision: &RevisionId, symbol: &LizardSymbol) -> (r: (EntityObservation, RelationObservation))
    ensures
        lizard_entity(
            r.0,
            symbol.row@,
            symbol.language@,
            symbol.kind,
            symbol.qualified_name@,
            revision.repository@,
            revision.commit@,
        ),
        file_contains(
            r.1,
            symbol.row.path@,
            symbol_identity(symbol.row.path@, symbol.row.name@, symbol.row.start as nat),
            revision.repository@,
            revision.commit@,
        ),
{
    let row = &symbol.row;
    let id = symbol_id(row.path.as_str(), row.name.as_str(), row.start);
    let mut entries: Vec<(String, AttributeValue)> = Vec::new();
    entries.push(("file_path".to_owned(), AttributeValue::Text(row.path.clone())));
    entries.push(("language".to_owned(), AttributeValue::Text(symbol.language.clone())));
    entries.push(("line_start".to_owned(), AttributeValue::Unsigned(row.start as u64)));
    entries.push(("lizard.line_end".to_owned(), AttributeValue::Unsigned(row.end as u64)));
    proof {
        reveal_strlit("file_path");
        reveal_strlit("language");
        reveal_strlit("line_start");
        reveal_strlit("lizard.line_end");
        reveal_with_fuel(seq_map, 5);
        let pairs = attribute_pairs(entries@);
        assert(pairs[0].0 == "file_path"@ && pairs[1].0 == "language"@ && pairs[2].0 == "line_start"@
            && pairs[3].0 == "lizard.line_end"@);
        assert forall|i: int, j: int| 0 <= i < pairs.len() && 0 <= j < pairs.len() && i != j implies pairs[i].0 != pairs[j].0 by {
            if pairs[i].0 == pairs[j].0 {
                assert(pairs[i].0.len() == pairs[j].0.len());
            }
        }
        assert(seq_map(pairs) =~= lizard_attributes(row.path@, symbol.language@, row.start, row.end));
    }
    let mut measurements: Vec<Measurement> = Vec::new();
    measurements.push(lizard_measurement("code.lines_of_code", row.nloc));
    measurements.push(lizard_measurement("code.cyclomatic_complexity", row.complexity));
    measurements.push(lizard_measurement("code.parameters", row.parameters));
    let entity = EntityObservation {
        snapshot: revision.snapshot(),
        entity: Entity {
            id: EntityId::new(id.as_str()),
            model: ModelId::new(CODE_MODEL_ID),
            kind: symbol.kind.as_str().to_owned(),
            label: symbol.qualified_name.clone(),
        },
        attributes: Attributes { entries },
        measurements,
        scores: Vec::new(),
    };
    let relation = file_contains_symbol(revision, row.path.as_str(), id.as_str());
    (entity, relation)
}

/// The observations of a Lizard run whose CSV output is `output`: one entity
/// per measured function, with its size, complexity and parameters, and the
/// containment of each in its file. The batch covers the snapshot partly.
pub fn parse_csv(input: &AnalysisInput, temporary: &str, artifacts: &[Artifact], output: &[u8]) -> (r: Result<CodeBatch, AnalyzerError>)
    requires
        forall|i: int| 0 <= i < artifacts@.len() ==> (#[trigger] artifacts@[i]).attributes.wf(),
    ensures
        match revision_spec(input.snapshot) {
            None => r matches Err(AnalyzerError::Failed(m)) && m@ == "snapshot is not a code repository"@,
            Some((repository, commit)) => match lizard_output(output@, temporary@) {
                Err(m) => r matches Err(AnalyzerError::Failed(e)) && e@ == m,
                Ok(rows) => r matches Ok(b) && lizard_batch(b@, rows, artifacts@, repository, commit),
            },
        },
{
    let evidence = match lizard_evidence(input, temporary, artifacts, output) {
        Ok(e) => e,
        Err(e) => return Err(e),
    };
    let revision = evidence.revision;
    let mut batch: CodeBatch = ObservationBatch::empty(
        RevisionId::new(revision.repository.as_str(), revision.commit.as_str()),
    );
    batch.coverage = AnalysisCoverage::Partial;
    batch.provenance.push(AnalyzerProvenance {
        analyzer: "lizard".to_owned(),
        version: PACKAGE_VERSION.to_owned(),
        configuration_digest: Some("lizard-csv-v1".to_owned()),
        source: None,
    });
    let mut i: usize = 0;
    while i < evidence.symbols.len()
        invariant
            i <= evidence.symbols@.len(),
            revision_view(batch.revision) == revision_view(revision),
            batch.coverage == AnalysisCoverage::Partial,
            lizard_provenance(batch.provenance@),
            batch.diagnostics@.len() == 0,
            batch.symbols@.len() == i,
            batch.dependencies@.len() == i,
            forall|k: int| 0 <= k < i ==> lizard_observed(
                #[trigger] batch.symbols@[k],
                batch.dependencies@[k],
                evidence.symbols@[k],
                revision.repository@,
                revision.commit@,
            ),
        decreases evidence.symbols@.len() - i,
    {
        let (entity, relation) = symbol_observations(&revision, &evidence.symbols[i]);
        batch.symbols.push(entity);
        batch.dependencies.push(relation);
        i = i + 1;
    }
    Ok(batch)
}

/// The provenance of a Lizard batch: Lizard, this library's version and the
/// CSV reading it used.
pub open spec fn lizard_provenance(p: Seq<AnalyzerProvenance>) -> bool {
    &&& p.len() == 1
    &&& p[0].analyzer@ == "lizard"@
    &&& p[0].version@ == PACKAGE_VERSION@
    &&& p[0].configuration_digest matches Some(d) && d@ == "lizard-csv-v1"@
}

/// The two observations of one measured function.
pub open spec fn lizard_observed(e: EntityObservation, d: RelationObservation, s: LizardSymbol, repository: Seq<char>, commit: Seq<char>) -> bool {
    &&& lizard_entity(e, s.row@, s.language@, s.kind, s.qualified_name@, repository, commit)
    &&& file_contains(d, s.row.path@, symbol_identity(s.row.path@, s.row.name@, s.row.start as nat), repository, commit)
}

/// The batch of a Lizard run over `arts` in the snapshot of `repository` at
/// `commit` whose output has the rows `rows`.
pub open spec fn lizard_batch(
    b: BatchView<EntityObservation, RelationObservation>,
    rows: Seq<RowView>,
    arts: Seq<Artifact>,
    repository: Seq<char>,
    commit: Seq<char>,
) -> bool {
    &&& b.revision == (repository, commit)
    &&& b.coverage == AnalysisCoverage::Partial
    &&& lizard_provenance(b.provenance)
    &&& b.diagnostics.len() == 0
    &&& b.symbols.len() == rows.len()
    &&& b.dependencies.len() == rows.len()
    &&& forall|i: int| #![trigger b.symbols[i]] 0 <= i < rows.len() ==> {
        let language = row_language(arts, rows[i]);
        &&& lizard_entity(
            b.symbols[i],
            rows[i],
            language,
            lizard_kind(language, rows[i].qualified_name),
            row_label(arts, rows[i]),
            repository,
            commit,
        )
        &&& file_contains(
            b.dependencies[i],
            rows[i].path,
            symbol_identity(rows[i].path, rows[i].name, rows[i].start as nat),
            repository,
            commit,
        )
    }
}

/// A component of a path (`std::path::Component`), a name with its text.
#[derive(Debug, Clone, PartialEq, Eq)]
pub enum PathComponent {
    /// A Windows prefix, with its text.
    Prefix(String),
    /// The root directory, with its text.
    RootDir(String),
    CurDir,
    ParentDir,
    Normal(String),
}

/// A path component as a plain value.
pub enum ComponentView {
    Prefix(Seq<char>),
    RootDir(Seq<char>),
    CurDir,
    ParentDir,
    Normal(Seq<char>),
}

pub open spec fn component_view(c: PathComponent) -> ComponentView {
    match c {
        PathComponent::Prefix(t) => ComponentView::Prefix(t@),
        PathComponent::RootDir(t) => ComponentView::RootDir(t@),
        PathComponent::CurDir => ComponentView::CurDir,
        PathComponent::ParentDir => ComponentView::ParentDir,
        PathComponent::Normal(n) => ComponentView::Normal(n@),
    }
}

/// The components of the path `path`, in order (`Path::components`).
pub uninterp spec fn path_components(path: Seq<char>) -> Seq<ComponentView>;

/// `Path::components`, each component told apart by its variant, a name, a
/// prefix and the root read back as text.
#[verifier::external_body]
pub(crate) fn components_of(path: &str) -> (r: Vec<PathComponent>)
    ensures
        r@.map_values(|c: PathComponent| component_view(c)) == path_components(path@),
{
    let mut r = Vec::new();
    for c in std::path::Path::new(path).components() {
        r.push(match c {
            std::path::Component::Prefix(p) => PathComponent::Prefix(p.as_os_str().to_string_lossy().into_owned()),
            std::path::Component::RootDir => PathComponent::RootDir(c.as_os_str().to_string_lossy().into_owned()),
            std::path::Component::CurDir => PathComponent::CurDir,
            std::path::Component::ParentDir => PathComponent::ParentDir,
            std::path::Component::Normal(n) => PathComponent::Normal(n.to_string_lossy().into_owned()),
        });
    }
    r
}

/// Whether every component of a path is a plain name: no prefix, no root,
/// no `.` and no `..`.
pub open spec fn plain_components(path: Seq<char>) -> bool {
    forall|i: int| 0 <= i < path_components(path).len() ==> (#[trigger] path_components(path)[i]) is Normal
}

/// Checks that an artifact path stays inside the directory it is written to.
pub fn safe_relative_path(path: &str) -> (r: Result<&str, AnalyzerError>)
    ensures
        plain_components(path@) ==> (r matches Ok(p) && p@ == path@),
        !plain_components(path@) ==> (r matches Err(AnalyzerError::Failed(m)) && m@ == "unsafe artifact path: "@ + path@),
{
    let components = components_of(path);
    let ghost cs = path_components(path@);
    let mut plain = true;
    let mut i: usize = 0;
    while i < components.len()
        invariant
            i <= components@.len(),
            cs == path_components(path@),
            cs == components@.map_values(|c: PathComponent| component_view(c)),
            plain == forall|j: int| 0 <= j < i ==> (#[trigger] cs[j]) is Normal,
        decreases components@.len() - i,
    {
        assert(cs[i as int] == component_view(components@[i as int]));
        let normal = match &components[i] {
            PathComponent::Normal(_) => true,
            _ => false,
        };
        plain = plain && normal;
        i = i + 1;
    }
    if plain {
        Ok(path)
    } else {
        let mut m = chars_of("unsafe artifact path: ");
        append_chars(&mut m, &chars_of(path));
        Err(AnalyzerError::Failed(string_of(&m)))
    }
}

/// Lizard's broad language metrics, read through the `lizard` program.
pub struct LizardAnalyzer<A> {
    pub artifacts: A,
    pub executable: String,
}

impl<A> LizardAnalyzer<A> {
    /// An analyzer that runs `lizard` from the search path.
    pub fn new(artifacts: A) -> (r: Self)
        ensures
            r.artifacts == artifacts,
            r.executable@ == "lizard"@,
    {
        Self::with_executable(artifacts, "lizard")
    }

    /// An analyzer that runs the given program.
    pub fn with_executable(artifacts: A, executable: &str) -> (r: Self)
        ensures
            r.artifacts == artifacts,
            r.executable@ == executable@,
    {
        LizardAnalyzer { artifacts, executable: executable.to_owned() }
    }
}

/// The error of a Lizard run that exited unsuccessfully, quoting its
/// standard error.
pub fn lizard_failure(stderr: &[u8]) -> (e: AnalyzerError)
    ensures
        e matches AnalyzerError::Failed(m) && m@ == "Lizard exited unsuccessfully: "@ + trim(lossy_text(stderr@)),
{
    let mut m = chars_of("Lizard exited unsuccessfully: ");
    append_chars(&mut m, &trimmed(&chars_of(decode_lossy(stderr).as_str())));
    AnalyzerError::Failed(string_of(&m))
}

} // verus!
