//! Test coverage evidence: LCOV and Cobertura reports, parsed into per-file,
//! per-line coverage and matched against code entities by source range.
use vstd::prelude::*;
use vstd::utf8::{valid_utf8, decode_utf8};

use quick_xml::events::attributes::Attributes;
use quick_xml::events::{BytesStart, Event};
use quick_xml::name::QName;
use quick_xml::{Reader, XmlVersion};

use crate::kernel::{
    EntityObservation, EvidenceProvenance, Measurement, same_entity, same_measurements, same_scores, text_value, u32_value,
};
use crate::observation::{AnalysisDiagnostic, AnalyzerProvenance, CodeBatch, DiagnosticSeverity, revision_view};
use crate::maps::{keys_distinct, has_key, seq_map, lemma_seq_map, lemma_seq_map_update, lemma_seq_map_insert};
use crate::numbers::{decimal_digits, format_u64, parse_unsigned_spec, parse_u32_chars, parse_u64_chars, IntErrorKind, kind_message};
use crate::text::{append_chars, chars_of, string_of, trim, trim_start, trim_start_index, trimmed, slice_chars, starts_with, same_chars, contains_chars, contains_seq, lines, split_lines, split, split_at_char, is_white, seq_lt, compare_chars, lemma_seq_lt_transitive, lemma_seq_lt_asymmetric, lemma_seq_lt_irreflexive};

verus! {

/// The two report formats the library reads.
#[derive(Debug, Clone, Copy, PartialEq, Eq)]
pub enum CoverageFormat {
    Lcov,
    Cobertura,
}

pub open spec fn format_name(format: CoverageFormat) -> Seq<char> {
    match format {
        CoverageFormat::Lcov => "lcov"@,
        CoverageFormat::Cobertura => "cobertura"@,
    }
}

impl CoverageFormat {
    pub fn as_str(self) -> (s: &'static str)
        ensures
            s@ == format_name(self),
    {
        match self {
            CoverageFormat::Lcov => "lcov",
            CoverageFormat::Cobertura => "cobertura",
        }
    }
}

/// One coverage artifact: its format, where it came from, and its bytes.
#[derive(Debug, Clone)]
pub struct CoverageReport {
    pub format: CoverageFormat,
    pub source: String,
    pub bytes: Vec<u8>,
}

/// Why coverage evidence could not be read.
#[derive(Debug)]
pub enum CoverageError {
    Read { path: String, error: String },
    UnknownFormat(String),
    Invalid { format: &'static str, report_source: String, message: String },
}

impl CoverageReport {
    pub fn new(format: CoverageFormat, source: &str, bytes: &[u8]) -> (r: Self)
        ensures
            r.format == format,
            r.source@ == source@,
            r.bytes@ == bytes@,
    {
        CoverageReport { format, source: source.to_owned(), bytes: slice_to_vec(bytes) }
    }

    /// A report read from `path`, with its format detected from the contents
    /// (the computation behind reading a report from disk).
    pub fn from_contents(path: &str, bytes: Vec<u8>) -> (r: Result<Self, CoverageError>)
        ensures
            match detected_format(bytes@) {
                Some(format) => r matches Ok(report) && report.format == format
                    && report.source@ == path@ && report.bytes@ == bytes@,
                None => r matches Err(CoverageError::UnknownFormat(p)) && p@ == path@,
            },
    {
        match detect_format(path, &bytes) {
            Ok(format) => Ok(CoverageReport { format, source: path.to_owned(), bytes }),
            Err(e) => Err(e),
        }
    }
}

fn slice_to_vec(bytes: &[u8]) -> (v: Vec<u8>)
    ensures
        v@ == bytes@,
{
    let mut v: Vec<u8> = Vec::new();
    let mut i: usize = 0;
    while i < bytes.len()
        invariant
            i <= bytes@.len(),
            v@ == bytes@.take(i as int),
        decreases bytes@.len() - i,
    {
        v.push(bytes[i]);
        i = i + 1;
        assert(v@ =~= bytes@.take(i as int));
    }
    assert(bytes@.take(i as int) =~= bytes@);
    v
}

/// `std::str::from_utf8`: the text of `bytes` when they are valid UTF-8, else
/// the length of the longest valid prefix and the length of the bad sequence
/// that follows it (`None` when the input ends inside a sequence).
#[verifier::external_body]
pub(crate) fn from_utf8(bytes: &[u8]) -> (r: Result<&str, (usize, Option<usize>)>)
    ensures
        r is Ok <==> valid_utf8(bytes@),
        r matches Ok(s) ==> s@ == decode_utf8(bytes@),
        r matches Err(e) ==> e.0 == utf8_valid_up_to(bytes@) && e.1 == utf8_error_len(bytes@),
{
    std::str::from_utf8(bytes).map_err(|error| (error.valid_up_to(), error.error_len()))
}

/// `Utf8Error::valid_up_to`: the largest `i` such that `bytes[..i]` is valid.
pub open spec fn utf8_valid_up_to(bytes: Seq<u8>) -> int {
    choose|i: int|
        0 <= i <= bytes.len() && valid_utf8(bytes.take(i)) && forall|j: int|
            i < j <= bytes.len() ==> !valid_utf8(#[trigger] bytes.take(j))
}

/// `Utf8Error::error_len`: how many bytes after the valid prefix form the invalid
/// sequence, or `None` when the input ends in the middle of a sequence.
pub uninterp spec fn utf8_error_len(bytes: Seq<u8>) -> Option<usize>;

/// The `Display` text of the UTF-8 error that `bytes` give.
pub open spec fn utf8_error_text(bytes: Seq<u8>) -> Seq<char> {
    match utf8_error_len(bytes) {
        Some(n) => "invalid utf-8 sequence of "@ + decimal_digits(n as nat) + " bytes from index "@
            + decimal_digits(utf8_valid_up_to(bytes) as nat),
        None => "incomplete utf-8 byte sequence from index "@ + decimal_digits(
            utf8_valid_up_to(bytes) as nat,
        ),
    }
}

fn utf8_error_message(e: (usize, Option<usize>)) -> (m: Vec<char>)
    ensures
        m@ == (match e.1 {
            Some(n) => "invalid utf-8 sequence of "@ + decimal_digits(n as nat)
                + " bytes from index "@ + decimal_digits(e.0 as nat),
            None => "incomplete utf-8 byte sequence from index "@ + decimal_digits(e.0 as nat),
        }),
{
    match e.1 {
        Some(n) => {
            let mut m = chars_of("invalid utf-8 sequence of ");
            let mut d = format_u64(n as u64);
            m.append(&mut d);
            let mut t = chars_of(" bytes from index ");
            m.append(&mut t);
            let mut u = format_u64(e.0 as u64);
            m.append(&mut u);
            m
        },
        None => {
            let mut m = chars_of("incomplete utf-8 byte sequence from index ");
            let mut u = format_u64(e.0 as u64);
            m.append(&mut u);
            m
        },
    }
}

/// The text of `bytes`, as characters, when they are valid UTF-8.
fn decode(bytes: &[u8]) -> (r: Result<Vec<char>, Vec<char>>)
    ensures
        r matches Ok(v) ==> valid_utf8(bytes@) && v@ == decode_utf8(bytes@),
        r matches Err(m) ==> !valid_utf8(bytes@) && m@ == utf8_error_text(bytes@),
{
    match from_utf8(bytes) {
        Ok(s) => Ok(chars_of(s)),
        Err(e) => Err(utf8_error_message(e)),
    }
}

// ---------------------------------------------------------------------------
// Format detection
// ---------------------------------------------------------------------------
/// `has_prefix(s, p)`: `s` begins with `p`.
pub open spec fn has_prefix(s: Seq<char>, p: Seq<char>) -> bool {
    p.len() <= s.len() && s.take(p.len() as int) == p
}

/// The format a report's contents announce: LCOV when the text (after leading
/// white space) begins with `TN:` or `SF:`, Cobertura when it begins with `<`
/// and contains `<coverage`; text that is not UTF-8 counts as empty.
pub open spec fn detected_format(bytes: Seq<u8>) -> Option<CoverageFormat> {
    let text = if valid_utf8(bytes) {
        trim_start(decode_utf8(bytes))
    } else {
        Seq::empty()
    };
    if has_prefix(text, "TN:"@) || has_prefix(text, "SF:"@) {
        Some(CoverageFormat::Lcov)
    } else if text.len() > 0 && text[0] == '<' && contains_seq(text, "<coverage"@) {
        Some(CoverageFormat::Cobertura)
    } else {
        None
    }
}

pub fn detect_format(path: &str, bytes: &[u8]) -> (r: Result<CoverageFormat, CoverageError>)
    ensures
        match detected_format(bytes@) {
            Some(format) => r == Ok::<CoverageFormat, CoverageError>(format),
            None => r matches Err(CoverageError::UnknownFormat(p)) && p@ == path@,
        },
{
    let full: Vec<char> = match decode(bytes) {
        Ok(v) => v,
        Err(_) => Vec::new(),
    };
    let a = trim_start_index(&full);
    let text = slice_chars(&full, a, full.len());
    assert(text@ =~= trim_start(full@));
    let tn = chars_of("TN:");
    let sf = chars_of("SF:");
    if starts_with(&text, &tn) || starts_with(&text, &sf) {
        Ok(CoverageFormat::Lcov)
    } else if text.len() > 0 && text[0] == '<' && contains_chars(&text, &chars_of("<coverage")) {
        Ok(CoverageFormat::Cobertura)
    } else {
        Err(CoverageError::UnknownFormat(path.to_owned()))
    }
}


// ---------------------------------------------------------------------------
// Per-line coverage
// ---------------------------------------------------------------------------
/// Coverage of one source line: whether it ran, and how many of its branches
/// were taken out of how many.
#[derive(Debug, Clone, Copy, PartialEq, Eq)]
pub struct LineCoverage {
    pub hit: bool,
    pub branches_covered: u32,
    pub branches_total: u32,
}

pub open spec fn no_coverage() -> LineCoverage {
    LineCoverage { hit: false, branches_covered: 0, branches_total: 0 }
}

pub open spec fn max_u32(a: u32, b: u32) -> u32 {
    if a >= b {
        a
    } else {
        b
    }
}

/// Two observations of one line combined: hit if either was, and the larger
/// branch counts.
pub open spec fn merge_lines(a: LineCoverage, b: LineCoverage) -> LineCoverage {
    LineCoverage {
        hit: a.hit || b.hit,
        branches_covered: max_u32(a.branches_covered, b.branches_covered),
        branches_total: max_u32(a.branches_total, b.branches_total),
    }
}

impl LineCoverage {
    /// A line with no recorded execution (`Default`).
    pub fn none() -> (r: Self)
        ensures
            r == no_coverage(),
    {
        LineCoverage { hit: false, branches_covered: 0, branches_total: 0 }
    }

    pub fn merge(&mut self, other: Self)
        ensures
            *final(self) == merge_lines(*old(self), other),
    {
        self.hit = self.hit || other.hit;
        if other.branches_covered > self.branches_covered {
            self.branches_covered = other.branches_covered;
        }
        if other.branches_total > self.branches_total {
            self.branches_total = other.branches_total;
        }
    }
}

/// Merging line observations does not depend on their order.
pub proof fn law_merge_lines_commutative(a: LineCoverage, b: LineCoverage)
    ensures
        merge_lines(a, b) == merge_lines(b, a),
{
}

/// Merging line observations does not depend on their grouping.
pub proof fn law_merge_lines_associative(a: LineCoverage, b: LineCoverage, c: LineCoverage)
    ensures
        merge_lines(merge_lines(a, b), c) == merge_lines(a, merge_lines(b, c)),
{
}

/// Merging a line observation with itself changes nothing.
pub proof fn law_merge_lines_idempotent(a: LineCoverage)
    ensures
        merge_lines(a, a) == a,
{
}

/// Merging with a line that has no coverage changes nothing.
pub proof fn law_merge_lines_identity(a: LineCoverage)
    ensures
        merge_lines(a, no_coverage()) == a,
        merge_lines(no_coverage(), a) == a,
{
}

pub open spec fn line_entry(m: Map<u32, LineCoverage>, n: u32) -> LineCoverage {
    if m.contains_key(n) {
        m[n]
    } else {
        no_coverage()
    }
}

/// The lines of a file after observing `c` at line `n`.
pub open spec fn with_line(m: Map<u32, LineCoverage>, n: u32, c: LineCoverage) -> Map<
    u32,
    LineCoverage,
> {
    m.insert(n, merge_lines(line_entry(m, n), c))
}

pub open spec fn sat_inc(x: u32) -> u32 {
    if x == u32::MAX {
        x
    } else {
        (x + 1) as u32
    }
}

/// The lines of a file after one branch record at line `n`.
pub open spec fn with_branch(m: Map<u32, LineCoverage>, n: u32, taken: bool) -> Map<
    u32,
    LineCoverage,
> {
    let l = line_entry(m, n);
    m.insert(
        n,
        LineCoverage {
            hit: l.hit,
            branches_covered: if taken {
                sat_inc(l.branches_covered)
            } else {
                l.branches_covered
            },
            branches_total: sat_inc(l.branches_total),
        },
    )
}

/// Two files' line coverage combined line by line.
pub open spec fn merge_line_maps(a: Map<u32, LineCoverage>, b: Map<u32, LineCoverage>) -> Map<
    u32,
    LineCoverage,
> {
    Map::new(
        |k: u32| a.contains_key(k) || b.contains_key(k),
        |k: u32| merge_lines(line_entry(a, k), line_entry(b, k)),
    )
}

/// The recorded lines of one source file.
#[derive(Debug, Clone)]
pub struct FileCoverage {
    pub lines: Vec<(u32, LineCoverage)>,
}

impl View for FileCoverage {
    type V = Map<u32, LineCoverage>;

    open spec fn view(&self) -> Map<u32, LineCoverage> {
        seq_map(self.lines@)
    }
}

impl FileCoverage {
    pub open spec fn wf(&self) -> bool {
        keys_distinct(self.lines@)
    }

    pub fn new() -> (r: Self)
        ensures
            r.wf(),
            r@ == Map::<u32, LineCoverage>::empty(),
    {
        FileCoverage { lines: Vec::new() }
    }

    fn position(&self, n: u32) -> (r: Option<usize>)
        ensures
            r matches Some(i) ==> i < self.lines@.len() && self.lines@[i as int].0 == n,
            r is None ==> !has_key(self.lines@, n),
    {
        let mut i: usize = 0;
        while i < self.lines.len()
            invariant
                i <= self.lines@.len(),
                forall|j: int| 0 <= j < i ==> self.lines@[j].0 != n,
            decreases self.lines@.len() - i,
        {
            if self.lines[i].0 == n {
                return Some(i);
            }
            i = i + 1;
        }
        None
    }

    /// Observes coverage `c` for line `n`.
    pub fn line(&mut self, n: u32, c: LineCoverage)
        requires
            old(self).wf(),
        ensures
            final(self).wf(),
            final(self)@ == with_line(old(self)@, n, c),
    {
        proof {
            lemma_seq_map(self.lines@);
        }
        match self.position(n) {
            Some(i) => {
                let mut l = self.lines[i].1;
                l.merge(c);
                proof {
                    lemma_seq_map_update(self.lines@, i as int, l);
                }
                self.lines.set(i, (n, l));
            },
            None => {
                let mut l = LineCoverage::none();
                l.merge(c);
                proof {
                    lemma_seq_map_insert(self.lines@, self.lines@.len() as int, (n, l));
                    assert(self.lines@.insert(self.lines@.len() as int, (n, l)) =~= self.lines@.push(
                        (n, l),
                    ));
                }
                self.lines.push((n, l));
            },
        }
    }

    /// Records one branch of line `n`, taken or not.
    pub fn branch(&mut self, n: u32, taken: bool)
        requires
            old(self).wf(),
        ensures
            final(self).wf(),
            final(self)@ == with_branch(old(self)@, n, taken),
    {
        proof {
            lemma_seq_map(self.lines@);
        }
        let (i, mut l) = match self.position(n) {
            Some(i) => (i, self.lines[i].1),
            None => (self.lines.len(), LineCoverage::none()),
        };
        l.branches_total = l.branches_total.saturating_add(1);
        if taken {
            l.branches_covered = l.branches_covered.saturating_add(1);
        }
        if i < self.lines.len() {
            proof {
                lemma_seq_map_update(self.lines@, i as int, l);
            }
            self.lines.set(i, (n, l));
        } else {
            proof {
                lemma_seq_map_insert(self.lines@, self.lines@.len() as int, (n, l));
                assert(self.lines@.insert(self.lines@.len() as int, (n, l)) =~= self.lines@.push(
                    (n, l),
                ));
            }
            self.lines.push((n, l));
        }
    }

    /// Adds every line of `other`.
    pub fn merge(&mut self, other: &FileCoverage)
        requires
            old(self).wf(),
            other.wf(),
        ensures
            final(self).wf(),
            final(self)@ == merge_line_maps(old(self)@, other@),
    {
        let ghost start = self@;
        let mut i: usize = 0;
        assert(merge_line_maps(start, seq_map(other.lines@.take(0))) =~= start);
        while i < other.lines.len()
            invariant
                i <= other.lines@.len(),
                other.wf(),
                self.wf(),
                self@ == merge_line_maps(start, seq_map(other.lines@.take(i as int))),
            decreases other.lines@.len() - i,
        {
            let (n, c) = other.lines[i];
            proof {
                let prefix = other.lines@.take(i as int);
                assert(other.lines@.take(i + 1).drop_last() =~= prefix);
                assert(keys_distinct(prefix));
                lemma_seq_map(prefix);
                assert(!has_key(prefix, n)) by {
                    if has_key(prefix, n) {
                        let j = choose|j: int| 0 <= j < prefix.len() && prefix[j].0 == n;
                        assert(other.lines@[j].0 == other.lines@[i as int].0);
                    }
                }
                lemma_merge_maps_step(start, seq_map(prefix), n, c);
            }
            self.line(n, c);
            i = i + 1;
        }
        assert(other.lines@.take(i as int) =~= other.lines@);
    }
}

proof fn lemma_merge_maps_step(
    a: Map<u32, LineCoverage>,
    m: Map<u32, LineCoverage>,
    n: u32,
    c: LineCoverage,
)
    requires
        !m.contains_key(n),
    ensures
        merge_line_maps(a, m.insert(n, c)) == with_line(merge_line_maps(a, m), n, c),
{
    assert(merge_line_maps(a, m.insert(n, c)) =~= with_line(merge_line_maps(a, m), n, c));
}

// ---------------------------------------------------------------------------
// Files of a report
// ---------------------------------------------------------------------------
pub open spec fn files_seq(e: Seq<(String, FileCoverage)>) -> Seq<(Seq<char>, Map<u32, LineCoverage>)> {
    e.map_values(|p: (String, FileCoverage)| (p.0@, p.1@))
}

/// Coverage of several files, kept in path order.
#[derive(Debug, Clone)]
pub struct CoverageFiles {
    pub entries: Vec<(String, FileCoverage)>,
}

impl View for CoverageFiles {
    type V = Map<Seq<char>, Map<u32, LineCoverage>>;

    open spec fn view(&self) -> Map<Seq<char>, Map<u32, LineCoverage>> {
        seq_map(files_seq(self.entries@))
    }
}

pub open spec fn file_entry(m: Map<Seq<char>, Map<u32, LineCoverage>>, p: Seq<char>) -> Map<
    u32,
    LineCoverage,
> {
    if m.contains_key(p) {
        m[p]
    } else {
        Map::empty()
    }
}

/// Paths strictly increasing.
pub open spec fn paths_sorted(e: Seq<(String, FileCoverage)>) -> bool {
    forall|i: int, j: int| 0 <= i < j < e.len() ==> seq_lt(#[trigger] e[i].0@, #[trigger] e[j].0@)
}

/// A change to the coverage of one file.
pub enum FileUpdate {
    Line(u32, LineCoverage),
    Branch(u32, bool),
    Merge(FileCoverage),
}

pub open spec fn apply_update(m: Map<u32, LineCoverage>, u: FileUpdate) -> Map<u32, LineCoverage> {
    match u {
        FileUpdate::Line(n, c) => with_line(m, n, c),
        FileUpdate::Branch(n, taken) => with_branch(m, n, taken),
        FileUpdate::Merge(f) => merge_line_maps(m, f@),
    }
}

pub open spec fn update_wf(u: FileUpdate) -> bool {
    match u {
        FileUpdate::Merge(f) => f.wf(),
        _ => true,
    }
}

proof fn lemma_sorted_distinct(e: Seq<(String, FileCoverage)>)
    requires
        paths_sorted(e),
    ensures
        keys_distinct(files_seq(e)),
{
    let f = files_seq(e);
    assert forall|i: int, j: int| 0 <= i < f.len() && 0 <= j < f.len() && i != j implies f[i].0
        != f[j].0 by {
        if i < j {
            lemma_seq_lt_asymmetric(e[i].0@, e[j].0@);
        } else {
            lemma_seq_lt_asymmetric(e[j].0@, e[i].0@);
        }
    }
}

impl CoverageFiles {
    pub open spec fn wf(&self) -> bool {
        &&& paths_sorted(self.entries@)
        &&& forall|i: int| 0 <= i < self.entries@.len() ==> (#[trigger] self.entries@[i]).1.wf()
    }

    pub fn new() -> (r: Self)
        ensures
            r.wf(),
            r@ == Map::<Seq<char>, Map<u32, LineCoverage>>::empty(),
    {
        let r = CoverageFiles { entries: Vec::new() };
        assert(files_seq(r.entries@) =~= Seq::empty());
        r
    }

    /// Where `path` is, or would go, in path order.
    fn locate(&self, path: &[char]) -> (r: (usize, bool))
        requires
            self.wf(),
        ensures
            r.0 <= self.entries@.len(),
            forall|j: int| 0 <= j < r.0 ==> seq_lt(#[trigger] self.entries@[j].0@, path@),
            r.1 ==> r.0 < self.entries@.len() && self.entries@[r.0 as int].0@ == path@,
            !r.1 ==> r.0 == self.entries@.len() || seq_lt(path@, self.entries@[r.0 as int].0@),
    {
        let mut i: usize = 0;
        while i < self.entries.len()
            invariant
                i <= self.entries@.len(),
                forall|j: int| 0 <= j < i ==> seq_lt(#[trigger] self.entries@[j].0@, path@),
            decreases self.entries@.len() - i,
        {
            let key = chars_of(self.entries[i].0.as_str());
            let c = compare_chars(&key, path);
            if c == 0 {
                return (i, true);
            }
            if c > 0 {
                return (i, false);
            }
            i = i + 1;
        }
        (i, false)
    }

    /// Applies `u` to the coverage of `path`, starting from no lines when the
    /// path is new.
    pub fn update(&mut self, path: &[char], u: FileUpdate)
        requires
            old(self).wf(),
            update_wf(u),
        ensures
            final(self).wf(),
            final(self)@ == old(self)@.insert(path@, apply_update(file_entry(old(self)@, path@), u)),
    {
        let ghost old_entries = self.entries@;
        proof {
            lemma_sorted_distinct(self.entries@);
            lemma_seq_map(files_seq(self.entries@));
        }
        let (i, found) = self.locate(path);
        let mut f = if found {
            let (_, f) = self.entries.remove(i);
            proof {
                assert(files_seq(old_entries)[i as int] == (old_entries[i as int].0@, f@));
            }
            f
        } else {
            FileCoverage::new()
        };
        assert(!found ==> !has_key(files_seq(old_entries), path@)) by {
            if !found && has_key(files_seq(old_entries), path@) {
                let j = choose|j: int|
                    0 <= j < files_seq(old_entries).len() && files_seq(old_entries)[j].0 == path@;
                if j < i {
                    lemma_seq_lt_irreflexive(path@);
                } else {
                    if j > i {
                        lemma_seq_lt_transitive(path@, old_entries[i as int].0@, path@);
                    }
                    lemma_seq_lt_irreflexive(path@);
                }
            }
        }
        assert(f@ == file_entry(seq_map(files_seq(old_entries)), path@));
        match u {
            FileUpdate::Line(n, c) => f.line(n, c),
            FileUpdate::Branch(n, taken) => f.branch(n, taken),
            FileUpdate::Merge(other) => f.merge(&other),
        }
        let key = string_of(path);
        let ghost x = (key, f);
        self.entries.insert(i, (key, f));
        proof {
            let fs = files_seq(old_entries);
            if found {
                assert(self.entries@ =~= old_entries.update(i as int, x));
                assert(files_seq(self.entries@) =~= fs.update(i as int, (fs[i as int].0, x.1@)));
                lemma_seq_map_update(fs, i as int, x.1@);
            } else {
                assert(self.entries@ =~= old_entries.insert(i as int, x));
                assert(files_seq(self.entries@) =~= fs.insert(i as int, (path@, x.1@)));
                lemma_seq_map_insert(fs, i as int, (path@, x.1@));
            }
            assert forall|a: int, b: int| 0 <= a < b < self.entries@.len() implies seq_lt(
                #[trigger] self.entries@[a].0@,
                #[trigger] self.entries@[b].0@,
            ) by {
                let e = self.entries@;
                if a != i && b != i {
                    let a0 = if a < i || found {
                        a
                    } else {
                        a - 1
                    };
                    let b0 = if b < i || found {
                        b
                    } else {
                        b - 1
                    };
                    assert(e[a] == old_entries[a0] && e[b] == old_entries[b0]);
                } else if a == i {
                    let b0 = if found {
                        b
                    } else {
                        b - 1
                    };
                    assert(e[b] == old_entries[b0]);
                    if found {
                        assert(seq_lt(old_entries[i as int].0@, old_entries[b0].0@));
                    } else if b0 > i {
                        lemma_seq_lt_transitive(path@, old_entries[i as int].0@, old_entries[b0].0@);
                    }
                } else {
                    assert(e[a] == old_entries[a]);
                }
            }
            assert forall|a: int| 0 <= a < self.entries@.len() implies (
            #[trigger] self.entries@[a]).1.wf() by {
                if a != i {
                    let a0 = if a < i || found {
                        a
                    } else {
                        a - 1
                    };
                    assert(self.entries@[a] == old_entries[a0]);
                }
            }
        }
    }
}

// ---------------------------------------------------------------------------
// Paths and fields
// ---------------------------------------------------------------------------
pub open spec fn backslash_to_slash(s: Seq<char>) -> Seq<char> {
    s.map_values(|c: char| if c == '\\' { '/' } else { c })
}

/// `trim_start_matches("./")`.
pub open spec fn strip_dot_slash(s: Seq<char>) -> Seq<char>
    decreases s.len(),
{
    if s.len() >= 2 && s[0] == '.' && s[1] == '/' {
        strip_dot_slash(s.skip(2))
    } else {
        s
    }
}

/// `trim_start_matches('/')`.
pub open spec fn strip_slashes(s: Seq<char>) -> Seq<char>
    decreases s.len(),
{
    if s.len() > 0 && s[0] == '/' {
        strip_slashes(s.drop_first())
    } else {
        s
    }
}

/// A report or entity path in the form both are compared in: trimmed, with
/// `/` separators, and without leading `./` or `/`.
pub open spec fn normalized_path(s: Seq<char>) -> Seq<char> {
    strip_slashes(strip_dot_slash(backslash_to_slash(trim(s))))
}

pub fn normalize_chars(path: &[char]) -> (r: Vec<char>)
    ensures
        r@ == normalized_path(path@),
{
    let t = trimmed(path);
    let mut u: Vec<char> = Vec::new();
    let mut i: usize = 0;
    while i < t.len()
        invariant
            i <= t@.len(),
            u@ == backslash_to_slash(t@.take(i as int)),
        decreases t@.len() - i,
    {
        u.push(if t[i] == '\\' { '/' } else { t[i] });
        i = i + 1;
        assert(u@ =~= backslash_to_slash(t@.take(i as int)));
    }
    assert(t@.take(i as int) =~= t@);
    let mut a: usize = 0;
    assert(u@.skip(0) =~= u@);
    while a < u.len() && u.len() - a >= 2 && u[a] == '.' && u[a + 1] == '/'
        invariant
            a <= u@.len(),
            strip_dot_slash(u@) == strip_dot_slash(u@.skip(a as int)),
        decreases u@.len() - a,
    {
        assert(u@.skip(a as int).skip(2) =~= u@.skip(a + 2));
        a = a + 2;
    }
    let mut b: usize = a;
    assert(strip_dot_slash(u@) == u@.skip(a as int));
    while b < u.len() && u[b] == '/'
        invariant
            a <= b <= u@.len(),
            strip_slashes(u@.skip(a as int)) == strip_slashes(u@.skip(b as int)),
        decreases u@.len() - b,
    {
        assert(u@.skip(b as int).drop_first() =~= u@.skip(b + 1));
        b = b + 1;
    }
    slice_chars(&u, b, u.len())
}

/// Normalizes a report or entity path for comparison.
pub fn normalize_path(path: &str) -> (r: String)
    ensures
        r@ == normalized_path(path@),
{
    let v = chars_of(path);
    let n = normalize_chars(&v);
    string_of(&n)
}

pub open spec fn nth(s: Seq<Seq<char>>, i: int) -> Option<Seq<char>> {
    if 0 <= i < s.len() {
        Some(s[i])
    } else {
        None
    }
}

/// A numeric report field: missing, malformed, or its value (white space
/// around it ignored).
pub open spec fn field_number(value: Option<Seq<char>>, field: Seq<char>, max: nat) -> Result<
    nat,
    Seq<char>,
> {
    match value {
        None => Err("missing "@ + field),
        Some(v) => match parse_unsigned_spec(trim(v), max) {
            Ok(n) => Ok(n),
            Err(k) => Err("invalid "@ + field + ": "@ + kind_message(k)),
        },
    }
}

fn parse_field(value: Option<&[char]>, field: &str, max: u64) -> (r: Result<u64, Vec<char>>)
    ensures
        match field_number(
            match value {
                Some(v) => Some(v@),
                None => None,
            },
            field@,
            max as nat,
        ) {
            Ok(n) => r == Ok::<u64, Vec<char>>(n as u64),
            Err(m) => r matches Err(e) && e@ == m,
        },
{
    match value {
        None => {
            let mut m = chars_of("missing ");
            let mut f = chars_of(field);
            m.append(&mut f);
            Err(m)
        },
        Some(v) => {
            let t = trimmed(v);
            match crate::numbers::parse_unsigned(&t, max) {
                Ok(n) => Ok(n),
                Err(k) => {
                    let mut m = chars_of("invalid ");
                    let mut f = chars_of(field);
                    m.append(&mut f);
                    let mut sep = chars_of(": ");
                    m.append(&mut sep);
                    let mut km = chars_of(k.message());
                    m.append(&mut km);
                    Err(m)
                },
            }
        },
    }
}

fn invalid(report: &CoverageReport, message: Vec<char>) -> (e: CoverageError)
    ensures
        e matches CoverageError::Invalid { format, report_source, message: m } && format@
            == format_name(report.format) && report_source@ == report.source@ && m@ == message@,
{
    CoverageError::Invalid {
        format: report.format.as_str(),
        report_source: report.source.clone(),
        message: string_of(&message),
    }
}

/// `r` is the `Invalid` error for `report` with message `msg`.
pub open spec fn invalid_error(e: CoverageError, format: CoverageFormat, source: Seq<char>, msg: Seq<char>) -> bool {
    e matches CoverageError::Invalid { format: f, report_source, message } && f@ == format_name(format)
        && report_source@ == source && message@ == msg
}

// ---------------------------------------------------------------------------
// LCOV
// ---------------------------------------------------------------------------
/// Files seen so far and the file that `SF:` last opened.
pub type LcovState = (Map<Seq<char>, Map<u32, LineCoverage>>, Option<Seq<char>>);

/// A branch record counts as taken when its count is a positive integer.
pub open spec fn branch_taken(t: Seq<char>) -> bool {
    t != "-"@ && (parse_unsigned_spec(t, u64::MAX as nat) matches Ok(v) && v > 0)
}

/// One LCOV line: `SF:` opens a file, `DA:` records a line's hits, `BRDA:` one
/// branch, `end_of_record` closes the file; other lines are ignored.
pub open spec fn lcov_step(st: LcovState, line: Seq<char>) -> Result<LcovState, Seq<char>> {
    let files = st.0;
    let current = st.1;
    if has_prefix(line, "SF:"@) {
        Ok((files, Some(normalized_path(line.skip("SF:"@.len() as int)))))
    } else if has_prefix(line, "DA:"@) {
        match current {
            None => Err("DA record appears before SF"@),
            Some(p) => {
                let f = split(line.skip("DA:"@.len() as int), ',');
                match field_number(nth(f, 0), "line number"@, u32::MAX as nat) {
                    Err(m) => Err(m),
                    Ok(n) => match field_number(nth(f, 1), "line hits"@, u64::MAX as nat) {
                        Err(m) => Err(m),
                        Ok(h) => Ok(
                            (
                                files.insert(
                                    p,
                                    with_line(
                                        file_entry(files, p),
                                        n as u32,
                                        LineCoverage {
                                            hit: h > 0,
                                            branches_covered: 0,
                                            branches_total: 0,
                                        },
                                    ),
                                ),
                                current,
                            ),
                        ),
                    },
                }
            },
        }
    } else if has_prefix(line, "BRDA:"@) {
        match current {
            None => Err("BRDA record appears before SF"@),
            Some(p) => {
                let f = split(line.skip("BRDA:"@.len() as int), ',');
                match field_number(nth(f, 0), "branch line number"@, u32::MAX as nat) {
                    Err(m) => Err(m),
                    Ok(n) => match nth(f, 3) {
                        None => Err("BRDA record lacks taken count"@),
                        Some(t) => Ok(
                            (
                                files.insert(
                                    p,
                                    with_branch(file_entry(files, p), n as u32, branch_taken(t)),
                                ),
                                current,
                            ),
                        ),
                    },
                }
            },
        }
    } else if line == "end_of_record"@ {
        Ok((files, None))
    } else {
        Ok(st)
    }
}

/// A `BRDA` record read while a file is open adds one branch to its line and
/// leaves whether the line ran alone; the branch counts as covered exactly
/// when its taken count is a whole number above zero, so a `-` (the branch
/// never ran) or a `0` adds nothing to the covered branches.
pub proof fn law_lcov_branch_record(st: LcovState, line: Seq<char>, p: Seq<char>, n: u32, t: Seq<char>)
    requires
        st.1 == Some(p),
        has_prefix(line, "BRDA:"@),
        field_number(nth(split(line.skip("BRDA:"@.len() as int), ','), 0), "branch line number"@, u32::MAX as nat) == Ok::<nat, Seq<char>>(
            n as nat,
        ),
        nth(split(line.skip("BRDA:"@.len() as int), ','), 3) == Some(t),
    ensures
        lcov_step(st, line) matches Ok(after) && after.1 == st.1 && {
            let old_line = line_entry(file_entry(st.0, p), n);
            let new_line = line_entry(file_entry(after.0, p), n);
            &&& new_line.hit == old_line.hit
            &&& new_line.branches_total == sat_inc(old_line.branches_total)
            &&& t == "-"@ ==> new_line.branches_covered == old_line.branches_covered
            &&& parse_unsigned_spec(t, u64::MAX as nat) == Ok::<nat, IntErrorKind>(0) ==> new_line.branches_covered
                == old_line.branches_covered
            &&& (parse_unsigned_spec(t, u64::MAX as nat) matches Ok(v) && v > 0) ==> new_line.branches_covered == sat_inc(
                old_line.branches_covered,
            )
        },
{
    reveal_strlit("BRDA:");
    reveal_strlit("SF:");
    reveal_strlit("DA:");
    reveal_strlit("-");
    assert(line.take(5)[0] == 'B');
    assert(!has_prefix(line, "SF:"@)) by {
        if has_prefix(line, "SF:"@) {
            assert(line.take(3)[0] == 'S');
        }
    }
    assert(!has_prefix(line, "DA:"@)) by {
        if has_prefix(line, "DA:"@) {
            assert(line.take(3)[0] == 'D');
        }
    }
    if t == "-"@ {
        assert(!branch_taken(t));
    }
}

/// The LCOV lines read in order; the first error stops the reading.
pub open spec fn lcov_fold(ls: Seq<Seq<char>>) -> Result<LcovState, Seq<char>>
    decreases ls.len(),
{
    if ls.len() == 0 {
        Ok((Map::empty(), None))
    } else {
        match lcov_fold(ls.drop_last()) {
            Err(m) => Err(m),
            Ok(st) => lcov_step(st, ls.last()),
        }
    }
}

/// What an LCOV report says of each file, or why it is malformed.
pub open spec fn lcov_files(bytes: Seq<u8>) -> Result<Map<Seq<char>, Map<u32, LineCoverage>>, Seq<char>> {
    if !valid_utf8(bytes) {
        Err("report is not UTF-8: "@ + utf8_error_text(bytes))
    } else {
        match lcov_fold(lines(decode_utf8(bytes))) {
            Ok(st) => Ok(st.0),
            Err(m) => Err(m),
        }
    }
}

proof fn lemma_lcov_error_persists(ls: Seq<Seq<char>>, k: int)
    requires
        0 <= k <= ls.len(),
        lcov_fold(ls.take(k)) is Err,
    ensures
        lcov_fold(ls) == lcov_fold(ls.take(k)),
    decreases ls.len() - k,
{
    if k < ls.len() {
        assert(ls.take(k + 1).drop_last() =~= ls.take(k));
        lemma_lcov_error_persists(ls, k + 1);
    } else {
        assert(ls.take(k) =~= ls);
    }
}

pub open spec fn opt_chars(o: Option<Vec<char>>) -> Option<Seq<char>> {
    match o {
        Some(v) => Some(v@),
        None => None,
    }
}

fn lcov_line(files: &mut CoverageFiles, current: &mut Option<Vec<char>>, line: &[char]) -> (r: Result<(), Vec<char>>)
    requires
        old(files).wf(),
    ensures
        final(files).wf(),
        match lcov_step((old(files)@, opt_chars(*old(current))), line@) {
            Ok(st) => r is Ok && final(files)@ == st.0 && opt_chars(*final(current)) == st.1,
            Err(m) => r matches Err(e) && e@ == m,
        },
{
    let sf = chars_of("SF:");
    let da = chars_of("DA:");
    let brda = chars_of("BRDA:");
    if starts_with(line, &sf) {
        let rest = slice_chars(line, sf.len(), line.len());
        *current = Some(normalize_chars(&rest));
        return Ok(());
    }
    if starts_with(line, &da) {
        let p = match current {
            None => return Err(chars_of("DA record appears before SF")),
            Some(p) => p,
        };
        let rest = slice_chars(line, da.len(), line.len());
        let fields = split_at_char(&rest, ',');
        let n = parse_field(if fields.len() > 0 { Some(fields[0].as_slice()) } else { None }, "line number", u32::MAX as u64)?;
        let h = parse_field(if fields.len() > 1 { Some(fields[1].as_slice()) } else { None }, "line hits", u64::MAX)?;
        files.update(p, FileUpdate::Line(n as u32, LineCoverage { hit: h > 0, branches_covered: 0, branches_total: 0 }));
        return Ok(());
    }
    if starts_with(line, &brda) {
        let p = match current {
            None => return Err(chars_of("BRDA record appears before SF")),
            Some(p) => p,
        };
        let rest = slice_chars(line, brda.len(), line.len());
        let fields = split_at_char(&rest, ',');
        let n = parse_field(if fields.len() > 0 { Some(fields[0].as_slice()) } else { None }, "branch line number", u32::MAX as u64)?;
        if fields.len() <= 3 {
            return Err(chars_of("BRDA record lacks taken count"));
        }
        let t = &fields[3];
        let dash = chars_of("-");
        let taken = !same_chars(t, &dash) && match parse_u64_chars(t) {
            Ok(v) => v > 0,
            Err(_) => false,
        };
        files.update(p, FileUpdate::Branch(n as u32, taken));
        return Ok(());
    }
    if same_chars(line, &chars_of("end_of_record")) {
        *current = None;
    }
    Ok(())
}

/// Parses an LCOV report into per-file line coverage.
pub fn parse_lcov(report: &CoverageReport) -> (r: Result<CoverageFiles, CoverageError>)
    ensures
        match lcov_files(report.bytes@) {
            Ok(m) => r matches Ok(f) && f.wf() && f@ == m,
            Err(msg) => r matches Err(e) && invalid_error(e, report.format, report.source@, msg),
        },
{
    let text = match decode(report.bytes.as_slice()) {
        Ok(t) => t,
        Err(m) => {
            let mut message = chars_of("report is not UTF-8: ");
            let mut detail = m;
            message.append(&mut detail);
            return Err(invalid(report, message));
        },
    };
    let ls = split_lines(&text);
    let ghost spec_lines = lines(decode_utf8(report.bytes@));
    let mut files = CoverageFiles::new();
    let mut current: Option<Vec<char>> = None;
    let mut i: usize = 0;
    while i < ls.len()
        invariant
            i <= ls@.len(),
            ls@.len() == spec_lines.len(),
            valid_utf8(report.bytes@),
            spec_lines == lines(decode_utf8(report.bytes@)),
            forall|k: int| 0 <= k < ls@.len() ==> #[trigger] ls@[k]@ == spec_lines[k],
            files.wf(),
            lcov_fold(spec_lines.take(i as int)) == Ok::<LcovState, Seq<char>>((files@, opt_chars(current))),
        decreases ls@.len() - i,
    {
        assert(spec_lines.take(i + 1).drop_last() =~= spec_lines.take(i as int));
        match lcov_line(&mut files, &mut current, ls[i].as_slice()) {
            Ok(()) => {},
            Err(m) => {
                proof {
                    assert(spec_lines.take(i + 1).last() == spec_lines[i as int]);
                    assert(lcov_fold(spec_lines.take(i + 1)) == Err::<LcovState, Seq<char>>(m@));
                    lemma_lcov_error_persists(spec_lines, i + 1);
                }
                return Err(invalid(report, m));
            },
        }
        i = i + 1;
    }
    assert(spec_lines.take(i as int) =~= spec_lines);
    Ok(files)
}

// ---------------------------------------------------------------------------
// Cobertura
// ---------------------------------------------------------------------------
/// One attribute of an XML element as the XML reader delivered it: either an
/// attribute it could not read, or a key (local name) with its decoded value
/// or the error that decoding gave.
#[derive(Debug, PartialEq, Eq)]
pub enum XmlAttribute {
    Malformed(String),
    Pair { key: Vec<u8>, value: Result<String, String> },
}

/// An XML element's local name and attributes, in document order.
#[derive(Debug, PartialEq, Eq)]
pub struct XmlElement {
    pub name: Vec<u8>,
    pub attributes: Vec<XmlAttribute>,
}

/// One event of an XML reader, up to the end of the document.
#[derive(Debug, PartialEq, Eq)]
pub enum XmlEvent {
    Start(XmlElement),
    Empty(XmlElement),
    End(Vec<u8>),
    Failed(String),
    Other,
}

/// `quick_xml`'s XML reader.
#[verifier::external_type_specification]
#[verifier::external_body]
#[verifier::reject_recursive_types(R)]
pub struct XmlReaderDeclaration<R>(quick_xml::Reader<R>);

/// An element's tag as the XML reader delivered it: its qualified name and
/// its whole text (the name followed by the attributes).
#[derive(Debug, Clone, PartialEq, Eq)]
pub struct XmlTag {
    pub name: String,
    pub text: String,
}

/// One event of the XML reader, before the attributes of elements are read.
#[derive(Debug, Clone, PartialEq, Eq)]
pub enum XmlToken {
    Start(XmlTag),
    Empty(XmlTag),
    End(Vec<u8>),
    Failed(String),
    Other,
}

/// The text of a tag begins with its name.
pub open spec fn tag_consistent(t: XmlToken) -> bool {
    match t {
        XmlToken::Start(tag) => tag.text@.len() >= tag.name@.len() && tag.text@.take(tag.name@.len() as int) == tag.name@,
        XmlToken::Empty(tag) => tag.text@.len() >= tag.name@.len() && tag.text@.take(tag.name@.len() as int) == tag.name@,
        _ => true,
    }
}

/// What `quick_xml`'s `Reader`, set to trim white space around text, hands
/// out for `bytes`: every event before the end of the document, an error
/// included (as `Failed`).
pub uninterp spec fn xml_document(bytes: Seq<u8>) -> Seq<XmlToken>;

/// The events a reader has yet to hand out before the end of its document.
pub uninterp spec fn xml_pending(reader: Reader<&[u8]>) -> Seq<XmlToken>;

/// `Reader::from_reader` over `bytes`, with `trim_text` set. Each tag it
/// hands out begins with the tag's name.
#[verifier::external_body]
fn xml_reader<'a>(bytes: &'a [u8]) -> (r: Reader<&'a [u8]>)
    ensures
        xml_pending(r) == xml_document(bytes@),
        forall|i: int| 0 <= i < xml_pending(r).len() ==> tag_consistent(#[trigger] xml_pending(r)[i]),
{
    let mut reader = Reader::from_reader(bytes);
    reader.config_mut().trim_text(true);
    reader
}

/// `Reader::read_event`: the next event, none at the end of the document.
#[verifier::external_body]
fn read_xml_event(reader: &mut Reader<&[u8]>) -> (e: Option<XmlToken>)
    ensures
        xml_pending(*old(reader)).len() == 0 ==> e is None && xml_pending(*final(reader)).len() == 0,
        xml_pending(*old(reader)).len() > 0 ==> e == Some(xml_pending(*old(reader))[0])
            && xml_pending(*final(reader)) == xml_pending(*old(reader)).drop_first(),
{
    let tag = |e: BytesStart| XmlTag { name: e.name().into_inner().to_owned(), text: String::from(&*e) };
    Some(match reader.read_event() {
        Ok(Event::Start(e)) => XmlToken::Start(tag(e)),
        Ok(Event::Empty(e)) => XmlToken::Empty(tag(e)),
        Ok(Event::End(e)) => XmlToken::End(e.local_name().into_inner().into()),
        Ok(Event::Eof) => return None,
        Ok(_) => XmlToken::Other,
        Err(error) => XmlToken::Failed(error.to_string()),
    })
}

/// What the attributes of a tag read as, given its qualified name and its
/// whole text.
pub uninterp spec fn element_of(name: Seq<char>, text: Seq<char>) -> XmlElement;

/// `QName::local_name` of the tag's name, and the tag's attributes as
/// `Attributes::new` reads them after the name, each with its local name and
/// `normalized_value` (XML 1.0), or the error met.
#[verifier::external_body]
fn xml_element(tag: &XmlTag) -> (r: XmlElement)
    requires
        tag.text@.len() >= tag.name@.len(),
        tag.text@.take(tag.name@.len() as int) == tag.name@,
    ensures
        r == element_of(tag.name@, tag.text@),
{
    let attributes = Attributes::new(&tag.text, tag.name.len()).map(|a| match a {
        Ok(a) => XmlAttribute::Pair { key: a.key.local_name().into_inner().into(), value: a.normalized_value(XmlVersion::default()).map(String::from).map_err(|e| e.to_string()) },
        Err(e) => XmlAttribute::Malformed(e.to_string()),
    }).collect();
    XmlElement { name: QName(&tag.name).local_name().into_inner().into(), attributes }
}

/// The event a token stands for, its tag's attributes read.
pub open spec fn token_event(t: XmlToken) -> XmlEvent {
    match t {
        XmlToken::Start(tag) => XmlEvent::Start(element_of(tag.name@, tag.text@)),
        XmlToken::Empty(tag) => XmlEvent::Empty(element_of(tag.name@, tag.text@)),
        XmlToken::End(n) => XmlEvent::End(n),
        XmlToken::Failed(m) => XmlEvent::Failed(m),
        XmlToken::Other => XmlEvent::Other,
    }
}

/// The XML events of a document.
pub open spec fn document_events(bytes: Seq<u8>) -> Seq<XmlEvent> {
    xml_document(bytes).map_values(|t: XmlToken| token_event(t))
}

/// The XML events of `bytes`, up to the end of the document or its first
/// error.
pub fn xml_events(bytes: &[u8]) -> (r: Vec<XmlEvent>)
    ensures
        r@.len() <= document_events(bytes@).len(),
        r@ == document_events(bytes@).take(r@.len() as int),
        r@.len() == document_events(bytes@).len() || (r@.len() > 0 && r@.last() is Failed),
{
    let ghost document = xml_document(bytes@);
    let ghost all = document_events(bytes@);
    let mut reader = xml_reader(bytes);
    let mut events: Vec<XmlEvent> = Vec::new();
    let ghost mut taken: int = 0;
    loop
        invariant
            document == xml_document(bytes@),
            all == document_events(bytes@),
            all.len() == document.len(),
            0 <= taken <= document.len(),
            xml_pending(reader) == document.skip(taken),
            forall|i: int| 0 <= i < document.len() ==> tag_consistent(#[trigger] document[i]),
            events@ == all.take(taken),
        ensures
            events@.len() <= all.len(),
            events@ == all.take(events@.len() as int),
            events@.len() == all.len() || (events@.len() > 0 && events@.last() is Failed),
        decreases xml_pending(reader).len(),
    {
        match read_xml_event(&mut reader) {
            None => {
                assert(all.take(taken) =~= all);
                break;
            },
            Some(t) => {
                assert(document.skip(taken)[0] == document[taken]);
                assert(document.skip(taken).drop_first() =~= document.skip(taken + 1));
                assert(tag_consistent(document[taken]));
                let e = match t {
                    XmlToken::Start(tag) => XmlEvent::Start(xml_element(&tag)),
                    XmlToken::Empty(tag) => XmlEvent::Empty(xml_element(&tag)),
                    XmlToken::End(n) => XmlEvent::End(n),
                    XmlToken::Failed(m) => XmlEvent::Failed(m),
                    XmlToken::Other => XmlEvent::Other,
                };
                let failed = match &e {
                    XmlEvent::Failed(_) => true,
                    _ => false,
                };
                events.push(e);
                proof {
                    taken = taken + 1;
                    assert(events@ =~= all.take(taken));
                }
                if failed {
                    break;
                }
            },
        }
    }
    events
}

/// The bytes of an ASCII name.
pub open spec fn ascii(s: Seq<char>) -> Seq<u8> {
    s.map_values(|c: char| c as u8)
}

fn ascii_bytes(s: &str) -> (v: Vec<u8>)
    ensures
        v@ == ascii(s@),
{
    let cs = chars_of(s);
    let mut v: Vec<u8> = Vec::new();
    let mut i: usize = 0;
    while i < cs.len()
        invariant
            i <= cs@.len(),
            cs@ == s@,
            v@ == ascii(cs@.take(i as int)),
        decreases cs@.len() - i,
    {
        v.push(cs[i] as u8);
        i = i + 1;
        assert(v@ =~= ascii(cs@.take(i as int)));
    }
    assert(cs@.take(i as int) =~= cs@);
    v
}

pub(crate) fn same_bytes(a: &[u8], b: &[u8]) -> (r: bool)
    ensures
        r == (a@ == b@),
{
    if a.len() != b.len() {
        return false;
    }
    let mut i: usize = 0;
    while i < a.len()
        invariant
            i <= a@.len() == b@.len(),
            forall|k: int| 0 <= k < i ==> a@[k] == b@[k],
        decreases a@.len() - i,
    {
        if a[i] != b[i] {
            return false;
        }
        i = i + 1;
    }
    assert(a@ =~= b@);
    true
}

/// The value of the first attribute named `name`; an unreadable attribute met
/// before it is an error.
pub open spec fn attribute_value(attrs: Seq<XmlAttribute>, name: Seq<u8>) -> Result<Option<Seq<char>>, Seq<char>>
    decreases attrs.len(),
{
    if attrs.len() == 0 {
        Ok(None)
    } else {
        match attrs[0] {
            XmlAttribute::Malformed(m) => Err(m@),
            XmlAttribute::Pair { key, value } => if key@ == name {
                match value {
                    Ok(v) => Ok(Some(v@)),
                    Err(m) => Err(m@),
                }
            } else {
                attribute_value(attrs.drop_first(), name)
            },
        }
    }
}

fn attribute(element: &XmlElement, name: &[u8]) -> (r: Result<Option<Vec<char>>, Vec<char>>)
    ensures
        match attribute_value(element.attributes@, name@) {
            Ok(o) => r matches Ok(v) && opt_chars(v) == o,
            Err(m) => r matches Err(e) && e@ == m,
        },
{
    let mut i: usize = 0;
    assert(element.attributes@.skip(0) =~= element.attributes@);
    while i < element.attributes.len()
        invariant
            i <= element.attributes@.len(),
            attribute_value(element.attributes@, name@) == attribute_value(
                element.attributes@.skip(i as int),
                name@,
            ),
        decreases element.attributes@.len() - i,
    {
        assert(element.attributes@.skip(i as int)[0] == element.attributes@[i as int]);
        assert(element.attributes@.skip(i as int).drop_first() =~= element.attributes@.skip(i + 1));
        match &element.attributes[i] {
            XmlAttribute::Malformed(m) => {
                return Err(chars_of(m.as_str()));
            },
            XmlAttribute::Pair { key, value } => {
                if same_bytes(key.as_slice(), name) {
                    return match value {
                        Ok(v) => Ok(Some(chars_of(v.as_str()))),
                        Err(m) => Err(chars_of(m.as_str())),
                    };
                }
            },
        }
        i = i + 1;
    }
    Ok(None)
}

/// Index of the first `c` in `s`.
pub open spec fn index_of(s: Seq<char>, c: char) -> Option<int>
    decreases s.len(),
{
    if s.len() == 0 {
        None
    } else if s[0] == c {
        Some(0)
    } else {
        match index_of(s.drop_first(), c) {
            Some(i) => Some(i + 1),
            None => None,
        }
    }
}

fn find_char(s: &[char], c: char) -> (r: Option<usize>)
    ensures
        r matches Some(i) ==> index_of(s@, c) == Some(i as int) && i < s@.len() && s@[i as int] == c,
        r is None ==> index_of(s@, c) is None,
{
    let mut i: usize = 0;
    assert(s@.skip(0) =~= s@);
    while i < s.len()
        invariant
            i <= s@.len(),
            index_of(s@, c) == (match index_of(s@.skip(i as int), c) {
                Some(k) => Some(k + i),
                None => None::<int>,
            }),
        decreases s@.len() - i,
    {
        assert(s@.skip(i as int)[0] == s@[i as int]);
        assert(s@.skip(i as int).drop_first() =~= s@.skip(i + 1));
        if s[i] == c {
            return Some(i);
        }
        i = i + 1;
    }
    None
}

/// `"<percent> (<covered>/<total>)"`: the branch counts in parentheses. More
/// covered branches than there are is refused, so that branch coverage stays
/// within `0..=1`.
pub open spec fn condition_counts(v: Seq<char>) -> Result<(nat, nat), Seq<char>> {
    let bad = Err::<(nat, nat), Seq<char>>("invalid condition coverage: "@ + v);
    match index_of(v, '(') {
        None => bad,
        Some(i) => {
            let rest = v.skip(i + 1);
            if !(rest.len() > 0 && rest.last() == ')') {
                bad
            } else {
                let counts = rest.drop_last();
                match index_of(counts, '/') {
                    None => bad,
                    Some(k) => match field_number(
                        Some(counts.take(k)),
                        "covered branches"@,
                        u32::MAX as nat,
                    ) {
                        Err(m) => Err(m),
                        Ok(covered) => match field_number(
                            Some(counts.skip(k + 1)),
                            "total branches"@,
                            u32::MAX as nat,
                        ) {
                            Err(m) => Err(m),
                            Ok(total) => if covered > total {
                                bad
                            } else {
                                Ok((covered, total))
                            },
                        },
                    },
                }
            }
        },
    }
}

pub fn parse_condition_coverage(value: &[char]) -> (r: Result<(u32, u32), Vec<char>>)
    ensures
        match condition_counts(value@) {
            Ok(c) => r == Ok::<(u32, u32), Vec<char>>((c.0 as u32, c.1 as u32)),
            Err(m) => r matches Err(e) && e@ == m,
        },
{
    let i = match find_char(value, '(') {
        Some(i) => i,
        None => return Err(bad_condition(value)),
    };
    assert(i < value.len());
    let rest = slice_chars(value, i + 1, value.len());
    assert(rest@ =~= value@.skip(i + 1));
    if !(rest.len() > 0 && rest[rest.len() - 1] == ')') {
        return Err(bad_condition(value));
    }
    let counts = slice_chars(&rest, 0, rest.len() - 1);
    assert(counts@ =~= rest@.drop_last());
    let k = match find_char(&counts, '/') {
        Some(k) => k,
        None => return Err(bad_condition(value)),
    };
    let covered = slice_chars(&counts, 0, k);
    let total = slice_chars(&counts, k + 1, counts.len());
    assert(covered@ =~= counts@.take(k as int));
    assert(total@ =~= counts@.skip(k + 1));
    let c = match parse_field(Some(covered.as_slice()), "covered branches", u32::MAX as u64) {
        Ok(c) => c,
        Err(m) => return Err(m),
    };
    let t = match parse_field(Some(total.as_slice()), "total branches", u32::MAX as u64) {
        Ok(t) => t,
        Err(m) => return Err(m),
    };
    if c > t {
        return Err(bad_condition(value));
    }
    Ok((c as u32, t as u32))
}

fn bad_condition(value: &[char]) -> (m: Vec<char>)
    ensures
        m@ == "invalid condition coverage: "@ + value@,
{
    let mut m = chars_of("invalid condition coverage: ");
    let mut v = slice_chars(value, 0, value.len());
    assert(v@ =~= value@);
    m.append(&mut v);
    m
}

/// Files seen so far and the `filename` of the open `class` element.
pub type CoberturaState = (Map<Seq<char>, Map<u32, LineCoverage>>, Option<Seq<char>>);

/// A `line` element inside a class: its number, hits and optional condition
/// coverage, recorded for the class's (normalized) file.
pub open spec fn cobertura_line(st: CoberturaState, e: XmlElement) -> Result<CoberturaState, Seq<char>> {
    let files = st.0;
    match st.1 {
        None => Ok(st),
        Some(p) => match attribute_value(e.attributes@, ascii("number"@)) {
            Err(m) => Err(m),
            Ok(a) => match field_number(a, "line number"@, u32::MAX as nat) {
                Err(m) => Err(m),
                Ok(n) => match attribute_value(e.attributes@, ascii("hits"@)) {
                    Err(m) => Err(m),
                    Ok(b) => match field_number(b, "line hits"@, u64::MAX as nat) {
                        Err(m) => Err(m),
                        Ok(h) => {
                            let cc = match attribute_value(
                                e.attributes@,
                                ascii("condition-coverage"@),
                            ) {
                                Err(m) => Err(m),
                                Ok(None) => Ok((0nat, 0nat)),
                                Ok(Some(v)) => condition_counts(v),
                            };
                            match cc {
                                Err(m) => Err(m),
                                Ok(c) => {
                                    let np = normalized_path(p);
                                    Ok(
                                        (
                                            files.insert(
                                                np,
                                                with_line(
                                                    file_entry(files, np),
                                                    n as u32,
                                                    LineCoverage {
                                                        hit: h > 0,
                                                        branches_covered: c.0 as u32,
                                                        branches_total: c.1 as u32,
                                                    },
                                                ),
                                            ),
                                            st.1,
                                        ),
                                    )
                                },
                            }
                        },
                    },
                },
            },
        },
    }
}

/// One XML event of a Cobertura report.
pub open spec fn cobertura_step(st: CoberturaState, ev: XmlEvent) -> Result<CoberturaState, Seq<char>> {
    match ev {
        XmlEvent::Start(e) => if e.name@ == ascii("class"@) {
            match attribute_value(e.attributes@, ascii("filename"@)) {
                Err(m) => Err(m),
                Ok(o) => Ok((st.0, o)),
            }
        } else if e.name@ == ascii("line"@) {
            cobertura_line(st, e)
        } else {
            Ok(st)
        },
        XmlEvent::Empty(e) => if e.name@ == ascii("line"@) {
            cobertura_line(st, e)
        } else {
            Ok(st)
        },
        XmlEvent::End(n) => if n@ == ascii("class"@) {
            Ok((st.0, None))
        } else {
            Ok(st)
        },
        XmlEvent::Failed(m) => Err(m@),
        XmlEvent::Other => Ok(st),
    }
}

pub open spec fn cobertura_fold(evs: Seq<XmlEvent>) -> Result<CoberturaState, Seq<char>>
    decreases evs.len(),
{
    if evs.len() == 0 {
        Ok((Map::empty(), None))
    } else {
        match cobertura_fold(evs.drop_last()) {
            Err(m) => Err(m),
            Ok(st) => cobertura_step(st, evs.last()),
        }
    }
}

/// What a Cobertura report, read as XML events, says of each file.
pub open spec fn cobertura_files(evs: Seq<XmlEvent>) -> Result<Map<Seq<char>, Map<u32, LineCoverage>>, Seq<char>> {
    match cobertura_fold(evs) {
        Ok(st) => Ok(st.0),
        Err(m) => Err(m),
    }
}

proof fn lemma_cobertura_error_persists(evs: Seq<XmlEvent>, k: int)
    requires
        0 <= k <= evs.len(),
        cobertura_fold(evs.take(k)) is Err,
    ensures
        cobertura_fold(evs) == cobertura_fold(evs.take(k)),
    decreases evs.len() - k,
{
    if k < evs.len() {
        assert(evs.take(k + 1).drop_last() =~= evs.take(k));
        lemma_cobertura_error_persists(evs, k + 1);
    } else {
        assert(evs.take(k) =~= evs);
    }
}

fn cobertura_line_exec(files: &mut CoverageFiles, current: &Option<Vec<char>>, e: &XmlElement) -> (r: Result<(), Vec<char>>)
    requires
        old(files).wf(),
    ensures
        final(files).wf(),
        match cobertura_line((old(files)@, opt_chars(*current)), *e) {
            Ok(st) => r is Ok && final(files)@ == st.0,
            Err(m) => r matches Err(x) && x@ == m,
        },
{
    let p = match current {
        None => return Ok(()),
        Some(p) => p,
    };
    let a = attribute(e, &ascii_bytes("number"))?;
    let n = parse_field(match &a { Some(v) => Some(v.as_slice()), None => None }, "line number", u32::MAX as u64)?;
    let b = attribute(e, &ascii_bytes("hits"))?;
    let h = parse_field(match &b { Some(v) => Some(v.as_slice()), None => None }, "line hits", u64::MAX)?;
    let cc = attribute(e, &ascii_bytes("condition-coverage"))?;
    let (covered, total) = match &cc {
        None => (0u32, 0u32),
        Some(v) => match parse_condition_coverage(v.as_slice()) {
            Ok(c) => c,
            Err(m) => return Err(m),
        },
    };
    let np = normalize_chars(p);
    files.update(&np, FileUpdate::Line(n as u32, LineCoverage { hit: h > 0, branches_covered: covered, branches_total: total }));
    Ok(())
}

fn cobertura_event(files: &mut CoverageFiles, current: &mut Option<Vec<char>>, ev: &XmlEvent) -> (r: Result<(), Vec<char>>)
    requires
        old(files).wf(),
    ensures
        final(files).wf(),
        match cobertura_step((old(files)@, opt_chars(*old(current))), *ev) {
            Ok(st) => r is Ok && final(files)@ == st.0 && opt_chars(*final(current)) == st.1,
            Err(m) => r matches Err(x) && x@ == m,
        },
{
    let class = ascii_bytes("class");
    let line = ascii_bytes("line");
    match ev {
        XmlEvent::Start(e) => {
            if same_bytes(e.name.as_slice(), class.as_slice()) {
                *current = attribute(e, class_filename().as_slice())?;
                Ok(())
            } else if same_bytes(e.name.as_slice(), line.as_slice()) {
                cobertura_line_exec(files, current, e)
            } else {
                Ok(())
            }
        },
        XmlEvent::Empty(e) => {
            if same_bytes(e.name.as_slice(), line.as_slice()) {
                cobertura_line_exec(files, current, e)
            } else {
                Ok(())
            }
        },
        XmlEvent::End(n) => {
            if same_bytes(n.as_slice(), class.as_slice()) {
                *current = None;
            }
            Ok(())
        },
        XmlEvent::Failed(m) => Err(chars_of(m.as_str())),
        XmlEvent::Other => Ok(()),
    }
}

fn class_filename() -> (v: Vec<u8>)
    ensures
        v@ == ascii("filename"@),
{
    ascii_bytes("filename")
}

/// Parses a Cobertura report, given the XML events its bytes produce.
pub fn parse_cobertura_events(report: &CoverageReport, events: &[XmlEvent]) -> (r: Result<CoverageFiles, CoverageError>)
    ensures
        match cobertura_files(events@) {
            Ok(m) => r matches Ok(f) && f.wf() && f@ == m,
            Err(msg) => r matches Err(e) && invalid_error(e, report.format, report.source@, msg),
        },
{
    let mut files = CoverageFiles::new();
    let mut current: Option<Vec<char>> = None;
    let mut i: usize = 0;
    while i < events.len()
        invariant
            i <= events@.len(),
            files.wf(),
            cobertura_fold(events@.take(i as int)) == Ok::<CoberturaState, Seq<char>>(
                (files@, opt_chars(current)),
            ),
        decreases events@.len() - i,
    {
        assert(events@.take(i + 1).drop_last() =~= events@.take(i as int));
        match cobertura_event(&mut files, &mut current, &events[i]) {
            Ok(()) => {},
            Err(m) => {
                proof {
                    assert(events@.take(i + 1).last() == events@[i as int]);
                    lemma_cobertura_error_persists(events@, i + 1);
                }
                return Err(invalid(report, m));
            },
        }
        i = i + 1;
    }
    assert(events@.take(i as int) =~= events@);
    Ok(files)
}

/// Parses a Cobertura report.
pub fn parse_cobertura(report: &CoverageReport) -> (r: Result<CoverageFiles, CoverageError>)
    ensures
        match cobertura_files(document_events(report.bytes@)) {
            Ok(m) => r matches Ok(f) && f.wf() && f@ == m,
            Err(msg) => r matches Err(e) && invalid_error(e, report.format, report.source@, msg),
        },
{
    let events = xml_events(report.bytes.as_slice());
    proof {
        let document = document_events(report.bytes@);
        if events@.len() < document.len() {
            assert(cobertura_fold(events@) is Err);
            lemma_cobertura_error_persists(document, events@.len() as int);
        } else {
            assert(events@ =~= document);
        }
    }
    parse_cobertura_events(report, events.as_slice())
}

// ---------------------------------------------------------------------------
// Combining reports
// ---------------------------------------------------------------------------
/// Two sets of file coverage combined file by file and line by line.
pub open spec fn merge_file_maps(
    a: Map<Seq<char>, Map<u32, LineCoverage>>,
    b: Map<Seq<char>, Map<u32, LineCoverage>>,
) -> Map<Seq<char>, Map<u32, LineCoverage>> {
    Map::new(
        |p: Seq<char>| a.contains_key(p) || b.contains_key(p),
        |p: Seq<char>| merge_line_maps(file_entry(a, p), file_entry(b, p)),
    )
}

/// What one report says, by its format.
pub open spec fn report_files(r: CoverageReport) -> Result<Map<Seq<char>, Map<u32, LineCoverage>>, Seq<char>> {
    match r.format {
        CoverageFormat::Lcov => lcov_files(r.bytes@),
        CoverageFormat::Cobertura => cobertura_files(document_events(r.bytes@)),
    }
}

/// All reports combined, or the error of the first malformed one (its format,
/// source and message).
pub open spec fn reports_files(rs: Seq<CoverageReport>) -> Result<
    Map<Seq<char>, Map<u32, LineCoverage>>,
    (CoverageFormat, Seq<char>, Seq<char>),
>
    decreases rs.len(),
{
    if rs.len() == 0 {
        Ok(Map::empty())
    } else {
        match reports_files(rs.drop_last()) {
            Err(e) => Err(e),
            Ok(m) => match report_files(rs.last()) {
                Err(msg) => Err((rs.last().format, rs.last().source@, msg)),
                Ok(f) => Ok(merge_file_maps(m, f)),
            },
        }
    }
}

/// Report `k` is the first of `rs` that does not parse.
pub open spec fn first_unparsed(rs: Seq<CoverageReport>, k: int) -> bool {
    &&& 0 <= k < rs.len()
    &&& forall|j: int| 0 <= j < k ==> report_files(#[trigger] rs[j]) is Ok
    &&& report_files(rs[k]) is Err
}

/// The error a report that does not parse is refused with.
pub open spec fn report_error(r: CoverageReport) -> (CoverageFormat, Seq<char>, Seq<char>) {
    (r.format, r.source@, report_files(r)->Err_0)
}

/// Reports combine if and only if every one of them parses; otherwise the
/// error is that of the first report, in order, that does not parse.
pub proof fn law_reports_combine_iff_each_parses(rs: Seq<CoverageReport>)
    ensures
        reports_files(rs) is Ok <==> forall|i: int| 0 <= i < rs.len() ==> report_files(#[trigger] rs[i]) is Ok,
        reports_files(rs) matches Err(e) ==> exists|k: int| #[trigger] first_unparsed(rs, k) && e == report_error(rs[k]),
    decreases rs.len(),
{
    if rs.len() > 0 {
        let init = rs.drop_last();
        law_reports_combine_iff_each_parses(init);
        assert forall|i: int| 0 <= i < init.len() implies init[i] == rs[i] by {}
        match reports_files(init) {
            Err(e) => {
                let k = choose|k: int| #[trigger] first_unparsed(init, k) && e == report_error(init[k]);
                assert(init[k] == rs[k]);
                assert forall|j: int| 0 <= j < k implies report_files(#[trigger] rs[j]) is Ok by {
                    assert(init[j] == rs[j]);
                }
                assert(first_unparsed(rs, k));
            },
            Ok(m) => {
                assert(forall|i: int| 0 <= i < init.len() ==> report_files(#[trigger] init[i]) is Ok);
                assert(rs[rs.len() - 1] == rs.last());
                if report_files(rs.last()) is Ok {
                    assert forall|i: int| 0 <= i < rs.len() implies report_files(#[trigger] rs[i]) is Ok by {
                        if i < init.len() {
                            assert(init[i] == rs[i]);
                        }
                    }
                } else {
                    let k = rs.len() - 1;
                    assert forall|j: int| 0 <= j < k implies report_files(#[trigger] rs[j]) is Ok by {
                        assert(init[j] == rs[j]);
                    }
                    assert(first_unparsed(rs, k));
                }
            },
        }
    }
}

proof fn lemma_merge_line_maps_empty(x: Map<u32, LineCoverage>)
    ensures
        merge_line_maps(x, Map::empty()) == x,
        merge_line_maps(Map::empty(), x) == x,
{
    assert(merge_line_maps(x, Map::empty()) =~= x);
    assert(merge_line_maps(Map::empty(), x) =~= x);
}

proof fn lemma_merge_file_maps_step(
    a: Map<Seq<char>, Map<u32, LineCoverage>>,
    m: Map<Seq<char>, Map<u32, LineCoverage>>,
    p: Seq<char>,
    c: Map<u32, LineCoverage>,
)
    requires
        !m.contains_key(p),
    ensures
        merge_file_maps(a, m.insert(p, c)) == merge_file_maps(a, m).insert(
            p,
            merge_line_maps(file_entry(merge_file_maps(a, m), p), c),
        ),
{
    lemma_merge_line_maps_empty(file_entry(a, p));
    assert(merge_file_maps(a, m.insert(p, c)) =~= merge_file_maps(a, m).insert(
        p,
        merge_line_maps(file_entry(merge_file_maps(a, m), p), c),
    ));
}

/// Adds every file of `parsed` to `files`, combining the coverage of a path
/// that both hold.
fn merge_files(files: &mut CoverageFiles, parsed: CoverageFiles)
    requires
        old(files).wf(),
        parsed.wf(),
    ensures
        final(files).wf(),
        final(files)@ == merge_file_maps(old(files)@, parsed@),
{
    let ghost start = files@;
    let ghost ps = parsed.entries@;
    let mut parsed = parsed;
    proof {
        lemma_sorted_distinct(ps);
        assert(files_seq(ps.take(0)) =~= Seq::empty());
        assert forall|q: Seq<char>| start.contains_key(q) implies merge_file_maps(start, Map::empty())[q]
            == start[q] by {
            lemma_merge_line_maps_empty(start[q]);
        }
        assert(merge_file_maps(start, seq_map(files_seq(ps.take(0)))) =~= start);
        assert(ps.skip(0) =~= ps);
    }
    let n: usize = parsed.entries.len();
    let mut k: usize = 0;
    while parsed.entries.len() > 0
        invariant
            k <= ps.len(),
            ps.len() == n,
            k + parsed.entries@.len() == ps.len(),
            keys_distinct(files_seq(ps)),
            forall|x: int| 0 <= x < ps.len() ==> (#[trigger] ps[x]).1.wf(),
            parsed.entries@ == ps.skip(k as int),
            files.wf(),
            files@ == merge_file_maps(start, seq_map(files_seq(ps.take(k as int)))),
        decreases parsed.entries@.len(),
    {
        let (path, f) = parsed.entries.remove(0);
        proof {
            assert(ps.skip(k as int)[0] == ps[k as int]);
            assert(ps.skip(k as int).drop_first() =~= ps.skip(k + 1));
            let prefix = files_seq(ps.take(k as int));
            assert(files_seq(ps.take(k + 1)) =~= prefix.push((path@, f@)));
            assert(prefix.push((path@, f@)).drop_last() =~= prefix);
            assert(keys_distinct(prefix)) by {
                assert forall|a: int, b: int|
                    0 <= a < prefix.len() && 0 <= b < prefix.len() && a != b implies prefix[a].0
                    != prefix[b].0 by {
                    assert(prefix[a] == files_seq(ps)[a] && prefix[b] == files_seq(ps)[b]);
                }
            }
            lemma_seq_map(prefix);
            assert(!has_key(prefix, path@)) by {
                if has_key(prefix, path@) {
                    let y = choose|y: int| 0 <= y < prefix.len() && prefix[y].0 == path@;
                    assert(files_seq(ps)[y].0 == files_seq(ps)[k as int].0);
                }
            }
            lemma_merge_file_maps_step(start, seq_map(prefix), path@, f@);
        }
        let p = chars_of(path.as_str());
        files.update(&p, FileUpdate::Merge(f));
        k = k + 1;
    }
    proof {
        assert(ps.take(k as int) =~= ps);
    }
}

/// Coverage evidence parsed from all reports, ready to be matched against code
/// entities.
#[derive(Debug, Clone)]
pub struct CodeCoverageDeriver {
    pub files: CoverageFiles,
    pub sources: Vec<String>,
    pub lcov: bool,
    pub cobertura: bool,
}

/// What combining the reports `rs` gives: the merged coverage of their files,
/// their sources in order and which formats occur; or the error of the first
/// report that does not parse.
pub open spec fn combined(rs: Seq<CoverageReport>, r: Result<CodeCoverageDeriver, CoverageError>) -> bool {
    match reports_files(rs) {
        Ok(m) => r matches Ok(d) && d.wf() && d.files@ == m
            && d.sources@.len() == rs.len()
            && (forall|i: int| 0 <= i < rs.len() ==> #[trigger] d.sources@[i]@ == rs[i].source@)
            && d.lcov == (exists|i: int| 0 <= i < rs.len() && #[trigger] rs[i].format == CoverageFormat::Lcov)
            && d.cobertura == (exists|i: int| 0 <= i < rs.len() && #[trigger] rs[i].format == CoverageFormat::Cobertura),
        Err(e) => r matches Err(x) && invalid_error(x, e.0, e.1, e.2),
    }
}

/// A coverage report file as the host read it: where it is, and its bytes or
/// why they could not be read.
pub struct ReadReport {
    pub path: String,
    pub contents: Result<Vec<u8>, String>,
}

/// A file that was read and whose format is recognised.
pub open spec fn usable(x: ReadReport) -> bool {
    x.contents matches Ok(b) && detected_format(b@) is Some
}

/// The report a usable file gives.
pub open spec fn read_report(x: ReadReport) -> CoverageReport {
    CoverageReport { format: detected_format(x.contents->Ok_0@)->Some_0, source: x.path, bytes: x.contents->Ok_0 }
}

/// File `k` is the first of `reads` that cannot be used.
pub open spec fn first_unusable(reads: Seq<ReadReport>, k: int) -> bool {
    &&& 0 <= k < reads.len()
    &&& forall|j: int| 0 <= j < k ==> usable(#[trigger] reads[j])
    &&& !usable(reads[k])
}

/// The error a file that cannot be used is refused with: why it could not be
/// read, or that its format is unknown.
pub open spec fn unusable_error(x: ReadReport, e: CoverageError) -> bool {
    match x.contents {
        Err(m) => e matches CoverageError::Read { path, error } && path@ == x.path@ && error@ == m@,
        Ok(_) => e matches CoverageError::UnknownFormat(p) && p@ == x.path@,
    }
}

impl CodeCoverageDeriver {
    pub open spec fn wf(&self) -> bool {
        self.files.wf()
    }

    /// Combines the coverage of report files read in order: the first file
    /// that could not be read, or whose format is unknown, refuses the whole
    /// set with its error; otherwise the reports are combined as
    /// `from_reports` does.
    pub fn from_reads(reads: Vec<ReadReport>) -> (r: Result<Self, CoverageError>)
        ensures
            forall|k: int| #[trigger] first_unusable(reads@, k) ==> (r matches Err(e) && unusable_error(reads@[k], e)),
            (forall|i: int| 0 <= i < reads@.len() ==> usable(#[trigger] reads@[i])) ==> combined(
                reads@.map_values(|x: ReadReport| read_report(x)),
                r,
            ),
    {
        let ghost all = reads@;
        let n = reads.len();
        let mut rest = reads;
        let mut reports: Vec<CoverageReport> = Vec::new();
        let mut i: usize = 0;
        while rest.len() > 0
            invariant
                all == reads@,
                all.len() == n,
                i + rest@.len() == all.len(),
                rest@ == all.skip(i as int),
                reports@ == all.take(i as int).map_values(|x: ReadReport| read_report(x)),
                forall|j: int| 0 <= j < i ==> usable(#[trigger] all[j]),
            decreases rest@.len(),
        {
            let x = rest.remove(0);
            assert(x == all[i as int]);
            let ReadReport { path, contents } = x;
            match contents {
                Err(error) => {
                    proof {
                        assert(first_unusable(all, i as int));
                        assert forall|k: int| #[trigger] first_unusable(all, k) implies k == i by {
                            if k < i {
                                assert(usable(all[k]));
                            }
                            if k > i {
                                assert(usable(all[i as int]));
                            }
                        }
                    }
                    let e = CoverageError::Read { path, error };
                    assert(!usable(all[i as int]));
                    assert(unusable_error(all[i as int], e));
                    return Err(e);
                },
                Ok(bytes) => {
                    match detect_format(path.as_str(), &bytes) {
                        Err(e) => {
                            proof {
                                assert(first_unusable(all, i as int));
                                assert forall|k: int| #[trigger] first_unusable(all, k) implies k == i by {
                                    if k < i {
                                        assert(usable(all[k]));
                                    }
                                    if k > i {
                                        assert(usable(all[i as int]));
                                    }
                                }
                            }
                            assert(!usable(all[i as int]));
                            assert(unusable_error(all[i as int], e));
                            return Err(e);
                        },
                        Ok(format) => {
                            let report = CoverageReport { format, source: path, bytes };
                            assert(report == read_report(all[i as int]));
                            reports.push(report);
                            proof {
                                assert(all.take(i + 1) =~= all.take(i as int).push(all[i as int]));
                                assert(rest@ =~= all.skip(i + 1));
                            }
                            i = i + 1;
                            assert(reports@ =~= all.take(i as int).map_values(|x: ReadReport| read_report(x)));
                        },
                    }
                },
            }
        }
        proof {
            assert(all.take(i as int) =~= all);
            assert forall|k: int| #[trigger] first_unusable(all, k) implies false by {
                assert(usable(all[k]));
            }
        }
        Self::from_reports(&reports)
    }

    /// Parses every report and combines their coverage.
    pub fn from_reports(reports: &Vec<CoverageReport>) -> (r: Result<Self, CoverageError>)
        ensures
            combined(reports@, r),
    {
        let mut files = CoverageFiles::new();
        let mut sources: Vec<String> = Vec::new();
        let mut lcov = false;
        let mut cobertura = false;
        let mut i: usize = 0;
        while i < reports.len()
            invariant
                i <= reports@.len(),
                files.wf(),
                reports_files(reports@.take(i as int)) == Ok::<Map<Seq<char>, Map<u32, LineCoverage>>, (CoverageFormat, Seq<char>, Seq<char>)>(files@),
                sources@.len() == i,
                forall|k: int| 0 <= k < i ==> #[trigger] sources@[k]@ == reports@[k].source@,
                lcov == (exists|k: int| 0 <= k < i && #[trigger] reports@[k].format == CoverageFormat::Lcov),
                cobertura == (exists|k: int| 0 <= k < i && #[trigger] reports@[k].format == CoverageFormat::Cobertura),
            decreases reports@.len() - i,
        {
            let report = &reports[i];
            assert(reports@.take(i + 1).drop_last() =~= reports@.take(i as int));
            assert(reports@.take(i + 1).last() == reports@[i as int]);
            let parsed = match report.format {
                CoverageFormat::Lcov => parse_lcov(report),
                CoverageFormat::Cobertura => parse_cobertura(report),
            };
            let parsed = match parsed {
                Ok(p) => p,
                Err(e) => {
                    proof {
                        lemma_reports_error_persists(reports@, i + 1);
                    }
                    return Err(e);
                },
            };
            merge_files(&mut files, parsed);
            sources.push(report.source.clone());
            match report.format {
                CoverageFormat::Lcov => lcov = true,
                CoverageFormat::Cobertura => cobertura = true,
            }
            i = i + 1;
        }
        assert(reports@.take(i as int) =~= reports@);
        Ok(CodeCoverageDeriver { files, sources, lcov, cobertura })
    }
}

proof fn lemma_reports_error_persists(rs: Seq<CoverageReport>, k: int)
    requires
        0 <= k <= rs.len(),
        reports_files(rs.take(k)) is Err,
    ensures
        reports_files(rs) == reports_files(rs.take(k)),
    decreases rs.len() - k,
{
    if k < rs.len() {
        assert(rs.take(k + 1).drop_last() =~= rs.take(k));
        lemma_reports_error_persists(rs, k + 1);
    } else {
        assert(rs.take(k) =~= rs);
    }
}
// ---------------------------------------------------------------------------
// Matching code entities
// ---------------------------------------------------------------------------
/// `s` ends with `p`.
pub open spec fn has_suffix(s: Seq<char>, p: Seq<char>) -> bool {
    p.len() <= s.len() && s.skip(s.len() - p.len()) == p
}

/// A report path and an entity path name the same file when one ends with
/// the other below a directory.
pub open spec fn paths_match(report_path: Seq<char>, entity_path: Seq<char>) -> bool {
    has_suffix(report_path, seq!['/'] + entity_path) || has_suffix(entity_path, seq!['/'] + report_path)
}

/// The report path that covers an entity's file: the normalized path itself
/// when a report has it, else the only report path that matches it.
pub open spec fn covering_path(files: Map<Seq<char>, Map<u32, LineCoverage>>, entity_path: Seq<char>) -> Option<Seq<char>> {
    let n = normalized_path(entity_path);
    if files.contains_key(n) {
        Some(n)
    } else if exists|k: Seq<char>| #[trigger] files.contains_key(k) && paths_match(k, n) && forall|o: Seq<char>|
        #[trigger] files.contains_key(o) && paths_match(o, n) ==> o == k {
        Some(choose|k: Seq<char>| #[trigger] files.contains_key(k) && paths_match(k, n) && forall|o: Seq<char>|
            #[trigger] files.contains_key(o) && paths_match(o, n) ==> o == k)
    } else {
        None
    }
}

fn ends_with_below(s: &[char], p: &[char]) -> (b: bool)
    ensures
        b == has_suffix(s@, seq!['/'] + p@),
{
    let mut q: Vec<char> = Vec::new();
    q.push('/');
    append_chars(&mut q, p);
    assert(q@ =~= seq!['/'] + p@);
    if q.len() > s.len() {
        return false;
    }
    let r = crate::text::occurs_at_exec(s, &q, s.len() - q.len());
    assert(s@.subrange(s@.len() - q@.len(), s@.len() as int) =~= s@.skip(s@.len() - q@.len()));
    r
}

/// The counts of the recorded lines in `start..=end` of one file.
#[derive(Debug, Clone, Copy, PartialEq, Eq)]
pub struct RangeCounts {
    pub lines: u32,
    pub covered_lines: u32,
    pub branches_covered: u64,
    pub branches_total: u64,
}

/// The recorded lines of `s` in `start..=end`.
pub open spec fn lines_in(s: Seq<(u32, LineCoverage)>, start: u32, end: u32) -> Seq<LineCoverage>
    decreases s.len(),
{
    if s.len() == 0 {
        Seq::empty()
    } else if start <= s.last().0 && s.last().0 <= end {
        lines_in(s.drop_last(), start, end).push(s.last().1)
    } else {
        lines_in(s.drop_last(), start, end)
    }
}

pub open spec fn hits(s: Seq<LineCoverage>) -> nat
    decreases s.len(),
{
    if s.len() == 0 {
        0
    } else {
        hits(s.drop_last()) + if s.last().hit {
            1nat
        } else {
            0nat
        }
    }
}

pub open spec fn covered_sum(s: Seq<LineCoverage>) -> nat
    decreases s.len(),
{
    if s.len() == 0 {
        0
    } else {
        covered_sum(s.drop_last()) + (s.last().branches_covered as nat)
    }
}

pub open spec fn total_sum(s: Seq<LineCoverage>) -> nat
    decreases s.len(),
{
    if s.len() == 0 {
        0
    } else {
        total_sum(s.drop_last()) + (s.last().branches_total as nat)
    }
}

proof fn lemma_range_bounds(s: Seq<LineCoverage>)
    ensures
        hits(s) <= s.len(),
        covered_sum(s) <= s.len() * (u32::MAX as nat),
        total_sum(s) <= s.len() * (u32::MAX as nat),
    decreases s.len(),
{
    if s.len() > 0 {
        lemma_range_bounds(s.drop_last());
        assert((s.len() - 1) * (u32::MAX as nat) + u32::MAX == s.len() * (u32::MAX as nat)) by (nonlinear_arith);
    }
}

proof fn lemma_lines_in_len(s: Seq<(u32, LineCoverage)>, start: u32, end: u32)
    ensures
        lines_in(s, start, end).len() <= s.len(),
    decreases s.len(),
{
    if s.len() > 0 {
        lemma_lines_in_len(s.drop_last(), start, end);
    }
}

/// The counts over the recorded lines of a file in `start..=end`: `None`
/// when there is none, or more than a `u32` can count.
pub open spec fn range_spec(s: Seq<(u32, LineCoverage)>, start: u32, end: u32) -> Option<RangeCounts> {
    let l = lines_in(s, start, end);
    if l.len() == 0 || l.len() > u32::MAX {
        None
    } else {
        Some(RangeCounts {
            lines: l.len() as u32,
            covered_lines: hits(l) as u32,
            branches_covered: covered_sum(l) as u64,
            branches_total: total_sum(l) as u64,
        })
    }
}

/// Counts the recorded lines of a file in `start..=end`, how many of them
/// ran, and their branches.
pub fn range_counts(coverage: &FileCoverage, start: u32, end: u32) -> (r: Option<RangeCounts>)
    ensures
        r == range_spec(coverage.lines@, start, end),
{
    let ghost s = coverage.lines@;
    let mut n: u64 = 0;
    let mut i: usize = 0;
    proof {
        lemma_lines_in_len(s, start, end);
    }
    while i < coverage.lines.len()
        invariant
            i <= s.len(),
            s == coverage.lines@,
            n == lines_in(s.take(i as int), start, end).len(),
            n <= i,
        decreases s.len() - i,
    {
        assert(s.take(i + 1).drop_last() =~= s.take(i as int));
        let (k, _) = coverage.lines[i];
        if start <= k && k <= end {
            n = n + 1;
        }
        proof {
            lemma_lines_in_len(s.take(i + 1), start, end);
        }
        i = i + 1;
    }
    assert(s.take(i as int) =~= s);
    if n == 0 || n > u32::MAX as u64 {
        return None;
    }
    let mut covered: u32 = 0;
    let mut bc: u64 = 0;
    let mut bt: u64 = 0;
    let mut m: u64 = 0;
    let mut i: usize = 0;
    while i < coverage.lines.len()
        invariant
            i <= s.len(),
            s == coverage.lines@,
            n == lines_in(s, start, end).len(),
            n <= u32::MAX,
            m == lines_in(s.take(i as int), start, end).len(),
            covered == hits(lines_in(s.take(i as int), start, end)),
            bc == covered_sum(lines_in(s.take(i as int), start, end)),
            bt == total_sum(lines_in(s.take(i as int), start, end)),
            m <= n,
        decreases s.len() - i,
    {
        let ghost before = lines_in(s.take(i as int), start, end);
        assert(s.take(i + 1).drop_last() =~= s.take(i as int));
        proof {
            lemma_range_bounds(before);
            lemma_lines_in_prefix_le(s, i + 1, start, end);
        }
        let (k, c) = coverage.lines[i];
        if start <= k && k <= end {
            proof {
                assert(lines_in(s.take(i + 1), start, end) == before.push(c));
                assert(before.push(c).drop_last() =~= before);
                assert(m + 1 <= n);
                assert(m * (u32::MAX as nat) + u32::MAX <= (u32::MAX as nat) * (u32::MAX as nat)) by (nonlinear_arith)
                    requires
                        m + 1 <= n,
                        n <= u32::MAX,
                ;
            }
            if c.hit {
                covered = covered + 1;
            }
            bc = bc + c.branches_covered as u64;
            bt = bt + c.branches_total as u64;
            m = m + 1;
        }
        i = i + 1;
    }
    assert(s.take(i as int) =~= s);
    Some(RangeCounts { lines: n as u32, covered_lines: covered, branches_covered: bc, branches_total: bt })
}

proof fn lemma_lines_in_prefix_le(s: Seq<(u32, LineCoverage)>, k: int, start: u32, end: u32)
    requires
        0 <= k <= s.len(),
    ensures
        lines_in(s.take(k), start, end).len() <= lines_in(s, start, end).len(),
    decreases s.len() - k,
{
    if k < s.len() {
        lemma_lines_in_prefix_le(s, k + 1, start, end);
        assert(s.take(k + 1).drop_last() =~= s.take(k));
    } else {
        assert(s.take(k) =~= s);
    }
}

/// The position of the last entry recorded under `path`, or -1.
pub open spec fn entry_index(entries: Seq<(String, FileCoverage)>, path: Seq<char>) -> int
    decreases entries.len(),
{
    if entries.len() == 0 {
        -1
    } else if entries.last().0@ == path {
        entries.len() - 1
    } else {
        entry_index(entries.drop_last(), path)
    }
}

/// The coverage of the file recorded under `path`.
pub open spec fn entry_lines(entries: Seq<(String, FileCoverage)>, path: Seq<char>) -> Seq<(u32, LineCoverage)> {
    entries[entry_index(entries, path)].1.lines@
}

/// What the coverage evidence says of one entity: the report path of its
/// file and the counts over its lines, for a code entity with a file path
/// and a first line (its last line defaulting to the first).
pub open spec fn entity_coverage(d: CodeCoverageDeriver, o: EntityObservation) -> Option<(Seq<char>, RangeCounts)> {
    if o.entity.model@ != "code"@ {
        None
    } else {
        match (text_value(o.attributes.get_spec("file_path"@)), u32_value(o.attributes.get_spec("line_start"@))) {
            (Some(path), Some(start)) => {
                let end = match u32_value(o.attributes.get_spec("line_end"@)) {
                    Some(e) => e,
                    None => start,
                };
                match covering_path(d.files@, path) {
                    None => None,
                    Some(k) => match range_spec(entry_lines(d.files.entries@, k), start, end) {
                        None => None,
                        Some(c) => Some((k, c)),
                    },
                }
            },
            _ => None,
        }
    }
}

/// The formats read, in name order, joined by `+`, then `-range-v1`.
pub open spec fn digest_spec(lcov: bool, cobertura: bool) -> Seq<char> {
    (if cobertura && lcov {
        "cobertura+lcov"@
    } else if cobertura {
        "cobertura"@
    } else if lcov {
        "lcov"@
    } else {
        Seq::empty()
    }) + "-range-v1"@
}

/// Strings joined with a separator.
pub open spec fn joined(v: Seq<Seq<char>>, sep: Seq<char>) -> Seq<char>
    decreases v.len(),
{
    if v.len() == 0 {
        Seq::empty()
    } else if v.len() == 1 {
        v[0]
    } else {
        joined(v.drop_last(), sep) + sep + v.last()
    }
}

pub fn join_strings(v: &Vec<String>, sep: &str) -> (r: String)
    ensures
        r@ == joined(v@.map_values(|s: String| s@), sep@),
{
    let ghost vs = v@.map_values(|s: String| s@);
    let mut out: Vec<char> = Vec::new();
    let mut i: usize = 0;
    while i < v.len()
        invariant
            i <= v@.len(),
            vs == v@.map_values(|s: String| s@),
            out@ == joined(vs.take(i as int), sep@),
        decreases v@.len() - i,
    {
        assert(vs.take(i + 1).drop_last() =~= vs.take(i as int));
        if i > 0 {
            append_chars(&mut out, &chars_of(sep));
        } else {
            assert(out@ =~= Seq::<char>::empty());
        }
        append_chars(&mut out, &chars_of(v[i].as_str()));
        proof {
            if i == 0 {
                assert(vs.take(1) =~= seq![vs[0]]);
                assert(Seq::<char>::empty() + vs[0] =~= vs[0]);
            }
        }
        i = i + 1;
    }
    assert(vs.take(i as int) =~= vs);
    string_of(&out)
}

/// What applying the coverage evidence to a batch of entities amounts to:
/// which entities get line and branch coverage, from which counts; which
/// report files matched no entity; and the provenance of the evidence.
#[derive(Debug, Clone, PartialEq, Eq)]
pub struct CoveragePlan {
    /// The position of each covered entity, with its counts.
    pub matches: Vec<(usize, RangeCounts)>,
    /// The report paths, in order, that matched no entity.
    pub unmatched_files: Vec<String>,
    pub configuration_digest: String,
    pub source: String,
}

/// The evidence `c` is about the report path `k`.
pub open spec fn covers(c: Option<(Seq<char>, RangeCounts)>, k: Seq<char>) -> bool {
    match c {
        Some((x, _)) => x == k,
        None => false,
    }
}

/// The report paths of `keys` that no entity matched, in order.
pub open spec fn unmatched(keys: Seq<Seq<char>>, d: CodeCoverageDeriver, ents: Seq<EntityObservation>) -> Seq<Seq<char>>
    decreases keys.len(),
{
    if keys.len() == 0 {
        keys
    } else if exists|i: int| 0 <= i < ents.len() && covers(#[trigger] entity_coverage(d, ents[i]), keys.last()) {
        unmatched(keys.drop_last(), d, ents)
    } else {
        unmatched(keys.drop_last(), d, ents).push(keys.last())
    }
}

pub open spec fn entry_keys(entries: Seq<(String, FileCoverage)>) -> Seq<Seq<char>> {
    entries.map_values(|p: (String, FileCoverage)| p.0@)
}

proof fn lemma_entry_index(entries: Seq<(String, FileCoverage)>, i: int)
    requires
        keys_distinct(files_seq(entries)),
        0 <= i < entries.len(),
    ensures
        entry_index(entries, entries[i].0@) == i,
    decreases entries.len(),
{
    let k = entries[i].0@;
    if i < entries.len() - 1 {
        let t = entries.drop_last();
        assert(files_seq(entries)[i].0 != files_seq(entries)[entries.len() - 1].0);
        assert(keys_distinct(files_seq(t))) by {
            assert forall|a: int, b: int| 0 <= a < files_seq(t).len() && 0 <= b < files_seq(t).len() && a != b implies files_seq(t)[a].0 != files_seq(t)[b].0 by {
                assert(files_seq(t)[a] == files_seq(entries)[a] && files_seq(t)[b] == files_seq(entries)[b]);
            }
        }
        assert(t[i] == entries[i]);
        lemma_entry_index(t, i);
    }
}

impl CodeCoverageDeriver {
    /// The entry of the report file that covers an entity's file: the
    /// normalized path itself when a report has it, else the only report path
    /// that ends with it below a directory, or that it ends with.
    pub fn file(&self, entity_path: &str) -> (r: Option<usize>)
        requires
            self.wf(),
        ensures
            match covering_path(self.files@, entity_path@) {
                Some(k) => r matches Some(i) && i < self.files.entries@.len() && self.files.entries@[i as int].0@ == k,
                None => r is None,
            },
    {
        let ghost entries = self.files.entries@;
        let ghost fs = files_seq(entries);
        proof {
            lemma_sorted_distinct(entries);
            lemma_seq_map(fs);
        }
        let n = normalize_chars(&chars_of(entity_path));
        let mut i: usize = 0;
        while i < self.files.entries.len()
            invariant
                i <= entries.len(),
                entries == self.files.entries@,
                fs == files_seq(entries),
                keys_distinct(fs),
                n@ == normalized_path(entity_path@),
                forall|j: int| 0 <= j < i ==> (#[trigger] entries[j]).0@ != n@,
            decreases entries.len() - i,
        {
            let key = chars_of(self.files.entries[i].0.as_str());
            if same_chars(&key, &n) {
                proof {
                    lemma_seq_map(fs);
                    assert(fs[i as int].0 == n@);
                    assert(has_key(fs, n@));
                    assert(seq_map(fs).contains_key(n@));
                    assert(self.files@.contains_key(n@));
                    assert(n@ == normalized_path(entity_path@));
                    assert(covering_path(self.files@, entity_path@) == Some(n@));
                    assert(self.files.entries@[i as int].0@ == n@);
                }
                return Some(i);
            }
            i = i + 1;
        }
        assert(!self.files@.contains_key(n@)) by {
            if has_key(fs, n@) {
                let j = choose|j: int| 0 <= j < fs.len() && fs[j].0 == n@;
                assert(entries[j].0@ == n@);
            }
        }
        let mut first: Option<usize> = None;
        let mut second: Option<usize> = None;
        let mut j: usize = 0;
        while j < self.files.entries.len()
            invariant
                j <= entries.len(),
                entries == self.files.entries@,
                match first {
                    None => forall|x: int| 0 <= x < j ==> !paths_match(#[trigger] entries[x].0@, n@),
                    Some(a) => a < j && paths_match(entries[a as int].0@, n@) && (forall|x: int| 0 <= x < a ==> !paths_match(#[trigger] entries[x].0@, n@))
                        && match second {
                            None => forall|x: int| a < x < j ==> !paths_match(#[trigger] entries[x].0@, n@),
                            Some(b) => a < b < j && paths_match(entries[b as int].0@, n@),
                        },
                },
                first is None ==> second is None,
            decreases entries.len() - j,
        {
            let key = chars_of(self.files.entries[j].0.as_str());
            if ends_with_below(&key, &n) || ends_with_below(&n, &key) {
                if first.is_none() {
                    first = Some(j);
                } else if second.is_none() {
                    second = Some(j);
                }
            }
            j = j + 1;
        }
        proof {
            assert forall|k: Seq<char>| #[trigger] self.files@.contains_key(k) implies exists|x: int| 0 <= x < entries.len() && entries[x].0@ == k by {
                assert(has_key(fs, k));
                let x = choose|x: int| 0 <= x < fs.len() && fs[x].0 == k;
                assert(entries[x].0@ == k);
            }
        }
        match (first, second) {
            (Some(a), None) => {
                proof {
                    let k = entries[a as int].0@;
                    assert(has_key(fs, k)) by {
                        assert(fs[a as int].0 == k);
                    }
                    assert forall|o: Seq<char>| #[trigger] self.files@.contains_key(o) && paths_match(o, n@) implies o == k by {
                        let x = choose|x: int| 0 <= x < entries.len() && entries[x].0@ == o;
                        if x != a {
                            assert(!paths_match(entries[x].0@, n@));
                        }
                    }
                    let c = choose|c: Seq<char>| #[trigger] self.files@.contains_key(c) && paths_match(c, n@) && forall|o: Seq<char>|
                        #[trigger] self.files@.contains_key(o) && paths_match(o, n@) ==> o == c;
                    assert(self.files@.contains_key(k) && paths_match(k, n@));
                }
                Some(a)
            },
            (Some(a), Some(b)) => {
                proof {
                    let ka = entries[a as int].0@;
                    let kb = entries[b as int].0@;
                    assert(fs[a as int].0 == ka && fs[b as int].0 == kb);
                    assert(ka != kb);
                    assert(has_key(fs, ka) && has_key(fs, kb));
                    assert forall|k: Seq<char>| #[trigger] self.files@.contains_key(k) && paths_match(k, n@) implies !(forall|o: Seq<char>|
                        #[trigger] self.files@.contains_key(o) && paths_match(o, n@) ==> o == k) by {
                        if k == ka {
                            assert(self.files@.contains_key(kb) && paths_match(kb, n@));
                        } else {
                            assert(self.files@.contains_key(ka) && paths_match(ka, n@));
                        }
                    }
                }
                None
            },
            _ => {
                proof {
                    assert forall|k: Seq<char>| #[trigger] self.files@.contains_key(k) implies !paths_match(k, n@) by {
                        let x = choose|x: int| 0 <= x < entries.len() && entries[x].0@ == k;
                    }
                }
                None
            },
        }
    }

    /// The formats read, in name order, joined by `+`, then `-range-v1`.
    pub fn configuration_digest(&self) -> (s: String)
        ensures
            s@ == digest_spec(self.lcov, self.cobertura),
    {
        let mut d = if self.cobertura && self.lcov {
            chars_of("cobertura+lcov")
        } else if self.cobertura {
            chars_of("cobertura")
        } else if self.lcov {
            chars_of("lcov")
        } else {
            Vec::new()
        };
        append_chars(&mut d, &chars_of("-range-v1"));
        string_of(&d)
    }
}

/// The entities of `ents` covered by the evidence are listed in `matches`,
/// in order, each with its counts.
pub open spec fn plan_matches(d: CodeCoverageDeriver, ents: Seq<EntityObservation>, matches: Seq<(usize, RangeCounts)>) -> bool {
    &&& forall|x: int| 0 <= x < matches.len() ==> (#[trigger] matches[x]).0 < ents.len()
        && (entity_coverage(d, ents[matches[x].0 as int]) matches Some((_, c)) && c == matches[x].1)
    &&& forall|x: int, y: int| 0 <= x < y < matches.len() ==> (#[trigger] matches[x]).0 < (#[trigger] matches[y]).0
    &&& forall|i: int| 0 <= i < ents.len() && (#[trigger] entity_coverage(d, ents[i])) is Some ==> exists|x: int|
        0 <= x < matches.len() && matches[x].0 == i
}

impl CodeCoverageDeriver {
    /// What applying the evidence to a batch of entities amounts to: the
    /// counts for each code entity whose file and line range the reports
    /// cover, the report files that matched no entity, and the provenance.
    pub fn plan(&self, entities: &[EntityObservation]) -> (r: CoveragePlan)
        requires
            self.wf(),
            forall|i: int| 0 <= i < entities@.len() ==> (#[trigger] entities@[i]).wf(),
        ensures
            plan_matches(*self, entities@, r.matches@),
            r.unmatched_files@.map_values(|f: String| f@) == unmatched(entry_keys(self.files.entries@), *self, entities@),
            r.configuration_digest@ == digest_spec(self.lcov, self.cobertura),
            r.source@ == joined(self.sources@.map_values(|f: String| f@), ","@),
    {
        let ghost entries = self.files.entries@;
        proof {
            lemma_sorted_distinct(entries);
        }
        let mut matches: Vec<(usize, RangeCounts)> = Vec::new();
        // The entry each covered entity matched, by position in `matches`.
        let mut matched_entries: Vec<usize> = Vec::new();
        let mut i: usize = 0;
        while i < entities.len()
            invariant
                i <= entities@.len(),
                self.wf(),
                entries == self.files.entries@,
                keys_distinct(files_seq(entries)),
                forall|k: int| 0 <= k < entities@.len() ==> (#[trigger] entities@[k]).wf(),
                matched_entries@.len() == matches@.len(),
                forall|x: int| 0 <= x < matches@.len() ==> (#[trigger] matches@[x]).0 < i
                    && (entity_coverage(*self, entities@[matches@[x].0 as int]) matches Some((k, c)) && c == matches@[x].1
                        && matched_entries@[x] < entries.len() && entries[matched_entries@[x] as int].0@ == k),
                forall|x: int, y: int| 0 <= x < y < matches@.len() ==> (#[trigger] matches@[x]).0 < (#[trigger] matches@[y]).0,
                forall|k: int| 0 <= k < i && (#[trigger] entity_coverage(*self, entities@[k])) is Some ==> exists|x: int|
                    0 <= x < matches@.len() && matches@[x].0 == k,
            decreases entities@.len() - i,
        {
            let o = &entities[i];
            let ghost c = entity_coverage(*self, entities@[i as int]);
            proof {
                reveal_strlit("code");
            }
            let is_code = o.entity.model.0 == "code".to_owned();
            let mut found: Option<(usize, RangeCounts)> = None;
            if is_code {
                let path = match o.attributes.get("file_path") {
                    Some(v) => v.as_text(),
                    None => None,
                };
                let start = crate::query_code::u32_attribute(&o.attributes, "line_start");
                match (path, start) {
                    (Some(path), Some(start)) => {
                        let end = match crate::query_code::u32_attribute(&o.attributes, "line_end") {
                            Some(e) => e,
                            None => start,
                        };
                        match self.file(path) {
                            Some(e) => {
                                proof {
                                    lemma_entry_index(entries, e as int);
                                }
                                match range_counts(&self.files.entries[e].1, start, end) {
                                    Some(counts) => {
                                        found = Some((e, counts));
                                    },
                                    None => {},
                                }
                            },
                            None => {},
                        }
                    },
                    _ => {},
                }
            }
            assert(found matches Some((e, counts)) ==> c == Some((entries[e as int].0@, counts)) && e < entries.len());
            assert(found is None ==> c is None);
            if let Some((e, counts)) = found {
                let ghost before = matches@;
                let ghost before_e = matched_entries@;
                matches.push((i, counts));
                matched_entries.push(e);
                proof {
                    assert forall|k: int| 0 <= k < i + 1 && (#[trigger] entity_coverage(*self, entities@[k])) is Some implies exists|x: int|
                        0 <= x < matches@.len() && matches@[x].0 == k by {
                        if k < i {
                            let x = choose|x: int| 0 <= x < before.len() && before[x].0 == k;
                            assert(matches@[x] == before[x]);
                        } else {
                            assert(matches@[before.len() as int].0 == k);
                        }
                    }
                    assert forall|x: int| 0 <= x < matches@.len() implies (#[trigger] matches@[x]).0 < i + 1
                        && (entity_coverage(*self, entities@[matches@[x].0 as int]) matches Some((k, c)) && c == matches@[x].1
                            && matched_entries@[x] < entries.len() && entries[matched_entries@[x] as int].0@ == k) by {
                        if x < before.len() {
                            assert(matches@[x] == before[x] && matched_entries@[x] == before_e[x]);
                        }
                    }
                }
            }
            i = i + 1;
        }
        let mut unmatched_files: Vec<String> = Vec::new();
        let ghost keys = entry_keys(entries);
        let mut j: usize = 0;
        while j < self.files.entries.len()
            invariant
                j <= entries.len(),
                entries == self.files.entries@,
                keys == entry_keys(entries),
                keys_distinct(files_seq(entries)),
                matched_entries@.len() == matches@.len(),
                plan_matches(*self, entities@, matches@),
                forall|x: int| 0 <= x < matches@.len() ==> (entity_coverage(*self, entities@[#[trigger] matches@[x].0 as int]) matches Some((k, c))
                    && matched_entries@[x] < entries.len() && entries[matched_entries@[x] as int].0@ == k),
                unmatched_files@.map_values(|f: String| f@) == unmatched(keys.take(j as int), *self, entities@),
            decreases entries.len() - j,
        {
            let mut hit = false;
            let mut x: usize = 0;
            while x < matched_entries.len()
                invariant
                    x <= matched_entries@.len(),
                    hit == exists|y: int| 0 <= y < x && matched_entries@[y] == j,
                decreases matched_entries@.len() - x,
            {
                if matched_entries[x] == j {
                    hit = true;
                }
                x = x + 1;
            }
            proof {
                assert(keys.take(j + 1).drop_last() =~= keys.take(j as int));
                assert(keys.take(j + 1).last() == entries[j as int].0@);
                let covered = exists|i: int| 0 <= i < entities@.len() && covers(#[trigger] entity_coverage(*self, entities@[i]), entries[j as int].0@);
                if hit {
                    let y = choose|y: int| 0 <= y < x && matched_entries@[y] == j;
                    let i = matches@[y].0 as int;
                    assert(covers(entity_coverage(*self, entities@[i]), entries[j as int].0@));
                    assert(covered);
                }
                if covered {
                    let i = choose|i: int| 0 <= i < entities@.len() && covers(#[trigger] entity_coverage(*self, entities@[i]), entries[j as int].0@);
                    assert(entity_coverage(*self, entities@[i]) is Some);
                    let y = choose|y: int| 0 <= y < matches@.len() && matches@[y].0 == i;
                    let e = matched_entries@[y];
                    assert(entries[e as int].0@ == entries[j as int].0@);
                    if e != j {
                        assert(files_seq(entries)[e as int].0 != files_seq(entries)[j as int].0);
                    }
                    assert(matched_entries@[y] == j);
                }
            }
            if !hit {
                let ghost before = unmatched_files@;
                unmatched_files.push(self.files.entries[j].0.clone());
                assert(unmatched_files@.map_values(|f: String| f@) =~= before.map_values(|f: String| f@).push(entries[j as int].0@));
            }
            j = j + 1;
        }
        assert(keys.take(j as int) =~= keys);
        CoveragePlan {
            matches,
            unmatched_files,
            configuration_digest: self.configuration_digest(),
            source: join_strings(&self.sources, ","),
        }
    }
}

// ---------------------------------------------------------------------------
// Applying coverage to a batch
// ---------------------------------------------------------------------------
/// The name under which coverage evidence is reported.
pub const COVERAGE_OBSERVER: &'static str = "code.coverage";

/// The bits of `1.0`, the confidence of coverage evidence.
pub const FULL_CONFIDENCE: u64 = 0x3ff0_0000_0000_0000;

/// The message for a report file that matched no entity.
pub const UNMATCHED_FILE_MESSAGE: &'static str = "coverage file did not match any measured code entity";

/// A coverage ratio `name` with the value `bits`, as coverage evidence.
pub open spec fn coverage_measured(m: Measurement, name: Seq<char>, bits: u64) -> bool {
    &&& m.name@ == name
    &&& m.value == bits
    &&& m.unit matches Some(u) && u@ == "ratio"@
    &&& m.evidence matches Some(e) && e.observer@ == COVERAGE_OBSERVER@ && e.confidence == FULL_CONFIDENCE
}

/// `after` is `before` with its line and branch coverage ratios added after
/// its other measurements.
pub open spec fn ratios_added(before: EntityObservation, after: EntityObservation, line: u64, branch: u64) -> bool {
    let n = before.measurements@.len();
    &&& after.snapshot.world@ == before.snapshot.world@
    &&& after.snapshot.version@ == before.snapshot.version@
    &&& same_entity(before.entity, after.entity)
    &&& after.attributes@ == before.attributes@
    &&& (before.wf() ==> after.wf())
    &&& same_scores(before.scores@, after.scores@)
    &&& after.measurements@.len() == n + 2
    &&& same_measurements(before.measurements@, after.measurements@.take(n as int))
    &&& coverage_measured(after.measurements@[n as int], "test.line_coverage"@, line)
    &&& coverage_measured(after.measurements@[n + 1int], "test.branch_coverage"@, branch)
}

/// The notice that the report file `path` matched no entity.
pub open spec fn unmatched_notice(g: AnalysisDiagnostic, path: Seq<char>) -> bool {
    &&& g.severity == DiagnosticSeverity::Info
    &&& g.analyzer@ == COVERAGE_OBSERVER@
    &&& g.message@ == UNMATCHED_FILE_MESSAGE@
    &&& g.file_path matches Some(p) && p@ == path
}

/// Whether some match of `matches` is for entity `i`.
pub open spec fn matched(matches: Seq<(usize, RangeCounts)>, i: int) -> bool {
    exists|x: int| 0 <= x < matches.len() && matches[x].0 == i
}

fn coverage_ratio(name: &str, bits: u64) -> (m: Measurement)
    ensures
        coverage_measured(m, name@, bits),
{
    Measurement {
        name: name.to_owned(),
        value: bits,
        unit: Some("ratio".to_owned()),
        evidence: Some(EvidenceProvenance { observer: COVERAGE_OBSERVER.to_owned(), confidence: FULL_CONFIDENCE }),
    }
}

/// What applying a coverage plan does to a batch: each matched entity gets
/// its line and branch ratios (the bits in `ratios`, one pair per match), each
/// report file that matched nothing an info diagnostic, and the batch the
/// provenance of the evidence. Nothing else changes.
pub open spec fn coverage_applied(plan: CoveragePlan, ratios: Seq<(u64, u64)>, before: CodeBatch, after: CodeBatch) -> bool {
    &&& revision_view(after.revision) == revision_view(before.revision)
    &&& after.coverage == before.coverage
    &&& after.dependencies@ == before.dependencies@
    &&& after.symbols@.len() == before.symbols@.len()
    &&& forall|x: int| 0 <= x < plan.matches@.len() ==> ratios_added(
        before.symbols@[(#[trigger] plan.matches@[x]).0 as int],
        after.symbols@[plan.matches@[x].0 as int],
        ratios[x].0,
        ratios[x].1,
    )
    &&& forall|i: int| 0 <= i < before.symbols@.len() && !matched(plan.matches@, i) ==> #[trigger] after.symbols@[i]
        == before.symbols@[i]
    &&& after.diagnostics@.len() == before.diagnostics@.len() + plan.unmatched_files@.len()
    &&& forall|i: int| 0 <= i < before.diagnostics@.len() ==> #[trigger] after.diagnostics@[i] == before.diagnostics@[i]
    &&& forall|j: int| 0 <= j < plan.unmatched_files@.len() ==> unmatched_notice(
        #[trigger] after.diagnostics@[before.diagnostics@.len() + j],
        plan.unmatched_files@[j]@,
    )
    &&& after.provenance@.len() == before.provenance@.len() + 1
    &&& forall|i: int| 0 <= i < before.provenance@.len() ==> #[trigger] after.provenance@[i] == before.provenance@[i]
    &&& {
        let p = after.provenance@[before.provenance@.len() as int];
        &&& p.analyzer@ == COVERAGE_OBSERVER@
        &&& p.version@ == crate::git::PACKAGE_VERSION@
        &&& p.configuration_digest matches Some(d) && d@ == plan.configuration_digest@
        &&& p.source matches Some(s) && s@ == plan.source@
    }
}

/// Deriving coverage for a batch, as a plan and then its ratios applied,
/// keeps every entity in its place: an entity the evidence covers keeps its
/// measurements and gains exactly its line and branch ratios, one pair of
/// those given for its counts; any other entity is left as it was. Each
/// report file that matched no entity gets one notice, and the batch gains
/// one provenance record; nothing else changes.
pub proof fn law_coverage_derivation(
    d: CodeCoverageDeriver,
    plan: CoveragePlan,
    ratios: Seq<(u64, u64)>,
    before: CodeBatch,
    after: CodeBatch,
)
    requires
        plan_matches(d, before.symbols@, plan.matches@),
        ratios.len() == plan.matches@.len(),
        coverage_applied(plan, ratios, before, after),
    ensures
        after.symbols@.len() == before.symbols@.len(),
        forall|i: int| 0 <= i < before.symbols@.len() && (#[trigger] entity_coverage(d, before.symbols@[i])) is Some ==> exists|x: int|
            0 <= x < ratios.len() && (#[trigger] plan.matches@[x]).0 == i
                && entity_coverage(d, before.symbols@[i])->Some_0.1 == plan.matches@[x].1
                && ratios_added(before.symbols@[i], after.symbols@[i], ratios[x].0, ratios[x].1),
        forall|i: int| 0 <= i < before.symbols@.len() && (#[trigger] entity_coverage(d, before.symbols@[i])) is None
            ==> after.symbols@[i] == before.symbols@[i],
        after.diagnostics@.len() == before.diagnostics@.len() + plan.unmatched_files@.len(),
        after.provenance@.len() == before.provenance@.len() + 1,
        after.dependencies@ == before.dependencies@,
        after.coverage == before.coverage,
{
    assert forall|i: int| 0 <= i < before.symbols@.len() && (#[trigger] entity_coverage(d, before.symbols@[i])) is Some implies exists|x: int|
        0 <= x < ratios.len() && (#[trigger] plan.matches@[x]).0 == i
            && entity_coverage(d, before.symbols@[i])->Some_0.1 == plan.matches@[x].1
            && ratios_added(before.symbols@[i], after.symbols@[i], ratios[x].0, ratios[x].1) by {
        let x = choose|x: int| 0 <= x < plan.matches@.len() && plan.matches@[x].0 == i;
        assert(plan.matches@[x].0 < before.symbols@.len());
    }
    assert forall|i: int| 0 <= i < before.symbols@.len() && (#[trigger] entity_coverage(d, before.symbols@[i])) is None
        implies after.symbols@[i] == before.symbols@[i] by {
        if matched(plan.matches@, i) {
            let x = choose|x: int| 0 <= x < plan.matches@.len() && plan.matches@[x].0 == i;
            assert(plan.matches@[x].0 < before.symbols@.len());
        }
    }
}

/// Applies a coverage plan to a batch: each matched entity gets its line and
/// branch ratios (the bits in `ratios`, one pair per match), each report file
/// that matched nothing an info diagnostic, and the batch the provenance of
/// the evidence. Nothing else changes.
pub fn apply_coverage(plan: &CoveragePlan, ratios: &Vec<(u64, u64)>, batch: &mut CodeBatch)
    requires
        ratios@.len() == plan.matches@.len(),
        forall|x: int| 0 <= x < plan.matches@.len() ==> (#[trigger] plan.matches@[x]).0 < old(batch).symbols@.len(),
        forall|x: int, y: int|
            0 <= x < y < plan.matches@.len() ==> (#[trigger] plan.matches@[x]).0 < (#[trigger] plan.matches@[y]).0,
    ensures
        coverage_applied(*plan, ratios@, *old(batch), *final(batch)),
{
    let ghost before = batch.symbols@;
    let mut x: usize = 0;
    while x < plan.matches.len()
        invariant
            x <= plan.matches@.len(),
            ratios@.len() == plan.matches@.len(),
            batch.symbols@.len() == before.len(),
            forall|z: int| 0 <= z < plan.matches@.len() ==> (#[trigger] plan.matches@[z]).0 < before.len(),
            forall|z: int, y: int|
                0 <= z < y < plan.matches@.len() ==> (#[trigger] plan.matches@[z]).0 < (#[trigger] plan.matches@[y]).0,
            revision_view(batch.revision) == revision_view(old(batch).revision),
            batch.coverage == old(batch).coverage,
            batch.dependencies@ == old(batch).dependencies@,
            batch.diagnostics@ == old(batch).diagnostics@,
            batch.provenance@ == old(batch).provenance@,
            before == old(batch).symbols@,
            forall|z: int| 0 <= z < x ==> ratios_added(
                before[(#[trigger] plan.matches@[z]).0 as int],
                batch.symbols@[plan.matches@[z].0 as int],
                ratios@[z].0,
                ratios@[z].1,
            ),
            forall|i: int|
                0 <= i < before.len() && !(exists|z: int| 0 <= z < x && plan.matches@[z].0 == i) ==> #[trigger] batch.symbols@[i]
                    == before[i],
        decreases plan.matches@.len() - x,
    {
        let i = plan.matches[x].0;
        let (line, branch) = ratios[x];
        assert(!(exists|z: int| 0 <= z < x && plan.matches@[z].0 == i)) by {
            if exists|z: int| 0 <= z < x && plan.matches@[z].0 == i {
                let z = choose|z: int| 0 <= z < x && plan.matches@[z].0 == i;
                assert(plan.matches@[z].0 < plan.matches@[x as int].0);
            }
        }
        assert(batch.symbols@[i as int] == before[i as int]);
        let mut o = batch.symbols[i].copy();
        let ghost n = o.measurements@.len();
        let ghost kept = o.measurements@;
        o.measurements.push(coverage_ratio("test.line_coverage", line));
        o.measurements.push(coverage_ratio("test.branch_coverage", branch));
        assert(o.measurements@.take(n as int) =~= kept);
        batch.symbols.set(i, o);
        proof {
            assert forall|z: int| 0 <= z < x + 1 implies ratios_added(
                before[(#[trigger] plan.matches@[z]).0 as int],
                batch.symbols@[plan.matches@[z].0 as int],
                ratios@[z].0,
                ratios@[z].1,
            ) by {
                if z < x {
                    assert(plan.matches@[z].0 < plan.matches@[x as int].0);
                }
            }
            assert forall|k: int|
                0 <= k < before.len() && !(exists|z: int| 0 <= z < x + 1 && plan.matches@[z].0 == k) implies #[trigger] batch.symbols@[k]
                == before[k] by {
                assert(plan.matches@[x as int].0 != k);
            }
        }
        x = x + 1;
    }
    proof {
        assert forall|k: int| 0 <= k < before.len() && !matched(plan.matches@, k) implies #[trigger] batch.symbols@[k] == before[k] by {
            if exists|z: int| 0 <= z < x && plan.matches@[z].0 == k {
                let z = choose|z: int| 0 <= z < x && plan.matches@[z].0 == k;
                assert(matched(plan.matches@, k));
            }
        }
    }
    let ghost mid = batch.symbols@;
    let mut j: usize = 0;
    while j < plan.unmatched_files.len()
        invariant
            j <= plan.unmatched_files@.len(),
            batch.symbols@ == mid,
            revision_view(batch.revision) == revision_view(old(batch).revision),
            batch.coverage == old(batch).coverage,
            batch.dependencies@ == old(batch).dependencies@,
            batch.provenance@ == old(batch).provenance@,
            batch.diagnostics@.len() == old(batch).diagnostics@.len() + j,
            forall|i: int| 0 <= i < old(batch).diagnostics@.len() ==> #[trigger] batch.diagnostics@[i] == old(batch).diagnostics@[i],
            forall|k: int| 0 <= k < j ==> unmatched_notice(
                #[trigger] batch.diagnostics@[old(batch).diagnostics@.len() + k],
                plan.unmatched_files@[k]@,
            ),
        decreases plan.unmatched_files@.len() - j,
    {
        batch.diagnostics.push(
            AnalysisDiagnostic {
                severity: DiagnosticSeverity::Info,
                analyzer: COVERAGE_OBSERVER.to_owned(),
                message: UNMATCHED_FILE_MESSAGE.to_owned(),
                file_path: Some(plan.unmatched_files[j].clone()),
            },
        );
        j = j + 1;
    }
    batch.provenance.push(
        AnalyzerProvenance {
            analyzer: COVERAGE_OBSERVER.to_owned(),
            version: crate::git::PACKAGE_VERSION.to_owned(),
            configuration_digest: Some(plan.configuration_digest.clone()),
            source: Some(plan.source.clone()),
        },
    );
}

} // verus!
