//! The Git source: what a repository is called, which tracked files it holds
//! at a commit, and how each file changed over its history.
use vstd::prelude::*;
use vstd::utf8::{valid_utf8, decode_utf8};
use vstd::string::StringSliceAdditionalSpecFns;

use sha2::Digest;

use crate::coverage::{from_utf8, join_strings, joined, same_bytes};
use crate::identity::ModelId;
use crate::kernel::{AttributeValue, AttributeView, Attributes, attribute_pairs};
use crate::model::{AnalysisInput, AnalyzerError, SourceDescriptor, SourceError, SourceReference, SourceResolution, WorldSource};
use crate::kernel::EntityObservation;
use crate::model_code::{CODE_MODEL_ID, file_attributes, file_observation, repository_world};
use crate::observation::{revision_view, AnalysisCoverage, AnalyzerProvenance, CodeBatch, ObservationBatch};
use crate::model_code::{GitOid, LanguageId, RepositoryId, RevisionId, RecentFrequency, frequency_of};
use crate::query::ascii_lower;
use crate::maps::{keys_distinct, has_key, seq_map, lemma_seq_map, lemma_seq_map_insert, lemma_seq_map_remove};
use crate::numbers::{kind_message, parse_unsigned_spec, parse_i64_spec};
use crate::text::{append_chars, chars_of, decode_lossy, lossy_text, string_of, slice_chars, trim, trimmed, occurs_at, occurs_at_exec, starts_with, seq_lt, compare_chars, lemma_seq_lt_total, lemma_seq_lt_transitive, lemma_seq_lt_irreflexive, lemma_seq_lt_asymmetric};

verus! {

/// The kind of source reference the Git source produces.
pub const GIT_SOURCE_KIND: &'static str = "git_repository";

// ---------------------------------------------------------------------------
// Languages
// ---------------------------------------------------------------------------
/// What `Path::extension` gives for a path, as text.
pub uninterp spec fn path_extension(path: Seq<char>) -> Option<Seq<char>>;

/// `Path::extension`: the part of the file name after its last `.`, read back
/// as text.
#[verifier::external_body]
pub(crate) fn extension_of(path: &str) -> (r: Option<String>)
    ensures
        path_extension(path@) == (match r {
            Some(s) => Some(s@),
            None => None::<Seq<char>>,
        }),
{
    std::path::Path::new(path).extension().map(|e| e.to_string_lossy().into_owned())
}

/// The language of a file extension (already in lower case).
pub open spec fn extension_language(e: Seq<char>) -> Option<Seq<char>> {
    if e == "cs"@ {
        Some("csharp"@)
    } else if e == "ts"@ {
        Some("typescript"@)
    } else if e == "js"@ {
        Some("javascript"@)
    } else if e == "py"@ {
        Some("python"@)
    } else if e == "go"@ {
        Some("go"@)
    } else if e == "rs"@ {
        Some("rust"@)
    } else if e == "java"@ {
        Some("java"@)
    } else if e == "cpp"@ {
        Some("cpp"@)
    } else if e == "c"@ || e == "h"@ {
        Some("c"@)
    } else {
        None
    }
}

/// The language of a source file, by its extension, ignoring ASCII case.
pub open spec fn language_of_path(path: Seq<char>) -> Option<Seq<char>> {
    match path_extension(path) {
        Some(e) => extension_language(e.map_values(|c: char| ascii_lower(c))),
        None => None,
    }
}

fn lower_ascii(s: &[char]) -> (r: Vec<char>)
    ensures
        r@ == s@.map_values(|c: char| ascii_lower(c)),
{
    let mut r: Vec<char> = Vec::new();
    let mut i: usize = 0;
    while i < s.len()
        invariant
            i <= s@.len(),
            r@ == s@.take(i as int).map_values(|c: char| ascii_lower(c)),
        decreases s@.len() - i,
    {
        r.push(crate::query::ascii_lower_char(s[i]));
        assert(r@ =~= s@.take(i + 1).map_values(|c: char| ascii_lower(c)));
        i = i + 1;
    }
    assert(s@.take(i as int) =~= s@);
    r
}

fn same_word(s: &[char], word: &str) -> (b: bool)
    ensures
        b == (s@ == word@),
{
    crate::text::same_chars(s, &chars_of(word))
}

/// Detects the language of a source file from its extension.
pub fn detect_language(path: &str) -> (r: Option<LanguageId>)
    ensures
        match language_of_path(path@) {
            Some(l) => r matches Some(id) && id@ == l,
            None => r is None,
        },
{
    let extension = match extension_of(path) {
        Some(e) => lower_ascii(&chars_of(e.as_str())),
        None => return None,
    };
    let language = if same_word(&extension, "cs") {
        "csharp"
    } else if same_word(&extension, "ts") {
        "typescript"
    } else if same_word(&extension, "js") {
        "javascript"
    } else if same_word(&extension, "py") {
        "python"
    } else if same_word(&extension, "go") {
        "go"
    } else if same_word(&extension, "rs") {
        "rust"
    } else if same_word(&extension, "java") {
        "java"
    } else if same_word(&extension, "cpp") {
        "cpp"
    } else if same_word(&extension, "c") || same_word(&extension, "h") {
        "c"
    } else {
        return None;
    };
    Some(LanguageId::new(language))
}

// ---------------------------------------------------------------------------
// Repository identity
// ---------------------------------------------------------------------------
/// `s` without any `c` at its end.
pub open spec fn strip_trailing(s: Seq<char>, c: char) -> Seq<char>
    decreases s.len(),
{
    if s.len() > 0 && s.last() == c {
        strip_trailing(s.drop_last(), c)
    } else {
        s
    }
}

/// `s` without any repetition of `suffix` at its end (`str::trim_end_matches`).
pub open spec fn strip_suffixes(s: Seq<char>, suffix: Seq<char>) -> Seq<char>
    decreases s.len(),
{
    if suffix.len() > 0 && suffix.len() <= s.len() && s.skip(s.len() - suffix.len()) == suffix {
        strip_suffixes(s.take(s.len() - suffix.len()), suffix)
    } else {
        s
    }
}

/// The first position, from `i` on, where `p` occurs in `s`.
pub open spec fn find_from(s: Seq<char>, p: Seq<char>, i: int) -> Option<int>
    decreases s.len() + 1 - i,
{
    if i < 0 || i + p.len() > s.len() {
        None
    } else if occurs_at(s, p, i) {
        Some(i)
    } else {
        find_from(s, p, i + 1)
    }
}

proof fn lemma_find_from(s: Seq<char>, p: Seq<char>, i: int)
    ensures
        find_from(s, p, i) matches Some(k) ==> i <= k && k + p.len() <= s.len() && occurs_at(s, p, k),
    decreases s.len() + 1 - i,
{
    if !(i < 0 || i + p.len() > s.len()) && !occurs_at(s, p, i) {
        lemma_find_from(s, p, i + 1);
    }
}

/// A remote URL reduced to host and path: white space, trailing slashes,
/// the scheme, any user and any `.git` suffix removed, and an SSH
/// `git@host:path` written as `host/path`; `None` for an empty URL.
pub open spec fn normalized_remote(remote: Seq<char>) -> Option<Seq<char>> {
    let v = strip_trailing(trim(remote), '/');
    if v.len() == 0 {
        None
    } else {
        let w = if v.len() >= 4 && v.take(4) == "git@"@ {
            let rest = v.skip(4);
            match find_from(rest, seq![':'], 0) {
                Some(k) => rest.update(k, '/'),
                None => rest,
            }
        } else {
            match find_from(v, "://"@, 0) {
                Some(k) => {
                    let rest = v.skip(k + 3);
                    match find_from(rest, seq!['@'], 0) {
                        Some(a) => rest.skip(a + 1),
                        None => rest,
                    }
                },
                None => v,
            }
        };
        Some(strip_suffixes(w, ".git"@))
    }
}

fn strip_trailing_exec(s: &[char], c: char) -> (r: Vec<char>)
    ensures
        r@ == strip_trailing(s@, c),
{
    let mut n = s.len();
    assert(s@.take(n as int) =~= s@);
    while n > 0 && s[n - 1] == c
        invariant
            n <= s@.len(),
            strip_trailing(s@, c) == strip_trailing(s@.take(n as int), c),
        decreases n,
    {
        assert(s@.take(n as int).drop_last() =~= s@.take(n - 1));
        n = n - 1;
    }
    assert(s@.take(n as int) =~= s@.subrange(0, n as int));
    slice_chars(s, 0, n)
}

fn strip_suffixes_exec(s: &[char], suffix: &[char]) -> (r: Vec<char>)
    requires
        suffix@.len() > 0,
    ensures
        r@ == strip_suffixes(s@, suffix@),
{
    let mut n = s.len();
    assert(s@.take(n as int) =~= s@);
    while n >= suffix.len() && occurs_at_exec(s, suffix, n - suffix.len())
        invariant
            n <= s@.len(),
            suffix@.len() > 0,
            strip_suffixes(s@, suffix@) == strip_suffixes(s@.take(n as int), suffix@),
        decreases n,
    {
        let ghost t = s@.take(n as int);
        assert(t.skip(t.len() - suffix@.len()) =~= s@.subrange(n - suffix@.len(), n as int));
        assert(t.take(t.len() - suffix@.len()) =~= s@.take(n - suffix@.len()));
        n = n - suffix.len();
    }
    proof {
        let t = s@.take(n as int);
        if suffix@.len() <= t.len() {
            assert(t.skip(t.len() - suffix@.len()) =~= s@.subrange(n - suffix@.len(), n as int));
        }
    }
    assert(s@.take(n as int) =~= s@.subrange(0, n as int));
    slice_chars(s, 0, n)
}

fn find_exec(s: &[char], p: &[char]) -> (r: Option<usize>)
    ensures
        match find_from(s@, p@, 0) {
            Some(k) => r == Some(k as usize),
            None => r is None,
        },
{
    if p.len() == 0 {
        assert(s@.subrange(0, 0) =~= p@);
        return Some(0);
    }
    if p.len() > s.len() {
        return None;
    }
    let mut i: usize = 0;
    while i <= s.len() - p.len()
        invariant
            p@.len() >= 1,
            p@.len() <= s@.len(),
            find_from(s@, p@, 0) == find_from(s@, p@, i as int),
        decreases s@.len() - i,
    {
        if occurs_at_exec(s, p, i) {
            return Some(i);
        }
        i = i + 1;
    }
    None
}

/// Reduces a remote URL to host and path.
pub fn normalize_remote(remote: &str) -> (r: Option<String>)
    ensures
        match normalized_remote(remote@) {
            Some(v) => r matches Some(s) && s@ == v,
            None => r is None,
        },
{
    let v = strip_trailing_exec(&trimmed(&chars_of(remote)), '/');
    if v.len() == 0 {
        return None;
    }
    let prefix = chars_of("git@");
    proof {
        reveal_strlit("git@");
    }
    let w = if starts_with(&v, &prefix) {
        assert(v@.take(4) == v@.take(prefix@.len() as int));
        let mut rest = slice_chars(&v, 4, v.len());
        assert(rest@ =~= v@.skip(4));
        match find_exec(&rest, &[':']) {
            Some(k) => {
                proof {
                    assert([':']@ =~= seq![':']);
                    lemma_find_from(rest@, seq![':'], 0);
                }
                rest.set(k, '/');
                rest
            },
            None => {
                assert([':']@ =~= seq![':']);
                rest
            },
        }
    } else {
        assert(!(v@.len() >= 4 && v@.take(4) == "git@"@));
        let sep = chars_of("://");
        proof {
            reveal_strlit("://");
            lemma_find_from(v@, sep@, 0);
        }
        match find_exec(&v, &sep) {
            Some(k) => {
                let rest = slice_chars(&v, k + 3, v.len());
                assert(rest@ =~= v@.skip(k + 3));
                assert(['@']@ =~= seq!['@']);
                proof {
                    lemma_find_from(rest@, seq!['@'], 0);
                }
                match find_exec(&rest, &['@']) {
                    Some(a) => {
                        let after = slice_chars(&rest, a + 1, rest.len());
                        assert(after@ =~= rest@.skip(a + 1));
                        after
                    },
                    None => rest,
                }
            },
            None => v,
        }
    };
    proof {
        reveal_strlit(".git");
    }
    Some(string_of(&strip_suffixes_exec(&w, &chars_of(".git"))))
}

/// What SHA-256 gives for the bytes.
pub uninterp spec fn sha256_digest(bytes: Seq<u8>) -> Seq<u8>;

/// `Sha256::digest`: the 32-byte SHA-256 digest of the bytes.
#[verifier::external_body]
fn sha256(bytes: &[u8]) -> (d: Vec<u8>)
    ensures
        d@ == sha256_digest(bytes@),
        d@.len() == 32,
{
    sha2::Sha256::digest(bytes).to_vec()
}

pub open spec fn hex_digit(n: u8) -> char
    recommends
        n < 16,
{
    if n < 10 {
        ('0' as u8 + n) as char
    } else {
        ('a' as u8 + (n - 10)) as char
    }
}

/// Bytes in lowercase hexadecimal, two digits each (`{:x}` of a digest).
pub open spec fn hex(bytes: Seq<u8>) -> Seq<char>
    decreases bytes.len(),
{
    if bytes.len() == 0 {
        Seq::empty()
    } else {
        hex(bytes.drop_last()) + seq![hex_digit(bytes.last() / 16), hex_digit(bytes.last() % 16)]
    }
}

proof fn lemma_hex_len(bytes: Seq<u8>)
    ensures
        hex(bytes).len() == 2 * bytes.len(),
    decreases bytes.len(),
{
    if bytes.len() > 0 {
        lemma_hex_len(bytes.drop_last());
    }
}

fn hex_digit_exec(n: u8) -> (c: char)
    requires
        n < 16,
    ensures
        c == hex_digit(n),
{
    if n < 10 {
        (48u8 + n) as char
    } else {
        (97u8 + (n - 10)) as char
    }
}

fn hex_exec(bytes: &[u8]) -> (r: Vec<char>)
    ensures
        r@ == hex(bytes@),
{
    let mut r: Vec<char> = Vec::new();
    let mut i: usize = 0;
    while i < bytes.len()
        invariant
            i <= bytes@.len(),
            r@ == hex(bytes@.take(i as int)),
        decreases bytes@.len() - i,
    {
        let b = bytes[i];
        r.push(hex_digit_exec(b / 16));
        r.push(hex_digit_exec(b % 16));
        assert(bytes@.take(i + 1).drop_last() =~= bytes@.take(i as int));
        assert(r@ =~= hex(bytes@.take(i + 1)));
        i = i + 1;
    }
    assert(bytes@.take(i as int) =~= bytes@);
    r
}

/// A repository's identifier: `remote:` and its normalized remote URL, or,
/// without a usable remote, `local:` and the first 32 hexadecimal digits of
/// the SHA-256 digest of its root path.
pub open spec fn repository_name(root: Seq<u8>, remote: Option<Seq<char>>) -> Seq<char> {
    match (match remote {
        Some(r) => normalized_remote(r),
        None => None,
    }) {
        Some(n) => "remote:"@ + n,
        None => "local:"@ + hex(sha256_digest(root)).take(32),
    }
}

/// The identifier of the repository at `root`.
pub fn repository_id(root: &str, remote: Option<&str>) -> (r: RepositoryId)
    ensures
        r@ == repository_name(root.spec_bytes(), match remote {
            Some(x) => Some(x@),
            None => None,
        }),
{
    let normalized = match remote {
        Some(x) => normalize_remote(x),
        None => None,
    };
    match normalized {
        Some(n) => {
            let mut id = chars_of("remote:");
            append_chars(&mut id, &chars_of(n.as_str()));
            RepositoryId(string_of(&id))
        },
        None => {
            let digest = sha256(root.as_bytes());
            let h = hex_exec(&digest);
            proof {
                lemma_hex_len(digest@);
            }
            let mut id = chars_of("local:");
            append_chars(&mut id, &slice_chars(&h, 0, 32));
            assert(h@.subrange(0, 32) =~= h@.take(32));
            RepositoryId(string_of(&id))
        },
    }
}

// ---------------------------------------------------------------------------
// Tracked files
// ---------------------------------------------------------------------------
pub open spec fn split_bytes_state(s: Seq<u8>, sep: u8) -> (Seq<Seq<u8>>, Seq<u8>)
    decreases s.len(),
{
    if s.len() == 0 {
        (Seq::empty(), Seq::empty())
    } else {
        let (done, current) = split_bytes_state(s.drop_last(), sep);
        if s.last() == sep {
            (done.push(current), Seq::empty())
        } else {
            (done, current.push(s.last()))
        }
    }
}

/// The pieces of `s` between separators (`<[u8]>::split`).
pub open spec fn split_bytes(s: Seq<u8>, sep: u8) -> Seq<Seq<u8>> {
    let (done, current) = split_bytes_state(s, sep);
    done.push(current)
}

fn split_bytes_exec(s: &[u8], sep: u8) -> (out: Vec<Vec<u8>>)
    ensures
        out@.map_values(|v: Vec<u8>| v@) == split_bytes(s@, sep),
{
    let mut out: Vec<Vec<u8>> = Vec::new();
    let mut current: Vec<u8> = Vec::new();
    let mut i: usize = 0;
    while i < s.len()
        invariant
            i <= s@.len(),
            split_bytes_state(s@.take(i as int), sep).1 == current@,
            out@.map_values(|v: Vec<u8>| v@) == split_bytes_state(s@.take(i as int), sep).0,
        decreases s@.len() - i,
    {
        assert(s@.take(i + 1).drop_last() =~= s@.take(i as int));
        if s[i] == sep {
            let ghost before = out@;
            out.push(current);
            assert(out@.map_values(|v: Vec<u8>| v@) =~= before.map_values(|v: Vec<u8>| v@).push(split_bytes_state(s@.take(i as int), sep).1));
            current = Vec::new();
        } else {
            current.push(s[i]);
        }
        i = i + 1;
    }
    assert(s@.take(i as int) =~= s@);
    let ghost before = out@;
    out.push(current);
    assert(out@.map_values(|v: Vec<u8>| v@) =~= before.map_values(|v: Vec<u8>| v@).push(split_bytes_state(s@, sep).1));
    out
}

pub open spec fn words_state(s: Seq<char>) -> (Seq<Seq<char>>, Seq<char>)
    decreases s.len(),
{
    if s.len() == 0 {
        (Seq::empty(), Seq::empty())
    } else {
        let (done, current) = words_state(s.drop_last());
        if crate::text::is_white(s.last()) {
            if current.len() > 0 {
                (done.push(current), Seq::empty())
            } else {
                (done, current)
            }
        } else {
            (done, current.push(s.last()))
        }
    }
}

/// The white-space separated words of `s` (`str::split_whitespace`).
pub open spec fn words(s: Seq<char>) -> Seq<Seq<char>> {
    let (done, current) = words_state(s);
    if current.len() > 0 {
        done.push(current)
    } else {
        done
    }
}

fn words_exec(s: &[char]) -> (out: Vec<Vec<char>>)
    ensures
        out@.map_values(|v: Vec<char>| v@) == words(s@),
{
    let mut out: Vec<Vec<char>> = Vec::new();
    let mut current: Vec<char> = Vec::new();
    let mut i: usize = 0;
    while i < s.len()
        invariant
            i <= s@.len(),
            words_state(s@.take(i as int)).1 == current@,
            out@.map_values(|v: Vec<char>| v@) == words_state(s@.take(i as int)).0,
        decreases s@.len() - i,
    {
        assert(s@.take(i + 1).drop_last() =~= s@.take(i as int));
        if crate::text::is_white_char(s[i]) {
            if current.len() > 0 {
                let ghost before = out@;
                out.push(current);
                assert(out@.map_values(|v: Vec<char>| v@) =~= before.map_values(|v: Vec<char>| v@).push(words_state(s@.take(i as int)).1));
                current = Vec::new();
            }
        } else {
            current.push(s[i]);
        }
        i = i + 1;
    }
    assert(s@.take(i as int) =~= s@);
    if current.len() > 0 {
        let ghost before = out@;
        out.push(current);
        assert(out@.map_values(|v: Vec<char>| v@) =~= before.map_values(|v: Vec<char>| v@).push(words_state(s@).1));
    }
    out
}

/// A file of a commit's tree that is in a supported language.
#[derive(Debug, Clone, PartialEq, Eq)]
pub struct TrackedFile {
    pub path: String,
    pub blob_oid: String,
    pub mode: String,
    pub size: Option<u64>,
    pub language: LanguageId,
}

pub struct TrackedView {
    pub path: Seq<char>,
    pub blob_oid: Seq<char>,
    pub mode: Seq<char>,
    pub size: Option<u64>,
    pub language: Seq<char>,
}

impl View for TrackedFile {
    type V = TrackedView;

    open spec fn view(&self) -> TrackedView {
        TrackedView {
            path: self.path@,
            blob_oid: self.blob_oid@,
            mode: self.mode@,
            size: self.size,
            language: self.language@,
        }
    }
}

pub open spec fn first_byte(s: Seq<u8>, b: u8) -> Option<int> {
    if exists|i: int| 0 <= i < s.len() && s[i] == b {
        Some(choose|i: int| 0 <= i < s.len() && s[i] == b && forall|j: int| 0 <= j < i ==> s[j] != b)
    } else {
        None
    }
}

/// What one record of `git ls-tree -r -z -l` says: a tracked file, nothing
/// (another language, or not a blob), or why it is malformed.
pub open spec fn tree_record(r: Seq<u8>) -> Result<Option<TrackedView>, Seq<char>> {
    match first_byte(r, 9) {
        None => Err("malformed Git tree record"@),
        Some(tab) => {
            let meta = r.take(tab);
            let path_bytes = r.skip(tab + 1);
            if !valid_utf8(path_bytes) {
                Err("Git tree contains a non-UTF-8 path"@)
            } else {
                let path = decode_utf8(path_bytes);
                match language_of_path(path) {
                    None => Ok(None),
                    Some(language) => if !valid_utf8(meta) {
                        Err("malformed Git tree metadata"@)
                    } else {
                        let f = words(decode_utf8(meta));
                        if f.len() != 4 || f[1] != "blob"@ {
                            Ok(None)
                        } else if f[3] == "-"@ {
                            Ok(Some(TrackedView { path, blob_oid: f[2], mode: f[0], size: None, language }))
                        } else {
                            match parse_unsigned_spec(f[3], u64::MAX as nat) {
                                Ok(v) => Ok(Some(TrackedView { path, blob_oid: f[2], mode: f[0], size: Some(v as u64), language })),
                                Err(k) => Err("invalid Git blob size: "@ + kind_message(k)),
                            }
                        }
                    },
                }
            }
        },
    }
}

/// The tracked files of the records, in order, or the first record's error.
pub open spec fn tree_files(recs: Seq<Seq<u8>>) -> Result<Seq<TrackedView>, Seq<char>>
    decreases recs.len(),
{
    if recs.len() == 0 {
        Ok(Seq::empty())
    } else {
        match tree_files(recs.drop_last()) {
            Err(m) => Err(m),
            Ok(v) => if recs.last().len() == 0 {
                Ok(v)
            } else {
                match tree_record(recs.last()) {
                    Err(m) => Err(m),
                    Ok(None) => Ok(v),
                    Ok(Some(f)) => Ok(v.push(f)),
                }
            },
        }
    }
}

proof fn lemma_tree_error_persists(recs: Seq<Seq<u8>>, k: int)
    requires
        0 <= k <= recs.len(),
        tree_files(recs.take(k)) is Err,
    ensures
        tree_files(recs) == tree_files(recs.take(k)),
    decreases recs.len() - k,
{
    if k < recs.len() {
        assert(recs.take(k + 1).drop_last() =~= recs.take(k));
        lemma_tree_error_persists(recs, k + 1);
    } else {
        assert(recs.take(k) =~= recs);
    }
}

fn first_tab(r: &[u8]) -> (t: Option<usize>)
    ensures
        match first_byte(r@, 9) {
            Some(k) => t matches Some(x) && x as int == k,
            None => t is None,
        },
        t matches Some(k) ==> k < r@.len(),
{
    let mut i: usize = 0;
    while i < r.len()
        invariant
            i <= r@.len(),
            forall|j: int| 0 <= j < i ==> r@[j] != 9,
        decreases r@.len() - i,
    {
        if r[i] == 9 {
            proof {
                let k = choose|k: int| 0 <= k < r@.len() && r@[k] == 9 && forall|j: int| 0 <= j < k ==> r@[j] != 9;
                if k < i {
                } else if k > i {
                    assert(r@[i as int] != 9);
                }
            }
            return Some(i);
        }
        i = i + 1;
    }
    None
}

fn bytes_slice(r: &[u8], from: usize, to: usize) -> (v: Vec<u8>)
    requires
        from <= to <= r@.len(),
    ensures
        v@ == r@.subrange(from as int, to as int),
{
    let mut v: Vec<u8> = Vec::new();
    let mut i = from;
    while i < to
        invariant
            from <= i <= to <= r@.len(),
            v@ == r@.subrange(from as int, i as int),
        decreases to - i,
    {
        v.push(r[i]);
        i = i + 1;
        assert(v@ =~= r@.subrange(from as int, i as int));
    }
    v
}

fn source_failure(message: &str) -> (e: SourceError)
    ensures
        e matches SourceError::Failed(m) && m@ == message@,
{
    SourceError::Failed(message.to_owned())
}

fn tree_record_exec(r: &[u8]) -> (out: Result<Option<TrackedFile>, SourceError>)
    ensures
        match tree_record(r@) {
            Ok(Some(f)) => out matches Ok(Some(t)) && t@ == f,
            Ok(None) => out matches Ok(None),
            Err(m) => out matches Err(SourceError::Failed(e)) && e@ == m,
        },
{
    let tab = match first_tab(r) {
        Some(t) => t,
        None => return Err(source_failure("malformed Git tree record")),
    };
    let n: usize = r.len();
    assert(tab < n);
    let meta = bytes_slice(r, 0, tab);
    let path_bytes = bytes_slice(r, tab + 1, n);
    assert(meta@ =~= r@.take(tab as int));
    assert(path_bytes@ =~= r@.skip(tab + 1));
    let path = match from_utf8(path_bytes.as_slice()) {
        Ok(p) => p.to_owned(),
        Err(_) => return Err(source_failure("Git tree contains a non-UTF-8 path")),
    };
    let language = match detect_language(path.as_str()) {
        Some(l) => l,
        None => return Ok(None),
    };
    let meta_text = match from_utf8(meta.as_slice()) {
        Ok(m) => chars_of(m),
        Err(_) => return Err(source_failure("malformed Git tree metadata")),
    };
    let fields = words_exec(&meta_text);
    let ghost f = fields@.map_values(|v: Vec<char>| v@);
    if fields.len() != 4 || !same_word(&fields[1], "blob") {
        return Ok(None);
    }
    assert(f[1] == fields@[1]@ && f[0] == fields@[0]@ && f[2] == fields@[2]@ && f[3] == fields@[3]@);
    let size = if same_word(&fields[3], "-") {
        None
    } else {
        match crate::numbers::parse_u64_chars(&fields[3]) {
            Ok(v) => Some(v),
            Err(k) => {
                let mut m = chars_of("invalid Git blob size: ");
                append_chars(&mut m, &chars_of(k.message()));
                return Err(SourceError::Failed(string_of(&m)));
            },
        }
    };
    Ok(Some(TrackedFile {
        path,
        blob_oid: string_of(&fields[2]),
        mode: string_of(&fields[0]),
        size,
        language,
    }))
}

/// `a` does not come after `b` in path order.
pub open spec fn path_le(a: TrackedView, b: TrackedView) -> bool {
    !seq_lt(b.path, a.path)
}

pub open spec fn in_views(v: Seq<TrackedFile>, x: TrackedView) -> bool {
    exists|i: int| 0 <= i < v.len() && (#[trigger] v[i])@ == x
}

/// Reads the records of `git ls-tree -r -z -l --full-tree`: the blobs in a
/// supported language, sorted by path.
pub fn parse_tree(bytes: &[u8]) -> (r: Result<Vec<TrackedFile>, SourceError>)
    ensures
        match tree_files(split_bytes(bytes@, 0)) {
            Err(m) => r matches Err(SourceError::Failed(e)) && e@ == m,
            Ok(fs) => r matches Ok(v) && v@.len() == fs.len()
                && (forall|i: int| 0 <= i < v@.len() ==> fs.contains(#[trigger] v@[i]@))
                && (forall|j: int| 0 <= j < fs.len() ==> in_views(v@, #[trigger] fs[j]))
                && (forall|i: int, j: int| 0 <= i < j < v@.len() ==> path_le(#[trigger] v@[i]@, #[trigger] v@[j]@)),
        },
{
    let records = split_bytes_exec(bytes, 0);
    let ghost recs = split_bytes(bytes@, 0);
    let mut files: Vec<TrackedFile> = Vec::new();
    let mut i: usize = 0;
    while i < records.len()
        invariant
            i <= records@.len(),
            recs == records@.map_values(|v: Vec<u8>| v@),
            recs == split_bytes(bytes@, 0),
            tree_files(recs.take(i as int)) is Ok,
            ({
                let fs = tree_files(recs.take(i as int))->Ok_0;
                &&& files@.len() == fs.len()
                &&& forall|a: int| 0 <= a < files@.len() ==> fs.contains(#[trigger] files@[a]@)
                &&& forall|j: int| 0 <= j < fs.len() ==> in_views(files@, #[trigger] fs[j])
                &&& forall|a: int, b: int| 0 <= a < b < files@.len() ==> path_le(#[trigger] files@[a]@, #[trigger] files@[b]@)
            }),
        decreases records@.len() - i,
    {
        let ghost fs = tree_files(recs.take(i as int))->Ok_0;
        proof {
            assert(recs.take(i + 1).drop_last() =~= recs.take(i as int));
            assert(recs.take(i + 1).last() == records@[i as int]@);
        }
        if records[i].len() > 0 {
            match tree_record_exec(records[i].as_slice()) {
                Err(e) => {
                    proof {
                        assert(records@[i as int]@.len() > 0);
                        assert(tree_record(recs.take(i + 1).last()) is Err);
                        assert(tree_files(recs.take(i + 1)) == Err::<Seq<TrackedView>, Seq<char>>(
                            tree_record(records@[i as int]@)->Err_0,
                        ));
                        lemma_tree_error_persists(recs, i + 1);
                    }
                    return Err(e);
                },
                Ok(None) => {},
                Ok(Some(file)) => {
                    let key = chars_of(file.path.as_str());
                    let mut p: usize = 0;
                    let mut stop = false;
                    while p < files.len() && !stop
                        invariant
                            p <= files@.len(),
                            key@ == file.path@,
                            forall|q: int| 0 <= q < p ==> path_le(#[trigger] files@[q]@, file@),
                            stop ==> p < files@.len() && seq_lt(file.path@, files@[p as int].path@),
                        decreases 2 * (files@.len() - p) + if stop {
                            0int
                        } else {
                            1int
                        },
                    {
                        if compare_chars(&key, &chars_of(files[p].path.as_str())) < 0 {
                            stop = true;
                        } else {
                            p = p + 1;
                        }
                    }
                    let ghost old_files = files@;
                    let ghost x = file@;
                    files.insert(p, file);
                    proof {
                        let nfs = fs.push(x);
                        assert forall|a: int| 0 <= a < files@.len() implies nfs.contains(#[trigger] files@[a]@) by {
                            if a < p {
                                assert(files@[a] == old_files[a]);
                                assert(fs.contains(old_files[a]@));
                                let j = choose|j: int| 0 <= j < fs.len() && fs[j] == old_files[a]@;
                                assert(nfs[j] == fs[j]);
                            } else if a == p {
                                assert(nfs[fs.len() as int] == x);
                            } else {
                                assert(files@[a] == old_files[a - 1]);
                                assert(fs.contains(old_files[a - 1]@));
                                let j = choose|j: int| 0 <= j < fs.len() && fs[j] == old_files[a - 1]@;
                                assert(nfs[j] == fs[j]);
                            }
                        }
                        assert forall|j: int| 0 <= j < nfs.len() implies in_views(files@, #[trigger] nfs[j]) by {
                            if j < fs.len() {
                                assert(nfs[j] == fs[j]);
                                assert(in_views(old_files, fs[j]));
                                let a = choose|a: int| 0 <= a < old_files.len() && (#[trigger] old_files[a])@ == fs[j];
                                if a < p {
                                    assert(files@[a] == old_files[a]);
                                } else {
                                    assert(files@[a + 1] == old_files[a]);
                                }
                            } else {
                                assert(files@[p as int]@ == x);
                            }
                        }
                        assert forall|a: int, b: int| 0 <= a < b < files@.len() implies path_le(#[trigger] files@[a]@, #[trigger] files@[b]@) by {
                            if a < p && b < p {
                                assert(files@[a] == old_files[a] && files@[b] == old_files[b]);
                            } else if a < p && b == p {
                                assert(files@[a] == old_files[a]);
                            } else if a < p {
                                assert(files@[a] == old_files[a] && files@[b] == old_files[b - 1]);
                            } else if a == p {
                                assert(files@[b] == old_files[b - 1]);
                                let first = old_files[p as int];
                                if seq_lt(files@[b]@.path, x.path) {
                                    if b - 1 > p {
                                        assert(path_le(first@, old_files[b - 1]@));
                                        lemma_seq_lt_total(first.path@, old_files[b - 1].path@);
                                        if first.path@ != old_files[b - 1].path@ {
                                            lemma_seq_lt_transitive(first.path@, old_files[b - 1].path@, x.path);
                                        }
                                        lemma_seq_lt_transitive(x.path, first.path@, x.path);
                                        lemma_seq_lt_irreflexive(x.path);
                                    } else {
                                        lemma_seq_lt_asymmetric(x.path, first.path@);
                                    }
                                }
                            } else {
                                assert(files@[a] == old_files[a - 1] && files@[b] == old_files[b - 1]);
                            }
                        }
                    }
                },
            }
        }
        i = i + 1;
    }
    assert(recs.take(i as int) =~= recs);
    Ok(files)
}

// ---------------------------------------------------------------------------
// File histories
// ---------------------------------------------------------------------------
/// The recent-activity window: 90 days, in seconds.
pub const RECENT_WINDOW_SECONDS: i64 = 7_776_000;

/// What the history of one file says so far.
pub struct HistoryAccumulator {
    pub created_at: Option<String>,
    pub last_modified_at: Option<String>,
    pub last_timestamp: Option<i64>,
    /// The seconds between consecutive changes, added up.
    pub total_interval_seconds: u128,
    pub total_commits: u32,
    pub recent_commits: u32,
    /// Each author once.
    pub contributors: Vec<String>,
}

pub struct AccumulatorView {
    pub created_at: Option<Seq<char>>,
    pub last_modified_at: Option<Seq<char>>,
    pub last_timestamp: Option<i64>,
    pub total_interval_seconds: u128,
    pub total_commits: u32,
    pub recent_commits: u32,
    pub contributors: Set<Seq<char>>,
}

pub open spec fn opt_view(o: Option<String>) -> Option<Seq<char>> {
    match o {
        Some(s) => Some(s@),
        None => None,
    }
}

impl View for HistoryAccumulator {
    type V = AccumulatorView;

    open spec fn view(&self) -> AccumulatorView {
        AccumulatorView {
            created_at: opt_view(self.created_at),
            last_modified_at: opt_view(self.last_modified_at),
            last_timestamp: self.last_timestamp,
            total_interval_seconds: self.total_interval_seconds,
            total_commits: self.total_commits,
            recent_commits: self.recent_commits,
            contributors: self.contributors@.map_values(|c: String| c@).to_set(),
        }
    }
}

pub open spec fn empty_history() -> AccumulatorView {
    AccumulatorView {
        created_at: None,
        last_modified_at: None,
        last_timestamp: None,
        total_interval_seconds: 0,
        total_commits: 0,
        recent_commits: 0,
        contributors: Set::empty(),
    }
}

pub open spec fn sat_u32(n: int) -> u32 {
    if n > u32::MAX {
        u32::MAX
    } else {
        n as u32
    }
}

/// The seconds from `previous` to `t`, none when `t` is earlier.
pub open spec fn interval(previous: i64, t: i64) -> u128 {
    if t - previous <= 0 {
        0
    } else if t - previous > i64::MAX {
        i64::MAX as u128
    } else {
        (t - previous) as u128
    }
}

/// One more change to the file, made at `t` by `author`.
pub open spec fn observe_spec(a: AccumulatorView, t: i64, authored_at: Seq<char>, author: Seq<char>, cutoff: i64) -> AccumulatorView {
    AccumulatorView {
        created_at: if a.created_at is Some {
            a.created_at
        } else {
            Some(authored_at)
        },
        last_modified_at: Some(authored_at),
        last_timestamp: Some(t),
        total_interval_seconds: match a.last_timestamp {
            Some(p) => if a.total_interval_seconds + interval(p, t) > u128::MAX {
                u128::MAX
            } else {
                (a.total_interval_seconds + interval(p, t)) as u128
            },
            None => a.total_interval_seconds,
        },
        total_commits: sat_u32(a.total_commits + 1),
        recent_commits: if t >= cutoff {
            sat_u32(a.recent_commits + 1)
        } else {
            a.recent_commits
        },
        contributors: a.contributors.insert(author),
    }
}

impl HistoryAccumulator {
    /// Each author is listed once.
    pub open spec fn wf(&self) -> bool {
        self.contributors@.map_values(|c: String| c@).no_duplicates()
    }

    pub fn new() -> (r: Self)
        ensures
            r@ == empty_history(),
            r.wf(),
    {
        let r = HistoryAccumulator {
            created_at: None,
            last_modified_at: None,
            last_timestamp: None,
            total_interval_seconds: 0,
            total_commits: 0,
            recent_commits: 0,
            contributors: Vec::new(),
        };
        assert(r.contributors@.map_values(|c: String| c@).to_set() =~= Set::<Seq<char>>::empty());
        r
    }

    /// Records one more change to the file.
    pub fn observe(&mut self, timestamp: i64, authored_at: &str, author: &str, cutoff: i64)
        requires
            old(self).wf(),
        ensures
            final(self).wf(),
            final(self)@ == observe_spec(old(self)@, timestamp, authored_at@, author@, cutoff),
    {
        if self.created_at.is_none() {
            self.created_at = Some(authored_at.to_owned());
        }
        self.last_modified_at = Some(authored_at.to_owned());
        if let Some(previous) = self.last_timestamp {
            let d: i128 = (timestamp as i128) - (previous as i128);
            let seconds: u128 = if d <= 0 {
                0
            } else if d > i64::MAX as i128 {
                i64::MAX as u128
            } else {
                d as u128
            };
            self.total_interval_seconds = self.total_interval_seconds.saturating_add(seconds);
        }
        self.last_timestamp = Some(timestamp);
        self.total_commits = self.total_commits.saturating_add(1);
        if timestamp >= cutoff {
            self.recent_commits = self.recent_commits.saturating_add(1);
        }
        let key = author.to_owned();
        let mut i: usize = 0;
        let mut seen = false;
        while i < self.contributors.len()
            invariant
                i <= self.contributors@.len(),
                key@ == author@,
                seen == exists|k: int| 0 <= k < i && (#[trigger] self.contributors@[k])@ == author@,
            decreases self.contributors@.len() - i,
        {
            if self.contributors[i] == key {
                seen = true;
            }
            i = i + 1;
        }
        let ghost before = self.contributors@;
        assert(before.map_values(|c: String| c@).no_duplicates());
        if !seen {
            self.contributors.push(key);
        }
        proof {
            let bv = before.map_values(|c: String| c@);
            let nv = self.contributors@.map_values(|c: String| c@);
            if seen {
                let k = choose|k: int| 0 <= k < before.len() && (#[trigger] before[k])@ == author@;
                assert(bv[k] == author@);
                assert(bv.to_set().insert(author@) =~= bv.to_set());
            } else {
                assert(nv =~= bv.push(author@));
                assert forall|a: int, b: int| 0 <= a < nv.len() && 0 <= b < nv.len() && a != b implies nv[a] != nv[b] by {
                    if a < bv.len() && b < bv.len() {
                        assert(nv[a] == bv[a] && nv[b] == bv[b]);
                    } else if a < bv.len() {
                        assert(nv[a] == before[a]@);
                    } else {
                        assert(nv[b] == before[b]@);
                    }
                }
                assert(nv.to_set() =~= bv.to_set().insert(author@)) by {
                    assert forall|x: Seq<char>| nv.to_set().contains(x) <==> bv.to_set().insert(author@).contains(x) by {
                        if nv.to_set().contains(x) {
                            let j = choose|j: int| 0 <= j < nv.len() && nv[j] == x;
                            if j < bv.len() {
                                assert(bv[j] == x);
                            }
                        }
                        if bv.to_set().contains(x) {
                            let j = choose|j: int| 0 <= j < bv.len() && bv[j] == x;
                            assert(nv[j] == x);
                        }
                        if x == author@ {
                            assert(nv[bv.len() as int] == x);
                        }
                    }
                }
            }
        }
    }
}

/// The history of one file, in whole numbers: its first and latest authored
/// dates, how many commits changed it and how many of them recently, how many
/// authors, and the seconds between consecutive changes added up.
#[derive(Debug, Clone, PartialEq, Eq)]
pub struct HistoryCounts {
    pub created_at: String,
    pub last_modified_at: String,
    pub total_commits: u32,
    pub contributors: u32,
    pub total_interval_seconds: u128,
    pub recent_commits: u32,
    pub recent_frequency: RecentFrequency,
}

/// `counts` is what the history `a` finishes as.
pub open spec fn finished(counts: HistoryCounts, a: AccumulatorView) -> bool {
    &&& a.created_at == Some(counts.created_at@)
    &&& a.last_modified_at == Some(counts.last_modified_at@)
    &&& counts.total_commits == a.total_commits
    &&& counts.contributors == sat_u32(a.contributors.len() as int)
    &&& counts.total_interval_seconds == a.total_interval_seconds
    &&& counts.recent_commits == a.recent_commits
    &&& counts.recent_frequency == frequency_of(a.recent_commits)
}

impl HistoryAccumulator {
    /// The finished history, once at least one change was recorded.
    pub fn finish(&self) -> (r: Option<HistoryCounts>)
        requires
            self.wf(),
        ensures
            match r {
                Some(c) => finished(c, self@),
                None => self@.created_at is None || self@.last_modified_at is None,
            },
    {
        let created_at = match &self.created_at {
            Some(c) => c.clone(),
            None => return None,
        };
        let last_modified_at = match &self.last_modified_at {
            Some(c) => c.clone(),
            None => return None,
        };
        proof {
            self.contributors@.map_values(|c: String| c@).unique_seq_to_set();
        }
        let n = self.contributors.len();
        let contributors: u32 = if n > u32::MAX as usize {
            u32::MAX
        } else {
            n as u32
        };
        Some(HistoryCounts {
            created_at,
            last_modified_at,
            total_commits: self.total_commits,
            contributors,
            total_interval_seconds: self.total_interval_seconds,
            recent_commits: self.recent_commits,
            recent_frequency: RecentFrequency::from_recent_commits(self.recent_commits),
        })
    }
}

pub open spec fn history_pairs(v: Seq<(String, HistoryAccumulator)>) -> Seq<(Seq<char>, AccumulatorView)> {
    v.map_values(|p: (String, HistoryAccumulator)| (p.0@, p.1@))
}

pub open spec fn histories_wf(v: Seq<(String, HistoryAccumulator)>) -> bool {
    &&& keys_distinct(history_pairs(v))
    &&& forall|i: int| 0 <= i < v.len() ==> (#[trigger] v[i]).1.wf()
}

pub open spec fn get_or_empty(m: Map<Seq<char>, AccumulatorView>, k: Seq<char>) -> AccumulatorView {
    if m.contains_key(k) {
        m[k]
    } else {
        empty_history()
    }
}

fn find_history(v: &Vec<(String, HistoryAccumulator)>, path: &String) -> (r: Option<usize>)
    requires
        histories_wf(v@),
    ensures
        r matches Some(j) ==> j < v@.len() && v@[j as int].0@ == path@,
        r is None ==> !has_key(history_pairs(v@), path@),
{
    let mut j: usize = 0;
    while j < v.len()
        invariant
            j <= v@.len(),
            forall|k: int| 0 <= k < j ==> (#[trigger] v@[k]).0@ != path@,
        decreases v@.len() - j,
    {
        if v[j].0 == *path {
            return Some(j);
        }
        j = j + 1;
    }
    proof {
        if has_key(history_pairs(v@), path@) {
            let k = choose|k: int| 0 <= k < history_pairs(v@).len() && history_pairs(v@)[k].0 == path@;
            assert(v@[k].0@ == path@);
        }
    }
    None
}

/// Takes the history of `path` out of the map, an empty one when it has none.
fn take_history(v: &mut Vec<(String, HistoryAccumulator)>, path: &String) -> (r: HistoryAccumulator)
    requires
        histories_wf(old(v)@),
    ensures
        histories_wf(final(v)@),
        r.wf(),
        r@ == get_or_empty(seq_map(history_pairs(old(v)@)), path@),
        seq_map(history_pairs(final(v)@)) == seq_map(history_pairs(old(v)@)).remove(path@),
{
    let ghost pairs = history_pairs(v@);
    proof {
        lemma_seq_map(pairs);
    }
    match find_history(v, path) {
        Some(j) => {
            let (_, acc) = v.remove(j);
            proof {
                assert(pairs[j as int] == (path@, acc@));
                lemma_seq_map_remove(pairs, j as int);
                assert(history_pairs(v@) =~= pairs.remove(j as int));
                assert(has_key(pairs, path@));
            }
            acc
        },
        None => {
            assert(seq_map(pairs).remove(path@) =~= seq_map(pairs));
            HistoryAccumulator::new()
        },
    }
}

/// Sets the history of `path`, which the map does not hold.
fn put_history(v: &mut Vec<(String, HistoryAccumulator)>, path: String, acc: HistoryAccumulator)
    requires
        histories_wf(old(v)@),
        acc.wf(),
        !seq_map(history_pairs(old(v)@)).contains_key(path@),
    ensures
        histories_wf(final(v)@),
        seq_map(history_pairs(final(v)@)) == seq_map(history_pairs(old(v)@)).insert(path@, acc@),
{
    let ghost pairs = history_pairs(v@);
    proof {
        lemma_seq_map(pairs);
        lemma_seq_map_insert(pairs, pairs.len() as int, (path@, acc@));
    }
    v.push((path, acc));
    assert(history_pairs(v@) =~= pairs.insert(pairs.len() as int, (path@, acc@)));
}

/// One change recorded for `path`.
fn observe_at(v: &mut Vec<(String, HistoryAccumulator)>, path: String, t: i64, authored_at: &str, author: &str, cutoff: i64)
    requires
        histories_wf(old(v)@),
    ensures
        histories_wf(final(v)@),
        seq_map(history_pairs(final(v)@)) == seq_map(history_pairs(old(v)@)).insert(
            path@,
            observe_spec(get_or_empty(seq_map(history_pairs(old(v)@)), path@), t, authored_at@, author@, cutoff),
        ),
{
    let ghost m = seq_map(history_pairs(v@));
    let mut acc = take_history(v, &path);
    acc.observe(t, authored_at, author, cutoff);
    put_history(v, path, acc);
    assert(m.remove(path@).insert(path@, acc@) =~= m.insert(path@, acc@));
}

/// One change recorded for a file renamed from `from` to `to`, which carries
/// the history of `from`.
fn observe_rename(v: &mut Vec<(String, HistoryAccumulator)>, from: &String, to: String, t: i64, authored_at: &str, author: &str, cutoff: i64)
    requires
        histories_wf(old(v)@),
    ensures
        histories_wf(final(v)@),
        seq_map(history_pairs(final(v)@)) == seq_map(history_pairs(old(v)@)).remove(from@).insert(
            to@,
            observe_spec(get_or_empty(seq_map(history_pairs(old(v)@)), from@), t, authored_at@, author@, cutoff),
        ),
{
    let ghost m = seq_map(history_pairs(v@));
    let mut acc = take_history(v, from);
    acc.observe(t, authored_at, author, cutoff);
    let _replaced = take_history(v, &to);
    put_history(v, to, acc);
    assert(m.remove(from@).remove(to@).insert(to@, acc@) =~= m.remove(from@).insert(to@, acc@));
}

/// What the parser has read so far: the histories, and the commit it is in.
pub struct HistoryState {
    pub histories: Map<Seq<char>, AccumulatorView>,
    pub timestamp: Option<i64>,
    pub authored_at: Option<Seq<char>>,
    pub author: Option<Seq<char>>,
}

/// A token without its leading line breaks.
pub open spec fn trim_newlines(t: Seq<u8>) -> Seq<u8>
    decreases t.len(),
{
    if t.len() > 0 && (t[0] == 10 || t[0] == 13) {
        trim_newlines(t.drop_first())
    } else {
        t
    }
}

pub open spec fn token_at(tokens: Seq<Seq<u8>>, i: int) -> Seq<u8> {
    if 0 <= i < tokens.len() {
        tokens[i]
    } else {
        Seq::empty()
    }
}

/// The text of the token at `i`, empty when there is none.
pub open spec fn text_field(tokens: Seq<Seq<u8>>, i: int, field: Seq<char>) -> Result<Seq<char>, Seq<char>> {
    let t = token_at(tokens, i);
    if valid_utf8(t) {
        Ok(decode_utf8(t))
    } else {
        Err("Git returned a non-UTF-8 "@ + field)
    }
}

/// The token at `i`, read as an `i64`.
pub open spec fn i64_field(tokens: Seq<Seq<u8>>, i: int, field: Seq<char>) -> Result<i64, Seq<char>> {
    match text_field(tokens, i, field) {
        Err(m) => Err(m),
        Ok(s) => match parse_i64_spec(s) {
            Ok(v) => Ok(v as i64),
            Err(k) => Err("invalid "@ + field + ": "@ + kind_message(k)),
        },
    }
}

pub open spec fn malformed_history(m: Seq<char>) -> Seq<char> {
    "malformed Git history: "@ + m
}

/// The bytes of `COMMIT`.
pub open spec fn commit_marker() -> Seq<u8> {
    seq![67u8, 79u8, 77u8, 77u8, 73u8, 84u8]
}

/// Reading the `git log -z --name-status` tokens from position `i`: each
/// commit's timestamp, authored date and author, then the files it added,
/// changed, copied or renamed (a rename carries the old path's history).
pub open spec fn history_from(tokens: Seq<Seq<u8>>, i: int, st: HistoryState, cutoff: i64) -> Result<Map<Seq<char>, AccumulatorView>, Seq<char>>
    decreases tokens.len() + 4 - i,
{
    if i < 0 || i >= tokens.len() {
        Ok(st.histories)
    } else {
        let token = trim_newlines(tokens[i]);
        if token.len() == 0 {
            history_from(tokens, i + 1, st, cutoff)
        } else if token == commit_marker() {
            match i64_field(tokens, i + 1, "commit timestamp"@) {
                Err(m) => Err(m),
                Ok(t) => match text_field(tokens, i + 2, "authored date"@) {
                    Err(m) => Err(m),
                    Ok(a) => match text_field(tokens, i + 3, "author email"@) {
                        Err(m) => Err(m),
                        Ok(e) => history_from(
                            tokens,
                            i + 4,
                            HistoryState { timestamp: Some(t), authored_at: Some(a), author: Some(e), ..st },
                            cutoff,
                        ),
                    },
                },
            }
        } else if !valid_utf8(token) {
            Err("Git returned a non-UTF-8 change status"@)
        } else {
            let status = decode_utf8(token);
            match (st.timestamp, st.authored_at, st.author) {
                (None, _, _) => Err(malformed_history("file change precedes commit"@)),
                (_, None, _) => Err(malformed_history("authored date is missing"@)),
                (_, _, None) => Err(malformed_history("author is missing"@)),
                (Some(t), Some(a), Some(e)) => {
                    let h = st.histories;
                    if status.len() > 0 && status[0] == 'R' {
                        match text_field(tokens, i + 1, "renamed source path"@) {
                            Err(m) => Err(m),
                            Ok(from) => match text_field(tokens, i + 2, "renamed destination path"@) {
                                Err(m) => Err(m),
                                Ok(to) => history_from(
                                    tokens,
                                    i + 3,
                                    HistoryState {
                                        histories: h.remove(from).insert(to, observe_spec(get_or_empty(h, from), t, a, e, cutoff)),
                                        ..st
                                    },
                                    cutoff,
                                ),
                            },
                        }
                    } else if status.len() > 0 && status[0] == 'C' {
                        match text_field(tokens, i + 2, "copied destination path"@) {
                            Err(m) => Err(m),
                            Ok(to) => history_from(
                                tokens,
                                i + 3,
                                HistoryState {
                                    histories: h.insert(to, observe_spec(get_or_empty(h, to), t, a, e, cutoff)),
                                    ..st
                                },
                                cutoff,
                            ),
                        }
                    } else {
                        match text_field(tokens, i + 1, "changed path"@) {
                            Err(m) => Err(m),
                            Ok(path) => history_from(
                                tokens,
                                i + 2,
                                HistoryState {
                                    histories: h.insert(path, observe_spec(get_or_empty(h, path), t, a, e, cutoff)),
                                    ..st
                                },
                                cutoff,
                            ),
                        }
                    }
                },
            }
        }
    }
}

/// The per-file histories of a `git log` output.
pub open spec fn history_spec(bytes: Seq<u8>, cutoff: i64) -> Result<Map<Seq<char>, AccumulatorView>, Seq<char>> {
    history_from(
        split_bytes(bytes, 0),
        0,
        HistoryState { histories: Map::empty(), timestamp: None, authored_at: None, author: None },
        cutoff,
    )
}

fn trim_newlines_exec(t: &[u8]) -> (r: Vec<u8>)
    ensures
        r@ == trim_newlines(t@),
{
    let mut i: usize = 0;
    assert(t@.skip(0) =~= t@);
    while i < t.len() && (t[i] == 10 || t[i] == 13)
        invariant
            i <= t@.len(),
            trim_newlines(t@) == trim_newlines(t@.skip(i as int)),
        decreases t@.len() - i,
    {
        assert(t@.skip(i as int).drop_first() =~= t@.skip(i + 1));
        i = i + 1;
    }
    let r = bytes_slice(t, i, t.len());
    assert(r@ =~= t@.skip(i as int));
    r
}

fn text_field_exec(tokens: &Vec<Vec<u8>>, i: usize, field: &str) -> (r: Result<String, SourceError>)
    ensures
        match text_field(tokens@.map_values(|v: Vec<u8>| v@), i as int, field@) {
            Ok(s) => r matches Ok(x) && x@ == s,
            Err(m) => r matches Err(SourceError::Failed(e)) && e@ == m,
        },
{
    let ghost ts = tokens@.map_values(|v: Vec<u8>| v@);
    let empty: Vec<u8> = Vec::new();
    let t: &[u8] = if i < tokens.len() {
        tokens[i].as_slice()
    } else {
        empty.as_slice()
    };
    assert(t@ == token_at(ts, i as int));
    match from_utf8(t) {
        Ok(s) => Ok(s.to_owned()),
        Err(_) => {
            let mut m = chars_of("Git returned a non-UTF-8 ");
            append_chars(&mut m, &chars_of(field));
            Err(SourceError::Failed(string_of(&m)))
        },
    }
}

fn i64_field_exec(tokens: &Vec<Vec<u8>>, i: usize, field: &str) -> (r: Result<i64, SourceError>)
    ensures
        match i64_field(tokens@.map_values(|v: Vec<u8>| v@), i as int, field@) {
            Ok(v) => r == Ok::<i64, SourceError>(v),
            Err(m) => r matches Err(SourceError::Failed(e)) && e@ == m,
        },
{
    let text = match text_field_exec(tokens, i, field) {
        Ok(t) => t,
        Err(e) => return Err(e),
    };
    match crate::numbers::parse_i64_chars(&chars_of(text.as_str())) {
        Ok(v) => Ok(v),
        Err(k) => {
            let mut m = chars_of("invalid ");
            append_chars(&mut m, &chars_of(field));
            append_chars(&mut m, &chars_of(": "));
            append_chars(&mut m, &chars_of(k.message()));
            Err(SourceError::Failed(string_of(&m)))
        },
    }
}

fn malformed(message: &str) -> (e: SourceError)
    ensures
        e matches SourceError::Failed(m) && m@ == malformed_history(message@),
{
    let mut m = chars_of("malformed Git history: ");
    append_chars(&mut m, &chars_of(message));
    SourceError::Failed(string_of(&m))
}

proof fn lemma_split_bytes_len(s: Seq<u8>, sep: u8)
    ensures
        split_bytes_state(s, sep).0.len() <= s.len(),
        split_bytes(s, sep).len() <= s.len() + 1,
    decreases s.len(),
{
    if s.len() > 0 {
        lemma_split_bytes_len(s.drop_last(), sep);
    }
}

pub open spec fn listed_before(hist: Seq<(String, HistoryAccumulator)>, k: int, name: Seq<char>) -> bool {
    exists|j: int| 0 <= j < k && (#[trigger] hist[j]).0@ == name
}

pub open spec fn history_entries(v: Seq<(String, HistoryCounts)>) -> Seq<(Seq<char>, HistoryCounts)> {
    v.map_values(|p: (String, HistoryCounts)| (p.0@, p.1))
}

/// A history that recorded at least one change.
pub open spec fn has_changes(a: AccumulatorView) -> bool {
    a.created_at is Some && a.last_modified_at is Some
}

/// Reads `git log --reverse --topo-order -z --name-status` output into the
/// history of each file: how many commits changed it, how many of them at
/// or after `recent_cutoff`, by how many authors, when it was created and
/// last modified, and the seconds between consecutive changes.
pub fn parse_history(bytes: &[u8], recent_cutoff: i64) -> (r: Result<Vec<(String, HistoryCounts)>, SourceError>)
    requires
        bytes@.len() <= isize::MAX,
    ensures
        match history_spec(bytes@, recent_cutoff) {
            Err(m) => r matches Err(SourceError::Failed(e)) && e@ == m,
            Ok(h) => r matches Ok(v) && {
                &&& keys_distinct(history_entries(v@))
                &&& forall|p: Seq<char>| #[trigger] h.contains_key(p) && has_changes(h[p]) <==> has_key(history_entries(v@), p)
                &&& forall|i: int| 0 <= i < v@.len() ==> h.contains_key(#[trigger] v@[i].0@) && finished(v@[i].1, h[v@[i].0@])
            },
        },
{
    let tokens = split_bytes_exec(bytes, 0);
    let ghost ts = split_bytes(bytes@, 0);
    proof {
        lemma_split_bytes_len(bytes@, 0);
    }
    let marker: [u8; 6] = [67u8, 79u8, 77u8, 77u8, 73u8, 84u8];
    assert(marker@ =~= commit_marker());
    let mut hist: Vec<(String, HistoryAccumulator)> = Vec::new();
    let mut timestamp: Option<i64> = None;
    let mut authored_at: Option<String> = None;
    let mut author: Option<String> = None;
    proof {
        assert(history_pairs(hist@) =~= Seq::<(Seq<char>, AccumulatorView)>::empty());
        assert(seq_map(history_pairs(hist@)) =~= Map::<Seq<char>, AccumulatorView>::empty());
    }
    let mut i: usize = 0;
    while i < tokens.len()
        invariant
            ts == tokens@.map_values(|v: Vec<u8>| v@),
            ts == split_bytes(bytes@, 0),
            ts.len() <= isize::MAX + 1,
            marker@ == commit_marker(),
            histories_wf(hist@),
            history_spec(bytes@, recent_cutoff) == history_from(
                ts,
                i as int,
                HistoryState {
                    histories: seq_map(history_pairs(hist@)),
                    timestamp,
                    authored_at: opt_view(authored_at),
                    author: opt_view(author),
                },
                recent_cutoff,
            ),
        decreases tokens@.len() + 4 - i,
    {
        let token = trim_newlines_exec(tokens[i].as_slice());
        assert(ts[i as int] == tokens@[i as int]@);
        if token.len() == 0 {
            i = i + 1;
        } else if same_bytes(token.as_slice(), &marker) {
            let t = match i64_field_exec(&tokens, i + 1, "commit timestamp") {
                Ok(t) => t,
                Err(e) => return Err(e),
            };
            let a = match text_field_exec(&tokens, i + 2, "authored date") {
                Ok(a) => a,
                Err(e) => return Err(e),
            };
            let e = match text_field_exec(&tokens, i + 3, "author email") {
                Ok(x) => x,
                Err(e) => return Err(e),
            };
            timestamp = Some(t);
            authored_at = Some(a);
            author = Some(e);
            i = i + 4;
        } else {
            let status = match from_utf8(token.as_slice()) {
                Ok(s) => chars_of(s),
                Err(_) => return Err(source_failure("Git returned a non-UTF-8 change status")),
            };
            let t = match timestamp {
                Some(t) => t,
                None => return Err(malformed("file change precedes commit")),
            };
            let a = match &authored_at {
                Some(a) => a.clone(),
                None => return Err(malformed("authored date is missing")),
            };
            let e = match &author {
                Some(x) => x.clone(),
                None => return Err(malformed("author is missing")),
            };
            if status.len() > 0 && status[0] == 'R' {
                let from = match text_field_exec(&tokens, i + 1, "renamed source path") {
                    Ok(p) => p,
                    Err(err) => return Err(err),
                };
                let to = match text_field_exec(&tokens, i + 2, "renamed destination path") {
                    Ok(p) => p,
                    Err(err) => return Err(err),
                };
                observe_rename(&mut hist, &from, to, t, a.as_str(), e.as_str(), recent_cutoff);
                i = i + 3;
            } else if status.len() > 0 && status[0] == 'C' {
                let to = match text_field_exec(&tokens, i + 2, "copied destination path") {
                    Ok(p) => p,
                    Err(err) => return Err(err),
                };
                observe_at(&mut hist, to, t, a.as_str(), e.as_str(), recent_cutoff);
                i = i + 3;
            } else {
                let path = match text_field_exec(&tokens, i + 1, "changed path") {
                    Ok(p) => p,
                    Err(err) => return Err(err),
                };
                observe_at(&mut hist, path, t, a.as_str(), e.as_str(), recent_cutoff);
                i = i + 2;
            }
        }
    }
    let ghost h = seq_map(history_pairs(hist@));
    proof {
        lemma_seq_map(history_pairs(hist@));
    }
    let mut out: Vec<(String, HistoryCounts)> = Vec::new();
    let mut k: usize = 0;
    while k < hist.len()
        invariant
            k <= hist@.len(),
            histories_wf(hist@),
            h == seq_map(history_pairs(hist@)),
            forall|j: int| 0 <= j < history_pairs(hist@).len() ==> #[trigger] h[history_pairs(hist@)[j].0] == history_pairs(hist@)[j].1,
            forall|p: Seq<char>| #[trigger] h.contains_key(p) <==> has_key(history_pairs(hist@), p),
            forall|x: int| 0 <= x < out@.len() ==> listed_before(hist@, k as int, #[trigger] out@[x].0@),
            forall|j: int| 0 <= j < k && has_changes(#[trigger] hist@[j].1@) ==> has_key(history_entries(out@), hist@[j].0@),
            forall|x: int| 0 <= x < out@.len() ==> h.contains_key(#[trigger] out@[x].0@) && finished(out@[x].1, h[out@[x].0@]),
            keys_distinct(history_entries(out@)),
            forall|x: int| 0 <= x < out@.len() ==> has_changes(h[#[trigger] out@[x].0@]),
        decreases hist@.len() - k,
    {
        let path = &hist[k].0;
        assert(history_pairs(hist@)[k as int] == (path@, hist@[k as int].1@));
        assert(has_key(history_pairs(hist@), path@));
        match hist[k].1.finish() {
            Some(counts) => {
                let ghost before = out@;
                out.push((path.clone(), counts));
                proof {
                    assert forall|a: int, b: int| 0 <= a < out@.len() && 0 <= b < out@.len() && a != b implies history_entries(out@)[a].0 != history_entries(out@)[b].0 by {
                        if a < before.len() && b < before.len() {
                            assert(history_entries(before)[a] == history_entries(out@)[a]);
                            assert(history_entries(before)[b] == history_entries(out@)[b]);
                        } else {
                            let o = if a < before.len() { a } else { b };
                            assert(listed_before(hist@, k as int, out@[o].0@));
                            let j = choose|j: int| 0 <= j < k && (#[trigger] hist@[j]).0@ == out@[o].0@;
                            assert(history_pairs(hist@)[j].0 == hist@[j].0@);
                            assert(history_pairs(hist@)[k as int].0 == hist@[k as int].0@);
                        }
                    }
                    assert forall|j: int| 0 <= j < k + 1 && has_changes(#[trigger] hist@[j].1@) implies has_key(history_entries(out@), hist@[j].0@) by {
                        if j < k {
                            let x = choose|x: int| 0 <= x < history_entries(before).len() && history_entries(before)[x].0 == hist@[j].0@;
                            assert(history_entries(out@)[x] == history_entries(before)[x]);
                        } else {
                            assert(history_entries(out@)[before.len() as int].0 == hist@[j].0@);
                        }
                    }
                    assert forall|x: int| 0 <= x < out@.len() implies listed_before(hist@, k + 1, #[trigger] out@[x].0@) by {
                        if x < before.len() {
                            assert(out@[x] == before[x]);
                            assert(listed_before(hist@, k as int, before[x].0@));
                            let j = choose|j: int| 0 <= j < k && (#[trigger] hist@[j]).0@ == before[x].0@;
                        } else {
                            assert(hist@[k as int].0@ == out@[x].0@);
                        }
                    }
                }
            },
            None => {
                proof {
                    assert forall|j: int| 0 <= j < k + 1 && has_changes(#[trigger] hist@[j].1@) implies has_key(history_entries(out@), hist@[j].0@) by {
                    }
                    assert forall|x: int| 0 <= x < out@.len() implies listed_before(hist@, k + 1, #[trigger] out@[x].0@) by {
                        assert(listed_before(hist@, k as int, out@[x].0@));
                        let j = choose|j: int| 0 <= j < k && (#[trigger] hist@[j]).0@ == out@[x].0@;
                    }
                }
            },
        }
        k = k + 1;
    }
    proof {
        assert forall|p: Seq<char>| #[trigger] h.contains_key(p) && has_changes(h[p]) <==> has_key(history_entries(out@), p) by {
            if h.contains_key(p) && has_changes(h[p]) {
                let j = choose|j: int| 0 <= j < history_pairs(hist@).len() && history_pairs(hist@)[j].0 == p;
                assert(hist@[j].0@ == p);
                assert(h[p] == hist@[j].1@);
            }
            if has_key(history_entries(out@), p) {
                let x = choose|x: int| 0 <= x < history_entries(out@).len() && history_entries(out@)[x].0 == p;
                assert(out@[x].0@ == p);
            }
        }
    }
    Ok(out)
}

// ---------------------------------------------------------------------------
// Repository snapshots
// ---------------------------------------------------------------------------
/// A repository at one commit: where its worktree is, what it is called, and
/// what its branch, remote and working tree looked like.
#[derive(Debug, Clone, PartialEq, Eq)]
pub struct RepositorySnapshot {
    pub root: String,
    pub repository: RepositoryId,
    pub commit: GitOid,
    pub branch: Option<String>,
    pub remote: Option<String>,
    pub dirty: bool,
}

impl RepositorySnapshot {
    /// The revision this snapshot is of.
    pub fn revision(&self) -> (r: RevisionId)
        ensures
            r.repository@ == self.repository@,
            r.commit@ == self.commit@,
    {
        RevisionId::new(self.repository.as_str(), self.commit.as_str())
    }
}

/// The Git source of code worlds.
#[derive(Debug, Clone, Copy, Default)]
pub struct GitRepositorySource;

/// The version the library's components report of themselves.
pub const PACKAGE_VERSION: &'static str = "0.1.0";

impl WorldSource for GitRepositorySource {
    fn descriptor(&self) -> (d: SourceDescriptor)
        ensures
            d.name@ == "git"@,
            d.version@ == PACKAGE_VERSION@,
            d.model@ == CODE_MODEL_ID@,
    {
        SourceDescriptor { name: "git".to_owned(), version: PACKAGE_VERSION.to_owned(), model: ModelId::new(CODE_MODEL_ID) }
    }
}

/// A text attribute that may be absent (then null).
pub open spec fn optional_text_view(o: Option<String>) -> AttributeView {
    match o {
        Some(s) => AttributeView::Text(s@),
        None => AttributeView::Null,
    }
}

fn optional_text(o: &Option<String>) -> (v: AttributeValue)
    ensures
        v@ == optional_text_view(*o),
{
    match o {
        Some(s) => AttributeValue::Text(s.clone()),
        None => AttributeValue::Null,
    }
}

/// What the Git source records of a snapshot: the repository, branch and
/// remote, and whether the working tree was dirty.
pub open spec fn snapshot_metadata(s: RepositorySnapshot) -> Map<Seq<char>, AttributeView> {
    Map::empty()
        .insert("repository_id"@, AttributeView::Text(s.repository@))
        .insert("branch"@, optional_text_view(s.branch))
        .insert("remote"@, optional_text_view(s.remote))
        .insert("working_tree_dirty"@, AttributeView::Bool(s.dirty))
}

fn snapshot_attributes(s: &RepositorySnapshot) -> (a: Attributes)
    ensures
        a.wf(),
        a@ == snapshot_metadata(*s),
{
    let mut entries: Vec<(String, AttributeValue)> = Vec::new();
    entries.push(("repository_id".to_owned(), AttributeValue::Text(s.repository.as_str().to_owned())));
    entries.push(("branch".to_owned(), optional_text(&s.branch)));
    entries.push(("remote".to_owned(), optional_text(&s.remote)));
    entries.push(("working_tree_dirty".to_owned(), AttributeValue::Bool(s.dirty)));
    proof {
        reveal_strlit("repository_id");
        reveal_strlit("branch");
        reveal_strlit("remote");
        reveal_strlit("working_tree_dirty");
        reveal_with_fuel(seq_map, 5);
        let pairs = attribute_pairs(entries@);
        assert(pairs[0].0 == "repository_id"@ && pairs[1].0 == "branch"@ && pairs[2].0 == "remote"@
            && pairs[3].0 == "working_tree_dirty"@);
        assert("branch"@[0] != "remote"@[0]);
        assert forall|i: int, j: int| 0 <= i < pairs.len() && 0 <= j < pairs.len() && i != j implies pairs[i].0 != pairs[j].0 by {
            if pairs[i].0 == pairs[j].0 {
                assert(pairs[i].0.len() == pairs[j].0.len());
                assert(pairs[i].0[0] == pairs[j].0[0]);
            }
        }
        assert(seq_map(pairs) =~= snapshot_metadata(*s));
    }
    Attributes { entries }
}

impl GitRepositorySource {
    /// What resolving a request to `snapshot` gives: an analysis input with
    /// one Git source at the snapshot's commit, and the snapshot's metadata.
    pub fn resolution(snapshot: &RepositorySnapshot) -> (r: SourceResolution)
        ensures
            r.metadata.wf(),
            r.metadata@ == snapshot_metadata(*snapshot),
            r.input.snapshot.world@ == repository_world(snapshot.repository@),
            r.input.snapshot.version@ == snapshot.commit@,
            r.input.sources@.len() == 1,
            r.input.sources@[0].kind@ == GIT_SOURCE_KIND@,
            r.input.sources@[0].locator@ == snapshot.root@,
            r.input.sources@[0].cursor matches Some(c) && c@ == snapshot.commit@,
            r.input.sources@[0].attributes.wf(),
            r.input.sources@[0].attributes@ == snapshot_metadata(*snapshot),
            r.input.changed_entities is None,
    {
        let revision = snapshot.revision();
        let reference = SourceReference {
            kind: GIT_SOURCE_KIND.to_owned(),
            locator: snapshot.root.clone(),
            cursor: Some(snapshot.commit.as_str().to_owned()),
            attributes: snapshot_attributes(snapshot),
        };
        let mut sources: Vec<SourceReference> = Vec::new();
        sources.push(reference);
        SourceResolution {
            input: AnalysisInput { snapshot: revision.snapshot(), sources, changed_entities: None },
            metadata: snapshot_attributes(snapshot),
        }
    }
}

/// The index of the first source of the given kind.
pub open spec fn first_of_kind(sources: Seq<SourceReference>, kind: Seq<char>) -> Option<int>
    decreases sources.len(),
{
    if sources.len() == 0 {
        None
    } else if sources.last().kind@ == kind && first_of_kind(sources.drop_last(), kind) is None {
        Some(sources.len() - 1)
    } else {
        first_of_kind(sources.drop_last(), kind)
    }
}

/// The Git source of an analysis input (the first one) and the commit it is
/// pinned to.
pub fn git_source(input: &AnalysisInput) -> (r: Result<(usize, String), AnalyzerError>)
    ensures
        match first_of_kind(input.sources@, GIT_SOURCE_KIND@) {
            None => r matches Err(AnalyzerError::Unavailable(m)) && m@ == "Git repository source is missing"@,
            Some(i) => match input.sources@[i].cursor {
                None => r matches Err(AnalyzerError::Failed(m)) && m@ == "Git source cursor is missing"@,
                Some(c) => r matches Ok(p) && p.0 == i && p.1@ == c@,
            },
        },
{
    let kind = chars_of(GIT_SOURCE_KIND);
    let mut i: usize = 0;
    while i < input.sources.len()
        invariant
            i <= input.sources@.len(),
            kind@ == GIT_SOURCE_KIND@,
            first_of_kind(input.sources@.take(i as int), GIT_SOURCE_KIND@) is None,
        decreases input.sources@.len() - i,
    {
        assert(input.sources@.take(i + 1).drop_last() =~= input.sources@.take(i as int));
        if crate::text::same_chars(&chars_of(input.sources[i].kind.as_str()), &kind) {
            proof {
                lemma_first_of_kind_extends(input.sources@, i as int + 1, GIT_SOURCE_KIND@);
            }
            return match &input.sources[i].cursor {
                Some(c) => Ok((i, c.clone())),
                None => Err(AnalyzerError::Failed("Git source cursor is missing".to_owned())),
            };
        }
        i = i + 1;
    }
    assert(input.sources@.take(i as int) =~= input.sources@);
    Err(AnalyzerError::Unavailable("Git repository source is missing".to_owned()))
}

/// Once a prefix has a source of the kind, the first one stays where it is.
proof fn lemma_first_of_kind_extends(sources: Seq<SourceReference>, k: int, kind: Seq<char>)
    requires
        0 <= k <= sources.len(),
        first_of_kind(sources.take(k), kind) is Some,
    ensures
        first_of_kind(sources, kind) == first_of_kind(sources.take(k), kind),
    decreases sources.len() - k,
{
    if k < sources.len() {
        assert(sources.take(k + 1).drop_last() =~= sources.take(k));
        lemma_first_of_kind_extends(sources, k + 1, kind);
    } else {
        assert(sources.take(k) =~= sources);
    }
}

/// Whether a snapshot is the one an analysis input asks for.
pub fn check_snapshot(snapshot: &RepositorySnapshot, input: &AnalysisInput) -> (r: Result<(), AnalyzerError>)
    ensures
        r is Ok <==> (repository_world(snapshot.repository@) == input.snapshot.world@ && snapshot.commit@
            == input.snapshot.version@),
        r matches Err(e) ==> e matches AnalyzerError::Failed(m) && m@ == "Git source resolved to a different snapshot"@,
{
    let resolved = snapshot.revision().snapshot();
    let same = crate::text::same_chars(&chars_of(resolved.world.0.as_str()), &chars_of(input.snapshot.world.0.as_str()))
        && crate::text::same_chars(&chars_of(resolved.version.0.as_str()), &chars_of(input.snapshot.version.0.as_str()));
    if same {
        Ok(())
    } else {
        Err(AnalyzerError::Failed("Git source resolved to a different snapshot".to_owned()))
    }
}

/// What a finished Git command means: its output is used when it exited
/// with status 0; an optional query that exited with status 1 found nothing;
/// anything else is an error quoting the command and its standard error.
pub fn git_outcome(arguments: &[&str], optional: bool, code: Option<i32>, stderr: &[u8]) -> (r: Result<bool, SourceError>)
    ensures
        code == Some(0i32) ==> (r matches Ok(b) && b),
        code != Some(0i32) && optional && code == Some(1i32) ==> (r matches Ok(b) && !b),
        code != Some(0i32) && !(optional && code == Some(1i32)) ==> (r matches Err(SourceError::Failed(m)) && m@
            == "git "@ + joined(arguments@.map_values(|a: &str| a@), " "@) + ": "@ + trim(lossy_text(stderr@))),
{
    if code == Some(0i32) {
        return Ok(true);
    }
    if optional && code == Some(1i32) {
        return Ok(false);
    }
    let parts = crate::model_code::owned_all(arguments);
    let mut m = chars_of("git ");
    append_chars(&mut m, &chars_of(join_strings(&parts, " ").as_str()));
    append_chars(&mut m, &chars_of(": "));
    append_chars(&mut m, &trimmed(&chars_of(decode_lossy(stderr).as_str())));
    Err(SourceError::Failed(string_of(&m)))
}

/// The analyzer that lists a snapshot's tracked files.
#[derive(Debug, Clone, Copy, Default)]
pub struct GitRepositoryAnalyzer;

/// The text Git printed, without surrounding white space.
pub fn output_text(stdout: &[u8], field: &str) -> (r: Result<String, SourceError>)
    ensures
        valid_utf8(stdout@) ==> (r matches Ok(s) && s@ == trim(decode_utf8(stdout@))),
        !valid_utf8(stdout@) ==> (r matches Err(SourceError::Failed(m)) && m@ == "Git returned a non-UTF-8 "@ + field@),
{
    match from_utf8(stdout) {
        Ok(s) => Ok(string_of(&trimmed(&chars_of(s)))),
        Err(_) => {
            let mut m = chars_of("Git returned a non-UTF-8 ");
            append_chars(&mut m, &chars_of(field));
            Err(SourceError::Failed(string_of(&m)))
        },
    }
}

/// The start of the recent-activity window of a snapshot made at `timestamp`:
/// ninety days before it.
pub fn recent_cutoff(timestamp: i64) -> (c: i64)
    ensures
        c == (if timestamp - RECENT_WINDOW_SECONDS < i64::MIN {
            i64::MIN
        } else {
            (timestamp - RECENT_WINDOW_SECONDS) as i64
        }),
{
    if timestamp < i64::MIN + RECENT_WINDOW_SECONDS {
        i64::MIN
    } else {
        timestamp - RECENT_WINDOW_SECONDS
    }
}

/// The commit time Git printed for a snapshot (`git show -s --format=%at`).
pub fn snapshot_timestamp(stdout: &[u8]) -> (r: Result<i64, SourceError>)
    ensures
        !valid_utf8(stdout@) ==> (r matches Err(SourceError::Failed(m)) && m@ == "Git returned a non-UTF-8 timestamp"@),
        valid_utf8(stdout@) ==> match parse_i64_spec(trim(decode_utf8(stdout@))) {
            Ok(v) => r == Ok::<i64, SourceError>(v as i64),
            Err(k) => r matches Err(SourceError::Failed(m)) && m@ == "invalid snapshot timestamp: "@ + kind_message(k),
        },
{
    let text = match from_utf8(stdout) {
        Ok(s) => trimmed(&chars_of(s)),
        Err(_) => return Err(source_failure("Git returned a non-UTF-8 timestamp")),
    };
    match crate::numbers::parse_i64_chars(&text) {
        Ok(v) => Ok(v),
        Err(k) => {
            let mut m = chars_of("invalid snapshot timestamp: ");
            append_chars(&mut m, &chars_of(k.message()));
            Err(SourceError::Failed(string_of(&m)))
        },
    }
}

/// The entity observation of a tracked file at a revision.
pub open spec fn file_observed(o: EntityObservation, f: TrackedFile, repository: Seq<char>, commit: Seq<char>) -> bool {
    &&& o.wf()
    &&& o.snapshot.world@ == repository_world(repository)
    &&& o.snapshot.version@ == commit
    &&& o.entity.id@ == "file:"@ + f.path@
    &&& o.entity.model@ == CODE_MODEL_ID@
    &&& o.entity.kind@ == "file"@
    &&& o.entity.label@ == f.path@
    &&& o.attributes@ == file_attributes(f.path@, f.blob_oid@, f.mode@, f.size, f.language@)
    &&& o.measurements@.len() == 0
    &&& o.scores@.len() == 0
}

/// The inventory of a snapshot: one file entity per tracked file, in order,
/// in a batch that covers the snapshot partly, read from the repository at
/// `root`.
pub fn inventory_batch(revision: &RevisionId, root: &str, files: &[TrackedFile]) -> (b: CodeBatch)
    ensures
        revision_view(b.revision) == (revision.repository@, revision.commit@),
        b.coverage == AnalysisCoverage::Partial,
        b.provenance@.len() == 1,
        b.provenance@[0].analyzer@ == "git.repository.inventory"@,
        b.provenance@[0].version@ == PACKAGE_VERSION@,
        b.provenance@[0].configuration_digest is None,
        b.provenance@[0].source matches Some(s) && s@ == root@,
        b.symbols@.len() == files@.len(),
        forall|i: int| 0 <= i < files@.len() ==> file_observed(
            #[trigger] b.symbols@[i],
            files@[i],
            revision.repository@,
            revision.commit@,
        ),
        b.dependencies@.len() == 0,
        b.diagnostics@.len() == 0,
{
    let mut batch: CodeBatch = ObservationBatch::empty(RevisionId::new(revision.repository.as_str(), revision.commit.as_str()));
    batch.coverage = AnalysisCoverage::Partial;
    batch.provenance.push(
        AnalyzerProvenance {
            analyzer: "git.repository.inventory".to_owned(),
            version: PACKAGE_VERSION.to_owned(),
            configuration_digest: None,
            source: Some(root.to_owned()),
        },
    );
    let mut i: usize = 0;
    while i < files.len()
        invariant
            i <= files@.len(),
            revision_view(batch.revision) == (revision.repository@, revision.commit@),
            batch.coverage == AnalysisCoverage::Partial,
            batch.provenance@.len() == 1,
            batch.provenance@[0].analyzer@ == "git.repository.inventory"@,
            batch.provenance@[0].version@ == PACKAGE_VERSION@,
            batch.provenance@[0].configuration_digest is None,
            batch.provenance@[0].source matches Some(s) && s@ == root@,
            batch.symbols@.len() == i,
            forall|k: int| 0 <= k < i ==> file_observed(
                #[trigger] batch.symbols@[k],
                files@[k],
                revision.repository@,
                revision.commit@,
            ),
            batch.dependencies@.len() == 0,
            batch.diagnostics@.len() == 0,
        decreases files@.len() - i,
    {
        let f = &files[i];
        batch.symbols.push(file_observation(revision, f.path.as_str(), f.blob_oid.as_str(), f.mode.as_str(), f.size, &f.language));
        i = i + 1;
    }
    batch
}

} // verus!
