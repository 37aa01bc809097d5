//! Comparison of text/code files (SHA-256 fast path, size guard, line counts,
//! unified diff, character similarity) and of binary files (size and
//! SHA-256). Reading files happens outside the library, which says at each
//! step what it needs next: see [`CodeDiffStep`].
use vstd::prelude::*;
use crate::digest::{hex_lower, sha256, sha256_of, to_hex};
use crate::paths::{forward_slashes, rel_to_str};
use crate::ratio::Ratio;
use crate::text::{lossy_utf8, push_str, utf8_lossy};
use crate::textdiff::{
    added_total, char_diff, char_diff_ops, equal_total, lemma_tiled_totals, lemma_totals_bounded,
    line_diff, line_diff_ops, new_total, old_total, op_totals, removed_total, unified_diff,
    unified_diff_text, DiffOp,
};

verus! {

/// Files larger than this are not read for a full diff.
pub open spec fn max_diff_bytes() -> u64 {
    2097152
}

/// Lines of context around each hunk of the unified diff.
pub open spec fn context_radius() -> usize {
    3
}

/// Result of comparing two text/code files.
#[derive(Debug, Clone)]
pub struct CodeDiffResult {
    pub path: String,
    pub identical: bool,
    pub added_lines: u32,
    pub removed_lines: u32,
    /// Character-level match ratio `2·M / (|a| + |b|)`, one for two empty texts.
    pub similarity: Ratio,
    pub unified_diff: String,
    pub note: String,
    pub error: Option<String>,
}

/// What comparing two code files needs next, or its result.
#[derive(Debug)]
pub enum CodeDiffStep {
    /// The comparison is finished.
    Done(CodeDiffResult),
    /// Hash both files (SHA-256) and continue with [`code_diff_after_hash`].
    HashBoth,
    /// Read both files and continue with [`code_diff_from_texts`].
    ReadBoth,
}

/// `r` reports the error `msg` for `path`, with the defaults of the other fields
/// (similarity one, no counts).
pub open spec fn is_error_result(r: CodeDiffResult, path: Seq<char>, msg: Seq<char>) -> bool {
    &&& r.path@ == path
    &&& !r.identical
    &&& r.added_lines == 0
    &&& r.removed_lines == 0
    &&& r.similarity == Ratio { num: 1, den: 1 }
    &&& r.unified_diff@ == Seq::<char>::empty()
    &&& r.note@ == Seq::<char>::empty()
    &&& r.error matches Some(e) && e@ == msg
}

/// `r` reports two identical files.
pub open spec fn is_identical_result(r: CodeDiffResult, path: Seq<char>) -> bool {
    &&& r.path@ == path
    &&& r.identical
    &&& r.added_lines == 0
    &&& r.removed_lines == 0
    &&& r.similarity == Ratio { num: 1, den: 1 }
    &&& r.unified_diff@ == Seq::<char>::empty()
    &&& r.note@ == Seq::<char>::empty()
    &&& r.error is None
}

/// `r` reports that the files were too large for a full diff.
pub open spec fn is_too_large_result(r: CodeDiffResult, path: Seq<char>) -> bool {
    &&& r.path@ == path
    &&& !r.identical
    &&& r.added_lines == 0
    &&& r.removed_lines == 0
    &&& r.similarity == Ratio { num: 1, den: 1 }
    &&& r.unified_diff@ == Seq::<char>::empty()
    &&& r.note@ == "skipped full diff: file too large (>2097152 bytes)"@
    &&& r.error is None
}

/// Character similarity of two texts: `2·M / (|a| + |b|)` where `M` counts the
/// characters the Myers diff keeps; one when both texts are empty.
pub open spec fn char_similarity(a: Seq<char>, b: Seq<char>) -> Ratio {
    if a.len() + b.len() == 0 {
        Ratio { num: 1, den: 1 }
    } else {
        Ratio { num: (2 * equal_total(char_diff(a, b))) as u64, den: (a.len() + b.len()) as u64 }
    }
}

/// `r` is the full comparison of the texts `a` and `b` at `path`.
pub open spec fn is_text_result(
    r: CodeDiffResult,
    path: Seq<char>,
    a: Seq<char>,
    b: Seq<char>,
    include_full_diff: bool,
) -> bool {
    &&& r.path@ == path
    &&& r.added_lines == added_total(line_diff(a, b))
    &&& r.removed_lines == removed_total(line_diff(a, b))
    &&& r.identical == (r.added_lines == 0 && r.removed_lines == 0)
    &&& r.similarity == char_similarity(a, b)
    &&& r.similarity.wf()
    &&& r.similarity.at_most_one()
    &&& r.unified_diff@ == (if include_full_diff {
        unified_diff_text(a, b, context_radius(), "a/"@ + path, "b/"@ + path)
    } else {
        Seq::<char>::empty()
    })
    &&& (include_full_diff && (r.added_lines > 0 || r.removed_lines > 0)) ==> r.unified_diff@.len()
        > 0
    &&& r.note@ == Seq::<char>::empty()
    &&& r.error is None
}

/// An error result for `path`.
fn make_error(path: String, msg: String) -> (r: CodeDiffResult)
    ensures
        is_error_result(r, path@, msg@),
{
    CodeDiffResult {
        path,
        identical: false,
        added_lines: 0,
        removed_lines: 0,
        similarity: Ratio { num: 1, den: 1 },
        unified_diff: String::new(),
        note: String::new(),
        error: Some(msg),
    }
}

/// `"stat: "` followed by `e`.
fn stat_message(e: &String) -> (res: String)
    ensures
        res@ == "stat: "@ + e@,
{
    let mut m = String::new();
    push_str(&mut m, "stat: ");
    push_str(&mut m, e.as_str());
    assert(Seq::<char>::empty() + "stat: "@ =~= "stat: "@);
    m
}

/// The note for files too large to diff.
fn too_large(path: String) -> (r: CodeDiffResult)
    ensures
        is_too_large_result(r, path@),
{
    let mut note = String::new();
    push_str(&mut note, "skipped full diff: file too large (>2097152 bytes)");
    assert(Seq::<char>::empty() + "skipped full diff: file too large (>2097152 bytes)"@
        =~= "skipped full diff: file too large (>2097152 bytes)"@);
    CodeDiffResult {
        path,
        identical: false,
        added_lines: 0,
        removed_lines: 0,
        similarity: Ratio { num: 1, den: 1 },
        unified_diff: String::new(),
        note,
        error: None,
    }
}

/// First step of comparing two code files, given their sizes (or the error
/// reading their metadata). Equal sizes call for hashing; otherwise files above
/// 2 MiB get a note and smaller ones are read.
pub fn code_diff_after_stat(rel: &str, size_a: &Result<u64, String>, size_b: &Result<u64, String>)
    -> (res: CodeDiffStep)
    ensures
        match (size_a, size_b) {
            (Err(e), _) => res matches CodeDiffStep::Done(r) && is_error_result(
                r,
                forward_slashes(rel@),
                "stat: "@ + e@,
            ),
            (Ok(_), Err(e)) => res matches CodeDiffStep::Done(r) && is_error_result(
                r,
                forward_slashes(rel@),
                "stat: "@ + e@,
            ),
            (Ok(sa), Ok(sb)) => if sa == sb {
                res is HashBoth
            } else if *sa > max_diff_bytes() || *sb > max_diff_bytes() {
                res matches CodeDiffStep::Done(r) && is_too_large_result(r, forward_slashes(rel@))
            } else {
                res is ReadBoth
            },
        },
{
    let path = rel_to_str(rel);
    match (size_a, size_b) {
        (Err(e), _) => CodeDiffStep::Done(make_error(path, stat_message(e))),
        (Ok(_), Err(e)) => CodeDiffStep::Done(make_error(path, stat_message(e))),
        (Ok(sa), Ok(sb)) => {
            if *sa == *sb {
                CodeDiffStep::HashBoth
            } else if *sa > 2097152 || *sb > 2097152 {
                CodeDiffStep::Done(too_large(path))
            } else {
                CodeDiffStep::ReadBoth
            }
        },
    }
}

/// Equality of two byte slices.
pub fn bytes_eq(a: &[u8], b: &[u8]) -> (res: bool)
    ensures
        res == (a@ == b@),
{
    if a.len() != b.len() {
        return false;
    }
    let mut i: usize = 0;
    while i < a.len()
        invariant
            a.len() == b.len(),
            i <= a.len(),
            forall|k: int| 0 <= k < i ==> a@[k] == b@[k],
        decreases a.len() - i,
    {
        if a[i] != b[i] {
            return false;
        }
        i += 1;
    }
    assert(a@ =~= b@);
    true
}

/// Second step, for files of equal size: their SHA-256 digests (or the error
/// hashing them). Equal digests mean identical files; otherwise the size guard
/// applies as in the first step.
pub fn code_diff_after_hash(
    rel: &str,
    size_a: u64,
    size_b: u64,
    hash_a: &Result<Vec<u8>, String>,
    hash_b: &Result<Vec<u8>, String>,
) -> (res: CodeDiffStep)
    ensures
        match (hash_a, hash_b) {
            (Ok(ha), Ok(hb)) => if ha@ == hb@ {
                res matches CodeDiffStep::Done(r) && is_identical_result(r, forward_slashes(rel@))
            } else if size_a > max_diff_bytes() || size_b > max_diff_bytes() {
                res matches CodeDiffStep::Done(r) && is_too_large_result(r, forward_slashes(rel@))
            } else {
                res is ReadBoth
            },
            (Err(e), _) => res matches CodeDiffStep::Done(r) && is_error_result(
                r,
                forward_slashes(rel@),
                "stat: "@ + e@,
            ),
            (Ok(_), Err(e)) => res matches CodeDiffStep::Done(r) && is_error_result(
                r,
                forward_slashes(rel@),
                "stat: "@ + e@,
            ),
        },
{
    let path = rel_to_str(rel);
    match (hash_a, hash_b) {
        (Ok(ha), Ok(hb)) => {
            if bytes_eq(ha.as_slice(), hb.as_slice()) {
                CodeDiffStep::Done(
                    CodeDiffResult {
                        path,
                        identical: true,
                        added_lines: 0,
                        removed_lines: 0,
                        similarity: Ratio { num: 1, den: 1 },
                        unified_diff: String::new(),
                        note: String::new(),
                        error: None,
                    },
                )
            } else if size_a > 2097152 || size_b > 2097152 {
                CodeDiffStep::Done(too_large(path))
            } else {
                CodeDiffStep::ReadBoth
            }
        },
        (Err(e), _) => CodeDiffStep::Done(make_error(path, stat_message(e))),
        (Ok(_), Err(e)) => CodeDiffStep::Done(make_error(path, stat_message(e))),
    }
}

/// Covered totals are the unchanged elements plus the removed (added) ones.
proof fn lemma_totals_split(ops: Seq<DiffOp>)
    ensures
        old_total(ops) == equal_total(ops) + removed_total(ops),
        new_total(ops) == equal_total(ops) + added_total(ops),
    decreases ops.len(),
{
    if ops.len() > 0 {
        lemma_totals_split(ops.drop_last());
    }
}

/// `prefix` followed by `path`.
fn prefixed(prefix: &str, path: &String) -> (res: String)
    ensures
        res@ == prefix@ + path@,
{
    let mut h = String::new();
    push_str(&mut h, prefix);
    push_str(&mut h, path.as_str());
    assert(Seq::<char>::empty() + prefix@ =~= prefix@);
    h
}

/// Character similarity of two texts (see [`char_similarity`]), from the
/// Myers character diff.
pub fn text_similarity(a: &str, b: &str) -> (res: Ratio)
    requires
        a@.len() <= u32::MAX,
        b@.len() <= u32::MAX,
    ensures
        res == char_similarity(a@, b@),
        res.wf(),
        res.at_most_one(),
{
    let cops = char_diff_ops(a, b);
    proof {
        lemma_tiled_totals(cops@, a@.len() as int, b@.len() as int);
        lemma_totals_split(cops@);
        lemma_totals_bounded(cops@);
    }
    let (kept, gone, came) = op_totals(&cops);
    let total: u64 = kept + gone + kept + came;
    if total == 0 {
        Ratio { num: 1, den: 1 }
    } else {
        Ratio { num: 2 * kept, den: total }
    }
}

/// Last step: the contents of both files (or the error reading them). The
/// bytes are decoded as UTF-8 with ill-formed sequences replaced; lines added
/// and removed come from a Myers line diff, similarity from a character diff.
pub fn code_diff_from_texts(
    rel: &str,
    bytes_a: &Result<Vec<u8>, String>,
    bytes_b: &Result<Vec<u8>, String>,
    include_full_diff: bool,
) -> (res: CodeDiffResult)
    requires
        bytes_a matches Ok(a) ==> a@.len() <= u32::MAX,
        bytes_b matches Ok(b) ==> b@.len() <= u32::MAX,
    ensures
        match (bytes_a, bytes_b) {
            (Err(e), _) => is_error_result(res, forward_slashes(rel@), e@),
            (Ok(_), Err(e)) => is_error_result(res, forward_slashes(rel@), e@),
            (Ok(a), Ok(b)) => is_text_result(
                res,
                forward_slashes(rel@),
                lossy_utf8(a@),
                lossy_utf8(b@),
                include_full_diff,
            ),
        },
{
    let path = rel_to_str(rel);
    let (a, b) = match (bytes_a, bytes_b) {
        (Err(e), _) => {
            return make_error(path, e.clone());
        },
        (Ok(_), Err(e)) => {
            return make_error(path, e.clone());
        },
        (Ok(a), Ok(b)) => (a, b),
    };
    let ta = utf8_lossy(a.as_slice());
    let tb = utf8_lossy(b.as_slice());
    let lops = line_diff_ops(ta.as_str(), tb.as_str());
    proof {
        lemma_totals_bounded(lops@);
    }
    let (_, removed, added) = op_totals(&lops);
    let unified = if include_full_diff {
        let ha = prefixed("a/", &path);
        let hb = prefixed("b/", &path);
        unified_diff(ta.as_str(), tb.as_str(), 3, ha.as_str(), hb.as_str())
    } else {
        String::new()
    };
    let similarity = text_similarity(ta.as_str(), tb.as_str());
    let added_lines = added as u32;
    let removed_lines = removed as u32;
    CodeDiffResult {
        path,
        identical: added_lines == 0 && removed_lines == 0,
        added_lines,
        removed_lines,
        similarity,
        unified_diff: unified,
        note: String::new(),
        error: None,
    }
}

/// What is known of one code file: its size (or the error reading its
/// metadata) and its contents (or the error reading them).
pub struct CodeSource {
    pub size: Result<u64, String>,
    pub content: Result<Vec<u8>, String>,
}

/// The comparison of two code files from what is known of them: a metadata
/// error is reported; equal sizes lead to comparing SHA-256 digests (equal
/// digests mean identical files, a read error is reported); files above
/// 2 MiB get a note; otherwise the decoded texts are diffed.
pub open spec fn code_diff_spec(
    r: CodeDiffResult,
    path: Seq<char>,
    a: CodeSource,
    b: CodeSource,
    include_full_diff: bool,
) -> bool {
    match (a.size, b.size) {
        (Err(e), _) => is_error_result(r, path, "stat: "@ + e@),
        (Ok(_), Err(e)) => is_error_result(r, path, "stat: "@ + e@),
        (Ok(sa), Ok(sb)) => {
            let large = sa > max_diff_bytes() || sb > max_diff_bytes();
            let texts = match (a.content, b.content) {
                (Err(e), _) => is_error_result(r, path, e@),
                (Ok(_), Err(e)) => is_error_result(r, path, e@),
                (Ok(ca), Ok(cb)) => is_text_result(
                    r,
                    path,
                    lossy_utf8(ca@),
                    lossy_utf8(cb@),
                    include_full_diff,
                ),
            };
            if sa == sb {
                match (a.content, b.content) {
                    (Err(e), _) => is_error_result(r, path, "stat: "@ + e@),
                    (Ok(_), Err(e)) => is_error_result(r, path, "stat: "@ + e@),
                    (Ok(ca), Ok(cb)) => if sha256_of(ca@) == sha256_of(cb@) {
                        is_identical_result(r, path)
                    } else if large {
                        is_too_large_result(r, path)
                    } else {
                        texts
                    },
                }
            } else if large {
                is_too_large_result(r, path)
            } else {
                texts
            }
        },
    }
}

/// The comparison of two code files goes as far as diffing their texts:
/// both sizes are known and at most 2 MiB, and they differ or the files'
/// digests differ.
pub open spec fn compares_texts(a: CodeSource, b: CodeSource) -> bool {
    match (a.size, b.size) {
        (Ok(sa), Ok(sb)) => sa <= max_diff_bytes() && sb <= max_diff_bytes() && (sa != sb || match (
            a.content,
            b.content,
        ) {
            (Ok(ca), Ok(cb)) => sha256_of(ca@) != sha256_of(cb@),
            _ => false,
        }),
        _ => false,
    }
}

/// The digest of read contents, or the error reading them.
fn digest_of(content: &Result<Vec<u8>, String>) -> (res: Result<Vec<u8>, String>)
    ensures
        match (content, res) {
            (Ok(c), Ok(d)) => d@ == sha256_of(c@),
            (Err(e), Err(m)) => m == e,
            _ => false,
        },
{
    match content {
        Ok(c) => Ok(sha256(c.as_slice())),
        Err(e) => Err(e.clone()),
    }
}

/// Compares two text/code files from their sizes and contents: counts of
/// added and removed lines, character similarity and (when asked) a unified
/// diff, following the steps [`code_diff_after_stat`],
/// [`code_diff_after_hash`] and [`code_diff_from_texts`].
pub fn diff_code(rel: &str, a: &CodeSource, b: &CodeSource, include_full_diff: bool) -> (res: CodeDiffResult)
    requires
        compares_texts(*a, *b) ==> (a.content matches Ok(c) ==> c@.len() <= u32::MAX),
        compares_texts(*a, *b) ==> (b.content matches Ok(c) ==> c@.len() <= u32::MAX),
    ensures
        code_diff_spec(res, forward_slashes(rel@), *a, *b, include_full_diff),
{
    match code_diff_after_stat(rel, &a.size, &b.size) {
        CodeDiffStep::Done(r) => r,
        CodeDiffStep::ReadBoth => code_diff_from_texts(rel, &a.content, &b.content, include_full_diff),
        CodeDiffStep::HashBoth => {
            let sa = match &a.size {
                Ok(s) => *s,
                Err(_) => 0,
            };
            let sb = match &b.size {
                Ok(s) => *s,
                Err(_) => 0,
            };
            let ha = digest_of(&a.content);
            let hb = digest_of(&b.content);
            match code_diff_after_hash(rel, sa, sb, &ha, &hb) {
                CodeDiffStep::Done(r) => r,
                _ => code_diff_from_texts(rel, &a.content, &b.content, include_full_diff),
            }
        },
    }
}

// ── binary files ────────────────────────────────────────────────────────────

/// What the binary comparison knows of one file: its size (0 when the
/// metadata cannot be read) and, for a non-empty file, its SHA-256 digest if
/// hashing succeeded.
#[derive(Debug, Clone)]
pub struct BinaryProbe {
    pub size: u64,
    pub digest: Option<Vec<u8>>,
}

/// Result of comparing two binary files.
#[derive(Debug, Clone)]
pub struct BinaryDiffResult {
    pub path: String,
    pub identical: bool,
    pub size_a: u64,
    pub size_b: u64,
    pub sha256_a: String,
    pub sha256_b: String,
}

/// The reported hash of a file: lower-case hex of its digest, or empty for an
/// empty file or one that could not be hashed.
pub open spec fn reported_hash(p: BinaryProbe) -> Seq<char> {
    if p.size > 0 {
        match p.digest {
            Some(d) => hex_lower(d@),
            None => Seq::<char>::empty(),
        }
    } else {
        Seq::<char>::empty()
    }
}

/// The reported hash of one file.
fn hash_text(p: &BinaryProbe) -> (res: String)
    ensures
        res@ == reported_hash(*p),
{
    if p.size > 0 {
        match &p.digest {
            Some(d) => to_hex(d.as_slice()),
            None => String::new(),
        }
    } else {
        String::new()
    }
}

/// Hash-only comparison of binary and model-weight files: identical when the
/// reported hashes and the sizes agree.
pub fn diff_binary(rel: &str, a: &BinaryProbe, b: &BinaryProbe) -> (res: BinaryDiffResult)
    ensures
        res.path@ == forward_slashes(rel@),
        res.size_a == a.size,
        res.size_b == b.size,
        res.sha256_a@ == reported_hash(*a),
        res.sha256_b@ == reported_hash(*b),
        res.identical == (reported_hash(*a) == reported_hash(*b) && a.size == b.size),
{
    let path = rel_to_str(rel);
    let sha256_a = hash_text(a);
    let sha256_b = hash_text(b);
    let same = sha256_a == sha256_b;
    BinaryDiffResult {
        path,
        identical: same && a.size == b.size,
        size_a: a.size,
        size_b: b.size,
        sha256_a,
        sha256_b,
    }
}

} // verus!
