//! The parts of a crawl that decide and count: the order in which common
//! files are compared, how a file pair is compared, the sorted tree listing
//! of a report, and the aggregate counts of the summary. The walk, the file
//! reads and the floating-point averages happen outside the library.
use vstd::prelude::*;
use crate::classifier::FileKind;
use crate::code_diff::{BinaryDiffResult, CodeDiffResult};
use crate::data_diff::DataDiffResult;
use crate::matcher::RenameCandidate;
use crate::paths::{forward_slashes, rel_to_str};
use crate::ratio::Ratio;
use crate::text::{chars_of, push_char, sorted_weak, views};
use crate::values::sort_strings;
use crate::walker::{jaccard_of, TreeDiff};
use crate::laws::{law_schema_changes_count, schema_differs};

verus! {

// ── comparing one common file ───────────────────────────────────────────────

/// How a file present in both trees is compared: by the kind both sides
/// share, as binary when the two sides classify differently.
pub open spec fn dispatch_kind_of(a: FileKind, b: FileKind) -> FileKind {
    if a == b {
        a
    } else {
        FileKind::Binary
    }
}

/// How a file present in both trees is compared.
pub fn dispatch_kind(a: FileKind, b: FileKind) -> (res: FileKind)
    ensures
        res == dispatch_kind_of(a, b),
{
    if a == b {
        a
    } else {
        FileKind::Binary
    }
}

// ── order of the common files ───────────────────────────────────────────────

/// A path with each `/` replaced by NUL, which sorts before every other
/// character.
pub open spec fn separator_first(p: Seq<char>) -> Seq<char> {
    p.map_values(|c: char| if c == '/' { '\0' } else { c })
}

/// The inverse of [`separator_first`] on paths without NUL.
pub open spec fn separator_back(p: Seq<char>) -> Seq<char> {
    p.map_values(|c: char| if c == '\0' { '/' } else { c })
}

/// No path holds a NUL character.
pub open spec fn no_nul(ps: Seq<Seq<char>>) -> bool {
    forall|i: int, k: int| 0 <= i < ps.len() && 0 <= k < ps[i].len() ==> #[trigger] ps[i][k] != '\0'
}

/// `ps` is sorted as paths are compared component by component: as strings
/// in which the separator comes before every other character.
pub open spec fn sorted_as_paths(ps: Seq<Seq<char>>) -> bool {
    sorted_weak(ps.map_values(|p: Seq<char>| separator_first(p)))
}

/// `s` with every character mapped by `f`.
fn map_chars(s: &str, to_nul: bool) -> (res: String)
    ensures
        to_nul ==> res@ == separator_first(s@),
        !to_nul ==> res@ == separator_back(s@),
{
    let cs = chars_of(s);
    let mut res = String::new();
    for i in 0..cs.len()
        invariant
            cs@ == s@,
            to_nul ==> res@ == separator_first(cs@.take(i as int)),
            !to_nul ==> res@ == separator_back(cs@.take(i as int)),
    {
        let c = cs[i];
        let d = if to_nul && c == '/' {
            '\0'
        } else if !to_nul && c == '\0' {
            '/'
        } else {
            c
        };
        push_char(&mut res, d);
        assert(cs@.take(i + 1) =~= cs@.take(i as int).push(c));
        assert(separator_first(cs@.take(i + 1)) =~= separator_first(cs@.take(i as int)).push(
            if c == '/' {
                '\0'
            } else {
                c
            },
        ));
        assert(separator_back(cs@.take(i + 1)) =~= separator_back(cs@.take(i as int)).push(
            if c == '\0' {
                '/'
            } else {
                c
            },
        ));
    }
    assert(cs@.take(cs@.len() as int) =~= cs@);
    res
}

/// Sorts relative paths component by component, the order in which the
/// common files are compared.
pub fn sort_as_paths(paths: Vec<String>) -> (res: Vec<String>)
    requires
        no_nul(views(paths@)),
    ensures
        views(res@).to_multiset() == views(paths@).to_multiset(),
        sorted_as_paths(views(res@)),
{
    let ghost orig = views(paths@);
    let mut keys: Vec<String> = Vec::new();
    for i in 0..paths.len()
        invariant
            orig == views(paths@),
            views(keys@) == orig.take(i as int).map_values(|p: Seq<char>| separator_first(p)),
    {
        let k = map_chars(paths[i].as_str(), true);
        let ghost before = views(keys@);
        keys.push(k);
        assert(views(keys@) =~= before.push(separator_first(orig[i as int])));
        assert(orig.take(i + 1).map_values(|p: Seq<char>| separator_first(p)) =~= orig.take(
            i as int,
        ).map_values(|p: Seq<char>| separator_first(p)).push(separator_first(orig[i as int])));
    }
    assert(orig.take(orig.len() as int) =~= orig);
    let ghost keyed = views(keys@);
    sort_strings(&mut keys);
    let mut res: Vec<String> = Vec::new();
    for i in 0..keys.len()
        invariant
            views(res@) == views(keys@).take(i as int).map_values(|p: Seq<char>| separator_back(p)),
    {
        let p = map_chars(keys[i].as_str(), false);
        let ghost before = views(res@);
        res.push(p);
        assert(views(res@) =~= before.push(separator_back(views(keys@)[i as int])));
        assert(views(keys@).take(i + 1).map_values(|p: Seq<char>| separator_back(p)) =~= views(
            keys@,
        ).take(i as int).map_values(|p: Seq<char>| separator_back(p)).push(
            separator_back(views(keys@)[i as int]),
        ));
    }
    proof {
        let sk = views(keys@);
        assert(sk.take(sk.len() as int) =~= sk);
        let rv = views(res@);
        // every sorted key is the key of some path without NUL, so mapping back recovers it
        assert forall|i: int| 0 <= i < sk.len() implies #[trigger] separator_first(separator_back(sk[i]))
            == sk[i] && keyed.contains(sk[i]) by {
            assert(sk.contains(sk[i]));
            assert(keyed.contains(sk[i]));
            let q = keyed.index_of(sk[i]);
            let p = orig[q];
            assert(keyed[q] == separator_first(p));
            assert(separator_back(separator_first(p)) =~= p) by {
                assert forall|k: int| 0 <= k < p.len() implies p[k] != '\0' by {
                    assert(orig[q][k] != '\0');
                }
            }
        }
        assert(rv.map_values(|p: Seq<char>| separator_first(p)) =~= sk);
        lemma_keys_multiset(orig, rv, keyed, sk);
    }
    res
}

/// Mapping to keys and back keeps the multiset of paths.
proof fn lemma_keys_multiset(
    orig: Seq<Seq<char>>,
    res: Seq<Seq<char>>,
    keyed: Seq<Seq<char>>,
    sorted: Seq<Seq<char>>,
)
    requires
        no_nul(orig),
        keyed == orig.map_values(|p: Seq<char>| separator_first(p)),
        sorted.to_multiset() == keyed.to_multiset(),
        res == sorted.map_values(|p: Seq<char>| separator_back(p)),
    ensures
        res.to_multiset() == orig.to_multiset(),
{
    assert forall|p: Seq<char>| orig.contains(p) implies separator_back(separator_first(p)) == p by {
        let q = orig.index_of(p);
        assert forall|k: int| 0 <= k < p.len() implies p[k] != '\0' by {
            assert(orig[q][k] != '\0');
        }
        assert(separator_back(separator_first(p)) =~= p);
    }
    let back = keyed.map_values(|p: Seq<char>| separator_back(p));
    assert(back =~= orig) by {
        assert forall|i: int| 0 <= i < orig.len() implies #[trigger] back[i] == orig[i] by {
            assert(orig.contains(orig[i]));
        }
    }
    lemma_map_multiset(sorted, keyed, |p: Seq<char>| separator_back(p));
}

/// Mapping two sequences with the same elements gives sequences with the
/// same elements.
pub proof fn lemma_map_multiset<A, B>(a: Seq<A>, b: Seq<A>, f: spec_fn(A) -> B)
    requires
        a.to_multiset() == b.to_multiset(),
    ensures
        a.map_values(f).to_multiset() == b.map_values(f).to_multiset(),
    decreases a.len(),
{
    broadcast use vstd::seq_lib::to_multiset_build, vstd::seq_lib::to_multiset_remove,
        vstd::seq_lib::to_multiset_insert, vstd::seq_lib::to_multiset_len,
        vstd::seq_lib::to_multiset_contains, vstd::multiset::group_multiset_axioms;

    if a.len() == 0 {
        assert(b.to_multiset().len() == 0);
        assert(a.map_values(f) =~= Seq::<B>::empty());
        assert(b.map_values(f) =~= Seq::<B>::empty());
    } else {
        let x = a.last();
        let p = a.drop_last();
        assert(a =~= p.push(x));
        assert(a.to_multiset().count(x) > 0);
        assert(b.contains(x));
        let q = b.index_of(x);
        let r = b.remove(q);
        assert(r.to_multiset() =~= p.to_multiset());
        lemma_map_multiset(p, r, f);
        assert(a.map_values(f) =~= p.map_values(f).push(f(x)));
        assert(b.map_values(f) =~= r.map_values(f).insert(q, f(x)));
    }
}

// ── the tree listing of a report ────────────────────────────────────────────

/// The three path lists of a tree diff as report text: backslashes turned
/// into forward slashes, each list sorted.
pub struct TreeReportData {
    pub in_both: Vec<String>,
    pub only_in_a: Vec<String>,
    pub only_in_b: Vec<String>,
}

/// `out` holds the paths of `input` with backslashes turned into forward
/// slashes, sorted.
pub open spec fn listed(out: Seq<Seq<char>>, input: Seq<Seq<char>>) -> bool {
    &&& out.to_multiset() == input.map_values(|p: Seq<char>| forward_slashes(p)).to_multiset()
    &&& sorted_weak(out)
}

/// The paths of `input` as report text, sorted.
fn sorted_paths(input: &Vec<String>) -> (res: Vec<String>)
    ensures
        listed(views(res@), views(input@)),
{
    let ghost iv = views(input@);
    let mut v: Vec<String> = Vec::new();
    for i in 0..input.len()
        invariant
            iv == views(input@),
            views(v@) == iv.take(i as int).map_values(|p: Seq<char>| forward_slashes(p)),
    {
        let s = rel_to_str(input[i].as_str());
        let ghost before = views(v@);
        v.push(s);
        assert(views(v@) =~= before.push(forward_slashes(iv[i as int])));
        assert(iv.take(i + 1).map_values(|p: Seq<char>| forward_slashes(p)) =~= iv.take(
            i as int,
        ).map_values(|p: Seq<char>| forward_slashes(p)).push(forward_slashes(iv[i as int])));
    }
    assert(iv.take(iv.len() as int) =~= iv);
    sort_strings(&mut v);
    v
}

impl TreeReportData {
    /// The tree listing of a diff.
    pub fn from_diff(diff: &TreeDiff) -> (res: Self)
        ensures
            listed(views(res.in_both@), views(diff.in_both@)),
            listed(views(res.only_in_a@), views(diff.only_in_a@)),
            listed(views(res.only_in_b@), views(diff.only_in_b@)),
    {
        TreeReportData {
            in_both: sorted_paths(&diff.in_both),
            only_in_a: sorted_paths(&diff.only_in_a),
            only_in_b: sorted_paths(&diff.only_in_b),
        }
    }
}

// ── summary ─────────────────────────────────────────────────────────────────

/// File counts of the tree comparison and its Jaccard index over the
/// file-path union.
pub struct TreeSummary {
    pub files_in_both: usize,
    pub only_in_a: usize,
    pub only_in_b: usize,
    pub tree_jaccard: Ratio,
}

/// Counts over the code comparisons. (The average similarity is computed by
/// the caller from the comparisons' similarities.)
pub struct CodeSummary {
    pub compared: usize,
    pub identical: usize,
    pub total_added_lines: u64,
    pub total_removed_lines: u64,
}

/// Counts over the data comparisons.
pub struct DataSummary {
    pub compared: usize,
    /// Comparisons with a column added, removed or changed in type.
    pub schema_changed: usize,
    /// Sum of `row_count_b − row_count_a` over the comparisons.
    pub total_row_delta: i64,
}

/// Counts over the binary comparisons.
pub struct BinarySummary {
    pub compared: usize,
    pub identical: usize,
}

/// Aggregate counts of a crawl. The overall similarity is the tree Jaccard
/// index alone when `overall_from_tree_only`, else the mean of the tree
/// Jaccard index and the average code similarity.
pub struct Summary {
    pub tree: TreeSummary,
    pub code: CodeSummary,
    pub data: DataSummary,
    pub binary: BinarySummary,
    pub renames_detected: usize,
    pub overall_from_tree_only: bool,
}

/// Number of identical code comparisons.
pub open spec fn identical_code(ds: Seq<CodeDiffResult>) -> nat
    decreases ds.len(),
{
    if ds.len() == 0 {
        0
    } else {
        identical_code(ds.drop_last()) + if ds.last().identical {
            1nat
        } else {
            0nat
        }
    }
}

/// Sum of the added lines.
pub open spec fn added_sum(ds: Seq<CodeDiffResult>) -> nat
    decreases ds.len(),
{
    if ds.len() == 0 {
        0
    } else {
        added_sum(ds.drop_last()) + ds.last().added_lines as nat
    }
}

/// Sum of the removed lines.
pub open spec fn removed_sum(ds: Seq<CodeDiffResult>) -> nat
    decreases ds.len(),
{
    if ds.len() == 0 {
        0
    } else {
        removed_sum(ds.drop_last()) + ds.last().removed_lines as nat
    }
}

/// The comparison found a column added, removed or changed in type.
pub open spec fn schema_changed_of(d: DataDiffResult) -> bool {
    d.columns_added@.len() > 0 || d.columns_removed@.len() > 0 || d.type_changes.keys@.len() > 0
}

/// Number of data comparisons with a changed schema.
pub open spec fn schema_changes(ds: Seq<DataDiffResult>) -> nat
    decreases ds.len(),
{
    if ds.len() == 0 {
        0
    } else {
        schema_changes(ds.drop_last()) + if schema_changed_of(ds.last()) {
            1nat
        } else {
            0nat
        }
    }
}

/// Sum of the row-count deltas.
pub open spec fn row_delta_sum(ds: Seq<DataDiffResult>) -> int
    decreases ds.len(),
{
    if ds.len() == 0 {
        0
    } else {
        row_delta_sum(ds.drop_last()) + (ds.last().row_count_b - ds.last().row_count_a)
    }
}

/// Every delta and every partial sum of deltas fits in an `i64`.
pub open spec fn row_deltas_fit(ds: Seq<DataDiffResult>) -> bool {
    &&& forall|i: int|
        0 <= i < ds.len() ==> i64::MIN <= (#[trigger] ds[i]).row_count_b - ds[i].row_count_a
            <= i64::MAX
    &&& forall|k: int| 0 <= k <= ds.len() ==> i64::MIN <= #[trigger] row_delta_sum(ds.take(k)) <= i64::MAX
}

/// Number of identical binary comparisons.
pub open spec fn identical_binary(ds: Seq<BinaryDiffResult>) -> nat
    decreases ds.len(),
{
    if ds.len() == 0 {
        0
    } else {
        identical_binary(ds.drop_last()) + if ds.last().identical {
            1nat
        } else {
            0nat
        }
    }
}

/// `s` aggregates the components of a crawl: the tree counts and Jaccard
/// index as given, and counts over the code, data and binary comparisons and
/// the renames.
pub open spec fn summarizes(
    s: Summary,
    in_both: usize,
    only_a: usize,
    only_b: usize,
    tree_jaccard: Ratio,
    code: Seq<CodeDiffResult>,
    data: Seq<DataDiffResult>,
    binary: Seq<BinaryDiffResult>,
    renames: nat,
) -> bool {
    &&& s.tree.files_in_both == in_both
    &&& s.tree.only_in_a == only_a
    &&& s.tree.only_in_b == only_b
    &&& s.tree.tree_jaccard == tree_jaccard
    &&& s.code.compared == code.len()
    &&& s.code.identical == identical_code(code)
    &&& s.code.total_added_lines == added_sum(code)
    &&& s.code.total_removed_lines == removed_sum(code)
    &&& s.data.compared == data.len()
    &&& s.data.schema_changed == schema_changes(data)
    &&& s.data.total_row_delta == row_delta_sum(data)
    &&& s.binary.compared == binary.len()
    &&& s.binary.identical == identical_binary(binary)
    &&& s.renames_detected == renames
    &&& s.overall_from_tree_only == (code.len() + data.len() + binary.len() == 0 && (only_a > 0
        || only_b > 0))
}

/// The sums of a summary fit its integer fields.
pub open spec fn sums_fit(code: Seq<CodeDiffResult>, data: Seq<DataDiffResult>) -> bool {
    &&& added_sum(code) <= u64::MAX
    &&& removed_sum(code) <= u64::MAX
    &&& row_deltas_fit(data)
}

/// Aggregates the results of a crawl: the tree counts and Jaccard index, and
/// counts over the code, data and binary comparisons and the renames.
pub fn build_summary(
    in_both: usize,
    only_a: usize,
    only_b: usize,
    tree_jaccard: Ratio,
    code_diffs: &Vec<CodeDiffResult>,
    data_diffs: &Vec<DataDiffResult>,
    binary_diffs: &Vec<BinaryDiffResult>,
    rename_candidates: &Vec<RenameCandidate>,
) -> (res: Summary)
    requires
        sums_fit(code_diffs@, data_diffs@),
    ensures
        summarizes(
            res,
            in_both,
            only_a,
            only_b,
            tree_jaccard,
            code_diffs@,
            data_diffs@,
            binary_diffs@,
            rename_candidates@.len(),
        ),
        res.data.schema_changed == data_diffs@.filter(|d: DataDiffResult| schema_differs(d)).len(),
{
    proof {
        law_schema_changes_count(data_diffs@);
    }
    let cs = code_diffs;
    let mut identical: usize = 0;
    let mut added: u64 = 0;
    let mut removed: u64 = 0;
    for i in 0..cs.len()
        invariant
            added_sum(cs@) <= u64::MAX,
            removed_sum(cs@) <= u64::MAX,
            identical == identical_code(cs@.take(i as int)),
            identical <= i,
            added == added_sum(cs@.take(i as int)),
            removed == removed_sum(cs@.take(i as int)),
    {
        assert(cs@.take(i + 1).drop_last() =~= cs@.take(i as int));
        proof {
            lemma_code_sums_prefix(cs@, i + 1);
        }
        if cs[i].identical {
            identical = identical + 1;
        }
        added = added + cs[i].added_lines as u64;
        removed = removed + cs[i].removed_lines as u64;
    }
    assert(cs@.take(cs@.len() as int) =~= cs@);
    let ds = data_diffs;
    let mut changed: usize = 0;
    let mut delta: i64 = 0;
    for i in 0..ds.len()
        invariant
            row_deltas_fit(ds@),
            changed == schema_changes(ds@.take(i as int)),
            changed <= i,
            delta == row_delta_sum(ds@.take(i as int)),
    {
        assert(ds@.take(i + 1).drop_last() =~= ds@.take(i as int));
        let d = &ds[i];
        if d.columns_added.len() > 0 || d.columns_removed.len() > 0 || d.type_changes.keys.len() > 0 {
            changed = changed + 1;
        }
        assert(i64::MIN <= row_delta_sum(ds@.take(i + 1)) <= i64::MAX);
        assert(i64::MIN <= ds@[i as int].row_count_b - ds@[i as int].row_count_a <= i64::MAX);
        delta = delta + (d.row_count_b - d.row_count_a);
    }
    assert(ds@.take(ds@.len() as int) =~= ds@);
    let bs = binary_diffs;
    let mut same: usize = 0;
    for i in 0..bs.len()
        invariant
            same == identical_binary(bs@.take(i as int)),
            same <= i,
    {
        assert(bs@.take(i + 1).drop_last() =~= bs@.take(i as int));
        if bs[i].identical {
            same = same + 1;
        }
    }
    assert(bs@.take(bs@.len() as int) =~= bs@);
    let none_common = cs.len() == 0 && ds.len() == 0 && bs.len() == 0;
    Summary {
        tree: TreeSummary { files_in_both: in_both, only_in_a: only_a, only_in_b: only_b, tree_jaccard },
        code: CodeSummary {
            compared: cs.len(),
            identical,
            total_added_lines: added,
            total_removed_lines: removed,
        },
        data: DataSummary { compared: ds.len(), schema_changed: changed, total_row_delta: delta },
        binary: BinarySummary { compared: bs.len(), identical: same },
        renames_detected: rename_candidates.len(),
        overall_from_tree_only: none_common && (only_a > 0 || only_b > 0),
    }
}

/// Sums over a prefix are at most the sums over the whole list.
proof fn lemma_code_sums_prefix(ds: Seq<CodeDiffResult>, k: int)
    requires
        0 <= k <= ds.len(),
    ensures
        added_sum(ds.take(k)) <= added_sum(ds),
        removed_sum(ds.take(k)) <= removed_sum(ds),
    decreases ds.len() - k,
{
    if k < ds.len() {
        lemma_code_sums_prefix(ds, k + 1);
        assert(ds.take(k + 1).drop_last() =~= ds.take(k));
    } else {
        assert(ds.take(k) =~= ds);
    }
}

/// The assembled result of a crawl.
pub struct CrawlReport {
    pub dir_a: String,
    pub dir_b: String,
    pub tree: TreeReportData,
    pub code_diffs: Vec<CodeDiffResult>,
    pub data_diffs: Vec<DataDiffResult>,
    pub binary_diffs: Vec<BinaryDiffResult>,
    pub rename_candidates: Vec<RenameCandidate>,
    pub summary: Summary,
}


// ── assembling a report ─────────────────────────────────────────────────────

/// The comparison of one common file, by the kind it was compared as.
pub enum Dispatched {
    Code(CodeDiffResult),
    Binary(BinaryDiffResult),
    Data(DataDiffResult),
}

/// The code comparisons among `ds`, in order.
pub open spec fn code_part(ds: Seq<Dispatched>) -> Seq<CodeDiffResult>
    decreases ds.len(),
{
    if ds.len() == 0 {
        Seq::empty()
    } else {
        let rest = code_part(ds.skip(1));
        match ds[0] {
            Dispatched::Code(c) => seq![c] + rest,
            _ => rest,
        }
    }
}

/// The data comparisons among `ds`, in order.
pub open spec fn data_part(ds: Seq<Dispatched>) -> Seq<DataDiffResult>
    decreases ds.len(),
{
    if ds.len() == 0 {
        Seq::empty()
    } else {
        let rest = data_part(ds.skip(1));
        match ds[0] {
            Dispatched::Data(d) => seq![d] + rest,
            _ => rest,
        }
    }
}

/// The binary comparisons among `ds`, in order.
pub open spec fn binary_part(ds: Seq<Dispatched>) -> Seq<BinaryDiffResult>
    decreases ds.len(),
{
    if ds.len() == 0 {
        Seq::empty()
    } else {
        let rest = binary_part(ds.skip(1));
        match ds[0] {
            Dispatched::Binary(b) => seq![b] + rest,
            _ => rest,
        }
    }
}

/// Splits the comparisons of the common files by kind, keeping their order.
pub fn split_dispatched(ds: Vec<Dispatched>) -> (res: (
    Vec<CodeDiffResult>,
    Vec<DataDiffResult>,
    Vec<BinaryDiffResult>,
))
    ensures
        res.0@ == code_part(ds@),
        res.1@ == data_part(ds@),
        res.2@ == binary_part(ds@),
{
    let ghost orig = ds@;
    let mut rest = ds;
    let mut code: Vec<CodeDiffResult> = Vec::new();
    let mut data: Vec<DataDiffResult> = Vec::new();
    let mut binary: Vec<BinaryDiffResult> = Vec::new();
    while rest.len() > 0
        invariant
            code@ + code_part(rest@) == code_part(orig),
            data@ + data_part(rest@) == data_part(orig),
            binary@ + binary_part(rest@) == binary_part(orig),
        decreases rest.len(),
    {
        let ghost before = rest@;
        let d = rest.remove(0);
        assert(rest@ =~= before.skip(1));
        match d {
            Dispatched::Code(c) => {
                assert(code@.push(c) + code_part(rest@) =~= code@ + (seq![c] + code_part(rest@)));
                code.push(c);
            },
            Dispatched::Data(x) => {
                assert(data@.push(x) + data_part(rest@) =~= data@ + (seq![x] + data_part(rest@)));
                data.push(x);
            },
            Dispatched::Binary(b) => {
                assert(binary@.push(b) + binary_part(rest@) =~= binary@ + (seq![b] + binary_part(
                    rest@,
                )));
                binary.push(b);
            },
        }
    }
    assert(code@ =~= code@ + code_part(rest@));
    assert(data@ =~= data@ + data_part(rest@));
    assert(binary@ =~= binary@ + binary_part(rest@));
    (code, data, binary)
}

/// Assembles the report of a crawl from the roots, the tree diff, the
/// comparisons of the common files in the order they were made, and the
/// rename candidates.
pub fn assemble_report(
    dir_a: &str,
    dir_b: &str,
    diff: &TreeDiff,
    dispatched: Vec<Dispatched>,
    rename_candidates: Vec<RenameCandidate>,
) -> (res: CrawlReport)
    requires
        diff.in_both@.len() + diff.only_in_a@.len() + diff.only_in_b@.len() <= u64::MAX,
        sums_fit(code_part(dispatched@), data_part(dispatched@)),
    ensures
        res.dir_a@ == forward_slashes(dir_a@),
        res.dir_b@ == forward_slashes(dir_b@),
        listed(views(res.tree.in_both@), views(diff.in_both@)),
        listed(views(res.tree.only_in_a@), views(diff.only_in_a@)),
        listed(views(res.tree.only_in_b@), views(diff.only_in_b@)),
        res.code_diffs@ == code_part(dispatched@),
        res.data_diffs@ == data_part(dispatched@),
        res.binary_diffs@ == binary_part(dispatched@),
        res.rename_candidates@ == rename_candidates@,
        summarizes(
            res.summary,
            diff.in_both.len(),
            diff.only_in_a.len(),
            diff.only_in_b.len(),
            jaccard_of(diff.in_both@.len(), diff.only_in_a@.len(), diff.only_in_b@.len()),
            code_part(dispatched@),
            data_part(dispatched@),
            binary_part(dispatched@),
            rename_candidates@.len(),
        ),
{
    let tree_jaccard = diff.jaccard();
    let (code_diffs, data_diffs, binary_diffs) = split_dispatched(dispatched);
    let summary = build_summary(
        diff.in_both.len(),
        diff.only_in_a.len(),
        diff.only_in_b.len(),
        tree_jaccard,
        &code_diffs,
        &data_diffs,
        &binary_diffs,
        &rename_candidates,
    );
    CrawlReport {
        dir_a: rel_to_str(dir_a),
        dir_b: rel_to_str(dir_b),
        tree: TreeReportData::from_diff(diff),
        code_diffs,
        data_diffs,
        binary_diffs,
        rename_candidates,
        summary,
    }
}

} // verus!
