//! Properties of the library that relate several functions or several
//! calls, stated over the specifications the functions' contracts use.
use vstd::prelude::*;
use crate::code_diff::{
    code_diff_spec, is_identical_result, reported_hash, BinaryProbe, CodeDiffResult,
    CodeSource,
};
use crate::data_diff::{
    compared, parquet_type, type_changes_of, ConvertedType, DataDiffResult, PhysicalType, TableModel,
};
use crate::matcher::{
    agreement, agreement_upto, eligible, min_hash, perm_hash, signature, file_sig, file_text, first_200, found, insert_pos, is_best,
    lemma_insert_pos, lemma_rename_list_scores, lemma_score_wf, insert_desc, sorted_by_score, lemma_sort_desc, matchable, names_fit, pair_view,
    rename_list, scores_wf, shares_band, sort_desc, RenameFile,
};
use crate::ratio::{lemma_le_trans, Ratio};
use crate::digest::{hex_digit, hex_lower};
use crate::crawler::{dispatch_kind_of, schema_changes};
use crate::report::listed_data;
use crate::paths::{forward_slashes, segments, split_from, suffix_of};
use crate::classifier::{excluded_component, excluded_path, kind_of, reason_of, FileKind};
use crate::text::{lemma_seq_lt_irreflexive, lemma_seq_lt_transitive, seq_lt, sorted_strict, views};
use crate::walker::{is_tree_diff, jaccard_of, lemma_segments_nonempty, walk_keeps, TreeDiff};

verus! {

// ── tree comparison ─────────────────────────────────────────────────────────

/// Comparing a file set with itself finds every file in both and none on
/// one side only, so the Jaccard index is one.
pub proof fn law_tree_diff_self(s: Set<Seq<char>>, d: TreeDiff)
    requires
        is_tree_diff(s, s, d),
    ensures
        d.only_in_a@.len() == 0,
        d.only_in_b@.len() == 0,
        jaccard_of(d.in_both@.len(), d.only_in_a@.len(), d.only_in_b@.len()).num == jaccard_of(
            d.in_both@.len(),
            d.only_in_a@.len(),
            d.only_in_b@.len(),
        ).den,
{
    if d.only_in_a@.len() > 0 {
        assert(views(d.only_in_a@)[0] == d.only_in_a@[0]@);
        assert(views(d.only_in_a@).contains(d.only_in_a@[0]@));
    }
    if d.only_in_b@.len() > 0 {
        assert(views(d.only_in_b@)[0] == d.only_in_b@[0]@);
        assert(views(d.only_in_b@).contains(d.only_in_b@[0]@));
    }
}

/// Comparing file sets without a common file finds none in both, so the
/// Jaccard index is zero when either set has a file.
pub proof fn law_tree_diff_disjoint(a: Set<Seq<char>>, b: Set<Seq<char>>, d: TreeDiff)
    requires
        is_tree_diff(a, b, d),
        forall|x: Seq<char>| a.contains(x) ==> !b.contains(x),
    ensures
        d.in_both@.len() == 0,
        d.only_in_a@.len() + d.only_in_b@.len() > 0 ==> jaccard_of(
            d.in_both@.len(),
            d.only_in_a@.len(),
            d.only_in_b@.len(),
        ).num == 0,
{
    if d.in_both@.len() > 0 {
        assert(views(d.in_both@)[0] == d.in_both@[0]@);
        assert(views(d.in_both@).contains(d.in_both@[0]@));
    }
}

/// Two strictly increasing sequences with the same elements are equal.
pub proof fn lemma_sorted_same_elements(s: Seq<Seq<char>>, t: Seq<Seq<char>>)
    requires
        sorted_strict(s),
        sorted_strict(t),
        forall|x: Seq<char>| #[trigger] s.contains(x) <==> t.contains(x),
    ensures
        s == t,
    decreases s.len() + t.len(),
{
    if s.len() == 0 {
        if t.len() > 0 {
            assert(t.contains(t[0]));
            assert(s.contains(t[0]));
        }
        assert(s =~= t);
    } else if t.len() == 0 {
        assert(s.contains(s[0]));
    } else {
        assert(s.contains(s[0]));
        assert(t.contains(t[0]));
        assert(s.contains(t[0]));
        assert(t.contains(s[0]));
        let i = t.index_of(s[0]);
        let j = s.index_of(t[0]);
        assert(t[i] == s[0]);
        assert(s[j] == t[0]);
        if i > 0 {
            assert(seq_lt(t[0], t[i]));
            if j == 0 {
                lemma_seq_lt_irreflexive(t[0]);
            } else {
                assert(seq_lt(s[0], s[j]));
                lemma_seq_lt_transitive(t[0], s[0], t[0]);
                lemma_seq_lt_irreflexive(t[0]);
            }
        }
        let x = s[0];
        assert(x == t[0]);
        let s2 = s.drop_first();
        let t2 = t.drop_first();
        assert(sorted_strict(s2)) by {
            assert forall|a: int, b: int| 0 <= a < b < s2.len() implies seq_lt(
                #[trigger] s2[a],
                #[trigger] s2[b],
            ) by {
                assert(s2[a] == s[a + 1] && s2[b] == s[b + 1]);
            }
        }
        assert(sorted_strict(t2)) by {
            assert forall|a: int, b: int| 0 <= a < b < t2.len() implies seq_lt(
                #[trigger] t2[a],
                #[trigger] t2[b],
            ) by {
                assert(t2[a] == t[a + 1] && t2[b] == t[b + 1]);
            }
        }
        assert forall|y: Seq<char>| #[trigger] s2.contains(y) <==> t2.contains(y) by {
            if s2.contains(y) {
                let k = s2.index_of(y);
                assert(s[k + 1] == y);
                assert(seq_lt(x, y));
                lemma_seq_lt_irreflexive(x);
                assert(s.contains(y));
                assert(t.contains(y));
                let m = t.index_of(y);
                assert(m != 0);
                assert(t2[m - 1] == y);
            }
            if t2.contains(y) {
                let k = t2.index_of(y);
                assert(t[k + 1] == y);
                assert(seq_lt(x, y));
                lemma_seq_lt_irreflexive(x);
                assert(s.contains(y));
                let m = s.index_of(y);
                assert(m != 0);
                assert(s2[m - 1] == y);
            }
        }
        lemma_sorted_same_elements(s2, t2);
        assert(s =~= seq![x] + s2);
        assert(t =~= seq![x] + t2);
    }
}

/// Comparing in the other direction swaps the two one-sided lists and keeps
/// the list of common files.
pub proof fn law_tree_diff_swap(
    a: Set<Seq<char>>,
    b: Set<Seq<char>>,
    d: TreeDiff,
    e: TreeDiff,
)
    requires
        is_tree_diff(a, b, d),
        is_tree_diff(b, a, e),
    ensures
        views(e.in_both@) == views(d.in_both@),
        views(e.only_in_a@) == views(d.only_in_b@),
        views(e.only_in_b@) == views(d.only_in_a@),
{
    lemma_sorted_same_elements(views(e.in_both@), views(d.in_both@));
    lemma_sorted_same_elements(views(e.only_in_a@), views(d.only_in_b@));
    lemma_sorted_same_elements(views(e.only_in_b@), views(d.only_in_a@));
}

// ── report paths ────────────────────────────────────────────────────────────

/// Report paths hold no backslash, and converting a converted path changes
/// nothing.
pub proof fn law_forward_slashes(s: Seq<char>)
    ensures
        !forward_slashes(s).contains('\\'),
        forward_slashes(forward_slashes(s)) == forward_slashes(s),
{
    let f = forward_slashes(s);
    if f.contains('\\') {
        let k = f.index_of('\\');
        assert(f[k] == (if s[k] == '\\' { '/' } else { s[k] }));
    }
    assert(forward_slashes(f) =~= f);
}

// ── binary comparison ───────────────────────────────────────────────────────

/// Binary files compare as identical in either order, and a file is
/// identical to itself.
pub proof fn law_binary_identical(a: BinaryProbe, b: BinaryProbe)
    ensures
        (reported_hash(a) == reported_hash(b) && a.size == b.size) == (reported_hash(b)
            == reported_hash(a) && b.size == a.size),
        reported_hash(a) == reported_hash(a) && a.size == a.size,
{
}

/// A hex digit names its value.
proof fn lemma_hex_digit_injective(a: u8, b: u8)
    requires
        a < 16,
        b < 16,
        hex_digit(a) == hex_digit(b),
    ensures
        a == b,
{
    assert(hex_digit(a) as int == if a < 10 { 48 + a } else { 87 + a });
    assert(hex_digit(b) as int == if b < 10 { 48 + b } else { 87 + b });
}

/// Hexadecimal text has two digits per byte and names its bytes.
proof fn lemma_hex_lower_injective(x: Seq<u8>, y: Seq<u8>)
    requires
        x.len() == y.len(),
        hex_lower(x) == hex_lower(y),
    ensures
        x == y,
        hex_lower(x).len() == 2 * x.len(),
    decreases x.len(),
{
    if x.len() > 0 {
        let (px, py) = (x.drop_last(), y.drop_last());
        lemma_hex_len(px);
        lemma_hex_len(py);
        let (hx, hy) = (hex_lower(px), hex_lower(py));
        let (a, b) = (x.last(), y.last());
        assert(hex_lower(x) == hx + seq![hex_digit(a / 16), hex_digit(a % 16)]);
        assert(hex_lower(y) == hy + seq![hex_digit(b / 16), hex_digit(b % 16)]);
        assert(hex_lower(x)[hx.len() as int] == hex_digit(a / 16));
        assert(hex_lower(y)[hy.len() as int] == hex_digit(b / 16));
        assert(hex_lower(x)[hx.len() as int + 1] == hex_digit(a % 16));
        assert(hex_lower(y)[hy.len() as int + 1] == hex_digit(b % 16));
        lemma_hex_digit_injective(a / 16, b / 16);
        lemma_hex_digit_injective(a % 16, b % 16);
        assert(hx =~= hex_lower(x).take(hx.len() as int));
        assert(hy =~= hex_lower(y).take(hy.len() as int));
        lemma_hex_lower_injective(px, py);
        assert(a == b);
        assert(x =~= px.push(a));
        assert(y =~= py.push(b));
    }
}

/// Hexadecimal text has two digits per byte.
proof fn lemma_hex_len(x: Seq<u8>)
    ensures
        hex_lower(x).len() == 2 * x.len(),
    decreases x.len(),
{
    if x.len() > 0 {
        lemma_hex_len(x.drop_last());
    }
}

/// Two non-empty binary files with digests of equal length report the same
/// hash exactly when their digests are equal; an empty file reports none.
pub proof fn law_binary_hash_decides(a: BinaryProbe, b: BinaryProbe, da: Seq<u8>, db: Seq<u8>)
    requires
        a.size > 0,
        b.size > 0,
        a.digest matches Some(x) && x@ == da,
        b.digest matches Some(y) && y@ == db,
        da.len() == db.len(),
    ensures
        (reported_hash(a) == reported_hash(b)) <==> da == db,
        reported_hash(a).len() == 2 * da.len(),
{
    lemma_hex_len(da);
    if reported_hash(a) == reported_hash(b) {
        lemma_hex_lower_injective(da, db);
    }
}

/// An empty binary file reports no hash.
pub proof fn law_empty_binary_unhashed(a: BinaryProbe)
    requires
        a.size == 0,
    ensures
        reported_hash(a).len() == 0,
{
}

// ── code comparison ─────────────────────────────────────────────────────────

/// Two files of the same size with the same contents compare as identical.
pub proof fn law_code_same_contents(
    r: CodeDiffResult,
    path: Seq<char>,
    size: u64,
    content: Vec<u8>,
    include_full_diff: bool,
)
    requires
        code_diff_spec(
            r,
            path,
            CodeSource { size: Ok(size), content: Ok(content) },
            CodeSource { size: Ok(size), content: Ok(content) },
            include_full_diff,
        ),
    ensures
        is_identical_result(r, path),
{
}

/// Every code comparison reports a similarity between zero and one, and an
/// identical pair has no added or removed lines.
pub proof fn law_code_similarity_in_range(
    r: CodeDiffResult,
    path: Seq<char>,
    a: CodeSource,
    b: CodeSource,
    include_full_diff: bool,
)
    requires
        code_diff_spec(r, path, a, b, include_full_diff),
    ensures
        r.similarity.wf(),
        r.similarity.at_most_one(),
        r.identical ==> r.added_lines == 0 && r.removed_lines == 0,
        r.identical ==> r.error is None,
        (r.error is None && r.note@.len() == 0 && r.added_lines == 0 && r.removed_lines == 0)
            ==> r.identical,
        r.error is Some ==> !r.identical,
{
    reveal_strlit("skipped full diff: file too large (>2097152 bytes)");
}

/// The text of an optional error.
pub open spec fn error_text(e: Option<String>) -> Option<Seq<char>> {
    match e {
        Some(m) => Some(m@),
        None => None,
    }
}

/// Asking for the unified diff or not changes neither the line counts nor
/// the similarity; without it the diff text is empty, and with it a file
/// with an added or removed line gets a non-empty diff text.
pub proof fn law_code_diff_flag(
    r1: CodeDiffResult,
    r2: CodeDiffResult,
    path: Seq<char>,
    a: CodeSource,
    b: CodeSource,
)
    requires
        code_diff_spec(r1, path, a, b, true),
        code_diff_spec(r2, path, a, b, false),
    ensures
        r1.identical == r2.identical,
        r1.added_lines == r2.added_lines,
        r1.removed_lines == r2.removed_lines,
        r1.similarity == r2.similarity,
        r1.note@ == r2.note@,
        error_text(r1.error) == error_text(r2.error),
        r1.path@ == r2.path@,
        r2.unified_diff@.len() == 0,
        r1.added_lines + r1.removed_lines > 0 ==> r1.unified_diff@.len() > 0,
{
}

// ── data comparison ─────────────────────────────────────────────────────────

/// Comparing two data files in the other direction swaps added and removed
/// columns and the row counts, and swaps the two types of each type change.
pub proof fn law_data_diff_swap(
    r: DataDiffResult,
    s: DataDiffResult,
    ma: TableModel,
    mb: TableModel,
)
    requires
        compared(r, ma, mb),
        compared(s, mb, ma),
    ensures
        views(s.columns_added@) == views(r.columns_removed@),
        views(s.columns_removed@) == views(r.columns_added@),
        s.row_count_a == r.row_count_b,
        s.row_count_b == r.row_count_a,
        forall|c: Seq<char>| #[trigger]
            type_changes_of(mb.1, ma.1).contains_key(c) <==> type_changes_of(ma.1, mb.1).contains_key(c),
        forall|c: Seq<char>|
            type_changes_of(mb.1, ma.1).contains_key(c) ==> #[trigger] type_changes_of(mb.1, ma.1)[c]
                == (type_changes_of(ma.1, mb.1)[c].1, type_changes_of(ma.1, mb.1)[c].0),
{
    lemma_sorted_same_elements(views(s.columns_added@), views(r.columns_removed@));
    lemma_sorted_same_elements(views(s.columns_removed@), views(r.columns_added@));
}

/// A data file compared with an identical reading of itself shows no column
/// added, removed or changed in type, and no row delta.
pub proof fn law_data_diff_self(r: DataDiffResult, m: TableModel)
    requires
        compared(r, m, m),
    ensures
        r.columns_added@.len() == 0,
        r.columns_removed@.len() == 0,
        r.type_changes@.dom().len() == 0,
        r.row_count_a == r.row_count_b,
{
    if r.columns_added@.len() > 0 {
        assert(views(r.columns_added@)[0] == r.columns_added@[0]@);
        assert(views(r.columns_added@).contains(r.columns_added@[0]@));
    }
    if r.columns_removed@.len() > 0 {
        assert(views(r.columns_removed@)[0] == r.columns_removed@[0]@);
        assert(views(r.columns_removed@).contains(r.columns_removed@[0]@));
    }
    assert(type_changes_of(m.1, m.1) =~= Map::<Seq<char>, (Seq<char>, Seq<char>)>::empty());
    assert(r.type_changes@.dom() =~= Set::<Seq<char>>::empty()) by {
        assert forall|c: Seq<char>| !r.type_changes@.dom().contains(c) by {
            if r.type_changes@.dom().contains(c) {
                assert(crate::data_diff::pair_map(r.type_changes@).contains_key(c));
            }
        }
    }
}

// ── rename detection ────────────────────────────────────────────────────────

/// A signature agrees with itself everywhere.
proof fn lemma_agreement_self(x: Seq<u64>, n: int)
    requires
        0 <= n,
    ensures
        agreement_upto(x, x, n) == n,
    decreases n,
{
    if n > 0 {
        lemma_agreement_self(x, n - 1);
    }
}

/// A file with exactly the text of a participating file is always one of
/// its candidates, with all 128 signature values agreeing (content
/// similarity one).
pub proof fn law_same_text_is_candidate(fa: RenameFile, fb: RenameFile)
    requires
        matchable(fb),
        file_text(fa) == file_text(fb),
    ensures
        eligible(fa, fb),
        agreement(file_sig(fa), file_sig(fb)) == 128,
{
    let x = file_sig(fa);
    assert(file_sig(fb) == x);
    lemma_agreement_self(x, 128);
    assert(crate::matcher::band_key(x, 0) == crate::matcher::band_key(file_sig(fb), 0));
    assert(shares_band(x, file_sig(fb)));
}


// ── rename detection: who takes part ────────────────────────────────────────

/// `e` renames a participating file of `as_` (a code file of at most 5 MiB)
/// to a participating file of `bs`.
pub open spec fn between_participants(
    e: (Seq<char>, Seq<char>, Ratio, Ratio, Ratio),
    as_: Seq<RenameFile>,
    bs: Seq<RenameFile>,
) -> bool {
    exists|j: int, k: int|
        0 <= j < as_.len() && 0 <= k < bs.len() && matchable(as_[j]) && matchable(bs[k])
            && #[trigger] pair_view(as_[j], bs[k]) == e
}

/// Every rename in the list of `as_` is between participating files.
proof fn lemma_rename_list_members(as_: Seq<RenameFile>, bs: Seq<RenameFile>, t: Ratio)
    ensures
        forall|i: int|
            0 <= i < rename_list(as_, bs, t).len() ==> between_participants(
                #[trigger] rename_list(as_, bs, t)[i],
                as_,
                bs,
            ),
    decreases as_.len(),
{
    if as_.len() > 0 {
        let p = as_.drop_last();
        lemma_rename_list_members(p, bs, t);
        let l = rename_list(as_, bs, t);
        let lp = rename_list(p, bs, t);
        let fa = as_.last();
        assert forall|i: int| 0 <= i < l.len() implies between_participants(#[trigger] l[i], as_, bs) by {
            if i < lp.len() {
                assert(l[i] == lp[i]);
                assert(between_participants(lp[i], p, bs));
                let (j, k) = choose|j: int, k: int|
                    0 <= j < p.len() && 0 <= k < bs.len() && matchable(p[j]) && matchable(bs[k])
                        && #[trigger] pair_view(p[j], bs[k]) == lp[i];
                assert(p[j] == as_[j]);
                assert(pair_view(as_[j], bs[k]) == l[i]);
            } else {
                let jb = choose|j: int| is_best(fa, bs, j);
                assert(found(fa, bs, t) is Some);
                assert(as_[as_.len() - 1] == fa);
                assert(pair_view(as_[as_.len() - 1], bs[jb]) == l[i]);
            }
        }
    }
}

/// Every element of the sorted list occurs in the list it sorts.
proof fn lemma_sorted_member(xs: Seq<(Seq<char>, Seq<char>, Ratio, Ratio, Ratio)>, i: int)
    requires
        scores_wf(xs),
        0 <= i < sort_desc(xs).len(),
    ensures
        xs.contains(sort_desc(xs)[i]),
{
    broadcast use vstd::seq_lib::to_multiset_contains;

    lemma_sort_desc(xs);
    let e = sort_desc(xs)[i];
    assert(sort_desc(xs).contains(e));
    assert(sort_desc(xs).to_multiset().count(e) > 0);
    assert(xs.to_multiset().count(e) > 0);
}

/// Only code files of at most 5 MiB take part in rename detection: every
/// reported rename goes from such a file found only in the first tree to
/// such a file found only in the second (data and binary files never do).
pub proof fn law_renames_between_participants(
    as_: Seq<RenameFile>,
    bs: Seq<RenameFile>,
    threshold: Ratio,
)
    requires
        names_fit(as_),
        names_fit(bs),
    ensures
        forall|i: int|
            0 <= i < first_200(sort_desc(rename_list(as_, bs, threshold))).len()
                ==> between_participants(
                #[trigger] first_200(sort_desc(rename_list(as_, bs, threshold)))[i],
                as_,
                bs,
            ),
{
    let xs = rename_list(as_, bs, threshold);
    lemma_rename_list_scores(as_, bs, threshold);
    lemma_rename_list_members(as_, bs, threshold);
    lemma_sort_desc(xs);
    let r = first_200(sort_desc(xs));
    assert forall|i: int| 0 <= i < r.len() implies between_participants(#[trigger] r[i], as_, bs) by {
        assert(r[i] == sort_desc(xs)[i]);
        lemma_sorted_member(xs, i);
        let q = xs.index_of(r[i]);
        assert(xs[q] == r[i]);
    }
}

/// No two renames in `xs` start from the same path.
pub open spec fn distinct_sources(xs: Seq<(Seq<char>, Seq<char>, Ratio, Ratio, Ratio)>) -> bool {
    forall|i: int, j: int| 0 <= i < j < xs.len() ==> (#[trigger] xs[i]).0 != (#[trigger] xs[j]).0
}

/// The files of `as_` have pairwise distinct paths (as report text).
pub open spec fn distinct_paths(as_: Seq<RenameFile>) -> bool {
    forall|i: int, j: int|
        0 <= i < j < as_.len() ==> forward_slashes((#[trigger] as_[i]).rel@) != forward_slashes(
            (#[trigger] as_[j]).rel@,
        )
}

/// The list of renames of files with distinct paths starts from distinct
/// paths.
proof fn lemma_rename_list_distinct(as_: Seq<RenameFile>, bs: Seq<RenameFile>, t: Ratio)
    requires
        distinct_paths(as_),
    ensures
        distinct_sources(rename_list(as_, bs, t)),
    decreases as_.len(),
{
    if as_.len() > 0 {
        let p = as_.drop_last();
        assert(distinct_paths(p)) by {
            assert forall|i: int, j: int| 0 <= i < j < p.len() implies forward_slashes(
                (#[trigger] p[i]).rel@,
            ) != forward_slashes((#[trigger] p[j]).rel@) by {
                assert(p[i] == as_[i] && p[j] == as_[j]);
            }
        }
        lemma_rename_list_distinct(p, bs, t);
        lemma_rename_list_members(p, bs, t);
        let l = rename_list(as_, bs, t);
        let lp = rename_list(p, bs, t);
        let fa = as_.last();
        if let Some(c) = found(fa, bs, t) {
            assert(l == lp.push(c));
            let jb = choose|j: int| is_best(fa, bs, j);
            assert(c.0 == forward_slashes(fa.rel@));
            assert forall|i: int, j: int| 0 <= i < j < l.len() implies (#[trigger] l[i]).0 != (
            #[trigger] l[j]).0 by {
                if j < lp.len() {
                    assert(l[i] == lp[i] && l[j] == lp[j]);
                } else {
                    assert(l[i] == lp[i]);
                    assert(between_participants(lp[i], p, bs));
                    let (m, k) = choose|m: int, k: int|
                        0 <= m < p.len() && 0 <= k < bs.len() && matchable(p[m]) && matchable(
                            bs[k],
                        ) && #[trigger] pair_view(p[m], bs[k]) == lp[i];
                    assert(p[m] == as_[m]);
                    assert(as_[as_.len() - 1] == fa);
                }
            }
        }
    }
}

/// Sorting keeps the sources distinct.
proof fn lemma_sort_desc_distinct(xs: Seq<(Seq<char>, Seq<char>, Ratio, Ratio, Ratio)>)
    requires
        scores_wf(xs),
        distinct_sources(xs),
    ensures
        distinct_sources(sort_desc(xs)),
    decreases xs.len(),
{
    if xs.len() > 0 {
        let p = xs.drop_last();
        let x = xs.last();
        assert(scores_wf(p)) by {
            assert forall|i: int| 0 <= i < p.len() implies (#[trigger] p[i]).4.wf() by {
                assert(p[i] == xs[i]);
            }
        }
        assert(distinct_sources(p)) by {
            assert forall|i: int, j: int| 0 <= i < j < p.len() implies (#[trigger] p[i]).0 != (
            #[trigger] p[j]).0 by {
                assert(p[i] == xs[i] && p[j] == xs[j]);
            }
        }
        lemma_sort_desc_distinct(p);
        let s = sort_desc(p);
        let k = insert_pos(s, x.4) as int;
        lemma_insert_pos(s, x.4);
        let r = sort_desc(xs);
        assert(r =~= s.insert(k, x));
        assert forall|i: int| 0 <= i < s.len() implies (#[trigger] s[i]).0 != x.0 by {
            lemma_sorted_member(p, i);
            let q = p.index_of(s[i]);
            assert(p[q] == xs[q]);
            assert(xs[xs.len() - 1] == x);
        }
        assert forall|i: int, j: int| 0 <= i < j < r.len() implies (#[trigger] r[i]).0 != (
        #[trigger] r[j]).0 by {
            if j < k {
                assert(r[i] == s[i] && r[j] == s[j]);
            } else if j == k {
                assert(r[i] == s[i]);
            } else if i < k {
                assert(r[i] == s[i] && r[j] == s[j - 1]);
            } else if i == k {
                assert(r[j] == s[j - 1]);
            } else {
                assert(r[i] == s[i - 1] && r[j] == s[j - 1]);
            }
        }
    }
}

/// Each file found only in the first tree is matched at most once: when the
/// files' paths are distinct, no two reported renames start from the same
/// path.
pub proof fn law_renames_distinct_sources(as_: Seq<RenameFile>, bs: Seq<RenameFile>, threshold: Ratio)
    requires
        names_fit(as_),
        names_fit(bs),
        distinct_paths(as_),
    ensures
        distinct_sources(first_200(sort_desc(rename_list(as_, bs, threshold)))),
{
    let xs = rename_list(as_, bs, threshold);
    lemma_rename_list_scores(as_, bs, threshold);
    lemma_rename_list_distinct(as_, bs, threshold);
    lemma_sort_desc_distinct(xs);
    let s = sort_desc(xs);
    let r = first_200(s);
    assert forall|i: int, j: int| 0 <= i < j < r.len() implies (#[trigger] r[i]).0 != (
    #[trigger] r[j]).0 by {
        assert(r[i] == s[i] && r[j] == s[j]);
    }
}

// ── rename detection: the threshold ─────────────────────────────────────────

/// The renames of `xs` that reach `t`, in order.
pub open spec fn reaching(xs: Seq<(Seq<char>, Seq<char>, Ratio, Ratio, Ratio)>, t: Ratio) -> Seq<
    (Seq<char>, Seq<char>, Ratio, Ratio, Ratio),
>
    decreases xs.len(),
{
    if xs.len() == 0 {
        seq![]
    } else {
        let p = reaching(xs.drop_last(), t);
        if t.le(xs.last().4) {
            p.push(xs.last())
        } else {
            p
        }
    }
}

/// Filtering a concatenation filters each part.
proof fn lemma_reaching_concat(
    a: Seq<(Seq<char>, Seq<char>, Ratio, Ratio, Ratio)>,
    b: Seq<(Seq<char>, Seq<char>, Ratio, Ratio, Ratio)>,
    t: Ratio,
)
    ensures
        reaching(a + b, t) == reaching(a, t) + reaching(b, t),
    decreases b.len(),
{
    if b.len() == 0 {
        assert(a + b =~= a);
        assert(reaching(a, t) + reaching(b, t) =~= reaching(a, t));
    } else {
        lemma_reaching_concat(a, b.drop_last(), t);
        assert((a + b).drop_last() =~= a + b.drop_last());
        assert((a + b).last() == b.last());
        assert((reaching(a, t) + reaching(b.drop_last(), t)).push(b.last()) =~= reaching(a, t) + reaching(
            b.drop_last(),
            t,
        ).push(b.last()));
    }
}

/// Filtering keeps a list all of whose scores reach `t`, and never lengthens.
proof fn lemma_reaching_all(xs: Seq<(Seq<char>, Seq<char>, Ratio, Ratio, Ratio)>, t: Ratio)
    ensures
        (forall|i: int| 0 <= i < xs.len() ==> t.le((#[trigger] xs[i]).4)) ==> reaching(xs, t) == xs,
        reaching(xs, t).len() <= xs.len(),
        forall|i: int| 0 <= i < reaching(xs, t).len() ==> xs.contains(#[trigger] reaching(xs, t)[i]),
    decreases xs.len(),
{
    if xs.len() > 0 {
        let p = xs.drop_last();
        lemma_reaching_all(p, t);
        if forall|i: int| 0 <= i < xs.len() ==> t.le((#[trigger] xs[i]).4) {
            assert forall|i: int| 0 <= i < p.len() implies t.le((#[trigger] p[i]).4) by {
                assert(p[i] == xs[i]);
            }
            assert(xs[xs.len() - 1] == xs.last());
            assert(p.push(xs.last()) =~= xs);
        }
        let r = reaching(xs, t);
        assert forall|i: int| 0 <= i < r.len() implies xs.contains(#[trigger] r[i]) by {
            if i < reaching(p, t).len() {
                assert(r[i] == reaching(p, t)[i]);
                let q = p.index_of(r[i]);
                assert(xs[q] == p[q]);
            } else {
                assert(r[i] == xs[xs.len() - 1]);
            }
        }
    }
}

/// Raising the threshold keeps exactly the renames found at the lower one
/// that reach the higher one.
proof fn lemma_rename_list_threshold(as_: Seq<RenameFile>, bs: Seq<RenameFile>, t1: Ratio, t2: Ratio)
    requires
        names_fit(as_),
        names_fit(bs),
        t1.wf(),
        t2.wf(),
        t1.le(t2),
    ensures
        rename_list(as_, bs, t2) == reaching(rename_list(as_, bs, t1), t2),
    decreases as_.len(),
{
    if as_.len() > 0 {
        let p = as_.drop_last();
        assert(names_fit(p)) by {
            assert forall|i: int| 0 <= i < p.len() implies (#[trigger] crate::matcher::name_of(
                p[i].rel@,
            )).len() <= u32::MAX by {
                assert(p[i] == as_[i]);
            }
        }
        lemma_rename_list_threshold(p, bs, t1, t2);
        let fa = as_.last();
        let l1 = rename_list(as_, bs, t1);
        let p1 = rename_list(p, bs, t1);
        if let Some(c) = found(fa, bs, t1) {
            assert(l1 == p1.push(c));
            assert(l1.drop_last() =~= p1);
            assert(l1.last() == c);
        } else {
            assert(l1 == p1);
        }
        assert(crate::matcher::name_of(as_[as_.len() - 1].rel@).len() <= u32::MAX);
        if matchable(fa) && exists|j: int| is_best(fa, bs, j) {
            let j = choose|j: int| is_best(fa, bs, j);
            assert(crate::matcher::name_of(bs[j].rel@).len() <= u32::MAX);
            lemma_score_wf(fa, bs[j]);
            let sc = crate::matcher::pair_score(fa, bs[j]);
            if t2.le(sc) {
                lemma_le_trans(t1, t2, sc);
            }
        }
    }
}

/// In a list sorted by decreasing score, filtering commutes with inserting
/// at the sorted place.
proof fn lemma_reaching_insert(
    s: Seq<(Seq<char>, Seq<char>, Ratio, Ratio, Ratio)>,
    x: (Seq<char>, Seq<char>, Ratio, Ratio, Ratio),
    t: Ratio,
)
    requires
        sorted_by_score(s),
        scores_wf(s),
        x.4.wf(),
        t.wf(),
    ensures
        reaching(insert_desc(s, x), t) == if t.le(x.4) {
            insert_desc(reaching(s, t), x)
        } else {
            reaching(s, t)
        },
{
    let k = insert_pos(s, x.4) as int;
    lemma_insert_pos(s, x.4);
    let a = s.take(k);
    let b = s.skip(k);
    assert(s =~= a + b);
    assert(insert_desc(s, x) =~= a + (seq![x] + b));
    lemma_reaching_concat(a, seq![x] + b, t);
    lemma_reaching_concat(seq![x], b, t);
    lemma_reaching_concat(a, b, t);
    assert(seq![x].drop_last() =~= Seq::<(Seq<char>, Seq<char>, Ratio, Ratio, Ratio)>::empty());
    assert(seq![x].last() == x);
    reveal_with_fuel(reaching, 2);
    if t.le(x.4) {
        assert(reaching(seq![x], t) =~= seq![x]);
        assert forall|i: int| 0 <= i < a.len() implies t.le((#[trigger] a[i]).4) by {
            assert(a[i] == s[i]);
            lemma_le_trans(t, x.4, s[i].4);
        }
        lemma_reaching_all(a, t);
        let rb = reaching(b, t);
        lemma_reaching_all(b, t);
        let rs = reaching(s, t);
        assert(rs == a + rb);
        // nothing after the insertion point reaches the new score
        assert(insert_pos(rb, x.4) == 0) by {
            if rb.len() > 0 {
                assert(b.contains(rb[0]));
                let q = b.index_of(rb[0]);
                assert(b[q] == s[k + q]);
                assert(!x.4.le(s[k].4));
                if q > 0 {
                    lemma_le_trans(s[k + q].4, s[k].4, x.4);
                }
            }
        }
        lemma_insert_pos_after(a, rb, x.4);
        assert(insert_desc(rs, x) =~= a + (seq![x] + rb));
    } else {
        assert(reaching(seq![x], t) =~= Seq::<(Seq<char>, Seq<char>, Ratio, Ratio, Ratio)>::empty());
        assert(reaching(a, t) + (Seq::<(Seq<char>, Seq<char>, Ratio, Ratio, Ratio)>::empty() + reaching(
            b,
            t,
        )) =~= reaching(a, t) + reaching(b, t));
    }
}

/// Where every score of `a` is at least `r`, the insertion point in `a + b`
/// is past `a`.
proof fn lemma_insert_pos_after(
    a: Seq<(Seq<char>, Seq<char>, Ratio, Ratio, Ratio)>,
    b: Seq<(Seq<char>, Seq<char>, Ratio, Ratio, Ratio)>,
    r: Ratio,
)
    requires
        forall|i: int| 0 <= i < a.len() ==> r.le((#[trigger] a[i]).4),
    ensures
        insert_pos(a + b, r) == a.len() + insert_pos(b, r),
    decreases a.len(),
{
    if a.len() > 0 {
        assert((a + b)[0] == a[0]);
        assert((a + b).drop_first() =~= a.drop_first() + b);
        assert forall|i: int| 0 <= i < a.drop_first().len() implies r.le((#[trigger] a.drop_first()[i]).4) by {
            assert(a.drop_first()[i] == a[i + 1]);
        }
        lemma_insert_pos_after(a.drop_first(), b, r);
    } else {
        assert(a + b =~= b);
    }
}

/// Sorting commutes with filtering by a threshold.
proof fn lemma_sort_reaching(xs: Seq<(Seq<char>, Seq<char>, Ratio, Ratio, Ratio)>, t: Ratio)
    requires
        scores_wf(xs),
        t.wf(),
    ensures
        sort_desc(reaching(xs, t)) == reaching(sort_desc(xs), t),
    decreases xs.len(),
{
    broadcast use vstd::seq_lib::to_multiset_contains;

    if xs.len() > 0 {
        let p = xs.drop_last();
        let x = xs.last();
        assert(scores_wf(p)) by {
            assert forall|i: int| 0 <= i < p.len() implies (#[trigger] p[i]).4.wf() by {
                assert(p[i] == xs[i]);
            }
        }
        assert(x.4.wf()) by {
            assert(xs[xs.len() - 1] == x);
        }
        lemma_sort_reaching(p, t);
        lemma_sort_desc(p);
        let s = sort_desc(p);
        assert forall|i: int| 0 <= i < s.len() implies (#[trigger] s[i]).4.wf() by {
            assert(s.to_multiset().count(s[i]) > 0);
            let q = p.index_of(s[i]);
            assert(p[q].4.wf());
        }
        lemma_reaching_insert(s, x, t);
        if t.le(x.4) {
            assert(reaching(xs, t) == reaching(p, t).push(x));
            assert(reaching(xs, t).drop_last() =~= reaching(p, t));
        } else {
            assert(reaching(xs, t) == reaching(p, t));
        }
    }
}

/// In a list sorted by decreasing score, the entries that reach `t` are a
/// prefix: exactly the first `m`.
proof fn lemma_reaching_prefix(s: Seq<(Seq<char>, Seq<char>, Ratio, Ratio, Ratio)>, t: Ratio) -> (m:
    int)
    requires
        sorted_by_score(s),
        scores_wf(s),
        t.wf(),
    ensures
        0 <= m <= s.len(),
        reaching(s, t) == s.take(m),
        forall|i: int| 0 <= i < m ==> t.le((#[trigger] s[i]).4),
        forall|i: int| m <= i < s.len() ==> !t.le((#[trigger] s[i]).4),
    decreases s.len(),
{
    if s.len() == 0 {
        assert(s.take(0) =~= s);
        0
    } else {
        let p = s.drop_last();
        let x = s.last();
        assert(sorted_by_score(p)) by {
            assert forall|i: int, j: int| 0 <= i < j < p.len() implies (#[trigger] p[j]).4.le(
                (#[trigger] p[i]).4,
            ) by {
                assert(p[i] == s[i] && p[j] == s[j]);
            }
        }
        assert(scores_wf(p)) by {
            assert forall|i: int| 0 <= i < p.len() implies (#[trigger] p[i]).4.wf() by {
                assert(p[i] == s[i]);
            }
        }
        let m0 = lemma_reaching_prefix(p, t);
        assert(x == s[s.len() - 1]);
        if t.le(x.4) {
            assert forall|i: int| 0 <= i < s.len() implies t.le((#[trigger] s[i]).4) by {
                if i < s.len() - 1 {
                    assert(s[s.len() - 1].4.le(s[i].4));
                    lemma_le_trans(t, x.4, s[i].4);
                }
            }
            if m0 < p.len() {
                assert(p[m0] == s[m0]);
            }
            assert(p.take(m0) =~= p);
            assert(reaching(s, t) == p.push(x));
            assert(s.take(s.len() as int) =~= p.push(x));
            s.len() as int
        } else {
            assert forall|i: int| m0 <= i < s.len() implies !t.le((#[trigger] s[i]).4) by {
                if i < p.len() {
                    assert(p[i] == s[i]);
                }
            }
            assert forall|i: int| 0 <= i < m0 implies t.le((#[trigger] s[i]).4) by {
                assert(p[i] == s[i]);
            }
            assert(p.take(m0) =~= s.take(m0));
            m0
        }
    }
}

/// Raising the rename threshold only removes candidates: the report at the
/// higher threshold is the report at the lower one, filtered to the
/// candidates that reach the higher threshold (and also the first 200 of the
/// whole ranking at the lower one that reach it).
pub proof fn law_threshold_monotone(as_: Seq<RenameFile>, bs: Seq<RenameFile>, t1: Ratio, t2: Ratio)
    requires
        names_fit(as_),
        names_fit(bs),
        t1.wf(),
        t2.wf(),
        t1.le(t2),
    ensures
        first_200(sort_desc(rename_list(as_, bs, t2))) == reaching(
            first_200(sort_desc(rename_list(as_, bs, t1))),
            t2,
        ),
        first_200(sort_desc(rename_list(as_, bs, t2))) == first_200(
            reaching(sort_desc(rename_list(as_, bs, t1)), t2),
        ),
{
    let l1 = rename_list(as_, bs, t1);
    lemma_rename_list_scores(as_, bs, t1);
    lemma_rename_list_threshold(as_, bs, t1, t2);
    lemma_sort_reaching(l1, t2);
    lemma_sort_desc(l1);
    let s = sort_desc(l1);
    assert(scores_wf(s)) by {
        broadcast use vstd::seq_lib::to_multiset_contains;

        assert forall|i: int| 0 <= i < s.len() implies (#[trigger] s[i]).4.wf() by {
            assert(s.to_multiset().count(s[i]) > 0);
            let q = l1.index_of(s[i]);
            assert(l1[q].4.wf());
        }
    }
    let m = lemma_reaching_prefix(s, t2);
    let f = first_200(s);
    assert(sorted_by_score(f) && scores_wf(f)) by {
        assert forall|i: int, j: int| 0 <= i < j < f.len() implies (#[trigger] f[j]).4.le(
            (#[trigger] f[i]).4,
        ) by {
            assert(f[i] == s[i] && f[j] == s[j]);
        }
        assert forall|i: int| 0 <= i < f.len() implies (#[trigger] f[i]).4.wf() by {
            assert(f[i] == s[i]);
        }
    }
    let m2 = lemma_reaching_prefix(f, t2);
    let n = if m <= f.len() { m } else { f.len() as int };
    assert(m2 == n) by {
        if m2 < n {
            assert(f[m2] == s[m2]);
        }
        if m2 > n {
            assert(f[n] == s[n]);
        }
    }
    assert(first_200(s.take(m)) =~= f.take(m2));
}

// ── MinHash signatures ──────────────────────────────────────────────────────

/// The least hash of some shingles is at most the hash of each, and is the
/// hash of one of them (or `u64::MAX` when there are none).
proof fn lemma_min_hash_bounds(shs: Seq<Seq<u8>>, perm: u64)
    ensures
        forall|i: int| 0 <= i < shs.len() ==> min_hash(shs, perm) <= perm_hash(#[trigger] shs[i], perm),
        shs.len() == 0 ==> min_hash(shs, perm) == u64::MAX,
        shs.len() > 0 ==> exists|i: int|
            0 <= i < shs.len() && min_hash(shs, perm) == perm_hash(#[trigger] shs[i], perm),
    decreases shs.len(),
{
    if shs.len() > 0 {
        let p = shs.drop_last();
        lemma_min_hash_bounds(p, perm);
        assert forall|i: int| 0 <= i < shs.len() implies min_hash(shs, perm) <= perm_hash(
            #[trigger] shs[i],
            perm,
        ) by {
            if i < p.len() {
                assert(shs[i] == p[i]);
            }
        }
        if min_hash(shs, perm) == perm_hash(shs[shs.len() - 1], perm) {
        } else {
            let i = choose|i: int| 0 <= i < p.len() && min_hash(p, perm) == perm_hash(#[trigger] p[i], perm);
            assert(shs[i] == p[i]);
        }
    }
}

/// The signature of no shingles is `u64::MAX` everywhere.
pub proof fn law_signature_empty()
    ensures
        signature(Seq::<Seq<u8>>::empty()) == Seq::new(128, |p: int| u64::MAX),
{
    assert(signature(Seq::<Seq<u8>>::empty()) =~= Seq::new(128, |p: int| u64::MAX));
}

/// The signature of the shingles of two texts together is, permutation by
/// permutation, the smaller of their two signatures.
pub proof fn law_signature_union(s: Seq<Seq<u8>>, t: Seq<Seq<u8>>)
    ensures
        forall|p: int|
            0 <= p < 128 ==> #[trigger] signature(s + t)[p] == if signature(s)[p] <= signature(t)[p] {
                signature(s)[p]
            } else {
                signature(t)[p]
            },
{
    assert forall|p: int| 0 <= p < 128 implies #[trigger] signature(s + t)[p] == if signature(s)[p]
        <= signature(t)[p] {
        signature(s)[p]
    } else {
        signature(t)[p]
    } by {
        let perm = p as u64;
        let u = s + t;
        lemma_min_hash_bounds(s, perm);
        lemma_min_hash_bounds(t, perm);
        lemma_min_hash_bounds(u, perm);
        if s.len() > 0 {
            let i = choose|i: int| 0 <= i < s.len() && min_hash(s, perm) == perm_hash(#[trigger] s[i], perm);
            assert(u[i] == s[i]);
        }
        if t.len() > 0 {
            let i = choose|i: int| 0 <= i < t.len() && min_hash(t, perm) == perm_hash(#[trigger] t[i], perm);
            assert(u[s.len() + i] == t[i]);
        }
        if u.len() > 0 {
            let i = choose|i: int| 0 <= i < u.len() && min_hash(u, perm) == perm_hash(#[trigger] u[i], perm);
            if i < s.len() {
                assert(u[i] == s[i]);
            } else {
                assert(u[i] == t[i - s.len()]);
            }
        }
    }
}

/// The signature depends only on the set of shingles: repeating a shingle
/// or reordering them changes nothing.
pub proof fn law_signature_of_set(s: Seq<Seq<u8>>, t: Seq<Seq<u8>>)
    requires
        s.to_set() == t.to_set(),
    ensures
        signature(s) == signature(t),
{
    assert forall|p: int| 0 <= p < 128 implies #[trigger] signature(s)[p] == signature(t)[p] by {
        let perm = p as u64;
        lemma_min_hash_bounds(s, perm);
        lemma_min_hash_bounds(t, perm);
        if s.len() > 0 {
            let i = choose|i: int| 0 <= i < s.len() && min_hash(s, perm) == perm_hash(#[trigger] s[i], perm);
            assert(s.to_set().contains(s[i]));
            assert(t.contains(s[i]));
            let j = t.index_of(s[i]);
        } else {
            if t.len() > 0 {
                assert(t.to_set().contains(t[0]));
            }
        }
        if t.len() > 0 {
            let i = choose|i: int| 0 <= i < t.len() && min_hash(t, perm) == perm_hash(#[trigger] t[i], perm);
            assert(t.to_set().contains(t[i]));
            assert(s.contains(t[i]));
            let j = s.index_of(t[i]);
        }
    }
    assert(signature(s) =~= signature(t));
}

// ── exclusion ───────────────────────────────────────────────────────────────

/// Splitting `p`, a separator and `q` gives the segments of `p` followed by
/// those of `q`.
proof fn lemma_split_join(p: Seq<char>, q: Seq<char>, cur: Seq<char>)
    ensures
        split_from(p + seq!['/'] + q, cur) == split_from(p, cur) + split_from(q, seq![]),
    decreases p.len(),
{
    let j = p + seq!['/'] + q;
    if p.len() == 0 {
        assert(j.drop_first() =~= q);
        assert(j[0] == '/');
    } else {
        assert(j[0] == p[0]);
        assert(j.drop_first() =~= p.drop_first() + seq!['/'] + q);
        if p[0] == '/' {
            lemma_split_join(p.drop_first(), q, seq![]);
            assert(seq![cur] + split_from(p.drop_first(), seq![]) + split_from(q, seq![]) =~= seq![cur]
                + (split_from(p.drop_first(), seq![]) + split_from(q, seq![])));
        } else {
            lemma_split_join(p.drop_first(), q, cur.push(p[0]));
        }
    }
}

/// Everything below an excluded directory is excluded: when a segment of
/// `d` is an excluded directory name or ends in `.egg-info`, so is a segment
/// of `d/q`, for every `q`, and the walk does not keep `d/q`.
pub proof fn law_excluded_directory_covers_subtree(d: Seq<char>, q: Seq<char>)
    requires
        exists|i: int| 0 <= i < segments(d).len() && excluded_component(#[trigger] segments(d)[i]),
    ensures
        excluded_path(d + seq!['/'] + q),
        !walk_keeps(d + seq!['/'] + q),
{
    let i = choose|i: int| 0 <= i < segments(d).len() && excluded_component(#[trigger] segments(d)[i]);
    lemma_split_join(d, q, seq![]);
    let joined = segments(d + seq!['/'] + q);
    assert(joined[i] == segments(d)[i]);
    assert(0 <= i < joined.len() && excluded_component(joined[i]));
    lemma_segments_nonempty(q, seq![]);
    assert(i < joined.len() - 1);
}

// ── Parquet column types ────────────────────────────────────────────────────

/// A Parquet column of a physical type the type names tell apart (every
/// type but the two byte-array types, which are both `BLOB` without an
/// annotation).
pub open spec fn distinct_kind(p: PhysicalType) -> int {
    match p {
        PhysicalType::ByteArray => 6,
        PhysicalType::FixedLenByteArray => 6,
        PhysicalType::Boolean => 0,
        PhysicalType::Int32 => 1,
        PhysicalType::Int64 => 2,
        PhysicalType::Int96 => 3,
        PhysicalType::Float => 4,
        PhysicalType::Double => 5,
    }
}

/// The type name of a Parquet column: a `DOUBLE` column is `DOUBLE`, a
/// `FLOAT` column `FLOAT`, a `BOOLEAN` column `BOOLEAN` and an `INT96`
/// column `TIMESTAMP`, whatever its annotation; without an annotation
/// `INT32` is `INTEGER`, `INT64` is `BIGINT` and the byte arrays are `BLOB`.
/// Distinct physical types without an annotation get distinct names, the
/// two byte-array types aside, so a column whose physical type changes
/// shows as a type change.
pub proof fn law_parquet_type_names(p: PhysicalType, q: PhysicalType, c: ConvertedType)
    ensures
        parquet_type(PhysicalType::Double, c) == "DOUBLE"@,
        parquet_type(PhysicalType::Float, c) == "FLOAT"@,
        parquet_type(PhysicalType::Boolean, c) == "BOOLEAN"@,
        parquet_type(PhysicalType::Int96, c) == "TIMESTAMP"@,
        parquet_type(PhysicalType::Int32, ConvertedType::Other) == "INTEGER"@,
        parquet_type(PhysicalType::Int64, ConvertedType::Other) == "BIGINT"@,
        parquet_type(PhysicalType::ByteArray, ConvertedType::Other) == "BLOB"@,
        parquet_type(PhysicalType::FixedLenByteArray, ConvertedType::Other) == "BLOB"@,
        distinct_kind(p) != distinct_kind(q) ==> parquet_type(p, ConvertedType::Other) != parquet_type(
            q,
            ConvertedType::Other,
        ),
{
    reveal_strlit("BOOLEAN");
    reveal_strlit("INTEGER");
    reveal_strlit("BIGINT");
    reveal_strlit("TIMESTAMP");
    reveal_strlit("FLOAT");
    reveal_strlit("DOUBLE");
    reveal_strlit("BLOB");
    reveal_strlit("VARCHAR");
    reveal_strlit("DATE");
    reveal_strlit("TIME");
    reveal_strlit("DECIMAL");
    assert("BOOLEAN"@.len() == 7);
    assert("INTEGER"@.len() == 7);
    assert("BIGINT"@.len() == 6);
    assert("TIMESTAMP"@.len() == 9);
    assert("FLOAT"@.len() == 5);
    assert("DOUBLE"@.len() == 6);
    assert("BLOB"@.len() == 4);
    assert("VARCHAR"@.len() == 7);
    assert("DATE"@.len() == 4);
    assert("TIME"@.len() == 4);
    assert("DECIMAL"@.len() == 7);
    assert("BOOLEAN"@[0] != "INTEGER"@[0]);
    assert("BOOLEAN"@[0] != "VARCHAR"@[0]);
    assert("BOOLEAN"@[0] != "DECIMAL"@[0]);
    assert("INTEGER"@[0] != "VARCHAR"@[0]);
    assert("INTEGER"@[0] != "DECIMAL"@[0]);
    assert("BIGINT"@[0] != "DOUBLE"@[0]);
    assert("BLOB"@[0] != "DATE"@[0]);
    assert("BLOB"@[0] != "TIME"@[0]);
    assert("VARCHAR"@[0] != "DECIMAL"@[0]);
    assert("DATE"@[0] != "TIME"@[0]);
}

// ── summary and listing of data comparisons ─────────────────────────────────

/// The schema of a data comparison differs: a column was added or removed,
/// or a column changed type.
pub open spec fn schema_differs(d: DataDiffResult) -> bool {
    d.columns_added@.len() > 0 || d.columns_removed@.len() > 0 || d.type_changes.keys@.len() > 0
}

/// The summary's count of schema changes is the number of data comparisons
/// whose schema differs: those with a column added, a column removed or a
/// type change.
pub proof fn law_schema_changes_count(ds: Seq<DataDiffResult>)
    ensures
        schema_changes(ds) == ds.filter(|d: DataDiffResult| schema_differs(d)).len(),
    decreases ds.len(),
{
    reveal(Seq::filter);
    if ds.len() > 0 {
        law_schema_changes_count(ds.drop_last());
    }
}

/// The Markdown report lists a data comparison exactly when it has an
/// error, a column added or removed, a type change, or a row-count delta;
/// the listed indices are valid and in increasing order.
pub proof fn law_listed_data(ds: Seq<DataDiffResult>, n: int)
    requires
        0 <= n <= ds.len(),
        ds.len() <= usize::MAX,
    ensures
        forall|i: int|
            0 <= i < n ==> (listed_data(ds, n).contains(i as usize) <==> ((#[trigger] ds[i]).error
                is Some || ds[i].columns_added@.len() > 0 || ds[i].columns_removed@.len() > 0
                || ds[i].type_changes.keys@.len() > 0 || ds[i].row_count_a != ds[i].row_count_b)),
        forall|p: int| 0 <= p < listed_data(ds, n).len() ==> (#[trigger] listed_data(ds, n)[p]) < n,
        forall|p: int, q: int|
            0 <= p < q < listed_data(ds, n).len() ==> (#[trigger] listed_data(ds, n)[p]) < (
            #[trigger] listed_data(ds, n)[q]),
    decreases n,
{
    if n > 0 {
        law_listed_data(ds, n - 1);
        let pre = listed_data(ds, n - 1);
        let cur = listed_data(ds, n);
        assert forall|p: int| 0 <= p < cur.len() implies (#[trigger] cur[p]) < n by {
            if p < pre.len() {
                assert(cur[p] == pre[p]);
            }
        }
        assert forall|p: int, q: int| 0 <= p < q < cur.len() implies (#[trigger] cur[p]) < (
        #[trigger] cur[q]) by {
            assert(cur[p] == pre[p]);
            if q < pre.len() {
                assert(cur[q] == pre[q]);
            }
        }
        assert forall|i: int| 0 <= i < n implies (cur.contains(i as usize) <==> ((#[trigger] ds[i]).error
            is Some || ds[i].columns_added@.len() > 0 || ds[i].columns_removed@.len() > 0
            || ds[i].type_changes.keys@.len() > 0 || ds[i].row_count_a != ds[i].row_count_b)) by {
            if i < n - 1 {
                if cur.contains(i as usize) {
                    let p = cur.index_of(i as usize);
                    if p < pre.len() {
                        assert(pre[p] == cur[p]);
                    }
                }
                if pre.contains(i as usize) {
                    let p = pre.index_of(i as usize);
                    assert(cur[p] == pre[p]);
                }
            } else {
                if cur.contains(i as usize) {
                    let p = cur.index_of(i as usize);
                    if p < pre.len() {
                        assert(cur[p] == pre[p]);
                    }
                }
                if cur.len() > pre.len() {
                    assert(cur[pre.len() as int] == (n - 1) as usize);
                }
            }
        }
    }
}

// ── Jaccard index and dispatch ──────────────────────────────────────────────

/// The tree Jaccard index is the number of common files over the number of
/// files in either tree (one for two empty trees): as fractions,
/// `index · (both + only_a + only_b) = both`.
pub proof fn law_jaccard_value(both: nat, only_a: nat, only_b: nat)
    requires
        both + only_a + only_b <= u64::MAX,
    ensures
        jaccard_of(both, only_a, only_b).den > 0,
        jaccard_of(both, only_a, only_b).num <= jaccard_of(both, only_a, only_b).den,
        both + only_a + only_b == 0 ==> jaccard_of(both, only_a, only_b).num == jaccard_of(
            both,
            only_a,
            only_b,
        ).den,
        both + only_a + only_b > 0 ==> (jaccard_of(both, only_a, only_b).num as int) * (both + only_a
            + only_b) == both * (jaccard_of(both, only_a, only_b).den as int),
{
}

/// A file present in both trees is compared as the kind both sides share,
/// and as binary when the sides classify differently.
pub proof fn law_dispatch(a: FileKind, b: FileKind)
    ensures
        dispatch_kind_of(a, a) == a,
        a != b ==> dispatch_kind_of(a, b) == FileKind::Binary,
{
}

// ── classification by suffix ────────────────────────────────────────────────

/// The data suffixes: tables and data frames.
pub open spec fn listed_suffix_data(s: Seq<char>) -> bool {
    ||| s == ".csv"@
    ||| s == ".tsv"@
    ||| s == ".parquet"@
    ||| s == ".jsonl"@
    ||| s == ".ndjson"@
    ||| s == ".feather"@
    ||| s == ".arrow"@
    ||| s == ".xlsx"@
    ||| s == ".xls"@
}

/// The code suffixes: source code, configuration and text.
pub open spec fn listed_suffix_code(s: Seq<char>) -> bool {
    ||| s == ".py"@
    ||| s == ".ipynb"@
    ||| s == ".js"@
    ||| s == ".ts"@
    ||| s == ".tsx"@
    ||| s == ".jsx"@
    ||| s == ".java"@
    ||| s == ".kt"@
    ||| s == ".scala"@
    ||| s == ".c"@
    ||| s == ".h"@
    ||| s == ".cpp"@
    ||| s == ".hpp"@
    ||| s == ".cc"@
    ||| s == ".go"@
    ||| s == ".rs"@
    ||| s == ".rb"@
    ||| s == ".php"@
    ||| s == ".sh"@
    ||| s == ".bash"@
    ||| s == ".zsh"@
    ||| s == ".r"@
    ||| s == ".jl"@
    ||| s == ".sql"@
    ||| s == ".yaml"@
    ||| s == ".yml"@
    ||| s == ".toml"@
    ||| s == ".ini"@
    ||| s == ".cfg"@
    ||| s == ".md"@
    ||| s == ".rst"@
    ||| s == ".txt"@
    ||| s == ".dockerfile"@
    ||| s == ".tf"@
    ||| s == ".html"@
    ||| s == ".css"@
    ||| s == ".scss"@
}

/// The binary suffixes: model weights, arrays, media and archives.
pub open spec fn listed_suffix_binary(s: Seq<char>) -> bool {
    ||| s == ".pkl"@
    ||| s == ".pickle"@
    ||| s == ".joblib"@
    ||| s == ".pt"@
    ||| s == ".pth"@
    ||| s == ".ckpt"@
    ||| s == ".safetensors"@
    ||| s == ".h5"@
    ||| s == ".hdf5"@
    ||| s == ".onnx"@
    ||| s == ".pb"@
    ||| s == ".tflite"@
    ||| s == ".npy"@
    ||| s == ".npz"@
    ||| s == ".png"@
    ||| s == ".jpg"@
    ||| s == ".jpeg"@
    ||| s == ".gif"@
    ||| s == ".bmp"@
    ||| s == ".tiff"@
    ||| s == ".webp"@
    ||| s == ".svg"@
    ||| s == ".mp3"@
    ||| s == ".wav"@
    ||| s == ".flac"@
    ||| s == ".mp4"@
    ||| s == ".mov"@
    ||| s == ".avi"@
    ||| s == ".zip"@
    ||| s == ".tar"@
    ||| s == ".gz"@
    ||| s == ".bz2"@
    ||| s == ".7z"@
    ||| s == ".bin"@
    ||| s == ".dat"@
}

/// Every file with a data suffix (`.csv`, `.tsv`, `.parquet`, `.jsonl`,
/// `.ndjson`, `.feather`, `.arrow`, `.xlsx`, `.xls`) is data, whatever its size
/// and first bytes.
pub proof fn law_data_suffix_is_data(path: Seq<char>, size: u64, head: Option<Seq<u8>>)
    requires
        listed_suffix_data(suffix_of(path)),
    ensures
        kind_of(path, size, head) == FileKind::Data,
        reason_of(path, size, head) == "data"@,
{
    let s = suffix_of(path);
    reveal_strlit(".csv");
    reveal_strlit(".tsv");
    reveal_strlit(".parquet");
    reveal_strlit(".jsonl");
    reveal_strlit(".ndjson");
    reveal_strlit(".feather");
    reveal_strlit(".arrow");
    reveal_strlit(".xlsx");
    reveal_strlit(".xls");
    reveal_strlit(".json");
    reveal_strlit("data");
    assert(".csv"@.len() == 4);
    assert(".tsv"@.len() == 4);
    assert(".parquet"@.len() == 8);
    assert(".jsonl"@.len() == 6);
    assert(".ndjson"@.len() == 7);
    assert(".feather"@.len() == 8);
    assert(".arrow"@.len() == 6);
    assert(".xlsx"@.len() == 5);
    assert(".xls"@.len() == 4);
    assert(".json"@.len() == 5);
    assert(".xlsx"@[1] != ".json"@[1]);
}

/// Every file with a code suffix is code, whatever its size and first bytes.
pub proof fn law_code_suffix_is_code(path: Seq<char>, size: u64, head: Option<Seq<u8>>)
    requires
        listed_suffix_code(suffix_of(path)),
    ensures
        kind_of(path, size, head) == FileKind::Code,
        reason_of(path, size, head) == "code"@,
{
    let s = suffix_of(path);
    reveal_strlit(".py");
    reveal_strlit(".ipynb");
    reveal_strlit(".js");
    reveal_strlit(".ts");
    reveal_strlit(".tsx");
    reveal_strlit(".jsx");
    reveal_strlit(".java");
    reveal_strlit(".kt");
    reveal_strlit(".scala");
    reveal_strlit(".c");
    reveal_strlit(".h");
    reveal_strlit(".cpp");
    reveal_strlit(".hpp");
    reveal_strlit(".cc");
    reveal_strlit(".go");
    reveal_strlit(".rs");
    reveal_strlit(".rb");
    reveal_strlit(".php");
    reveal_strlit(".sh");
    reveal_strlit(".bash");
    reveal_strlit(".zsh");
    reveal_strlit(".r");
    reveal_strlit(".jl");
    reveal_strlit(".sql");
    reveal_strlit(".yaml");
    reveal_strlit(".yml");
    reveal_strlit(".toml");
    reveal_strlit(".ini");
    reveal_strlit(".cfg");
    reveal_strlit(".md");
    reveal_strlit(".rst");
    reveal_strlit(".txt");
    reveal_strlit(".dockerfile");
    reveal_strlit(".tf");
    reveal_strlit(".html");
    reveal_strlit(".css");
    reveal_strlit(".scss");
    reveal_strlit(".csv");
    reveal_strlit(".tsv");
    reveal_strlit(".parquet");
    reveal_strlit(".jsonl");
    reveal_strlit(".ndjson");
    reveal_strlit(".feather");
    reveal_strlit(".arrow");
    reveal_strlit(".xlsx");
    reveal_strlit(".xls");
    reveal_strlit(".json");
    reveal_strlit("code");
    assert(".py"@.len() == 3);
    assert(".ipynb"@.len() == 6);
    assert(".js"@.len() == 3);
    assert(".ts"@.len() == 3);
    assert(".tsx"@.len() == 4);
    assert(".jsx"@.len() == 4);
    assert(".java"@.len() == 5);
    assert(".kt"@.len() == 3);
    assert(".scala"@.len() == 6);
    assert(".c"@.len() == 2);
    assert(".h"@.len() == 2);
    assert(".cpp"@.len() == 4);
    assert(".hpp"@.len() == 4);
    assert(".cc"@.len() == 3);
    assert(".go"@.len() == 3);
    assert(".rs"@.len() == 3);
    assert(".rb"@.len() == 3);
    assert(".php"@.len() == 4);
    assert(".sh"@.len() == 3);
    assert(".bash"@.len() == 5);
    assert(".zsh"@.len() == 4);
    assert(".r"@.len() == 2);
    assert(".jl"@.len() == 3);
    assert(".sql"@.len() == 4);
    assert(".yaml"@.len() == 5);
    assert(".yml"@.len() == 4);
    assert(".toml"@.len() == 5);
    assert(".ini"@.len() == 4);
    assert(".cfg"@.len() == 4);
    assert(".md"@.len() == 3);
    assert(".rst"@.len() == 4);
    assert(".txt"@.len() == 4);
    assert(".dockerfile"@.len() == 11);
    assert(".tf"@.len() == 3);
    assert(".html"@.len() == 5);
    assert(".css"@.len() == 4);
    assert(".scss"@.len() == 5);
    assert(".csv"@.len() == 4);
    assert(".tsv"@.len() == 4);
    assert(".parquet"@.len() == 8);
    assert(".jsonl"@.len() == 6);
    assert(".ndjson"@.len() == 7);
    assert(".feather"@.len() == 8);
    assert(".arrow"@.len() == 6);
    assert(".xlsx"@.len() == 5);
    assert(".xls"@.len() == 4);
    assert(".json"@.len() == 5);
    assert(".ipynb"@[1] != ".jsonl"@[1]);
    assert(".ipynb"@[1] != ".arrow"@[1]);
    assert(".tsx"@[1] != ".csv"@[1]);
    assert(".tsx"@[3] != ".tsv"@[3]);
    assert(".tsx"@[1] != ".xls"@[1]);
    assert(".jsx"@[1] != ".csv"@[1]);
    assert(".jsx"@[1] != ".tsv"@[1]);
    assert(".jsx"@[1] != ".xls"@[1]);
    assert(".java"@[1] != ".xlsx"@[1]);
    assert(".java"@[2] != ".json"@[2]);
    assert(".scala"@[1] != ".jsonl"@[1]);
    assert(".scala"@[1] != ".arrow"@[1]);
    assert(".cpp"@[2] != ".csv"@[2]);
    assert(".cpp"@[1] != ".tsv"@[1]);
    assert(".cpp"@[1] != ".xls"@[1]);
    assert(".hpp"@[1] != ".csv"@[1]);
    assert(".hpp"@[1] != ".tsv"@[1]);
    assert(".hpp"@[1] != ".xls"@[1]);
    assert(".php"@[1] != ".csv"@[1]);
    assert(".php"@[1] != ".tsv"@[1]);
    assert(".php"@[1] != ".xls"@[1]);
    assert(".bash"@[1] != ".xlsx"@[1]);
    assert(".bash"@[1] != ".json"@[1]);
    assert(".zsh"@[1] != ".csv"@[1]);
    assert(".zsh"@[1] != ".tsv"@[1]);
    assert(".zsh"@[1] != ".xls"@[1]);
    assert(".sql"@[1] != ".csv"@[1]);
    assert(".sql"@[1] != ".tsv"@[1]);
    assert(".sql"@[1] != ".xls"@[1]);
    assert(".yaml"@[1] != ".xlsx"@[1]);
    assert(".yaml"@[1] != ".json"@[1]);
    assert(".yml"@[1] != ".csv"@[1]);
    assert(".yml"@[1] != ".tsv"@[1]);
    assert(".yml"@[1] != ".xls"@[1]);
    assert(".toml"@[1] != ".xlsx"@[1]);
    assert(".toml"@[1] != ".json"@[1]);
    assert(".ini"@[1] != ".csv"@[1]);
    assert(".ini"@[1] != ".tsv"@[1]);
    assert(".ini"@[1] != ".xls"@[1]);
    assert(".cfg"@[2] != ".csv"@[2]);
    assert(".cfg"@[1] != ".tsv"@[1]);
    assert(".cfg"@[1] != ".xls"@[1]);
    assert(".rst"@[1] != ".csv"@[1]);
    assert(".rst"@[1] != ".tsv"@[1]);
    assert(".rst"@[1] != ".xls"@[1]);
    assert(".txt"@[1] != ".csv"@[1]);
    assert(".txt"@[2] != ".tsv"@[2]);
    assert(".txt"@[1] != ".xls"@[1]);
    assert(".html"@[1] != ".xlsx"@[1]);
    assert(".html"@[1] != ".json"@[1]);
    assert(".css"@[3] != ".csv"@[3]);
    assert(".css"@[1] != ".tsv"@[1]);
    assert(".css"@[1] != ".xls"@[1]);
    assert(".scss"@[1] != ".xlsx"@[1]);
    assert(".scss"@[1] != ".json"@[1]);
}

/// Every file with a binary suffix is binary, whatever its size and first
/// bytes.
pub proof fn law_binary_suffix_is_binary(path: Seq<char>, size: u64, head: Option<Seq<u8>>)
    requires
        listed_suffix_binary(suffix_of(path)),
    ensures
        kind_of(path, size, head) == FileKind::Binary,
        reason_of(path, size, head) == "binary"@,
{
    let s = suffix_of(path);
    reveal_strlit(".pkl");
    reveal_strlit(".pickle");
    reveal_strlit(".joblib");
    reveal_strlit(".pt");
    reveal_strlit(".pth");
    reveal_strlit(".ckpt");
    reveal_strlit(".safetensors");
    reveal_strlit(".h5");
    reveal_strlit(".hdf5");
    reveal_strlit(".onnx");
    reveal_strlit(".pb");
    reveal_strlit(".tflite");
    reveal_strlit(".npy");
    reveal_strlit(".npz");
    reveal_strlit(".png");
    reveal_strlit(".jpg");
    reveal_strlit(".jpeg");
    reveal_strlit(".gif");
    reveal_strlit(".bmp");
    reveal_strlit(".tiff");
    reveal_strlit(".webp");
    reveal_strlit(".svg");
    reveal_strlit(".mp3");
    reveal_strlit(".wav");
    reveal_strlit(".flac");
    reveal_strlit(".mp4");
    reveal_strlit(".mov");
    reveal_strlit(".avi");
    reveal_strlit(".zip");
    reveal_strlit(".tar");
    reveal_strlit(".gz");
    reveal_strlit(".bz2");
    reveal_strlit(".7z");
    reveal_strlit(".bin");
    reveal_strlit(".dat");
    reveal_strlit(".csv");
    reveal_strlit(".tsv");
    reveal_strlit(".parquet");
    reveal_strlit(".jsonl");
    reveal_strlit(".ndjson");
    reveal_strlit(".feather");
    reveal_strlit(".arrow");
    reveal_strlit(".xlsx");
    reveal_strlit(".xls");
    reveal_strlit(".py");
    reveal_strlit(".ipynb");
    reveal_strlit(".js");
    reveal_strlit(".ts");
    reveal_strlit(".tsx");
    reveal_strlit(".jsx");
    reveal_strlit(".java");
    reveal_strlit(".kt");
    reveal_strlit(".scala");
    reveal_strlit(".c");
    reveal_strlit(".h");
    reveal_strlit(".cpp");
    reveal_strlit(".hpp");
    reveal_strlit(".cc");
    reveal_strlit(".go");
    reveal_strlit(".rs");
    reveal_strlit(".rb");
    reveal_strlit(".php");
    reveal_strlit(".sh");
    reveal_strlit(".bash");
    reveal_strlit(".zsh");
    reveal_strlit(".r");
    reveal_strlit(".jl");
    reveal_strlit(".sql");
    reveal_strlit(".yaml");
    reveal_strlit(".yml");
    reveal_strlit(".toml");
    reveal_strlit(".ini");
    reveal_strlit(".cfg");
    reveal_strlit(".md");
    reveal_strlit(".rst");
    reveal_strlit(".txt");
    reveal_strlit(".dockerfile");
    reveal_strlit(".tf");
    reveal_strlit(".html");
    reveal_strlit(".css");
    reveal_strlit(".scss");
    reveal_strlit(".json");
    reveal_strlit("binary");
    assert(".pkl"@.len() == 4);
    assert(".pickle"@.len() == 7);
    assert(".joblib"@.len() == 7);
    assert(".pt"@.len() == 3);
    assert(".pth"@.len() == 4);
    assert(".ckpt"@.len() == 5);
    assert(".safetensors"@.len() == 12);
    assert(".h5"@.len() == 3);
    assert(".hdf5"@.len() == 5);
    assert(".onnx"@.len() == 5);
    assert(".pb"@.len() == 3);
    assert(".tflite"@.len() == 7);
    assert(".npy"@.len() == 4);
    assert(".npz"@.len() == 4);
    assert(".png"@.len() == 4);
    assert(".jpg"@.len() == 4);
    assert(".jpeg"@.len() == 5);
    assert(".gif"@.len() == 4);
    assert(".bmp"@.len() == 4);
    assert(".tiff"@.len() == 5);
    assert(".webp"@.len() == 5);
    assert(".svg"@.len() == 4);
    assert(".mp3"@.len() == 4);
    assert(".wav"@.len() == 4);
    assert(".flac"@.len() == 5);
    assert(".mp4"@.len() == 4);
    assert(".mov"@.len() == 4);
    assert(".avi"@.len() == 4);
    assert(".zip"@.len() == 4);
    assert(".tar"@.len() == 4);
    assert(".gz"@.len() == 3);
    assert(".bz2"@.len() == 4);
    assert(".7z"@.len() == 3);
    assert(".bin"@.len() == 4);
    assert(".dat"@.len() == 4);
    assert(".py"@.len() == 3);
    assert(".ipynb"@.len() == 6);
    assert(".js"@.len() == 3);
    assert(".ts"@.len() == 3);
    assert(".tsx"@.len() == 4);
    assert(".jsx"@.len() == 4);
    assert(".java"@.len() == 5);
    assert(".kt"@.len() == 3);
    assert(".scala"@.len() == 6);
    assert(".c"@.len() == 2);
    assert(".h"@.len() == 2);
    assert(".cpp"@.len() == 4);
    assert(".hpp"@.len() == 4);
    assert(".cc"@.len() == 3);
    assert(".go"@.len() == 3);
    assert(".rs"@.len() == 3);
    assert(".rb"@.len() == 3);
    assert(".php"@.len() == 4);
    assert(".sh"@.len() == 3);
    assert(".bash"@.len() == 5);
    assert(".zsh"@.len() == 4);
    assert(".r"@.len() == 2);
    assert(".jl"@.len() == 3);
    assert(".sql"@.len() == 4);
    assert(".yaml"@.len() == 5);
    assert(".yml"@.len() == 4);
    assert(".toml"@.len() == 5);
    assert(".ini"@.len() == 4);
    assert(".cfg"@.len() == 4);
    assert(".md"@.len() == 3);
    assert(".rst"@.len() == 4);
    assert(".txt"@.len() == 4);
    assert(".dockerfile"@.len() == 11);
    assert(".tf"@.len() == 3);
    assert(".html"@.len() == 5);
    assert(".css"@.len() == 4);
    assert(".scss"@.len() == 5);
    assert(".csv"@.len() == 4);
    assert(".tsv"@.len() == 4);
    assert(".parquet"@.len() == 8);
    assert(".jsonl"@.len() == 6);
    assert(".ndjson"@.len() == 7);
    assert(".feather"@.len() == 8);
    assert(".arrow"@.len() == 6);
    assert(".xlsx"@.len() == 5);
    assert(".xls"@.len() == 4);
    assert(".json"@.len() == 5);
    assert(".pkl"@[1] != ".csv"@[1]);
    assert(".pkl"@[1] != ".tsv"@[1]);
    assert(".pkl"@[1] != ".xls"@[1]);
    assert(".pkl"@[1] != ".tsx"@[1]);
    assert(".pkl"@[1] != ".jsx"@[1]);
    assert(".pkl"@[1] != ".cpp"@[1]);
    assert(".pkl"@[1] != ".hpp"@[1]);
    assert(".pkl"@[2] != ".php"@[2]);
    assert(".pkl"@[1] != ".zsh"@[1]);
    assert(".pkl"@[1] != ".sql"@[1]);
    assert(".pkl"@[1] != ".yml"@[1]);
    assert(".pkl"@[1] != ".ini"@[1]);
    assert(".pkl"@[1] != ".cfg"@[1]);
    assert(".pkl"@[1] != ".rst"@[1]);
    assert(".pkl"@[1] != ".txt"@[1]);
    assert(".pkl"@[1] != ".css"@[1]);
    assert(".pickle"@[1] != ".ndjson"@[1]);
    assert(".joblib"@[1] != ".ndjson"@[1]);
    assert(".pt"@[2] != ".py"@[2]);
    assert(".pt"@[1] != ".js"@[1]);
    assert(".pt"@[1] != ".ts"@[1]);
    assert(".pt"@[1] != ".kt"@[1]);
    assert(".pt"@[1] != ".cc"@[1]);
    assert(".pt"@[1] != ".go"@[1]);
    assert(".pt"@[1] != ".rs"@[1]);
    assert(".pt"@[1] != ".rb"@[1]);
    assert(".pt"@[1] != ".sh"@[1]);
    assert(".pt"@[1] != ".jl"@[1]);
    assert(".pt"@[1] != ".md"@[1]);
    assert(".pt"@[1] != ".tf"@[1]);
    assert(".pth"@[1] != ".csv"@[1]);
    assert(".pth"@[1] != ".tsv"@[1]);
    assert(".pth"@[1] != ".xls"@[1]);
    assert(".pth"@[1] != ".tsx"@[1]);
    assert(".pth"@[1] != ".jsx"@[1]);
    assert(".pth"@[1] != ".cpp"@[1]);
    assert(".pth"@[1] != ".hpp"@[1]);
    assert(".pth"@[2] != ".php"@[2]);
    assert(".pth"@[1] != ".zsh"@[1]);
    assert(".pth"@[1] != ".sql"@[1]);
    assert(".pth"@[1] != ".yml"@[1]);
    assert(".pth"@[1] != ".ini"@[1]);
    assert(".pth"@[1] != ".cfg"@[1]);
    assert(".pth"@[1] != ".rst"@[1]);
    assert(".pth"@[1] != ".txt"@[1]);
    assert(".pth"@[1] != ".css"@[1]);
    assert(".ckpt"@[1] != ".xlsx"@[1]);
    assert(".ckpt"@[1] != ".java"@[1]);
    assert(".ckpt"@[1] != ".bash"@[1]);
    assert(".ckpt"@[1] != ".yaml"@[1]);
    assert(".ckpt"@[1] != ".toml"@[1]);
    assert(".ckpt"@[1] != ".html"@[1]);
    assert(".ckpt"@[1] != ".scss"@[1]);
    assert(".ckpt"@[1] != ".json"@[1]);
    assert(".h5"@[1] != ".py"@[1]);
    assert(".h5"@[1] != ".js"@[1]);
    assert(".h5"@[1] != ".ts"@[1]);
    assert(".h5"@[1] != ".kt"@[1]);
    assert(".h5"@[1] != ".cc"@[1]);
    assert(".h5"@[1] != ".go"@[1]);
    assert(".h5"@[1] != ".rs"@[1]);
    assert(".h5"@[1] != ".rb"@[1]);
    assert(".h5"@[1] != ".sh"@[1]);
    assert(".h5"@[1] != ".jl"@[1]);
    assert(".h5"@[1] != ".md"@[1]);
    assert(".h5"@[1] != ".tf"@[1]);
    assert(".hdf5"@[1] != ".xlsx"@[1]);
    assert(".hdf5"@[1] != ".java"@[1]);
    assert(".hdf5"@[1] != ".bash"@[1]);
    assert(".hdf5"@[1] != ".yaml"@[1]);
    assert(".hdf5"@[1] != ".toml"@[1]);
    assert(".hdf5"@[2] != ".html"@[2]);
    assert(".hdf5"@[1] != ".scss"@[1]);
    assert(".hdf5"@[1] != ".json"@[1]);
    assert(".onnx"@[1] != ".xlsx"@[1]);
    assert(".onnx"@[1] != ".java"@[1]);
    assert(".onnx"@[1] != ".bash"@[1]);
    assert(".onnx"@[1] != ".yaml"@[1]);
    assert(".onnx"@[1] != ".toml"@[1]);
    assert(".onnx"@[1] != ".html"@[1]);
    assert(".onnx"@[1] != ".scss"@[1]);
    assert(".onnx"@[1] != ".json"@[1]);
    assert(".pb"@[2] != ".py"@[2]);
    assert(".pb"@[1] != ".js"@[1]);
    assert(".pb"@[1] != ".ts"@[1]);
    assert(".pb"@[1] != ".kt"@[1]);
    assert(".pb"@[1] != ".cc"@[1]);
    assert(".pb"@[1] != ".go"@[1]);
    assert(".pb"@[1] != ".rs"@[1]);
    assert(".pb"@[1] != ".rb"@[1]);
    assert(".pb"@[1] != ".sh"@[1]);
    assert(".pb"@[1] != ".jl"@[1]);
    assert(".pb"@[1] != ".md"@[1]);
    assert(".pb"@[1] != ".tf"@[1]);
    assert(".tflite"@[1] != ".ndjson"@[1]);
    assert(".npy"@[1] != ".csv"@[1]);
    assert(".npy"@[1] != ".tsv"@[1]);
    assert(".npy"@[1] != ".xls"@[1]);
    assert(".npy"@[1] != ".tsx"@[1]);
    assert(".npy"@[1] != ".jsx"@[1]);
    assert(".npy"@[1] != ".cpp"@[1]);
    assert(".npy"@[1] != ".hpp"@[1]);
    assert(".npy"@[1] != ".php"@[1]);
    assert(".npy"@[1] != ".zsh"@[1]);
    assert(".npy"@[1] != ".sql"@[1]);
    assert(".npy"@[1] != ".yml"@[1]);
    assert(".npy"@[1] != ".ini"@[1]);
    assert(".npy"@[1] != ".cfg"@[1]);
    assert(".npy"@[1] != ".rst"@[1]);
    assert(".npy"@[1] != ".txt"@[1]);
    assert(".npy"@[1] != ".css"@[1]);
    assert(".npz"@[1] != ".csv"@[1]);
    assert(".npz"@[1] != ".tsv"@[1]);
    assert(".npz"@[1] != ".xls"@[1]);
    assert(".npz"@[1] != ".tsx"@[1]);
    assert(".npz"@[1] != ".jsx"@[1]);
    assert(".npz"@[1] != ".cpp"@[1]);
    assert(".npz"@[1] != ".hpp"@[1]);
    assert(".npz"@[1] != ".php"@[1]);
    assert(".npz"@[1] != ".zsh"@[1]);
    assert(".npz"@[1] != ".sql"@[1]);
    assert(".npz"@[1] != ".yml"@[1]);
    assert(".npz"@[1] != ".ini"@[1]);
    assert(".npz"@[1] != ".cfg"@[1]);
    assert(".npz"@[1] != ".rst"@[1]);
    assert(".npz"@[1] != ".txt"@[1]);
    assert(".npz"@[1] != ".css"@[1]);
    assert(".png"@[1] != ".csv"@[1]);
    assert(".png"@[1] != ".tsv"@[1]);
    assert(".png"@[1] != ".xls"@[1]);
    assert(".png"@[1] != ".tsx"@[1]);
    assert(".png"@[1] != ".jsx"@[1]);
    assert(".png"@[1] != ".cpp"@[1]);
    assert(".png"@[1] != ".hpp"@[1]);
    assert(".png"@[2] != ".php"@[2]);
    assert(".png"@[1] != ".zsh"@[1]);
    assert(".png"@[1] != ".sql"@[1]);
    assert(".png"@[1] != ".yml"@[1]);
    assert(".png"@[1] != ".ini"@[1]);
    assert(".png"@[1] != ".cfg"@[1]);
    assert(".png"@[1] != ".rst"@[1]);
    assert(".png"@[1] != ".txt"@[1]);
    assert(".png"@[1] != ".css"@[1]);
    assert(".jpg"@[1] != ".csv"@[1]);
    assert(".jpg"@[1] != ".tsv"@[1]);
    assert(".jpg"@[1] != ".xls"@[1]);
    assert(".jpg"@[1] != ".tsx"@[1]);
    assert(".jpg"@[2] != ".jsx"@[2]);
    assert(".jpg"@[1] != ".cpp"@[1]);
    assert(".jpg"@[1] != ".hpp"@[1]);
    assert(".jpg"@[1] != ".php"@[1]);
    assert(".jpg"@[1] != ".zsh"@[1]);
    assert(".jpg"@[1] != ".sql"@[1]);
    assert(".jpg"@[1] != ".yml"@[1]);
    assert(".jpg"@[1] != ".ini"@[1]);
    assert(".jpg"@[1] != ".cfg"@[1]);
    assert(".jpg"@[1] != ".rst"@[1]);
    assert(".jpg"@[1] != ".txt"@[1]);
    assert(".jpg"@[1] != ".css"@[1]);
    assert(".jpeg"@[1] != ".xlsx"@[1]);
    assert(".jpeg"@[2] != ".java"@[2]);
    assert(".jpeg"@[1] != ".bash"@[1]);
    assert(".jpeg"@[1] != ".yaml"@[1]);
    assert(".jpeg"@[1] != ".toml"@[1]);
    assert(".jpeg"@[1] != ".html"@[1]);
    assert(".jpeg"@[1] != ".scss"@[1]);
    assert(".jpeg"@[2] != ".json"@[2]);
    assert(".gif"@[1] != ".csv"@[1]);
    assert(".gif"@[1] != ".tsv"@[1]);
    assert(".gif"@[1] != ".xls"@[1]);
    assert(".gif"@[1] != ".tsx"@[1]);
    assert(".gif"@[1] != ".jsx"@[1]);
    assert(".gif"@[1] != ".cpp"@[1]);
    assert(".gif"@[1] != ".hpp"@[1]);
    assert(".gif"@[1] != ".php"@[1]);
    assert(".gif"@[1] != ".zsh"@[1]);
    assert(".gif"@[1] != ".sql"@[1]);
    assert(".gif"@[1] != ".yml"@[1]);
    assert(".gif"@[1] != ".ini"@[1]);
    assert(".gif"@[1] != ".cfg"@[1]);
    assert(".gif"@[1] != ".rst"@[1]);
    assert(".gif"@[1] != ".txt"@[1]);
    assert(".gif"@[1] != ".css"@[1]);
    assert(".bmp"@[1] != ".csv"@[1]);
    assert(".bmp"@[1] != ".tsv"@[1]);
    assert(".bmp"@[1] != ".xls"@[1]);
    assert(".bmp"@[1] != ".tsx"@[1]);
    assert(".bmp"@[1] != ".jsx"@[1]);
    assert(".bmp"@[1] != ".cpp"@[1]);
    assert(".bmp"@[1] != ".hpp"@[1]);
    assert(".bmp"@[1] != ".php"@[1]);
    assert(".bmp"@[1] != ".zsh"@[1]);
    assert(".bmp"@[1] != ".sql"@[1]);
    assert(".bmp"@[1] != ".yml"@[1]);
    assert(".bmp"@[1] != ".ini"@[1]);
    assert(".bmp"@[1] != ".cfg"@[1]);
    assert(".bmp"@[1] != ".rst"@[1]);
    assert(".bmp"@[1] != ".txt"@[1]);
    assert(".bmp"@[1] != ".css"@[1]);
    assert(".tiff"@[1] != ".xlsx"@[1]);
    assert(".tiff"@[1] != ".java"@[1]);
    assert(".tiff"@[1] != ".bash"@[1]);
    assert(".tiff"@[1] != ".yaml"@[1]);
    assert(".tiff"@[2] != ".toml"@[2]);
    assert(".tiff"@[1] != ".html"@[1]);
    assert(".tiff"@[1] != ".scss"@[1]);
    assert(".tiff"@[1] != ".json"@[1]);
    assert(".webp"@[1] != ".xlsx"@[1]);
    assert(".webp"@[1] != ".java"@[1]);
    assert(".webp"@[1] != ".bash"@[1]);
    assert(".webp"@[1] != ".yaml"@[1]);
    assert(".webp"@[1] != ".toml"@[1]);
    assert(".webp"@[1] != ".html"@[1]);
    assert(".webp"@[1] != ".scss"@[1]);
    assert(".webp"@[1] != ".json"@[1]);
    assert(".svg"@[1] != ".csv"@[1]);
    assert(".svg"@[1] != ".tsv"@[1]);
    assert(".svg"@[1] != ".xls"@[1]);
    assert(".svg"@[1] != ".tsx"@[1]);
    assert(".svg"@[1] != ".jsx"@[1]);
    assert(".svg"@[1] != ".cpp"@[1]);
    assert(".svg"@[1] != ".hpp"@[1]);
    assert(".svg"@[1] != ".php"@[1]);
    assert(".svg"@[1] != ".zsh"@[1]);
    assert(".svg"@[2] != ".sql"@[2]);
    assert(".svg"@[1] != ".yml"@[1]);
    assert(".svg"@[1] != ".ini"@[1]);
    assert(".svg"@[1] != ".cfg"@[1]);
    assert(".svg"@[1] != ".rst"@[1]);
    assert(".svg"@[1] != ".txt"@[1]);
    assert(".svg"@[1] != ".css"@[1]);
    assert(".mp3"@[1] != ".csv"@[1]);
    assert(".mp3"@[1] != ".tsv"@[1]);
    assert(".mp3"@[1] != ".xls"@[1]);
    assert(".mp3"@[1] != ".tsx"@[1]);
    assert(".mp3"@[1] != ".jsx"@[1]);
    assert(".mp3"@[1] != ".cpp"@[1]);
    assert(".mp3"@[1] != ".hpp"@[1]);
    assert(".mp3"@[1] != ".php"@[1]);
    assert(".mp3"@[1] != ".zsh"@[1]);
    assert(".mp3"@[1] != ".sql"@[1]);
    assert(".mp3"@[1] != ".yml"@[1]);
    assert(".mp3"@[1] != ".ini"@[1]);
    assert(".mp3"@[1] != ".cfg"@[1]);
    assert(".mp3"@[1] != ".rst"@[1]);
    assert(".mp3"@[1] != ".txt"@[1]);
    assert(".mp3"@[1] != ".css"@[1]);
    assert(".wav"@[1] != ".csv"@[1]);
    assert(".wav"@[1] != ".tsv"@[1]);
    assert(".wav"@[1] != ".xls"@[1]);
    assert(".wav"@[1] != ".tsx"@[1]);
    assert(".wav"@[1] != ".jsx"@[1]);
    assert(".wav"@[1] != ".cpp"@[1]);
    assert(".wav"@[1] != ".hpp"@[1]);
    assert(".wav"@[1] != ".php"@[1]);
    assert(".wav"@[1] != ".zsh"@[1]);
    assert(".wav"@[1] != ".sql"@[1]);
    assert(".wav"@[1] != ".yml"@[1]);
    assert(".wav"@[1] != ".ini"@[1]);
    assert(".wav"@[1] != ".cfg"@[1]);
    assert(".wav"@[1] != ".rst"@[1]);
    assert(".wav"@[1] != ".txt"@[1]);
    assert(".wav"@[1] != ".css"@[1]);
    assert(".flac"@[1] != ".xlsx"@[1]);
    assert(".flac"@[1] != ".java"@[1]);
    assert(".flac"@[1] != ".bash"@[1]);
    assert(".flac"@[1] != ".yaml"@[1]);
    assert(".flac"@[1] != ".toml"@[1]);
    assert(".flac"@[1] != ".html"@[1]);
    assert(".flac"@[1] != ".scss"@[1]);
    assert(".flac"@[1] != ".json"@[1]);
    assert(".mp4"@[1] != ".csv"@[1]);
    assert(".mp4"@[1] != ".tsv"@[1]);
    assert(".mp4"@[1] != ".xls"@[1]);
    assert(".mp4"@[1] != ".tsx"@[1]);
    assert(".mp4"@[1] != ".jsx"@[1]);
    assert(".mp4"@[1] != ".cpp"@[1]);
    assert(".mp4"@[1] != ".hpp"@[1]);
    assert(".mp4"@[1] != ".php"@[1]);
    assert(".mp4"@[1] != ".zsh"@[1]);
    assert(".mp4"@[1] != ".sql"@[1]);
    assert(".mp4"@[1] != ".yml"@[1]);
    assert(".mp4"@[1] != ".ini"@[1]);
    assert(".mp4"@[1] != ".cfg"@[1]);
    assert(".mp4"@[1] != ".rst"@[1]);
    assert(".mp4"@[1] != ".txt"@[1]);
    assert(".mp4"@[1] != ".css"@[1]);
    assert(".mov"@[1] != ".csv"@[1]);
    assert(".mov"@[1] != ".tsv"@[1]);
    assert(".mov"@[1] != ".xls"@[1]);
    assert(".mov"@[1] != ".tsx"@[1]);
    assert(".mov"@[1] != ".jsx"@[1]);
    assert(".mov"@[1] != ".cpp"@[1]);
    assert(".mov"@[1] != ".hpp"@[1]);
    assert(".mov"@[1] != ".php"@[1]);
    assert(".mov"@[1] != ".zsh"@[1]);
    assert(".mov"@[1] != ".sql"@[1]);
    assert(".mov"@[1] != ".yml"@[1]);
    assert(".mov"@[1] != ".ini"@[1]);
    assert(".mov"@[1] != ".cfg"@[1]);
    assert(".mov"@[1] != ".rst"@[1]);
    assert(".mov"@[1] != ".txt"@[1]);
    assert(".mov"@[1] != ".css"@[1]);
    assert(".avi"@[1] != ".csv"@[1]);
    assert(".avi"@[1] != ".tsv"@[1]);
    assert(".avi"@[1] != ".xls"@[1]);
    assert(".avi"@[1] != ".tsx"@[1]);
    assert(".avi"@[1] != ".jsx"@[1]);
    assert(".avi"@[1] != ".cpp"@[1]);
    assert(".avi"@[1] != ".hpp"@[1]);
    assert(".avi"@[1] != ".php"@[1]);
    assert(".avi"@[1] != ".zsh"@[1]);
    assert(".avi"@[1] != ".sql"@[1]);
    assert(".avi"@[1] != ".yml"@[1]);
    assert(".avi"@[1] != ".ini"@[1]);
    assert(".avi"@[1] != ".cfg"@[1]);
    assert(".avi"@[1] != ".rst"@[1]);
    assert(".avi"@[1] != ".txt"@[1]);
    assert(".avi"@[1] != ".css"@[1]);
    assert(".zip"@[1] != ".csv"@[1]);
    assert(".zip"@[1] != ".tsv"@[1]);
    assert(".zip"@[1] != ".xls"@[1]);
    assert(".zip"@[1] != ".tsx"@[1]);
    assert(".zip"@[1] != ".jsx"@[1]);
    assert(".zip"@[1] != ".cpp"@[1]);
    assert(".zip"@[1] != ".hpp"@[1]);
    assert(".zip"@[1] != ".php"@[1]);
    assert(".zip"@[2] != ".zsh"@[2]);
    assert(".zip"@[1] != ".sql"@[1]);
    assert(".zip"@[1] != ".yml"@[1]);
    assert(".zip"@[1] != ".ini"@[1]);
    assert(".zip"@[1] != ".cfg"@[1]);
    assert(".zip"@[1] != ".rst"@[1]);
    assert(".zip"@[1] != ".txt"@[1]);
    assert(".zip"@[1] != ".css"@[1]);
    assert(".tar"@[1] != ".csv"@[1]);
    assert(".tar"@[2] != ".tsv"@[2]);
    assert(".tar"@[1] != ".xls"@[1]);
    assert(".tar"@[2] != ".tsx"@[2]);
    assert(".tar"@[1] != ".jsx"@[1]);
    assert(".tar"@[1] != ".cpp"@[1]);
    assert(".tar"@[1] != ".hpp"@[1]);
    assert(".tar"@[1] != ".php"@[1]);
    assert(".tar"@[1] != ".zsh"@[1]);
    assert(".tar"@[1] != ".sql"@[1]);
    assert(".tar"@[1] != ".yml"@[1]);
    assert(".tar"@[1] != ".ini"@[1]);
    assert(".tar"@[1] != ".cfg"@[1]);
    assert(".tar"@[1] != ".rst"@[1]);
    assert(".tar"@[2] != ".txt"@[2]);
    assert(".tar"@[1] != ".css"@[1]);
    assert(".gz"@[1] != ".py"@[1]);
    assert(".gz"@[1] != ".js"@[1]);
    assert(".gz"@[1] != ".ts"@[1]);
    assert(".gz"@[1] != ".kt"@[1]);
    assert(".gz"@[1] != ".cc"@[1]);
    assert(".gz"@[2] != ".go"@[2]);
    assert(".gz"@[1] != ".rs"@[1]);
    assert(".gz"@[1] != ".rb"@[1]);
    assert(".gz"@[1] != ".sh"@[1]);
    assert(".gz"@[1] != ".jl"@[1]);
    assert(".gz"@[1] != ".md"@[1]);
    assert(".gz"@[1] != ".tf"@[1]);
    assert(".bz2"@[1] != ".csv"@[1]);
    assert(".bz2"@[1] != ".tsv"@[1]);
    assert(".bz2"@[1] != ".xls"@[1]);
    assert(".bz2"@[1] != ".tsx"@[1]);
    assert(".bz2"@[1] != ".jsx"@[1]);
    assert(".bz2"@[1] != ".cpp"@[1]);
    assert(".bz2"@[1] != ".hpp"@[1]);
    assert(".bz2"@[1] != ".php"@[1]);
    assert(".bz2"@[1] != ".zsh"@[1]);
    assert(".bz2"@[1] != ".sql"@[1]);
    assert(".bz2"@[1] != ".yml"@[1]);
    assert(".bz2"@[1] != ".ini"@[1]);
    assert(".bz2"@[1] != ".cfg"@[1]);
    assert(".bz2"@[1] != ".rst"@[1]);
    assert(".bz2"@[1] != ".txt"@[1]);
    assert(".bz2"@[1] != ".css"@[1]);
    assert(".7z"@[1] != ".py"@[1]);
    assert(".7z"@[1] != ".js"@[1]);
    assert(".7z"@[1] != ".ts"@[1]);
    assert(".7z"@[1] != ".kt"@[1]);
    assert(".7z"@[1] != ".cc"@[1]);
    assert(".7z"@[1] != ".go"@[1]);
    assert(".7z"@[1] != ".rs"@[1]);
    assert(".7z"@[1] != ".rb"@[1]);
    assert(".7z"@[1] != ".sh"@[1]);
    assert(".7z"@[1] != ".jl"@[1]);
    assert(".7z"@[1] != ".md"@[1]);
    assert(".7z"@[1] != ".tf"@[1]);
    assert(".bin"@[1] != ".csv"@[1]);
    assert(".bin"@[1] != ".tsv"@[1]);
    assert(".bin"@[1] != ".xls"@[1]);
    assert(".bin"@[1] != ".tsx"@[1]);
    assert(".bin"@[1] != ".jsx"@[1]);
    assert(".bin"@[1] != ".cpp"@[1]);
    assert(".bin"@[1] != ".hpp"@[1]);
    assert(".bin"@[1] != ".php"@[1]);
    assert(".bin"@[1] != ".zsh"@[1]);
    assert(".bin"@[1] != ".sql"@[1]);
    assert(".bin"@[1] != ".yml"@[1]);
    assert(".bin"@[1] != ".ini"@[1]);
    assert(".bin"@[1] != ".cfg"@[1]);
    assert(".bin"@[1] != ".rst"@[1]);
    assert(".bin"@[1] != ".txt"@[1]);
    assert(".bin"@[1] != ".css"@[1]);
    assert(".dat"@[1] != ".csv"@[1]);
    assert(".dat"@[1] != ".tsv"@[1]);
    assert(".dat"@[1] != ".xls"@[1]);
    assert(".dat"@[1] != ".tsx"@[1]);
    assert(".dat"@[1] != ".jsx"@[1]);
    assert(".dat"@[1] != ".cpp"@[1]);
    assert(".dat"@[1] != ".hpp"@[1]);
    assert(".dat"@[1] != ".php"@[1]);
    assert(".dat"@[1] != ".zsh"@[1]);
    assert(".dat"@[1] != ".sql"@[1]);
    assert(".dat"@[1] != ".yml"@[1]);
    assert(".dat"@[1] != ".ini"@[1]);
    assert(".dat"@[1] != ".cfg"@[1]);
    assert(".dat"@[1] != ".rst"@[1]);
    assert(".dat"@[1] != ".txt"@[1]);
    assert(".dat"@[1] != ".css"@[1]);
}

/// A file whose suffix is in none of the lists (and is not `.json`) is
/// sniffed: unreadable, holding a NUL byte in its first bytes or not UTF-8
/// there means binary; otherwise code.
pub proof fn law_unknown_suffix_is_sniffed(path: Seq<char>, size: u64, head: Option<Seq<u8>>)
    requires
        suffix_of(path) != ".json"@,
        !listed_suffix_data(suffix_of(path)),
        !listed_suffix_code(suffix_of(path)),
        !listed_suffix_binary(suffix_of(path)),
    ensures
        kind_of(path, size, head) == match head {
            None => FileKind::Binary,
            Some(h) => if h.contains(0u8) || !vstd::utf8::valid_utf8(h) {
                FileKind::Binary
            } else {
                FileKind::Code
            },
        },
{
}

/// A `.json` file is data from 256 KiB on and code (configuration) below.
pub proof fn law_json_by_size(path: Seq<char>, size: u64, head: Option<Seq<u8>>)
    requires
        suffix_of(path) == ".json"@,
    ensures
        kind_of(path, size, head) == (if size >= 262144 {
            FileKind::Data
        } else {
            FileKind::Code
        }),
{
}

} // verus!
