//! What the Markdown report lists and in which order: the most changed code
//! files, the data files with an error or a change, the changed binary
//! files and the rename candidates. The text itself, which prints the
//! floating-point scores, is written outside the library.
use vstd::prelude::*;
use crate::code_diff::{BinaryDiffResult, CodeDiffResult};
use crate::crawler::{schema_changed_of, CrawlReport};
use crate::data_diff::DataDiffResult;
use crate::ratio::{lemma_le_trans, Ratio};
use crate::laws::law_listed_data;

verus! {

/// How many entries of each long list the report shows.
pub open spec fn max_examples() -> nat {
    25
}

/// At most the first `n` elements of `s`.
pub open spec fn first_n<A>(s: Seq<A>, n: nat) -> Seq<A> {
    if s.len() <= n {
        s
    } else {
        s.take(n as int)
    }
}

/// The indices below `n` of the code comparisons that found a change, in
/// order.
pub open spec fn changed_code(ds: Seq<CodeDiffResult>, n: int) -> Seq<usize>
    decreases n,
{
    if n <= 0 {
        seq![]
    } else {
        let p = changed_code(ds, n - 1);
        if !ds[n - 1].identical {
            p.push((n - 1) as usize)
        } else {
            p
        }
    }
}

/// Where comparison `i` goes among the indices `s`, sorted by increasing
/// similarity: after every leading entry of at most its similarity.
pub open spec fn asc_pos(ds: Seq<CodeDiffResult>, s: Seq<usize>, i: usize) -> nat
    decreases s.len(),
{
    if s.len() == 0 {
        0
    } else if ds[s[0] as int].similarity.le(ds[i as int].similarity) {
        1 + asc_pos(ds, s.drop_first(), i)
    } else {
        0
    }
}

/// The stable sort of the indices `idx` by increasing similarity.
pub open spec fn by_similarity(ds: Seq<CodeDiffResult>, idx: Seq<usize>) -> Seq<usize>
    decreases idx.len(),
{
    if idx.len() == 0 {
        seq![]
    } else {
        let s = by_similarity(ds, idx.drop_last());
        let k = asc_pos(ds, s, idx.last()) as int;
        s.take(k) + seq![idx.last()] + s.skip(k)
    }
}

/// The code comparisons the report lists: the changed ones, lowest
/// similarity first (earlier first among equal similarities), at most 25.
pub open spec fn most_changed_code(ds: Seq<CodeDiffResult>) -> Seq<usize> {
    first_n(by_similarity(ds, changed_code(ds, ds.len() as int)), max_examples())
}

/// A data comparison the report lists: one with an error, a changed schema
/// or a row delta.
pub open spec fn data_listed(d: DataDiffResult) -> bool {
    d.error is Some || schema_changed_of(d) || d.row_count_a != d.row_count_b
}

/// The indices below `n` of the data comparisons the report lists, in order.
pub open spec fn listed_data(ds: Seq<DataDiffResult>, n: int) -> Seq<usize>
    decreases n,
{
    if n <= 0 {
        seq![]
    } else {
        let p = listed_data(ds, n - 1);
        if data_listed(ds[n - 1]) {
            p.push((n - 1) as usize)
        } else {
            p
        }
    }
}

/// The indices below `n` of the binary comparisons that found a difference,
/// in order.
pub open spec fn changed_binary(ds: Seq<BinaryDiffResult>, n: int) -> Seq<usize>
    decreases n,
{
    if n <= 0 {
        seq![]
    } else {
        let p = changed_binary(ds, n - 1);
        if !ds[n - 1].identical {
            p.push((n - 1) as usize)
        } else {
            p
        }
    }
}

/// What the Markdown report lists, as indices into the report's lists.
pub struct MarkdownPlan {
    /// Most changed code comparisons, lowest similarity first.
    pub code: Vec<usize>,
    /// Data comparisons with an error or a change.
    pub data: Vec<usize>,
    /// Changed binary comparisons.
    pub binary: Vec<usize>,
    /// How many rename candidates, from the first, are listed.
    pub renames: usize,
}

/// Where comparison `i` goes among the sorted indices `s`.
fn asc_position(ds: &Vec<CodeDiffResult>, s: &Vec<usize>, i: usize) -> (k: usize)
    requires
        i < ds@.len(),
        forall|p: int| 0 <= p < s@.len() ==> (#[trigger] s@[p]) < ds@.len(),
    ensures
        k <= s@.len(),
        k == asc_pos(ds@, s@, i),
{
    let mut k: usize = 0;
    assert(s@.skip(0) =~= s@);
    while k < s.len() && ds[s[k]].similarity.less_eq(&ds[i].similarity)
        invariant
            i < ds@.len(),
            forall|p: int| 0 <= p < s@.len() ==> (#[trigger] s@[p]) < ds@.len(),
            k <= s@.len(),
            asc_pos(ds@, s@, i) == k + asc_pos(ds@, s@.skip(k as int), i),
        decreases s@.len() - k,
    {
        assert(s@.skip(k as int).drop_first() =~= s@.skip(k + 1));
        assert(s@.skip(k as int)[0] == s@[k as int]);
        k += 1;
    }
    if k < s.len() {
        assert(s@.skip(k as int)[0] == s@[k as int]);
    } else {
        assert(s@.skip(k as int) =~= Seq::<usize>::empty());
    }
    k
}

/// The most changed code comparisons, lowest similarity first, at most 25.
fn plan_code(ds: &Vec<CodeDiffResult>) -> (res: Vec<usize>)
    ensures
        res@ == most_changed_code(ds@),
{
    let mut sorted: Vec<usize> = Vec::new();
    for i in 0..ds.len()
        invariant
            sorted@ == by_similarity(ds@, changed_code(ds@, i as int)),
            forall|p: int| 0 <= p < sorted@.len() ==> (#[trigger] sorted@[p]) < i,
    {
        let ghost prev = changed_code(ds@, i as int);
        if !ds[i].identical {
            let k = asc_position(ds, &sorted, i);
            let ghost before = sorted@;
            sorted.insert(k, i);
            proof {
                assert(changed_code(ds@, i + 1) == prev.push(i));
                assert(prev.push(i).drop_last() =~= prev);
                assert(sorted@ =~= before.take(k as int) + seq![i] + before.skip(k as int));
                assert forall|p: int| 0 <= p < sorted@.len() implies (#[trigger] sorted@[p]) < i + 1 by {
                    if p < k {
                        assert(sorted@[p] == before[p]);
                    } else if p > k {
                        assert(sorted@[p] == before[p - 1]);
                    }
                }
            }
        } else {
            assert(changed_code(ds@, i + 1) == prev);
        }
    }
    let ghost full = sorted@;
    sorted.truncate(25);
    proof {
        if full.len() > 25 {
            assert(sorted@ =~= full.take(25));
        } else {
            assert(sorted@ =~= full);
        }
    }
    sorted
}

/// The data comparisons with an error or a change, in order.
fn plan_data(ds: &Vec<DataDiffResult>) -> (res: Vec<usize>)
    ensures
        res@ == listed_data(ds@, ds@.len() as int),
{
    let mut out: Vec<usize> = Vec::new();
    for i in 0..ds.len()
        invariant
            out@ == listed_data(ds@, i as int),
    {
        let d = &ds[i];
        let listed = d.error.is_some() || d.columns_added.len() > 0 || d.columns_removed.len() > 0
            || d.type_changes.keys.len() > 0 || d.row_count_a != d.row_count_b;
        if listed {
            out.push(i);
        }
    }
    out
}

/// The changed binary comparisons, in order, at most 25.
fn plan_binary(ds: &Vec<BinaryDiffResult>) -> (res: Vec<usize>)
    ensures
        res@ == first_n(changed_binary(ds@, ds@.len() as int), max_examples()),
{
    let mut out: Vec<usize> = Vec::new();
    for i in 0..ds.len()
        invariant
            out@ == changed_binary(ds@, i as int),
    {
        if !ds[i].identical {
            out.push(i);
        }
    }
    let ghost full = out@;
    out.truncate(25);
    proof {
        if full.len() > 25 {
            assert(out@ =~= full.take(25));
        } else {
            assert(out@ =~= full);
        }
    }
    out
}

/// What the Markdown report of `report` lists: the changed code files,
/// lowest similarity first, at most 25; the data files with an error, a
/// changed schema or a row delta; the changed binary files, at most 25; and
/// the first rename candidates, at most 25.
pub fn markdown_plan(report: &CrawlReport) -> (res: MarkdownPlan)
    ensures
        res.code@ == most_changed_code(report.code_diffs@),
        res.data@ == listed_data(report.data_diffs@, report.data_diffs@.len() as int),
        res.binary@ == first_n(
            changed_binary(report.binary_diffs@, report.binary_diffs@.len() as int),
            max_examples(),
        ),
        res.renames == if report.rename_candidates@.len() <= max_examples() {
            report.rename_candidates@.len()
        } else {
            max_examples()
        },
        forall|i: int|
            0 <= i < report.data_diffs@.len() ==> (res.data@.contains(i as usize) <==> ((
            #[trigger] report.data_diffs@[i]).error is Some || report.data_diffs@[i].columns_added@.len()
                > 0 || report.data_diffs@[i].columns_removed@.len() > 0
                || report.data_diffs@[i].type_changes.keys@.len() > 0
                || report.data_diffs@[i].row_count_a != report.data_diffs@[i].row_count_b)),
        forall|p: int, q: int|
            0 <= p < q < res.data@.len() ==> (#[trigger] res.data@[p]) < (#[trigger] res.data@[q]),
        forall|p: int| 0 <= p < res.data@.len() ==> (#[trigger] res.data@[p]) < report.data_diffs@.len(),
{
    let nd = report.data_diffs.len();
    proof {
        law_listed_data(report.data_diffs@, nd as int);
    }
    let n = report.rename_candidates.len();
    MarkdownPlan {
        code: plan_code(&report.code_diffs),
        data: plan_data(&report.data_diffs),
        binary: plan_binary(&report.binary_diffs),
        renames: if n <= 25 {
            n
        } else {
            25
        },
    }
}

// ── laws of the listing ─────────────────────────────────────────────────────

/// The insertion point follows every leading entry of at most the new
/// similarity and stops at the first larger one.
proof fn lemma_asc_pos(ds: Seq<CodeDiffResult>, s: Seq<usize>, i: usize)
    ensures
        asc_pos(ds, s, i) <= s.len(),
        forall|p: int|
            0 <= p < asc_pos(ds, s, i) ==> ds[(#[trigger] s[p]) as int].similarity.le(
                ds[i as int].similarity,
            ),
        asc_pos(ds, s, i) < s.len() ==> !ds[s[asc_pos(ds, s, i) as int] as int].similarity.le(
            ds[i as int].similarity,
        ),
    decreases s.len(),
{
    if s.len() > 0 && ds[s[0] as int].similarity.le(ds[i as int].similarity) {
        lemma_asc_pos(ds, s.drop_first(), i);
        assert forall|p: int| 0 <= p < asc_pos(ds, s, i) implies ds[(#[trigger] s[p]) as int].similarity.le(
            ds[i as int].similarity,
        ) by {
            if p > 0 {
                assert(s[p] == s.drop_first()[p - 1]);
            }
        }
        if asc_pos(ds, s, i) < s.len() {
            assert(s[asc_pos(ds, s, i) as int] == s.drop_first()[asc_pos(ds, s.drop_first(), i) as int]);
        }
    }
}

/// Every similarity is a fraction with a positive denominator.
pub open spec fn similarities_wf(ds: Seq<CodeDiffResult>) -> bool {
    forall|i: int| 0 <= i < ds.len() ==> (#[trigger] ds[i]).similarity.wf()
}

/// The stable sort orders by similarity and keeps the indices.
proof fn lemma_by_similarity(ds: Seq<CodeDiffResult>, idx: Seq<usize>)
    requires
        similarities_wf(ds),
        forall|p: int| 0 <= p < idx.len() ==> (#[trigger] idx[p]) < ds.len(),
    ensures
        by_similarity(ds, idx).len() == idx.len(),
        forall|p: int|
            0 <= p < by_similarity(ds, idx).len() ==> idx.contains(
                #[trigger] by_similarity(ds, idx)[p],
            ),
        forall|p: int, q: int|
            0 <= p < q < by_similarity(ds, idx).len() ==> ds[(#[trigger] by_similarity(
                ds,
                idx,
            )[p]) as int].similarity.le(ds[(#[trigger] by_similarity(ds, idx)[q]) as int].similarity),
    decreases idx.len(),
{
    if idx.len() > 0 {
        let pre = idx.drop_last();
        let x = idx.last();
        assert forall|p: int| 0 <= p < pre.len() implies (#[trigger] pre[p]) < ds.len() by {
            assert(pre[p] == idx[p]);
        }
        lemma_by_similarity(ds, pre);
        let s = by_similarity(ds, pre);
        let k = asc_pos(ds, s, x) as int;
        lemma_asc_pos(ds, s, x);
        let r = by_similarity(ds, idx);
        assert(r =~= s.take(k) + seq![x] + s.skip(k));
        assert(x == idx[idx.len() - 1]);
        assert forall|p: int| 0 <= p < r.len() implies idx.contains(#[trigger] r[p]) by {
            if p < k {
                assert(r[p] == s[p]);
                let q = pre.index_of(s[p]);
                assert(idx[q] == pre[q]);
            } else if p > k {
                assert(r[p] == s[p - 1]);
                let q = pre.index_of(s[p - 1]);
                assert(idx[q] == pre[q]);
            }
        }
        assert forall|p: int| 0 <= p < s.len() implies (#[trigger] s[p]) < ds.len() by {
            let q = pre.index_of(s[p]);
            assert(pre[q] == s[p]);
        }
        assert forall|p: int, q: int| 0 <= p < q < r.len() implies ds[(#[trigger] r[p]) as int].similarity.le(
            ds[(#[trigger] r[q]) as int].similarity,
        ) by {
            if q < k {
                assert(r[p] == s[p] && r[q] == s[q]);
            } else if q == k {
                assert(r[p] == s[p]);
            } else if p < k {
                assert(r[p] == s[p] && r[q] == s[q - 1]);
            } else if p == k {
                assert(r[q] == s[q - 1]);
                assert(!ds[s[k] as int].similarity.le(ds[x as int].similarity));
                lemma_le_or_gt(ds[x as int].similarity, ds[s[k] as int].similarity);
                if q - 1 > k {
                    lemma_le_trans(ds[x as int].similarity, ds[s[k] as int].similarity, ds[s[q - 1] as int].similarity);
                }
            } else {
                assert(r[p] == s[p - 1] && r[q] == s[q - 1]);
            }
        }
    }
}

/// Of two fractions with positive denominators, one is at most the other.
proof fn lemma_le_or_gt(a: Ratio, b: Ratio)
    requires
        a.wf(),
        b.wf(),
    ensures
        !b.le(a) ==> a.le(b),
{
}

/// The report lists only changed code files, by increasing similarity, at
/// most 25 of them.
pub proof fn law_most_changed_code_sorted(ds: Seq<CodeDiffResult>)
    requires
        ds.len() <= usize::MAX,
        similarities_wf(ds),
    ensures
        most_changed_code(ds).len() <= max_examples(),
        forall|p: int|
            0 <= p < most_changed_code(ds).len() ==> (#[trigger] most_changed_code(ds)[p]) < ds.len()
                && !ds[most_changed_code(ds)[p] as int].identical,
        forall|p: int, q: int|
            0 <= p < q < most_changed_code(ds).len() ==> ds[(#[trigger] most_changed_code(
                ds,
            )[p]) as int].similarity.le(ds[(#[trigger] most_changed_code(ds)[q]) as int].similarity),
{
    let idx = changed_code(ds, ds.len() as int);
    lemma_changed_code(ds, ds.len() as int);
    lemma_by_similarity(ds, idx);
    let s = by_similarity(ds, idx);
    let r = most_changed_code(ds);
    assert forall|p: int| 0 <= p < r.len() implies (#[trigger] r[p]) < ds.len() && !ds[r[p] as int].identical by {
        assert(r[p] == s[p]);
        assert(idx.contains(s[p]));
        let q = idx.index_of(s[p]);
        assert(idx[q] == s[p]);
    }
    assert forall|p: int, q: int| 0 <= p < q < r.len() implies ds[(#[trigger] r[p]) as int].similarity.le(
        ds[(#[trigger] r[q]) as int].similarity,
    ) by {
        assert(r[p] == s[p] && r[q] == s[q]);
    }
}

/// The changed indices are valid and point at changed comparisons.
proof fn lemma_changed_code(ds: Seq<CodeDiffResult>, n: int)
    requires
        n <= ds.len(),
        ds.len() <= usize::MAX,
    ensures
        forall|p: int|
            0 <= p < changed_code(ds, n).len() ==> (#[trigger] changed_code(ds, n)[p]) < n
                && !ds[changed_code(ds, n)[p] as int].identical,
    decreases n,
{
    if n > 0 {
        lemma_changed_code(ds, n - 1);
        let pre = changed_code(ds, n - 1);
        assert forall|p: int| 0 <= p < changed_code(ds, n).len() implies (#[trigger] changed_code(ds, n)[p]) < n
            && !ds[changed_code(ds, n)[p] as int].identical by {
            if p < pre.len() {
                assert(changed_code(ds, n)[p] == pre[p]);
            }
        }
    }
}

/// Sorting keeps every index.
proof fn lemma_by_similarity_keeps(ds: Seq<CodeDiffResult>, idx: Seq<usize>)
    ensures
        forall|p: int| 0 <= p < idx.len() ==> by_similarity(ds, idx).contains(#[trigger] idx[p]),
    decreases idx.len(),
{
    if idx.len() > 0 {
        let pre = idx.drop_last();
        let x = idx.last();
        lemma_by_similarity_keeps(ds, pre);
        let s = by_similarity(ds, pre);
        let k = asc_pos(ds, s, x) as int;
        lemma_asc_pos(ds, s, x);
        let r = by_similarity(ds, idx);
        assert(r =~= s.take(k) + seq![x] + s.skip(k));
        assert forall|p: int| 0 <= p < idx.len() implies r.contains(#[trigger] idx[p]) by {
            if p == idx.len() - 1 {
                assert(r[k] == x);
            } else {
                assert(idx[p] == pre[p]);
                let q = s.index_of(pre[p]);
                if q < k {
                    assert(r[q] == s[q]);
                } else {
                    assert(r[q + 1] == s[q]);
                }
            }
        }
    }
}

/// Every changed comparison below `n` has its index among the changed ones.
proof fn lemma_changed_code_complete(ds: Seq<CodeDiffResult>, n: int)
    requires
        n <= ds.len(),
        ds.len() <= usize::MAX,
    ensures
        forall|i: int| 0 <= i < n && !(#[trigger] ds[i]).identical ==> changed_code(ds, n).contains(
            i as usize,
        ),
    decreases n,
{
    if n > 0 {
        lemma_changed_code_complete(ds, n - 1);
        let pre = changed_code(ds, n - 1);
        let cur = changed_code(ds, n);
        assert forall|i: int| 0 <= i < n && !(#[trigger] ds[i]).identical implies cur.contains(
            i as usize,
        ) by {
            if i < n - 1 {
                let p = pre.index_of(i as usize);
                assert(cur[p] == pre[p]);
            } else {
                assert(cur[pre.len() as int] == (n - 1) as usize);
            }
        }
    }
}

/// No changed code file is left out of the Markdown listing unless the
/// listing is full: every changed comparison is listed, or 25 comparisons
/// are listed and none of them is more similar than it.
pub proof fn law_most_changed_code_complete(ds: Seq<CodeDiffResult>)
    requires
        ds.len() <= usize::MAX,
        similarities_wf(ds),
    ensures
        forall|i: int|
            0 <= i < ds.len() && !(#[trigger] ds[i]).identical ==> most_changed_code(ds).contains(
                i as usize,
            ) || (most_changed_code(ds).len() == max_examples() && forall|p: int|
                0 <= p < max_examples() ==> ds[most_changed_code(ds)[p] as int].similarity.le(
                    ds[i].similarity,
                )),
{
    let idx = changed_code(ds, ds.len() as int);
    lemma_changed_code(ds, ds.len() as int);
    lemma_changed_code_complete(ds, ds.len() as int);
    lemma_by_similarity(ds, idx);
    lemma_by_similarity_keeps(ds, idx);
    let s = by_similarity(ds, idx);
    let r = most_changed_code(ds);
    assert forall|i: int| 0 <= i < ds.len() && !(#[trigger] ds[i]).identical implies r.contains(
        i as usize,
    ) || (r.len() == max_examples() && forall|p: int|
        0 <= p < max_examples() ==> ds[r[p] as int].similarity.le(ds[i].similarity)) by {
        assert(idx.contains(i as usize));
        let j = idx.index_of(i as usize);
        assert(s.contains(idx[j]));
        let q = s.index_of(i as usize);
        assert(s[q] == i as usize);
        if q < 25 {
            assert(r[q] == s[q]);
        } else {
            assert(r.len() == 25);
            assert forall|p: int| 0 <= p < max_examples() implies ds[r[p] as int].similarity.le(
                ds[i].similarity,
            ) by {
                assert(r[p] == s[p]);
            }
        }
    }
}

} // verus!
