//! Myers diffs of text (through the `similar` crate) as sequences of diff
//! operations, and the totals the library derives from them.
use vstd::prelude::*;

verus! {

/// One operation of a diff script: ranges of the old and the new sequence.
#[derive(PartialEq, Eq, Structural, Clone, Copy, Debug)]
pub enum DiffOp {
    Equal { old_index: usize, new_index: usize, len: usize },
    Delete { old_index: usize, old_len: usize, new_index: usize },
    Insert { old_index: usize, new_index: usize, new_len: usize },
    Replace { old_index: usize, old_len: usize, new_index: usize, new_len: usize },
}

/// Where the operation starts in the old sequence.
pub open spec fn op_old_start(op: DiffOp) -> int {
    match op {
        DiffOp::Equal { old_index, .. } => old_index as int,
        DiffOp::Delete { old_index, .. } => old_index as int,
        DiffOp::Insert { old_index, .. } => old_index as int,
        DiffOp::Replace { old_index, .. } => old_index as int,
    }
}

/// Where the operation starts in the new sequence.
pub open spec fn op_new_start(op: DiffOp) -> int {
    match op {
        DiffOp::Equal { new_index, .. } => new_index as int,
        DiffOp::Delete { new_index, .. } => new_index as int,
        DiffOp::Insert { new_index, .. } => new_index as int,
        DiffOp::Replace { new_index, .. } => new_index as int,
    }
}

/// How many old elements the operation covers (removed, for deletes and replaces).
pub open spec fn op_old_len(op: DiffOp) -> int {
    match op {
        DiffOp::Equal { len, .. } => len as int,
        DiffOp::Delete { old_len, .. } => old_len as int,
        DiffOp::Insert { .. } => 0,
        DiffOp::Replace { old_len, .. } => old_len as int,
    }
}

/// How many new elements the operation covers (added, for inserts and replaces).
pub open spec fn op_new_len(op: DiffOp) -> int {
    match op {
        DiffOp::Equal { len, .. } => len as int,
        DiffOp::Delete { .. } => 0,
        DiffOp::Insert { new_len, .. } => new_len as int,
        DiffOp::Replace { new_len, .. } => new_len as int,
    }
}

/// Elements the operation keeps unchanged.
pub open spec fn op_equal_len(op: DiffOp) -> int {
    match op {
        DiffOp::Equal { len, .. } => len as int,
        _ => 0,
    }
}

/// Elements the operation removes from the old sequence.
pub open spec fn op_removed(op: DiffOp) -> int {
    match op {
        DiffOp::Delete { old_len, .. } => old_len as int,
        DiffOp::Replace { old_len, .. } => old_len as int,
        _ => 0,
    }
}

/// Elements the operation adds from the new sequence.
pub open spec fn op_added(op: DiffOp) -> int {
    match op {
        DiffOp::Insert { new_len, .. } => new_len as int,
        DiffOp::Replace { new_len, .. } => new_len as int,
        _ => 0,
    }
}

/// Total unchanged elements of a script.
pub open spec fn equal_total(ops: Seq<DiffOp>) -> int
    decreases ops.len(),
{
    if ops.len() == 0 {
        0
    } else {
        equal_total(ops.drop_last()) + op_equal_len(ops.last())
    }
}

/// Total removed elements of a script.
pub open spec fn removed_total(ops: Seq<DiffOp>) -> int
    decreases ops.len(),
{
    if ops.len() == 0 {
        0
    } else {
        removed_total(ops.drop_last()) + op_removed(ops.last())
    }
}

/// Total added elements of a script.
pub open spec fn added_total(ops: Seq<DiffOp>) -> int
    decreases ops.len(),
{
    if ops.len() == 0 {
        0
    } else {
        added_total(ops.drop_last()) + op_added(ops.last())
    }
}

/// Total old elements a script covers.
pub open spec fn old_total(ops: Seq<DiffOp>) -> int
    decreases ops.len(),
{
    if ops.len() == 0 {
        0
    } else {
        old_total(ops.drop_last()) + op_old_len(ops.last())
    }
}

/// Total new elements a script covers.
pub open spec fn new_total(ops: Seq<DiffOp>) -> int
    decreases ops.len(),
{
    if ops.len() == 0 {
        0
    } else {
        new_total(ops.drop_last()) + op_new_len(ops.last())
    }
}

/// The script's operations lie one after another, from position 0 up to
/// `old_end` in the old sequence and `new_end` in the new one.
pub open spec fn tiled(ops: Seq<DiffOp>, old_end: int, new_end: int) -> bool
    decreases ops.len(),
{
    if ops.len() == 0 {
        old_end == 0 && new_end == 0
    } else {
        let op = ops.last();
        &&& op_old_start(op) + op_old_len(op) == old_end
        &&& op_new_start(op) + op_new_len(op) == new_end
        &&& tiled(ops.drop_last(), op_old_start(op), op_new_start(op))
    }
}

/// What `similar::TextDiff::from_chars(old, new).ops()` returns: a Myers diff
/// of the two texts character by character.
pub uninterp spec fn char_diff(old: Seq<char>, new: Seq<char>) -> Seq<DiffOp>;

/// What `similar::TextDiff::from_lines(old, new).ops()` returns: a Myers diff
/// of the two texts line by line.
pub uninterp spec fn line_diff(old: Seq<char>, new: Seq<char>) -> Seq<DiffOp>;

/// What `similar`'s unified diff of the lines of `old` and `new` renders, with
/// `radius` lines of context and the file headers `header_a` and `header_b`.
pub uninterp spec fn unified_diff_text(
    old: Seq<char>,
    new: Seq<char>,
    radius: usize,
    header_a: Seq<char>,
    header_b: Seq<char>,
) -> Seq<char>;

/// `similar::TextDiff::from_chars(old, new).ops()`, converted operation by
/// operation. The result is named by `char_diff`. The characters are the
/// diffed tokens, so the operations tile both texts completely, in order.
#[verifier::external_body]
pub(crate) fn char_diff_ops(old: &str, new: &str) -> (res: Vec<DiffOp>)
    ensures
        res@ == char_diff(old@, new@),
        tiled(res@, old@.len() as int, new@.len() as int),
{
    similar::TextDiff::from_chars(old, new).ops().iter().map(|op| match *op {
        similar::DiffOp::Equal { old_index, new_index, len } => DiffOp::Equal { old_index, new_index, len },
        similar::DiffOp::Delete { old_index, old_len, new_index } => DiffOp::Delete { old_index, old_len, new_index },
        similar::DiffOp::Insert { old_index, new_index, new_len } => DiffOp::Insert { old_index, new_index, new_len },
        similar::DiffOp::Replace { old_index, old_len, new_index, new_len } => DiffOp::Replace { old_index, old_len, new_index, new_len },
    }).collect()
}

/// `similar::TextDiff::from_lines(old, new).ops()`, converted operation by
/// operation. The result is named by `line_diff`. Lines are non-empty pieces
/// of the text, so the operations cover no more old (new) lines than `old`
/// (`new`) has characters.
#[verifier::external_body]
pub(crate) fn line_diff_ops(old: &str, new: &str) -> (res: Vec<DiffOp>)
    ensures
        res@ == line_diff(old@, new@),
        old_total(res@) <= old@.len(),
        new_total(res@) <= new@.len(),
{
    similar::TextDiff::from_lines(old, new).ops().iter().map(|op| match *op {
        similar::DiffOp::Equal { old_index, new_index, len } => DiffOp::Equal { old_index, new_index, len },
        similar::DiffOp::Delete { old_index, old_len, new_index } => DiffOp::Delete { old_index, old_len, new_index },
        similar::DiffOp::Insert { old_index, new_index, new_len } => DiffOp::Insert { old_index, new_index, new_len },
        similar::DiffOp::Replace { old_index, old_len, new_index, new_len } => DiffOp::Replace { old_index, old_len, new_index, new_len },
    }).collect()
}

/// `similar`'s unified diff of the lines of `old` and `new`
/// (`TextDiff::from_lines(old, new).unified_diff().context_radius(radius)
/// .header(header_a, header_b).to_string()`), named by `unified_diff_text`.
/// It renders one hunk per group of the same line script that
/// [`line_diff_ops`] returns, keeping every group with a change, and each
/// such hunk starts with its `@@` line: so a script that adds or removes a
/// line gives a non-empty text.
#[verifier::external_body]
pub(crate) fn unified_diff(old: &str, new: &str, radius: usize, header_a: &str, header_b: &str) -> (res:
    String)
    ensures
        res@ == unified_diff_text(old@, new@, radius, header_a@, header_b@),
        added_total(line_diff(old@, new@)) + removed_total(line_diff(old@, new@)) > 0 ==> res@.len()
            > 0,
{
    similar::TextDiff::from_lines(old, new).unified_diff().context_radius(radius).header(
        header_a,
        header_b,
    ).to_string()
}

/// In a script, each of added, removed and unchanged elements is bounded by
/// the elements covered.
pub proof fn lemma_totals_bounded(ops: Seq<DiffOp>)
    ensures
        0 <= equal_total(ops) <= old_total(ops),
        equal_total(ops) <= new_total(ops),
        0 <= removed_total(ops) <= old_total(ops),
        0 <= added_total(ops) <= new_total(ops),
        old_total(ops) >= 0,
        new_total(ops) >= 0,
    decreases ops.len(),
{
    if ops.len() > 0 {
        lemma_totals_bounded(ops.drop_last());
    }
}

/// A tiled script covers exactly the tiled lengths.
pub proof fn lemma_tiled_totals(ops: Seq<DiffOp>, old_end: int, new_end: int)
    requires
        tiled(ops, old_end, new_end),
    ensures
        old_total(ops) == old_end,
        new_total(ops) == new_end,
    decreases ops.len(),
{
    if ops.len() > 0 {
        let op = ops.last();
        lemma_tiled_totals(ops.drop_last(), op_old_start(op), op_new_start(op));
    }
}

/// Sums a per-operation quantity over a script: unchanged, removed and added
/// elements.
pub fn op_totals(ops: &Vec<DiffOp>) -> (res: (u64, u64, u64))
    requires
        old_total(ops@) <= u64::MAX,
        new_total(ops@) <= u64::MAX,
    ensures
        res.0 == equal_total(ops@),
        res.1 == removed_total(ops@),
        res.2 == added_total(ops@),
{
    let mut eq: u64 = 0;
    let mut rm: u64 = 0;
    let mut ad: u64 = 0;
    let mut i: usize = 0;
    while i < ops.len()
        invariant
            i <= ops.len(),
            old_total(ops@) <= u64::MAX,
            new_total(ops@) <= u64::MAX,
            eq == equal_total(ops@.take(i as int)),
            rm == removed_total(ops@.take(i as int)),
            ad == added_total(ops@.take(i as int)),
        decreases ops.len() - i,
    {
        let ghost pre = ops@.take(i as int);
        let ghost cur = ops@.take(i + 1);
        assert(cur.drop_last() =~= pre);
        proof {
            lemma_prefix_totals(ops@, i + 1);
            lemma_totals_bounded(cur);
        }
        match ops[i] {
            DiffOp::Equal { len, .. } => {
                eq = eq + len as u64;
            },
            DiffOp::Delete { old_len, .. } => {
                rm = rm + old_len as u64;
            },
            DiffOp::Insert { new_len, .. } => {
                ad = ad + new_len as u64;
            },
            DiffOp::Replace { old_len, new_len, .. } => {
                rm = rm + old_len as u64;
                ad = ad + new_len as u64;
            },
        }
        i += 1;
    }
    assert(ops@.take(i as int) =~= ops@);
    (eq, rm, ad)
}

/// Covered totals of a prefix are bounded by those of the whole script.
pub proof fn lemma_prefix_totals(ops: Seq<DiffOp>, k: int)
    requires
        0 <= k <= ops.len(),
    ensures
        old_total(ops.take(k)) <= old_total(ops),
        new_total(ops.take(k)) <= new_total(ops),
    decreases ops.len() - k,
{
    if k < ops.len() {
        lemma_prefix_totals(ops, k + 1);
        assert(ops.take(k + 1).drop_last() =~= ops.take(k));
        lemma_totals_bounded(ops.take(k + 1));
    } else {
        assert(ops.take(k) =~= ops);
    }
}

} // verus!
