//! Directory-tree indexes and their set difference. The directory walk itself
//! happens outside the library; it asks [`skip_walk_entry`] which entries to
//! prune and hands the files it found to [`TreeIndex::from_walk`].
use vstd::prelude::*;
use crate::classifier::{excluded_component, excluded_path, is_excluded_component};
use crate::config::{excluded_file_name, excluded_suffix, is_excluded_file_name, is_excluded_suffix};
use crate::paths::{file_name, is_named_segment, last_named, segments, split_segments, suffix_of,
    suffix_of_path};
use crate::ratio::Ratio;
use crate::strmap::{key_views, StrMap};
use crate::text::{
    chars_of, compare_chars, lemma_seq_lt_irreflexive, lemma_seq_lt_transitive, seq_lt,
    sorted_strict, string_from_chars, views, Cmp,
};

verus! {

/// All non-excluded files under a root directory: relative path → absolute path.
pub struct TreeIndex {
    pub root: String,
    pub abs_lookup: StrMap<String>,
}

impl TreeIndex {
    /// Well-formed.
    pub open spec fn wf(&self) -> bool {
        self.abs_lookup.wf()
    }

    /// The relative paths in the index.
    pub open spec fn files(&self) -> Set<Seq<char>> {
        self.abs_lookup@.dom()
    }

    /// The relative paths in increasing order.
    pub open spec fn file_seq(&self) -> Seq<Seq<char>> {
        self.abs_lookup.key_seq()
    }

    /// An empty index for `root`.
    pub fn new(root: String) -> (res: Self)
        ensures
            res.wf(),
            res.root == root,
            res.files() == Set::<Seq<char>>::empty(),
    {
        TreeIndex { root, abs_lookup: StrMap::new() }
    }

    /// Records that the file `rel` (relative to the root) lives at `abs`.
    pub fn insert(&mut self, rel: String, abs: String)
        requires
            old(self).wf(),
        ensures
            final(self).wf(),
            final(self).root == old(self).root,
            final(self).abs_lookup@ == old(self).abs_lookup@.insert(rel@, abs),
            final(self).files() == old(self).files().insert(rel@),
    {
        let key = chars_of(rel.as_str());
        self.abs_lookup.insert(key, abs);
    }

    /// Number of files.
    pub fn len(&self) -> (res: usize)
        ensures
            res == self.abs_lookup.keys@.len(),
    {
        self.abs_lookup.len()
    }

    /// The absolute path recorded for `rel`.
    pub fn abs_path(&self, rel: &str) -> (res: Option<String>)
        requires
            self.wf(),
        ensures
            match res {
                Some(a) => self.abs_lookup@.contains_key(rel@) && self.abs_lookup@[rel@] == a,
                None => !self.files().contains(rel@),
            },
    {
        let key = chars_of(rel);
        match self.abs_lookup.get(key.as_slice()) {
            Some(a) => Some(a.clone()),
            None => None,
        }
    }

    /// The relative paths, in increasing order.
    pub fn file_list(&self) -> (res: Vec<String>)
        requires
            self.wf(),
        ensures
            views(res@) == self.file_seq(),
    {
        let mut res: Vec<String> = Vec::new();
        let n = self.abs_lookup.keys.len();
        for i in 0..n
            invariant
                n == self.abs_lookup.keys@.len(),
                views(res@) == self.file_seq().take(i as int),
        {
            let s = string_from_chars(self.abs_lookup.keys[i].as_slice());
            let ghost before = views(res@);
            res.push(s);
            assert(views(res@) =~= before.push(self.file_seq()[i as int]));
            assert(self.file_seq().take(i + 1) =~= self.file_seq().take(i as int).push(
                self.file_seq()[i as int],
            ));
        }
        assert(self.file_seq().take(n as int) =~= self.file_seq());
        res
    }

    /// Builds the index from the files a walk of `root` found, as
    /// `(relative, absolute)` pairs, keeping those the walk keeps.
    pub fn from_walk(root: String, found: Vec<(String, String)>) -> (res: Self)
        ensures
            res.wf(),
            res.root == root,
            forall|r: Seq<char>| #[trigger]
                res.files().contains(r) <==> exists|k: int|
                    0 <= k < found@.len() && found@[k].0@ == r && walk_keeps(r),
            forall|r: Seq<char>| #[trigger]
                res.files().contains(r) ==> exists|k: int|
                    0 <= k < found@.len() && found@[k].0@ == r && res.abs_lookup@[r] == found@[k].1
                        && forall|m: int| k < m < found@.len() ==> found@[m].0@ != r,
    {
        let mut index = TreeIndex::new(root);
        for k in 0..found.len()
            invariant
                index.wf(),
                index.root == root,
                forall|r: Seq<char>| #[trigger]
                    index.files().contains(r) <==> exists|m: int|
                        0 <= m < k && found@[m].0@ == r && walk_keeps(r),
                forall|r: Seq<char>| #[trigger]
                    index.files().contains(r) ==> exists|m: int|
                        0 <= m < k && found@[m].0@ == r && index.abs_lookup@[r] == found@[m].1
                            && forall|q: int| m < q < k ==> found@[q].0@ != r,
        {
            let rel = found[k].0.clone();
            let abs = found[k].1.clone();
            let keep = walk_keeps_path(rel.as_str());
            let ghost before = index;
            if keep {
                index.insert(rel, abs);
            }
            assert forall|r: Seq<char>| #[trigger]
                index.files().contains(r) <==> exists|m: int|
                    0 <= m < k + 1 && found@[m].0@ == r && walk_keeps(r) by {
                if exists|m: int| 0 <= m < k + 1 && found@[m].0@ == r && walk_keeps(r) {
                    let m = choose|m: int| 0 <= m < k + 1 && found@[m].0@ == r && walk_keeps(r);
                    if m < k {
                        assert(exists|m2: int| 0 <= m2 < k && found@[m2].0@ == r && walk_keeps(r));
                    }
                }
                if index.files().contains(r) && r != found@[k as int].0@ {
                    let m = choose|m: int| 0 <= m < k && found@[m].0@ == r && walk_keeps(r);
                    assert(0 <= m < k + 1);
                }
                if index.files().contains(r) && r == found@[k as int].0@ && !keep {
                    let m = choose|m: int| 0 <= m < k && found@[m].0@ == r && walk_keeps(r);
                    assert(0 <= m < k + 1);
                }
            }
            assert forall|r: Seq<char>| #[trigger] index.files().contains(r) implies exists|m: int|
                0 <= m < k + 1 && found@[m].0@ == r && index.abs_lookup@[r] == found@[m].1
                    && forall|q: int| m < q < k + 1 ==> found@[q].0@ != r by {
                if keep && r == found@[k as int].0@ {
                    assert(index.abs_lookup@[r] == found@[k as int].1);
                    assert(0 <= k < k + 1 && found@[k as int].0@ == r);
                } else {
                    assert(before.files().contains(r));
                    let m = choose|m: int|
                        0 <= m < k && found@[m].0@ == r && before.abs_lookup@[r] == found@[m].1
                            && forall|q: int| m < q < k ==> found@[q].0@ != r;
                    assert(index.abs_lookup@[r] == before.abs_lookup@[r]);
                    assert(forall|q: int| m < q < k + 1 ==> found@[q].0@ != r);
                }
            }
        }
        index
    }
}

// ── walk rules ───────────────────────────────────────────────────────────────

/// Whether a walk entry (not the root, which has depth 0) is pruned: any
/// entry named like an excluded directory or `*.egg-info`, and any file with
/// an excluded file name or suffix.
pub open spec fn walk_skips(depth: usize, name: Seq<char>, is_file: bool) -> bool {
    depth > 0 && (excluded_component(name) || (is_file && (excluded_file_name(name)
        || excluded_suffix(suffix_of(name)))))
}

/// Decides, for the walker, whether to skip an entry (and, for a directory,
/// not to descend into it).
pub fn skip_walk_entry(depth: usize, name: &str, is_file: bool) -> (res: bool)
    ensures
        res == walk_skips(depth, name@, is_file),
{
    if depth == 0 {
        return false;
    }
    let nc = chars_of(name);
    if is_excluded_component(nc.as_slice()) {
        return true;
    }
    if is_file {
        if is_excluded_file_name(nc.as_slice()) {
            return true;
        }
        let suffix = suffix_of_path(nc.as_slice());
        if is_excluded_suffix(suffix.as_slice()) {
            return true;
        }
    }
    false
}

/// A file at relative path `rel` survives the walk: no directory on its way
/// and not the file itself is pruned.
pub open spec fn walk_keeps(rel: Seq<char>) -> bool {
    let segs = segments(rel);
    &&& forall|i: int| 0 <= i < segs.len() - 1 ==> !excluded_component(#[trigger] segs[i])
    &&& !excluded_component(segs.last())
    &&& !excluded_file_name(segs.last())
    &&& !excluded_suffix(suffix_of(segs.last()))
}

/// Whether a file found at `rel` survives the walk's pruning.
pub fn walk_keeps_path(rel: &str) -> (res: bool)
    ensures
        res == walk_keeps(rel@),
{
    let pc = chars_of(rel);
    let segs = split_segments(pc.as_slice());
    let ghost sv = segs@.map_values(|s: Vec<char>| s@);
    let n = segs.len();
    assert(n > 0) by {
        lemma_segments_nonempty(rel@, seq![]);
    }
    let mut i: usize = 0;
    while i < n - 1
        invariant
            n == segs.len(),
            n > 0,
            i <= n - 1,
            sv == segs@.map_values(|s: Vec<char>| s@),
            sv == segments(rel@),
            forall|j: int| 0 <= j < i ==> !excluded_component(#[trigger] sv[j]),
        decreases n - 1 - i,
    {
        if is_excluded_component(segs[i].as_slice()) {
            assert(excluded_component(sv[i as int]));
            return false;
        }
        i += 1;
    }
    let last = segs[n - 1].as_slice();
    assert(last@ == sv.last());
    !is_excluded_component(last) && !is_excluded_file_name(last) && !is_excluded_suffix(
        suffix_of_path(last).as_slice(),
    )
}

/// Splitting always yields at least one segment.
pub proof fn lemma_segments_nonempty(p: Seq<char>, cur: Seq<char>)
    ensures
        crate::paths::split_from(p, cur).len() > 0,
    decreases p.len(),
{
    if p.len() > 0 {
        if p[0] == '/' {
            lemma_segments_nonempty(p.drop_first(), seq![]);
        } else {
            lemma_segments_nonempty(p.drop_first(), cur.push(p[0]));
        }
    }
}

/// A relative path of ordinary components, as a walk produces: no empty,
/// `.` or `..` segment.
pub open spec fn plain_rel_path(p: Seq<char>) -> bool {
    forall|i: int| 0 <= i < segments(p).len() ==> is_named_segment(#[trigger] segments(p)[i])
        && segments(p)[i] != seq!['.', '.']
}

/// Law: for the relative paths a walk produces, the walk keeps a file exactly
/// when `is_excluded_path` does not exclude it; the per-file exclusion rule
/// and the walker's pruning agree.
pub proof fn law_walk_agrees_with_exclusion(p: Seq<char>)
    requires
        plain_rel_path(p),
    ensures
        walk_keeps(p) <==> !excluded_path(p),
{
    let segs = segments(p);
    lemma_segments_nonempty(p, seq![]);
    assert(is_named_segment(segs.last()));
    assert(last_named(segs) == Some(segs.last()));
    assert(file_name(p) == Some(segs.last()));
    assert(suffix_of(p) == suffix_of(segs.last())) by {
        lemma_segments_no_slash(p, seq![]);
        let n = segs.last();
        assert(segs.contains(n));
        lemma_split_plain(n, seq![]);
        assert(seq![] + n =~= n);
        assert(last_named(segments(n)) == Some(n));
    }
    if walk_keeps(p) {
        assert forall|i: int| 0 <= i < segs.len() implies !excluded_component(#[trigger] segs[i]) by {
            if i < segs.len() - 1 {
            } else {
                assert(segs[i] == segs.last());
            }
        }
    }
    if !excluded_path(p) {
        assert(!excluded_component(segs[segs.len() - 1]));
    }
}

/// No segment contains a `/`.
pub proof fn lemma_segments_no_slash(p: Seq<char>, cur: Seq<char>)
    requires
        !cur.contains('/'),
    ensures
        forall|k: int|
            0 <= k < crate::paths::split_from(p, cur).len() ==> !(#[trigger] crate::paths::split_from(
                p,
                cur,
            )[k]).contains('/'),
    decreases p.len(),
{
    if p.len() > 0 {
        if p[0] == '/' {
            lemma_segments_no_slash(p.drop_first(), seq![]);
            let rest = crate::paths::split_from(p.drop_first(), seq![]);
            assert(crate::paths::split_from(p, cur) == seq![cur] + rest);
            assert forall|k: int|
                0 <= k < crate::paths::split_from(p, cur).len() implies !(
            #[trigger] crate::paths::split_from(p, cur)[k]).contains('/') by {
                if k > 0 {
                    assert(crate::paths::split_from(p, cur)[k] == rest[k - 1]);
                } else {
                    assert(crate::paths::split_from(p, cur)[k] == cur);
                }
            }
        } else {
            let nc = cur.push(p[0]);
            assert(!nc.contains('/')) by {
                if nc.contains('/') {
                    let m = nc.index_of('/');
                    if m < cur.len() {
                        assert(cur[m] == '/');
                    }
                }
            }
            lemma_segments_no_slash(p.drop_first(), nc);
            assert(crate::paths::split_from(p, cur) == crate::paths::split_from(p.drop_first(), nc));
        }
    } else {
        assert(crate::paths::split_from(p, cur) == seq![cur]);
        assert forall|k: int|
            0 <= k < crate::paths::split_from(p, cur).len() implies !(
        #[trigger] crate::paths::split_from(p, cur)[k]).contains('/') by {
            assert(crate::paths::split_from(p, cur)[k] == cur);
        }
    }
}

/// A text without `/` is a single segment.
pub proof fn lemma_split_plain(s: Seq<char>, cur: Seq<char>)
    requires
        !s.contains('/'),
    ensures
        crate::paths::split_from(s, cur) == seq![cur + s],
    decreases s.len(),
{
    if s.len() == 0 {
        assert(cur + s =~= cur);
    } else {
        assert(s[0] != '/') by {
            if s[0] == '/' {
                assert(s.contains('/'));
            }
        }
        assert(!s.drop_first().contains('/')) by {
            if s.drop_first().contains('/') {
                let m = s.drop_first().index_of('/');
                assert(s[m + 1] == '/');
            }
        }
        lemma_split_plain(s.drop_first(), cur.push(s[0]));
        assert(cur.push(s[0]) + s.drop_first() =~= cur + s);
    }
}

/// Membership after a push.
pub proof fn lemma_push_contains(s: Seq<Seq<char>>, x: Seq<char>, y: Seq<char>)
    ensures
        s.push(x).contains(y) <==> (s.contains(y) || y == x),
{
    if s.contains(y) {
        let k = s.index_of(y);
        assert(s.push(x)[k] == y);
    }
    if y == x {
        assert(s.push(x)[s.len() as int] == x);
    }
    if s.push(x).contains(y) {
        let k = s.push(x).index_of(y);
        if k < s.len() {
            assert(s[k] == y);
        }
    }
}

// ── tree diff ───────────────────────────────────────────────────────────────

/// Set-arithmetic result of comparing two indexes; each list is in
/// increasing order.
#[derive(Debug, Clone)]
pub struct TreeDiff {
    pub in_both: Vec<String>,
    pub only_in_a: Vec<String>,
    pub only_in_b: Vec<String>,
}

/// `d` is the tree diff of the file sets `a` and `b`: the three lists are
/// strictly increasing and hold exactly `a ∩ b`, `a \ b` and `b \ a`.
pub open spec fn is_tree_diff(a: Set<Seq<char>>, b: Set<Seq<char>>, d: TreeDiff) -> bool {
    &&& sorted_strict(views(d.in_both@))
    &&& sorted_strict(views(d.only_in_a@))
    &&& sorted_strict(views(d.only_in_b@))
    &&& forall|x: Seq<char>| #[trigger]
        views(d.in_both@).contains(x) <==> (a.contains(x) && b.contains(x))
    &&& forall|x: Seq<char>| #[trigger]
        views(d.only_in_a@).contains(x) <==> (a.contains(x) && !b.contains(x))
    &&& forall|x: Seq<char>| #[trigger]
        views(d.only_in_b@).contains(x) <==> (b.contains(x) && !a.contains(x))
}

/// The Jaccard index of a tree diff with the given list lengths:
/// `|in_both| / |union|`, one for two empty trees.
pub open spec fn jaccard_of(both: nat, only_a: nat, only_b: nat) -> Ratio {
    if both + only_a + only_b == 0 {
        Ratio { num: 1, den: 1 }
    } else {
        Ratio { num: both as u64, den: (both + only_a + only_b) as u64 }
    }
}

impl TreeDiff {
    /// Jaccard similarity over the file-path union: `|in_both| / |union|`,
    /// one for two empty trees.
    pub fn jaccard(&self) -> (res: Ratio)
        requires
            self.in_both@.len() + self.only_in_a@.len() + self.only_in_b@.len() <= u64::MAX,
        ensures
            res == jaccard_of(self.in_both@.len(), self.only_in_a@.len(), self.only_in_b@.len()),
            res.wf(),
            res.at_most_one(),
    {
        let union = (self.in_both.len() as u64) + (self.only_in_a.len() as u64) + (
        self.only_in_b.len() as u64);
        if union == 0 {
            Ratio { num: 1, den: 1 }
        } else {
            Ratio { num: self.in_both.len() as u64, den: union }
        }
    }
}

/// The state of merging the sorted sequences `sa` and `sb` after consuming
/// `sa[..i]` and `sb[..j]` into `both`, `oa` (only in `sa`) and `ob` (only in `sb`).
pub open spec fn merge_inv(
    sa: Seq<Seq<char>>,
    sb: Seq<Seq<char>>,
    i: int,
    j: int,
    both: Seq<Seq<char>>,
    oa: Seq<Seq<char>>,
    ob: Seq<Seq<char>>,
) -> bool {
    &&& sorted_strict(sa)
    &&& sorted_strict(sb)
    &&& 0 <= i <= sa.len()
    &&& 0 <= j <= sb.len()
    &&& sorted_strict(both)
    &&& sorted_strict(oa)
    &&& sorted_strict(ob)
    &&& forall|x: Seq<char>| #[trigger]
        both.contains(x) <==> (sa.take(i).contains(x) && sb.contains(x))
    &&& forall|x: Seq<char>| #[trigger]
        both.contains(x) <==> (sb.take(j).contains(x) && sa.contains(x))
    &&& forall|x: Seq<char>| #[trigger]
        oa.contains(x) <==> (sa.take(i).contains(x) && !sb.contains(x))
    &&& forall|x: Seq<char>| #[trigger]
        ob.contains(x) <==> (sb.take(j).contains(x) && !sa.contains(x))
    &&& forall|k: int| 0 <= k < i && j < sb.len() ==> seq_lt(#[trigger] sa[k], sb[j])
    &&& forall|k: int| 0 <= k < j && i < sa.len() ==> seq_lt(#[trigger] sb[k], sa[i])
    &&& forall|k: int|
        0 <= k < both.len() ==> (i < sa.len() ==> seq_lt(#[trigger] both[k], sa[i])) && (j
            < sb.len() ==> seq_lt(both[k], sb[j]))
    &&& forall|k: int|
        0 <= k < oa.len() ==> (i < sa.len() ==> seq_lt(#[trigger] oa[k], sa[i])) && (j
            < sb.len() ==> seq_lt(oa[k], sb[j]))
    &&& forall|k: int|
        0 <= k < ob.len() ==> (i < sa.len() ==> seq_lt(#[trigger] ob[k], sa[i])) && (j
            < sb.len() ==> seq_lt(ob[k], sb[j]))
}

pub proof fn lemma_merge_start(sa: Seq<Seq<char>>, sb: Seq<Seq<char>>)
    requires
        sorted_strict(sa),
        sorted_strict(sb),
    ensures
        merge_inv(sa, sb, 0, 0, seq![], seq![], seq![]),
{
    assert(sa.take(0) =~= Seq::<Seq<char>>::empty());
    assert(sb.take(0) =~= Seq::<Seq<char>>::empty());
}

/// Consuming the head of `sa` when it is below the head of `sb` (or `sb` is done).
pub proof fn lemma_merge_take_first(
    sa: Seq<Seq<char>>,
    sb: Seq<Seq<char>>,
    i: int,
    j: int,
    both: Seq<Seq<char>>,
    oa: Seq<Seq<char>>,
    ob: Seq<Seq<char>>,
)
    requires
        merge_inv(sa, sb, i, j, both, oa, ob),
        i < sa.len(),
        j < sb.len() ==> seq_lt(sa[i], sb[j]),
    ensures
        !sb.contains(sa[i]),
        merge_inv(sa, sb, i + 1, j, both, oa.push(sa[i]), ob),
{
    let x = sa[i];
    lemma_not_in_sorted_after(sa, sb, i, j);
    assert(sa.take(i + 1) =~= sa.take(i).push(x));
    let noa = oa.push(x);
    assert forall|k: int| 0 <= k < i + 1 && j < sb.len() implies seq_lt(#[trigger] sa[k], sb[j]) by {
    }
    assert forall|k: int| 0 <= k < j && i + 1 < sa.len() implies seq_lt(#[trigger] sb[k], sa[i + 1]) by {
        lemma_seq_lt_transitive(sb[k], sa[i], sa[i + 1]);
    }
    assert forall|k: int| 0 <= k < both.len() implies (i + 1 < sa.len() ==> seq_lt(
        #[trigger] both[k],
        sa[i + 1],
    )) && (j < sb.len() ==> seq_lt(both[k], sb[j])) by {
        if i + 1 < sa.len() {
            lemma_seq_lt_transitive(both[k], sa[i], sa[i + 1]);
        }
    }
    assert forall|k: int| 0 <= k < ob.len() implies (i + 1 < sa.len() ==> seq_lt(
        #[trigger] ob[k],
        sa[i + 1],
    )) && (j < sb.len() ==> seq_lt(ob[k], sb[j])) by {
        if i + 1 < sa.len() {
            lemma_seq_lt_transitive(ob[k], sa[i], sa[i + 1]);
        }
    }
    assert forall|k: int| 0 <= k < noa.len() implies (i + 1 < sa.len() ==> seq_lt(
        #[trigger] noa[k],
        sa[i + 1],
    )) && (j < sb.len() ==> seq_lt(noa[k], sb[j])) by {
        if k < oa.len() {
            assert(noa[k] == oa[k]);
            if i + 1 < sa.len() {
                lemma_seq_lt_transitive(oa[k], sa[i], sa[i + 1]);
            }
        } else {
            assert(noa[k] == x);
        }
    }
    assert forall|p: int, q: int| 0 <= p < q < noa.len() implies seq_lt(
        #[trigger] noa[p],
        #[trigger] noa[q],
    ) by {
        if q == oa.len() {
            assert(noa[p] == oa[p]);
        } else {
            assert(noa[p] == oa[p]);
            assert(noa[q] == oa[q]);
        }
    }
    assert forall|y: Seq<char>| #[trigger] noa.contains(y) <==> (sa.take(i + 1).contains(y)
        && !sb.contains(y)) by {
        lemma_push_contains(oa, x, y);
        lemma_push_contains(sa.take(i), x, y);
    }
    assert forall|y: Seq<char>| #[trigger] both.contains(y) <==> (sa.take(i + 1).contains(y)
        && sb.contains(y)) by {
        lemma_push_contains(sa.take(i), x, y);
    }
}

/// Consuming equal heads of both sequences.
pub proof fn lemma_merge_take_both(
    sa: Seq<Seq<char>>,
    sb: Seq<Seq<char>>,
    i: int,
    j: int,
    both: Seq<Seq<char>>,
    oa: Seq<Seq<char>>,
    ob: Seq<Seq<char>>,
)
    requires
        merge_inv(sa, sb, i, j, both, oa, ob),
        i < sa.len(),
        j < sb.len(),
        sa[i] == sb[j],
    ensures
        merge_inv(sa, sb, i + 1, j + 1, both.push(sa[i]), oa, ob),
{
    let x = sa[i];
    assert(sa.take(i + 1) =~= sa.take(i).push(x));
    assert(sb.take(j + 1) =~= sb.take(j).push(x));
    let nb = both.push(x);
    assert(sa.contains(x));
    assert(sb.contains(x));
    assert forall|k: int| 0 <= k < i + 1 && j + 1 < sb.len() implies seq_lt(
        #[trigger] sa[k],
        sb[j + 1],
    ) by {
        if k < i {
            lemma_seq_lt_transitive(sa[k], sb[j], sb[j + 1]);
        }
    }
    assert forall|k: int| 0 <= k < j + 1 && i + 1 < sa.len() implies seq_lt(
        #[trigger] sb[k],
        sa[i + 1],
    ) by {
        if k < j {
            lemma_seq_lt_transitive(sb[k], sa[i], sa[i + 1]);
        }
    }
    assert forall|k: int| 0 <= k < nb.len() implies (i + 1 < sa.len() ==> seq_lt(
        #[trigger] nb[k],
        sa[i + 1],
    )) && (j + 1 < sb.len() ==> seq_lt(nb[k], sb[j + 1])) by {
        if k < both.len() {
            assert(nb[k] == both[k]);
            if i + 1 < sa.len() {
                lemma_seq_lt_transitive(both[k], sa[i], sa[i + 1]);
            }
            if j + 1 < sb.len() {
                lemma_seq_lt_transitive(both[k], sb[j], sb[j + 1]);
            }
        } else {
            assert(nb[k] == x);
        }
    }
    assert forall|k: int| 0 <= k < oa.len() implies (i + 1 < sa.len() ==> seq_lt(
        #[trigger] oa[k],
        sa[i + 1],
    )) && (j + 1 < sb.len() ==> seq_lt(oa[k], sb[j + 1])) by {
        if i + 1 < sa.len() {
            lemma_seq_lt_transitive(oa[k], sa[i], sa[i + 1]);
        }
        if j + 1 < sb.len() {
            lemma_seq_lt_transitive(oa[k], sb[j], sb[j + 1]);
        }
    }
    assert forall|k: int| 0 <= k < ob.len() implies (i + 1 < sa.len() ==> seq_lt(
        #[trigger] ob[k],
        sa[i + 1],
    )) && (j + 1 < sb.len() ==> seq_lt(ob[k], sb[j + 1])) by {
        if i + 1 < sa.len() {
            lemma_seq_lt_transitive(ob[k], sa[i], sa[i + 1]);
        }
        if j + 1 < sb.len() {
            lemma_seq_lt_transitive(ob[k], sb[j], sb[j + 1]);
        }
    }
    assert forall|p: int, q: int| 0 <= p < q < nb.len() implies seq_lt(
        #[trigger] nb[p],
        #[trigger] nb[q],
    ) by {
        assert(nb[p] == both[p]);
        if q < both.len() {
            assert(nb[q] == both[q]);
        }
    }
    assert forall|y: Seq<char>| #[trigger] nb.contains(y) <==> (sa.take(i + 1).contains(y)
        && sb.contains(y)) by {
        lemma_push_contains(both, x, y);
        lemma_push_contains(sa.take(i), x, y);
    }
    assert forall|y: Seq<char>| #[trigger] nb.contains(y) <==> (sb.take(j + 1).contains(y)
        && sa.contains(y)) by {
        lemma_push_contains(both, x, y);
        lemma_push_contains(sb.take(j), x, y);
    }
    assert forall|y: Seq<char>| #[trigger] oa.contains(y) <==> (sa.take(i + 1).contains(y)
        && !sb.contains(y)) by {
        lemma_push_contains(sa.take(i), x, y);
    }
    assert forall|y: Seq<char>| #[trigger] ob.contains(y) <==> (sb.take(j + 1).contains(y)
        && !sa.contains(y)) by {
        lemma_push_contains(sb.take(j), x, y);
    }
}

/// `merge_inv` is symmetric in the two inputs.
pub proof fn lemma_merge_swap(
    sa: Seq<Seq<char>>,
    sb: Seq<Seq<char>>,
    i: int,
    j: int,
    both: Seq<Seq<char>>,
    oa: Seq<Seq<char>>,
    ob: Seq<Seq<char>>,
)
    requires
        merge_inv(sa, sb, i, j, both, oa, ob),
    ensures
        merge_inv(sb, sa, j, i, both, ob, oa),
{
}

/// Merges two strictly increasing key lists into the keys in both, only in
/// the first and only in the second.
pub fn merge_keys(ka: &Vec<Vec<char>>, kb: &Vec<Vec<char>>) -> (res: TreeDiff)
    requires
        sorted_strict(key_views(ka@)),
        sorted_strict(key_views(kb@)),
    ensures
        is_tree_diff(key_views(ka@).to_set(), key_views(kb@).to_set(), res),
{
    let ghost sa = key_views(ka@);
    let ghost sb = key_views(kb@);
    let na = ka.len();
    let nb = kb.len();
    let mut both: Vec<String> = Vec::new();
    let mut only_a: Vec<String> = Vec::new();
    let mut only_b: Vec<String> = Vec::new();
    let mut i: usize = 0;
    let mut j: usize = 0;
    proof {
        lemma_merge_start(sa, sb);
        assert(views(both@) =~= Seq::<Seq<char>>::empty());
        assert(views(only_a@) =~= Seq::<Seq<char>>::empty());
        assert(views(only_b@) =~= Seq::<Seq<char>>::empty());
    }
    while i < na || j < nb
        invariant
            sa == key_views(ka@),
            sb == key_views(kb@),
            na == sa.len(),
            nb == sb.len(),
            merge_inv(sa, sb, i as int, j as int, views(both@), views(only_a@), views(only_b@)),
        decreases na + nb - i - j,
    {
        let mut take_a = false;
        let mut take_b = false;
        if i < na && j < nb {
            match compare_chars(ka[i].as_slice(), kb[j].as_slice()) {
                Cmp::Less => {
                    take_a = true;
                },
                Cmp::Equal => {
                    take_a = true;
                    take_b = true;
                },
                Cmp::Greater => {
                    take_b = true;
                },
            }
        } else if i < na {
            take_a = true;
        } else {
            take_b = true;
        }
        if take_a && take_b {
            let s = string_from_chars(ka[i].as_slice());
            proof {
                lemma_merge_take_both(sa, sb, i as int, j as int, views(both@), views(only_a@), views(only_b@));
            }
            let ghost before = views(both@);
            both.push(s);
            assert(views(both@) =~= before.push(sa[i as int]));
            i += 1;
            j += 1;
        } else if take_a {
            let s = string_from_chars(ka[i].as_slice());
            proof {
                lemma_merge_take_first(sa, sb, i as int, j as int, views(both@), views(only_a@), views(only_b@));
            }
            let ghost before = views(only_a@);
            only_a.push(s);
            assert(views(only_a@) =~= before.push(sa[i as int]));
            i += 1;
        } else {
            let s = string_from_chars(kb[j].as_slice());
            proof {
                lemma_merge_swap(sa, sb, i as int, j as int, views(both@), views(only_a@), views(only_b@));
                lemma_merge_take_first(sb, sa, j as int, i as int, views(both@), views(only_b@), views(only_a@));
                lemma_merge_swap(sb, sa, j + 1, i as int, views(both@), views(only_b@).push(sb[j as int]), views(only_a@));
            }
            let ghost before = views(only_b@);
            only_b.push(s);
            assert(views(only_b@) =~= before.push(sb[j as int]));
            j += 1;
        }
    }
    proof {
        assert(sa.take(na as int) =~= sa);
        assert(sb.take(nb as int) =~= sb);
    }
    TreeDiff { in_both: both, only_in_a: only_a, only_in_b: only_b }
}

/// Compares two indexes: paths in both, only in `a`, only in `b`.
pub fn diff_trees(a: &TreeIndex, b: &TreeIndex) -> (res: TreeDiff)
    requires
        a.wf(),
        b.wf(),
    ensures
        is_tree_diff(a.files(), b.files(), res),
{
    let res = merge_keys(&a.abs_lookup.keys, &b.abs_lookup.keys);
    proof {
        assert(a.files() =~= a.file_seq().to_set());
        assert(b.files() =~= b.file_seq().to_set());
    }
    res
}

/// The head of one sorted sequence, smaller than the other's head and larger
/// than everything the other has passed, does not occur in the other.
pub proof fn lemma_not_in_sorted_after(sa: Seq<Seq<char>>, sb: Seq<Seq<char>>, i: int, j: int)
    requires
        sorted_strict(sb),
        0 <= i < sa.len(),
        0 <= j <= sb.len(),
        j < sb.len() ==> seq_lt(sa[i], sb[j]),
        forall|k: int| 0 <= k < j ==> seq_lt(#[trigger] sb[k], sa[i]),
    ensures
        !sb.contains(sa[i]),
{
    if sb.contains(sa[i]) {
        let k = sb.index_of(sa[i]);
        lemma_seq_lt_irreflexive(sa[i]);
        if k > j {
            lemma_seq_lt_transitive(sa[i], sb[j], sb[k]);
        }
    }
}

} // verus!
