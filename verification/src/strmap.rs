//! A map from text keys to values, kept as two parallel vectors with the keys
//! in strictly increasing lexicographic order. Iteration order is key order,
//! as for a `BTreeMap<String, V>`.
use vstd::prelude::*;
use crate::text::{
    compare_chars, lemma_seq_lt_irreflexive, lemma_seq_lt_transitive,
    seq_lt, sorted_strict, Cmp,
};

verus! {

/// Keys in strictly increasing order, each with its value at the same index.
pub struct StrMap<V> {
    pub keys: Vec<Vec<char>>,
    pub vals: Vec<V>,
}

/// The character views of a sequence of character vectors.
pub open spec fn key_views(ks: Seq<Vec<char>>) -> Seq<Seq<char>> {
    ks.map_values(|k: Vec<char>| k@)
}

/// A map to strings, read as a map to character sequences.
pub open spec fn text_map(m: Map<Seq<char>, String>) -> Map<Seq<char>, Seq<char>> {
    m.map_values(|s: String| s@)
}

/// Strict sortedness means no key occurs twice.
pub proof fn lemma_sorted_strict_distinct(s: Seq<Seq<char>>, i: int, j: int)
    requires
        sorted_strict(s),
        0 <= i < s.len(),
        0 <= j < s.len(),
        i != j,
    ensures
        s[i] != s[j],
{
    lemma_seq_lt_irreflexive(s[i]);
    if i < j {
        assert(seq_lt(s[i], s[j]));
    } else {
        assert(seq_lt(s[j], s[i]));
    }
}

impl<V> StrMap<V> {
    /// The keys, as character sequences.
    pub open spec fn key_seq(&self) -> Seq<Seq<char>> {
        key_views(self.keys@)
    }

    /// Well-formed: parallel vectors, keys strictly increasing.
    pub open spec fn wf(&self) -> bool {
        &&& self.keys@.len() == self.vals@.len()
        &&& sorted_strict(self.key_seq())
    }

    /// The map from keys to values.
    pub open spec fn view(&self) -> Map<Seq<char>, V> {
        Map::new(
            |k: Seq<char>| self.key_seq().contains(k),
            |k: Seq<char>| self.vals@[self.key_seq().index_of(k)],
        )
    }

    /// The value stored at index `i` is what the map gives for the key at `i`.
    pub proof fn lemma_view_at(&self, i: int)
        requires
            self.wf(),
            0 <= i < self.keys@.len(),
        ensures
            self@.contains_key(self.key_seq()[i]),
            self@[self.key_seq()[i]] == self.vals@[i],
    {
        let ks = self.key_seq();
        assert(ks.contains(ks[i]));
        let j = ks.index_of(ks[i]);
        if j != i {
            lemma_sorted_strict_distinct(ks, i, j);
        }
    }

    /// An empty map.
    pub fn new() -> (res: Self)
        ensures
            res.wf(),
            res.keys@.len() == 0,
            res@ == Map::<Seq<char>, V>::empty(),
    {
        let res = StrMap { keys: Vec::new(), vals: Vec::new() };
        assert(res@ =~= Map::<Seq<char>, V>::empty());
        res
    }

    /// Number of keys.
    pub fn len(&self) -> (res: usize)
        ensures
            res == self.keys@.len(),
    {
        self.keys.len()
    }

    /// Binary search: the index of `key`, or the position where it would go.
    pub fn find(&self, key: &[char]) -> (res: Result<usize, usize>)
        requires
            self.wf(),
        ensures
            match res {
                Ok(i) => i < self.keys@.len() && self.key_seq()[i as int] == key@,
                Err(p) => {
                    &&& p <= self.keys@.len()
                    &&& forall|i: int| 0 <= i < p ==> seq_lt(#[trigger] self.key_seq()[i], key@)
                    &&& forall|i: int|
                        p <= i < self.keys@.len() ==> seq_lt(key@, #[trigger] self.key_seq()[i])
                },
            },
    {
        let ghost ks = self.key_seq();
        let mut lo: usize = 0;
        let mut hi: usize = self.keys.len();
        while lo < hi
            invariant
                self.wf(),
                ks == self.key_seq(),
                lo <= hi <= self.keys@.len(),
                forall|i: int| 0 <= i < lo ==> seq_lt(#[trigger] ks[i], key@),
                forall|i: int| hi <= i < self.keys@.len() ==> seq_lt(key@, #[trigger] ks[i]),
            decreases hi - lo,
        {
            let mid = lo + (hi - lo) / 2;
            assert(ks[mid as int] == self.keys@[mid as int]@);
            match compare_chars(key, self.keys[mid].as_slice()) {
                Cmp::Equal => {
                    return Ok(mid);
                },
                Cmp::Less => {
                    assert forall|i: int| mid <= i < self.keys@.len() implies seq_lt(
                        key@,
                        #[trigger] ks[i],
                    ) by {
                        if i > mid {
                            lemma_seq_lt_transitive(key@, ks[mid as int], ks[i]);
                        }
                    }
                    hi = mid;
                },
                Cmp::Greater => {
                    assert forall|i: int| 0 <= i <= mid implies seq_lt(#[trigger] ks[i], key@) by {
                        if i < mid {
                            lemma_seq_lt_transitive(ks[i], ks[mid as int], key@);
                        }
                    }
                    lo = mid + 1;
                },
            }
        }
        Err(lo)
    }

    /// Inserts `val` under `key`, replacing any value already there.
    pub fn insert(&mut self, key: Vec<char>, val: V)
        requires
            old(self).wf(),
        ensures
            final(self).wf(),
            final(self)@ == old(self)@.insert(key@, val),
            old(self).key_seq().contains(key@) ==> final(self).key_seq() == old(self).key_seq(),
            !old(self).key_seq().contains(key@) ==> final(self).keys@.len() == old(
                self,
            ).keys@.len() + 1,
    {
        let ghost ks = self.key_seq();
        let ghost k = key@;
        let ghost old_map = self@;
        match self.find(key.as_slice()) {
            Ok(i) => {
                self.vals.set(i, val);
                assert(self.key_seq() == ks);
                assert forall|q: Seq<char>| #[trigger] self@.contains_key(q) == old_map.insert(
                    k,
                    val,
                ).contains_key(q) by {}
                assert forall|q: Seq<char>| self@.contains_key(q) implies #[trigger] self@[q]
                    == old_map.insert(k, val)[q] by {
                    let j = ks.index_of(q);
                    assert(ks.contains(q));
                    if q == k {
                        if j != i {
                            lemma_sorted_strict_distinct(ks, i as int, j);
                        }
                    } else {
                        assert(j != i);
                    }
                }
                assert(self@ =~= old_map.insert(k, val));
            },
            Err(p) => {
                self.keys.insert(p, key);
                self.vals.insert(p, val);
                let ghost nks = self.key_seq();
                assert(nks =~= ks.insert(p as int, k));
                assert(!ks.contains(k)) by {
                    if ks.contains(k) {
                        let j = ks.index_of(k);
                        lemma_seq_lt_irreflexive(k);
                    }
                }
                assert forall|a: int, b: int| 0 <= a < b < nks.len() implies seq_lt(
                    #[trigger] nks[a],
                    #[trigger] nks[b],
                ) by {
                    if a < p && b < p {
                    } else if a < p && b == p {
                    } else if a < p && b > p {
                        lemma_seq_lt_transitive(nks[a], k, nks[b]);
                    } else if a == p {
                    } else {
                    }
                }
                assert forall|q: Seq<char>| #[trigger] self@.contains_key(q) == old_map.insert(
                    k,
                    val,
                ).contains_key(q) by {
                    if q == k {
                        assert(nks[p as int] == k);
                    } else if ks.contains(q) {
                        let j = ks.index_of(q);
                        if j < p {
                            assert(nks[j] == q);
                        } else {
                            assert(nks[j + 1] == q);
                        }
                    } else if nks.contains(q) {
                        let j = nks.index_of(q);
                        if j < p {
                            assert(ks[j] == q);
                        } else if j > p {
                            assert(ks[j - 1] == q);
                        }
                    }
                }
                assert forall|q: Seq<char>| self@.contains_key(q) implies #[trigger] self@[q]
                    == old_map.insert(k, val)[q] by {
                    let j = nks.index_of(q);
                    if q == k {
                        if j != p {
                            lemma_sorted_strict_distinct(nks, p as int, j);
                        }
                    } else {
                        let oj = ks.index_of(q);
                        assert(ks.contains(q)) by {
                            if j < p {
                                assert(ks[j] == q);
                            } else {
                                assert(j != p);
                                assert(ks[j - 1] == q);
                            }
                        }
                        if oj < p {
                            assert(nks[oj] == q);
                            if j != oj {
                                lemma_sorted_strict_distinct(nks, oj, j);
                            }
                        } else {
                            assert(nks[oj + 1] == q);
                            if j != oj + 1 {
                                lemma_sorted_strict_distinct(nks, oj + 1, j);
                            }
                        }
                    }
                }
                assert(self@ =~= old_map.insert(k, val));
            },
        }
    }

    /// Mutable access to the value at index `i`; the keys stay as they are.
    pub fn value_mut(&mut self, i: usize) -> (r: &mut V)
        requires
            i < old(self).vals@.len(),
        ensures
            *r == old(self).vals@[i as int],
            final(self).keys@ == old(self).keys@,
            final(self).vals@ == old(self).vals@.update(i as int, *final(r)),
    {
        &mut self.vals[i]
    }

    /// Replacing the value at index `i` replaces the value of the key at `i`.
    pub proof fn lemma_update_at(&self, other: &Self, i: int)
        requires
            self.wf(),
            0 <= i < self.keys@.len(),
            other.keys@ == self.keys@,
            other.vals@ == self.vals@.update(i, other.vals@[i]),
        ensures
            other.wf(),
            other@ == self@.insert(self.key_seq()[i], other.vals@[i]),
    {
        let ks = self.key_seq();
        assert(other.key_seq() == ks);
        assert forall|q: Seq<char>| #[trigger] other@.contains_key(q) == self@.insert(
            ks[i],
            other.vals@[i],
        ).contains_key(q) by {}
        assert forall|q: Seq<char>| other@.contains_key(q) implies #[trigger] other@[q]
            == self@.insert(ks[i], other.vals@[i])[q] by {
            let j = ks.index_of(q);
            if q == ks[i] {
                if j != i {
                    lemma_sorted_strict_distinct(ks, i, j);
                }
            } else {
                assert(j != i);
            }
        }
        assert(other@ =~= self@.insert(ks[i], other.vals@[i]));
    }

    /// The value stored under `key`, if any.
    pub fn get(&self, key: &[char]) -> (res: Option<&V>)
        requires
            self.wf(),
        ensures
            match res {
                Some(v) => self@.contains_key(key@) && self@[key@] == *v,
                None => !self@.contains_key(key@),
            },
    {
        match self.find(key) {
            Ok(i) => {
                proof {
                    self.lemma_view_at(i as int);
                }
                Some(&self.vals[i])
            },
            Err(p) => {
                proof {
                    if self.key_seq().contains(key@) {
                        let j = self.key_seq().index_of(key@);
                        lemma_seq_lt_irreflexive(key@);
                    }
                }
                None
            },
        }
    }
}

} // verus!
