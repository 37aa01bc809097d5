//! Rename detection between the files found only in one tree and the files
//! found only in the other: MinHash signatures over token shingles, an LSH
//! index over bands of the signatures, and exact scores for the candidates
//! the index proposes.
use vstd::prelude::*;
use std::collections::HashMap;
use vstd::wrapping::u64_specs::{wrapping_add, wrapping_mul};
use crate::classifier::{classify, kind_of, opt_bytes, FileKind, FileProbe};
use crate::code_diff::{char_similarity, text_similarity};
use crate::paths::{file_name, file_name_of, forward_slashes, rel_to_str};
use crate::ratio::{lemma_le_trans, Ratio};
use crate::text::{chars_of, is_alphanumeric, is_whitespace, lossy_utf8, string_from_chars,
    unicode_alphanumeric, unicode_whitespace, utf8_lossy, views};

verus! {

// ── tokens ──────────────────────────────────────────────────────────────────

/// Characters that make up words: alphanumeric (Unicode) or `_`.
pub open spec fn word_char(c: char) -> bool {
    unicode_alphanumeric(c) || c == '_'
}

/// Tokens of `s` after a word `cur` already begun: maximal runs of word
/// characters, and each other character that is not whitespace on its own.
pub open spec fn tokens_from(s: Seq<char>, cur: Seq<char>) -> Seq<Seq<char>>
    decreases s.len(),
{
    if s.len() == 0 {
        if cur.len() > 0 {
            seq![cur]
        } else {
            seq![]
        }
    } else if word_char(s[0]) {
        tokens_from(s.drop_first(), cur.push(s[0]))
    } else {
        let flushed = if cur.len() > 0 {
            seq![cur]
        } else {
            Seq::<Seq<char>>::empty()
        };
        if unicode_whitespace(s[0]) {
            flushed + tokens_from(s.drop_first(), seq![])
        } else {
            flushed + seq![seq![s[0]]] + tokens_from(s.drop_first(), seq![])
        }
    }
}

/// The tokens of `s`: words (`\w+`) and single other non-space characters.
pub open spec fn tokens(s: Seq<char>) -> Seq<Seq<char>> {
    tokens_from(s, seq![])
}

/// The character views of a sequence of character vectors.
pub open spec fn char_seqs(v: Seq<Vec<char>>) -> Seq<Seq<char>> {
    v.map_values(|t: Vec<char>| t@)
}

/// Splits `text` into tokens.
pub fn tokenize(text: &[char]) -> (res: Vec<Vec<char>>)
    ensures
        char_seqs(res@) == tokens(text@),
{
    let mut out: Vec<Vec<char>> = Vec::new();
    let mut cur: Vec<char> = Vec::new();
    let mut i: usize = 0;
    assert(text@.skip(0) =~= text@);
    assert(char_seqs(out@) + tokens_from(text@, seq![]) =~= tokens(text@));
    while i < text.len()
        invariant
            i <= text.len(),
            char_seqs(out@) + tokens_from(text@.skip(i as int), cur@) == tokens(text@),
        decreases text.len() - i,
    {
        let ghost rest = text@.skip(i as int);
        assert(rest.drop_first() =~= text@.skip(i + 1));
        assert(rest[0] == text@[i as int]);
        let c = text[i];
        if is_alphanumeric(c) || c == '_' {
            cur.push(c);
        } else {
            let ghost before = char_seqs(out@);
            let ghost word = cur@;
            if cur.len() > 0 {
                out.push(cur);
                cur = Vec::new();
                assert(char_seqs(out@) =~= before.push(word));
            } else {
                assert(char_seqs(out@) =~= before);
            }
            let ghost mid = char_seqs(out@);
            let ghost flushed = if word.len() > 0 {
                seq![word]
            } else {
                Seq::<Seq<char>>::empty()
            };
            assert(mid =~= before + flushed);
            assert(cur@ =~= Seq::<char>::empty());
            assert(tokens_from(rest, word) == flushed + if unicode_whitespace(c) {
                tokens_from(rest.drop_first(), seq![])
            } else {
                seq![seq![c]] + tokens_from(rest.drop_first(), seq![])
            }) by {
                if !unicode_whitespace(c) {
                    assert(flushed + seq![seq![c]] + tokens_from(rest.drop_first(), seq![]) =~= flushed
                        + (seq![seq![c]] + tokens_from(rest.drop_first(), seq![])));
                }
            }
            if !is_whitespace(c) {
                let mut single: Vec<char> = Vec::new();
                single.push(c);
                out.push(single);
                assert(char_seqs(out@) =~= mid.push(seq![c]));
                assert(char_seqs(out@) + tokens_from(text@.skip(i + 1), cur@) =~= before + (
                flushed + seq![seq![c]] + tokens_from(rest.drop_first(), seq![])));
            } else {
                assert(char_seqs(out@) + tokens_from(text@.skip(i + 1), cur@) =~= before + (
                flushed + tokens_from(rest.drop_first(), seq![])));
            }
        }
        i += 1;
    }
    let ghost before = char_seqs(out@);
    assert(text@.skip(i as int) =~= Seq::<char>::empty());
    if cur.len() > 0 {
        let ghost word = cur@;
        out.push(cur);
        assert(char_seqs(out@) =~= before.push(word));
        assert(before.push(word) =~= before + seq![word]);
    } else {
        assert(before + Seq::<Seq<char>>::empty() =~= before);
    }
    out
}

// ── shingles ────────────────────────────────────────────────────────────────

/// Tokens joined by single spaces.
pub open spec fn joined(ts: Seq<Seq<char>>) -> Seq<char>
    decreases ts.len(),
{
    if ts.len() == 0 {
        seq![]
    } else if ts.len() == 1 {
        ts[0]
    } else {
        joined(ts.drop_last()) + seq![' '] + ts.last()
    }
}

/// The shingles of a token sequence: every run of five consecutive tokens,
/// joined; all tokens joined when there are fewer than five; none when there
/// are no tokens.
pub open spec fn shingles(ts: Seq<Seq<char>>) -> Seq<Seq<char>> {
    if ts.len() == 0 {
        seq![]
    } else if ts.len() < 5 {
        seq![joined(ts)]
    } else {
        Seq::new((ts.len() - 4) as nat, |i: int| joined(ts.subrange(i, i + 5)))
    }
}

/// The UTF-8 bytes of each shingle of `text`.
pub open spec fn shingle_bytes(text: Seq<char>) -> Seq<Seq<u8>> {
    shingles(tokens(text)).map_values(|s: Seq<char>| vstd::utf8::encode_utf8(s))
}

/// Joins `ts[start..end]` with single spaces.
fn join_tokens(ts: &Vec<Vec<char>>, start: usize, end: usize) -> (res: Vec<char>)
    requires
        start < end <= ts@.len(),
    ensures
        res@ == joined(char_seqs(ts@).subrange(start as int, end as int)),
{
    let ghost cs = char_seqs(ts@);
    let mut res: Vec<char> = Vec::new();
    let mut k = start;
    while k < end
        invariant
            cs == char_seqs(ts@),
            start <= k <= end <= ts@.len(),
            k > start ==> res@ == joined(cs.subrange(start as int, k as int)),
            k == start ==> res@.len() == 0,
        decreases end - k,
    {
        let ghost before = res@;
        if k > start {
            res.push(' ');
        }
        let t = &ts[k];
        for m in 0..t.len()
            invariant
                k > start ==> res@ == before.push(' ') + t@.take(m as int),
                k == start ==> res@ == before + t@.take(m as int),
        {
            res.push(t[m]);
            assert(t@.take(m + 1) =~= t@.take(m as int).push(t@[m as int]));
        }
        assert(t@.take(t@.len() as int) =~= t@);
        let ghost sub = cs.subrange(start as int, k + 1);
        assert(sub.drop_last() =~= cs.subrange(start as int, k as int));
        assert(sub.last() == t@);
        if k > start {
            assert(res@ =~= joined(sub.drop_last()) + seq![' '] + sub.last());
        } else {
            assert(sub.len() == 1);
            assert(res@ =~= t@);
        }
        k += 1;
    }
    res
}

/// The shingles of the tokens `ts`.
fn shingle_list(ts: &Vec<Vec<char>>) -> (res: Vec<String>)
    ensures
        views(res@) == shingles(char_seqs(ts@)),
{
    let ghost cs = char_seqs(ts@);
    let ghost want = shingles(cs);
    let mut res: Vec<String> = Vec::new();
    let n = ts.len();
    if n == 0 {
        assert(views(res@) =~= want);
        return res;
    }
    if n < 5 {
        let j = join_tokens(ts, 0, n);
        assert(cs.subrange(0, n as int) =~= cs);
        res.push(string_from_chars(j.as_slice()));
        assert(views(res@) =~= want);
        return res;
    }
    for i in 0..n - 4
        invariant
            n == ts@.len(),
            n >= 5,
            cs == char_seqs(ts@),
            want == shingles(cs),
            views(res@) == want.take(i as int),
    {
        let j = join_tokens(ts, i, i + 5);
        let ghost before = views(res@);
        res.push(string_from_chars(j.as_slice()));
        assert(views(res@) =~= before.push(j@));
        assert(want.take(i + 1) =~= want.take(i as int).push(want[i as int]));
    }
    assert(want.take((n - 4) as int) =~= want);
    res
}

// ── MinHash ─────────────────────────────────────────────────────────────────

/// FNV-1a over `bytes`, from a start value that depends on `perm`.
pub open spec fn perm_hash(bytes: Seq<u8>, perm: u64) -> u64
    decreases bytes.len(),
{
    if bytes.len() == 0 {
        0xcbf29ce484222325u64 ^ wrapping_mul(perm, 0x9e3779b97f4a7c15u64)
    } else {
        wrapping_mul(perm_hash(bytes.drop_last(), perm) ^ (bytes.last() as u64), 0x100000001b3u64)
    }
}

/// The least hash of any of `shs` under permutation `perm`; `u64::MAX` when
/// there are none.
pub open spec fn min_hash(shs: Seq<Seq<u8>>, perm: u64) -> u64
    decreases shs.len(),
{
    if shs.len() == 0 {
        u64::MAX
    } else {
        let m = min_hash(shs.drop_last(), perm);
        let h = perm_hash(shs.last(), perm);
        if h < m {
            h
        } else {
            m
        }
    }
}

/// The 128-value MinHash signature of the shingles `shs`.
pub open spec fn signature(shs: Seq<Seq<u8>>) -> Seq<u64> {
    Seq::new(128, |p: int| min_hash(shs, p as u64))
}

/// The MinHash signature of a text.
pub open spec fn text_signature(text: Seq<char>) -> Seq<u64> {
    signature(shingle_bytes(text))
}

/// `perm_hash`.
fn hash_for_perm(bytes: &[u8], perm: u64) -> (res: u64)
    ensures
        res == perm_hash(bytes@, perm),
{
    let mut h: u64 = 0xcbf29ce484222325u64 ^ perm.wrapping_mul(0x9e3779b97f4a7c15u64);
    for i in 0..bytes.len()
        invariant
            h == perm_hash(bytes@.take(i as int), perm),
    {
        assert(bytes@.take(i + 1).drop_last() =~= bytes@.take(i as int));
        h = h ^ (bytes[i] as u64);
        h = h.wrapping_mul(0x100000001b3u64);
    }
    assert(bytes@.take(bytes@.len() as int) =~= bytes@);
    h
}

/// The MinHash signature of `text`.
pub fn compute_signature(text: &str) -> (res: Vec<u64>)
    ensures
        res@ == text_signature(text@),
{
    let cs = crate::text::chars_of(text);
    let toks = tokenize(cs.as_slice());
    let shs = shingle_list(&toks);
    let ghost sv = shingle_bytes(text@);
    assert(sv =~= views(shs@).map_values(|x: Seq<char>| vstd::utf8::encode_utf8(x)));
    let mut sig: Vec<u64> = Vec::new();
    for p in 0..128usize
        invariant
            sig@.len() == p,
            forall|q: int| 0 <= q < p ==> #[trigger] sig@[q] == u64::MAX,
    {
        sig.push(u64::MAX);
    }
    assert(sv.take(0) =~= Seq::<Seq<u8>>::empty());
    for s in 0..shs.len()
        invariant
            sv == views(shs@).map_values(|x: Seq<char>| vstd::utf8::encode_utf8(x)),
            sv.len() == shs@.len(),
            sig@.len() == 128,
            forall|q: int| 0 <= q < 128 ==> #[trigger] sig@[q] == min_hash(sv.take(s as int), q as u64),
    {
        assert(sv.take(s + 1).drop_last() =~= sv.take(s as int));
        let bytes = shs[s].as_str().as_bytes();
        assert(bytes@ == sv[s as int]);
        for p in 0..128usize
            invariant
                s < sv.len(),
                bytes@ == sv[s as int],
                sig@.len() == 128,
                forall|q: int| 0 <= q < p ==> #[trigger] sig@[q] == min_hash(sv.take(s + 1), q as u64),
                forall|q: int| p <= q < 128 ==> #[trigger] sig@[q] == min_hash(sv.take(s as int), q as u64),
        {
            let h = hash_for_perm(bytes, p as u64);
            if h < sig[p] {
                sig.set(p, h);
            }
            assert(sv.take(s + 1).drop_last() =~= sv.take(s as int));
        }
    }
    assert(sv.take(sv.len() as int) =~= sv);
    assert(sig@ =~= text_signature(text@));
    sig
}

// ── bands ───────────────────────────────────────────────────────────────────

/// One mixing step of the band hash.
pub open spec fn band_mix(h: u64, v: u64) -> u64 {
    let t = wrapping_mul(wrapping_add(h, v), 0x100000001b3u64);
    t ^ (t >> 33u64)
}

/// The bucket key of band `band`, which covers signature values `2·band` and
/// `2·band + 1`.
pub open spec fn band_key(sig: Seq<u64>, band: int) -> u64 {
    band_mix(band_mix((band as u64) ^ 0xdeadbeefcafe1234u64, sig[2 * band]), sig[2 * band + 1])
}

/// Two signatures fall into the same bucket of at least one of the 64 bands.
pub open spec fn shares_band(x: Seq<u64>, y: Seq<u64>) -> bool {
    exists|band: int| 0 <= band < 64 && #[trigger] band_key(x, band) == band_key(y, band)
}

/// The 64 bucket keys of a signature.
fn band_keys(sig: &Vec<u64>) -> (res: Vec<u64>)
    requires
        sig@.len() == 128,
    ensures
        res@.len() == 64,
        forall|b: int| 0 <= b < 64 ==> #[trigger] res@[b] == band_key(sig@, b),
{
    let mut res: Vec<u64> = Vec::new();
    for b in 0..64usize
        invariant
            sig@.len() == 128,
            res@.len() == b,
            forall|c: int| 0 <= c < b ==> #[trigger] res@[c] == band_key(sig@, c),
    {
        let mut h: u64 = (b as u64) ^ 0xdeadbeefcafe1234u64;
        h = h.wrapping_add(sig[2 * b]);
        h = h.wrapping_mul(0x100000001b3u64);
        h = h ^ (h >> 33u64);
        h = h.wrapping_add(sig[2 * b + 1]);
        h = h.wrapping_mul(0x100000001b3u64);
        h = h ^ (h >> 33u64);
        res.push(h);
    }
    res
}

/// Number of the first `n` positions where two signatures agree.
pub open spec fn agreement_upto(x: Seq<u64>, y: Seq<u64>, n: int) -> nat
    decreases n,
{
    if n <= 0 {
        0
    } else {
        agreement_upto(x, y, n - 1) + if x[n - 1] == y[n - 1] {
            1nat
        } else {
            0nat
        }
    }
}

/// Number of the 128 permutations on which two signatures agree: 128 times
/// the estimated Jaccard similarity of the shingle sets.
pub open spec fn agreement(x: Seq<u64>, y: Seq<u64>) -> nat {
    agreement_upto(x, y, 128)
}

/// `agreement`.
fn count_agreement(x: &Vec<u64>, y: &Vec<u64>) -> (res: u64)
    requires
        x@.len() == 128,
        y@.len() == 128,
    ensures
        res == agreement(x@, y@),
        res <= 128,
{
    let mut n: u64 = 0;
    for p in 0..128usize
        invariant
            x@.len() == 128,
            y@.len() == 128,
            n == agreement_upto(x@, y@, p as int),
            n <= p,
    {
        if x[p] == y[p] {
            n = n + 1;
        }
    }
    n
}

// ── LSH index ───────────────────────────────────────────────────────────────

/// An element is in `s.push(x)` exactly when it is in `s` or is `x`.
pub proof fn lemma_push_has<A>(s: Seq<A>, x: A, y: A)
    ensures
        s.push(x).contains(y) <==> (s.contains(y) || y == x),
{
    if s.contains(y) {
        let k = s.index_of(y);
        assert(s.push(x)[k] == y);
    }
    if y == x {
        assert(s.push(x)[s.len() as int] == x);
    }
    if s.push(x).contains(y) {
        let k = s.push(x).index_of(y);
        if k < s.len() {
            assert(s[k] == y);
        }
    }
}

/// The entries under key `k` of one band's map; none when the key is absent.
pub open spec fn band_bucket(m: Map<u64, Vec<usize>>, k: u64) -> Seq<usize> {
    if m.contains_key(k) {
        m[k]@
    } else {
        seq![]
    }
}

/// Every entry listed under a key has that key in band `b`, and is one of the first `n`.
pub open spec fn band_sound(m: Map<u64, Vec<usize>>, keys: Seq<Seq<u64>>, b: int, n: int) -> bool {
    forall|k: u64, t: int|
        0 <= t < band_bucket(m, k).len() ==> #[trigger] band_bucket(m, k)[t] < n && keys[band_bucket(
            m,
            k,
        )[t] as int][b] == k
}

/// Each of the first `n` entries is listed under its key of band `b`.
pub open spec fn band_complete(m: Map<u64, Vec<usize>>, keys: Seq<Seq<u64>>, b: int, n: int) -> bool {
    forall|e: int| 0 <= e < n ==> #[trigger] band_bucket(m, keys[e][b]).contains(e as usize)
}

/// The band keys of each entry.
pub open spec fn key_rows(v: Seq<Vec<u64>>) -> Seq<Seq<u64>> {
    v.map_values(|k: Vec<u64>| k@)
}

/// One map per band from bucket key to the entries with that key.
fn build_index(keys: &Vec<Vec<u64>>) -> (res: Vec<HashMap<u64, Vec<usize>>>)
    requires
        forall|e: int| 0 <= e < keys@.len() ==> (#[trigger] keys@[e])@.len() == 64,
    ensures
        res@.len() == 64,
        forall|b: int| 0 <= b < 64 ==> band_sound((#[trigger] res@[b])@, key_rows(keys@), b, keys@.len() as int),
        forall|b: int| 0 <= b < 64 ==> band_complete((#[trigger] res@[b])@, key_rows(keys@), b, keys@.len() as int),
{
    broadcast use vstd::std_specs::hash::group_hash_axioms;
    let ghost kr = key_rows(keys@);
    let n = keys.len();
    let mut index: Vec<HashMap<u64, Vec<usize>>> = Vec::new();
    for b in 0..64usize
        invariant
            n == keys@.len(),
            kr == key_rows(keys@),
            forall|e: int| 0 <= e < keys@.len() ==> (#[trigger] keys@[e])@.len() == 64,
            index@.len() == b,
            forall|c: int| 0 <= c < b ==> band_sound((#[trigger] index@[c])@, kr, c, n as int),
            forall|c: int| 0 <= c < b ==> band_complete((#[trigger] index@[c])@, kr, c, n as int),
    {
        let mut m: HashMap<u64, Vec<usize>> = HashMap::new();
        for e in 0..n
            invariant
                n == keys@.len(),
                kr == key_rows(keys@),
                b < 64,
                forall|e2: int| 0 <= e2 < keys@.len() ==> (#[trigger] keys@[e2])@.len() == 64,
                band_sound(m@, kr, b as int, e as int),
                band_complete(m@, kr, b as int, e as int),
        {
            let k = keys[e][b];
            assert(kr[e as int][b as int] == k);
            let ghost old_m = m@;
            let mut v = match m.remove(&k) {
                Some(v) => v,
                None => Vec::new(),
            };
            assert(v@ == band_bucket(old_m, k));
            v.push(e);
            m.insert(k, v);
            assert(m@ == old_m.insert(k, v));
            assert forall|k2: u64| #[trigger] band_bucket(m@, k2) == if k2 == k {
                band_bucket(old_m, k).push(e)
            } else {
                band_bucket(old_m, k2)
            } by {}
            assert forall|k2: u64, t: int| 0 <= t < band_bucket(m@, k2).len() implies #[trigger] band_bucket(
                m@,
                k2,
            )[t] < e + 1 && kr[band_bucket(m@, k2)[t] as int][b as int] == k2 by {
                if k2 == k && t == band_bucket(old_m, k).len() {
                } else {
                    assert(band_bucket(m@, k2)[t] == band_bucket(old_m, k2)[t]);
                }
            }
            assert forall|e2: int| 0 <= e2 < e + 1 implies #[trigger] band_bucket(m@, kr[e2][b as int]).contains(
                e2 as usize,
            ) by {
                let k2 = kr[e2][b as int];
                assert(band_bucket(m@, k2) == if k2 == k {
                    band_bucket(old_m, k).push(e)
                } else {
                    band_bucket(old_m, k2)
                });
                if e2 == e {
                    lemma_push_has(band_bucket(old_m, k), e, e2 as usize);
                } else {
                    assert(band_bucket(old_m, kr[e2][b as int]).contains(e2 as usize));
                    lemma_push_has(band_bucket(old_m, k), e, e2 as usize);
                }
            }
        }
        index.push(m);
    }
    index
}

/// The entries that share a bucket with the query keys in some band.
fn query_index(query: &Vec<u64>, index: &Vec<HashMap<u64, Vec<usize>>>, keys: &Vec<Vec<u64>>) -> (res: Vec<usize>)
    requires
        query@.len() == 64,
        index@.len() == 64,
        forall|e: int| 0 <= e < keys@.len() ==> (#[trigger] keys@[e])@.len() == 64,
        forall|b: int| 0 <= b < 64 ==> band_sound((#[trigger] index@[b])@, key_rows(keys@), b, keys@.len() as int),
        forall|b: int| 0 <= b < 64 ==> band_complete((#[trigger] index@[b])@, key_rows(keys@), b, keys@.len() as int),
    ensures
        forall|t: int| 0 <= t < res@.len() ==> #[trigger] res@[t] < keys@.len(),
        forall|e: int| 0 <= e < keys@.len() ==> (#[trigger] res@.contains(e as usize) <==> exists|b: int|
            0 <= b < 64 && #[trigger] query@[b] == keys@[e]@[b]),
{
    broadcast use vstd::std_specs::hash::group_hash_axioms;
    let ghost kr = key_rows(keys@);
    let n = keys.len();
    let mut seen: Vec<bool> = Vec::new();
    for e in 0..n
        invariant
            seen@.len() == e,
            forall|x: int| 0 <= x < e ==> !#[trigger] seen@[x],
    {
        seen.push(false);
    }
    let mut touched: Vec<usize> = Vec::new();
    for b in 0..64usize
        invariant
            n == keys@.len(),
            kr == key_rows(keys@),
            query@.len() == 64,
            index@.len() == 64,
            forall|e: int| 0 <= e < keys@.len() ==> (#[trigger] keys@[e])@.len() == 64,
            forall|c: int| 0 <= c < 64 ==> band_sound((#[trigger] index@[c])@, kr, c, n as int),
            forall|c: int| 0 <= c < 64 ==> band_complete((#[trigger] index@[c])@, kr, c, n as int),
            seen@.len() == n,
            forall|t: int| 0 <= t < touched@.len() ==> #[trigger] touched@[t] < n,
            forall|e: int| 0 <= e < n ==> (#[trigger] seen@[e] <==> touched@.contains(e as usize)),
            forall|e: int| 0 <= e < n ==> (#[trigger] touched@.contains(e as usize) <==> exists|c: int|
                0 <= c < b && #[trigger] query@[c] == keys@[e]@[c]),
    {
        let k = query[b];
        let ghost m = index@[b as int]@;
        match index[b].get(&k) {
            Some(v) => {
                assert(v@ == band_bucket(m, k));
                let ghost before = touched@;
                for t in 0..v.len()
                    invariant
                        n == keys@.len(),
                        kr == key_rows(keys@),
                        b < 64,
                        query@.len() == 64,
                        v@ == band_bucket(m, k),
                        m == index@[b as int]@,
                        k == query@[b as int],
                        band_sound(m, kr, b as int, n as int),
                        forall|e: int| 0 <= e < keys@.len() ==> (#[trigger] keys@[e])@.len() == 64,
                        seen@.len() == n,
                        forall|t2: int| 0 <= t2 < touched@.len() ==> #[trigger] touched@[t2] < n,
                        forall|e: int| 0 <= e < n ==> (#[trigger] seen@[e] <==> touched@.contains(e as usize)),
                        forall|e: int| 0 <= e < n ==> (#[trigger] touched@.contains(e as usize) <==> (
                        before.contains(e as usize) || v@.take(t as int).contains(e as usize))),
                {
                    let e = v[t];
                    assert(band_bucket(m, k)[t as int] == e);
                    assert(v@.take(t + 1) =~= v@.take(t as int).push(e));
                    let ghost tb = touched@;
                    let ghost sb = seen@;
                    if !seen[e] {
                        seen.set(e, true);
                        touched.push(e);
                    }
                    proof {
                        assert forall|x: int| 0 <= x < n implies (#[trigger] touched@.contains(x as usize)
                            <==> (tb.contains(x as usize) || x == e)) by {
                            if !sb[e as int] {
                                lemma_push_has(tb, e, x as usize);
                            } else if x == e {
                                assert(sb[x]);
                            }
                        }
                        assert forall|x: int| 0 <= x < n implies (#[trigger] seen@[x] <==> touched@.contains(
                            x as usize,
                        )) by {
                            if x != e {
                                assert(seen@[x] == sb[x]);
                                assert(sb[x] <==> tb.contains(x as usize));
                            }
                        }
                        assert forall|x: int| 0 <= x < n implies (#[trigger] touched@.contains(x as usize)
                            <==> (before.contains(x as usize) || v@.take(t + 1).contains(x as usize))) by {
                            lemma_push_has(v@.take(t as int), e, x as usize);
                            assert(tb.contains(x as usize) <==> (before.contains(x as usize) || v@.take(
                                t as int,
                            ).contains(x as usize)));
                        }
                        assert forall|t2: int| 0 <= t2 < touched@.len() implies #[trigger] touched@[t2] < n by {
                            if t2 < tb.len() {
                                assert(touched@[t2] == tb[t2]);
                            }
                        }
                    }
                }
                assert(v@.take(v@.len() as int) =~= v@);
                assert forall|e: int| 0 <= e < n implies (#[trigger] touched@.contains(e as usize) <==> exists|c: int|
                    0 <= c < b + 1 && #[trigger] query@[c] == keys@[e]@[c]) by {
                    if v@.contains(e as usize) {
                        let q = v@.index_of(e as usize);
                        assert(kr[band_bucket(m, k)[q] as int][b as int] == k);
                        assert(keys@[e]@[b as int] == query@[b as int]);
                    }
                    if query@[b as int] == keys@[e]@[b as int] {
                        assert(kr[e][b as int] == k);
                        assert(band_bucket(m, kr[e][b as int]).contains(e as usize));
                    }
                }
            },
            None => {
                assert forall|e: int| 0 <= e < n implies (#[trigger] touched@.contains(e as usize) <==> exists|c: int|
                    0 <= c < b + 1 && #[trigger] query@[c] == keys@[e]@[c]) by {
                    if query@[b as int] == keys@[e]@[b as int] {
                        assert(kr[e][b as int] == k);
                        assert(band_bucket(m, kr[e][b as int]).contains(e as usize));
                    }
                }
            },
        }
    }
    touched
}

// ── scores ──────────────────────────────────────────────────────────────────

/// One file that may take part in rename detection.
pub struct RenameFile {
    /// Path relative to its tree's root.
    pub rel: String,
    /// Where the file lies; it is classified by this path.
    pub abs: String,
    /// Size and first bytes, for classification and the size limit.
    pub probe: FileProbe,
    /// The file's contents (absent when they could not be read).
    pub bytes: Option<Vec<u8>>,
}

/// Files above this size take no part.
pub open spec fn max_rename_bytes() -> u64 {
    5242880
}

/// A code file of at most 5 MiB.
pub open spec fn matchable(f: RenameFile) -> bool {
    kind_of(f.abs@, f.probe.size, opt_bytes(f.probe.head)) == FileKind::Code && f.probe.size
        <= max_rename_bytes()
}

/// The text of a file: its bytes decoded with replacement, empty when unread.
pub open spec fn file_text(f: RenameFile) -> Seq<char> {
    match f.bytes {
        Some(b) => lossy_utf8(b@),
        None => seq![],
    }
}

/// The MinHash signature of a file's text.
pub open spec fn file_sig(f: RenameFile) -> Seq<u64> {
    text_signature(file_text(f))
}

/// The file name of a relative path, empty when it has none.
pub open spec fn name_of(rel: Seq<char>) -> Seq<char> {
    match file_name(rel) {
        Some(n) => n,
        None => seq![],
    }
}

/// `0.75 · m/128 + 0.25 · name`, exactly.
pub open spec fn combined(m: nat, name: Ratio) -> Ratio {
    Ratio { num: (3 * m * name.den + 128 * name.num) as u64, den: (512 * name.den) as u64 }
}

/// The score of renaming `fa` to `fb`: three parts content similarity (the
/// fraction of agreeing signature values), one part file-name similarity.
pub open spec fn pair_score(fa: RenameFile, fb: RenameFile) -> Ratio {
    combined(
        agreement(file_sig(fa), file_sig(fb)),
        char_similarity(name_of(fa.rel@), name_of(fb.rel@)),
    )
}

/// `fb` is a candidate for `fa`: it takes part, the LSH index proposes it,
/// and their signatures agree on at least 30% of the permutations.
pub open spec fn eligible(fa: RenameFile, fb: RenameFile) -> bool {
    &&& matchable(fb)
    &&& shares_band(file_sig(fa), file_sig(fb))
    &&& agreement(file_sig(fa), file_sig(fb)) * 10 >= 384
}

/// `bs[j]` is the best candidate for `fa`: highest score, and first among
/// equal scores.
pub open spec fn is_best(fa: RenameFile, bs: Seq<RenameFile>, j: int) -> bool {
    &&& 0 <= j < bs.len()
    &&& eligible(fa, bs[j])
    &&& forall|k: int|
        0 <= k < bs.len() && eligible(fa, #[trigger] bs[k]) ==> pair_score(fa, bs[k]).le(
            pair_score(fa, bs[j]),
        ) && (pair_score(fa, bs[j]).le(pair_score(fa, bs[k])) ==> j <= k)
}

/// A rename as (from, to, content similarity, name similarity, score).
pub open spec fn pair_view(fa: RenameFile, fb: RenameFile) -> (
    Seq<char>,
    Seq<char>,
    Ratio,
    Ratio,
    Ratio,
) {
    (
        forward_slashes(fa.rel@),
        forward_slashes(fb.rel@),
        Ratio { num: agreement(file_sig(fa), file_sig(fb)) as u64, den: 128 },
        char_similarity(name_of(fa.rel@), name_of(fb.rel@)),
        pair_score(fa, fb),
    )
}

/// The rename reported for `fa`: its best candidate, when `fa` takes part
/// and the score reaches `threshold`.
pub open spec fn found(fa: RenameFile, bs: Seq<RenameFile>, threshold: Ratio) -> Option<
    (Seq<char>, Seq<char>, Ratio, Ratio, Ratio),
> {
    if matchable(fa) && exists|j: int| is_best(fa, bs, j) {
        let j = choose|j: int| is_best(fa, bs, j);
        if threshold.le(pair_score(fa, bs[j])) {
            Some(pair_view(fa, bs[j]))
        } else {
            None
        }
    } else {
        None
    }
}

/// The renames of the files `as_`, in their order.
pub open spec fn rename_list(as_: Seq<RenameFile>, bs: Seq<RenameFile>, threshold: Ratio) -> Seq<
    (Seq<char>, Seq<char>, Ratio, Ratio, Ratio),
>
    decreases as_.len(),
{
    if as_.len() == 0 {
        seq![]
    } else {
        let prev = rename_list(as_.drop_last(), bs, threshold);
        match found(as_.last(), bs, threshold) {
            Some(c) => prev.push(c),
            None => prev,
        }
    }
}

/// Where a score goes in a list sorted by decreasing score: after every
/// score it does not exceed.
pub open spec fn insert_pos(s: Seq<(Seq<char>, Seq<char>, Ratio, Ratio, Ratio)>, r: Ratio) -> nat
    decreases s.len(),
{
    if s.len() == 0 {
        0
    } else if r.le(s[0].4) {
        1 + insert_pos(s.drop_first(), r)
    } else {
        0
    }
}

/// `s` with `x` inserted at its place.
pub open spec fn insert_desc(
    s: Seq<(Seq<char>, Seq<char>, Ratio, Ratio, Ratio)>,
    x: (Seq<char>, Seq<char>, Ratio, Ratio, Ratio),
) -> Seq<(Seq<char>, Seq<char>, Ratio, Ratio, Ratio)> {
    let k = insert_pos(s, x.4) as int;
    s.take(k) + seq![x] + s.skip(k)
}

/// The stable sort of `xs` by decreasing score.
pub open spec fn sort_desc(xs: Seq<(Seq<char>, Seq<char>, Ratio, Ratio, Ratio)>) -> Seq<
    (Seq<char>, Seq<char>, Ratio, Ratio, Ratio),
>
    decreases xs.len(),
{
    if xs.len() == 0 {
        seq![]
    } else {
        insert_desc(sort_desc(xs.drop_last()), xs.last())
    }
}

/// At most the first 200.
pub open spec fn first_200(s: Seq<(Seq<char>, Seq<char>, Ratio, Ratio, Ratio)>) -> Seq<
    (Seq<char>, Seq<char>, Ratio, Ratio, Ratio),
> {
    if s.len() <= 200 {
        s
    } else {
        s.take(200)
    }
}

/// Every file name is short enough for the similarity arithmetic.
pub open spec fn names_fit(fs: Seq<RenameFile>) -> bool {
    forall|i: int| 0 <= i < fs.len() ==> (#[trigger] name_of(fs[i].rel@)).len() <= u32::MAX
}

/// A detected rename.
pub struct RenameCandidate {
    /// Relative path that exists only in the first tree.
    pub from_path: String,
    /// Relative path that exists only in the second tree.
    pub to_path: String,
    /// Fraction of the 128 signature values that agree.
    pub content_similarity: Ratio,
    /// Character similarity of the file names.
    pub name_similarity: Ratio,
    /// `0.75 · content + 0.25 · name`.
    pub combined_score: Ratio,
}

/// A rename as mathematical values.
pub open spec fn cand_view(c: RenameCandidate) -> (Seq<char>, Seq<char>, Ratio, Ratio, Ratio) {
    (c.from_path@, c.to_path@, c.content_similarity, c.name_similarity, c.combined_score)
}

/// Several renames as mathematical values.
pub open spec fn cand_views(cs: Seq<RenameCandidate>) -> Seq<(Seq<char>, Seq<char>, Ratio, Ratio, Ratio)> {
    cs.map_values(|c: RenameCandidate| cand_view(c))
}

/// Whether a file takes part: a code file of at most 5 MiB. Only such files'
/// contents are read, so a caller may leave the bytes of the others absent.
pub fn is_matchable(f: &RenameFile) -> (res: bool)
    ensures
        res == matchable(*f),
{
    let c = classify(f.abs.as_str(), &f.probe);
    matches!(c.kind, FileKind::Code) && f.probe.size <= 5242880
}

/// The signature of a file's text.
fn file_signature(f: &RenameFile) -> (res: Vec<u64>)
    ensures
        res@ == file_sig(*f),
        res@.len() == 128,
{
    match &f.bytes {
        Some(b) => {
            let t = utf8_lossy(b.as_slice());
            compute_signature(t.as_str())
        },
        None => {
            let t = String::new();
            assert(t@ =~= Seq::<char>::empty());
            compute_signature(t.as_str())
        },
    }
}

/// The file name of a relative path, empty when it has none.
fn name_string(rel: &String) -> (res: String)
    ensures
        res@ == name_of(rel@),
{
    match file_name_of(chars_of(rel.as_str()).as_slice()) {
        Some(n) => string_from_chars(n.as_slice()),
        None => String::new(),
    }
}

/// One file of the second list that takes part.
struct Entry {
    index: usize,
    sig: Vec<u64>,
    name: String,
}

/// The entries are the files of `bs` that take part, each with its
/// signature and file name, and the keys are their band keys.
spec fn entries_ok(es: Seq<Entry>, keys: Seq<Vec<u64>>, bs: Seq<RenameFile>) -> bool {
    &&& keys.len() == es.len()
    &&& forall|e: int| 0 <= e < es.len() ==> {
        &&& (#[trigger] es[e]).index < bs.len()
        &&& matchable(bs[es[e].index as int])
        &&& es[e].sig@ == file_sig(bs[es[e].index as int])
        &&& es[e].sig@.len() == 128
        &&& es[e].name@ == name_of(bs[es[e].index as int].rel@)
        &&& keys[e]@.len() == 64
        &&& forall|b: int| 0 <= b < 64 ==> #[trigger] keys[e]@[b] == band_key(es[e].sig@, b)
    }
    &&& forall|j: int|
        0 <= j < bs.len() && matchable(#[trigger] bs[j]) ==> exists|e: int|
            0 <= e < es.len() && #[trigger] es[e].index == j
}

/// `score` is three quarters of `content` plus one quarter of `name`, as
/// fractions with positive denominators:
/// `score = 3/4 · content + 1/4 · name`.
pub open spec fn weighted_score(content: Ratio, name: Ratio, score: Ratio) -> bool {
    &&& content.den > 0
    &&& name.den > 0
    &&& score.den > 0
    &&& 4 * (score.num as int) * (content.den as int) * (name.den as int) == (score.den as int) * (3
        * (content.num as int) * (name.den as int) + (content.den as int) * (name.num as int))
}

/// The score of one entry against a file of the first list.
fn score_of(m: u64, name: Ratio) -> (res: Ratio)
    requires
        m <= 128,
        name.wf(),
        name.at_most_one(),
        name.den <= 2 * (u32::MAX as int),
    ensures
        res == combined(m as nat, name),
        res.wf(),
        weighted_score(Ratio { num: m, den: 128 }, name, res),
{
    assert(3 * m * name.den <= 384 * name.den) by (nonlinear_arith)
        requires
            m <= 128,
    ;
    let res = Ratio { num: 3 * m * name.den + 128 * name.num, den: 512 * name.den };
    proof {
        let n = res.num as int;
        let d = res.den as int;
        let nn = name.num as int;
        let nd = name.den as int;
        let mm = m as int;
        assert(4 * n * 128 * nd == d * (3 * mm * nd + 128 * nn)) by (nonlinear_arith)
            requires
                n == 3 * mm * nd + 128 * nn,
                d == 512 * nd,
        ;
    }
    res
}

/// An entry the index proposes for a signature shares a band with it.
proof fn lemma_proposed(
    fa: RenameFile,
    entries: Seq<Entry>,
    keys: Seq<Vec<u64>>,
    query: Seq<u64>,
    bs: Seq<RenameFile>,
    e: int,
    b: int,
)
    requires
        entries_ok(entries, keys, bs),
        query.len() == 64,
        forall|c: int| 0 <= c < 64 ==> #[trigger] query[c] == band_key(file_sig(fa), c),
        0 <= e < entries.len(),
        0 <= b < 64,
        query[b] == keys[e]@[b],
    ensures
        shares_band(file_sig(fa), file_sig(bs[entries[e].index as int])),
{
    let en = entries[e];
    assert(keys[e]@[b] == band_key(en.sig@, b));
    assert(band_key(file_sig(fa), b) == band_key(file_sig(bs[en.index as int]), b));
}

/// Every eligible file is one of the entries, and the index proposes it.
proof fn lemma_eligible_proposed(
    fa: RenameFile,
    entries: Seq<Entry>,
    keys: Seq<Vec<u64>>,
    query: Seq<u64>,
    bs: Seq<RenameFile>,
    k: int,
) -> (e: int)
    requires
        entries_ok(entries, keys, bs),
        query.len() == 64,
        forall|c: int| 0 <= c < 64 ==> #[trigger] query[c] == band_key(file_sig(fa), c),
        0 <= k < bs.len(),
        eligible(fa, bs[k]),
    ensures
        0 <= e < entries.len(),
        entries[e].index == k,
        exists|b: int| 0 <= b < 64 && #[trigger] query[b] == keys[e]@[b],
{
    assert(matchable(bs[k]));
    let e = choose|e: int| 0 <= e < entries.len() && #[trigger] entries[e].index == k;
    let en = entries[e];
    let b = choose|b: int| 0 <= b < 64 && #[trigger] band_key(file_sig(fa), b) == band_key(
        file_sig(bs[k]),
        b,
    );
    assert(keys[e]@[b] == band_key(en.sig@, b));
    assert(query[b] == keys[e]@[b]);
    e
}

/// `bs[j]` scores at least as well as every eligible file of `done`, and
/// comes first among equal scores.
spec fn beats(fa: RenameFile, bs: Seq<RenameFile>, j: int, done: Set<int>) -> bool {
    forall|k: int|
        #[trigger] done.contains(k) && 0 <= k < bs.len() && eligible(fa, bs[k]) ==> pair_score(
            fa,
            bs[k],
        ).le(pair_score(fa, bs[j])) && (pair_score(fa, bs[j]).le(pair_score(fa, bs[k])) ==> j <= k)
}

/// Scores have positive denominators when the names fit.
pub proof fn lemma_score_wf(fa: RenameFile, fb: RenameFile)
    requires
        name_of(fa.rel@).len() <= u32::MAX,
        name_of(fb.rel@).len() <= u32::MAX,
    ensures
        pair_score(fa, fb).wf(),
{
}

/// A strictly better score (or an equal score earlier in the list) takes over.
proof fn lemma_beats_replace(fa: RenameFile, bs: Seq<RenameFile>, bj: int, j: int, done: Set<int>)
    requires
        name_of(fa.rel@).len() <= u32::MAX,
        names_fit(bs),
        0 <= bj < bs.len(),
        0 <= j < bs.len(),
        beats(fa, bs, bj, done),
        pair_score(fa, bs[bj]).lt(pair_score(fa, bs[j])) || (pair_score(fa, bs[j]).le(
            pair_score(fa, bs[bj]),
        ) && pair_score(fa, bs[bj]).le(pair_score(fa, bs[j])) && j < bj),
    ensures
        beats(fa, bs, j, done.insert(j)),
{
    let sc = pair_score(fa, bs[j]);
    let bsc = pair_score(fa, bs[bj]);
    lemma_score_wf(fa, bs[j]);
    lemma_score_wf(fa, bs[bj]);
    assert forall|k: int|
        #[trigger] done.insert(j).contains(k) && 0 <= k < bs.len() && eligible(fa, bs[k]) implies pair_score(
        fa,
        bs[k],
    ).le(sc) && (sc.le(pair_score(fa, bs[k])) ==> j <= k) by {
        if k != j {
            assert(done.contains(k));
            let s2 = pair_score(fa, bs[k]);
            lemma_score_wf(fa, bs[k]);
            lemma_le_trans(s2, bsc, sc);
            if sc.le(s2) {
                lemma_le_trans(sc, s2, bsc);
                lemma_le_trans(bsc, sc, s2);
            }
        }
    }
}

/// The first eligible file beats everything seen so far.
proof fn lemma_beats_first(fa: RenameFile, bs: Seq<RenameFile>, j: int, done: Set<int>)
    requires
        forall|k: int| #[trigger] done.contains(k) && 0 <= k < bs.len() ==> !eligible(fa, bs[k]),
    ensures
        beats(fa, bs, j, done.insert(j)),
{
    assert forall|k: int|
        #[trigger] done.insert(j).contains(k) && 0 <= k < bs.len() && eligible(fa, bs[k]) implies pair_score(
        fa,
        bs[k],
    ).le(pair_score(fa, bs[j])) && (pair_score(fa, bs[j]).le(pair_score(fa, bs[k])) ==> j <= k) by {
        if k != j {
            assert(done.contains(k));
        }
    }
}

/// A file that is ineligible, or not better, leaves the best as it is.
proof fn lemma_beats_keep(fa: RenameFile, bs: Seq<RenameFile>, bj: int, j: int, done: Set<int>)
    requires
        0 <= j < bs.len(),
        beats(fa, bs, bj, done),
        eligible(fa, bs[j]) ==> pair_score(fa, bs[j]).le(pair_score(fa, bs[bj])) && (pair_score(
            fa,
            bs[bj],
        ).le(pair_score(fa, bs[j])) ==> bj <= j),
    ensures
        beats(fa, bs, bj, done.insert(j)),
{
    assert forall|k: int|
        #[trigger] done.insert(j).contains(k) && 0 <= k < bs.len() && eligible(fa, bs[k]) implies pair_score(
        fa,
        bs[k],
    ).le(pair_score(fa, bs[bj])) && (pair_score(fa, bs[bj]).le(pair_score(fa, bs[k])) ==> bj <= k) by {
        if k != j {
            assert(done.contains(k));
        }
    }
}

/// The best candidate for `fa` among the proposed entries `touched`:
/// `(index in bs, agreeing values, name similarity, score)`.
fn best_for(
    fa: &RenameFile,
    sig_a: &Vec<u64>,
    name_a: &String,
    touched: &Vec<usize>,
    entries: &Vec<Entry>,
    Ghost(keys): Ghost<Seq<Vec<u64>>>,
    Ghost(query): Ghost<Seq<u64>>,
    Ghost(bs): Ghost<Seq<RenameFile>>,
) -> (res: Option<(usize, u64, Ratio, Ratio)>)
    requires
        sig_a@ == file_sig(*fa),
        sig_a@.len() == 128,
        name_a@ == name_of(fa.rel@),
        name_a@.len() <= u32::MAX,
        names_fit(bs),
        entries_ok(entries@, keys, bs),
        query.len() == 64,
        forall|b: int| 0 <= b < 64 ==> #[trigger] query[b] == band_key(file_sig(*fa), b),
        forall|t: int| 0 <= t < touched@.len() ==> #[trigger] touched@[t] < entries@.len(),
        forall|e: int|
            0 <= e < entries@.len() ==> (#[trigger] touched@.contains(e as usize) <==> exists|b: int|
                0 <= b < 64 && #[trigger] query[b] == keys[e]@[b]),
    ensures
        match res {
            Some((j, m, nr, sc)) => {
                &&& is_best(*fa, bs, j as int)
                &&& m == agreement(file_sig(*fa), file_sig(bs[j as int]))
                &&& nr == char_similarity(name_of(fa.rel@), name_of(bs[j as int].rel@))
                &&& sc == pair_score(*fa, bs[j as int])
                &&& weighted_score(Ratio { num: m, den: 128 }, nr, sc)
            },
            None => forall|j: int| 0 <= j < bs.len() ==> !eligible(*fa, #[trigger] bs[j]),
        },
{
    let mut best: Option<(usize, u64, Ratio, Ratio)> = None;
    let ghost mut done: Set<int> = Set::empty();
    for t in 0..touched.len()
        invariant
            sig_a@ == file_sig(*fa),
            sig_a@.len() == 128,
            name_a@ == name_of(fa.rel@),
            name_a@.len() <= u32::MAX,
            names_fit(bs),
            entries_ok(entries@, keys, bs),
            query.len() == 64,
            forall|b: int| 0 <= b < 64 ==> #[trigger] query[b] == band_key(file_sig(*fa), b),
            forall|t2: int| 0 <= t2 < touched@.len() ==> #[trigger] touched@[t2] < entries@.len(),
            forall|e: int|
                0 <= e < entries@.len() ==> (#[trigger] touched@.contains(e as usize) <==> exists|b: int|
                    0 <= b < 64 && #[trigger] query[b] == keys[e]@[b]),
            forall|t2: int|
                0 <= t2 < t ==> done.contains(
                    #[trigger] entries@[touched@[t2] as int].index as int,
                ),
            match best {
                Some((j, m, nr, sc)) => {
                    &&& j < bs.len()
                    &&& eligible(*fa, bs[j as int])
                    &&& m == agreement(file_sig(*fa), file_sig(bs[j as int]))
                    &&& nr == char_similarity(name_of(fa.rel@), name_of(bs[j as int].rel@))
                    &&& sc == pair_score(*fa, bs[j as int])
                    &&& weighted_score(Ratio { num: m, den: 128 }, nr, sc)
                    &&& beats(*fa, bs, j as int, done)
                },
                None => forall|k: int|
                    #[trigger] done.contains(k) && 0 <= k < bs.len() ==> !eligible(*fa, bs[k]),
            },
    {
        let e = touched[t];
        let entry = &entries[e];
        let j = entry.index;
        let ghost ei = e as int;
        proof {
            assert(entries@[ei] == *entry);
            assert(touched@[t as int] == e);
            assert(touched@.contains(ei as usize));
            let b = choose|b: int| 0 <= b < 64 && #[trigger] query[b] == keys[ei]@[b];
            lemma_proposed(*fa, entries@, keys, query, bs, ei, b);
            assert(j < bs.len());
            assert(entry.sig@ == file_sig(bs[j as int]));
            assert(entry.name@ == name_of(bs[j as int].rel@));
            assert(name_of(bs[j as int].rel@).len() <= u32::MAX);
        }
        let ghost old_done = done;
        proof {
            done = done.insert(j as int);
        }
        let m = count_agreement(sig_a, &entry.sig);
        if m * 10 >= 384 {
            let nr = text_similarity(name_a.as_str(), entry.name.as_str());
            let sc = score_of(m, nr);
            let better = match best {
                None => true,
                Some((bj, _, _, bsc)) => bsc.less(&sc) || (sc.less_eq(&bsc) && bsc.less_eq(&sc)
                    && j < bj),
            };
            proof {
                assert(sc == pair_score(*fa, bs[j as int]));
                match best {
                    Some((bj, _, _, bsc)) => {
                        if better {
                            lemma_beats_replace(*fa, bs, bj as int, j as int, old_done);
                        } else {
                            lemma_beats_keep(*fa, bs, bj as int, j as int, old_done);
                        }
                    },
                    None => {
                        lemma_beats_first(*fa, bs, j as int, old_done);
                    },
                }
            }
            if better {
                best = Some((j, m, nr, sc));
            }
        } else {
            proof {
                assert(!eligible(*fa, bs[j as int]));
                match best {
                    Some((bj, _, _, bsc)) => {
                        lemma_beats_keep(*fa, bs, bj as int, j as int, old_done);
                    },
                    None => {
                        assert forall|k: int|
                            #[trigger] done.contains(k) && 0 <= k < bs.len() implies !eligible(*fa, bs[k]) by {
                            if k != j {
                                assert(old_done.contains(k));
                            }
                        }
                    },
                }
            }
        }
        proof {
            assert forall|t2: int| 0 <= t2 < t + 1 implies done.contains(
                #[trigger] entries@[touched@[t2] as int].index as int,
            ) by {
                if t2 < t {
                    assert(old_done.contains(entries@[touched@[t2] as int].index as int));
                }
            }
        }
    }
    let n_entries = entries.len();
    proof {
        assert forall|k: int| 0 <= k < bs.len() && eligible(*fa, #[trigger] bs[k]) implies done.contains(k) by {
            let e = lemma_eligible_proposed(*fa, entries@, keys, query, bs, k);
            assert(e < n_entries);
            assert(touched@.contains(e as usize));
            let t2 = touched@.index_of(e as usize);
            assert(touched@[t2] == e as usize);
            assert(touched@[t2] as int == e);
            assert(done.contains(entries@[touched@[t2] as int].index as int));
        }
    }
    best
}
/// There is at most one best candidate.
proof fn lemma_best_unique(fa: RenameFile, bs: Seq<RenameFile>, j1: int, j2: int)
    requires
        is_best(fa, bs, j1),
        is_best(fa, bs, j2),
    ensures
        j1 == j2,
{
    assert(eligible(fa, bs[j1]));
    assert(eligible(fa, bs[j2]));
}

/// Where a rename with score `r` goes in `out`, sorted by decreasing score.
fn insert_position(out: &Vec<RenameCandidate>, r: &Ratio) -> (k: usize)
    ensures
        k <= out@.len(),
        k == insert_pos(cand_views(out@), *r),
{
    let ghost s = cand_views(out@);
    let mut k: usize = 0;
    assert(s.skip(0) =~= s);
    while k < out.len() && r.less_eq(&out[k].combined_score)
        invariant
            k <= out@.len(),
            s == cand_views(out@),
            insert_pos(s, *r) == k + insert_pos(s.skip(k as int), *r),
        decreases out@.len() - k,
    {
        assert(s.skip(k as int).drop_first() =~= s.skip(k + 1));
        assert(s.skip(k as int)[0] == s[k as int]);
        k += 1;
    }
    if k < out.len() {
        assert(s.skip(k as int)[0] == s[k as int]);
    } else {
        assert(s.skip(k as int) =~= Seq::<(Seq<char>, Seq<char>, Ratio, Ratio, Ratio)>::empty());
    }
    k
}

/// Detects renames from the files `a` found only in the first tree to the
/// files `b` found only in the second. Each code file of at most 5 MiB in
/// `a` is matched with its best candidate in `b` (see [`is_best`]); matches
/// scoring at least `threshold` are reported, by decreasing score (ties in
/// the order of `a`), at most 200.
pub fn find_renames(a: &Vec<RenameFile>, b: &Vec<RenameFile>, threshold: Ratio) -> (res: Vec<
    RenameCandidate,
>)
    requires
        names_fit(a@),
        names_fit(b@),
    ensures
        cand_views(res@) == first_200(sort_desc(rename_list(a@, b@, threshold))),
        res@.len() <= 200,
        res@.len() <= a@.len(),
        sorted_by_score(cand_views(res@)),
        forall|i: int| 0 <= i < res@.len() ==> threshold.le((#[trigger] res@[i]).combined_score),
        forall|i: int|
            0 <= i < res@.len() ==> 4 * ((#[trigger] res@[i]).combined_score.num as int) * (
            res@[i].content_similarity.den as int) * (res@[i].name_similarity.den as int) == (
            res@[i].combined_score.den as int) * (3 * (res@[i].content_similarity.num as int) * (
            res@[i].name_similarity.den as int) + (res@[i].content_similarity.den as int) * (
            res@[i].name_similarity.num as int)),
        forall|i: int|
            0 <= i < res@.len() ==> (#[trigger] res@[i]).content_similarity.den > 0
                && res@[i].name_similarity.den > 0 && res@[i].combined_score.den > 0,
{
    let mut entries: Vec<Entry> = Vec::new();
    let mut keys: Vec<Vec<u64>> = Vec::new();
    for j in 0..b.len()
        invariant
            keys@.len() == entries@.len(),
            forall|e: int| 0 <= e < entries@.len() ==> {
                &&& (#[trigger] entries@[e]).index < j
                &&& matchable(b@[entries@[e].index as int])
                &&& entries@[e].sig@ == file_sig(b@[entries@[e].index as int])
                &&& entries@[e].sig@.len() == 128
                &&& entries@[e].name@ == name_of(b@[entries@[e].index as int].rel@)
                &&& keys@[e]@.len() == 64
                &&& forall|c: int| 0 <= c < 64 ==> #[trigger] keys@[e]@[c] == band_key(entries@[e].sig@, c)
            },
            forall|j2: int|
                0 <= j2 < j && matchable(#[trigger] b@[j2]) ==> exists|e: int|
                    0 <= e < entries@.len() && #[trigger] entries@[e].index == j2,
    {
        if is_matchable(&b[j]) {
            let sig = file_signature(&b[j]);
            let ks = band_keys(&sig);
            let name = name_string(&b[j].rel);
            let ghost old_entries = entries@;
            entries.push(Entry { index: j, sig, name });
            keys.push(ks);
            assert forall|j2: int|
                0 <= j2 < j + 1 && matchable(#[trigger] b@[j2]) implies exists|e: int|
                    0 <= e < entries@.len() && #[trigger] entries@[e].index == j2 by {
                if j2 < j {
                    let e = choose|e: int| 0 <= e < old_entries.len() && #[trigger] old_entries[e].index == j2;
                    assert(entries@[e] == old_entries[e]);
                } else {
                    assert(entries@[old_entries.len() as int].index == j2);
                }
            }
        }
    }
    assert(entries_ok(entries@, keys@, b@));
    assert forall|e: int| 0 <= e < keys@.len() implies (#[trigger] keys@[e])@.len() == 64 by {
        assert(entries@[e].sig@.len() == 128);
    }
    let index = build_index(&keys);
    let mut out: Vec<RenameCandidate> = Vec::new();
    assert(a@.take(0) =~= Seq::<RenameFile>::empty());
    for i in 0..a.len()
        invariant
            names_fit(a@),
            names_fit(b@),
            entries_ok(entries@, keys@, b@),
            forall|e: int| 0 <= e < keys@.len() ==> (#[trigger] keys@[e])@.len() == 64,
            index@.len() == 64,
            forall|c: int| 0 <= c < 64 ==> band_sound((#[trigger] index@[c])@, key_rows(keys@), c, keys@.len() as int),
            forall|c: int| 0 <= c < 64 ==> band_complete((#[trigger] index@[c])@, key_rows(keys@), c, keys@.len() as int),
            cand_views(out@) == sort_desc(rename_list(a@.take(i as int), b@, threshold)),
            forall|q: int|
                0 <= q < out@.len() ==> weighted_score(
                    (#[trigger] out@[q]).content_similarity,
                    out@[q].name_similarity,
                    out@[q].combined_score,
                ),
    {
        let fa = &a[i];
        let ghost prev = rename_list(a@.take(i as int), b@, threshold);
        proof {
            assert(a@.take(i + 1).drop_last() =~= a@.take(i as int));
            assert(a@.take(i + 1).last() == *fa);
            assert(name_of(fa.rel@).len() <= u32::MAX);
        }
        if is_matchable(fa) {
            let sig_a = file_signature(fa);
            let qa = band_keys(&sig_a);
            let touched = query_index(&qa, &index, &keys);
            let name_a = name_string(&fa.rel);
            match best_for(fa, &sig_a, &name_a, &touched, &entries, Ghost(keys@), Ghost(qa@), Ghost(b@)) {
                Some((j, m, nr, sc)) => {
                    proof {
                        let jj = choose|jj: int| is_best(*fa, b@, jj);
                        lemma_best_unique(*fa, b@, jj, j as int);
                    }
                    if threshold.less_eq(&sc) {
                        let c = RenameCandidate {
                            from_path: rel_to_str(fa.rel.as_str()),
                            to_path: rel_to_str(b[j].rel.as_str()),
                            content_similarity: Ratio { num: m, den: 128 },
                            name_similarity: nr,
                            combined_score: sc,
                        };
                        let ghost x = cand_view(c);
                        assert(x == pair_view(*fa, b@[j as int]));
                        assert(found(*fa, b@, threshold) == Some(x));
                        let k = insert_position(&out, &sc);
                        let ghost sv = cand_views(out@);
                        let ghost before = out@;
                        out.insert(k, c);
                        proof {
                            assert forall|q: int| 0 <= q < out@.len() implies weighted_score(
                                (#[trigger] out@[q]).content_similarity,
                                out@[q].name_similarity,
                                out@[q].combined_score,
                            ) by {
                                if q < k {
                                    assert(out@[q] == before[q]);
                                } else if q > k {
                                    assert(out@[q] == before[q - 1]);
                                }
                            }
                            assert(cand_views(out@) =~= sv.take(k as int) + seq![x] + sv.skip(k as int));
                            assert(prev.push(x).drop_last() =~= prev);
                        }
                    } else {
                        assert(found(*fa, b@, threshold) is None);
                    }
                },
                None => {
                    assert(found(*fa, b@, threshold) is None) by {
                        if exists|jj: int| is_best(*fa, b@, jj) {
                            let jj = choose|jj: int| is_best(*fa, b@, jj);
                            assert(eligible(*fa, b@[jj]));
                        }
                    }
                },
            }
        } else {
            assert(found(*fa, b@, threshold) is None);
        }
    }
    assert(a@.take(a@.len() as int) =~= a@);
    let ghost full = cand_views(out@);
    let ghost untruncated = out@;
    out.truncate(200);
    proof {
        assert forall|q: int| 0 <= q < out@.len() implies weighted_score(
            (#[trigger] out@[q]).content_similarity,
            out@[q].name_similarity,
            out@[q].combined_score,
        ) by {
            assert(out@[q] == untruncated[q]);
        }
        let l = rename_list(a@, b@, threshold);
        lemma_rename_list_scores(a@, b@, threshold);
        lemma_sort_desc(l);
        if full.len() > 200 {
            assert(cand_views(out@) =~= full.take(200));
        } else {
            assert(cand_views(out@) =~= full);
        }
        let v = cand_views(out@);
        assert forall|i: int, j: int| 0 <= i < j < v.len() implies (#[trigger] v[j]).4.le((#[trigger] v[i]).4) by {
            assert(v[i] == full[i] && v[j] == full[j]);
        }
        assert forall|i: int| 0 <= i < out@.len() implies threshold.le((#[trigger] out@[i]).combined_score) by {
            assert(v[i] == full[i]);
            assert(full.to_multiset().count(full[i]) > 0) by {
                broadcast use vstd::seq_lib::to_multiset_contains;
            }
            assert(l.to_multiset().count(full[i]) > 0);
            assert(l.contains(full[i])) by {
                broadcast use vstd::seq_lib::to_multiset_contains;
            }
            let q = l.index_of(full[i]);
            assert(threshold.le(l[q].4));
        }
    }
    out
}

// ── laws of the ranking ─────────────────────────────────────────────────────

/// Every score has a positive denominator.
pub open spec fn scores_wf(xs: Seq<(Seq<char>, Seq<char>, Ratio, Ratio, Ratio)>) -> bool {
    forall|i: int| 0 <= i < xs.len() ==> (#[trigger] xs[i]).4.wf()
}

/// Scores never increase along the list.
pub open spec fn sorted_by_score(s: Seq<(Seq<char>, Seq<char>, Ratio, Ratio, Ratio)>) -> bool {
    forall|i: int, j: int| 0 <= i < j < s.len() ==> (#[trigger] s[j]).4.le((#[trigger] s[i]).4)
}

/// The insertion point follows every score at least `r` at the front and
/// stops at the first smaller one.
pub proof fn lemma_insert_pos(s: Seq<(Seq<char>, Seq<char>, Ratio, Ratio, Ratio)>, r: Ratio)
    ensures
        insert_pos(s, r) <= s.len(),
        forall|i: int| 0 <= i < insert_pos(s, r) ==> r.le((#[trigger] s[i]).4),
        insert_pos(s, r) < s.len() ==> !r.le(s[insert_pos(s, r) as int].4),
    decreases s.len(),
{
    if s.len() > 0 && r.le(s[0].4) {
        lemma_insert_pos(s.drop_first(), r);
        assert forall|i: int| 0 <= i < insert_pos(s, r) implies r.le((#[trigger] s[i]).4) by {
            if i > 0 {
                assert(s[i] == s.drop_first()[i - 1]);
            }
        }
        if insert_pos(s, r) < s.len() {
            assert(s[insert_pos(s, r) as int] == s.drop_first()[insert_pos(s.drop_first(), r) as int]);
        }
    }
}

/// The sort by decreasing score orders the scores and keeps every element.
pub proof fn lemma_sort_desc(xs: Seq<(Seq<char>, Seq<char>, Ratio, Ratio, Ratio)>)
    requires
        scores_wf(xs),
    ensures
        sorted_by_score(sort_desc(xs)),
        sort_desc(xs).to_multiset() == xs.to_multiset(),
        sort_desc(xs).len() == xs.len(),
    decreases xs.len(),
{
    broadcast use vstd::seq_lib::to_multiset_build, vstd::seq_lib::to_multiset_insert,
        vstd::seq_lib::to_multiset_len, vstd::seq_lib::to_multiset_contains;

    if xs.len() == 0 {
        assert(sort_desc(xs) =~= xs);
    } else {
        let p = xs.drop_last();
        let x = xs.last();
        assert(scores_wf(p)) by {
            assert forall|i: int| 0 <= i < p.len() implies (#[trigger] p[i]).4.wf() by {
                assert(p[i] == xs[i]);
            }
        }
        lemma_sort_desc(p);
        let s = sort_desc(p);
        let k = insert_pos(s, x.4) as int;
        lemma_insert_pos(s, x.4);
        let r = sort_desc(xs);
        assert(r =~= s.insert(k, x));
        assert(xs =~= p.push(x));
        assert(x.4.wf()) by {
            assert(xs[xs.len() - 1] == x);
        }
        assert forall|i: int| 0 <= i < s.len() implies (#[trigger] s[i]).4.wf() by {
            assert(s.to_multiset().count(s[i]) > 0);
            assert(p.contains(s[i]));
            let q = p.index_of(s[i]);
            assert(p[q].4.wf());
        }
        assert forall|i: int, j: int| 0 <= i < j < r.len() implies (#[trigger] r[j]).4.le(
            (#[trigger] r[i]).4,
        ) by {
            if j < k {
                assert(r[i] == s[i] && r[j] == s[j]);
            } else if j == k {
                assert(r[i] == s[i]);
            } else if i < k {
                assert(r[i] == s[i] && r[j] == s[j - 1]);
            } else if i == k {
                assert(r[j] == s[j - 1]);
                assert(s[k].4.le(x.4));
                if j - 1 > k {
                    lemma_le_trans(s[j - 1].4, s[k].4, x.4);
                }
            } else {
                assert(r[i] == s[i - 1] && r[j] == s[j - 1]);
            }
        }
    }
}

/// Every reported rename reaches the threshold.
pub proof fn lemma_rename_list_scores(as_: Seq<RenameFile>, bs: Seq<RenameFile>, threshold: Ratio)
    requires
        names_fit(as_),
        names_fit(bs),
    ensures
        scores_wf(rename_list(as_, bs, threshold)),
        forall|i: int|
            0 <= i < rename_list(as_, bs, threshold).len() ==> threshold.le(
                (#[trigger] rename_list(as_, bs, threshold)[i]).4,
            ),
        rename_list(as_, bs, threshold).len() <= as_.len(),
    decreases as_.len(),
{
    if as_.len() > 0 {
        let p = as_.drop_last();
        assert(names_fit(p)) by {
            assert forall|i: int| 0 <= i < p.len() implies (#[trigger] name_of(p[i].rel@)).len() <= u32::MAX by {
                assert(p[i] == as_[i]);
            }
        }
        lemma_rename_list_scores(p, bs, threshold);
        let fa = as_.last();
        assert(name_of(as_[as_.len() - 1].rel@).len() <= u32::MAX);
        if let Some(c) = found(fa, bs, threshold) {
            let j = choose|j: int| is_best(fa, bs, j);
            assert(name_of(bs[j].rel@).len() <= u32::MAX);
            lemma_score_wf(fa, bs[j]);
            let l = rename_list(as_, bs, threshold);
            assert(l == rename_list(p, bs, threshold).push(c));
            assert forall|i: int| 0 <= i < l.len() implies (#[trigger] l[i]).4.wf() && threshold.le(l[i].4) by {
                if i < l.len() - 1 {
                    assert(l[i] == rename_list(p, bs, threshold)[i]);
                }
            }
        }
    }
}

} // verus!
