//! Relative-path arithmetic on character sequences, with the meaning of
//! `std::path::Path` on Unix: `/`-separated segments, the file name (last
//! normal component) and the extension (text after the last dot of a file
//! name that does not start with that dot).
use vstd::prelude::*;
use crate::text::{chars_eq_str, chars_of, push_char, to_lowercase, unicode_lowercase};

verus! {

/// Splits `p` at every `/`, continuing the segment `cur` already begun.
pub open spec fn split_from(p: Seq<char>, cur: Seq<char>) -> Seq<Seq<char>>
    decreases p.len(),
{
    if p.len() == 0 {
        seq![cur]
    } else if p[0] == '/' {
        seq![cur] + split_from(p.drop_first(), seq![])
    } else {
        split_from(p.drop_first(), cur.push(p[0]))
    }
}

/// The `/`-separated segments of `p`, empty ones included.
pub open spec fn segments(p: Seq<char>) -> Seq<Seq<char>> {
    split_from(p, seq![])
}

/// A segment that `Path::components` reports as a normal component or `..`.
pub open spec fn is_named_segment(s: Seq<char>) -> bool {
    s.len() > 0 && s != seq!['.']
}

/// The last segment that is neither empty nor `.`.
pub open spec fn last_named(segs: Seq<Seq<char>>) -> Option<Seq<char>>
    decreases segs.len(),
{
    if segs.len() == 0 {
        None
    } else if is_named_segment(segs.last()) {
        Some(segs.last())
    } else {
        last_named(segs.drop_last())
    }
}

/// `Path::file_name`: the last normal component, absent when the path ends in `..`.
pub open spec fn file_name(p: Seq<char>) -> Option<Seq<char>> {
    match last_named(segments(p)) {
        Some(s) => if s == seq!['.', '.'] {
            None
        } else {
            Some(s)
        },
        None => None,
    }
}

/// Index of the last `.` in `s`, or -1.
pub open spec fn last_dot(s: Seq<char>) -> int
    decreases s.len(),
{
    if s.len() == 0 {
        -1
    } else if s.last() == '.' {
        s.len() - 1
    } else {
        last_dot(s.drop_last())
    }
}

/// The extension of a file name: the text after its last dot, unless that dot
/// is the first character (dot files have no extension).
pub open spec fn name_extension(n: Seq<char>) -> Option<Seq<char>> {
    let k = last_dot(n);
    if k <= 0 {
        None
    } else {
        Some(n.skip(k + 1))
    }
}

/// `Path::extension`.
pub open spec fn path_extension(p: Seq<char>) -> Option<Seq<char>> {
    match file_name(p) {
        Some(n) => name_extension(n),
        None => None,
    }
}

/// The suffix the classifier matches on: `.` followed by the lower-cased
/// extension, or empty when there is no extension.
pub open spec fn suffix_of(p: Seq<char>) -> Seq<char> {
    match path_extension(p) {
        Some(e) => seq!['.'] + unicode_lowercase(e),
        None => seq![],
    }
}

/// `p` ends with `t`.
pub open spec fn ends_with(p: Seq<char>, t: Seq<char>) -> bool {
    p.len() >= t.len() && p.skip(p.len() - t.len()) == t
}

// ── executable counterparts ─────────────────────────────────────────────────

/// The `/`-separated segments of `p`.
pub fn split_segments(p: &[char]) -> (res: Vec<Vec<char>>)
    ensures
        res@.map_values(|s: Vec<char>| s@) == segments(p@),
{
    let mut out: Vec<Vec<char>> = Vec::new();
    let mut cur: Vec<char> = Vec::new();
    let mut i: usize = 0;
    assert(p@.skip(0) =~= p@);
    while i < p.len()
        invariant
            i <= p.len(),
            out@.map_values(|s: Vec<char>| s@) + split_from(p@.skip(i as int), cur@) == segments(
                p@,
            ),
        decreases p.len() - i,
    {
        let ghost rest = p@.skip(i as int);
        assert(rest.drop_first() =~= p@.skip(i + 1));
        if p[i] == '/' {
            let done = cur;
            cur = Vec::new();
            let ghost old_out = out@.map_values(|s: Vec<char>| s@);
            out.push(done);
            assert(out@.map_values(|s: Vec<char>| s@) =~= old_out.push(done@));
            assert(old_out.push(done@) + split_from(p@.skip(i + 1), cur@) =~= old_out + (seq![
                done@,
            ] + split_from(p@.skip(i + 1), seq![])));
        } else {
            cur.push(p[i]);
        }
        i += 1;
    }
    let ghost old_out = out@.map_values(|s: Vec<char>| s@);
    let ghost last = cur@;
    out.push(cur);
    assert(out@.map_values(|s: Vec<char>| s@) =~= old_out.push(last));
    assert(p@.skip(i as int) =~= Seq::<char>::empty());
    assert(old_out.push(last) =~= old_out + seq![last]);
    out
}

/// `Path::file_name`.
pub fn file_name_of(p: &[char]) -> (res: Option<Vec<char>>)
    ensures
        match res {
            Some(n) => file_name(p@) == Some(n@),
            None => file_name(p@) is None,
        },
{
    let segs = split_segments(p);
    let ghost sv = segs@.map_values(|s: Vec<char>| s@);
    let mut k = segs.len();
    proof {
        reveal_strlit(".");
        reveal_strlit("..");
        assert("."@ =~= seq!['.']);
        assert(".."@ =~= seq!['.', '.']);
        assert(sv.take(sv.len() as int) =~= sv);
    }
    while k > 0 && !(segs[k - 1].len() > 0 && !chars_eq_str(segs[k - 1].as_slice(), "."))
        invariant
            k <= segs.len(),
            sv == segs@.map_values(|s: Vec<char>| s@),
            last_named(sv) == last_named(sv.take(k as int)),
            "."@ == seq!['.'],
        decreases k,
    {
        proof {
            assert(sv.take(k as int).last() == sv[k - 1]);
            assert(!is_named_segment(sv[k - 1]));
            assert(sv.take(k as int).drop_last() =~= sv.take(k - 1));
        }
        k -= 1;
    }
    if k == 0 {
        assert(sv.take(0) =~= Seq::<Seq<char>>::empty());
        return None;
    }
    assert(sv.take(k as int).last() == segs@[k - 1]@);
    assert(is_named_segment(sv[k - 1]));
    let name = segs[k - 1].clone();
    assert(name@ =~= segs@[k - 1]@);
    if chars_eq_str(name.as_slice(), "..") {
        None
    } else {
        Some(name)
    }
}

/// Index of the last `.` in `n`, if any.
pub fn last_dot_of(n: &[char]) -> (res: Option<usize>)
    ensures
        match res {
            Some(k) => last_dot(n@) == k as int && k < n.len(),
            None => last_dot(n@) == -1,
        },
{
    let mut k = n.len();
    assert(n@.take(n.len() as int) =~= n@);
    while k > 0 && n[k - 1] != '.'
        invariant
            k <= n.len(),
            last_dot(n@) == last_dot(n@.take(k as int)),
        decreases k,
    {
        assert(n@.take(k as int).drop_last() =~= n@.take(k - 1));
        k -= 1;
    }
    if k == 0 {
        assert(n@.take(0) =~= Seq::<char>::empty());
        None
    } else {
        Some(k - 1)
    }
}

/// `Path::extension` of a file name.
pub fn extension_of_name(n: &[char]) -> (res: Option<Vec<char>>)
    ensures
        match res {
            Some(e) => name_extension(n@) == Some(e@),
            None => name_extension(n@) is None,
        },
{
    match last_dot_of(n) {
        None => None,
        Some(k) => {
            if k == 0 {
                None
            } else {
                let mut e: Vec<char> = Vec::new();
                let mut i = k + 1;
                while i < n.len()
                    invariant
                        k + 1 <= i <= n.len(),
                        e@ == n@.subrange(k + 1, i as int),
                    decreases n.len() - i,
                {
                    e.push(n[i]);
                    assert(n@.subrange(k + 1, i + 1) =~= n@.subrange(k + 1, i as int).push(
                        n@[i as int],
                    ));
                    i += 1;
                }
                assert(e@ =~= n@.skip(k + 1));
                Some(e)
            }
        },
    }
}

/// `Path::extension`.
pub fn extension_of_path(p: &[char]) -> (res: Option<Vec<char>>)
    ensures
        match res {
            Some(e) => path_extension(p@) == Some(e@),
            None => path_extension(p@) is None,
        },
{
    match file_name_of(p) {
        None => None,
        Some(n) => extension_of_name(n.as_slice()),
    }
}

/// The classifier's suffix: `.` plus the lower-cased extension, or empty.
pub fn suffix_of_path(p: &[char]) -> (res: Vec<char>)
    ensures
        res@ == suffix_of(p@),
{
    match extension_of_path(p) {
        None => Vec::new(),
        Some(e) => {
            let low = to_lowercase(e.as_slice());
            let mut res: Vec<char> = Vec::new();
            res.push('.');
            let mut i: usize = 0;
            while i < low.len()
                invariant
                    i <= low.len(),
                    res@ == seq!['.'] + low@.take(i as int),
                decreases low.len() - i,
            {
                res.push(low[i]);
                assert(low@.take(i + 1) =~= low@.take(i as int).push(low@[i as int]));
                i += 1;
            }
            assert(low@.take(i as int) =~= low@);
            res
        },
    }
}

/// `p` ends with `t`.
pub fn ends_with_str(p: &[char], t: &str) -> (res: bool)
    ensures
        res == ends_with(p@, t@),
{
    let tc = chars_of(t);
    if tc.len() > p.len() {
        return false;
    }
    let off = p.len() - tc.len();
    let mut i: usize = 0;
    while i < tc.len()
        invariant
            off + tc.len() == p.len(),
            tc@ == t@,
            i <= tc.len(),
            forall|j: int| 0 <= j < i ==> p@[off + j] == tc@[j],
        decreases tc.len() - i,
    {
        if p[off + i] != tc[i] {
            assert(p@.skip(off as int)[i as int] == p@[off + i]);
            assert(p@.skip(off as int)[i as int] != tc@[i as int]);
            assert(p@.skip(off as int) != t@);
            return false;
        }
        i += 1;
    }
    assert(p@.skip(off as int) =~= tc@);
    true
}

/// Replaces every backslash with a forward slash.
pub open spec fn forward_slashes(s: Seq<char>) -> Seq<char> {
    s.map_values(|c: char| if c == '\\' { '/' } else { c })
}

/// A relative path as report text: backslashes become forward slashes.
pub fn rel_to_str(rel: &str) -> (res: String)
    ensures
        res@ == forward_slashes(rel@),
{
    let cs = chars_of(rel);
    let mut res = String::new();
    let mut i: usize = 0;
    while i < cs.len()
        invariant
            i <= cs.len(),
            res@ == forward_slashes(cs@.take(i as int)),
        decreases cs.len() - i,
    {
        let c = if cs[i] == '\\' {
            '/'
        } else {
            cs[i]
        };
        push_char(&mut res, c);
        assert(forward_slashes(cs@.take(i + 1)) =~= forward_slashes(cs@.take(i as int)).push(c));
        i += 1;
    }
    assert(cs@.take(i as int) =~= cs@);
    res
}

} // verus!
