//! Column type inference for text formats, and distinct-value counting.
use vstd::prelude::*;
use crate::text::{ascii_lower, chars_eq_str, chars_of, lower_ascii, seq_lt, sorted_weak, views,
    lemma_seq_lt_total};

verus! {

// ── number syntax (std `FromStr`) ───────────────────────────────────────────

/// An ASCII decimal digit.
pub open spec fn is_digit(c: char) -> bool {
    '0' <= c && c <= '9'
}

/// Zero or more digits.
pub open spec fn digits_only(s: Seq<char>) -> bool {
    forall|i: int| 0 <= i < s.len() ==> is_digit(#[trigger] s[i])
}

/// One or more digits.
pub open spec fn digits(s: Seq<char>) -> bool {
    s.len() > 0 && digits_only(s)
}

/// The value of a digit string.
pub open spec fn digits_value(s: Seq<char>) -> nat
    decreases s.len(),
{
    if s.len() == 0 {
        0
    } else {
        digits_value(s.drop_last()) * 10 + ((s.last() as nat) - ('0' as nat)) as nat
    }
}

/// Text that std `i64::from_str` accepts: an optional `+` or `-` followed by
/// one or more ASCII digits, whose value lies in the range of `i64`.
pub open spec fn i64_text(s: Seq<char>) -> bool {
    if s.len() > 0 && s[0] == '-' {
        digits(s.drop_first()) && digits_value(s.drop_first()) <= 9223372036854775808
    } else if s.len() > 0 && s[0] == '+' {
        digits(s.drop_first()) && digits_value(s.drop_first()) <= 9223372036854775807
    } else {
        digits(s) && digits_value(s) <= 9223372036854775807
    }
}

/// Number of leading ASCII digits.
pub open spec fn lead_digits(u: Seq<char>) -> nat
    decreases u.len(),
{
    if u.len() == 0 || !is_digit(u[0]) {
        0
    } else {
        1 + lead_digits(u.drop_first())
    }
}

/// An exponent after the `e`: an optional sign and one or more digits.
pub open spec fn exponent_text(x: Seq<char>) -> bool {
    if x.len() > 0 && (x[0] == '+' || x[0] == '-') {
        digits(x.drop_first())
    } else {
        digits(x)
    }
}

/// Length of the mantissa at the start of `u` (digits, then optionally a dot
/// and more digits), and whether it holds at least one digit.
pub open spec fn mantissa(u: Seq<char>) -> (int, bool) {
    let a = lead_digits(u) as int;
    if a < u.len() && u[a] == '.' {
        let b = lead_digits(u.skip(a + 1)) as int;
        (a + 1 + b, a > 0 || b > 0)
    } else {
        (a, a > 0)
    }
}

/// The documented `Number` production, read left to right:
/// `(Digit+ | Digit+ '.' Digit* | Digit* '.' Digit+) ('e' Sign? Digit+)?`
/// (lower case).
pub open spec fn number_text(u: Seq<char>) -> bool {
    let (k, some_digit) = mantissa(u);
    some_digit && (k == u.len() || (u[k] == 'e' && exponent_text(u.skip(k + 1))))
}

/// Lower-case text of a float without its optional sign.
pub open spec fn unsigned_float_text(u: Seq<char>) -> bool {
    u == "inf"@ || u == "infinity"@ || u == "nan"@ || number_text(u)
}

/// Text that std's `FromStr` for 64-bit floats accepts. Its documentation
/// gives the grammar `Sign? ('inf' | 'infinity' | 'nan' | Number)` with
/// `Number ::= (Digit+ | Digit+ '.' Digit* | Digit* '.' Digit+) Exp?`,
/// `Exp ::= 'e' Sign? Digit+`, `Sign ::= [+-]`, matched ignoring ASCII case.
pub open spec fn float_text(s: Seq<char>) -> bool {
    let t = ascii_lower(s);
    if t.len() > 0 && (t[0] == '+' || t[0] == '-') {
        unsigned_float_text(t.drop_first())
    } else {
        unsigned_float_text(t)
    }
}

/// std `s.parse::<i64>().is_ok()`.
#[verifier::external_body]
pub(crate) fn parses_as_i64(s: &str) -> (res: bool)
    ensures
        res == i64_text(s@),
{
    s.parse::<i64>().is_ok()
}

/// Number of leading digits of `u` from `start`.
fn count_lead_digits(u: &[char], start: usize) -> (n: usize)
    requires
        start <= u.len(),
    ensures
        n == lead_digits(u@.skip(start as int)),
        start + n <= u.len(),
{
    let mut i = start;
    while i < u.len() && '0' <= u[i] && u[i] <= '9'
        invariant
            start <= i <= u.len(),
            lead_digits(u@.skip(start as int)) == (i - start) + lead_digits(u@.skip(i as int)),
        decreases u.len() - i,
    {
        assert(u@.skip(i as int).drop_first() =~= u@.skip(i + 1));
        i += 1;
    }
    i - start
}

/// Whether `u[start..]` is an exponent: an optional sign and one or more digits.
fn is_exponent_at(u: &[char], start: usize) -> (res: bool)
    requires
        start <= u.len(),
    ensures
        res == exponent_text(u@.skip(start as int)),
{
    let mut p = start;
    if p < u.len() && (u[p] == '+' || u[p] == '-') {
        p += 1;
        assert(u@.skip(start as int).drop_first() =~= u@.skip(p as int));
    }
    let n = count_lead_digits(u, p);
    proof {
        lemma_lead_digits_all(u@.skip(p as int));
    }
    n > 0 && p + n == u.len()
}

/// All characters are digits exactly when the leading digits span the text.
proof fn lemma_lead_digits_all(u: Seq<char>)
    ensures
        lead_digits(u) <= u.len(),
        digits_only(u) <==> lead_digits(u) == u.len(),
        lead_digits(u) < u.len() ==> !is_digit(u[lead_digits(u) as int]),
    decreases u.len(),
{
    if u.len() > 0 {
        lemma_lead_digits_all(u.drop_first());
        if is_digit(u[0]) {
            if digits_only(u.drop_first()) {
                assert forall|i: int| 0 <= i < u.len() implies is_digit(#[trigger] u[i]) by {
                    if i > 0 {
                        assert(u[i] == u.drop_first()[i - 1]);
                    }
                }
            }
            if digits_only(u) {
                assert forall|i: int| 0 <= i < u.drop_first().len() implies is_digit(
                    #[trigger] u.drop_first()[i],
                ) by {
                    assert(u.drop_first()[i] == u[i + 1]);
                }
            }
            if lead_digits(u) < u.len() {
                assert(u[lead_digits(u) as int] == u.drop_first()[lead_digits(u.drop_first()) as int]);
            }
        }
    }
}

/// Whether std's float parsing accepts `s` (see [`float_text`]).
pub fn is_float_text(s: &str) -> (res: bool)
    ensures
        res == float_text(s@),
{
    let t = lower_ascii(chars_of(s).as_slice());
    let ghost tv = t@;
    let mut start: usize = 0;
    if t.len() > 0 && (t[0] == '+' || t[0] == '-') {
        start = 1;
    }
    let mut u: Vec<char> = Vec::new();
    let mut i = start;
    while i < t.len()
        invariant
            start <= i <= t.len(),
            u@ == tv.subrange(start as int, i as int),
            tv == t@,
        decreases t.len() - i,
    {
        u.push(t[i]);
        assert(tv.subrange(start as int, i + 1) =~= tv.subrange(start as int, i as int).push(
            tv[i as int],
        ));
        i += 1;
    }
    proof {
        if start == 1 {
            assert(u@ =~= tv.drop_first());
        } else {
            assert(u@ =~= tv);
        }
    }
    let us = u.as_slice();
    if chars_eq_str(us, "inf") || chars_eq_str(us, "infinity") || chars_eq_str(us, "nan") {
        return true;
    }
    let a = count_lead_digits(us, 0);
    assert(us@.skip(0) =~= us@);
    let mut k = a;
    let mut some_digit = a > 0;
    if a < us.len() && us[a] == '.' {
        let b = count_lead_digits(us, a + 1);
        k = a + 1 + b;
        some_digit = a > 0 || b > 0;
    }
    if !some_digit {
        return false;
    }
    if k == us.len() {
        return true;
    }
    us[k] == 'e' && is_exponent_at(us, k + 1)
}

/// Words read as booleans, after ASCII lower-casing.
pub open spec fn bool_word(t: Seq<char>) -> bool {
    ||| t == "true"@
    ||| t == "false"@
    ||| t == "1"@
    ||| t == "0"@
    ||| t == "yes"@
    ||| t == "no"@
}

/// The value reads as a boolean, ignoring ASCII case.
pub fn is_bool_word(s: &str) -> (res: bool)
    ensures
        res == bool_word(ascii_lower(s@)),
{
    let low = lower_ascii(chars_of(s).as_slice());
    let l = low.as_slice();
    chars_eq_str(l, "true") || chars_eq_str(l, "false") || chars_eq_str(l, "1") || chars_eq_str(
        l,
        "0",
    ) || chars_eq_str(l, "yes") || chars_eq_str(l, "no")
}

// ── type inference ─────────────────────────────────────────────────────────

/// Accumulates the values of one CSV column to infer its SQL type.
#[derive(Debug, Clone, Copy)]
pub struct TypeTracker {
    pub any_seen: bool,
    pub still_bigint: bool,
    pub still_double: bool,
    pub still_bool: bool,
}

/// The tracker after observing `vals` from scratch: something non-empty was
/// seen, and every non-empty value has each syntax that is still claimed.
pub open spec fn observed_state(vals: Seq<Seq<char>>) -> TypeTracker {
    TypeTracker {
        any_seen: exists|i: int| 0 <= i < vals.len() && (#[trigger] vals[i]).len() > 0,
        still_bigint: forall|i: int|
            0 <= i < vals.len() && (#[trigger] vals[i]).len() > 0 ==> i64_text(vals[i]),
        still_double: forall|i: int|
            0 <= i < vals.len() && (#[trigger] vals[i]).len() > 0 ==> float_text(vals[i]),
        still_bool: forall|i: int|
            0 <= i < vals.len() && (#[trigger] vals[i]).len() > 0 ==> bool_word(
                ascii_lower(vals[i]),
            ),
    }
}

/// The SQL type a tracker infers: nothing seen is `VARCHAR`; otherwise the
/// first of `BOOLEAN`, `BIGINT`, `DOUBLE` that every value fits, else `VARCHAR`.
pub open spec fn inferred(t: TypeTracker) -> Seq<char> {
    if !t.any_seen {
        "VARCHAR"@
    } else if t.still_bool {
        "BOOLEAN"@
    } else if t.still_bigint {
        "BIGINT"@
    } else if t.still_double {
        "DOUBLE"@
    } else {
        "VARCHAR"@
    }
}

/// The SQL type of a column with the given values (empty values are nulls).
pub open spec fn column_type(vals: Seq<Seq<char>>) -> Seq<char> {
    inferred(observed_state(vals))
}

impl TypeTracker {
    /// A tracker that has seen nothing.
    pub fn new() -> (res: Self)
        ensures
            res == observed_state(Seq::<Seq<char>>::empty()),
    {
        TypeTracker { any_seen: false, still_bigint: true, still_double: true, still_bool: true }
    }

    /// Observes one value; an empty value is a null and changes nothing.
    pub fn observe(&mut self, s: &str)
        ensures
            s@.len() == 0 ==> *final(self) == *old(self),
            s@.len() > 0 ==> final(self).any_seen,
            s@.len() > 0 ==> final(self).still_bigint == (old(self).still_bigint && i64_text(
                s@,
            )),
            s@.len() > 0 ==> final(self).still_double == (old(self).still_double && float_text(
                s@,
            )),
            s@.len() > 0 ==> final(self).still_bool == (old(self).still_bool && bool_word(
                ascii_lower(s@),
            )),
    {
        if s.is_empty() {
            return;
        }
        self.any_seen = true;
        if self.still_bigint && !parses_as_i64(s) {
            self.still_bigint = false;
        }
        if self.still_double && !is_float_text(s) {
            self.still_double = false;
        }
        if self.still_bool {
            if !is_bool_word(s) {
                self.still_bool = false;
            }
        }
    }

    /// The inferred SQL type.
    pub fn infer(&self) -> (res: &'static str)
        ensures
            res@ == inferred(*self),
    {
        if !self.any_seen {
            return "VARCHAR";
        }
        if self.still_bool {
            return "BOOLEAN";
        }
        if self.still_bigint {
            return "BIGINT";
        }
        if self.still_double {
            return "DOUBLE";
        }
        "VARCHAR"
    }
}

/// Observing one more value moves the tracker of `vals` to the tracker of
/// `vals.push(v)`.
pub proof fn lemma_tracked_push(vals: Seq<Seq<char>>, v: Seq<char>, t: TypeTracker)
    requires
        v.len() == 0 ==> t == observed_state(vals),
        v.len() > 0 ==> t.any_seen && t.still_bigint == (observed_state(vals).still_bigint && i64_text(v))
            && t.still_double == (observed_state(vals).still_double && float_text(v)) && t.still_bool == (
        observed_state(vals).still_bool && bool_word(ascii_lower(v))),
    ensures
        t == observed_state(vals.push(v)),
{
    let w = vals.push(v);
    let o = observed_state(vals);
    let tw = observed_state(w);
    assert forall|i: int| 0 <= i < vals.len() implies #[trigger] w[i] == vals[i] by {}
    assert(w[vals.len() as int] == v);
    assert(tw.any_seen == (o.any_seen || v.len() > 0)) by {
        if o.any_seen {
            let i = choose|i: int| 0 <= i < vals.len() && (#[trigger] vals[i]).len() > 0;
            assert(w[i] == vals[i]);
        }
        if tw.any_seen {
            let i = choose|i: int| 0 <= i < w.len() && (#[trigger] w[i]).len() > 0;
            if i < vals.len() {
                assert(vals[i] == w[i]);
            }
        }
    }
    assert(tw.still_bigint == (o.still_bigint && (v.len() > 0 ==> i64_text(v)))) by {
        if o.still_bigint && (v.len() > 0 ==> i64_text(v)) {
            assert forall|i: int| 0 <= i < w.len() && (#[trigger] w[i]).len() > 0 implies i64_text(
                w[i],
            ) by {
                if i < vals.len() {
                    assert(vals[i] == w[i]);
                }
            }
        }
        if tw.still_bigint {
            assert forall|i: int|
                0 <= i < vals.len() && (#[trigger] vals[i]).len() > 0 implies i64_text(vals[i]) by {
                assert(w[i] == vals[i]);
            }
        }
    }
    assert(tw.still_double == (o.still_double && (v.len() > 0 ==> float_text(v)))) by {
        if o.still_double && (v.len() > 0 ==> float_text(v)) {
            assert forall|i: int| 0 <= i < w.len() && (#[trigger] w[i]).len() > 0 implies float_text(
                w[i],
            ) by {
                if i < vals.len() {
                    assert(vals[i] == w[i]);
                }
            }
        }
        if tw.still_double {
            assert forall|i: int|
                0 <= i < vals.len() && (#[trigger] vals[i]).len() > 0 implies float_text(vals[i]) by {
                assert(w[i] == vals[i]);
            }
        }
    }
    assert(tw.still_bool == (o.still_bool && (v.len() > 0 ==> bool_word(ascii_lower(v))))) by {
        if o.still_bool && (v.len() > 0 ==> bool_word(ascii_lower(v))) {
            assert forall|i: int| 0 <= i < w.len() && (#[trigger] w[i]).len() > 0 implies bool_word(
                ascii_lower(w[i]),
            ) by {
                if i < vals.len() {
                    assert(vals[i] == w[i]);
                }
            }
        }
        if tw.still_bool {
            assert forall|i: int|
                0 <= i < vals.len() && (#[trigger] vals[i]).len() > 0 implies bool_word(
                    ascii_lower(vals[i]),
                ) by {
                assert(w[i] == vals[i]);
            }
        }
    }
}

// ── distinct values ─────────────────────────────────────────────────────────

/// std `slice::sort` on strings: a stable sort in `str` order, which orders
/// by byte value and therefore by code point. The result is a permutation of
/// the input in non-decreasing order.
#[verifier::external_body]
pub(crate) fn sort_strings(v: &mut Vec<String>)
    ensures
        views(final(v)@).to_multiset() == views(old(v)@).to_multiset(),
        forall|x: Seq<char>| #[trigger] views(final(v)@).contains(x) <==> views(old(v)@).contains(x),
        sorted_weak(views(final(v)@)),
{
    v.sort();
}

/// Upper bound on the distinct count reported per column.
pub open spec fn distinct_cap() -> nat {
    100000
}

/// Number of distinct values, capped at 100 000.
pub open spec fn capped_distinct(vals: Seq<Seq<char>>) -> nat {
    let n = vals.to_set().len();
    if n <= distinct_cap() {
        n
    } else {
        distinct_cap()
    }
}

/// Count of positions of a sorted sequence whose element differs from the
/// previous one.
pub open spec fn runs(s: Seq<Seq<char>>) -> nat
    decreases s.len(),
{
    if s.len() == 0 {
        0
    } else if s.len() >= 2 && s[s.len() - 2] == s.last() {
        runs(s.drop_last())
    } else {
        runs(s.drop_last()) + 1
    }
}

/// In a sorted sequence, the runs are the distinct elements.
pub proof fn lemma_runs_count_distinct(s: Seq<Seq<char>>)
    requires
        sorted_weak(s),
    ensures
        runs(s) == s.to_set().len(),
        s.to_set().finite(),
    decreases s.len(),
{
    if s.len() == 0 {
        assert(s.to_set() =~= Set::<Seq<char>>::empty());
    } else {
        let p = s.drop_last();
        let x = s.last();
        assert(sorted_weak(p)) by {
            assert forall|i: int, j: int| 0 <= i < j < p.len() implies !seq_lt(
                #[trigger] p[j],
                #[trigger] p[i],
            ) by {
                assert(p[i] == s[i]);
                assert(p[j] == s[j]);
            }
        }
        lemma_runs_count_distinct(p);
        assert(s.to_set() =~= p.to_set().insert(x)) by {
            assert forall|y: Seq<char>| s.to_set().contains(y) == p.to_set().insert(x).contains(y) by {
                if s.contains(y) {
                    let k = s.index_of(y);
                    if k < p.len() {
                        assert(p[k] == y);
                    }
                }
                if p.contains(y) {
                    let k = p.index_of(y);
                    assert(s[k] == y);
                }
                if y == x {
                    assert(s[s.len() - 1] == x);
                }
            }
        }
        if s.len() >= 2 && s[s.len() - 2] == x {
            assert(p[p.len() - 1] == x);
            assert(p.to_set().contains(x));
            assert(p.to_set().insert(x) =~= p.to_set());
        } else {
            assert(!p.to_set().contains(x)) by {
                if p.contains(x) {
                    let k = p.index_of(x);
                    let last = s[s.len() - 2];
                    assert(p[k] == x);
                    assert(s[k] == x);
                    if k < s.len() - 2 {
                        assert(!seq_lt(s[s.len() - 2], s[k]));
                        assert(!seq_lt(s[s.len() - 1], s[s.len() - 2]));
                        lemma_seq_lt_total(last, x);
                        if seq_lt(last, x) {
                        } else {
                        }
                    }
                }
            }
        }
    }
}

/// Number of distinct values among `vals`, capped at 100 000.
pub fn count_distinct_capped(vals: Vec<String>) -> (res: u64)
    ensures
        res == capped_distinct(views(vals@)),
{
    let ghost orig = views(vals@);
    let mut v = vals;
    sort_strings(&mut v);
    let ghost sorted = views(v@);
    let mut count: u64 = 0;
    let mut i: usize = 0;
    while i < v.len()
        invariant
            sorted == views(v@),
            sorted_weak(sorted),
            i <= v.len(),
            count == runs(sorted.take(i as int)),
            count <= i,
        decreases v.len() - i,
    {
        let fresh = if i == 0 {
            true
        } else {
            !(v[i - 1] == v[i])
        };
        proof {
            let t = sorted.take(i + 1);
            assert(t.drop_last() =~= sorted.take(i as int));
            if i > 0 {
                assert(t[t.len() - 2] == sorted[i - 1]);
                assert(t.last() == sorted[i as int]);
            }
        }
        if fresh {
            count = count + 1;
        }
        i += 1;
    }
    proof {
        assert(sorted.take(i as int) =~= sorted);
        lemma_runs_count_distinct(sorted);
        assert(sorted.to_set() =~= orig.to_set());
    }
    if count > 100000 {
        100000
    } else {
        count
    }
}

} // verus!
