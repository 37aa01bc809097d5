//! Row counts, column types and column statistics of JSON Lines text and of
//! JSON documents whose top level is an array of objects. `serde_json`
//! parses each value; splitting into lines, trimming and tabulating are
//! verified here.
use vstd::prelude::*;
use serde_json::Value;
use crate::data_diff::{ColumnStat, FileStats, TableModel};
use crate::strmap::{key_views, text_map, StrMap};
use crate::text::{
    chars_of, copy_chars, lemma_seq_lt_irreflexive, is_whitespace, owned, push_str, string_from_chars, unicode_whitespace,
    utf8_lossy, utf8_valid, views,
};
use crate::tabular::count_overflow;
use crate::values::{capped_distinct, count_distinct_capped};

verus! {

// ── values as the tabulation sees them ──────────────────────────────────────

/// The kind of a JSON value; `Number(true)` is a number held as a float.
#[derive(Debug, Clone, Copy, PartialEq, Eq, Structural)]
pub enum JsonKind {
    Null,
    Bool,
    Number(bool),
    Text,
    Array,
    Object,
}

/// One member of a JSON object: its key, the kind of its value, and the
/// value written back as compact JSON text.
pub struct JsonField {
    pub key: String,
    pub kind: JsonKind,
    pub text: String,
}

/// A member as mathematical values.
pub open spec fn field_view(f: JsonField) -> (Seq<char>, JsonKind, Seq<char>) {
    (f.key@, f.kind, f.text@)
}

/// The members of an object, in order.
pub open spec fn fields_view(fs: Seq<JsonField>) -> Seq<(Seq<char>, JsonKind, Seq<char>)> {
    fs.map_values(|f: JsonField| field_view(f))
}

/// The members of an object, if the value is one.
pub open spec fn opt_fields_view(o: Option<Vec<JsonField>>) -> Option<
    Seq<(Seq<char>, JsonKind, Seq<char>)>,
> {
    match o {
        Some(fs) => Some(fields_view(fs@)),
        None => None,
    }
}

/// The members of several objects.
pub open spec fn objects_view(os: Seq<Vec<JsonField>>) -> Seq<Seq<(Seq<char>, JsonKind, Seq<char>)>> {
    os.map_values(|o: Vec<JsonField>| fields_view(o@))
}

/// What `serde_json` makes of `text` read as one JSON value: the error text,
/// or, when the value is an object, its members in the order the object
/// iterates them (`None` for any other value).
pub uninterp spec fn json_object_fields(text: Seq<char>) -> Result<
    Option<Seq<(Seq<char>, JsonKind, Seq<char>)>>,
    Seq<char>,
>;

/// What `serde_json` makes of `data` read as one JSON document: the error
/// text, or, when the document is an array, for each item its members if it
/// is an object (`None` for a document that is not an array).
pub uninterp spec fn json_array_items(data: Seq<u8>) -> Result<
    Option<Seq<Option<Seq<(Seq<char>, JsonKind, Seq<char>)>>>>,
    Seq<char>,
>;

/// `serde_json::from_str::<Value>(text)`; for an object, each member with the
/// kind of its value and `Value::to_string` of the value. The outcome is
/// named by `json_object_fields`.
#[verifier::external_body]
fn parse_json_object(text: &str) -> (res: Result<Option<Vec<JsonField>>, String>)
    ensures
        json_object_fields(text@) == match res {
            Ok(o) => Ok(opt_fields_view(o)),
            Err(e) => Err(e@),
        },
{
    let v: Value = serde_json::from_str(text).map_err(|e| e.to_string())?;
    Ok(v.as_object().map(|m| m.iter().map(|(k, x)| JsonField {
        key: k.clone(),
        kind: match x {
            Value::Null => JsonKind::Null,
            Value::Bool(_) => JsonKind::Bool,
            Value::Number(n) => JsonKind::Number(n.is_f64()),
            Value::String(_) => JsonKind::Text,
            Value::Array(_) => JsonKind::Array,
            Value::Object(_) => JsonKind::Object,
        },
        text: x.to_string(),
    }).collect()))
}

/// The items of a document, each as the members of an object or `None`.
pub open spec fn items_view(items: Seq<Option<Vec<JsonField>>>) -> Seq<
    Option<Seq<(Seq<char>, JsonKind, Seq<char>)>>,
> {
    items.map_values(|o: Option<Vec<JsonField>>| opt_fields_view(o))
}

/// `serde_json::from_slice::<Value>(data)`; for an array, each item that is
/// an object as its members (as in [`parse_json_object`]). The outcome is
/// named by `json_array_items`.
#[verifier::external_body]
fn parse_json_items(data: &[u8]) -> (res: Result<Option<Vec<Option<Vec<JsonField>>>>, String>)
    ensures
        json_array_items(data@) == match res {
            Ok(Some(items)) => Ok(Some(items_view(items@))),
            Ok(None) => Ok(None),
            Err(e) => Err(e@),
        },
{
    let v: Value = serde_json::from_slice(data).map_err(|e| e.to_string())?;
    Ok(v.as_array().map(|items| items.iter().map(|it| it.as_object().map(|m| m.iter().map(
        |(k, x)| JsonField {
            key: k.clone(),
            kind: match x {
                Value::Null => JsonKind::Null,
                Value::Bool(_) => JsonKind::Bool,
                Value::Number(n) => JsonKind::Number(n.is_f64()),
                Value::String(_) => JsonKind::Text,
                Value::Array(_) => JsonKind::Array,
                Value::Object(_) => JsonKind::Object,
            },
            text: x.to_string(),
        }).collect())).collect()))
}


// ── tabulation ──────────────────────────────────────────────────────────────

/// The members of all the objects, object after object.
pub open spec fn all_fields(objs: Seq<Seq<(Seq<char>, JsonKind, Seq<char>)>>) -> Seq<
    (Seq<char>, JsonKind, Seq<char>),
>
    decreases objs.len(),
{
    if objs.len() == 0 {
        seq![]
    } else {
        all_fields(objs.drop_last()) + objs.last()
    }
}

/// The values found under key `k`, in order, each as its kind and its text.
pub open spec fn hits(fs: Seq<(Seq<char>, JsonKind, Seq<char>)>, k: Seq<char>) -> Seq<
    (JsonKind, Seq<char>),
>
    decreases fs.len(),
{
    if fs.len() == 0 {
        seq![]
    } else {
        let prev = hits(fs.drop_last(), k);
        if fs.last().0 == k {
            prev.push((fs.last().1, fs.last().2))
        } else {
            prev
        }
    }
}

/// Kinds whose SQL-like type is not `VARCHAR`: booleans, numbers, arrays, objects.
pub open spec fn typed(k: JsonKind) -> bool {
    k is Bool || k is Number || k is Array || k is Object
}

/// The kind of the first value that is neither null nor a string.
pub open spec fn first_typed(h: Seq<(JsonKind, Seq<char>)>) -> Option<JsonKind>
    decreases h.len(),
{
    if h.len() == 0 {
        None
    } else {
        let prev = first_typed(h.drop_last());
        if prev is Some {
            prev
        } else if typed(h.last().0) {
            Some(h.last().0)
        } else {
            None
        }
    }
}

/// The SQL-like type a column takes from the first value that decides it;
/// `VARCHAR` when only nulls and strings occur.
pub open spec fn kind_type(k: Option<JsonKind>) -> Seq<char> {
    match k {
        Some(JsonKind::Bool) => "BOOLEAN"@,
        Some(JsonKind::Number(true)) => "DOUBLE"@,
        Some(JsonKind::Number(false)) => "BIGINT"@,
        Some(JsonKind::Array) => "JSON"@,
        Some(JsonKind::Object) => "JSON"@,
        _ => "VARCHAR"@,
    }
}

/// Number of null values.
pub open spec fn json_nulls(h: Seq<(JsonKind, Seq<char>)>) -> nat
    decreases h.len(),
{
    if h.len() == 0 {
        0
    } else {
        json_nulls(h.drop_last()) + if h.last().0 is Null {
            1nat
        } else {
            0nat
        }
    }
}

/// The texts of the non-null values, in order.
pub open spec fn json_texts(h: Seq<(JsonKind, Seq<char>)>) -> Seq<Seq<char>>
    decreases h.len(),
{
    if h.len() == 0 {
        seq![]
    } else {
        let prev = json_texts(h.drop_last());
        if h.last().0 is Null {
            prev
        } else {
            prev.push(h.last().1)
        }
    }
}

/// Column name → type over the members `fs`.
pub open spec fn json_schema(fs: Seq<(Seq<char>, JsonKind, Seq<char>)>) -> Map<Seq<char>, Seq<char>> {
    Map::new(
        |k: Seq<char>| hits(fs, k).len() > 0,
        |k: Seq<char>| kind_type(first_typed(hits(fs, k))),
    )
}

/// Column name → statistics over the members `fs`.
pub open spec fn json_column_stats(fs: Seq<(Seq<char>, JsonKind, Seq<char>)>) -> Map<
    Seq<char>,
    ColumnStat,
> {
    Map::new(
        |k: Seq<char>| hits(fs, k).len() > 0,
        |k: Seq<char>|
            ColumnStat {
                nulls: json_nulls(hits(fs, k)) as i64,
                approx_distinct: capped_distinct(json_texts(hits(fs, k))) as i64,
            },
    )
}

/// Row count `rows`, and the schema and (when `deep`) statistics of `objs`.
pub open spec fn json_model(
    objs: Seq<Seq<(Seq<char>, JsonKind, Seq<char>)>>,
    rows: int,
    deep: bool,
) -> TableModel {
    (
        rows,
        json_schema(all_fields(objs)),
        if deep {
            json_column_stats(all_fields(objs))
        } else {
            Map::empty()
        },
    )
}

proof fn lemma_hits_bound(fs: Seq<(Seq<char>, JsonKind, Seq<char>)>, k: Seq<char>)
    ensures
        hits(fs, k).len() <= fs.len(),
    decreases fs.len(),
{
    if fs.len() > 0 {
        lemma_hits_bound(fs.drop_last(), k);
    }
}

proof fn lemma_nulls_bound(h: Seq<(JsonKind, Seq<char>)>)
    ensures
        json_nulls(h) <= h.len(),
    decreases h.len(),
{
    if h.len() > 0 {
        lemma_nulls_bound(h.drop_last());
    }
}

/// The state of one column while the members are read.
struct JsonColumn {
    first: Option<JsonKind>,
    nulls: u64,
    texts: Vec<String>,
}

/// `c` summarises the values `h` of its column.
spec fn column_ok(c: JsonColumn, h: Seq<(JsonKind, Seq<char>)>, deep: bool) -> bool {
    &&& c.first == first_typed(h)
    &&& c.nulls == json_nulls(h)
    &&& deep ==> views(c.texts@) == json_texts(h)
}

/// Adds one value of the column.
fn absorb(c: &mut JsonColumn, f: &JsonField, deep: bool, Ghost(h): Ghost<Seq<(JsonKind, Seq<char>)>>)
    requires
        column_ok(*old(c), h, deep),
        json_nulls(h) < i64::MAX,
    ensures
        column_ok(*final(c), h.push((f.kind, f.text@)), deep),
{
    let ghost x = (f.kind, f.text@);
    assert(h.push(x).drop_last() =~= h);
    match f.kind {
        JsonKind::Null => {
            c.nulls = c.nulls + 1;
        },
        _ => {
            let kind = f.kind;
            if c.first.is_none() {
                let decides = match kind {
                    JsonKind::Bool => true,
                    JsonKind::Number(_) => true,
                    JsonKind::Array => true,
                    JsonKind::Object => true,
                    _ => false,
                };
                if decides {
                    c.first = Some(kind);
                }
            }
            if deep {
                let ghost before = views(c.texts@);
                c.texts.push(f.text.clone());
                assert(views(c.texts@) =~= before.push(f.text@));
            }
        },
    }
}

/// Reads the members of all objects into per-column state, in key order.
fn json_columns(objs: &Vec<Vec<JsonField>>, deep: bool) -> (res: StrMap<JsonColumn>)
    requires
        all_fields(objects_view(objs@)).len() <= i64::MAX,
    ensures
        res.wf(),
        forall|k: Seq<char>| #[trigger]
            res@.contains_key(k) <==> hits(all_fields(objects_view(objs@)), k).len() > 0,
        forall|k: Seq<char>| #[trigger]
            res@.contains_key(k) ==> column_ok(
                res@[k],
                hits(all_fields(objects_view(objs@)), k),
                deep,
            ),
{
    let ghost ov = objects_view(objs@);
    let mut cols: StrMap<JsonColumn> = StrMap::new();
    let ghost mut done: Seq<(Seq<char>, JsonKind, Seq<char>)> = seq![];
    proof {
        assert(ov.take(0) =~= Seq::<Seq<(Seq<char>, JsonKind, Seq<char>)>>::empty());
    }
    for o in 0..objs.len()
        invariant
            ov == objects_view(objs@),
            all_fields(ov).len() <= i64::MAX,
            cols.wf(),
            done == all_fields(ov.take(o as int)),
            forall|k: Seq<char>| #[trigger] cols@.contains_key(k) <==> hits(done, k).len() > 0,
            forall|k: Seq<char>| #[trigger]
                cols@.contains_key(k) ==> column_ok(cols@[k], hits(done, k), deep),
    {
        let ghost row = ov[o as int];
        proof {
            assert(ov.take(o + 1).drop_last() =~= ov.take(o as int));
            lemma_all_fields_prefix(ov, o + 1);
        }
        let fs = &objs[o];
        for j in 0..fs.len()
            invariant
                ov == objects_view(objs@),
                all_fields(ov).len() <= i64::MAX,
                row == ov[o as int],
                fs@ == objs@[o as int]@,
                o < objs@.len(),
                all_fields(ov.take(o + 1)).len() <= all_fields(ov).len(),
                all_fields(ov.take(o + 1)) == all_fields(ov.take(o as int)) + row,
                cols.wf(),
                done == all_fields(ov.take(o as int)) + row.take(j as int),
                forall|k: Seq<char>| #[trigger] cols@.contains_key(k) <==> hits(done, k).len() > 0,
                forall|k: Seq<char>| #[trigger]
                    cols@.contains_key(k) ==> column_ok(cols@[k], hits(done, k), deep),
        {
            let f = &fs[j];
            let ghost fv = field_view(*f);
            assert(row[j as int] == fv);
            let key = chars_of(f.key.as_str());
            let ghost before = cols;
            let ghost h = hits(done, key@);
            proof {
                lemma_hits_bound(done, key@);
                lemma_nulls_bound(h);
                assert(done.len() < all_fields(ov.take(o + 1)).len());
            }
            match cols.find(key.as_slice()) {
                Ok(idx) => {
                    proof {
                        before.lemma_view_at(idx as int);
                    }
                    {
                        let c = cols.value_mut(idx);
                        absorb(c, f, deep, Ghost(h));
                    }
                    proof {
                        before.lemma_update_at(&cols, idx as int);
                    }
                },
                Err(_) => {
                    let mut c = JsonColumn { first: None, nulls: 0, texts: Vec::new() };
                    proof {
                        assert(views(c.texts@) =~= Seq::<Seq<char>>::empty());
                        if before.key_seq().contains(key@) {
                            let jj = before.key_seq().index_of(key@);
                            lemma_seq_lt_irreflexive(key@);
                        }
                        assert(!before@.contains_key(key@));
                        assert(h.len() == 0);
                        assert(h =~= Seq::<(JsonKind, Seq<char>)>::empty());
                    }
                    absorb(&mut c, f, deep, Ghost(h));
                    cols.insert(key, c);
                },
            }
            proof {
                let nd = done.push(fv);
                assert(nd.drop_last() =~= done);
                assert(nd =~= all_fields(ov.take(o as int)) + row.take(j + 1));
                assert forall|k: Seq<char>| #[trigger] cols@.contains_key(k) <==> hits(nd, k).len() > 0 by {
                    if k != key@ {
                        assert(hits(nd, k) == hits(done, k));
                    }
                }
                assert forall|k: Seq<char>| #[trigger] cols@.contains_key(k) implies column_ok(
                    cols@[k],
                    hits(nd, k),
                    deep,
                ) by {
                    if k != key@ {
                        assert(hits(nd, k) == hits(done, k));
                    }
                }
                done = nd;
            }
        }
        proof {
            assert(row.take(fs@.len() as int) =~= row);
        }
    }
    proof {
        assert(ov.take(objs@.len() as int) =~= ov);
    }
    cols
}

/// The SQL-like type name of a column whose deciding kind is `k`.
fn kind_type_name(k: Option<JsonKind>) -> (res: &'static str)
    ensures
        res@ == kind_type(k),
{
    match k {
        Some(JsonKind::Bool) => "BOOLEAN",
        Some(JsonKind::Number(true)) => "DOUBLE",
        Some(JsonKind::Number(false)) => "BIGINT",
        Some(JsonKind::Array) => "JSON",
        Some(JsonKind::Object) => "JSON",
        _ => "VARCHAR",
    }
}

/// Row count `rows`, schema and (when `deep`) column statistics of the
/// objects `objs`.
pub fn json_stats(objs: &Vec<Vec<JsonField>>, rows: usize, deep: bool) -> (res: FileStats)
    requires
        rows <= i64::MAX,
        all_fields(objects_view(objs@)).len() <= i64::MAX,
    ensures
        res.wf(),
        res.model() == json_model(objects_view(objs@), rows as int, deep),
{
    let cols = json_columns(objs, deep);
    let ghost fs = all_fields(objects_view(objs@));
    let mut schema: StrMap<String> = StrMap { keys: Vec::new(), vals: Vec::new() };
    let mut stats: StrMap<ColumnStat> = StrMap { keys: Vec::new(), vals: Vec::new() };
    let n = cols.keys.len();
    for i in 0..n
        invariant
            fs == all_fields(objects_view(objs@)),
            fs.len() <= i64::MAX,
            cols.wf(),
            n == cols.keys@.len(),
            forall|k: Seq<char>| #[trigger] cols@.contains_key(k) <==> hits(fs, k).len() > 0,
            forall|k: Seq<char>| #[trigger]
                cols@.contains_key(k) ==> column_ok(cols@[k], hits(fs, k), deep),
            schema.keys@.len() == i,
            schema.vals@.len() == i,
            key_views(schema.keys@) == cols.key_seq().take(i as int),
            forall|m: int| 0 <= m < i ==> (#[trigger] schema.vals@[m])@ == kind_type(
                cols.vals@[m].first,
            ),
            deep ==> stats.keys@.len() == i,
            deep ==> stats.vals@.len() == i,
            deep ==> key_views(stats.keys@) == cols.key_seq().take(i as int),
            deep ==> forall|m: int| 0 <= m < i ==> #[trigger] stats.vals@[m] == (ColumnStat {
                nulls: cols.vals@[m].nulls as i64,
                approx_distinct: capped_distinct(views(cols.vals@[m].texts@)) as i64,
            }),
            !deep ==> stats.keys@.len() == 0 && stats.vals@.len() == 0,
    {
        let ghost k = cols.key_seq()[i as int];
        proof {
            cols.lemma_view_at(i as int);
            lemma_hits_bound(fs, k);
            lemma_nulls_bound(hits(fs, k));
        }
        let ghost sk = key_views(schema.keys@);
        schema.keys.push(copy_chars(cols.keys[i].as_slice()));
        schema.vals.push(owned(kind_type_name(cols.vals[i].first)));
        assert(key_views(schema.keys@) =~= sk.push(k));
        assert(cols.key_seq().take(i + 1) =~= cols.key_seq().take(i as int).push(k));
        if deep {
            let ghost tk = key_views(stats.keys@);
            stats.keys.push(copy_chars(cols.keys[i].as_slice()));
            let texts = cols.vals[i].texts.clone();
            assert(texts@ =~= cols.vals@[i as int].texts@);
            let distinct = count_distinct_capped(texts);
            stats.vals.push(ColumnStat { nulls: cols.vals[i].nulls as i64, approx_distinct: distinct as i64 });
            assert(key_views(stats.keys@) =~= tk.push(k));
        }
    }
    proof {
        assert(cols.key_seq().take(n as int) =~= cols.key_seq());
        assert(schema.key_seq() == cols.key_seq());
        assert(text_map(schema@) =~= json_schema(fs)) by {
            assert forall|k: Seq<char>| #[trigger] text_map(schema@).contains_key(k) == json_schema(fs).contains_key(k) by {
                assert(cols@.contains_key(k) == schema@.contains_key(k));
            }
            assert forall|k: Seq<char>| text_map(schema@).contains_key(k) implies #[trigger] text_map(schema@)[k] == json_schema(fs)[k] by {
                let idx = cols.key_seq().index_of(k);
                cols.lemma_view_at(idx);
                schema.lemma_view_at(idx);
            }
        }
        if deep {
            assert(stats.key_seq() == cols.key_seq());
            assert(stats@ =~= json_column_stats(fs)) by {
                assert forall|k: Seq<char>| #[trigger] stats@.contains_key(k) == json_column_stats(fs).contains_key(k) by {
                    assert(cols@.contains_key(k) == stats@.contains_key(k));
                }
                assert forall|k: Seq<char>| stats@.contains_key(k) implies #[trigger] stats@[k] == json_column_stats(fs)[k] by {
                    let idx = cols.key_seq().index_of(k);
                    cols.lemma_view_at(idx);
                    stats.lemma_view_at(idx);
                }
            }
        } else {
            assert(stats@ =~= Map::<Seq<char>, ColumnStat>::empty());
        }
    }
    FileStats { row_count: rows as i64, schema, column_stats: stats }
}

/// The members of the first `n` objects come first among all the members.
proof fn lemma_all_fields_prefix(objs: Seq<Seq<(Seq<char>, JsonKind, Seq<char>)>>, n: int)
    requires
        0 <= n <= objs.len(),
    ensures
        all_fields(objs.take(n)).len() <= all_fields(objs).len(),
    decreases objs.len(),
{
    if n < objs.len() {
        assert(objs.drop_last().take(n) =~= objs.take(n));
        lemma_all_fields_prefix(objs.drop_last(), n);
    } else {
        assert(objs.take(n) =~= objs);
    }
}

// ── JSON Lines ──────────────────────────────────────────────────────────────

/// Splits `d` at every line feed, continuing the piece `cur` already begun.
pub open spec fn split_lines_from(d: Seq<u8>, cur: Seq<u8>) -> Seq<Seq<u8>>
    decreases d.len(),
{
    if d.len() == 0 {
        seq![cur]
    } else if d[0] == 10u8 {
        seq![cur] + split_lines_from(d.drop_first(), seq![])
    } else {
        split_lines_from(d.drop_first(), cur.push(d[0]))
    }
}

/// The lines `BufRead::lines` yields for `d`: the pieces between line feeds,
/// without the empty piece after a final line feed. (A carriage return
/// before a line feed stays in the line; trimming removes it.)
pub open spec fn byte_lines(d: Seq<u8>) -> Seq<Seq<u8>> {
    let pieces = split_lines_from(d, seq![]);
    if pieces.last().len() == 0 {
        pieces.drop_last()
    } else {
        pieces
    }
}

/// The byte views of a sequence of byte vectors.
pub open spec fn byte_pieces(v: Seq<Vec<u8>>) -> Seq<Seq<u8>> {
    v.map_values(|p: Vec<u8>| p@)
}

proof fn lemma_split_lines_nonempty(d: Seq<u8>, cur: Seq<u8>)
    ensures
        split_lines_from(d, cur).len() >= 1,
    decreases d.len(),
{
    if d.len() > 0 {
        if d[0] == 10u8 {
            lemma_split_lines_nonempty(d.drop_first(), seq![]);
        } else {
            lemma_split_lines_nonempty(d.drop_first(), cur.push(d[0]));
        }
    }
}

/// The lines of `d`, as `BufRead::lines` splits them.
pub fn split_lines(d: &[u8]) -> (res: Vec<Vec<u8>>)
    ensures
        byte_pieces(res@) == byte_lines(d@),
{
    let mut out: Vec<Vec<u8>> = Vec::new();
    let mut cur: Vec<u8> = Vec::new();
    let mut i: usize = 0;
    assert(d@.skip(0) =~= d@);
    while i < d.len()
        invariant
            i <= d.len(),
            byte_pieces(out@) + split_lines_from(d@.skip(i as int), cur@) == split_lines_from(
                d@,
                seq![],
            ),
        decreases d.len() - i,
    {
        assert(d@.skip(i as int).drop_first() =~= d@.skip(i + 1));
        if d[i] == 10u8 {
            let piece = cur;
            cur = Vec::new();
            let ghost before = byte_pieces(out@);
            out.push(piece);
            assert(byte_pieces(out@) =~= before.push(piece@));
            assert(before.push(piece@) + split_lines_from(d@.skip(i + 1), cur@) =~= before + (
            seq![piece@] + split_lines_from(d@.skip(i + 1), seq![])));
        } else {
            cur.push(d[i]);
        }
        i += 1;
    }
    let ghost before = byte_pieces(out@);
    let ghost last = cur@;
    let last_empty = cur.len() == 0;
    out.push(cur);
    proof {
        assert(d@.skip(i as int) =~= Seq::<u8>::empty());
        assert(byte_pieces(out@) =~= before.push(last));
        assert(before.push(last) =~= before + seq![last]);
    }
    if last_empty {
        let ghost full = byte_pieces(out@);
        out.pop();
        assert(byte_pieces(out@) =~= full.drop_last());
    }
    out
}

/// Drops leading whitespace (`char::is_whitespace`).
pub open spec fn trim_start(s: Seq<char>) -> Seq<char>
    decreases s.len(),
{
    if s.len() > 0 && unicode_whitespace(s[0]) {
        trim_start(s.drop_first())
    } else {
        s
    }
}

/// Drops trailing whitespace (`char::is_whitespace`).
pub open spec fn trim_end(s: Seq<char>) -> Seq<char>
    decreases s.len(),
{
    if s.len() > 0 && unicode_whitespace(s.last()) {
        trim_end(s.drop_last())
    } else {
        s
    }
}

/// `str::trim`: without leading and trailing whitespace.
pub open spec fn trimmed(s: Seq<char>) -> Seq<char> {
    trim_end(trim_start(s))
}

/// `str::trim` on a character slice.
pub fn trim_chars(s: &[char]) -> (res: Vec<char>)
    ensures
        res@ == trimmed(s@),
{
    let mut a: usize = 0;
    assert(s@.skip(0) =~= s@);
    while a < s.len() && is_whitespace(s[a])
        invariant
            a <= s.len(),
            trim_start(s@) == trim_start(s@.skip(a as int)),
        decreases s.len() - a,
    {
        assert(s@.skip(a as int).drop_first() =~= s@.skip(a + 1));
        a += 1;
    }
    assert(trim_start(s@) == s@.skip(a as int));
    let mut b: usize = s.len();
    assert(s@.subrange(a as int, b as int) =~= s@.skip(a as int));
    while b > a && is_whitespace(s[b - 1])
        invariant
            a <= b <= s.len(),
            trim_start(s@) == s@.skip(a as int),
            trim_end(s@.skip(a as int)) == trim_end(s@.subrange(a as int, b as int)),
        decreases b - a,
    {
        assert(s@.subrange(a as int, b as int).drop_last() =~= s@.subrange(a as int, b - 1));
        b -= 1;
    }
    let mut res: Vec<char> = Vec::new();
    let mut k = a;
    while k < b
        invariant
            a <= k <= b <= s.len(),
            res@ == s@.subrange(a as int, k as int),
        decreases b - k,
    {
        res.push(s[k]);
        assert(s@.subrange(a as int, k + 1) =~= s@.subrange(a as int, k as int).push(s@[k as int]));
        k += 1;
    }
    res
}

/// The error `BufRead::lines` reports for a line that is not UTF-8.
pub open spec fn invalid_utf8_message() -> Seq<char> {
    "stream did not contain valid UTF-8"@
}

/// What one line contributes: an error, nothing (a blank line or a value
/// that is not an object), or the members of an object.
pub open spec fn line_outcome(line: Seq<u8>) -> Result<
    Option<Seq<(Seq<char>, JsonKind, Seq<char>)>>,
    Seq<char>,
> {
    if !vstd::utf8::valid_utf8(line) {
        Err(invalid_utf8_message())
    } else {
        let t = trimmed(vstd::utf8::decode_utf8(line));
        if t.len() == 0 {
            Ok(None)
        } else {
            match json_object_fields(t) {
                Err(e) => Err("JSON parse: "@ + e),
                Ok(o) => Ok(o),
            }
        }
    }
}

/// The objects of JSON Lines, read line by line up to the first error.
pub open spec fn jsonl_objects(lines: Seq<Seq<u8>>) -> Result<
    Seq<Seq<(Seq<char>, JsonKind, Seq<char>)>>,
    Seq<char>,
>
    decreases lines.len(),
{
    if lines.len() == 0 {
        Ok(seq![])
    } else {
        match line_outcome(lines[0]) {
            Err(e) => Err(e),
            Ok(o) => match jsonl_objects(lines.drop_first()) {
                Err(e) => Err(e),
                Ok(rest) => Ok(
                    match o {
                        Some(fs) => seq![fs] + rest,
                        None => rest,
                    },
                ),
            },
        }
    }
}

/// `acc` followed by the objects of `r`, or the error of `r`.
pub open spec fn after(
    acc: Seq<Seq<(Seq<char>, JsonKind, Seq<char>)>>,
    r: Result<Seq<Seq<(Seq<char>, JsonKind, Seq<char>)>>, Seq<char>>,
) -> Result<Seq<Seq<(Seq<char>, JsonKind, Seq<char>)>>, Seq<char>> {
    match r {
        Ok(rest) => Ok(acc + rest),
        Err(e) => Err(e),
    }
}

/// `"JSON parse: "` followed by the parser's message.
fn parse_error(e: &str) -> (res: String)
    ensures
        res@ == "JSON parse: "@ + e@,
{
    let mut m = owned("JSON parse: ");
    push_str(&mut m, e);
    m
}

/// What one line of JSON Lines contributes.
fn line_result(line: &[u8]) -> (res: Result<Option<Vec<JsonField>>, String>)
    ensures
        line_outcome(line@) == match res {
            Ok(o) => Ok(opt_fields_view(o)),
            Err(e) => Err(e@),
        },
{
    if !utf8_valid(line) {
        return Err(owned("stream did not contain valid UTF-8"));
    }
    let text = utf8_lossy(line);
    let cs = chars_of(text.as_str());
    let t = trim_chars(cs.as_slice());
    if t.len() == 0 {
        return Ok(None);
    }
    let ts = string_from_chars(t.as_slice());
    match parse_json_object(ts.as_str()) {
        Err(e) => Err(parse_error(e.as_str())),
        Ok(o) => Ok(o),
    }
}

/// The objects of JSON Lines text, line by line up to the first error.
pub fn jsonl_rows(data: &[u8]) -> (res: Result<Vec<Vec<JsonField>>, String>)
    ensures
        jsonl_objects(byte_lines(data@)) == match res {
            Ok(objs) => Ok(objects_view(objs@)),
            Err(e) => Err(e@),
        },
{
    let lines = split_lines(data);
    let ghost ls = byte_lines(data@);
    let mut objs: Vec<Vec<JsonField>> = Vec::new();
    assert(ls.skip(0) =~= ls);
    assert(objects_view(objs@) + Seq::<Seq<(Seq<char>, JsonKind, Seq<char>)>>::empty() =~= objects_view(objs@));
    for i in 0..lines.len()
        invariant
            byte_pieces(lines@) == ls,
            ls == byte_lines(data@),
            jsonl_objects(ls) == after(objects_view(objs@), jsonl_objects(ls.skip(i as int))),
    {
        let ghost rest = ls.skip(i as int);
        assert(rest[0] == lines@[i as int]@);
        assert(rest.drop_first() =~= ls.skip(i + 1));
        match line_result(lines[i].as_slice()) {
            Err(e) => {
                assert(line_outcome(rest[0]) == Err::<Option<Seq<(Seq<char>, JsonKind, Seq<char>)>>, Seq<char>>(e@));
                assert(jsonl_objects(rest) == Err::<Seq<Seq<(Seq<char>, JsonKind, Seq<char>)>>, Seq<char>>(e@));
                assert(jsonl_objects(byte_lines(data@)) == Err::<Seq<Seq<(Seq<char>, JsonKind, Seq<char>)>>, Seq<char>>(e@));
                return Err(e);
            },
            Ok(None) => {},
            Ok(Some(fs)) => {
                let ghost acc = objects_view(objs@);
                let ghost row = fields_view(fs@);
                objs.push(fs);
                assert(objects_view(objs@) =~= acc.push(row));
                proof {
                    match jsonl_objects(ls.skip(i + 1)) {
                        Ok(r) => {
                            assert(acc + (seq![row] + r) =~= acc.push(row) + r);
                        },
                        Err(_) => {},
                    }
                }
            },
        }
    }
    proof {
        assert(ls.skip(lines@.len() as int) =~= Seq::<Seq<u8>>::empty());
        assert(objects_view(objs@) + Seq::<Seq<(Seq<char>, JsonKind, Seq<char>)>>::empty() =~= objects_view(objs@));
    }
    Ok(objs)
}

/// Whether the objects hold at most `i64::MAX` members in all.
fn members_fit(objs: &Vec<Vec<JsonField>>) -> (res: bool)
    ensures
        res == (all_fields(objects_view(objs@)).len() <= i64::MAX),
{
    let ghost ov = objects_view(objs@);
    let mut total: u64 = 0;
    assert(ov.take(0) =~= Seq::<Seq<(Seq<char>, JsonKind, Seq<char>)>>::empty());
    for o in 0..objs.len()
        invariant
            ov == objects_view(objs@),
            total == all_fields(ov.take(o as int)).len(),
            total <= i64::MAX,
    {
        assert(ov.take(o + 1).drop_last() =~= ov.take(o as int));
        assert(ov[o as int].len() == objs@[o as int]@.len());
        let n = objs[o].len() as u64;
        if n > 9223372036854775807u64 - total {
            proof {
                lemma_all_fields_prefix(ov, o + 1);
            }
            return false;
        }
        total = total + n;
    }
    assert(ov.take(objs@.len() as int) =~= ov);
    true
}

/// The outcome of reading JSON Lines text.
pub open spec fn jsonl_outcome(data: Seq<u8>, deep: bool) -> Result<TableModel, Seq<char>> {
    match jsonl_objects(byte_lines(data)) {
        Err(e) => Err(e),
        Ok(objs) => if objs.len() <= i64::MAX && all_fields(objs).len() <= i64::MAX {
            Ok(json_model(objs, objs.len() as int, deep))
        } else {
            Err(count_overflow())
        },
    }
}

/// Reads JSON Lines: one row per line holding an object; blank lines and
/// other values are skipped.
pub fn read_jsonl(data: &[u8], deep: bool) -> (res: Result<FileStats, String>)
    ensures
        match res {
            Ok(s) => s.wf() && jsonl_outcome(data@, deep) == Ok::<TableModel, Seq<char>>(s.model()),
            Err(e) => jsonl_outcome(data@, deep) == Err::<TableModel, Seq<char>>(e@),
        },
{
    match jsonl_rows(data) {
        Err(e) => Err(e),
        Ok(objs) => {
            if objs.len() as u64 > 9223372036854775807u64 || !members_fit(&objs) {
                Err(owned("count exceeds the range of i64"))
            } else {
                Ok(json_stats(&objs, objs.len(), deep))
            }
        },
    }
}

// ── JSON documents ──────────────────────────────────────────────────────────

/// The items that are objects, in order.
pub open spec fn object_items(items: Seq<Option<Seq<(Seq<char>, JsonKind, Seq<char>)>>>) -> Seq<
    Seq<(Seq<char>, JsonKind, Seq<char>)>,
>
    decreases items.len(),
{
    if items.len() == 0 {
        seq![]
    } else {
        let prev = object_items(items.drop_last());
        match items.last() {
            Some(fs) => prev.push(fs),
            None => prev,
        }
    }
}

/// The message for a document whose top level is not an array.
pub open spec fn not_array_message() -> Seq<char> {
    "large JSON is not a top-level array; skipping data diff"@
}

/// The outcome of reading a JSON document: one row per array item, columns
/// from the items that are objects.
pub open spec fn json_outcome(data: Seq<u8>, deep: bool) -> Result<TableModel, Seq<char>> {
    match json_array_items(data) {
        Err(e) => Err("JSON parse: "@ + e),
        Ok(None) => Err(not_array_message()),
        Ok(Some(items)) => if items.len() <= i64::MAX && all_fields(object_items(items)).len()
            <= i64::MAX {
            Ok(json_model(object_items(items), items.len() as int, deep))
        } else {
            Err(count_overflow())
        },
    }
}

/// Reads a JSON document whose top level is an array of objects.
pub fn read_json(data: &[u8], deep: bool) -> (res: Result<FileStats, String>)
    ensures
        match res {
            Ok(s) => s.wf() && json_outcome(data@, deep) == Ok::<TableModel, Seq<char>>(s.model()),
            Err(e) => json_outcome(data@, deep) == Err::<TableModel, Seq<char>>(e@),
        },
{
    match parse_json_items(data) {
        Err(e) => Err(parse_error(e.as_str())),
        Ok(None) => Err(owned("large JSON is not a top-level array; skipping data diff")),
        Ok(Some(items)) => {
            let ghost iv = items_view(items@);
            let n = items.len();
            let mut items = items;
            let mut objs: Vec<Vec<JsonField>> = Vec::new();
            assert(iv.take(0) =~= Seq::<Option<Seq<(Seq<char>, JsonKind, Seq<char>)>>>::empty());
            for i in 0..n
                invariant
                    n == items@.len(),
                    iv.len() == n,
                    forall|j: int| i <= j < n ==> #[trigger] opt_fields_view(items@[j]) == iv[j],
                    objects_view(objs@) == object_items(iv.take(i as int)),
            {
                assert(iv.take(i + 1).drop_last() =~= iv.take(i as int));
                assert(iv.take(i + 1).last() == iv[i as int]);
                let ghost acc = objects_view(objs@);
                let taken = items[i].take();
                assert(opt_fields_view(taken) == iv[i as int]);
                match taken {
                    Some(fs) => {
                        objs.push(fs);
                        assert(objects_view(objs@) =~= acc.push(fields_view(fs@)));
                    },
                    None => {},
                }
            }
            assert(iv.take(n as int) =~= iv);
            if n as u64 > 9223372036854775807u64 || !members_fit(&objs) {
                Err(owned("count exceeds the range of i64"))
            } else {
                Ok(json_stats(&objs, n, deep))
            }
        },
    }
}

} // verus!
