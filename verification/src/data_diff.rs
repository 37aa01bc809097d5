//! Row-count and schema comparison of one data file present in both trees.
use vstd::prelude::*;
use crate::strmap::{key_views, text_map, StrMap};
use crate::jsondata::{json_outcome, jsonl_outcome, read_json, read_jsonl};
use crate::paths::{
    extension_of_path, forward_slashes, path_extension, rel_to_str, suffix_of, suffix_of_path,
};
use crate::tabular::{count_overflow, csv_outcome, read_csv};
use crate::text::{
    ascii_lower, chars_eq_str, chars_of, copy_chars, lemma_seq_lt_transitive, lower_ascii, owned,
    push_chars, push_str, seq_lt, sorted_strict, str_eq, views,
};
use crate::walker::{lemma_push_contains, merge_keys};
use bytes::Bytes;
use parquet::file::metadata::ParquetMetaDataReader;

verus! {

/// Null count and (capped) distinct count of one column.
#[derive(Debug, Clone, Copy, PartialEq, Eq, Structural)]
pub struct ColumnStat {
    pub nulls: i64,
    pub approx_distinct: i64,
}

/// Row count, column name → type, and column name → statistics.
pub type TableModel = (int, Map<Seq<char>, Seq<char>>, Map<Seq<char>, ColumnStat>);

/// What reading one data file yields.
pub struct FileStats {
    pub row_count: i64,
    /// Column name → SQL-like type name, in name order.
    pub schema: StrMap<String>,
    /// Column name → statistics; empty unless deep statistics were asked for.
    pub column_stats: StrMap<ColumnStat>,
}

impl FileStats {
    /// Both maps are well formed.
    pub open spec fn wf(&self) -> bool {
        self.schema.wf() && self.column_stats.wf()
    }

    /// Row count, schema and column statistics as mathematical values.
    pub open spec fn model(&self) -> TableModel {
        (self.row_count as int, text_map(self.schema@), self.column_stats@)
    }
}


// ── Parquet footers ─────────────────────────────────────────────────────────

/// Parquet physical types.
#[derive(Debug, Clone, Copy, PartialEq, Eq, Structural)]
pub enum PhysicalType {
    Boolean,
    Int32,
    Int64,
    Int96,
    Float,
    Double,
    ByteArray,
    FixedLenByteArray,
}

/// The Parquet converted-type annotations the type mapping tells apart;
/// every other annotation, and none, is `Other`.
#[derive(Debug, Clone, Copy, PartialEq, Eq, Structural)]
pub enum ConvertedType {
    Utf8,
    Enum,
    Json,
    Decimal,
    Date,
    TimeMillis,
    TimestampMillis,
    TimestampMicros,
    Other,
}

/// One leaf column of a Parquet schema.
pub struct ParquetColumn {
    pub name: String,
    pub physical: PhysicalType,
    pub converted: ConvertedType,
}

/// One row group: its row count and, per column chunk, the null count its
/// statistics record (`None` without statistics or without a null count).
pub struct RowGroup {
    pub num_rows: i64,
    pub null_counts: Vec<Option<u64>>,
}

/// What a Parquet footer says that the comparison reads.
pub struct ParquetMeta {
    pub columns: Vec<ParquetColumn>,
    pub row_groups: Vec<RowGroup>,
}

/// The SQL-like name of a Parquet column type.
pub open spec fn parquet_type(p: PhysicalType, c: ConvertedType) -> Seq<char> {
    match p {
        PhysicalType::Boolean => "BOOLEAN"@,
        PhysicalType::Int32 => match c {
            ConvertedType::Date => "DATE"@,
            ConvertedType::TimeMillis => "TIME"@,
            _ => "INTEGER"@,
        },
        PhysicalType::Int64 => match c {
            ConvertedType::TimestampMillis => "TIMESTAMP"@,
            ConvertedType::TimestampMicros => "TIMESTAMP"@,
            _ => "BIGINT"@,
        },
        PhysicalType::Int96 => "TIMESTAMP"@,
        PhysicalType::Float => "FLOAT"@,
        PhysicalType::Double => "DOUBLE"@,
        PhysicalType::ByteArray => match c {
            ConvertedType::Utf8 => "VARCHAR"@,
            ConvertedType::Enum => "VARCHAR"@,
            ConvertedType::Json => "VARCHAR"@,
            _ => "BLOB"@,
        },
        PhysicalType::FixedLenByteArray => match c {
            ConvertedType::Decimal => "DECIMAL"@,
            _ => "BLOB"@,
        },
    }
}

/// The SQL-like type name of a Parquet column.
pub fn parquet_physical_type_str(col: &ParquetColumn) -> (res: String)
    ensures
        res@ == parquet_type(col.physical, col.converted),
{
    let name = match col.physical {
        PhysicalType::Boolean => "BOOLEAN",
        PhysicalType::Int32 => match col.converted {
            ConvertedType::Date => "DATE",
            ConvertedType::TimeMillis => "TIME",
            _ => "INTEGER",
        },
        PhysicalType::Int64 => match col.converted {
            ConvertedType::TimestampMillis => "TIMESTAMP",
            ConvertedType::TimestampMicros => "TIMESTAMP",
            _ => "BIGINT",
        },
        PhysicalType::Int96 => "TIMESTAMP",
        PhysicalType::Float => "FLOAT",
        PhysicalType::Double => "DOUBLE",
        PhysicalType::ByteArray => match col.converted {
            ConvertedType::Utf8 => "VARCHAR",
            ConvertedType::Enum => "VARCHAR",
            ConvertedType::Json => "VARCHAR",
            _ => "BLOB",
        },
        PhysicalType::FixedLenByteArray => match col.converted {
            ConvertedType::Decimal => "DECIMAL",
            _ => "BLOB",
        },
    };
    owned(name)
}

/// Column name → type over the columns `cols`; a repeated name takes the
/// type of its last column.
pub open spec fn parquet_schema(cols: Seq<ParquetColumn>) -> Map<Seq<char>, Seq<char>>
    decreases cols.len(),
{
    if cols.len() == 0 {
        Map::empty()
    } else {
        parquet_schema(cols.drop_last()).insert(
            cols.last().name@,
            parquet_type(cols.last().physical, cols.last().converted),
        )
    }
}

/// Sum of the row counts.
pub open spec fn row_total(gs: Seq<RowGroup>) -> int
    decreases gs.len(),
{
    if gs.len() == 0 {
        0
    } else {
        row_total(gs.drop_last()) + gs.last().num_rows
    }
}

/// A recorded null count as the signed value it is added as (`u64 as i64`),
/// zero when absent.
pub open spec fn null_value(o: Option<u64>) -> int {
    match o {
        Some(v) => (v as i64) as int,
        None => 0,
    }
}

/// The null counts of one row group, each with the name of its column.
pub open spec fn group_entries(cols: Seq<ParquetColumn>, counts: Seq<Option<u64>>) -> Seq<
    (Seq<char>, int),
> {
    Seq::new(counts.len(), |c: int| (cols[c].name@, null_value(counts[c])))
}

/// The null counts of all row groups, in the order they are added.
pub open spec fn null_entries(cols: Seq<ParquetColumn>, gs: Seq<RowGroup>) -> Seq<(Seq<char>, int)>
    decreases gs.len(),
{
    if gs.len() == 0 {
        seq![]
    } else {
        null_entries(cols, gs.drop_last()) + group_entries(cols, gs.last().null_counts@)
    }
}

/// Sum of the null counts added under `name`.
pub open spec fn name_total(es: Seq<(Seq<char>, int)>, name: Seq<char>) -> int
    decreases es.len(),
{
    if es.len() == 0 {
        0
    } else {
        name_total(es.drop_last(), name) + if es.last().0 == name {
            es.last().1
        } else {
            0
        }
    }
}

/// Within the range of `i64`.
pub open spec fn in_i64(x: int) -> bool {
    i64::MIN <= x <= i64::MAX
}

/// The footer can be summarised without an arithmetic overflow or an index
/// out of range: every partial sum of row counts fits in an `i64`, and for
/// deep statistics every row group has at most one null count per schema
/// column and every partial sum of null counts per column name fits.
pub open spec fn parquet_readable(m: ParquetMeta, deep: bool) -> bool {
    let cols = m.columns@;
    let gs = m.row_groups@;
    &&& forall|k: int| 0 <= k <= gs.len() ==> in_i64(#[trigger] row_total(gs.take(k)))
    &&& deep ==> forall|g: int| 0 <= g < gs.len() ==> (#[trigger] gs[g]).null_counts@.len()
        <= cols.len()
    &&& deep ==> forall|k: int, name: Seq<char>|
        0 <= k <= null_entries(cols, gs).len() ==> in_i64(
            #[trigger] name_total(null_entries(cols, gs).take(k), name),
        )
}

/// Row count, schema and (when `deep`) statistics of a Parquet footer: the
/// null count of a column is the sum of its recorded null counts, its
/// distinct count is 0 (it would need the data pages).
pub open spec fn parquet_model(m: ParquetMeta, deep: bool) -> TableModel {
    let cols = m.columns@;
    let gs = m.row_groups@;
    (
        row_total(gs),
        parquet_schema(cols),
        if deep {
            Map::new(
                |k: Seq<char>| parquet_schema(cols).contains_key(k),
                |k: Seq<char>|
                    ColumnStat {
                        nulls: name_total(null_entries(cols, gs), k) as i64,
                        approx_distinct: 0,
                    },
            )
        } else {
            Map::empty()
        },
    )
}

/// The entries of the first `n` row groups come first among all entries.
proof fn lemma_null_entries_prefix(cols: Seq<ParquetColumn>, gs: Seq<RowGroup>, n: int)
    requires
        0 <= n <= gs.len(),
    ensures
        null_entries(cols, gs.take(n)).len() <= null_entries(cols, gs).len(),
        null_entries(cols, gs).take(null_entries(cols, gs.take(n)).len() as int) == null_entries(
            cols,
            gs.take(n),
        ),
    decreases gs.len(),
{
    if n < gs.len() {
        assert(gs.drop_last().take(n) =~= gs.take(n));
        lemma_null_entries_prefix(cols, gs.drop_last(), n);
        let a = null_entries(cols, gs.drop_last());
        let b = group_entries(cols, gs.last().null_counts@);
        let l = null_entries(cols, gs.take(n)).len() as int;
        assert((a + b).take(l) =~= a.take(l));
    } else {
        assert(gs.take(n) =~= gs);
        assert(null_entries(cols, gs).take(null_entries(cols, gs).len() as int) =~= null_entries(
            cols,
            gs,
        ));
    }
}

/// Adding one more entry adds its count to the total of its name.
proof fn lemma_name_total_push(es: Seq<(Seq<char>, int)>, n: int, nm: Seq<char>)
    requires
        0 <= n < es.len(),
    ensures
        name_total(es.take(n + 1), nm) == name_total(es.take(n), nm) + if es[n].0 == nm {
            es[n].1
        } else {
            0
        },
{
    assert(es.take(n + 1).drop_last() =~= es.take(n));
    assert(es.take(n + 1).last() == es[n]);
}

/// Reads a footer into a row count, schema and (when `deep`) column
/// statistics; `None` exactly when that would overflow or index out of range.
fn parquet_stats(meta: &ParquetMeta, deep: bool) -> (res: Option<FileStats>)
    ensures
        match res {
            Some(s) => parquet_readable(*meta, deep) && s.wf() && s.model() == parquet_model(
                *meta,
                deep,
            ),
            None => !parquet_readable(*meta, deep),
        },
{
    let ghost cols = meta.columns@;
    let ghost gs = meta.row_groups@;
    let ng = meta.row_groups.len();
    let nc = meta.columns.len();
    // row count
    let mut total: i64 = 0;
    assert(gs.take(0) =~= Seq::<RowGroup>::empty());
    for g in 0..ng
        invariant
            ng == gs.len(),
            gs == meta.row_groups@,
            total == row_total(gs.take(g as int)),
            forall|k: int| 0 <= k <= g ==> in_i64(#[trigger] row_total(gs.take(k))),
    {
        assert(gs.take(g + 1).drop_last() =~= gs.take(g as int));
        match total.checked_add(meta.row_groups[g].num_rows) {
            Some(t) => {
                total = t;
            },
            None => {
                assert(!in_i64(row_total(gs.take(g + 1))));
                return None;
            },
        }
    }
    assert(gs.take(ng as int) =~= gs);
    // schema
    let mut schema: StrMap<String> = StrMap::new();
    assert(cols.take(0) =~= Seq::<ParquetColumn>::empty());
    assert(text_map(schema@) =~= Map::<Seq<char>, Seq<char>>::empty());
    for c in 0..nc
        invariant
            nc == cols.len(),
            cols == meta.columns@,
            schema.wf(),
            text_map(schema@) == parquet_schema(cols.take(c as int)),
    {
        assert(cols.take(c + 1).drop_last() =~= cols.take(c as int));
        let col = &meta.columns[c];
        let ghost before = schema@;
        schema.insert(chars_of(col.name.as_str()), parquet_physical_type_str(col));
        assert(text_map(schema@) =~= text_map(before).insert(
            col.name@,
            parquet_type(col.physical, col.converted),
        ));
    }
    assert(cols.take(nc as int) =~= cols);
    if !deep {
        let stats: StrMap<ColumnStat> = StrMap::new();
        return Some(FileStats { row_count: total, schema, column_stats: stats });
    }
    // row groups are no wider than the schema
    for g in 0..ng
        invariant
            ng == gs.len(),
            gs == meta.row_groups@,
            nc == cols.len(),
            cols == meta.columns@,
            deep,
            forall|h: int| 0 <= h < g ==> (#[trigger] gs[h]).null_counts@.len() <= cols.len(),
    {
        if meta.row_groups[g].null_counts.len() > nc {
            assert(meta.row_groups@[g as int].null_counts@.len() > meta.columns@.len());
            return None;
        }
    }
    // null counts per column name
    let ghost es = null_entries(cols, gs);
    let mut sums: StrMap<i64> = StrMap::new();
    let ghost mut pos: int = 0;
    proof {
        assert(es.take(0) =~= Seq::<(Seq<char>, int)>::empty());
        assert(null_entries(cols, gs.take(0)) =~= Seq::<(Seq<char>, int)>::empty());
    }
    for g in 0..ng
        invariant
            ng == gs.len(),
            gs == meta.row_groups@,
            nc == cols.len(),
            cols == meta.columns@,
            es == null_entries(cols, gs),
            deep,
            forall|h: int| 0 <= h < gs.len() ==> (#[trigger] gs[h]).null_counts@.len() <= cols.len(),
            pos == null_entries(cols, gs.take(g as int)).len(),
            sums.wf(),
            forall|name: Seq<char>| #[trigger]
                name_total(es.take(pos), name) == if sums@.contains_key(name) {
                    sums@[name] as int
                } else {
                    0
                },
            forall|k: int, name: Seq<char>|
                0 <= k <= pos ==> in_i64(#[trigger] name_total(es.take(k), name)),
    {
        let counts = &meta.row_groups[g].null_counts;
        let ghost ge = group_entries(cols, counts@);
        proof {
            assert(gs.take(g + 1).drop_last() =~= gs.take(g as int));
            lemma_null_entries_prefix(cols, gs, g + 1);
        }
        let ghost base = pos;
        for c in 0..counts.len()
            invariant
                ng == gs.len(),
                g < ng,
                gs == meta.row_groups@,
                nc == cols.len(),
                cols == meta.columns@,
                es == null_entries(cols, gs),
                deep,
                counts@ == gs[g as int].null_counts@,
                counts@.len() <= cols.len(),
                ge == group_entries(cols, counts@),
                base == null_entries(cols, gs.take(g as int)).len(),
                null_entries(cols, gs.take(g + 1)) == null_entries(cols, gs.take(g as int)) + ge,
                es.take(null_entries(cols, gs.take(g + 1)).len() as int) == null_entries(
                    cols,
                    gs.take(g + 1),
                ),
                null_entries(cols, gs.take(g + 1)).len() <= es.len(),
                pos == base + c,
                sums.wf(),
                forall|name: Seq<char>| #[trigger]
                    name_total(es.take(pos), name) == if sums@.contains_key(name) {
                        sums@[name] as int
                    } else {
                        0
                    },
                forall|k: int, name: Seq<char>|
                    0 <= k <= pos ==> in_i64(#[trigger] name_total(es.take(k), name)),
        {
            let name = chars_of(meta.columns[c].name.as_str());
            let v: i64 = match counts[c] {
                Some(x) => x as i64,
                None => 0,
            };
            proof {
                let pre = null_entries(cols, gs.take(g + 1));
                assert(pre[pos] == ge[c as int]);
                assert(es[pos] == pre[pos]);
                assert(es[pos] == (name@, v as int));
            }
            let cur: i64 = match sums.get(name.as_slice()) {
                Some(x) => *x,
                None => 0,
            };
            proof {
                assert(name_total(es.take(pos), name@) == cur as int);
                lemma_name_total_push(es, pos, name@);
            }
            match cur.checked_add(v) {
                None => {
                    assert(!in_i64(name_total(es.take(pos + 1), name@)));
                    assert(pos + 1 <= es.len());
                    assert(!in_i64(
                        name_total(null_entries(meta.columns@, meta.row_groups@).take(pos + 1), name@),
                    ));
                    return None;
                },
                Some(t) => {
                    let ghost before = sums@;
                    sums.insert(name, t);
                    proof {
                        assert forall|nm: Seq<char>| #[trigger]
                            name_total(es.take(pos + 1), nm) == if sums@.contains_key(nm) {
                                sums@[nm] as int
                            } else {
                                0
                            } by {
                            lemma_name_total_push(es, pos, nm);
                            assert(name_total(es.take(pos), nm) == if before.contains_key(nm) {
                                before[nm] as int
                            } else {
                                0
                            });
                        }
                        assert forall|k: int, nm: Seq<char>| 0 <= k <= pos + 1 implies in_i64(
                            #[trigger] name_total(es.take(k), nm),
                        ) by {
                            if k == pos + 1 {
                                lemma_name_total_push(es, pos, nm);
                                assert(name_total(es.take(pos), nm) == if before.contains_key(nm) {
                                    before[nm] as int
                                } else {
                                    0
                                });
                            }
                        }
                        pos = pos + 1;
                    }
                },
            }
        }
        proof {
            assert(ge.len() == counts@.len());
        }
    }
    proof {
        assert(gs.take(ng as int) =~= gs);
        assert(es.take(pos) =~= es);
    }
    // one statistic per schema column
    let mut stats: StrMap<ColumnStat> = StrMap { keys: Vec::new(), vals: Vec::new() };
    let nk = schema.keys.len();
    for i in 0..nk
        invariant
            nk == schema.keys@.len(),
            schema.wf(),
            sums.wf(),
            stats.keys@.len() == i,
            stats.vals@.len() == i,
            key_views(stats.keys@) == schema.key_seq().take(i as int),
            forall|name: Seq<char>| #[trigger]
                name_total(es, name) == if sums@.contains_key(name) {
                    sums@[name] as int
                } else {
                    0
                },
            forall|m: int| 0 <= m < i ==> #[trigger] stats.vals@[m] == (ColumnStat {
                nulls: name_total(es, schema.key_seq()[m]) as i64,
                approx_distinct: 0,
            }),
    {
        let ghost k = schema.key_seq()[i as int];
        let key = copy_chars(schema.keys[i].as_slice());
        let nulls: i64 = match sums.get(key.as_slice()) {
            Some(x) => *x,
            None => 0,
        };
        let ghost before = key_views(stats.keys@);
        stats.keys.push(key);
        stats.vals.push(ColumnStat { nulls, approx_distinct: 0 });
        assert(key_views(stats.keys@) =~= before.push(k));
        assert(schema.key_seq().take(i + 1) =~= schema.key_seq().take(i as int).push(k));
    }
    proof {
        assert(schema.key_seq().take(nk as int) =~= schema.key_seq());
        assert(stats.key_seq() == schema.key_seq());
        let want = parquet_model(*meta, deep).2;
        assert forall|k: Seq<char>| #[trigger] stats@.contains_key(k) == want.contains_key(k) by {
            assert(text_map(schema@).contains_key(k) == schema@.contains_key(k));
        }
        assert forall|k: Seq<char>| stats@.contains_key(k) implies #[trigger] stats@[k] == want[k] by {
            let idx = schema.key_seq().index_of(k);
            stats.lemma_view_at(idx);
        }
        assert(stats@ =~= want);
    }
    Some(FileStats { row_count: total, schema, column_stats: stats })
}

/// Whether a footer can be read without overflow or indexing out of range
/// (what [`read_parquet`] requires).
pub fn parquet_readable_check(meta: &ParquetMeta, deep: bool) -> (res: bool)
    ensures
        res == parquet_readable(*meta, deep),
{
    parquet_stats(meta, deep).is_some()
}

/// Row count, schema and (when `deep`) null counts of a Parquet file, from
/// its footer.
pub fn read_parquet(meta: &ParquetMeta, deep: bool) -> (res: FileStats)
    requires
        parquet_readable(*meta, deep),
    ensures
        res.wf(),
        res.model() == parquet_model(*meta, deep),
{
    match parquet_stats(meta, deep) {
        Some(s) => s,
        None => {
            assert(false);
            FileStats { row_count: 0, schema: StrMap::new(), column_stats: StrMap::new() }
        },
    }
}

// ── Parquet files ───────────────────────────────────────────────────────────

/// A Parquet footer as plain values: per leaf column its name, physical type
/// code and converted type code (the Parquet format's numbering), per row
/// group its row count and the null count each column chunk's statistics
/// record.
pub type FooterView = (Seq<(Seq<char>, i32, i32)>, Seq<(i64, Seq<Option<u64>>)>);

/// What the `parquet` crate reads from the bytes of a whole Parquet file:
/// its footer, or the text of the error.
pub uninterp spec fn parquet_footer_of(data: Seq<u8>) -> Result<FooterView, Seq<char>>;

/// A Parquet footer as read from a file, with type codes.
pub struct RawFooter {
    pub columns: Vec<(String, i32, i32)>,
    pub row_groups: Vec<(i64, Vec<Option<u64>>)>,
}

/// A raw footer as plain values.
pub open spec fn raw_view(f: RawFooter) -> FooterView {
    (
        f.columns@.map_values(|c: (String, i32, i32)| (c.0@, c.1, c.2)),
        f.row_groups@.map_values(|g: (i64, Vec<Option<u64>>)| (g.0, g.1@)),
    )
}

/// `ParquetMetaDataReader::new().parse_and_finish` on the file's bytes (as
/// `SerializedFileReader::new` reads a file), then each leaf column of the
/// schema (`schema_descr().columns()`) as its name and its `physical_type()`
/// and `converted_type()` as `i32` (the format's codes: physical types 0 to
/// 7), and each row group as `num_rows()` and, per column chunk, `statistics()`
/// then `null_count_opt()`.
/// The outcome is named by `parquet_footer_of`.
#[verifier::external_body]
fn parse_parquet_footer(data: &[u8]) -> (res: Result<RawFooter, String>)
    ensures
        match res {
            Ok(f) => parquet_footer_of(data@) == Ok::<FooterView, Seq<char>>(raw_view(f)) && forall|
                i: int,
            |
                0 <= i < f.columns@.len() ==> 0 <= (#[trigger] f.columns@[i]).1 <= 7,
            Err(e) => parquet_footer_of(data@) == Err::<FooterView, Seq<char>>(e@),
        },
{
    let file = Bytes::copy_from_slice(data);
    let meta = ParquetMetaDataReader::new().parse_and_finish(&file).map_err(|e| e.to_string())?;
    let columns = meta.file_metadata().schema_descr().columns().iter().map(
        |c| (c.name().to_string(), c.physical_type() as i32, c.converted_type() as i32),
    ).collect();
    let row_groups = meta.row_groups().iter().map(|g| (g.num_rows(), g.columns().iter().map(
        |c| c.statistics().and_then(|s| s.null_count_opt()),
    ).collect())).collect();
    Ok(RawFooter { columns, row_groups })
}

/// The physical type with format code `c` (0 to 7).
pub open spec fn physical_of_code(c: i32) -> PhysicalType {
    if c == 0 {
        PhysicalType::Boolean
    } else if c == 1 {
        PhysicalType::Int32
    } else if c == 2 {
        PhysicalType::Int64
    } else if c == 3 {
        PhysicalType::Int96
    } else if c == 4 {
        PhysicalType::Float
    } else if c == 5 {
        PhysicalType::Double
    } else if c == 6 {
        PhysicalType::ByteArray
    } else {
        PhysicalType::FixedLenByteArray
    }
}

/// The converted type with format code `c`; codes the type mapping does not
/// tell apart (and -1, none) are `Other`.
pub open spec fn converted_of_code(c: i32) -> ConvertedType {
    if c == 0 {
        ConvertedType::Utf8
    } else if c == 4 {
        ConvertedType::Enum
    } else if c == 5 {
        ConvertedType::Decimal
    } else if c == 6 {
        ConvertedType::Date
    } else if c == 7 {
        ConvertedType::TimeMillis
    } else if c == 9 {
        ConvertedType::TimestampMillis
    } else if c == 10 {
        ConvertedType::TimestampMicros
    } else if c == 19 {
        ConvertedType::Json
    } else {
        ConvertedType::Other
    }
}

fn physical_from_code(c: i32) -> (res: PhysicalType)
    ensures
        res == physical_of_code(c),
{
    match c {
        0 => PhysicalType::Boolean,
        1 => PhysicalType::Int32,
        2 => PhysicalType::Int64,
        3 => PhysicalType::Int96,
        4 => PhysicalType::Float,
        5 => PhysicalType::Double,
        6 => PhysicalType::ByteArray,
        _ => PhysicalType::FixedLenByteArray,
    }
}

fn converted_from_code(c: i32) -> (res: ConvertedType)
    ensures
        res == converted_of_code(c),
{
    match c {
        0 => ConvertedType::Utf8,
        4 => ConvertedType::Enum,
        5 => ConvertedType::Decimal,
        6 => ConvertedType::Date,
        7 => ConvertedType::TimeMillis,
        9 => ConvertedType::TimestampMillis,
        10 => ConvertedType::TimestampMicros,
        19 => ConvertedType::Json,
        _ => ConvertedType::Other,
    }
}

/// The column `c` is the footer column `v`.
pub open spec fn column_matches(c: ParquetColumn, v: (Seq<char>, i32, i32)) -> bool {
    &&& c.name@ == v.0
    &&& c.physical == physical_of_code(v.1)
    &&& c.converted == converted_of_code(v.2)
}

/// `m` holds what the footer `v` says.
pub open spec fn meta_matches(m: ParquetMeta, v: FooterView) -> bool {
    &&& m.columns@.len() == v.0.len()
    &&& forall|i: int| 0 <= i < v.0.len() ==> column_matches(#[trigger] m.columns@[i], v.0[i])
    &&& m.row_groups@.len() == v.1.len()
    &&& forall|g: int|
        0 <= g < v.1.len() ==> (#[trigger] m.row_groups@[g]).num_rows == v.1[g].0
            && m.row_groups@[g].null_counts@ == v.1[g].1
}

/// The footer summary of a raw footer.
fn footer_meta(f: &RawFooter) -> (m: ParquetMeta)
    ensures
        meta_matches(m, raw_view(*f)),
{
    let mut columns: Vec<ParquetColumn> = Vec::new();
    for i in 0..f.columns.len()
        invariant
            columns@.len() == i,
            forall|k: int| 0 <= k < i ==> column_matches(#[trigger] columns@[k], raw_view(*f).0[k]),
    {
        let c = &f.columns[i];
        columns.push(ParquetColumn {
            name: owned(c.0.as_str()),
            physical: physical_from_code(c.1),
            converted: converted_from_code(c.2),
        });
    }
    let mut row_groups: Vec<RowGroup> = Vec::new();
    for g in 0..f.row_groups.len()
        invariant
            row_groups@.len() == g,
            forall|k: int|
                0 <= k < g ==> (#[trigger] row_groups@[k]).num_rows == raw_view(*f).1[k].0
                    && row_groups@[k].null_counts@ == raw_view(*f).1[k].1,
    {
        let src = &f.row_groups[g].1;
        let mut counts: Vec<Option<u64>> = Vec::new();
        for c in 0..src.len()
            invariant
                counts@ == src@.take(c as int),
        {
            counts.push(src[c]);
            assert(src@.take(c + 1) =~= src@.take(c as int).push(src@[c as int]));
        }
        assert(src@.take(src@.len() as int) =~= src@);
        row_groups.push(RowGroup { num_rows: f.row_groups[g].0, null_counts: counts });
    }
    ParquetMeta { columns, row_groups }
}

/// Two summaries of the same footer have the same schema.
proof fn lemma_schema_same(c1: Seq<ParquetColumn>, c2: Seq<ParquetColumn>)
    requires
        c1.len() == c2.len(),
        forall|i: int| 0 <= i < c1.len() ==> (#[trigger] c1[i]).name@ == c2[i].name@ && c1[i].physical
            == c2[i].physical && c1[i].converted == c2[i].converted,
    ensures
        parquet_schema(c1) == parquet_schema(c2),
        forall|counts: Seq<Option<u64>>| #[trigger] group_entries(c1, counts) == group_entries(c2, counts)
            || counts.len() > c1.len(),
    decreases c1.len(),
{
    if c1.len() > 0 {
        lemma_schema_same(c1.drop_last(), c2.drop_last());
        assert(c1.last() == c1[c1.len() - 1]);
    }
    assert forall|counts: Seq<Option<u64>>| #[trigger] group_entries(c1, counts) == group_entries(c2, counts)
        || counts.len() > c1.len() by {
        if counts.len() <= c1.len() {
            assert(group_entries(c1, counts) =~= group_entries(c2, counts));
        }
    }
}

/// Two summaries of the same row groups have the same row total and, over
/// columns that agree, the same null entries.
proof fn lemma_groups_same(
    c1: Seq<ParquetColumn>,
    c2: Seq<ParquetColumn>,
    g1: Seq<RowGroup>,
    g2: Seq<RowGroup>,
)
    requires
        c1.len() == c2.len(),
        forall|i: int| 0 <= i < c1.len() ==> (#[trigger] c1[i]).name@ == c2[i].name@,
        g1.len() == g2.len(),
        forall|g: int| 0 <= g < g1.len() ==> (#[trigger] g1[g]).num_rows == g2[g].num_rows
            && g1[g].null_counts@ == g2[g].null_counts@,
    ensures
        row_total(g1) == row_total(g2),
        forall|k: int| 0 <= k <= g1.len() ==> #[trigger] row_total(g1.take(k)) == row_total(g2.take(k)),
        (forall|g: int| 0 <= g < g1.len() ==> (#[trigger] g1[g]).null_counts@.len() <= c1.len())
            ==> null_entries(c1, g1) == null_entries(c2, g2),
    decreases g1.len(),
{
    if g1.len() > 0 {
        let p1 = g1.drop_last();
        let p2 = g2.drop_last();
        lemma_groups_same(c1, c2, p1, p2);
        assert(g1.last() == g1[g1.len() - 1]);
        assert forall|k: int| 0 <= k <= g1.len() implies #[trigger] row_total(g1.take(k)) == row_total(
            g2.take(k),
        ) by {
            if k < g1.len() {
                assert(g1.take(k) =~= p1.take(k));
                assert(g2.take(k) =~= p2.take(k));
            } else {
                assert(g1.take(k) =~= g1);
                assert(g2.take(k) =~= g2);
            }
        }
        if forall|g: int| 0 <= g < g1.len() ==> (#[trigger] g1[g]).null_counts@.len() <= c1.len() {
            assert forall|g: int| 0 <= g < p1.len() implies (#[trigger] p1[g]).null_counts@.len() <= c1.len() by {
                assert(p1[g] == g1[g]);
            }
            let counts = g1.last().null_counts@;
            assert(g1[g1.len() - 1].null_counts@.len() <= c1.len());
            assert(group_entries(c1, counts) =~= group_entries(c2, counts));
        }
    } else {
        assert forall|k: int| 0 <= k <= g1.len() implies #[trigger] row_total(g1.take(k)) == row_total(
            g2.take(k),
        ) by {
            assert(g1.take(k) =~= g1);
            assert(g2.take(k) =~= g2);
        }
    }
}

/// Two summaries of the same footer are read the same way.
proof fn lemma_meta_same(m1: ParquetMeta, m2: ParquetMeta, v: FooterView, deep: bool)
    requires
        meta_matches(m1, v),
        meta_matches(m2, v),
    ensures
        parquet_readable(m1, deep) == parquet_readable(m2, deep),
        parquet_readable(m1, deep) ==> parquet_model(m1, deep) == parquet_model(m2, deep),
{
    let c1 = m1.columns@;
    let c2 = m2.columns@;
    let g1 = m1.row_groups@;
    let g2 = m2.row_groups@;
    assert forall|i: int| 0 <= i < c1.len() implies (#[trigger] c1[i]).name@ == c2[i].name@ && c1[i].physical
        == c2[i].physical && c1[i].converted == c2[i].converted by {
        assert(column_matches(m1.columns@[i], v.0[i]));
        assert(column_matches(m2.columns@[i], v.0[i]));
    }
    assert forall|g: int| 0 <= g < g1.len() implies (#[trigger] g1[g]).num_rows == g2[g].num_rows
        && g1[g].null_counts@ == g2[g].null_counts@ by {
        assert(m1.row_groups@[g].num_rows == v.1[g].0);
        assert(m2.row_groups@[g].num_rows == v.1[g].0);
    }
    lemma_schema_same(c1, c2);
    lemma_groups_same(c1, c2, g1, g2);
    if deep {
        let wide1 = forall|g: int| 0 <= g < g1.len() ==> (#[trigger] g1[g]).null_counts@.len() <= c1.len();
        let wide2 = forall|g: int| 0 <= g < g2.len() ==> (#[trigger] g2[g]).null_counts@.len() <= c2.len();
        assert(wide1 == wide2) by {
            if wide1 {
                assert forall|g: int| 0 <= g < g2.len() implies (#[trigger] g2[g]).null_counts@.len() <= c2.len() by {
                    assert(g1[g].null_counts@ == g2[g].null_counts@);
                }
            }
            if wide2 {
                assert forall|g: int| 0 <= g < g1.len() implies (#[trigger] g1[g]).null_counts@.len() <= c1.len() by {
                    assert(g1[g].null_counts@ == g2[g].null_counts@);
                }
            }
        }
        if wide1 {
            assert(null_entries(c1, g1) == null_entries(c2, g2));
        }
    }
    let r1 = forall|k: int| 0 <= k <= g1.len() ==> in_i64(#[trigger] row_total(g1.take(k)));
    let r2 = forall|k: int| 0 <= k <= g2.len() ==> in_i64(#[trigger] row_total(g2.take(k)));
    assert(r1 == r2) by {
        if r1 {
            assert forall|k: int| 0 <= k <= g2.len() implies in_i64(#[trigger] row_total(g2.take(k))) by {
                assert(row_total(g1.take(k)) == row_total(g2.take(k)));
            }
        }
        if r2 {
            assert forall|k: int| 0 <= k <= g1.len() implies in_i64(#[trigger] row_total(g1.take(k))) by {
                assert(row_total(g1.take(k)) == row_total(g2.take(k)));
            }
        }
    }
    if parquet_readable(m1, deep) {
        assert(parquet_model(m1, deep).2 =~= parquet_model(m2, deep).2);
    }
}

/// The outcome of reading the bytes of a Parquet file: the crate's error;
/// an error when a count would not fit in an `i64`; otherwise the row
/// count, schema and (when `deep`) statistics of the footer.
pub open spec fn parquet_outcome(data: Seq<u8>, deep: bool) -> Result<TableModel, Seq<char>> {
    match parquet_footer_of(data) {
        Err(e) => Err(e),
        Ok(v) => {
            let m = choose|m: ParquetMeta| meta_matches(m, v);
            if parquet_readable(m, deep) {
                Ok(parquet_model(m, deep))
            } else {
                Err(count_overflow())
            }
        },
    }
}

/// Reads the row count, schema and (when `deep`) null counts of a Parquet
/// file from its bytes.
pub fn read_parquet_bytes(data: &[u8], deep: bool) -> (res: Result<FileStats, String>)
    ensures
        match res {
            Ok(s) => s.wf() && parquet_outcome(data@, deep) == Ok::<TableModel, Seq<char>>(
                s.model(),
            ),
            Err(e) => parquet_outcome(data@, deep) == Err::<TableModel, Seq<char>>(e@),
        },
{
    match parse_parquet_footer(data) {
        Err(e) => Err(e),
        Ok(raw) => {
            let meta = footer_meta(&raw);
            proof {
                let v = raw_view(raw);
                let m = choose|m: ParquetMeta| meta_matches(m, v);
                lemma_meta_same(meta, m, v, deep);
            }
            match parquet_stats(&meta, deep) {
                Some(s) => Ok(s),
                None => Err(owned("count exceeds the range of i64")),
            }
        },
    }
}

// ── loading and reading one file ────────────────────────────────────────────

/// How a data file is loaded before it is read.
#[derive(Debug, Clone, Copy, PartialEq, Eq, Structural)]
pub enum SourceKind {
    /// All of its bytes (CSV, TSV, JSON Lines, JSON, Parquet).
    Bytes,
    /// Nothing: the format is not read.
    Nothing,
}

/// The loading a file with suffix `s` needs.
pub open spec fn source_kind_of(s: Seq<char>) -> SourceKind {
    if s == ".csv"@ || s == ".tsv"@ || s == ".jsonl"@ || s == ".ndjson"@ || s == ".json"@ || s
        == ".parquet"@ {
        SourceKind::Bytes
    } else {
        SourceKind::Nothing
    }
}

/// The loading the file at `path` needs, by its suffix.
pub fn source_kind(path: &str) -> (res: SourceKind)
    ensures
        res == source_kind_of(suffix_of(path@)),
{
    let sfx = suffix_of_path(chars_of(path).as_slice());
    let s = sfx.as_slice();
    if chars_eq_str(s, ".csv") || chars_eq_str(s, ".tsv") || chars_eq_str(s, ".jsonl")
        || chars_eq_str(s, ".ndjson") || chars_eq_str(s, ".json") || chars_eq_str(s, ".parquet") {
        SourceKind::Bytes
    } else {
        SourceKind::Nothing
    }
}

/// The content of one data file, as the caller loaded it.
pub enum Loaded {
    /// All of the file's bytes.
    Bytes(Vec<u8>),
    /// Opening or reading the file failed with this message.
    Failed(String),
    /// Nothing was read.
    NotRead,
}

/// `l` is what loading `path` as [`source_kind`] says gives.
pub open spec fn loaded_fits(path: Seq<char>, l: Loaded) -> bool {
    let k = source_kind_of(suffix_of(path));
    match l {
        Loaded::Bytes(_) => k is Bytes,
        Loaded::Failed(_) => !(k is Nothing),
        Loaded::NotRead => k is Nothing,
    }
}

/// The field delimiter of delimited text with suffix `s`: a tab for `.tsv`,
/// else a comma.
pub open spec fn delimiter_of(s: Seq<char>) -> u8 {
    if s == ".tsv"@ {
        9u8
    } else {
        44u8
    }
}

/// The outcome of reading a data file: by suffix, CSV (comma) and TSV (tab)
/// as delimited text, JSON Lines, a JSON document or a Parquet file; a failed
/// load gives its message, any other suffix `"unsupported: "` and the suffix.
pub open spec fn read_outcome(path: Seq<char>, l: Loaded, deep: bool) -> Result<TableModel, Seq<char>> {
    let s = suffix_of(path);
    match l {
        Loaded::Failed(e) => Err(e@),
        Loaded::Bytes(d) => if s == ".csv"@ || s == ".tsv"@ {
            csv_outcome(d@, delimiter_of(s), deep)
        } else if s == ".jsonl"@ || s == ".ndjson"@ {
            jsonl_outcome(d@, deep)
        } else if s == ".parquet"@ {
            parquet_outcome(d@, deep)
        } else {
            json_outcome(d@, deep)
        },
        Loaded::NotRead => Err("unsupported: "@ + s),
    }
}

/// Reads one data file from what was loaded for it.
pub fn read_file(path: &str, loaded: &Loaded, deep: bool) -> (res: Result<FileStats, String>)
    requires
        loaded_fits(path@, *loaded),
    ensures
        match res {
            Ok(s) => s.wf() && read_outcome(path@, *loaded, deep) == Ok::<TableModel, Seq<char>>(
                s.model(),
            ),
            Err(e) => read_outcome(path@, *loaded, deep) == Err::<TableModel, Seq<char>>(e@),
        },
{
    let sfx = suffix_of_path(chars_of(path).as_slice());
    let s = sfx.as_slice();
    match loaded {
        Loaded::Failed(e) => Err(e.clone()),
        Loaded::Bytes(d) => {
            let csv = chars_eq_str(s, ".csv");
            let tsv = chars_eq_str(s, ".tsv");
            if csv || tsv {
                let delimiter: u8 = if tsv {
                    9
                } else {
                    44
                };
                read_csv(d.as_slice(), delimiter, deep)
            } else if chars_eq_str(s, ".jsonl") || chars_eq_str(s, ".ndjson") {
                read_jsonl(d.as_slice(), deep)
            } else if chars_eq_str(s, ".parquet") {
                read_parquet_bytes(d.as_slice(), deep)
            } else {
                read_json(d.as_slice(), deep)
            }
        },
        Loaded::NotRead => {
            let mut msg = owned("unsupported: ");
            push_chars(&mut msg, s);
            Err(msg)
        },
    }
}

// ── the comparison ──────────────────────────────────────────────────────────

/// Row counts, schemas, column changes and statistics of one data file in
/// both trees.
pub struct DataDiffResult {
    pub path: String,
    pub row_count_a: i64,
    pub row_count_b: i64,
    /// Column name → type, in name order.
    pub schema_a: StrMap<String>,
    pub schema_b: StrMap<String>,
    /// Columns only in the second file, in name order.
    pub columns_added: Vec<String>,
    /// Columns only in the first file, in name order.
    pub columns_removed: Vec<String>,
    /// Column name → (type in the first file, type in the second), for the
    /// columns in both whose types differ, in name order.
    pub type_changes: StrMap<(String, String)>,
    pub column_stats_a: StrMap<ColumnStat>,
    pub column_stats_b: StrMap<ColumnStat>,
    pub note: String,
    pub error: Option<String>,
}

/// `r` is the result for `path` with nothing filled in and no note.
pub open spec fn is_blank(r: DataDiffResult, path: Seq<char>) -> bool {
    &&& r.path@ == path
    &&& r.row_count_a == 0
    &&& r.row_count_b == 0
    &&& r.schema_a.wf() && r.schema_a@ == Map::<Seq<char>, String>::empty()
    &&& r.schema_b.wf() && r.schema_b@ == Map::<Seq<char>, String>::empty()
    &&& r.columns_added@.len() == 0
    &&& r.columns_removed@.len() == 0
    &&& r.type_changes.wf() && r.type_changes@ == Map::<Seq<char>, (String, String)>::empty()
    &&& r.column_stats_a.wf() && r.column_stats_a@ == Map::<Seq<char>, ColumnStat>::empty()
    &&& r.column_stats_b.wf() && r.column_stats_b@ == Map::<Seq<char>, ColumnStat>::empty()
}

impl DataDiffResult {
    /// A result for `path` with nothing filled in.
    pub fn new(path: String) -> (res: Self)
        ensures
            is_blank(res, path@),
            res.note@ == Seq::<char>::empty(),
            res.error is None,
    {
        DataDiffResult {
            path,
            row_count_a: 0,
            row_count_b: 0,
            schema_a: StrMap::new(),
            schema_b: StrMap::new(),
            columns_added: Vec::new(),
            columns_removed: Vec::new(),
            type_changes: StrMap::new(),
            column_stats_a: StrMap::new(),
            column_stats_b: StrMap::new(),
            note: String::new(),
            error: None,
        }
    }

    /// A result for `path` that reports the error `msg`.
    pub fn with_error(path: String, msg: String) -> (res: Self)
        ensures
            is_blank(res, path@),
            res.note@ == Seq::<char>::empty(),
            res.error == Some(msg),
    {
        let mut r = DataDiffResult::new(path);
        r.error = Some(msg);
        r
    }
}

/// A map to pairs of strings, read as a map to pairs of character sequences.
pub open spec fn pair_map(m: Map<Seq<char>, (String, String)>) -> Map<
    Seq<char>,
    (Seq<char>, Seq<char>),
> {
    m.map_values(|p: (String, String)| (p.0@, p.1@))
}

/// The columns in both schemas whose types differ, with both types.
pub open spec fn type_changes_of(a: Map<Seq<char>, Seq<char>>, b: Map<Seq<char>, Seq<char>>) -> Map<
    Seq<char>,
    (Seq<char>, Seq<char>),
> {
    Map::new(
        |c: Seq<char>| a.contains_key(c) && b.contains_key(c) && a[c] != b[c],
        |c: Seq<char>| (a[c], b[c]),
    )
}

/// `r` compares the files read as `ma` and `mb`.
pub open spec fn compared(r: DataDiffResult, ma: TableModel, mb: TableModel) -> bool {
    &&& r.row_count_a == ma.0
    &&& r.row_count_b == mb.0
    &&& r.schema_a.wf() && text_map(r.schema_a@) == ma.1
    &&& r.schema_b.wf() && text_map(r.schema_b@) == mb.1
    &&& r.column_stats_a.wf() && r.column_stats_a@ == ma.2
    &&& r.column_stats_b.wf() && r.column_stats_b@ == mb.2
    &&& sorted_strict(views(r.columns_added@))
    &&& forall|x: Seq<char>| #[trigger]
        views(r.columns_added@).contains(x) <==> (mb.1.contains_key(x) && !ma.1.contains_key(x))
    &&& sorted_strict(views(r.columns_removed@))
    &&& forall|x: Seq<char>| #[trigger]
        views(r.columns_removed@).contains(x) <==> (ma.1.contains_key(x) && !mb.1.contains_key(x))
    &&& r.type_changes.wf() && pair_map(r.type_changes@) == type_changes_of(ma.1, mb.1)
    &&& r.error is None
}

/// Formats that are recognised but not read.
pub open spec fn unsupported_suffix(s: Seq<char>) -> bool {
    s == ".feather"@ || s == ".arrow"@ || s == ".xlsx"@ || s == ".xls"@
}

/// The note for a recognised format that is not read.
pub open spec fn unsupported_note(s: Seq<char>) -> Seq<char> {
    "skipped: "@ + s + " format is not supported; check this file manually"@
}

/// The extension of `p` is `parquet`, ignoring ASCII case.
pub open spec fn parquet_extension(p: Seq<char>) -> bool {
    match path_extension(p) {
        Some(e) => ascii_lower(e) == "parquet"@,
        None => false,
    }
}

/// The note of a completed comparison: deep statistics of Parquet files have
/// no distinct counts.
pub open spec fn compared_note(abs_a: Seq<char>, abs_b: Seq<char>, deep: bool) -> Seq<char> {
    if deep && (parquet_extension(abs_a) || parquet_extension(abs_b)) {
        "approx_distinct is 0 for Parquet (requires reading data pages)"@
    } else {
        seq![]
    }
}

/// Whether the extension of `p` is `parquet`, ignoring ASCII case.
fn has_parquet_extension(p: &str) -> (res: bool)
    ensures
        res == parquet_extension(p@),
{
    match extension_of_path(chars_of(p).as_slice()) {
        Some(e) => {
            let low = lower_ascii(e.as_slice());
            chars_eq_str(low.as_slice(), "parquet")
        },
        None => false,
    }
}

/// The columns in both schemas whose types differ, from the sorted list of
/// the columns in both.
fn type_changes(a: &StrMap<String>, b: &StrMap<String>, both: &Vec<String>) -> (res: StrMap<
    (String, String),
>)
    requires
        a.wf(),
        b.wf(),
        sorted_strict(views(both@)),
        forall|x: Seq<char>| #[trigger]
            views(both@).contains(x) <==> (a@.contains_key(x) && b@.contains_key(x)),
    ensures
        res.wf(),
        pair_map(res@) == type_changes_of(text_map(a@), text_map(b@)),
{
    let ghost bv = views(both@);
    let ghost ta = text_map(a@);
    let ghost tb = text_map(b@);
    let mut tc: StrMap<(String, String)> = StrMap { keys: Vec::new(), vals: Vec::new() };
    assert(bv.take(0) =~= Seq::<Seq<char>>::empty());
    for i in 0..both.len()
        invariant
            bv == views(both@),
            ta == text_map(a@),
            tb == text_map(b@),
            a.wf(),
            b.wf(),
            sorted_strict(bv),
            forall|x: Seq<char>| #[trigger] bv.contains(x) <==> (a@.contains_key(x) && b@.contains_key(x)),
            tc.keys@.len() == tc.vals@.len(),
            sorted_strict(tc.key_seq()),
            forall|p: int|
                0 <= p < tc.keys@.len() && i < bv.len() ==> seq_lt(#[trigger] tc.key_seq()[p], bv[i as int]),
            forall|c: Seq<char>| #[trigger]
                tc.key_seq().contains(c) <==> (bv.take(i as int).contains(c) && ta[c] != tb[c]),
            forall|p: int|
                0 <= p < tc.keys@.len() ==> (#[trigger] tc.vals@[p]).0@ == ta[tc.key_seq()[p]]
                    && tc.vals@[p].1@ == tb[tc.key_seq()[p]],
    {
        let key = chars_of(both[i].as_str());
        let ghost k = bv[i as int];
        assert(key@ == k);
        assert(bv.contains(k));
        assert(bv.take(i + 1) =~= bv.take(i as int).push(k));
        let ghost before_keys = tc.key_seq();
        match (a.get(key.as_slice()), b.get(key.as_slice())) {
            (Some(x), Some(y)) => {
                if !str_eq(x.as_str(), y.as_str()) {
                    let pair = (x.clone(), y.clone());
                    tc.keys.push(key);
                    tc.vals.push(pair);
                    assert(tc.key_seq() =~= before_keys.push(k));
                }
            },
            _ => {
                assert(false);
            },
        }
        proof {
            assert forall|c: Seq<char>| #[trigger]
                tc.key_seq().contains(c) <==> (bv.take(i + 1).contains(c) && ta[c] != tb[c]) by {
                lemma_push_contains(bv.take(i as int), k, c);
                lemma_push_contains(before_keys, k, c);
                if c != k && bv.take(i + 1).contains(c) {
                    assert(bv.take(i as int).contains(c));
                }
            }
            assert forall|p: int| 0 <= p < tc.keys@.len() && i + 1 < bv.len() implies seq_lt(
                #[trigger] tc.key_seq()[p],
                bv[i + 1],
            ) by {
                if p < before_keys.len() {
                    assert(tc.key_seq()[p] == before_keys[p]);
                    lemma_seq_lt_transitive(before_keys[p], k, bv[i + 1]);
                } else {
                    assert(tc.key_seq()[p] == k);
                }
            }
        }
    }
    proof {
        assert(bv.take(both@.len() as int) =~= bv);
        let want = type_changes_of(ta, tb);
        assert forall|c: Seq<char>| #[trigger] pair_map(tc@).contains_key(c) == want.contains_key(c) by {
            assert(tc@.contains_key(c) == tc.key_seq().contains(c));
            assert(bv.contains(c) == (ta.contains_key(c) && tb.contains_key(c)));
        }
        assert forall|c: Seq<char>| pair_map(tc@).contains_key(c) implies #[trigger] pair_map(tc@)[c]
            == want[c] by {
            let idx = tc.key_seq().index_of(c);
            tc.lemma_view_at(idx);
        }
        assert(pair_map(tc@) =~= want);
    }
    tc
}

/// Compares one data file present in both trees: `rel` is its relative
/// path, `abs_a` and `abs_b` where it lies in each tree, `a` and `b` what was
/// loaded from each (as [`source_kind`] says; nothing is needed when the
/// first path has an unsupported suffix).
pub fn diff_data(
    rel: &str,
    abs_a: &str,
    abs_b: &str,
    a: &Loaded,
    b: &Loaded,
    deep: bool,
) -> (res: DataDiffResult)
    requires
        !unsupported_suffix(suffix_of(abs_a@)) ==> loaded_fits(abs_a@, *a) && loaded_fits(
            abs_b@,
            *b,
        ),
    ensures
        res.path@ == forward_slashes(rel@),
        unsupported_suffix(suffix_of(abs_a@)) ==> is_blank(res, forward_slashes(rel@)) && res.error
            is None && res.note@ == unsupported_note(suffix_of(abs_a@)),
        !unsupported_suffix(suffix_of(abs_a@)) ==> match read_outcome(abs_a@, *a, deep) {
            Err(e) => is_blank(res, forward_slashes(rel@)) && res.note@.len() == 0 && (
            res.error matches Some(m) && m@ == e),
            Ok(ma) => match read_outcome(abs_b@, *b, deep) {
                Err(e) => is_blank(res, forward_slashes(rel@)) && res.note@.len() == 0 && (
                res.error matches Some(m) && m@ == e),
                Ok(mb) => compared(res, ma, mb) && res.note@ == compared_note(abs_a@, abs_b@, deep),
            },
        },
{
    let path = rel_to_str(rel);
    let sfx = suffix_of_path(chars_of(abs_a).as_slice());
    let s = sfx.as_slice();
    if chars_eq_str(s, ".feather") || chars_eq_str(s, ".arrow") || chars_eq_str(s, ".xlsx")
        || chars_eq_str(s, ".xls") {
        let mut r = DataDiffResult::new(path);
        let mut note = owned("skipped: ");
        push_chars(&mut note, s);
        push_str(&mut note, " format is not supported; check this file manually");
        r.note = note;
        return r;
    }
    let stats_a = match read_file(abs_a, a, deep) {
        Ok(x) => x,
        Err(e) => {
            return DataDiffResult::with_error(path, e);
        },
    };
    let stats_b = match read_file(abs_b, b, deep) {
        Ok(x) => x,
        Err(e) => {
            return DataDiffResult::with_error(path, e);
        },
    };
    let d = merge_keys(&stats_a.schema.keys, &stats_b.schema.keys);
    proof {
        assert forall|x: Seq<char>| #[trigger] stats_a.schema@.contains_key(x)
            == key_views(stats_a.schema.keys@).to_set().contains(x) by {}
        assert forall|x: Seq<char>| #[trigger] stats_b.schema@.contains_key(x)
            == key_views(stats_b.schema.keys@).to_set().contains(x) by {}
        assert forall|x: Seq<char>| #[trigger] views(d.in_both@).contains(x) <==> (
        stats_a.schema@.contains_key(x) && stats_b.schema@.contains_key(x)) by {
            assert(stats_a.schema@.contains_key(x) == key_views(stats_a.schema.keys@).to_set().contains(x));
            assert(stats_b.schema@.contains_key(x) == key_views(stats_b.schema.keys@).to_set().contains(x));
        }
        assert forall|x: Seq<char>| #[trigger] views(d.only_in_b@).contains(x) <==> (
        text_map(stats_b.schema@).contains_key(x) && !text_map(stats_a.schema@).contains_key(x)) by {
            assert(stats_a.schema@.contains_key(x) == key_views(stats_a.schema.keys@).to_set().contains(x));
            assert(stats_b.schema@.contains_key(x) == key_views(stats_b.schema.keys@).to_set().contains(x));
        }
        assert forall|x: Seq<char>| #[trigger] views(d.only_in_a@).contains(x) <==> (
        text_map(stats_a.schema@).contains_key(x) && !text_map(stats_b.schema@).contains_key(x)) by {
            assert(stats_a.schema@.contains_key(x) == key_views(stats_a.schema.keys@).to_set().contains(x));
            assert(stats_b.schema@.contains_key(x) == key_views(stats_b.schema.keys@).to_set().contains(x));
        }
    }
    let changes = type_changes(&stats_a.schema, &stats_b.schema, &d.in_both);
    let note = if deep && (has_parquet_extension(abs_a) || has_parquet_extension(abs_b)) {
        owned("approx_distinct is 0 for Parquet (requires reading data pages)")
    } else {
        String::new()
    };
    DataDiffResult {
        path,
        row_count_a: stats_a.row_count,
        row_count_b: stats_b.row_count,
        schema_a: stats_a.schema,
        schema_b: stats_b.schema,
        columns_added: d.only_in_b,
        columns_removed: d.only_in_a,
        type_changes: changes,
        column_stats_a: stats_a.column_stats,
        column_stats_b: stats_b.column_stats,
        note,
        error: None,
    }
}

} // verus!
