//! Row counts, column types and column statistics of delimited text (CSV
//! with commas, TSV with tabs). The `csv` crate splits the text into
//! records; the tabulation is verified here.
use vstd::prelude::*;
use crate::data_diff::{ColumnStat, FileStats, TableModel};
use crate::strmap::{text_map, StrMap};
use crate::text::{chars_of, copy_chars, owned, views};
use crate::values::{
    capped_distinct, column_type, count_distinct_capped, lemma_tracked_push, observed_state,
    TypeTracker,
};

verus! {

/// The header and the records of a CSV text, as the `csv` crate reads them.
pub struct CsvTable {
    pub headers: Vec<String>,
    pub records: Vec<Vec<String>>,
}

/// The fields of each record, as character sequences.
pub open spec fn rows_view(rs: Seq<Vec<String>>) -> Seq<Seq<Seq<char>>> {
    rs.map_values(|r: Vec<String>| views(r@))
}

/// What the `csv` crate reads from `data` with a flexible reader whose first
/// record is the header and whose field delimiter is the byte `delimiter`:
/// the header fields and the remaining records, or the text of the first
/// error.
pub uninterp spec fn csv_table(data: Seq<u8>, delimiter: u8) -> Result<
    (Seq<Seq<char>>, Seq<Seq<Seq<char>>>),
    Seq<char>,
>;

/// `csv::ReaderBuilder::new().flexible(true).delimiter(delimiter).from_reader(data)`, then
/// `headers()` and every record of `records()`, each field as a `String`; the
/// first error is returned as its text. The outcome is named by `csv_table`.
#[verifier::external_body]
fn parse_csv(data: &[u8], delimiter: u8) -> (res: Result<CsvTable, String>)
    ensures
        match res {
            Ok(t) => csv_table(data@, delimiter) == Ok::<_, Seq<char>>(
                (views(t.headers@), rows_view(t.records@)),
            ),
            Err(e) => csv_table(data@, delimiter) == Err::<(Seq<Seq<char>>, Seq<Seq<Seq<char>>>), _>(
                e@,
            ),
        },
{
    let mut rdr = csv::ReaderBuilder::new().flexible(true).delimiter(delimiter).from_reader(data);
    let headers = match rdr.headers() {
        Ok(h) => h.iter().map(String::from).collect(),
        Err(e) => return Err(e.to_string()),
    };
    let mut records = Vec::new();
    for rec in rdr.records() {
        match rec {
            Ok(r) => records.push(r.iter().map(String::from).collect()),
            Err(e) => return Err(e.to_string()),
        }
    }
    Ok(CsvTable { headers, records })
}

/// The cells of column `i`: the `i`-th field of every record that has one.
pub open spec fn column_cells(rows: Seq<Seq<Seq<char>>>, i: int) -> Seq<Seq<char>>
    decreases rows.len(),
{
    if rows.len() == 0 {
        seq![]
    } else {
        let prev = column_cells(rows.drop_last(), i);
        if 0 <= i < rows.last().len() {
            prev.push(rows.last()[i])
        } else {
            prev
        }
    }
}

/// Number of empty cells (nulls).
pub open spec fn empty_cells(cells: Seq<Seq<char>>) -> nat
    decreases cells.len(),
{
    if cells.len() == 0 {
        0
    } else {
        empty_cells(cells.drop_last()) + if cells.last().len() == 0 {
            1nat
        } else {
            0nat
        }
    }
}

/// The non-empty cells, in order.
pub open spec fn filled_cells(cells: Seq<Seq<char>>) -> Seq<Seq<char>>
    decreases cells.len(),
{
    if cells.len() == 0 {
        seq![]
    } else {
        let prev = filled_cells(cells.drop_last());
        if cells.last().len() > 0 {
            prev.push(cells.last())
        } else {
            prev
        }
    }
}

/// Statistics of one column: its empty cells and its distinct non-empty values.
pub open spec fn cells_stat(cells: Seq<Seq<char>>) -> ColumnStat {
    ColumnStat {
        nulls: empty_cells(cells) as i64,
        approx_distinct: capped_distinct(filled_cells(cells)) as i64,
    }
}

/// Column name → type over the first `n` header fields; a repeated name
/// takes the type of its last column.
pub open spec fn csv_schema(headers: Seq<Seq<char>>, rows: Seq<Seq<Seq<char>>>, n: int) -> Map<
    Seq<char>,
    Seq<char>,
>
    decreases n,
{
    if n <= 0 {
        Map::empty()
    } else {
        csv_schema(headers, rows, n - 1).insert(
            headers[n - 1],
            column_type(column_cells(rows, n - 1)),
        )
    }
}

/// Column name → statistics over the first `n` header fields.
pub open spec fn csv_column_stats(
    headers: Seq<Seq<char>>,
    rows: Seq<Seq<Seq<char>>>,
    n: int,
) -> Map<Seq<char>, ColumnStat>
    decreases n,
{
    if n <= 0 {
        Map::empty()
    } else {
        csv_column_stats(headers, rows, n - 1).insert(
            headers[n - 1],
            cells_stat(column_cells(rows, n - 1)),
        )
    }
}

/// The statistics of a table: row count, schema, and (when `deep`) column
/// statistics.
pub open spec fn csv_model(headers: Seq<Seq<char>>, rows: Seq<Seq<Seq<char>>>, deep: bool) -> TableModel {
    (
        rows.len() as int,
        csv_schema(headers, rows, headers.len() as int),
        if deep {
            csv_column_stats(headers, rows, headers.len() as int)
        } else {
            Map::empty()
        },
    )
}

/// The number of empty cells is at most the number of cells.
proof fn lemma_empty_cells_bound(cells: Seq<Seq<char>>)
    ensures
        empty_cells(cells) <= cells.len(),
    decreases cells.len(),
{
    if cells.len() > 0 {
        lemma_empty_cells_bound(cells.drop_last());
    }
}

/// A column has at most one cell per record.
proof fn lemma_column_cells_bound(rows: Seq<Seq<Seq<char>>>, i: int)
    ensures
        column_cells(rows, i).len() <= rows.len(),
    decreases rows.len(),
{
    if rows.len() > 0 {
        lemma_column_cells_bound(rows.drop_last(), i);
    }
}

/// Type, null count and distinct count of column `i`.
fn tabulate_column(records: &Vec<Vec<String>>, i: usize, deep: bool) -> (res: (
    &'static str,
    ColumnStat,
))
    requires
        records@.len() <= i64::MAX,
    ensures
        res.0@ == column_type(column_cells(rows_view(records@), i as int)),
        deep ==> res.1 == cells_stat(column_cells(rows_view(records@), i as int)),
{
    let ghost rows = rows_view(records@);
    let mut tracker = TypeTracker::new();
    let mut nulls: u64 = 0;
    let mut filled: Vec<String> = Vec::new();
    let mut r: usize = 0;
    proof {
        assert(rows.take(0) =~= Seq::<Seq<Seq<char>>>::empty());
        assert(views(filled@) =~= Seq::<Seq<char>>::empty());
    }
    while r < records.len()
        invariant
            rows == rows_view(records@),
            r <= records@.len(),
            records@.len() <= i64::MAX,
            tracker == observed_state(column_cells(rows.take(r as int), i as int)),
            nulls == empty_cells(column_cells(rows.take(r as int), i as int)),
            deep ==> views(filled@) == filled_cells(column_cells(rows.take(r as int), i as int)),
        decreases records@.len() - r,
    {
        let ghost before = column_cells(rows.take(r as int), i as int);
        proof {
            assert(rows.take(r + 1).drop_last() =~= rows.take(r as int));
            assert(rows.take(r + 1).last() == rows[r as int]);
            lemma_empty_cells_bound(before);
            lemma_column_cells_bound(rows.take(r as int), i as int);
        }
        if i < records[r].len() {
            let cell = &records[r][i];
            assert(cell@ == rows[r as int][i as int]);
            let ghost after = before.push(cell@);
            assert(column_cells(rows.take(r + 1), i as int) == after);
            tracker.observe(cell.as_str());
            proof {
                lemma_tracked_push(before, cell@, tracker);
                assert(after.drop_last() =~= before);
            }
            if cell.as_str().is_empty() {
                nulls = nulls + 1;
            } else if deep {
                let ghost old_filled = views(filled@);
                filled.push(cell.clone());
                assert(views(filled@) =~= old_filled.push(cell@));
            }
        } else {
            assert(column_cells(rows.take(r + 1), i as int) == before);
        }
        r += 1;
    }
    proof {
        assert(rows.take(r as int) =~= rows);
        lemma_empty_cells_bound(column_cells(rows, i as int));
        lemma_column_cells_bound(rows, i as int);
    }
    let stat = if deep {
        let distinct = count_distinct_capped(filled);
        ColumnStat { nulls: nulls as i64, approx_distinct: distinct as i64 }
    } else {
        ColumnStat { nulls: 0, approx_distinct: 0 }
    };
    (tracker.infer(), stat)
}

/// Row count, schema and (when `deep`) column statistics of a CSV table.
pub fn csv_stats(headers: &Vec<String>, records: &Vec<Vec<String>>, deep: bool) -> (res: FileStats)
    requires
        records@.len() <= i64::MAX,
    ensures
        res.wf(),
        res.model() == csv_model(views(headers@), rows_view(records@), deep),
{
    let ghost hs = views(headers@);
    let ghost rows = rows_view(records@);
    let mut schema: StrMap<String> = StrMap::new();
    let mut stats: StrMap<ColumnStat> = StrMap::new();
    proof {
        assert(text_map(schema@) =~= Map::<Seq<char>, Seq<char>>::empty());
    }
    for i in 0..headers.len()
        invariant
            hs == views(headers@),
            rows == rows_view(records@),
            records@.len() <= i64::MAX,
            schema.wf(),
            stats.wf(),
            text_map(schema@) == csv_schema(hs, rows, i as int),
            stats@ == (if deep {
                csv_column_stats(hs, rows, i as int)
            } else {
                Map::<Seq<char>, ColumnStat>::empty()
            }),
    {
        let (ty, stat) = tabulate_column(records, i, deep);
        let key = chars_of(headers[i].as_str());
        let ghost before = schema@;
        schema.insert(copy_chars(key.as_slice()), owned(ty));
        proof {
            assert(text_map(schema@) =~= text_map(before).insert(hs[i as int], ty@));
        }
        if deep {
            stats.insert(key, stat);
        }
    }
    let n: u64 = records.len() as u64;
    FileStats { row_count: n as i64, schema, column_stats: stats }
}

/// The message for a table whose counts do not fit in an `i64`.
pub open spec fn count_overflow() -> Seq<char> {
    "count exceeds the range of i64"@
}

/// The outcome of reading delimited text: the crate's error, or the
/// statistics of its table.
pub open spec fn csv_outcome(data: Seq<u8>, delimiter: u8, deep: bool) -> Result<TableModel, Seq<char>> {
    match csv_table(data, delimiter) {
        Err(e) => Err(e),
        Ok((h, rows)) => if rows.len() <= i64::MAX {
            Ok(csv_model(h, rows, deep))
        } else {
            Err(count_overflow())
        },
    }
}

/// Reads delimited text: CSV with `b','`, TSV with `b'\t'`.
pub fn read_csv(data: &[u8], delimiter: u8, deep: bool) -> (res: Result<FileStats, String>)
    ensures
        match res {
            Ok(s) => s.wf() && csv_outcome(data@, delimiter, deep) == Ok::<TableModel, Seq<char>>(
                s.model(),
            ),
            Err(e) => csv_outcome(data@, delimiter, deep) == Err::<TableModel, Seq<char>>(e@),
        },
{
    match parse_csv(data, delimiter) {
        Err(e) => Err(e),
        Ok(t) => {
            if t.records.len() as u64 > 9223372036854775807u64 {
                Err(owned("count exceeds the range of i64"))
            } else {
                Ok(csv_stats(&t.headers, &t.records, deep))
            }
        },
    }
}

} // verus!
