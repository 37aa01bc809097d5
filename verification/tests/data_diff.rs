use std::sync::Arc;

use diff_crawler::data_diff::{
    diff_data, parquet_readable_check, read_file, read_parquet, read_parquet_bytes, source_kind,
    ColumnStat, ConvertedType, Loaded, ParquetColumn, ParquetMeta, PhysicalType, RowGroup,
    SourceKind,
};
use parquet::data_type::{ByteArray, ByteArrayType, Int32Type, Int64Type};
use parquet::file::properties::WriterProperties;
use parquet::file::writer::SerializedFileWriter;
use parquet::schema::parser::parse_message_type;
use diff_crawler::strmap::StrMap;

fn bytes(s: &str) -> Loaded {
    Loaded::Bytes(s.as_bytes().to_vec())
}

fn key(s: &str) -> Vec<char> {
    s.chars().collect()
}

fn get<'a, V>(m: &'a StrMap<V>, k: &str) -> Option<&'a V> {
    m.get(key(k).as_slice())
}

fn keys<V>(m: &StrMap<V>) -> Vec<String> {
    m.keys.iter().map(|k| k.iter().collect()).collect()
}

// ── CSV ─────────────────────────────────────────────────────────────────────

#[test]
fn csv_identical_files_have_same_row_count_and_schema() {
    let csv = "a,b,c\n1,2,3\n4,5,6\n";
    let r = diff_data("data.csv", "a.csv", "b.csv", &bytes(csv), &bytes(csv), false);

    assert!(r.error.is_none(), "unexpected error: {:?}", r.error);
    assert_eq!(r.row_count_a, 2);
    assert_eq!(r.row_count_b, 2);
    assert!(r.columns_added.is_empty());
    assert!(r.columns_removed.is_empty());
    assert!(r.type_changes.keys.is_empty());
}

#[test]
fn csv_row_counts_differ() {
    let r = diff_data("data.csv", "a.csv", "b.csv", &bytes("x,y\n1,2\n3,4\n5,6\n"), &bytes("x,y\n1,2\n"), false);

    assert!(r.error.is_none(), "unexpected error: {:?}", r.error);
    assert_eq!(r.row_count_a, 3);
    assert_eq!(r.row_count_b, 1);
}

#[test]
fn csv_column_added() {
    let r = diff_data("data.csv", "a.csv", "b.csv", &bytes("x,y\n1,2\n"), &bytes("x,y,z\n1,2,3\n"), false);

    assert!(r.error.is_none(), "unexpected error: {:?}", r.error);
    assert_eq!(r.columns_added, vec!["z"]);
    assert!(r.columns_removed.is_empty());
}

#[test]
fn csv_column_removed() {
    let r = diff_data("data.csv", "a.csv", "b.csv", &bytes("x,y,z\n1,2,3\n"), &bytes("x,y\n1,2\n"), false);

    assert!(r.error.is_none(), "unexpected error: {:?}", r.error);
    assert!(r.columns_added.is_empty());
    assert_eq!(r.columns_removed, vec!["z"]);
}

#[test]
fn csv_type_inferred_bigint_for_integers() {
    let r = diff_data("data.csv", "a.csv", "b.csv", &bytes("id\n1\n2\n3\n"), &bytes("id\n4\n5\n"), false);

    assert!(r.error.is_none(), "unexpected error: {:?}", r.error);
    assert_eq!(get(&r.schema_a, "id").map(|s| s.as_str()), Some("BIGINT"));
    assert_eq!(get(&r.schema_b, "id").map(|s| s.as_str()), Some("BIGINT"));
}

#[test]
fn csv_type_inferred_varchar_for_strings() {
    let r = diff_data("data.csv", "a.csv", "b.csv", &bytes("name\nalice\nbob\n"), &bytes("name\ncharlie\n"), false);

    assert!(r.error.is_none(), "unexpected error: {:?}", r.error);
    assert_eq!(get(&r.schema_a, "name").map(|s| s.as_str()), Some("VARCHAR"));
}

#[test]
fn csv_type_change_detected() {
    let r = diff_data("data.csv", "a.csv", "b.csv", &bytes("val\n1\n2\n3\n"), &bytes("val\nhello\nworld\n"), false);

    assert!(r.error.is_none(), "unexpected error: {:?}", r.error);
    assert!(get(&r.type_changes, "val").is_some(), "expected type change on 'val'");
    let change = get(&r.type_changes, "val").unwrap();
    assert_eq!(change.0, "BIGINT");
    assert_eq!(change.1, "VARCHAR");
}

#[test]
fn csv_schema_keys_are_alphabetical() {
    let r = diff_data("data.csv", "a.csv", "b.csv", &bytes("z,a,m\n1,2,3\n"), &bytes("z,a,m\n4,5,6\n"), false);

    assert!(r.error.is_none(), "unexpected error: {:?}", r.error);
    let keys_a = keys(&r.schema_a);
    let mut sorted = keys_a.clone();
    sorted.sort();
    assert_eq!(keys_a, sorted, "schema_a keys must be in alphabetical order");
}

#[test]
fn csv_deep_stats_populated() {
    let r = diff_data("data.csv", "a.csv", "b.csv", &bytes("x,y\n1,2\n,4\n5,6\n"), &bytes("x,y\n10,20\n30,40\n"), true);

    assert!(r.error.is_none(), "unexpected error: {:?}", r.error);
    assert!(!r.column_stats_a.keys.is_empty(), "column_stats_a should be populated");
    assert!(!r.column_stats_b.keys.is_empty(), "column_stats_b should be populated");
    assert_eq!(get(&r.column_stats_a, "x").unwrap().nulls, 1);
    assert_eq!(get(&r.column_stats_a, "y").unwrap().nulls, 0);
}

#[test]
fn csv_deep_stats_empty_without_flag() {
    let r = diff_data("data.csv", "a.csv", "b.csv", &bytes("x,y\n1,2\n"), &bytes("x,y\n3,4\n"), false);

    assert!(r.error.is_none(), "unexpected error: {:?}", r.error);
    assert!(r.column_stats_a.keys.is_empty());
    assert!(r.column_stats_b.keys.is_empty());
}

#[test]
fn csv_distinct_counts_populated_with_deep() {
    let r = diff_data("data.csv", "a.csv", "b.csv", &bytes("x\n1\n2\n2\n3\n"), &bytes("x\n1\n1\n"), true);

    assert!(r.error.is_none(), "unexpected error: {:?}", r.error);
    assert_eq!(get(&r.column_stats_a, "x").unwrap().approx_distinct, 3);
    assert_eq!(get(&r.column_stats_b, "x").unwrap().approx_distinct, 1);
}

// ── JSON Lines ──────────────────────────────────────────────────────────────

#[test]
fn jsonl_row_counts() {
    let r = diff_data(
        "data.jsonl",
        "a.jsonl",
        "b.jsonl",
        &bytes("{\"x\":1}\n{\"x\":2}\n{\"x\":3}\n"),
        &bytes("{\"x\":4}\n"),
        false,
    );

    assert!(r.error.is_none(), "unexpected error: {:?}", r.error);
    assert_eq!(r.row_count_a, 3);
    assert_eq!(r.row_count_b, 1);
}

#[test]
fn jsonl_schema_detected() {
    let r = diff_data(
        "data.jsonl",
        "a.jsonl",
        "b.jsonl",
        &bytes("{\"name\":\"alice\",\"score\":95}\n"),
        &bytes("{\"name\":\"bob\",\"score\":80}\n"),
        false,
    );

    assert!(r.error.is_none(), "unexpected error: {:?}", r.error);
    assert!(get(&r.schema_a, "name").is_some());
    assert!(get(&r.schema_a, "score").is_some());
}

#[test]
fn ndjson_treated_same_as_jsonl() {
    let r = diff_data(
        "data.ndjson",
        "a.ndjson",
        "b.ndjson",
        &bytes("{\"v\":1}\n{\"v\":2}\n"),
        &bytes("{\"v\":3}\n"),
        false,
    );

    assert!(r.error.is_none(), "unexpected error: {:?}", r.error);
    assert_eq!(r.row_count_a, 2);
    assert_eq!(r.row_count_b, 1);
}

#[test]
fn path_uses_forward_slashes() {
    let r = diff_data("sub/data.csv", "a.csv", "b.csv", &bytes("x\n1\n"), &bytes("x\n2\n"), false);

    assert!(!r.path.contains('\\'), "path must use forward slashes, got: {}", r.path);
    assert_eq!(r.path, "sub/data.csv");
}

#[test]
fn unsupported_format_returns_skip_note() {
    let r = diff_data("data.xlsx", "a.xlsx", "b.xlsx", &Loaded::NotRead, &Loaded::NotRead, false);

    assert!(r.error.is_none(), "unsupported format should not produce an error");
    assert!(r.note.contains("skipped"), "expected 'skipped' in note, got: {}", r.note);
}

// ── further cases ───────────────────────────────────────────────────────────

#[test]
fn unsupported_note_names_the_suffix() {
    let r = diff_data("d.FEATHER", "a.FEATHER", "b.FEATHER", &Loaded::NotRead, &Loaded::NotRead, false);
    assert_eq!(r.note, "skipped: .feather format is not supported; check this file manually");
}

#[test]
fn unknown_suffix_is_an_error() {
    let r = diff_data("d.txt", "a.txt", "b.txt", &Loaded::NotRead, &Loaded::NotRead, false);
    assert_eq!(r.error.as_deref(), Some("unsupported: .txt"));
    assert_eq!(r.row_count_a, 0);
}

#[test]
fn read_failure_is_reported() {
    let r = diff_data("d.csv", "a.csv", "b.csv", &Loaded::Failed("gone".to_string()), &bytes("x\n1\n"), false);
    assert_eq!(r.error.as_deref(), Some("gone"));
}

#[test]
fn source_kinds_by_suffix() {
    assert_eq!(source_kind("x/a.CSV"), SourceKind::Bytes);
    assert_eq!(source_kind("a.json"), SourceKind::Bytes);
    assert_eq!(source_kind("a.parquet"), SourceKind::Bytes);
    assert_eq!(source_kind("a.tsv"), SourceKind::Bytes);
    assert_eq!(source_kind("a.xlsx"), SourceKind::Nothing);
}

#[test]
fn csv_type_inference_order() {
    let csv = "b,i,d,s,e\ntrue,1,1.5,x,\nno,-2,2e3,y,\n";
    let r = diff_data("d.csv", "a.csv", "b.csv", &bytes(csv), &bytes(csv), false);
    assert_eq!(get(&r.schema_a, "b").unwrap(), "BOOLEAN");
    assert_eq!(get(&r.schema_a, "i").unwrap(), "BIGINT");
    assert_eq!(get(&r.schema_a, "d").unwrap(), "DOUBLE");
    assert_eq!(get(&r.schema_a, "s").unwrap(), "VARCHAR");
    assert_eq!(get(&r.schema_a, "e").unwrap(), "VARCHAR");
}

#[test]
fn csv_zero_and_one_are_boolean() {
    let r = diff_data("d.csv", "a.csv", "b.csv", &bytes("f\n0\n1\n"), &bytes("f\n2\n"), false);
    assert_eq!(get(&r.schema_a, "f").unwrap(), "BOOLEAN");
    assert_eq!(get(&r.schema_b, "f").unwrap(), "BIGINT");
    let change = get(&r.type_changes, "f").unwrap();
    assert_eq!((change.0.as_str(), change.1.as_str()), ("BOOLEAN", "BIGINT"));
}

#[test]
fn csv_parse_error_is_reported() {
    let r = diff_data("d.csv", "a.csv", "b.csv", &Loaded::Bytes(vec![b'a', b'\n', 0xff, b'\n']), &bytes("a\n1\n"), false);
    assert!(r.error.is_some());
}

#[test]
fn jsonl_types_blank_lines_and_non_objects() {
    let text = "{\"a\":null,\"b\":1.5,\"c\":[1]}\n\n  \r\n[1,2]\n{\"a\":\"s\",\"b\":2,\"d\":true}\n{\"a\":3}\n";
    let r = diff_data("d.jsonl", "a.jsonl", "b.jsonl", &bytes(text), &bytes(text), true);
    assert!(r.error.is_none(), "unexpected error: {:?}", r.error);
    assert_eq!(r.row_count_a, 3);
    assert_eq!(get(&r.schema_a, "a").unwrap(), "BIGINT");
    assert_eq!(get(&r.schema_a, "b").unwrap(), "DOUBLE");
    assert_eq!(get(&r.schema_a, "c").unwrap(), "JSON");
    assert_eq!(get(&r.schema_a, "d").unwrap(), "BOOLEAN");
    assert_eq!(*get(&r.column_stats_a, "a").unwrap(), ColumnStat { nulls: 1, approx_distinct: 2 });
}

#[test]
fn jsonl_parse_error_has_prefix() {
    let r = diff_data("d.jsonl", "a.jsonl", "b.jsonl", &bytes("{\"x\":1}\n{oops}\n"), &bytes("{}\n"), false);
    let e = r.error.expect("error expected");
    assert!(e.starts_with("JSON parse: "), "got {}", e);
}

#[test]
fn jsonl_invalid_utf8_line() {
    let r = diff_data("d.jsonl", "a.jsonl", "b.jsonl", &Loaded::Bytes(vec![b'{', 0xff, b'}', b'\n']), &bytes("{}\n"), false);
    assert_eq!(r.error.as_deref(), Some("stream did not contain valid UTF-8"));
}

#[test]
fn json_document_counts_all_items() {
    let a = "[{\"x\":1},{\"y\":\"t\"},5]";
    let b = "[{\"x\":2.5}]";
    let r = diff_data("d.json", "a.json", "b.json", &bytes(a), &bytes(b), false);
    assert!(r.error.is_none(), "unexpected error: {:?}", r.error);
    assert_eq!(r.row_count_a, 3);
    assert_eq!(r.row_count_b, 1);
    assert_eq!(r.columns_removed, vec!["y"]);
    let change = get(&r.type_changes, "x").unwrap();
    assert_eq!((change.0.as_str(), change.1.as_str()), ("BIGINT", "DOUBLE"));
}

#[test]
fn json_document_must_be_an_array() {
    let r = diff_data("d.json", "a.json", "b.json", &bytes("{\"x\":1}"), &bytes("[]"), false);
    assert_eq!(r.error.as_deref(), Some("large JSON is not a top-level array; skipping data diff"));
}

/// A Parquet file with columns id (INT64), day (INT32 DATE) and name
/// (UTF8), in two row groups of 3 and 2 rows; `day` has one null in the
/// first group, `name` one in each.
fn parquet_file() -> Vec<u8> {
    let schema = Arc::new(
        parse_message_type(
            "message m { REQUIRED INT64 id; OPTIONAL INT32 day (DATE); OPTIONAL BYTE_ARRAY name (UTF8); }",
        )
        .unwrap(),
    );
    let props = Arc::new(WriterProperties::builder().build());
    let mut buf: Vec<u8> = Vec::new();
    let mut w = SerializedFileWriter::new(&mut buf, schema, props).unwrap();
    for (ids, days, names) in [
        (vec![1i64, 2, 3], (vec![7i32, 8], vec![1i16, 0, 1]), (vec!["a", "b"], vec![1i16, 1, 0])),
        (vec![4i64, 5], (vec![9i32, 10], vec![1i16, 1]), (vec!["c"], vec![0i16, 1])),
    ] {
        let mut rg = w.next_row_group().unwrap();
        let mut c = rg.next_column().unwrap().unwrap();
        c.typed::<Int64Type>().write_batch(&ids, None, None).unwrap();
        c.close().unwrap();
        let mut c = rg.next_column().unwrap().unwrap();
        c.typed::<Int32Type>().write_batch(&days.0, Some(&days.1), None).unwrap();
        c.close().unwrap();
        let mut c = rg.next_column().unwrap().unwrap();
        let vals: Vec<ByteArray> = names.0.iter().map(|v| ByteArray::from(*v)).collect();
        c.typed::<ByteArrayType>().write_batch(&vals, Some(&names.1), None).unwrap();
        c.close().unwrap();
        rg.close().unwrap();
    }
    w.close().unwrap();
    buf
}

#[test]
fn parquet_footer_summary() {
    let s = read_file("a.parquet", &Loaded::Bytes(parquet_file()), true).expect("readable");
    assert_eq!(s.row_count, 5);
    assert_eq!(keys(&s.schema), vec!["day", "id", "name"]);
    assert_eq!(get(&s.schema, "id").unwrap(), "BIGINT");
    assert_eq!(get(&s.schema, "day").unwrap(), "DATE");
    assert_eq!(get(&s.schema, "name").unwrap(), "VARCHAR");
    assert_eq!(*get(&s.column_stats, "id").unwrap(), ColumnStat { nulls: 0, approx_distinct: 0 });
    assert_eq!(*get(&s.column_stats, "day").unwrap(), ColumnStat { nulls: 1, approx_distinct: 0 });
    assert_eq!(*get(&s.column_stats, "name").unwrap(), ColumnStat { nulls: 2, approx_distinct: 0 });
    let shallow = read_parquet_bytes(&parquet_file(), false).expect("readable");
    assert_eq!(shallow.row_count, 5);
    assert!(shallow.column_stats.keys.is_empty());
}

#[test]
fn parquet_bytes_that_are_not_parquet_give_the_crate_error() {
    let r = read_parquet_bytes(b"not a parquet file", false);
    match r {
        Ok(_) => panic!("not a Parquet file"),
        Err(e) => assert!(!e.is_empty()),
    }
    let d = diff_data("d.parquet", "a.parquet", "b.parquet", &bytes("x"), &bytes("x"), false);
    assert!(d.error.is_some());
}

#[test]
fn parquet_deep_note() {
    let f = parquet_file();
    let r = diff_data("d.parquet", "a.parquet", "b.parquet", &Loaded::Bytes(f.clone()), &Loaded::Bytes(f.clone()), true);
    assert!(r.error.is_none());
    assert_eq!(r.note, "approx_distinct is 0 for Parquet (requires reading data pages)");
    let r2 = diff_data("d.parquet", "a.parquet", "b.parquet", &Loaded::Bytes(f.clone()), &Loaded::Bytes(f), false);
    assert_eq!(r2.note, "");
    assert_eq!(r2.row_count_a, 5);
}

fn meta() -> ParquetMeta {
    ParquetMeta {
        columns: vec![
            ParquetColumn { name: "id".into(), physical: PhysicalType::Int64, converted: ConvertedType::Other },
            ParquetColumn { name: "day".into(), physical: PhysicalType::Int32, converted: ConvertedType::Date },
            ParquetColumn { name: "name".into(), physical: PhysicalType::ByteArray, converted: ConvertedType::Utf8 },
        ],
        row_groups: vec![
            RowGroup { num_rows: 10, null_counts: vec![Some(0), Some(2), None] },
            RowGroup { num_rows: 5, null_counts: vec![Some(1), Some(0), Some(3)] },
        ],
    }
}

#[test]
fn parquet_summary_sums_row_groups() {
    let m = meta();
    assert!(parquet_readable_check(&m, true));
    let s = read_parquet(&m, true);
    assert_eq!(s.row_count, 15);
    assert_eq!(*get(&s.column_stats, "day").unwrap(), ColumnStat { nulls: 2, approx_distinct: 0 });
    assert_eq!(*get(&s.column_stats, "name").unwrap(), ColumnStat { nulls: 3, approx_distinct: 0 });
}

#[test]
fn parquet_overflow_is_detected() {
    let mut m = meta();
    m.row_groups[0].num_rows = i64::MAX;
    assert!(!parquet_readable_check(&m, false));
}

#[test]
fn swapped_comparison_swaps_columns() {
    let a = "x,y\n1,2\n";
    let b = "y,z\n3,4\n";
    let r = diff_data("d.csv", "a.csv", "b.csv", &bytes(a), &bytes(b), false);
    let s = diff_data("d.csv", "b.csv", "a.csv", &bytes(b), &bytes(a), false);
    assert_eq!(r.columns_added, s.columns_removed);
    assert_eq!(r.columns_removed, s.columns_added);
    assert_eq!(r.columns_added, vec!["z"]);
}

#[test]
fn tsv_is_read_with_tabs() {
    let tsv = "a\tb\n5\t7\n";
    let r = diff_data("t.tsv", "a.tsv", "b.tsv", &bytes(tsv), &bytes(tsv), false);
    assert!(r.error.is_none(), "unexpected error: {:?}", r.error);
    assert_eq!(r.row_count_a, 1);
    assert_eq!(keys(&r.schema_a), vec!["a", "b"]);
    assert_eq!(get(&r.schema_a, "a").unwrap(), "BIGINT");
    assert_eq!(keys(&r.schema_b), vec!["a", "b"]);
    assert!(r.type_changes.keys.is_empty());
    let c = diff_data("t.csv", "a.csv", "b.csv", &bytes(tsv), &bytes(tsv), false);
    assert_eq!(keys(&c.schema_a), vec!["a\tb"]);
}
