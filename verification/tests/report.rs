use diff_crawler::code_diff::{BinaryDiffResult, CodeDiffResult};
use diff_crawler::crawler::{
    assemble_report, build_summary, dispatch_kind, sort_as_paths, split_dispatched, Dispatched,
    TreeReportData,
};
use diff_crawler::classifier::FileKind;
use diff_crawler::data_diff::DataDiffResult;
use diff_crawler::ratio::Ratio;
use diff_crawler::report::markdown_plan;
use diff_crawler::walker::TreeDiff;

fn ratio(x: u64, y: u64) -> Ratio {
    Ratio { num: x, den: y }
}

#[test]
fn summary_tree_fields_correct() {
    let s = build_summary(10, 3, 5, ratio(5555, 10000), &vec![], &vec![], &vec![], &vec![]);
    assert_eq!(s.tree.files_in_both, 10);
    assert_eq!(s.tree.only_in_a, 3);
    assert_eq!(s.tree.only_in_b, 5);
    assert_eq!(s.tree.tree_jaccard.num as f64 / s.tree.tree_jaccard.den as f64, 0.5555);
}

#[test]
fn summary_code_counts_correct() {
    let make = |identical: bool, sim: Ratio, added: u32, removed: u32| CodeDiffResult {
        path: "x.py".into(),
        identical,
        added_lines: added,
        removed_lines: removed,
        similarity: sim,
        unified_diff: String::new(),
        note: String::new(),
        error: None,
    };
    let diffs = vec![
        make(true, ratio(1, 1), 0, 0),
        make(false, ratio(1, 2), 10, 5),
        make(false, ratio(4, 5), 2, 3),
    ];
    let s = build_summary(3, 0, 0, ratio(1, 1), &diffs, &vec![], &vec![], &vec![]);
    assert_eq!(s.code.compared, 3);
    assert_eq!(s.code.identical, 1);
    assert_eq!(s.code.total_added_lines, 12);
    assert_eq!(s.code.total_removed_lines, 8);
}

fn data(cols_added: Vec<String>, cols_removed: Vec<String>) -> DataDiffResult {
    let mut d = DataDiffResult::new("x.csv".into());
    d.row_count_a = 10;
    d.row_count_b = 10;
    d.columns_added = cols_added;
    d.columns_removed = cols_removed;
    d
}

#[test]
fn summary_data_schema_changed_count() {
    let data = vec![
        data(vec!["new_col".into()], vec![]),
        data(vec![], vec![]),
        data(vec![], vec!["old_col".into()]),
    ];
    let s = build_summary(3, 0, 0, ratio(1, 1), &vec![], &data, &vec![], &vec![]);
    assert_eq!(s.data.compared, 3);
    assert_eq!(s.data.schema_changed, 2);
    assert_eq!(s.data.total_row_delta, 0);
}

// ── further cases ───────────────────────────────────────────────────────────

#[test]
fn overall_uses_tree_only_without_common_files() {
    let s = build_summary(0, 3, 0, ratio(0, 1), &vec![], &vec![], &vec![], &vec![]);
    assert!(s.overall_from_tree_only);
    let s2 = build_summary(0, 0, 2, ratio(0, 1), &vec![], &vec![], &vec![], &vec![]);
    assert!(s2.overall_from_tree_only);
    let s3 = build_summary(0, 0, 0, ratio(1, 1), &vec![], &vec![], &vec![], &vec![]);
    assert!(!s3.overall_from_tree_only);
}

#[test]
fn row_deltas_are_summed() {
    let mut d1 = data(vec![], vec![]);
    d1.row_count_b = 15;
    let mut d2 = data(vec![], vec![]);
    d2.row_count_a = 7;
    let s = build_summary(2, 0, 0, ratio(1, 1), &vec![], &vec![d1, d2], &vec![], &vec![]);
    assert_eq!(s.data.total_row_delta, 5 + 3);
}

#[test]
fn differing_kinds_dispatch_as_binary() {
    assert_eq!(dispatch_kind(FileKind::Code, FileKind::Code), FileKind::Code);
    assert_eq!(dispatch_kind(FileKind::Data, FileKind::Data), FileKind::Data);
    assert_eq!(dispatch_kind(FileKind::Code, FileKind::Data), FileKind::Binary);
}

#[test]
fn common_files_sort_component_by_component() {
    let v = vec!["a-b".to_string(), "a/b".to_string(), "ab/c".to_string(), "a/c".to_string()];
    let s = sort_as_paths(v);
    assert_eq!(s, vec!["a/b", "a/c", "a-b", "ab/c"]);
}

#[test]
fn tree_listing_uses_forward_slashes_and_sorts() {
    let d = TreeDiff {
        in_both: vec!["b\\x.py".to_string(), "a.py".to_string()],
        only_in_a: vec![],
        only_in_b: vec!["z.py".to_string()],
    };
    let t = TreeReportData::from_diff(&d);
    assert_eq!(t.in_both, vec!["a.py", "b/x.py"]);
    assert!(t.only_in_a.is_empty());
    assert_eq!(t.only_in_b, vec!["z.py"]);
}

fn code(path: &str, identical: bool, added: u32, removed: u32) -> CodeDiffResult {
    CodeDiffResult {
        path: path.into(),
        identical,
        added_lines: added,
        removed_lines: removed,
        similarity: ratio(1, 1),
        unified_diff: String::new(),
        note: String::new(),
        error: None,
    }
}

fn binary(path: &str, identical: bool) -> BinaryDiffResult {
    BinaryDiffResult {
        path: path.into(),
        identical,
        size_a: 1,
        size_b: 1,
        sha256_a: String::new(),
        sha256_b: String::new(),
    }
}

#[test]
fn split_keeps_the_order_within_each_kind() {
    let ds = vec![
        Dispatched::Code(code("a.py", true, 0, 0)),
        Dispatched::Binary(binary("b.bin", false)),
        Dispatched::Data(data(vec![], vec![])),
        Dispatched::Code(code("c.py", false, 1, 2)),
    ];
    let (c, d, b) = split_dispatched(ds);
    assert_eq!(c.iter().map(|x| x.path.as_str()).collect::<Vec<_>>(), vec!["a.py", "c.py"]);
    assert_eq!(d.len(), 1);
    assert_eq!(b.len(), 1);
    assert_eq!(b[0].path, "b.bin");
}

#[test]
fn assembled_report_summarizes_its_parts() {
    let diff = TreeDiff {
        in_both: vec!["a.py".into(), "b.bin".into(), "c.py".into()],
        only_in_a: vec!["old.py".into()],
        only_in_b: vec![],
    };
    let mut d = data(vec!["z".into()], vec![]);
    d.row_count_b = 13;
    let ds = vec![
        Dispatched::Code(code("a.py", true, 0, 0)),
        Dispatched::Binary(binary("b.bin", true)),
        Dispatched::Code(code("c.py", false, 4, 1)),
        Dispatched::Data(d),
    ];
    let r = assemble_report("/x\\a", "/x/b", &diff, ds, vec![]);
    assert_eq!(r.dir_a, "/x/a");
    assert_eq!(r.dir_b, "/x/b");
    assert_eq!(r.tree.in_both, vec!["a.py", "b.bin", "c.py"]);
    assert_eq!(r.tree.only_in_a, vec!["old.py"]);
    assert_eq!(r.code_diffs.len(), 2);
    assert_eq!(r.summary.tree.files_in_both, 3);
    assert_eq!(r.summary.tree.only_in_a, 1);
    assert_eq!(r.summary.tree.tree_jaccard, ratio(3, 4));
    assert_eq!(r.summary.code.compared, 2);
    assert_eq!(r.summary.code.identical, 1);
    assert_eq!(r.summary.code.total_added_lines, 4);
    assert_eq!(r.summary.code.total_removed_lines, 1);
    assert_eq!(r.summary.data.compared, 1);
    assert_eq!(r.summary.data.schema_changed, 1);
    assert_eq!(r.summary.data.total_row_delta, 3);
    assert_eq!(r.summary.binary.identical, 1);
    assert_eq!(r.summary.renames_detected, 0);
    assert!(!r.summary.overall_from_tree_only);
}

fn code_sim(path: &str, identical: bool, num: u64, den: u64) -> CodeDiffResult {
    let mut c = code(path, identical, 1, 1);
    c.similarity = ratio(num, den);
    c
}

#[test]
fn markdown_lists_changed_code_lowest_similarity_first() {
    let diff = TreeDiff { in_both: vec![], only_in_a: vec![], only_in_b: vec![] };
    let mut ds = vec![
        Dispatched::Code(code_sim("a.py", false, 9, 10)),
        Dispatched::Code(code_sim("same.py", true, 1, 1)),
        Dispatched::Code(code_sim("b.py", false, 1, 2)),
        Dispatched::Code(code_sim("c.py", false, 2, 4)),
        Dispatched::Binary(binary("m.bin", false)),
        Dispatched::Binary(binary("n.bin", true)),
    ];
    let mut quiet = data(vec![], vec![]);
    quiet.path = "quiet.csv".into();
    let mut grown = data(vec![], vec![]);
    grown.row_count_b = 11;
    let mut broken = data(vec![], vec![]);
    broken.error = Some("bad".into());
    ds.push(Dispatched::Data(quiet));
    ds.push(Dispatched::Data(grown));
    ds.push(Dispatched::Data(broken));
    let r = assemble_report("/a", "/b", &diff, ds, vec![]);
    let plan = markdown_plan(&r);
    // b.py (1/2) and c.py (2/4) tie: the earlier stays first
    assert_eq!(plan.code, vec![2, 3, 0]);
    assert_eq!(r.code_diffs[plan.code[0]].path, "b.py");
    assert_eq!(plan.data, vec![1, 2]);
    assert_eq!(plan.binary, vec![0]);
    assert_eq!(plan.renames, 0);
}

#[test]
fn markdown_lists_at_most_25_changed_files() {
    let diff = TreeDiff { in_both: vec![], only_in_a: vec![], only_in_b: vec![] };
    let ds: Vec<Dispatched> =
        (0..30).map(|i| Dispatched::Code(code_sim("x.py", false, 30 - i, 31))).collect();
    let r = assemble_report("/a", "/b", &diff, ds, vec![]);
    let plan = markdown_plan(&r);
    assert_eq!(plan.code.len(), 25);
    assert_eq!(plan.code[0], 29);
    assert_eq!(plan.code[24], 5);
}
