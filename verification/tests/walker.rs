use diff_crawler::walker::{diff_trees, skip_walk_entry, TreeIndex};

fn index(root: &str, rels: &[&str]) -> TreeIndex {
    let found: Vec<(String, String)> = rels
        .iter()
        .map(|r| (r.to_string(), format!("{}/{}", root, r)))
        .collect();
    TreeIndex::from_walk(root.to_string(), found)
}

fn ratio(r: diff_crawler::ratio::Ratio) -> f64 {
    r.num as f64 / r.den as f64
}

#[test]
fn identical_trees_have_jaccard_one() {
    let a = index("/a", &["foo.py"]);
    let b = index("/b", &["foo.py"]);

    let diff = diff_trees(&a, &b);

    assert_eq!(diff.in_both.len(), 1);
    assert_eq!(diff.only_in_a.len(), 0);
    assert_eq!(diff.only_in_b.len(), 0);
    assert!((ratio(diff.jaccard()) - 1.0).abs() < f64::EPSILON);
}

#[test]
fn disjoint_trees_have_jaccard_zero() {
    let a = index("/a", &["only_a.py"]);
    let b = index("/b", &["only_b.py"]);

    let diff = diff_trees(&a, &b);

    assert_eq!(diff.in_both.len(), 0);
    assert_eq!(diff.only_in_a.len(), 1);
    assert_eq!(diff.only_in_b.len(), 1);
    assert!(ratio(diff.jaccard()) < f64::EPSILON);
}

#[test]
fn partial_overlap_jaccard() {
    let a = index("/a", &["shared.py", "only_a.py"]);
    let b = index("/b", &["shared.py", "only_b.py"]);

    let diff = diff_trees(&a, &b);

    assert_eq!(diff.in_both.len(), 1);
    assert_eq!(diff.only_in_a.len(), 1);
    assert_eq!(diff.only_in_b.len(), 1);
    assert!((ratio(diff.jaccard()) - 1.0 / 3.0).abs() < 1e-9);
}

#[test]
fn empty_trees_have_jaccard_one() {
    let a = index("/a", &[]);
    let b = index("/b", &[]);

    let diff = diff_trees(&a, &b);

    assert_eq!(ratio(diff.jaccard()), 1.0);
}

#[test]
fn excludes_venv_dir() {
    let idx = index("/d", &["main.py", "venv/lib/site.py", "venv/bin/activate"]);
    assert_eq!(idx.len(), 1, "venv/ must be excluded");
}

#[test]
fn excludes_dot_venv_dir() {
    let idx = index("/d", &["main.py", ".venv/lib/site.py"]);
    assert_eq!(idx.len(), 1);
}

#[test]
fn excludes_pycache_dir() {
    let idx = index("/d", &["main.py", "__pycache__/main.cpython-311.pyc"]);
    assert_eq!(idx.len(), 1);
}

#[test]
fn excludes_git_dir() {
    let idx = index("/d", &["README.md", ".git/config", ".git/HEAD"]);
    assert_eq!(idx.len(), 1);
}

#[test]
fn excludes_node_modules_dir() {
    let idx = index("/d", &["index.js", "node_modules/lodash/index.js", "node_modules/.bin/jest"]);
    assert_eq!(idx.len(), 1);
}

#[test]
fn excludes_egg_info_dir() {
    let idx = index(
        "/d",
        &["setup.py", "mypackage.egg-info/PKG-INFO", "mypackage.egg-info/SOURCES.txt"],
    );
    assert_eq!(idx.len(), 1, "*.egg-info/ must be excluded");
}

#[test]
fn excludes_nested_excluded_dir() {
    let idx = index("/d", &["src/train.py", "src/__pycache__/train.cpython-311.pyc"]);
    assert_eq!(idx.len(), 1);
}

#[test]
fn excludes_ds_store() {
    let idx = index("/d", &["code.py", ".DS_Store"]);
    assert_eq!(idx.len(), 1);
}

#[test]
fn excludes_thumbs_db() {
    let idx = index("/d", &["code.py", "Thumbs.db"]);
    assert_eq!(idx.len(), 1);
}

#[test]
fn excludes_pyc_suffix() {
    let idx = index("/d", &["code.py", "code.pyc"]);
    assert_eq!(idx.len(), 1);
}

#[test]
fn excludes_log_suffix() {
    let idx = index("/d", &["train.py", "run.log"]);
    assert_eq!(idx.len(), 1);
}

#[test]
fn suffix_check_is_case_insensitive() {
    let idx = index("/d", &["module.py", "module.PYC"]);
    assert_eq!(idx.len(), 1, ".PYC (uppercase) must be excluded");
}

#[test]
fn dotfile_without_extension_is_not_excluded_by_suffix() {
    let idx = index("/d", &["code.py", ".log"]);
    assert_eq!(idx.len(), 2, ".log dotfile must be kept");
}

#[test]
fn abs_lookup_resolves_to_existing_file() {
    let idx = index("/d", &["src/model.py"]);
    let abs = idx.abs_path("src/model.py").expect("rel path must be in abs_lookup");
    assert_eq!(abs, "/d/src/model.py");
}

// ── further cases ───────────────────────────────────────────────────────────

#[test]
fn diff_lists_are_sorted_and_partition_the_union() {
    let a = index("/a", &["z.py", "b.py", "m.py"]);
    let b = index("/b", &["m.py", "a.py", "z.py"]);
    let diff = diff_trees(&a, &b);
    assert_eq!(diff.in_both, vec!["m.py", "z.py"]);
    assert_eq!(diff.only_in_a, vec!["b.py"]);
    assert_eq!(diff.only_in_b, vec!["a.py"]);
    let j = diff.jaccard();
    assert_eq!((j.num, j.den), (2, 4));
}

#[test]
fn swapped_diff_swaps_one_sided_lists() {
    let a = index("/a", &["x.py", "shared.py"]);
    let b = index("/b", &["y.py", "shared.py"]);
    let d = diff_trees(&a, &b);
    let e = diff_trees(&b, &a);
    assert_eq!(d.in_both, e.in_both);
    assert_eq!(d.only_in_a, e.only_in_b);
    assert_eq!(d.only_in_b, e.only_in_a);
}

#[test]
fn duplicate_walk_entries_count_once() {
    let idx = index("/d", &["a.py", "a.py"]);
    assert_eq!(idx.len(), 1);
}

#[test]
fn walk_prunes_excluded_directories_but_not_root() {
    assert!(!skip_walk_entry(0, "venv", false));
    assert!(skip_walk_entry(1, "venv", false));
    assert!(skip_walk_entry(2, "pkg.egg-info", false));
    assert!(!skip_walk_entry(1, "Thumbs.db", false));
    assert!(skip_walk_entry(1, "Thumbs.db", true));
    assert!(skip_walk_entry(3, "x.LOG", true));
    assert!(!skip_walk_entry(3, ".log", true));
}

#[test]
fn index_lists_relative_paths_in_order() {
    let idx = index("/d", &["src/z.py", "a.py", "venv/x.py", "src/b.py"]);
    assert_eq!(idx.file_list(), vec!["a.py", "src/b.py", "src/z.py"]);
    assert_eq!(idx.abs_path("src/b.py"), Some("/d/src/b.py".to_string()));
    assert_eq!(idx.abs_path("venv/x.py"), None);
}
