use diff_crawler::classifier::{classify, is_excluded_path, FileKind, FileProbe};

fn no_probe() -> FileProbe {
    FileProbe { size: 0, head: None }
}

#[test]
fn py_is_code() {
    let c = classify("foo.py", &no_probe());
    assert_eq!(c.kind, FileKind::Code);
}

#[test]
fn parquet_is_data() {
    let c = classify("data.parquet", &no_probe());
    assert_eq!(c.kind, FileKind::Data);
}

#[test]
fn pkl_is_binary() {
    let c = classify("model.pkl", &no_probe());
    assert_eq!(c.kind, FileKind::Binary);
}

#[test]
fn exclude_venv_component() {
    assert!(is_excluded_path("venv/lib/site.py"));
}

#[test]
fn exclude_egg_info() {
    assert!(is_excluded_path("mypackage.egg-info/PKG-INFO"));
}

#[test]
fn exclude_pyc_suffix() {
    assert!(is_excluded_path("foo.pyc"));
}

#[test]
fn keep_normal_file() {
    assert!(!is_excluded_path("src/main.py"));
}

#[test]
fn keep_dotfile_without_excluded_suffix() {
    assert!(!is_excluded_path(".gitignore"));
}

// ── further cases ───────────────────────────────────────────────────────────

#[test]
fn json_below_threshold_is_code_config() {
    let c = classify("conf.json", &FileProbe { size: 262143, head: None });
    assert_eq!(c.kind, FileKind::Code);
    assert_eq!(c.reason, "json-config");
}

#[test]
fn json_at_threshold_is_data() {
    let c = classify("big.json", &FileProbe { size: 262144, head: None });
    assert_eq!(c.kind, FileKind::Data);
    assert_eq!(c.reason, "json-large");
}

#[test]
fn suffix_is_case_insensitive_for_classification() {
    assert_eq!(classify("MODEL.PKL", &no_probe()).kind, FileKind::Binary);
    assert_eq!(classify("Train.PY", &no_probe()).kind, FileKind::Code);
}

#[test]
fn unknown_suffix_sniffs_text_as_code() {
    let c = classify("Makefile", &FileProbe { size: 5, head: Some(b"all:\n".to_vec()) });
    assert_eq!(c.kind, FileKind::Code);
    assert_eq!(c.reason, "text-sniffed");
}

#[test]
fn unknown_suffix_with_nul_is_binary() {
    let c = classify("blob", &FileProbe { size: 3, head: Some(vec![b'a', 0, b'b']) });
    assert_eq!(c.kind, FileKind::Binary);
    assert_eq!(c.reason, "binary-sniffed");
}

#[test]
fn unknown_suffix_with_invalid_utf8_is_binary() {
    let c = classify("blob", &FileProbe { size: 2, head: Some(vec![0xff, 0xfe]) });
    assert_eq!(c.kind, FileKind::Binary);
    assert_eq!(c.reason, "binary-sniffed");
}

#[test]
fn unreadable_unknown_file_is_binary() {
    let c = classify("blob", &no_probe());
    assert_eq!(c.kind, FileKind::Binary);
    assert_eq!(c.reason, "unreadable");
}

#[test]
fn excluded_dir_anywhere_in_path() {
    assert!(is_excluded_path("src/__pycache__/x.py"));
    assert!(is_excluded_path("a/b/node_modules/c.js"));
}

#[test]
fn excluded_file_names() {
    assert!(is_excluded_path(".DS_Store"));
    assert!(is_excluded_path("docs/Thumbs.db"));
}

#[test]
fn upper_case_excluded_suffix() {
    assert!(is_excluded_path("module.PYC"));
}

#[test]
fn everything_below_an_excluded_directory_is_excluded() {
    for q in ["x.py", "deep/er/data.csv", "README", ".hidden"] {
        assert!(is_excluded_path(&format!("src/node_modules/{q}")));
        assert!(is_excluded_path(&format!("pkg.egg-info/{q}")));
    }
}
