use diff_crawler::digest::{to_hex, Sha256Stream};
use diff_crawler::code_diff::{diff_binary, diff_code, BinaryProbe, CodeSource};
use diff_crawler::digest::sha256;
use diff_crawler::ratio::Ratio;

fn file(content: &[u8]) -> CodeSource {
    CodeSource { size: Ok(content.len() as u64), content: Ok(content.to_vec()) }
}

fn probe(content: &[u8]) -> BinaryProbe {
    BinaryProbe {
        size: content.len() as u64,
        digest: if content.is_empty() { None } else { Some(sha256(content)) },
    }
}

fn sim(r: Ratio) -> f64 {
    r.num as f64 / r.den as f64
}

#[test]
fn identical_files_use_fast_path() {
    let a = file(b"print('hello')\n");
    let b = file(b"print('hello')\n");

    let r = diff_code("a.py", &a, &b, true);

    assert!(r.identical, "identical content must be detected");
    assert_eq!(r.added_lines, 0);
    assert_eq!(r.removed_lines, 0);
    assert_eq!(sim(r.similarity), 1.0);
    assert!(r.unified_diff.is_empty(), "no diff string for identical files");
    assert!(r.error.is_none());
}

#[test]
fn added_line_counted_correctly() {
    let a = file(b"line1\nline2\n");
    let b = file(b"line1\nline2\nline3\n");

    let r = diff_code("a.py", &a, &b, false);

    assert!(!r.identical);
    assert_eq!(r.added_lines, 1);
    assert_eq!(r.removed_lines, 0);
}

#[test]
fn removed_line_counted_correctly() {
    let a = file(b"line1\nline2\nline3\n");
    let b = file(b"line1\nline3\n");

    let r = diff_code("a.py", &a, &b, false);

    assert!(!r.identical);
    assert_eq!(r.added_lines, 0);
    assert_eq!(r.removed_lines, 1);
}

#[test]
fn changed_line_counts_one_add_one_remove() {
    let a = file(b"line1\nold\nline3\n");
    let b = file(b"line1\nnew\nline3\n");

    let r = diff_code("a.py", &a, &b, false);

    assert!(!r.identical);
    assert_eq!(r.added_lines, 1);
    assert_eq!(r.removed_lines, 1);
}

#[test]
fn similarity_is_in_range() {
    let a = file(b"hello world\n");
    let b = file(b"goodbye world\n");

    let r = diff_code("a.py", &a, &b, false);
    let s = sim(r.similarity);

    assert!((0.0..=1.0).contains(&s), "similarity={} out of range", s);
    assert!(s < 1.0, "different files must have similarity < 1");
    assert!(s > 0.0, "files with shared text must have similarity > 0");
}

#[test]
fn completely_different_files_have_low_similarity() {
    let a = file(b"aaaaaaaaaaaaaaaaaaaaaaaaaaaaaaa\n");
    let b = file(b"bbbbbbbbbbbbbbbbbbbbbbbbbbbbbbb\n");

    let r = diff_code("a.py", &a, &b, false);
    let s = sim(r.similarity);

    assert!(s < 0.2, "similarity={} unexpectedly high", s);
}

#[test]
fn no_diff_flag_omits_unified_diff_but_keeps_counts() {
    let a = file(b"x = 1\ny = 2\n");
    let b = file(b"x = 1\ny = 99\n");

    let with_diff = diff_code("a.py", &a, &b, true);
    let without_diff = diff_code("a.py", &a, &b, false);

    assert_eq!(with_diff.added_lines, without_diff.added_lines);
    assert_eq!(with_diff.removed_lines, without_diff.removed_lines);
    assert!((sim(with_diff.similarity) - sim(without_diff.similarity)).abs() < 1e-9);

    assert!(!with_diff.unified_diff.is_empty(), "diff string expected when include_full_diff=true");
    assert!(without_diff.unified_diff.is_empty(), "diff string must be empty when include_full_diff=false");
}

#[test]
fn unified_diff_contains_expected_markers() {
    let a = file(b"line1\nold_line\nline3\n");
    let b = file(b"line1\nnew_line\nline3\n");

    let r = diff_code("src/a.py", &a, &b, true);

    assert!(r.unified_diff.contains("--- a/src/a.py"), "missing --- header");
    assert!(r.unified_diff.contains("+++ b/src/a.py"), "missing +++ header");
    assert!(r.unified_diff.contains("-old_line"), "missing removed line");
    assert!(r.unified_diff.contains("+new_line"), "missing added line");
}

#[test]
fn large_file_skips_diff_and_has_note() {
    let large: Vec<u8> = std::iter::repeat(b'A').take(2_200_000).collect();
    let large2: Vec<u8> = std::iter::repeat(b'B').take(2_200_000).collect();
    let a = file(&large);
    let b = file(&large2);

    let r = diff_code("big.bin", &a, &b, true);

    assert!(!r.identical);
    assert!(r.note.contains("too large"), "expected 'too large' note, got: {}", r.note);
    assert!(r.unified_diff.is_empty());
    assert_eq!(r.added_lines, 0);
    assert_eq!(r.removed_lines, 0);
    assert_eq!(sim(r.similarity), 1.0);
    assert!(r.error.is_none());
}

#[test]
fn binary_identical_files() {
    let content = b"\x00\x01\x02\x03\xff";
    let r = diff_binary("model.pkl", &probe(content), &probe(content));

    assert!(r.identical);
    assert_eq!(r.size_a, r.size_b);
    assert_eq!(r.sha256_a, r.sha256_b);
    assert!(!r.sha256_a.is_empty());
    assert_eq!(r.sha256_a.len(), 64, "SHA-256 hex string must be 64 chars");
}

#[test]
fn binary_different_files() {
    let r = diff_binary("model.pkl", &probe(b"version1\x00\xff"), &probe(b"version2\x00\xff"));

    assert!(!r.identical);
    assert_ne!(r.sha256_a, r.sha256_b);
    assert_eq!(r.size_a, r.size_b);
}

#[test]
fn binary_different_sizes() {
    let r = diff_binary("model.pkl", &probe(b"short"), &probe(b"much longer content here"));

    assert!(!r.identical);
    assert!(r.size_a < r.size_b);
}

#[test]
fn binary_sha256_is_lowercase_hex() {
    let r = diff_binary("f.bin", &probe(b"test content"), &probe(b"other content"));

    for ch in r.sha256_a.chars() {
        assert!(
            ch.is_ascii_hexdigit() && !ch.is_uppercase(),
            "SHA-256 must be lowercase hex, found char: {ch}"
        );
    }
}

// ── further cases ───────────────────────────────────────────────────────────

#[test]
fn sha256_of_known_input() {
    let r = diff_binary("f.bin", &probe(b"abc"), &probe(b"abc"));
    assert_eq!(r.sha256_a, "ba7816bf8f01cfea414140de5dae2223b00361a396177a9cb410ff61f20015ad");
}

#[test]
fn empty_binary_files_are_not_hashed() {
    let r = diff_binary("e.bin", &probe(b""), &probe(b""));
    assert!(r.identical);
    assert_eq!(r.sha256_a, "");
    assert_eq!(r.size_a, 0);
}

#[test]
fn binary_path_uses_forward_slashes() {
    let r = diff_binary("dir\\m.pkl", &probe(b"x"), &probe(b"x"));
    assert_eq!(r.path, "dir/m.pkl");
}

#[test]
fn metadata_error_is_reported_with_stat_prefix() {
    let a = CodeSource { size: Err("no such file".to_string()), content: Ok(vec![]) };
    let b = file(b"x\n");
    let r = diff_code("a.py", &a, &b, true);
    assert_eq!(r.error.as_deref(), Some("stat: no such file"));
    assert!(!r.identical);
    assert_eq!(sim(r.similarity), 1.0);
}

#[test]
fn read_error_on_equal_sizes_is_a_stat_error() {
    let a = CodeSource { size: Ok(2), content: Err("denied".to_string()) };
    let b = file(b"x\n");
    let r = diff_code("a.py", &a, &b, true);
    assert_eq!(r.error.as_deref(), Some("stat: denied"));
}

#[test]
fn read_error_on_different_sizes_is_reported_as_is() {
    let a = CodeSource { size: Ok(3), content: Err("denied".to_string()) };
    let b = file(b"x\n");
    let r = diff_code("a.py", &a, &b, true);
    assert_eq!(r.error.as_deref(), Some("denied"));
}

#[test]
fn large_files_of_different_sizes_are_not_read() {
    let a = CodeSource { size: Ok(3_000_000), content: Err("unread".to_string()) };
    let b = CodeSource { size: Ok(10), content: Err("unread".to_string()) };
    let r = diff_code("a.py", &a, &b, true);
    assert!(r.error.is_none());
    assert_eq!(r.note, "skipped full diff: file too large (>2097152 bytes)");
}

#[test]
fn similarity_is_exact_character_ratio() {
    // "abcd" vs "abxd": 3 of 4 characters kept on each side → 6 / 8.
    let r = diff_code("t.txt", &file(b"abcd"), &file(b"abxd"), false);
    assert_eq!((r.similarity.num, r.similarity.den), (6, 8));
    assert_eq!(r.added_lines, 1);
    assert_eq!(r.removed_lines, 1);
}

#[test]
fn invalid_utf8_is_replaced_before_diffing() {
    let r = diff_code("t.txt", &file(b"a\xffb\n"), &file(b"a\xffc\n"), false);
    assert!(r.error.is_none());
    assert_eq!(r.added_lines, 1);
    assert_eq!(r.removed_lines, 1);
}

#[test]
fn digest_fed_in_pieces_equals_digest_of_the_whole() {
    let mut h = Sha256Stream::start();
    h.feed(b"a");
    h.feed(b"");
    h.feed(b"bc");
    let d = h.digest();
    assert_eq!(d, sha256(b"abc"));
    assert_eq!(to_hex(&d), "ba7816bf8f01cfea414140de5dae2223b00361a396177a9cb410ff61f20015ad");
}

#[test]
fn unified_diff_flag_changes_only_the_diff_text() {
    let a = file(b"x = 1\ny = 2\n");
    let b = file(b"x = 1\ny = 3\nz = 4\n");
    let with = diff_code("m.py", &a, &b, true);
    let without = diff_code("m.py", &a, &b, false);
    assert_eq!(with.added_lines, without.added_lines);
    assert_eq!(with.removed_lines, without.removed_lines);
    assert_eq!(with.similarity, without.similarity);
    assert_eq!(with.identical, without.identical);
    assert!(!with.unified_diff.is_empty());
    assert!(without.unified_diff.is_empty());
}

#[test]
fn binary_comparison_is_symmetric() {
    let x = probe(b"abc");
    let y = probe(b"abd");
    assert_eq!(diff_binary("f", &x, &y).identical, diff_binary("f", &y, &x).identical);
    assert!(diff_binary("f", &x, &x).identical);
}
