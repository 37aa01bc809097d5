use diff_crawler::classifier::FileProbe;
use diff_crawler::matcher::{compute_signature, find_renames, is_matchable, tokenize, RenameFile};
use diff_crawler::ratio::Ratio;

fn code_file(rel: &str, content: &str) -> RenameFile {
    let bytes = content.as_bytes().to_vec();
    let head: Vec<u8> = bytes.iter().take(2048).cloned().collect();
    RenameFile {
        rel: rel.to_string(),
        abs: format!("/root/{}", rel),
        probe: FileProbe { size: bytes.len() as u64, head: Some(head) },
        bytes: Some(bytes),
    }
}

fn val(r: Ratio) -> f64 {
    r.num as f64 / r.den as f64
}

fn threshold(x: f64) -> Ratio {
    Ratio { num: (x * 1000.0).round() as u64, den: 1000 }
}

#[test]
fn identical_file_with_different_name_is_detected() {
    let content = r#"
def train_model(data, epochs=10):
    model = Sequential()
    model.add(Dense(128, activation='relu'))
    model.add(Dense(64, activation='relu'))
    model.add(Dense(10, activation='softmax'))
    model.compile(optimizer='adam', loss='categorical_crossentropy', metrics=['accuracy'])
    history = model.fit(data, epochs=epochs, validation_split=0.2)
    return model, history

def evaluate_model(model, test_data):
    loss, accuracy = model.evaluate(test_data)
    print(f"Test accuracy: {accuracy:.4f}")
    return accuracy
"#;

    let a = vec![code_file("model_train.py", content)];
    let b = vec![code_file("train_model.py", content)];

    let results = find_renames(&a, &b, threshold(0.4));

    assert_eq!(results.len(), 1, "should detect exactly one rename");
    let r = &results[0];
    assert_eq!(r.from_path, "model_train.py");
    assert_eq!(r.to_path, "train_model.py");
    assert!(
        val(r.content_similarity) > 0.9,
        "identical content should have content_similarity > 0.9, got {}",
        val(r.content_similarity)
    );
    assert!(val(r.combined_score) >= 0.4, "combined_score must be at threshold");
}

#[test]
fn slightly_modified_file_is_still_detected() {
    let content_a = r#"
import numpy as np
import pandas as pd

def preprocess(df):
    df = df.dropna()
    df['feature'] = df['value'] * 2
    df['label'] = df['target'].astype(int)
    return df

def split_data(df, test_size=0.2):
    n = len(df)
    split = int(n * (1 - test_size))
    return df[:split], df[split:]
"#;
    let content_b = r#"
import numpy as np
import pandas as pd

def preprocess_data(df):
    df = df.dropna()
    df['feature'] = df['value'] * 2
    df['label'] = df['target'].astype(int)
    return df

def split_data(df, test_size=0.2):
    n = len(df)
    split = int(n * (1 - test_size))
    return df[:split], df[split:]
"#;

    let a = vec![code_file("preprocess.py", content_a)];
    let b = vec![code_file("preprocess.py", content_b)];

    let results = find_renames(&a, &b, threshold(0.4));

    assert_eq!(results.len(), 1, "slightly modified file should still be detected");
    assert!(val(results[0].combined_score) >= 0.4);
}

#[test]
fn completely_different_files_are_not_reported() {
    let a = vec![code_file("a.py", &"x = 1\n".repeat(200))];
    let b = vec![code_file("b.py", &"y = 'hello world foo bar baz qux quux'\n".repeat(200))];

    let results = find_renames(&a, &b, threshold(0.4));

    assert!(results.is_empty(), "completely different files should not produce a rename candidate");
}

#[test]
fn threshold_controls_which_candidates_are_reported() {
    let content = r#"
def process(data):
    result = []
    for item in data:
        if item > 0:
            result.append(item * 2)
    return result
"#;

    let a = vec![code_file("utils.py", content)];
    let b = vec![code_file("helpers.py", content)];

    let strict = find_renames(&a, &b, threshold(1.0));
    assert!(strict.is_empty(), "threshold=1.0 should suppress all candidates");

    let normal = find_renames(&a, &b, threshold(0.4));
    assert_eq!(normal.len(), 1, "threshold=0.4 should find the rename");
}

#[test]
fn results_sorted_descending_by_combined_score() {
    let code = |n: u32| {
        format!(
            r#"
def function_{n}(x, y, z):
    result = x + y * z
    intermediate = result ** 2
    output = intermediate / (x + 1)
    return output

def helper_{n}(data):
    return [function_{n}(a, b, c) for a, b, c in data]
"#
        )
    };

    let a = vec![code_file("module_one.py", &code(1)), code_file("module_two.py", &code(2))];
    let b = vec![code_file("module_one_v2.py", &code(1)), code_file("module_two_v2.py", &code(2))];

    let results = find_renames(&a, &b, threshold(0.4));

    for w in results.windows(2) {
        assert!(
            val(w[0].combined_score) >= val(w[1].combined_score),
            "results must be sorted descending: {} < {}",
            val(w[0].combined_score),
            val(w[1].combined_score)
        );
    }
}

#[test]
fn empty_sides_return_empty_result() {
    let a: Vec<RenameFile> = Vec::new();
    let b: Vec<RenameFile> = Vec::new();

    let results = find_renames(&a, &b, threshold(0.4));
    assert!(results.is_empty());
}

// ── further cases ───────────────────────────────────────────────────────────

#[test]
fn tokens_are_words_and_single_symbols() {
    let t: Vec<char> = "def f(x_1):  return x_1+2".chars().collect();
    let toks: Vec<String> = tokenize(&t).iter().map(|w| w.iter().collect()).collect();
    assert_eq!(toks, vec!["def", "f", "(", "x_1", ")", ":", "return", "x_1", "+", "2"]);
}

#[test]
fn signature_of_empty_text_is_all_max() {
    let s = compute_signature("");
    assert_eq!(s.len(), 128);
    assert!(s.iter().all(|&v| v == u64::MAX));
}

#[test]
fn identical_texts_have_identical_signatures() {
    let x = compute_signature("a b c d e f g");
    let y = compute_signature("a  b\tc d e f g");
    assert_eq!(x, y);
}

#[test]
fn binary_files_take_no_part() {
    let content = "def f():\n    return 1\n".repeat(20);
    let mut a = code_file("model_a.pkl", &content);
    let mut b = code_file("model_b.pkl", &content);
    a.abs = "/root/model_a.pkl".into();
    b.abs = "/root/model_b.pkl".into();
    assert!(find_renames(&vec![a], &vec![b], threshold(0.4)).is_empty());
}

#[test]
fn files_above_five_mib_take_no_part() {
    let content = "def f():\n    return 1\n".repeat(20);
    let a = code_file("x.py", &content);
    let mut b = code_file("y.py", &content);
    b.probe.size = 5 * 1024 * 1024 + 1;
    assert!(find_renames(&vec![a], &vec![b], threshold(0.4)).is_empty());
}

#[test]
fn best_candidate_wins_and_scores_are_exact() {
    let content = "import os\nimport sys\nprint(os.getcwd(), sys.argv)\n".repeat(5);
    let a = vec![code_file("run.py", &content)];
    let b = vec![code_file("other.py", &content), code_file("run.py", &content)];
    let results = find_renames(&a, &b, threshold(0.4));
    assert_eq!(results.len(), 1);
    let r = &results[0];
    assert_eq!(r.to_path, "run.py");
    assert_eq!((r.content_similarity.num, r.content_similarity.den), (128, 128));
    assert_eq!(val(r.name_similarity), 1.0);
    assert_eq!(val(r.combined_score), 1.0);
}

#[test]
fn equal_scores_keep_the_earlier_candidate() {
    let content = "alpha beta gamma delta epsilon zeta eta theta\n".repeat(3);
    let a = vec![code_file("q.py", &content)];
    let b = vec![code_file("k1.py", &content), code_file("k2.py", &content)];
    let results = find_renames(&a, &b, threshold(0.4));
    assert_eq!(results.len(), 1);
    assert_eq!(results[0].to_path, "k1.py");
}

#[test]
fn unreadable_text_counts_as_empty() {
    let mut a = code_file("e1.py", "");
    let mut b = code_file("e2.py", "");
    a.bytes = None;
    b.bytes = None;
    let results = find_renames(&vec![a], &vec![b], threshold(0.4));
    assert_eq!(results.len(), 1);
    assert_eq!((results[0].content_similarity.num, results[0].content_similarity.den), (128, 128));
}

#[test]
fn each_first_tree_file_is_matched_at_most_once() {
    let one = "def alpha():\n    return compute_alpha(1, 2, 3)\n".repeat(6);
    let two = "class Beta:\n    def run(self):\n        return self.beta * 42\n".repeat(6);
    let a = vec![code_file("one.py", &one), code_file("two.py", &two)];
    let b = vec![
        code_file("one_v2.py", &one),
        code_file("one_copy.py", &one),
        code_file("two_v2.py", &two),
    ];
    let results = find_renames(&a, &b, threshold(0.4));
    assert_eq!(results.len(), 2);
    assert_ne!(results[0].from_path, results[1].from_path);
    for r in &results {
        assert!(r.to_path.ends_with(".py"));
    }
}

#[test]
fn only_code_files_within_the_size_limit_take_part() {
    let small = code_file("a.py", "x = 1\n");
    assert!(is_matchable(&small));
    let mut big = code_file("b.py", "x = 1\n");
    big.probe.size = 5 * 1024 * 1024 + 1;
    assert!(!is_matchable(&big));
    let mut model = code_file("m.pkl", "x = 1\n");
    model.abs = "/root/m.pkl".into();
    assert!(!is_matchable(&model));
}

#[test]
fn raising_the_threshold_only_removes_candidates() {
    let one = "def alpha():\n    return compute_alpha(1, 2, 3)\n".repeat(6);
    let two = "class Beta:\n    def run(self):\n        return self.beta * 42\n".repeat(6);
    let mut two_changed = two.clone();
    two_changed.push_str("extra = [1, 2, 3, 4, 5, 6, 7, 8, 9]\nmore = {'k': 'v', 'w': 'z'}\n");
    let a = vec![code_file("one.py", &one), code_file("two.py", &two)];
    let b = vec![code_file("one.py.bak", &one), code_file("renamed.py", &two_changed)];
    let low = find_renames(&a, &b, threshold(0.3));
    for t in [0.3, 0.5, 0.7, 0.9, 1.0] {
        let high = find_renames(&a, &b, threshold(t));
        let kept: Vec<(String, Ratio)> = low
            .iter()
            .filter(|c| val(c.combined_score) >= t)
            .map(|c| (c.from_path.clone(), c.combined_score))
            .collect();
        let got: Vec<(String, Ratio)> =
            high.iter().map(|c| (c.from_path.clone(), c.combined_score)).collect();
        assert_eq!(got, kept);
    }
}
