//! File classification: how a file is diffed (code, data or binary),
//! decided from its suffix, its size (for `.json`) and, for unknown suffixes,
//! a sniff of its first bytes; and the exclusion rule for relative paths.
use vstd::prelude::*;
use crate::config::{
    excluded_dir_name, excluded_file_name, excluded_suffix, is_excluded_dir_name,
    is_excluded_file_name, is_excluded_suffix,
};
use crate::paths::{
    ends_with, ends_with_str, file_name, file_name_of, segments, split_segments, suffix_of,
    suffix_of_path,
};
use crate::text::{chars_eq_str, chars_of, utf8_valid};

verus! {

/// How a file should be diffed.
#[derive(PartialEq, Eq, Structural, Clone, Copy, Debug)]
pub enum FileKind {
    Code,
    Data,
    Binary,
    Ignore,
}

/// A classification with a short tag for diagnostics.
#[derive(Debug, Clone, Copy)]
pub struct Classification {
    pub kind: FileKind,
    pub reason: &'static str,
}

/// What the classifier may look at besides the name: the file's size in
/// bytes (0 when it cannot be read from the metadata) and the bytes returned
/// by one read of at most 2048 bytes from its start (absent when the file
/// could not be opened or read).
#[derive(Debug, Clone)]
pub struct FileProbe {
    pub size: u64,
    pub head: Option<Vec<u8>>,
}

/// The bytes of an optional buffer.
pub open spec fn opt_bytes(o: Option<Vec<u8>>) -> Option<Seq<u8>> {
    match o {
        Some(v) => Some(v@),
        None => None,
    }
}

/// JSON files below this size are code/config; at or above it, data.
pub open spec fn json_data_threshold() -> u64 {
    262144
}

/// Suffixes of source code, configuration and text files.
pub open spec fn code_suffix(s: Seq<char>) -> bool {
    ||| s == ".py"@
    ||| s == ".ipynb"@
    ||| s == ".js"@
    ||| s == ".ts"@
    ||| s == ".tsx"@
    ||| s == ".jsx"@
    ||| s == ".java"@
    ||| s == ".kt"@
    ||| s == ".scala"@
    ||| s == ".c"@
    ||| s == ".h"@
    ||| s == ".cpp"@
    ||| s == ".hpp"@
    ||| s == ".cc"@
    ||| s == ".go"@
    ||| s == ".rs"@
    ||| s == ".rb"@
    ||| s == ".php"@
    ||| s == ".sh"@
    ||| s == ".bash"@
    ||| s == ".zsh"@
    ||| s == ".r"@
    ||| s == ".jl"@
    ||| s == ".sql"@
    ||| s == ".yaml"@
    ||| s == ".yml"@
    ||| s == ".toml"@
    ||| s == ".ini"@
    ||| s == ".cfg"@
    ||| s == ".md"@
    ||| s == ".rst"@
    ||| s == ".txt"@
    ||| s == ".dockerfile"@
    ||| s == ".tf"@
    ||| s == ".html"@
    ||| s == ".css"@
    ||| s == ".scss"@
}

/// Suffixes of tabular data files.
pub open spec fn data_suffix(s: Seq<char>) -> bool {
    ||| s == ".csv"@
    ||| s == ".tsv"@
    ||| s == ".parquet"@
    ||| s == ".jsonl"@
    ||| s == ".ndjson"@
    ||| s == ".feather"@
    ||| s == ".arrow"@
    ||| s == ".xlsx"@
    ||| s == ".xls"@
}

/// Suffixes of model weights, arrays, media and archives.
pub open spec fn binary_suffix(s: Seq<char>) -> bool {
    ||| s == ".pkl"@
    ||| s == ".pickle"@
    ||| s == ".joblib"@
    ||| s == ".pt"@
    ||| s == ".pth"@
    ||| s == ".ckpt"@
    ||| s == ".safetensors"@
    ||| s == ".h5"@
    ||| s == ".hdf5"@
    ||| s == ".onnx"@
    ||| s == ".pb"@
    ||| s == ".tflite"@
    ||| s == ".npy"@
    ||| s == ".npz"@
    ||| s == ".png"@
    ||| s == ".jpg"@
    ||| s == ".jpeg"@
    ||| s == ".gif"@
    ||| s == ".bmp"@
    ||| s == ".tiff"@
    ||| s == ".webp"@
    ||| s == ".svg"@
    ||| s == ".mp3"@
    ||| s == ".wav"@
    ||| s == ".flac"@
    ||| s == ".mp4"@
    ||| s == ".mov"@
    ||| s == ".avi"@
    ||| s == ".zip"@
    ||| s == ".tar"@
    ||| s == ".gz"@
    ||| s == ".bz2"@
    ||| s == ".7z"@
    ||| s == ".bin"@
    ||| s == ".dat"@
}

/// Membership in [`code_suffix`].
pub fn is_code_suffix(s: &[char]) -> (res: bool)
    ensures
        res == code_suffix(s@),
{
    chars_eq_str(s, ".py")
        || chars_eq_str(s, ".ipynb")
        || chars_eq_str(s, ".js")
        || chars_eq_str(s, ".ts")
        || chars_eq_str(s, ".tsx")
        || chars_eq_str(s, ".jsx")
        || chars_eq_str(s, ".java")
        || chars_eq_str(s, ".kt")
        || chars_eq_str(s, ".scala")
        || chars_eq_str(s, ".c")
        || chars_eq_str(s, ".h")
        || chars_eq_str(s, ".cpp")
        || chars_eq_str(s, ".hpp")
        || chars_eq_str(s, ".cc")
        || chars_eq_str(s, ".go")
        || chars_eq_str(s, ".rs")
        || chars_eq_str(s, ".rb")
        || chars_eq_str(s, ".php")
        || chars_eq_str(s, ".sh")
        || chars_eq_str(s, ".bash")
        || chars_eq_str(s, ".zsh")
        || chars_eq_str(s, ".r")
        || chars_eq_str(s, ".jl")
        || chars_eq_str(s, ".sql")
        || chars_eq_str(s, ".yaml")
        || chars_eq_str(s, ".yml")
        || chars_eq_str(s, ".toml")
        || chars_eq_str(s, ".ini")
        || chars_eq_str(s, ".cfg")
        || chars_eq_str(s, ".md")
        || chars_eq_str(s, ".rst")
        || chars_eq_str(s, ".txt")
        || chars_eq_str(s, ".dockerfile")
        || chars_eq_str(s, ".tf")
        || chars_eq_str(s, ".html")
        || chars_eq_str(s, ".css")
        || chars_eq_str(s, ".scss")
}

/// Membership in [`data_suffix`].
pub fn is_data_suffix(s: &[char]) -> (res: bool)
    ensures
        res == data_suffix(s@),
{
    chars_eq_str(s, ".csv")
        || chars_eq_str(s, ".tsv")
        || chars_eq_str(s, ".parquet")
        || chars_eq_str(s, ".jsonl")
        || chars_eq_str(s, ".ndjson")
        || chars_eq_str(s, ".feather")
        || chars_eq_str(s, ".arrow")
        || chars_eq_str(s, ".xlsx")
        || chars_eq_str(s, ".xls")
}

/// Membership in [`binary_suffix`].
pub fn is_binary_suffix(s: &[char]) -> (res: bool)
    ensures
        res == binary_suffix(s@),
{
    chars_eq_str(s, ".pkl")
        || chars_eq_str(s, ".pickle")
        || chars_eq_str(s, ".joblib")
        || chars_eq_str(s, ".pt")
        || chars_eq_str(s, ".pth")
        || chars_eq_str(s, ".ckpt")
        || chars_eq_str(s, ".safetensors")
        || chars_eq_str(s, ".h5")
        || chars_eq_str(s, ".hdf5")
        || chars_eq_str(s, ".onnx")
        || chars_eq_str(s, ".pb")
        || chars_eq_str(s, ".tflite")
        || chars_eq_str(s, ".npy")
        || chars_eq_str(s, ".npz")
        || chars_eq_str(s, ".png")
        || chars_eq_str(s, ".jpg")
        || chars_eq_str(s, ".jpeg")
        || chars_eq_str(s, ".gif")
        || chars_eq_str(s, ".bmp")
        || chars_eq_str(s, ".tiff")
        || chars_eq_str(s, ".webp")
        || chars_eq_str(s, ".svg")
        || chars_eq_str(s, ".mp3")
        || chars_eq_str(s, ".wav")
        || chars_eq_str(s, ".flac")
        || chars_eq_str(s, ".mp4")
        || chars_eq_str(s, ".mov")
        || chars_eq_str(s, ".avi")
        || chars_eq_str(s, ".zip")
        || chars_eq_str(s, ".tar")
        || chars_eq_str(s, ".gz")
        || chars_eq_str(s, ".bz2")
        || chars_eq_str(s, ".7z")
        || chars_eq_str(s, ".bin")
        || chars_eq_str(s, ".dat")
}


/// Outcome of sniffing the first bytes of a file.
#[derive(PartialEq, Eq, Structural, Clone, Copy, Debug)]
pub enum Sniff {
    Binary,
    Code,
    Unreadable,
}

/// A NUL byte means binary; otherwise well-formed UTF-8 means text.
pub open spec fn sniff_of(head: Option<Seq<u8>>) -> Sniff {
    match head {
        None => Sniff::Unreadable,
        Some(h) => if h.contains(0u8) {
            Sniff::Binary
        } else if vstd::utf8::valid_utf8(h) {
            Sniff::Code
        } else {
            Sniff::Binary
        },
    }
}

/// Sniffs the first bytes of a file (absent when it could not be read).
pub fn sniff(head: &Option<Vec<u8>>) -> (res: Sniff)
    ensures
        res == sniff_of(opt_bytes(*head)),
{
    match head {
        None => Sniff::Unreadable,
        Some(h) => {
            let mut i: usize = 0;
            while i < h.len()
                invariant
                    i <= h.len(),
                    opt_bytes(*head) == Some(h@),
                    forall|j: int| 0 <= j < i ==> h@[j] != 0u8,
                decreases h.len() - i,
            {
                if h[i] == 0u8 {
                    assert(h@.contains(0u8));
                    return Sniff::Binary;
                }
                i += 1;
            }
            assert(!h@.contains(0u8));
            if utf8_valid(h.as_slice()) {
                Sniff::Code
            } else {
                Sniff::Binary
            }
        },
    }
}

/// The kind a file is diffed as.
pub open spec fn kind_of(path: Seq<char>, size: u64, head: Option<Seq<u8>>) -> FileKind {
    let s = suffix_of(path);
    if s == ".json"@ {
        if size >= json_data_threshold() {
            FileKind::Data
        } else {
            FileKind::Code
        }
    } else if data_suffix(s) {
        FileKind::Data
    } else if code_suffix(s) {
        FileKind::Code
    } else if binary_suffix(s) {
        FileKind::Binary
    } else {
        match sniff_of(head) {
            Sniff::Code => FileKind::Code,
            _ => FileKind::Binary,
        }
    }
}

/// The diagnostic tag that goes with [`kind_of`].
pub open spec fn reason_of(path: Seq<char>, size: u64, head: Option<Seq<u8>>) -> Seq<char> {
    let s = suffix_of(path);
    if s == ".json"@ {
        if size >= json_data_threshold() {
            "json-large"@
        } else {
            "json-config"@
        }
    } else if data_suffix(s) {
        "data"@
    } else if code_suffix(s) {
        "code"@
    } else if binary_suffix(s) {
        "binary"@
    } else {
        match sniff_of(head) {
            Sniff::Binary => "binary-sniffed"@,
            Sniff::Code => "text-sniffed"@,
            Sniff::Unreadable => "unreadable"@,
        }
    }
}

/// Classifies a file by the suffix of `path` (lower-cased extension), by its
/// size for `.json`, and by sniffing its first bytes when the suffix is unknown.
pub fn classify(path: &str, probe: &FileProbe) -> (c: Classification)
    ensures
        c.kind == kind_of(path@, probe.size, opt_bytes(probe.head)),
        c.reason@ == reason_of(path@, probe.size, opt_bytes(probe.head)),
        c.kind != FileKind::Ignore,
{
    let pc = chars_of(path);
    let suffix = suffix_of_path(pc.as_slice());
    let s = suffix.as_slice();
    if chars_eq_str(s, ".json") {
        if probe.size >= 262144 {
            return Classification { kind: FileKind::Data, reason: "json-large" };
        } else {
            return Classification { kind: FileKind::Code, reason: "json-config" };
        }
    }
    if is_data_suffix(s) {
        return Classification { kind: FileKind::Data, reason: "data" };
    }
    if is_code_suffix(s) {
        return Classification { kind: FileKind::Code, reason: "code" };
    }
    if is_binary_suffix(s) {
        return Classification { kind: FileKind::Binary, reason: "binary" };
    }
    match sniff(&probe.head) {
        Sniff::Binary => Classification { kind: FileKind::Binary, reason: "binary-sniffed" },
        Sniff::Code => Classification { kind: FileKind::Code, reason: "text-sniffed" },
        Sniff::Unreadable => Classification { kind: FileKind::Binary, reason: "unreadable" },
    }
}

/// A path component that is never walked: an excluded directory name or a
/// name ending in `.egg-info`.
pub open spec fn excluded_component(s: Seq<char>) -> bool {
    excluded_dir_name(s) || ends_with(s, ".egg-info"@)
}

/// A relative path is skipped when any component is excluded, its file name
/// is an excluded file name, or its suffix is an excluded suffix.
pub open spec fn excluded_path(p: Seq<char>) -> bool {
    ||| exists|i: int| 0 <= i < segments(p).len() && excluded_component(#[trigger] segments(p)[i])
    ||| (file_name(p) matches Some(n) && excluded_file_name(n))
    ||| excluded_suffix(suffix_of(p))
}

/// An excluded component.
pub fn is_excluded_component(s: &[char]) -> (res: bool)
    ensures
        res == excluded_component(s@),
{
    is_excluded_dir_name(s) || ends_with_str(s, ".egg-info")
}

/// Returns true if `rel` (a path relative to a tree root) should be skipped
/// entirely: not walked and not diffed.
pub fn is_excluded_path(rel: &str) -> (res: bool)
    ensures
        res == excluded_path(rel@),
{
    let pc = chars_of(rel);
    let segs = split_segments(pc.as_slice());
    let ghost sv = segs@.map_values(|s: Vec<char>| s@);
    let mut i: usize = 0;
    while i < segs.len()
        invariant
            i <= segs.len(),
            sv == segs@.map_values(|s: Vec<char>| s@),
            sv == segments(rel@),
            forall|j: int| 0 <= j < i ==> !excluded_component(#[trigger] sv[j]),
        decreases segs.len() - i,
    {
        if is_excluded_component(segs[i].as_slice()) {
            assert(excluded_component(sv[i as int]));
            return true;
        }
        i += 1;
    }
    let name = file_name_of(pc.as_slice());
    match name {
        Some(n) => {
            if is_excluded_file_name(n.as_slice()) {
                return true;
            }
        },
        None => {},
    }
    let suffix = suffix_of_path(pc.as_slice());
    is_excluded_suffix(suffix.as_slice())
}

} // verus!
