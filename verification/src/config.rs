//! Run configuration and the exclusion lists shared by the walker and the
//! classifier.
use vstd::prelude::*;
use crate::ratio::Ratio;
use crate::text::chars_eq_str;

verus! {

/// Runtime configuration for a crawl run.
#[derive(Debug, Clone)]
pub struct CrawlConfig {
    pub include_full_unified_diff: bool,
    pub deep_data_stats: bool,
    /// Minimum combined score for a rename to be reported.
    pub rename_threshold: Ratio,
    pub max_renames_reported: usize,
}

impl Default for CrawlConfig {
    fn default() -> (res: Self)
        ensures
            res.include_full_unified_diff,
            !res.deep_data_stats,
            res.rename_threshold == (Ratio { num: 2, den: 5 }),
            res.max_renames_reported == 200,
    {
        CrawlConfig {
            include_full_unified_diff: true,
            deep_data_stats: false,
            rename_threshold: Ratio { num: 2, den: 5 },
            max_renames_reported: 200,
        }
    }
}

/// Directory names that are never walked (virtual environments, caches,
/// version-control metadata, build output, experiment trackers, editors).
pub open spec fn excluded_dir_name(s: Seq<char>) -> bool {
    ||| s == "venv"@
    ||| s == ".venv"@
    ||| s == "env"@
    ||| s == ".env"@
    ||| s == "virtualenv"@
    ||| s == "__pycache__"@
    ||| s == ".git"@
    ||| s == ".hg"@
    ||| s == ".svn"@
    ||| s == "node_modules"@
    ||| s == ".ipynb_checkpoints"@
    ||| s == ".pytest_cache"@
    ||| s == ".mypy_cache"@
    ||| s == ".ruff_cache"@
    ||| s == ".tox"@
    ||| s == "dist"@
    ||| s == "build"@
    ||| s == "mlruns"@
    ||| s == "wandb"@
    ||| s == "lightning_logs"@
    ||| s == ".idea"@
    ||| s == ".vscode"@
}

/// File names that are never diffed.
pub open spec fn excluded_file_name(s: Seq<char>) -> bool {
    ||| s == ".DS_Store"@
    ||| s == "Thumbs.db"@
    ||| s == ".gitignore.swp"@
}

/// Suffixes (leading dot, lower case) of files that are never diffed.
pub open spec fn excluded_suffix(s: Seq<char>) -> bool {
    ||| s == ".pyc"@
    ||| s == ".pyo"@
    ||| s == ".pyd"@
    ||| s == ".class"@
    ||| s == ".log"@
    ||| s == ".tmp"@
    ||| s == ".swp"@
    ||| s == ".swo"@
}

/// Membership in the excluded directory names.
pub fn is_excluded_dir_name(s: &[char]) -> (res: bool)
    ensures
        res == excluded_dir_name(s@),
{
    chars_eq_str(s, "venv") || chars_eq_str(s, ".venv") || chars_eq_str(s, "env")
        || chars_eq_str(s, ".env") || chars_eq_str(s, "virtualenv") || chars_eq_str(
        s,
        "__pycache__",
    ) || chars_eq_str(s, ".git") || chars_eq_str(s, ".hg") || chars_eq_str(s, ".svn")
        || chars_eq_str(s, "node_modules") || chars_eq_str(s, ".ipynb_checkpoints")
        || chars_eq_str(s, ".pytest_cache") || chars_eq_str(s, ".mypy_cache") || chars_eq_str(
        s,
        ".ruff_cache",
    ) || chars_eq_str(s, ".tox") || chars_eq_str(s, "dist") || chars_eq_str(s, "build")
        || chars_eq_str(s, "mlruns") || chars_eq_str(s, "wandb") || chars_eq_str(
        s,
        "lightning_logs",
    ) || chars_eq_str(s, ".idea") || chars_eq_str(s, ".vscode")
}

/// Membership in the excluded file names.
pub fn is_excluded_file_name(s: &[char]) -> (res: bool)
    ensures
        res == excluded_file_name(s@),
{
    chars_eq_str(s, ".DS_Store") || chars_eq_str(s, "Thumbs.db") || chars_eq_str(
        s,
        ".gitignore.swp",
    )
}

/// Membership in the excluded suffixes.
pub fn is_excluded_suffix(s: &[char]) -> (res: bool)
    ensures
        res == excluded_suffix(s@),
{
    chars_eq_str(s, ".pyc") || chars_eq_str(s, ".pyo") || chars_eq_str(s, ".pyd")
        || chars_eq_str(s, ".class") || chars_eq_str(s, ".log") || chars_eq_str(s, ".tmp")
        || chars_eq_str(s, ".swp") || chars_eq_str(s, ".swo")
}

} // verus!
