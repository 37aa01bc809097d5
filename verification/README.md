# diff_crawler

Diffs two ML project directories across five layers: tree structure, code
changes, data-file schemas, binary/model hashes and probabilistic rename
detection.

The library under `src/` is written in Verus and verified: every public
function carries a `requires`/`ensures` contract, and `src/laws.rs` states
and proves properties that relate several functions (symmetry of the tree
and data comparisons, the fast path for identical files, who takes part in
rename detection, and more).

- `walker` — file indexes, the walk's pruning rules, the tree diff and its
  Jaccard index.
- `classifier`, `config` — file kinds by suffix, size and first bytes; the
  exclusion lists.
- `code_diff`, `textdiff`, `digest` — line and character diffs (through the
  `similar` crate), SHA-256 (through `sha2`), binary comparison.
- `data_diff`, `tabular`, `jsondata`, `values` — row counts, column types and
  statistics of CSV and TSV (through `csv`), JSON Lines and JSON (through
  `serde_json`) and Parquet files (their footers, through `parquet`); schema
  comparison.
- `matcher` — tokens, shingles, MinHash signatures, LSH banding and the
  ranking of rename candidates.
- `crawler` — the order of comparison, the report listing and the summary
  counts.
- `ratio`, `strmap`, `text`, `paths` — exact fractions, sorted text maps,
  text and path helpers.

Scores are exact fractions in the library. The command-line program under
`app/` walks the directories (with `ignore`), reads files, turns the fractions
into the floating-point numbers of the JSON and Markdown reports, and writes
them.

```bash
diff-crawler DIR_A DIR_B [--json PATH] [--markdown PATH] [--no-diff] [--deep]
             [--rename-threshold FLOAT] [-v]
```
