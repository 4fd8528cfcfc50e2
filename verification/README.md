# gadv

Read-only analytics of a Git repository: churn per file, hotspot
candidates (churn against size), ownership by kept lines and co-change
pairs, with a history cache kept inside `.git`.

- `src/` is the verified library. `engine/model` holds the commit model and
  the interners; `engine/git` the walk decisions and the newest-first order
  of the walked commits, the per-commit diff
  policies and line counts; `engine/cache` the cache envelope, hex object
  ids and the merge of a walked delta; `engine/metrics` the metrics;
  `engine/head` the reading of `.git/HEAD`; `ui`, `theme`, `version`,
  `config` and `log` what the interface needs besides drawing.
- `app/` is the program: argument handling, reading the repository with
  gix, the cache file with serde, the terminal with ratatui, and the
  fractions (scores, Jaccard indices, bus factors) in floating point.
- `tests/` runs the library on concrete histories.
