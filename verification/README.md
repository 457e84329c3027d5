# git-vibe

A vibe check for a Git history: hotspot files, ghost files, commit mood,
bus factor, monthly activity and a graded overall score, with a README badge.

## Layout

- `src/` is the library, written in Verus. Every function there carries a
  `requires`/`ensures` contract that Verus proves:
  - `model`, `tree`: commits, file changes and Git tree entries as plain
    values; comparing two versions of a directory.
  - `period`, `clock`: reading a period such as `3m` and the start of the
    analysed span.
  - `authors`, `cover`: per-author totals and the bus factor (the fewest
    authors covering 80% of the changed lines).
  - `hotspots`, `changes`, `ghosts`, `mood`, `activity`, `partition`: the
    other analyses, and the facts that tie them together (every commit and
    every line is counted exactly once).
  - `scoring`, `grades`, `report`, `badge`: the integer sub-scores, grades,
    verdicts and the badge SVG.
  - `analysis`: the whole analysis of one history.
- `app/` is the command-line program: reading the repository with `gix`,
  argument parsing with `clap`, terminal and JSON output, and the weighted
  overall score, which is computed in floating point.
- `tests/` runs the library on concrete values.
