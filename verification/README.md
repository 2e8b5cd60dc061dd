# spacesniff

A disk space analyzer for agents and humans: it scans a directory tree,
reports where the space went (as a pruned tree, the largest files, or every
directory with a given name), and deletes what was chosen, measuring first
and removing nothing without `--force`.

## Layout

- `src/` — the library, verified with Verus:
  - `fmt_util` — size texts such as "1.5 GB" taken apart into a decimal
    number and a unit (`parse_size`), with the errors the command reports;
  - `tree` — the scanned tree (`DirNode`), how a directory's node is assembled
    from its files and subdirectories, and its pruning for display (`prune`),
    with the proofs that sizes add up;
  - `scan` — the decisions of a walk: entries counted, skipped or queued,
    names matched, parallel budget and its hill-climbing tuner, the largest
    files kept;
  - `order` — the stable largest-first order;
  - `render` — the rows of the tree report: their order, branches,
    indentation and labels;
  - `listing` — the totals and counts of the find report;
  - `delete` — a delete request as a sequence of steps, each step of the
    best-effort removal and its tally, and the receipt;
  - `paths`, `text` — path text clean-up and character helpers.
- `app/` — the command line program: argument parsing, the parallel
  filesystem walk, file removal, free-space queries, JSON and printing, and
  the number formatting that goes through `f64` (`human_size`, bars,
  percentages, seconds, and the byte count of a parsed size).
- `tests/` — tests of the library.
