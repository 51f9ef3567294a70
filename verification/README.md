# neondeck

A terminal fleet report for every git repository directly under a directory:
branch, last commit, dirty state, ahead/behind counts, line counts by language
and optional TODO/FIXME/HACK counts, printed as a table, as versioned line
records for scripts, or written as a Markdown report.

## Layout

- `src/` is the library, verified with Verus. Every public function carries a
  contract over mathematical models (`Seq<char>` views of strings, `nat`s), and
  the laws of the library are public proof functions:
  - `text`: Unicode white space, trimming, integer parsing as `str::parse` does
    it, decimal printing, padding; printing then parsing gives the number back.
  - `git`: the parsers for `git log` and `git rev-list` output and the decisions
    taken on each `git` answer; what `git` prints is read back.
  - `langs`: languages by file extension, ignored directories, line counts of a
    file's bytes, per-language totals ranked by lines, and the short summary.
  - `human`: "12.3k" / "2.5M" counts, computed in integers exactly as
    `n as f64 / 1000.0` formatted with `{:.1}` gives them.
  - `markers`: marker counts, which add up line by line and equal what a search
    for each marker alone finds.
  - `repo`: a repository's record, scan errors, and the stable fleet sort.
  - `render`: the table, the line records (escaping is lossless, a record is one
    line and splits back into its fields) and the Markdown report; the output of
    each is read back line by line.
  - `cli`: the arguments of `scan` and `report`, and what `scan` prints.
- `app/` is the command: argument handling, directory walks, file reads and the
  `git` processes, handing plain values to the library.
- `tests/` runs the library on concrete values.
