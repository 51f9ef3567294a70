//! Fleet reports for a directory of git repositories: the parsing, counting and
//! rendering behind `neondeck`, each function with its contract.
//!
//! - `text`: characters, trimming, integer parsing and decimal printing.
//! - `git`: what the `git` calls print, parsed, and the decisions taken on it.
//! - `langs`: languages by extension, line counts, totals and their summary.
//! - `lang_table`: the language table read from the languages' side.
//! - `human`: short line counts ("12.3k") as double arithmetic gives them.
//! - `markers`: TODO / FIXME / HACK counts.
//! - `repo`: one repository's record, scan errors, and the fleet order.
//! - `render`: the table, the line records and the Markdown report.
//! - `cli`: the arguments of `scan` and `report`, and what `scan` prints.
pub mod cli;
pub mod git;
pub mod human;
pub mod lang_table;
pub mod langs;
pub mod markers;
pub mod render;
pub mod repo;
pub mod text;

pub use git::{parse_ahead_behind, parse_last_commit};
pub use human::human_lines;
pub use langs::{is_ignored_dir, lang_for_ext, summarize_langs, LangCount};
pub use markers::{tally_markers, MarkerCounts};
pub use render::{escape_field, render_lines, render_markdown, render_table, truncate, FORMAT_VERSION};
pub use repo::{NdError, RepoInfo};
