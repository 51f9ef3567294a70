use neondeck::cli::{parse_report_args, parse_scan_args, scan_output, ScanFormat};
use neondeck::git::{
    ahead_behind_from_output, branch_from_symbolic_ref, detached_branch, dirty_from_status,
    last_commit_from_log, parse_ahead_behind, parse_last_commit, upstream_from_output, BranchStep,
};
use neondeck::human::human_lines;
use neondeck::langs::{
    count_lines, is_ignored_dir, lang_for_ext, language_for_extension, language_totals,
    summarize_langs, LangCount,
};
use neondeck::markers::{tally_markers, try_tally_markers, MarkerCounts};
use neondeck::render::{
    escape_field, render_lines, render_markdown, render_table, truncate, FORMAT_VERSION,
};
use neondeck::repo::{check_root, repo_info, sort_fleet, NdError, RepoInfo};

fn repo(name: &str, epoch: i64) -> RepoInfo {
    repo_info(
        format!("/grid/{name}"),
        name.to_string(),
        Some("main".to_string()),
        Some((epoch, "2026-09-04".to_string(), "shiny commit".to_string())),
        (false, 0),
        None,
        vec![],
        None,
    )
}

#[test]
fn parses_negative_and_signed_epochs() {
    assert_eq!(parse_last_commit("-5|2026-01-01|s").unwrap().0, -5);
    assert_eq!(parse_last_commit("+7|2026-01-01|s").unwrap().0, 7);
    assert_eq!(
        parse_last_commit("-9223372036854775808|d|s").unwrap().0,
        i64::MIN
    );
    assert!(parse_last_commit("9223372036854775808|d|s").is_none());
    assert!(parse_last_commit("-|d|s").is_none());
    assert!(parse_last_commit("+|d|s").is_none());
}

#[test]
fn parses_last_commit_trims_each_piece() {
    let (e, d, s) = parse_last_commit("  42 |  2026-01-01 \t|  subject  ").unwrap();
    assert_eq!(e, 42);
    assert_eq!(d, "2026-01-01");
    assert_eq!(s, "subject");
}

#[test]
fn last_commit_without_subject_has_empty_subject() {
    let (_, d, s) = parse_last_commit("1|2026-01-01").unwrap();
    assert_eq!(d, "2026-01-01");
    assert_eq!(s, "");
    assert!(parse_last_commit("1").is_none());
    assert!(parse_last_commit("1|   |x").is_none());
}

#[test]
fn last_commit_round_trips_through_the_log_format() {
    let line = format!("{}|{}|{}", -1234567, "2026-02-03", "fix | it");
    let (e, d, s) = parse_last_commit(&line).unwrap();
    assert_eq!((e, d.as_str(), s.as_str()), (-1234567, "2026-02-03", "fix | it"));
}

#[test]
fn ahead_behind_edge_cases() {
    assert_eq!(parse_ahead_behind("  5 \t 6 extra"), Some((5, 6)));
    assert_eq!(parse_ahead_behind("+1 +2"), Some((1, 2)));
    assert_eq!(parse_ahead_behind("-1 2"), None);
    assert_eq!(parse_ahead_behind("4294967295 0"), Some((u32::MAX, 0)));
    assert_eq!(parse_ahead_behind("4294967296 0"), None);
    assert_eq!(parse_ahead_behind("7"), None);
    assert_eq!(parse_ahead_behind(""), None);
    assert_eq!(parse_ahead_behind(&format!("{}\t{}", 123, 456)), Some((123, 456)));
}

#[test]
fn git_step_functions() {
    match branch_from_symbolic_ref(Some("  main\n")) {
        BranchStep::Known(b) => assert_eq!(b, "main"),
        BranchStep::AskShortRev => panic!("expected a branch"),
    }
    assert!(matches!(branch_from_symbolic_ref(Some(" \n")), BranchStep::AskShortRev));
    assert!(matches!(branch_from_symbolic_ref(None), BranchStep::AskShortRev));
    assert_eq!(detached_branch(Some("abc1234\n")), Some("(detached abc1234)".to_string()));
    assert_eq!(detached_branch(None), None);
    assert_eq!(upstream_from_output(Some("origin/main\n")), Some("origin/main".to_string()));
    assert_eq!(upstream_from_output(Some("  \n")), None);
    assert_eq!(upstream_from_output(None), None);
    assert_eq!(
        ahead_behind_from_output("origin/main".to_string(), Some("3\t7\n")),
        Some(("origin/main".to_string(), 3, 7))
    );
    assert_eq!(ahead_behind_from_output("u".to_string(), None), None);
    let (e, d, s) = last_commit_from_log(Some("17|2026-09-04|init\n")).unwrap();
    assert_eq!((e, d.as_str(), s.as_str()), (17, "2026-09-04", "init"));
    assert!(last_commit_from_log(None).is_none());
}

#[test]
fn dirty_counts_lines_with_content() {
    assert_eq!(dirty_from_status(Some("")), (false, 0));
    assert_eq!(dirty_from_status(Some(" M a.rs\n?? b.rs\n")), (true, 2));
    assert_eq!(dirty_from_status(Some("\n   \n M a.rs\r\n\t\n")), (true, 1));
    assert_eq!(dirty_from_status(Some("x")), (true, 1));
    assert_eq!(dirty_from_status(None), (false, 0));
}

#[test]
fn extension_lookup_is_case_insensitive_through_lowercase() {
    assert_eq!(language_for_extension("RS"), Some("Rust"));
    assert_eq!(language_for_extension("Md"), Some("Markdown"));
    assert_eq!(lang_for_ext("RS"), None);
    assert_eq!(language_for_extension("xyz"), None);
    assert_eq!(lang_for_ext("svelte"), Some("Svelte"));
    assert_eq!(lang_for_ext("hrl"), Some("Erlang"));
    assert_eq!(lang_for_ext(""), None);
    assert!(is_ignored_dir(".vscode"));
    assert!(is_ignored_dir("Pods"));
    assert!(!is_ignored_dir("pods"));
}

#[test]
fn counts_lines_of_contents() {
    assert_eq!(count_lines(b""), Some(0));
    assert_eq!(count_lines(b"line one\nline two"), Some(2));
    assert_eq!(count_lines(b"a\nb\n"), Some(2));
    assert_eq!(count_lines(b"\n"), Some(1));
    assert_eq!(count_lines(b"bin\0ary"), None);
    let mut late_nul = vec![b'a'; 9000];
    late_nul.push(0);
    assert_eq!(count_lines(&late_nul), Some(1));
}

#[test]
fn language_totals_sum_and_rank() {
    let files = vec![("Rust", 3u64), ("Python", 1), ("Rust", 2), ("TOML", 5), ("C", 5)];
    let langs = language_totals(&files).unwrap();
    let got: Vec<(&str, u64)> = langs.iter().map(|l| (l.lang, l.lines)).collect();
    assert_eq!(got, vec![("C", 5), ("Rust", 5), ("TOML", 5), ("Python", 1)]);
    assert_eq!(language_totals(&[]).unwrap().len(), 0);
    assert!(language_totals(&[("Rust", u64::MAX), ("Rust", 1)]).is_none());
    assert!(language_totals(&[("Rust", u64::MAX), ("Go", 1)]).is_some());
}

#[test]
fn markers_are_counted_per_line_and_overflow_is_refused() {
    let mut a = MarkerCounts::default();
    tally_markers("TODOTODO FIXMEHACK\nTOD\nO HACK", &mut a);
    assert_eq!((a.todo, a.fixme, a.hack), (2, 1, 2));
    let mut joined = MarkerCounts::default();
    tally_markers("x TODO\nFIXME", &mut joined);
    let mut split = MarkerCounts::default();
    tally_markers("x TODO", &mut split);
    tally_markers("FIXME", &mut split);
    assert_eq!(joined, split);
    let mut full = MarkerCounts {
        todo: u32::MAX,
        fixme: 0,
        hack: 0,
    };
    assert!(!try_tally_markers("TODO", &mut full));
    assert_eq!(full.todo, u32::MAX);
    assert!(try_tally_markers("FIXME", &mut full));
    assert_eq!(full.fixme, 1);
}

#[test]
fn human_lines_follows_float_rounding() {
    assert_eq!(human_lines(1000), "1.0k");
    assert_eq!(human_lines(1050), "1.1k");
    assert_eq!(human_lines(1150), "1.1k");
    assert_eq!(human_lines(1250), "1.2k");
    assert_eq!(human_lines(12345), "12.3k");
    assert_eq!(human_lines(999_999), "1000.0k");
    assert_eq!(human_lines(1_000_000), "1.0M");
    assert_eq!(human_lines(u64::MAX), "18446744073709.6M");
    for n in [1_049u64, 2_450, 4_650, 123_456, 987_650, 3_333_333, 9_007_199_254_740_993] {
        let expected = if n >= 1_000_000 {
            format!("{:.1}M", n as f64 / 1_000_000.0)
        } else {
            format!("{:.1}k", n as f64 / 1000.0)
        };
        assert_eq!(human_lines(n), expected);
    }
}

#[test]
fn truncate_edges() {
    assert_eq!(truncate("abc", 3), "abc");
    assert_eq!(truncate("abcd", 3), "ab…");
    assert_eq!(truncate("abcd", 1), "…");
    assert_eq!(truncate("abcd", 0), "…");
    assert_eq!(truncate("ééé", 2), "é…");
}

#[test]
fn escape_field_escapes_carriage_returns_and_keeps_the_rest() {
    assert_eq!(escape_field("a\rb"), "a\\rb");
    assert_eq!(escape_field("plain"), "plain");
    assert_eq!(escape_field(""), "");
}

#[test]
fn render_lines_exact_record() {
    let mut r = repo("demo", 100);
    r.dirty = true;
    r.dirty_files = 3;
    r.upstream = Some("origin/main".to_string());
    r.ahead = 1;
    r.behind = 2;
    r.languages = vec![LangCount { lang: "Rust", lines: 12 }, LangCount { lang: "C", lines: 3 }];
    r.todos = Some(MarkerCounts { todo: 4, fixme: 5, hack: 6 });
    let out = render_lines(&[r, repo("x|y", -3)]);
    assert_eq!(
        out,
        "neondeck/v1|demo|/grid/demo|main|100|2026-09-04|true|3|1|2|Rust:12,C:3|4|5|6|shiny commit\n\
         neondeck/v1|x\\|y|/grid/x\\|y|main|-3|2026-09-04|false|0|0|0||0|0|0|shiny commit\n"
    );
    assert_eq!(FORMAT_VERSION, "neondeck/v1");
    assert_eq!(render_lines(&[]), "");
}

#[test]
fn render_lines_escapes_the_date_and_keeps_one_line_per_repo() {
    let mut r = repo("odd", 7);
    r.last_commit_date = "a|b\nc\\d".to_string();
    let out = render_lines(&[r, repo("plain", 8)]);
    assert_eq!(out.lines().count(), 2);
    assert_eq!(
        out.lines().next().unwrap(),
        "neondeck/v1|odd|/grid/odd|main|7|a\\|b\\nc\\\\d|false|0|0|0||0|0|0|shiny commit"
    );
}

#[test]
fn render_table_exact_layout() {
    let out = render_table(&[repo("a", 1)], false);
    let header = "REPO  BRANCH  COMMIT      DIRTY  AHEAD/UP   LANGS        LAST COMMIT";
    let expected = format!(
        "{header}\n{}\na     main    2026-09-04  clean  -          -            shiny commit\n\n1 repositories\n",
        "-".repeat(header.len())
    );
    assert_eq!(out, expected);
    let empty = render_table(&[], true);
    assert!(empty.starts_with("REPO  BRANCH  COMMIT"));
    assert!(empty.ends_with("\n0 repositories\n"));
}

#[test]
fn render_markdown_exact_row() {
    let mut r = repo("demo", 1);
    r.last_commit_subject = "a|b".to_string();
    r.upstream = Some("origin/main".to_string());
    r.ahead = 1;
    r.behind = 0;
    let md = render_markdown("/grid", &[r], true);
    assert!(md.starts_with("# Fleet Status\n\nScanned: `/grid`\n\n"));
    assert!(md.contains(
        "| demo | main | 2026-09-04 | clean | +1/-0 (origin/main) | - | 0/0/0 | a\\|b |\n"
    ));
    assert!(md.ends_with("\n**1 repositories**\n\n---\nMade by synth with synthclaw 🎹🦞\n"));
}

#[test]
fn each_marker_counts_as_if_searched_alone() {
    for text in ["TODODO", "FIXMEFIXME HACKTODO", "HAHACK TOTODO", "TODO\nFIX\nME HACKHACK", ""] {
        let mut c = MarkerCounts::default();
        tally_markers(text, &mut c);
        assert_eq!(c.todo as usize, text.matches("TODO").count());
        assert_eq!(c.fixme as usize, text.matches("FIXME").count());
        assert_eq!(c.hack as usize, text.matches("HACK").count());
    }
}

#[test]
fn table_lines_read_back() {
    let mut long = repo("long-name", 3);
    long.last_commit_subject = "x".repeat(60);
    let repos = [repo("a", 9), long];
    let out = render_table(&repos, true);
    let lines: Vec<&str> = out.lines().collect();
    assert_eq!(lines.len(), repos.len() + 4);
    assert!(lines[0].starts_with("REPO"));
    assert!(lines[0].contains("T/F/H"));
    assert!(lines[1].chars().all(|c| c == '-'));
    assert!(lines[2].starts_with("a "));
    assert!(lines[2].ends_with("shiny commit"));
    assert!(lines[3].starts_with("long-name"));
    assert!(lines[3].ends_with(&truncate(&"x".repeat(60), 48)));
    assert_eq!(lines[4], "");
    assert_eq!(lines[5], "2 repositories");
}

#[test]
fn report_lines_read_back() {
    let repos = [repo("a", 9), repo("b", 3)];
    let md = render_markdown("/grid", &repos, false);
    let lines: Vec<&str> = md.lines().collect();
    assert_eq!(lines.len(), repos.len() + 11);
    assert_eq!(lines[0], "# Fleet Status");
    assert_eq!(lines[2], "Scanned: `/grid`");
    assert!(!lines[4].contains("T/F/H"));
    assert!(lines[6].starts_with("| a |"));
    assert!(lines[7].starts_with("| b |"));
    assert_eq!(lines[9], "**2 repositories**");
    assert_eq!(lines.iter().filter(|l| l.starts_with("| ")).count(), repos.len() + 1);
}

#[test]
fn scan_output_by_fleet_and_format() {
    assert_eq!(
        scan_output("/grid", &[], ScanFormat::Table, false),
        "no git repositories found under /grid\n"
    );
    let repos = [repo("a", 9)];
    assert_eq!(scan_output("/grid", &repos, ScanFormat::Lines, false), render_lines(&repos));
    assert_eq!(scan_output("/grid", &repos, ScanFormat::Table, true), render_table(&repos, true));
}

#[test]
fn sort_fleet_orders_newest_first_then_by_name_and_is_stable() {
    let mut a1 = repo("a", 5);
    a1.branch = "first".to_string();
    let mut a2 = repo("a", 5);
    a2.branch = "second".to_string();
    let sorted = sort_fleet(vec![repo("old", 1), a1, repo("b", 5), a2, repo("new", 9)]);
    let got: Vec<(&str, &str)> = sorted.iter().map(|r| (r.name.as_str(), r.branch.as_str())).collect();
    assert_eq!(
        got,
        vec![("new", "main"), ("a", "first"), ("a", "second"), ("b", "main"), ("old", "main")]
    );
    assert_eq!(repo("x", 7).sort_key(), -7);
}

#[test]
fn check_root_and_error_messages() {
    assert!(check_root("/r", true, true).is_ok());
    let e = check_root("/r", true, false).unwrap_err();
    assert_eq!(e.message(), "path is not a directory: /r");
    let e = check_root("/r", false, false).unwrap_err();
    assert_eq!(e.message(), "path does not exist: /r");
    assert_eq!(NdError::Io("boom".to_string()).message(), "io error: boom");
    assert_eq!(NdError::Git("bad".to_string()).message(), "git error: bad");
}

#[test]
fn repo_info_defaults_when_git_says_nothing() {
    let r = repo_info(
        "/p".to_string(),
        "p".to_string(),
        None,
        None,
        (true, 2),
        None,
        vec![],
        None,
    );
    assert_eq!(r.branch, "(unknown)");
    assert_eq!(r.last_commit_epoch, 0);
    assert_eq!(r.last_commit_date, "");
    assert!(r.upstream.is_none());
    assert!(r.dirty && r.dirty_files == 2);
    let d = RepoInfo::default();
    assert_eq!(d.name, "");
    assert!(d.todos.is_none());
}

#[test]
fn summarize_langs_with_fewer_than_three() {
    let langs = vec![LangCount { lang: "Go", lines: 1_500_000 }];
    assert_eq!(summarize_langs(&langs), "Go:1.5M");
}

fn strings(v: &[&str]) -> Vec<String> {
    v.iter().map(|s| s.to_string()).collect()
}

#[test]
fn scan_arguments() {
    let a = parse_scan_args(&strings(&["~/p", "--todos", "--format", "lines"])).unwrap();
    assert_eq!(a.root, "~/p");
    assert!(a.todos);
    assert_eq!(a.format, ScanFormat::Lines);
    let a = parse_scan_args(&strings(&["--format", "lines", "--format", "table", "x"])).unwrap();
    assert_eq!(a.format, ScanFormat::Table);
    assert!(!a.todos);
    assert_eq!(
        parse_scan_args(&strings(&["x", "--format"])).unwrap_err(),
        vec!["error: --format requires a value (table|lines)"]
    );
    assert_eq!(
        parse_scan_args(&strings(&["--format", "json"])).unwrap_err(),
        vec!["error: unknown format 'json' (expected table|lines)"]
    );
    assert_eq!(
        parse_scan_args(&strings(&["--bogus"])).unwrap_err(),
        vec![
            "error: unknown flag '--bogus'",
            "run 'neondeck scan --help' via 'neondeck help' for usage"
        ]
    );
    assert_eq!(
        parse_scan_args(&strings(&["a", "b"])).unwrap_err(),
        vec!["error: unexpected extra argument 'b'"]
    );
    assert_eq!(
        parse_scan_args(&strings(&[])).unwrap_err(),
        vec![
            "error: scan requires a path",
            "usage: neondeck scan <PATH> [--todos] [--format table|lines]"
        ]
    );
}

#[test]
fn report_arguments() {
    let a = parse_report_args(&strings(&["--out", "F.md", "~/p", "--todos"])).unwrap();
    assert_eq!((a.root.as_str(), a.out.as_str(), a.todos), ("~/p", "F.md", true));
    assert_eq!(
        parse_report_args(&strings(&["p", "--out"])).unwrap_err(),
        vec!["error: --out requires a filename"]
    );
    assert_eq!(
        parse_report_args(&strings(&["--x"])).unwrap_err(),
        vec!["error: unknown flag '--x'"]
    );
    assert_eq!(
        parse_report_args(&strings(&["p", "q"])).unwrap_err(),
        vec!["error: unexpected extra argument 'q'"]
    );
    assert_eq!(
        parse_report_args(&strings(&["--out", "f"])).unwrap_err(),
        vec![
            "error: report requires a path",
            "usage: neondeck report <PATH> --out <FILE> [--todos]"
        ]
    );
    assert_eq!(
        parse_report_args(&strings(&["p"])).unwrap_err(),
        vec![
            "error: report requires --out <FILE>",
            "usage: neondeck report <PATH> --out <FILE> [--todos]"
        ]
    );
}
