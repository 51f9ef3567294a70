use neondeck::repo::check_root;
use neondeck::{
    escape_field, human_lines, is_ignored_dir, lang_for_ext, parse_ahead_behind,
    parse_last_commit, render_lines, render_markdown, render_table, summarize_langs,
    tally_markers, truncate, LangCount, MarkerCounts, RepoInfo,
};

fn sample_repo(name: &str, epoch: i64) -> RepoInfo {
    RepoInfo {
        path: format!("/grid/{name}"),
        name: name.to_string(),
        branch: "main".to_string(),
        last_commit_epoch: epoch,
        last_commit_date: "2026-09-04".to_string(),
        last_commit_subject: "shiny commit".to_string(),
        dirty: false,
        dirty_files: 0,
        upstream: Some("origin/main".to_string()),
        ahead: 1,
        behind: 2,
        languages: vec![
            LangCount {
                lang: "Rust",
                lines: 12345,
            },
            LangCount {
                lang: "TOML",
                lines: 42,
            },
        ],
        todos: Some(MarkerCounts {
            todo: 2,
            fixme: 1,
            hack: 0,
        }),
    }
}

#[test]
fn parses_last_commit_line() {
    let (epoch, date, subject) =
        parse_last_commit("1757000000|2026-09-04|feat: add scan command").unwrap();
    assert_eq!(epoch, 1757000000);
    assert_eq!(date, "2026-09-04");
    assert_eq!(subject, "feat: add scan command");
}

#[test]
fn parses_last_commit_with_pipes_in_subject() {
    let (_, _, subject) = parse_last_commit("1|2026-01-01|fix a | b case").unwrap();
    assert_eq!(subject, "fix a | b case");
}

#[test]
fn rejects_garbage_commit_line() {
    assert!(parse_last_commit("not-a-number|date|subj").is_none());
    assert!(parse_last_commit("").is_none());
    assert!(parse_last_commit("123||subj").is_none());
}

#[test]
fn parses_ahead_behind() {
    assert_eq!(parse_ahead_behind("3\t7"), Some((3, 7)));
    assert_eq!(parse_ahead_behind("0 12"), Some((0, 12)));
    assert_eq!(parse_ahead_behind("nope"), None);
}

#[test]
fn maps_extensions_to_languages() {
    assert_eq!(lang_for_ext("rs"), Some("Rust"));
    assert_eq!(lang_for_ext("py"), Some("Python"));
    assert_eq!(lang_for_ext("ts"), Some("TypeScript"));
    assert_eq!(lang_for_ext("cpp"), Some("C++"));
    assert_eq!(lang_for_ext("cs"), Some("C#"));
    assert_eq!(lang_for_ext("xyz"), None);
}

#[test]
fn ignores_build_dirs() {
    assert!(is_ignored_dir("target"));
    assert!(is_ignored_dir("node_modules"));
    assert!(is_ignored_dir(".git"));
    assert!(!is_ignored_dir("src"));
}

#[test]
fn tallies_markers_in_text() {
    let mut c = MarkerCounts::default();
    tally_markers(
        "// TODO: fix this\n// FIXME: and this\n// HACK: yikes\n// TODO TODO",
        &mut c,
    );
    assert_eq!(c.todo, 3);
    assert_eq!(c.fixme, 1);
    assert_eq!(c.hack, 1);
}

#[test]
fn markers_case_sensitive_and_word_boundaries_loose() {
    let mut c = MarkerCounts::default();
    tally_markers("todo lowercase does not count\nTODO(x) counts", &mut c);
    assert_eq!(c.todo, 1);
}

#[test]
fn table_contains_all_columns() {
    let repos = vec![sample_repo("alpha", 100)];
    let out = render_table(&repos, true);
    assert!(out.contains("REPO"));
    assert!(out.contains("BRANCH"));
    assert!(out.contains("DIRTY"));
    assert!(out.contains("AHEAD/UP"));
    assert!(out.contains("T/F/H"));
    assert!(out.contains("alpha"));
    assert!(out.contains("+1/-2"));
    assert!(out.contains("Rust:12.3k"));
    assert!(out.contains("2/1/0"));
    assert!(out.contains("1 repositories"));
}

#[test]
fn lines_format_is_versioned_and_escaped() {
    let mut r = sample_repo("al|pha", 100);
    r.last_commit_subject = "multi\nline|pipe".to_string();
    let out = render_lines(&[r]);
    let line = out.lines().next().unwrap();
    assert!(line.starts_with("neondeck/v1|"));
    assert!(line.contains("al\\|pha"));
    assert!(line.contains("multi\\nline\\|pipe"));
    // one record => exactly one line, no raw newline leaked from subject
    assert_eq!(out.lines().count(), 1);
}

#[test]
fn lines_format_field_count_exact() {
    let out = render_lines(&[sample_repo("plain", 100)]);
    let line = out.lines().next().unwrap();
    // 15 fields => 14 unescaped separators
    assert_eq!(line.split('|').count(), 15);
}

#[test]
fn markdown_report_contains_table() {
    let root = std::path::PathBuf::from("/grid");
    let repos = vec![sample_repo("demo", 100)];
    let md = render_markdown(&root.display().to_string(), &repos, false);
    assert!(md.contains("# Fleet Status"));
    assert!(md.contains("| Repository | Branch |"));
    assert!(md.contains("| demo |"));
    assert!(md.contains("**1 repositories**"));
    assert!(md.contains("synthclaw"));
}

#[test]
fn sort_order_newest_first() {
    let mut repos = vec![
        sample_repo("old", 100),
        sample_repo("new", 300),
        sample_repo("mid", 200),
    ];
    repos.sort_by(|a, b| a.sort_key().cmp(&b.sort_key()).then(a.name.cmp(&b.name)));
    let names: Vec<&str> = repos.iter().map(|r| r.name.as_str()).collect();
    assert_eq!(names, vec!["new", "mid", "old"]);
}

#[test]
fn human_lines_formats() {
    assert_eq!(human_lines(0), "0");
    assert_eq!(human_lines(999), "999");
    assert_eq!(human_lines(1234), "1.2k");
    assert_eq!(human_lines(2_500_000), "2.5M");
}

#[test]
fn truncate_adds_ellipsis() {
    assert_eq!(truncate("short", 10), "short");
    let long = "x".repeat(100);
    let t = truncate(&long, 10);
    assert_eq!(t.chars().count(), 10);
    assert!(t.ends_with('…'));
}

#[test]
fn escape_field_handles_pipes_and_newlines() {
    assert_eq!(escape_field("a|b\nc\\d"), "a\\|b\\nc\\\\d");
}

#[test]
fn summarize_langs_top_three() {
    let langs = vec![
        LangCount {
            lang: "Rust",
            lines: 5000,
        },
        LangCount {
            lang: "C++",
            lines: 3000,
        },
        LangCount {
            lang: "Shell",
            lines: 100,
        },
        LangCount {
            lang: "TOML",
            lines: 10,
        },
    ];
    assert_eq!(summarize_langs(&langs), "Rust:5.0k C++:3.0k Shell:100");
    assert_eq!(summarize_langs(&[]), "-");
}

#[test]
fn collect_fleet_fails_closed_on_missing_path() {
    let root = std::path::Path::new("/definitely/not/here");
    let err = check_root("/definitely/not/here", root.exists(), root.is_dir()).unwrap_err();
    let msg = err.message();
    assert!(msg.contains("path does not exist"), "got: {msg}");
}
