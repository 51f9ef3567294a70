//! The command line of `neondeck scan` and `neondeck report`: which options were
//! given, or which usage error to print.
use vstd::prelude::*;
use crate::render::{records, render_lines, render_table, table_spec, views};
use crate::repo::RepoInfo;
use crate::text::{push_str, text_eq};

verus! {

/// The program's name.
pub const PROGRAM: &'static str = "neondeck";

/// Output format of `scan`.
#[derive(Debug, Clone, Copy, PartialEq, Eq, Structural)]
pub enum ScanFormat {
    Table,
    Lines,
}

/// The options of `neondeck scan`.
#[derive(Debug)]
pub struct ScanArgs {
    pub root: String,
    pub todos: bool,
    pub format: ScanFormat,
}

/// The options of `neondeck report`.
#[derive(Debug)]
pub struct ReportArgs {
    pub root: String,
    pub out: String,
    pub todos: bool,
}

/// Whether `a` starts with `--`.
pub open spec fn is_flag(a: Seq<char>) -> bool {
    a.len() >= 2 && a[0] == '-' && a[1] == '-'
}

/// What `scan`'s arguments from position `i` on give, with the options read so far:
/// the root, `--todos`, and whether the format is `lines`; or the usage error's lines.
pub open spec fn scan_spec(
    args: Seq<Seq<char>>,
    i: int,
    root: Option<Seq<char>>,
    todos: bool,
    lines: bool,
) -> Result<(Seq<char>, bool, bool), Seq<Seq<char>>>
    decreases args.len() - i,
{
    if i < 0 || i >= args.len() {
        match root {
            Some(r) => Ok((r, todos, lines)),
            None => Err(
                seq![
                    "error: scan requires a path"@,
                    "usage: neondeck scan <PATH> [--todos] [--format table|lines]"@,
                ],
            ),
        }
    } else {
        let a = args[i];
        if a == "--todos"@ {
            scan_spec(args, i + 1, root, true, lines)
        } else if a == "--format"@ {
            if i + 1 >= args.len() {
                Err(seq!["error: --format requires a value (table|lines)"@])
            } else if args[i + 1] == "table"@ {
                scan_spec(args, i + 2, root, todos, false)
            } else if args[i + 1] == "lines"@ {
                scan_spec(args, i + 2, root, todos, true)
            } else {
                Err(
                    seq![
                        "error: unknown format '"@ + args[i + 1] + "' (expected table|lines)"@,
                    ],
                )
            }
        } else if is_flag(a) {
            Err(
                seq![
                    "error: unknown flag '"@ + a + "'"@,
                    "run 'neondeck scan --help' via 'neondeck help' for usage"@,
                ],
            )
        } else if root is Some {
            Err(seq!["error: unexpected extra argument '"@ + a + "'"@])
        } else {
            scan_spec(args, i + 1, Some(a), todos, lines)
        }
    }
}

/// What `report`'s arguments from position `i` on give, with the options read so far:
/// the root, the output file and `--todos`; or the usage error's lines.
pub open spec fn report_spec(
    args: Seq<Seq<char>>,
    i: int,
    root: Option<Seq<char>>,
    out: Option<Seq<char>>,
    todos: bool,
) -> Result<(Seq<char>, Seq<char>, bool), Seq<Seq<char>>>
    decreases args.len() - i,
{
    if i < 0 || i >= args.len() {
        match (root, out) {
            (Some(r), Some(o)) => Ok((r, o, todos)),
            (None, _) => Err(
                seq![
                    "error: report requires a path"@,
                    "usage: neondeck report <PATH> --out <FILE> [--todos]"@,
                ],
            ),
            (Some(_), None) => Err(
                seq![
                    "error: report requires --out <FILE>"@,
                    "usage: neondeck report <PATH> --out <FILE> [--todos]"@,
                ],
            ),
        }
    } else {
        let a = args[i];
        if a == "--out"@ {
            if i + 1 >= args.len() {
                Err(seq!["error: --out requires a filename"@])
            } else {
                report_spec(args, i + 2, root, Some(args[i + 1]), todos)
            }
        } else if a == "--todos"@ {
            report_spec(args, i + 1, root, out, true)
        } else if is_flag(a) {
            Err(seq!["error: unknown flag '"@ + a + "'"@])
        } else if root is Some {
            Err(seq!["error: unexpected extra argument '"@ + a + "'"@])
        } else {
            report_spec(args, i + 1, Some(a), out, todos)
        }
    }
}

/// Whether `a` starts with `--`.
fn starts_as_flag(a: &str) -> (r: bool)
    ensures
        r == is_flag(a@),
{
    let v = crate::text::chars_of(a);
    v.len() >= 2 && v[0] == '-' && v[1] == '-'
}

/// One line holding `before`, `a` and `after`.
fn quoted(before: &str, a: &str, after: &str) -> (r: String)
    ensures
        r@ == before@ + a@ + after@,
{
    let mut r = String::new();
    push_str(&mut r, before);
    push_str(&mut r, a);
    push_str(&mut r, after);
    assert(r@ =~= before@ + a@ + after@);
    r
}

fn one_line(a: &str) -> (r: Vec<String>)
    ensures
        views(r@) == seq![a@],
{
    let mut r: Vec<String> = Vec::new();
    let mut s = String::new();
    push_str(&mut s, a);
    r.push(s);
    assert(views(r@) =~= seq![a@]);
    r
}

fn two_lines(a: &str, b: &str) -> (r: Vec<String>)
    ensures
        views(r@) == seq![a@, b@],
{
    let mut r: Vec<String> = Vec::new();
    let mut s = String::new();
    push_str(&mut s, a);
    r.push(s);
    let mut t = String::new();
    push_str(&mut t, b);
    r.push(t);
    assert(views(r@) =~= seq![a@, b@]);
    r
}

/// Reads the arguments of `neondeck scan` (those after the command's name): a path,
/// `--todos`, and `--format table|lines`. On a usage error, the lines to print.
pub fn parse_scan_args(args: &[String]) -> (r: Result<ScanArgs, Vec<String>>)
    ensures
        match scan_spec(views(args@), 0, None, false, false) {
            Ok(t) => r matches Ok(a) && a.root@ == t.0 && a.todos == t.1 && (a.format
                == ScanFormat::Lines) == t.2,
            Err(e) => r matches Err(lines) && views(lines@) == e,
        },
        r matches Ok(a) ==> {
            &&& a.todos == views(args@).contains("--todos"@)
            &&& (a.format == ScanFormat::Lines) == last_format_is_lines(views(args@), 0)
            &&& path_from(views(args@), 0, a.root@)
        },
{
    let ghost vs = views(args@);
    proof {
        lemma_scan_options(vs);
    }
    let mut root: Option<String> = None;
    let mut todos = false;
    let mut lines = false;
    let mut i: usize = 0;
    while i < args.len()
        invariant
            vs == views(args@),
            vs.len() == args@.len(),
            i <= args@.len(),
            scan_spec(vs, 0, None, false, false) == scan_spec(
                vs,
                i as int,
                match root {
                    Some(s) => Some(s@),
                    None => None,
                },
                todos,
                lines,
            ),
        decreases args@.len() - i,
    {
        let a = args[i].as_str();
        assert(vs[i as int] == a@);
        if text_eq(a, "--todos") {
            todos = true;
            i = i + 1;
        } else if text_eq(a, "--format") {
            if i + 1 >= args.len() {
                return Err(one_line("error: --format requires a value (table|lines)"));
            }
            let v = args[i + 1].as_str();
            assert(vs[i + 1] == v@);
            if text_eq(v, "table") {
                lines = false;
            } else if text_eq(v, "lines") {
                lines = true;
            } else {
                let mut e: Vec<String> = Vec::new();
                e.push(quoted("error: unknown format '", v, "' (expected table|lines)"));
                assert(views(e@) =~= seq!["error: unknown format '"@ + v@ + "' (expected table|lines)"@]);
                return Err(e);
            }
            i = i + 2;
        } else if starts_as_flag(a) {
            let mut e: Vec<String> = Vec::new();
            e.push(quoted("error: unknown flag '", a, "'"));
            let mut hint = String::new();
            push_str(&mut hint, "run 'neondeck scan --help' via 'neondeck help' for usage");
            e.push(hint);
            assert(views(e@) =~= seq![
                "error: unknown flag '"@ + a@ + "'"@,
                "run 'neondeck scan --help' via 'neondeck help' for usage"@,
            ]);
            return Err(e);
        } else if root.is_some() {
            let mut e: Vec<String> = Vec::new();
            e.push(quoted("error: unexpected extra argument '", a, "'"));
            assert(views(e@) =~= seq!["error: unexpected extra argument '"@ + a@ + "'"@]);
            return Err(e);
        } else {
            let mut s = String::new();
            push_str(&mut s, a);
            root = Some(s);
            i = i + 1;
        }
    }
    match root {
        Some(r) => Ok(
            ScanArgs {
                root: r,
                todos,
                format: if lines {
                    ScanFormat::Lines
                } else {
                    ScanFormat::Table
                },
            },
        ),
        None => Err(
            two_lines(
                "error: scan requires a path",
                "usage: neondeck scan <PATH> [--todos] [--format table|lines]",
            ),
        ),
    }
}

/// Reads the arguments of `neondeck report` (those after the command's name): a
/// path, `--out <FILE>` and `--todos`. On a usage error, the lines to print.
pub fn parse_report_args(args: &[String]) -> (r: Result<ReportArgs, Vec<String>>)
    ensures
        match report_spec(views(args@), 0, None, None, false) {
            Ok(t) => r matches Ok(a) && a.root@ == t.0 && a.out@ == t.1 && a.todos == t.2,
            Err(e) => r matches Err(lines) && views(lines@) == e,
        },
        r matches Ok(a) ==> {
            &&& a.todos == report_todos_from(views(args@), 0)
            &&& last_out_is(views(args@), 0, a.out@)
            &&& report_path_from(views(args@), 0, a.root@)
        },
{
    let ghost vs = views(args@);
    proof {
        lemma_report_options(vs);
    }
    let mut root: Option<String> = None;
    let mut out: Option<String> = None;
    let mut todos = false;
    let mut i: usize = 0;
    while i < args.len()
        invariant
            vs == views(args@),
            vs.len() == args@.len(),
            i <= args@.len(),
            report_spec(vs, 0, None, None, false) == report_spec(
                vs,
                i as int,
                match root {
                    Some(s) => Some(s@),
                    None => None,
                },
                match out {
                    Some(s) => Some(s@),
                    None => None,
                },
                todos,
            ),
        decreases args@.len() - i,
    {
        let a = args[i].as_str();
        assert(vs[i as int] == a@);
        if text_eq(a, "--out") {
            if i + 1 >= args.len() {
                return Err(one_line("error: --out requires a filename"));
            }
            let mut o = String::new();
            push_str(&mut o, args[i + 1].as_str());
            assert(vs[i + 1] == o@);
            out = Some(o);
            i = i + 2;
        } else if text_eq(a, "--todos") {
            todos = true;
            i = i + 1;
        } else if starts_as_flag(a) {
            let mut e: Vec<String> = Vec::new();
            e.push(quoted("error: unknown flag '", a, "'"));
            assert(views(e@) =~= seq!["error: unknown flag '"@ + a@ + "'"@]);
            return Err(e);
        } else if root.is_some() {
            let mut e: Vec<String> = Vec::new();
            e.push(quoted("error: unexpected extra argument '", a, "'"));
            assert(views(e@) =~= seq!["error: unexpected extra argument '"@ + a@ + "'"@]);
            return Err(e);
        } else {
            let mut s = String::new();
            push_str(&mut s, a);
            root = Some(s);
            i = i + 1;
        }
    }
    match (root, out) {
        (Some(r), Some(o)) => Ok(ReportArgs { root: r, out: o, todos }),
        (None, _) => Err(
            two_lines(
                "error: report requires a path",
                "usage: neondeck report <PATH> --out <FILE> [--todos]",
            ),
        ),
        (Some(_), None) => Err(
            two_lines(
                "error: report requires --out <FILE>",
                "usage: neondeck report <PATH> --out <FILE> [--todos]",
            ),
        ),
    }
}

/// What `neondeck scan` prints once the fleet is collected: a note when no
/// repository was found under `root`, else the fleet in the chosen format.
pub fn scan_output(root: &str, repos: &[RepoInfo], format: ScanFormat, todos: bool) -> (r: String)
    ensures
        repos@.len() == 0 ==> r@ == "no git repositories found under "@ + root@ + seq!['\n'],
        repos@.len() > 0 && format == ScanFormat::Lines ==> r@ == records(repos@),
        repos@.len() > 0 && format == ScanFormat::Table ==> r@ == table_spec(repos@, todos),
{
    if repos.len() == 0 {
        let mut r = String::new();
        push_str(&mut r, "no git repositories found under ");
        push_str(&mut r, root);
        r.push('\n');
        return r;
    }
    match format {
        ScanFormat::Lines => render_lines(repos),
        ScanFormat::Table => render_table(repos, todos),
    }
}

/// Whether a word among `w` starts with `--` and is not `--todos`.
pub open spec fn has_unknown_flag(w: Seq<Seq<char>>) -> bool
    decreases w.len(),
{
    if w.len() == 0 {
        false
    } else {
        (is_flag(w[0]) && w[0] != "--todos"@) || has_unknown_flag(w.drop_first())
    }
}

/// How many words of `w` do not start with `--`.
pub open spec fn positional_count(w: Seq<Seq<char>>) -> nat
    decreases w.len(),
{
    if w.len() == 0 {
        0
    } else {
        (if is_flag(w[0]) {
            0nat
        } else {
            1nat
        }) + positional_count(w.drop_first())
    }
}

/// The words of `scan`'s arguments once each `--format` and the value after it are
/// taken out; nothing when a `--format` has no value, or one other than `table` and
/// `lines`.
pub open spec fn scan_words(a: Seq<Seq<char>>) -> Option<Seq<Seq<char>>>
    decreases a.len(),
{
    if a.len() == 0 {
        Some(Seq::empty())
    } else if a[0] == "--format"@ {
        if a.len() < 2 {
            None
        } else if a[1] == "table"@ || a[1] == "lines"@ {
            scan_words(a.skip(2))
        } else {
            None
        }
    } else {
        match scan_words(a.skip(1)) {
            Some(w) => Some(seq![a[0]] + w),
            None => None,
        }
    }
}

/// `scan`'s arguments are malformed: a `--format` without a value or with an
/// unknown one, or (with each `--format` and its value taken out) a word starting
/// with `--` other than `--todos`, or not exactly one other word, the path.
pub open spec fn scan_malformed(args: Seq<Seq<char>>) -> bool {
    match scan_words(args) {
        None => true,
        Some(w) => has_unknown_flag(w) || positional_count(w) != 1,
    }
}

/// The words of `report`'s arguments once each `--out` and the word after it are
/// taken out, and whether there was an `--out`; nothing when an `--out` is last.
pub open spec fn report_words(a: Seq<Seq<char>>) -> Option<(Seq<Seq<char>>, bool)>
    decreases a.len(),
{
    if a.len() == 0 {
        Some((Seq::empty(), false))
    } else if a[0] == "--out"@ {
        if a.len() < 2 {
            None
        } else {
            match report_words(a.skip(2)) {
                Some(p) => Some((p.0, true)),
                None => None,
            }
        }
    } else {
        match report_words(a.skip(1)) {
            Some(p) => Some((seq![a[0]] + p.0, p.1)),
            None => None,
        }
    }
}

/// `report`'s arguments are malformed: no `--out`, or an `--out` without a word
/// after it, or (with each `--out` and the word after it taken out) a word starting
/// with `--` other than `--todos`, or not exactly one other word, the path.
pub open spec fn report_malformed(args: Seq<Seq<char>>) -> bool {
    match report_words(args) {
        None => true,
        Some(p) => !p.1 || has_unknown_flag(p.0) || positional_count(p.0) != 1,
    }
}

proof fn lemma_words_front(a: Seq<char>, w: Seq<Seq<char>>)
    ensures
        has_unknown_flag(seq![a] + w) == ((is_flag(a) && a != "--todos"@) || has_unknown_flag(w)),
        positional_count(seq![a] + w) == (if is_flag(a) {
            0nat
        } else {
            1nat
        }) + positional_count(w),
{
    assert((seq![a] + w).drop_first() =~= w);
    assert((seq![a] + w)[0] == a);
}

proof fn lemma_flag_literals()
    ensures
        "--todos"@ != "--format"@,
        "--todos"@ != "--out"@,
        is_flag("--todos"@),
{
    reveal_strlit("--todos");
    reveal_strlit("--format");
    reveal_strlit("--out");
    assert("--todos"@.len() != "--format"@.len());
    assert("--todos"@[2] != "--out"@[2]);
}

proof fn lemma_scan_ok_from(
    args: Seq<Seq<char>>,
    i: int,
    root: Option<Seq<char>>,
    todos: bool,
    lines: bool,
)
    requires
        0 <= i <= args.len(),
    ensures
        scan_spec(args, i, root, todos, lines) is Ok <==> match scan_words(args.skip(i)) {
            None => false,
            Some(w) => !has_unknown_flag(w) && positional_count(w) + (if root is Some {
                1nat
            } else {
                0nat
            }) == 1,
        },
    decreases args.len() - i,
{
    let rest = args.skip(i);
    lemma_flag_literals();
    if i == args.len() {
        assert(rest.len() == 0);
    } else {
        let a = args[i];
        assert(rest[0] == a);
        assert(rest.skip(1) =~= args.skip(i + 1));
        if a == "--todos"@ {
            lemma_scan_ok_from(args, i + 1, root, true, lines);
            if let Some(w) = scan_words(args.skip(i + 1)) {
                lemma_words_front(a, w);
            }
        } else if a == "--format"@ {
            if i + 1 < args.len() {
                assert(rest[1] == args[i + 1]);
                assert(rest.skip(2) =~= args.skip(i + 2));
                if args[i + 1] == "table"@ {
                    lemma_scan_ok_from(args, i + 2, root, todos, false);
                } else if args[i + 1] == "lines"@ {
                    lemma_scan_ok_from(args, i + 2, root, todos, true);
                }
            }
        } else {
            if let Some(w) = scan_words(args.skip(i + 1)) {
                lemma_words_front(a, w);
            }
            if !is_flag(a) && root is None {
                lemma_scan_ok_from(args, i + 1, Some(a), todos, lines);
            }
        }
    }
}

/// `neondeck scan` answers with a usage error exactly when its arguments are
/// malformed.
pub proof fn lemma_scan_usage_error_iff_malformed(args: Seq<Seq<char>>)
    ensures
        scan_spec(args, 0, None, false, false) is Err <==> scan_malformed(args),
{
    lemma_scan_ok_from(args, 0, None, false, false);
    assert(args.skip(0) =~= args);
}

proof fn lemma_report_ok_from(
    args: Seq<Seq<char>>,
    i: int,
    root: Option<Seq<char>>,
    out: Option<Seq<char>>,
    todos: bool,
)
    requires
        0 <= i <= args.len(),
    ensures
        report_spec(args, i, root, out, todos) is Ok <==> match report_words(args.skip(i)) {
            None => false,
            Some(p) => (p.1 || out is Some) && !has_unknown_flag(p.0) && positional_count(p.0)
                + (if root is Some {
                1nat
            } else {
                0nat
            }) == 1,
        },
    decreases args.len() - i,
{
    let rest = args.skip(i);
    lemma_flag_literals();
    if i == args.len() {
        assert(rest.len() == 0);
    } else {
        let a = args[i];
        assert(rest[0] == a);
        assert(rest.skip(1) =~= args.skip(i + 1));
        if a == "--out"@ {
            if i + 1 < args.len() {
                assert(rest.skip(2) =~= args.skip(i + 2));
                lemma_report_ok_from(args, i + 2, root, Some(args[i + 1]), todos);
            }
        } else {
            if let Some(p) = report_words(args.skip(i + 1)) {
                lemma_words_front(a, p.0);
            }
            if a == "--todos"@ {
                lemma_report_ok_from(args, i + 1, root, out, true);
            } else if !is_flag(a) && root is None {
                lemma_report_ok_from(args, i + 1, Some(a), out, todos);
            }
        }
    }
}

/// `neondeck report` answers with a usage error exactly when its arguments are
/// malformed.
pub proof fn lemma_report_usage_error_iff_malformed(args: Seq<Seq<char>>)
    ensures
        report_spec(args, 0, None, None, false) is Err <==> report_malformed(args),
{
    lemma_report_ok_from(args, 0, None, None, false);
    assert(args.skip(0) =~= args);
}

proof fn lemma_option_literals()
    ensures
        is_flag("--todos"@),
        is_flag("--format"@),
        is_flag("--out"@),
        "--todos"@ != "--format"@,
        "--todos"@ != "--out"@,
        "--format"@ != "--out"@,
        !is_flag("table"@),
        !is_flag("lines"@),
        "table"@ != "lines"@,
{
    reveal_strlit("--todos");
    reveal_strlit("--format");
    reveal_strlit("--out");
    reveal_strlit("table");
    reveal_strlit("lines");
    assert("--todos"@.len() != "--format"@.len());
    assert("--todos"@[2] != "--out"@[2]);
    assert("--format"@.len() != "--out"@.len());
    assert("table"@[0] != "lines"@[0]);
}

/// Whether the last `--format` among `args[from..]` is at `p` and is followed by
/// `lines`.
pub open spec fn last_format_is_lines(args: Seq<Seq<char>>, from: int) -> bool {
    exists|p: int|
        from <= p && p + 1 < args.len() && #[trigger] args[p] == "--format"@ && args[p + 1]
            == "lines"@ && forall|q: int| p < q < args.len() ==> args[q] != "--format"@
}

/// Whether no `--format` stands in `args[from..]`.
pub open spec fn no_format_from(args: Seq<Seq<char>>, from: int) -> bool {
    forall|q: int| from <= q < args.len() ==> #[trigger] args[q] != "--format"@
}

/// Whether `--todos` stands in `args[from..]`.
pub open spec fn todos_from(args: Seq<Seq<char>>, from: int) -> bool {
    exists|j: int| from <= j < args.len() && #[trigger] args[j] == "--todos"@
}

/// Whether `w` is a word of `args[from..]` that does not start with `--` and does not
/// follow a `--format`.
pub open spec fn path_from(args: Seq<Seq<char>>, from: int, w: Seq<char>) -> bool {
    exists|k: int|
        from <= k < args.len() && #[trigger] args[k] == w && !is_flag(w) && (k == 0 || args[k
            - 1] != "--format"@)
}

proof fn lemma_scan_options_from(
    args: Seq<Seq<char>>,
    i: int,
    root: Option<Seq<char>>,
    todos: bool,
    lines: bool,
)
    requires
        0 <= i <= args.len(),
        i == 0 || args[i - 1] != "--format"@,
    ensures
        scan_spec(args, i, root, todos, lines) matches Ok(t) ==> {
            &&& t.1 == (todos || todos_from(args, i))
            &&& t.2 == (last_format_is_lines(args, i) || (lines && no_format_from(args, i)))
            &&& (root matches Some(r) ==> t.0 == r)
            &&& (root is None ==> path_from(args, i, t.0))
        },
    decreases args.len() - i,
{
    lemma_option_literals();
    if i < args.len() {
        let a = args[i];
        if a == "--todos"@ || (!is_flag(a) && root is None) {
            let nroot = if a == "--todos"@ {
                root
            } else {
                Some(a)
            };
            let ntodos = todos || a == "--todos"@;
            lemma_scan_options_from(args, i + 1, nroot, ntodos, lines);
            assert(scan_spec(args, i, root, todos, lines) == scan_spec(args, i + 1, nroot, ntodos, lines));
            if let Ok(t) = scan_spec(args, i, root, todos, lines) {
                if a == "--todos"@ {
                    assert(todos_from(args, i));
                } else {
                    assert(todos_from(args, i) == todos_from(args, i + 1)) by {
                        if todos_from(args, i) {
                            let j = choose|j: int| i <= j < args.len() && #[trigger] args[j] == "--todos"@;
                            assert(j != i);
                        }
                    }
                    assert(path_from(args, i, a)) by {
                        assert(args[i] == a);
                    }
                }
                assert(todos_from(args, i + 1) ==> todos_from(args, i)) by {
                    if todos_from(args, i + 1) {
                        let j = choose|j: int| i + 1 <= j < args.len() && #[trigger] args[j] == "--todos"@;
                        assert(args[j] == "--todos"@);
                    }
                }
                assert(last_format_is_lines(args, i) == last_format_is_lines(args, i + 1)) by {
                    if last_format_is_lines(args, i) {
                        let p = choose|p: int|
                            i <= p && p + 1 < args.len() && #[trigger] args[p] == "--format"@
                                && args[p + 1] == "lines"@ && forall|q: int|
                                p < q < args.len() ==> args[q] != "--format"@;
                        assert(p != i);
                        assert(args[p] == "--format"@);
                    }
                    if last_format_is_lines(args, i + 1) {
                        let p = choose|p: int|
                            i + 1 <= p && p + 1 < args.len() && #[trigger] args[p] == "--format"@
                                && args[p + 1] == "lines"@ && forall|q: int|
                                p < q < args.len() ==> args[q] != "--format"@;
                        assert(args[p] == "--format"@);
                    }
                }
                assert(no_format_from(args, i) == no_format_from(args, i + 1)) by {
                    if no_format_from(args, i + 1) {
                        assert forall|q: int| i <= q < args.len() implies #[trigger] args[q]
                            != "--format"@ by {
                            if q > i {
                                assert(args[q] != "--format"@);
                            }
                        }
                    }
                }
                if root is None && a == "--todos"@ {
                    assert(path_from(args, i + 1, t.0) ==> path_from(args, i, t.0)) by {
                        if path_from(args, i + 1, t.0) {
                            let k = choose|k: int|
                                i + 1 <= k < args.len() && #[trigger] args[k] == t.0 && !is_flag(t.0)
                                    && (k == 0 || args[k - 1] != "--format"@);
                            assert(args[k] == t.0);
                        }
                    }
                }
            }
        } else if a == "--format"@ && i + 1 < args.len() && (args[i + 1] == "table"@ || args[i
            + 1] == "lines"@) {
            let v = args[i + 1];
            let nl = v == "lines"@;
            lemma_scan_options_from(args, i + 2, root, todos, nl);
            assert(scan_spec(args, i, root, todos, lines) == scan_spec(args, i + 2, root, todos, nl));
            if let Ok(t) = scan_spec(args, i, root, todos, lines) {
                assert(todos_from(args, i) == todos_from(args, i + 2)) by {
                    if todos_from(args, i) {
                        let j = choose|j: int| i <= j < args.len() && #[trigger] args[j] == "--todos"@;
                        assert(j != i && j != i + 1);
                    }
                    if todos_from(args, i + 2) {
                        let j = choose|j: int| i + 2 <= j < args.len() && #[trigger] args[j] == "--todos"@;
                        assert(args[j] == "--todos"@);
                    }
                }
                assert(!no_format_from(args, i)) by {
                    assert(args[i] == "--format"@);
                }
                assert(last_format_is_lines(args, i) == (last_format_is_lines(args, i + 2) || (nl
                    && no_format_from(args, i + 2)))) by {
                    if last_format_is_lines(args, i) {
                        let p = choose|p: int|
                            i <= p && p + 1 < args.len() && #[trigger] args[p] == "--format"@
                                && args[p + 1] == "lines"@ && forall|q: int|
                                p < q < args.len() ==> args[q] != "--format"@;
                        if p == i {
                            assert forall|q: int| i + 2 <= q < args.len() implies #[trigger] args[q]
                                != "--format"@ by {}
                        } else {
                            assert(p != i + 1);
                            assert(args[p] == "--format"@);
                        }
                    }
                    if last_format_is_lines(args, i + 2) {
                        let p = choose|p: int|
                            i + 2 <= p && p + 1 < args.len() && #[trigger] args[p] == "--format"@
                                && args[p + 1] == "lines"@ && forall|q: int|
                                p < q < args.len() ==> args[q] != "--format"@;
                        assert(args[p] == "--format"@);
                    }
                    if nl && no_format_from(args, i + 2) {
                        assert forall|q: int| i < q < args.len() implies args[q] != "--format"@ by {
                            if q >= i + 2 {
                                assert(args[q] != "--format"@);
                            }
                        }
                        assert(args[i] == "--format"@);
                    }
                }
                if root is None {
                    assert(path_from(args, i + 2, t.0) ==> path_from(args, i, t.0)) by {
                        if path_from(args, i + 2, t.0) {
                            let k = choose|k: int|
                                i + 2 <= k < args.len() && #[trigger] args[k] == t.0 && !is_flag(t.0)
                                    && (k == 0 || args[k - 1] != "--format"@);
                            assert(args[k] == t.0);
                        }
                    }
                }
            }
        }
    }
}

/// What `scan`'s options mean, read from its arguments: when they parse, the
/// `--todos` flag is set exactly when some argument is `--todos`, the format is
/// `lines` exactly when the last `--format` is followed by `lines` (`table` when
/// there is no `--format`), and the path is an argument that does not start with
/// `--` and does not follow a `--format`.
pub proof fn lemma_scan_options(args: Seq<Seq<char>>)
    ensures
        scan_spec(args, 0, None, false, false) matches Ok(t) ==> {
            &&& t.1 == args.contains("--todos"@)
            &&& t.2 == last_format_is_lines(args, 0)
            &&& path_from(args, 0, t.0)
        },
{
    lemma_scan_options_from(args, 0, None, false, false);
    if args.contains("--todos"@) {
        let j = choose|j: int| 0 <= j < args.len() && args[j] == "--todos"@;
        assert(todos_from(args, 0));
    }
    if todos_from(args, 0) {
        let j = choose|j: int| 0 <= j < args.len() && #[trigger] args[j] == "--todos"@;
        assert(args.contains("--todos"@));
    }
}

/// Whether `args[j]` is the value of an `--out` (the word after an `--out` that is
/// not itself such a value).
pub open spec fn is_out_value(args: Seq<Seq<char>>, j: int) -> bool
    decreases j,
{
    if j <= 0 || j > args.len() {
        false
    } else {
        args[j - 1] == "--out"@ && !is_out_value(args, j - 1)
    }
}

/// Whether `args[p]` is an `--out` option (not the value of another one).
pub open spec fn out_option_at(args: Seq<Seq<char>>, p: int) -> bool {
    0 <= p < args.len() && args[p] == "--out"@ && !is_out_value(args, p)
}

/// Whether the last `--out` option among `args[from..]` is followed by `o`.
pub open spec fn last_out_is(args: Seq<Seq<char>>, from: int, o: Seq<char>) -> bool {
    exists|p: int|
        from <= p && p + 1 < args.len() && #[trigger] out_option_at(args, p) && args[p + 1] == o
            && forall|q: int| p < q < args.len() ==> !out_option_at(args, q)
}

/// Whether no `--out` option stands in `args[from..]`.
pub open spec fn no_out_from(args: Seq<Seq<char>>, from: int) -> bool {
    forall|q: int| from <= q < args.len() ==> !#[trigger] out_option_at(args, q)
}

/// Whether `--todos` stands in `args[from..]` other than as the value of an `--out`.
pub open spec fn report_todos_from(args: Seq<Seq<char>>, from: int) -> bool {
    exists|j: int|
        from <= j < args.len() && #[trigger] args[j] == "--todos"@ && !is_out_value(args, j)
}

/// Whether `w` is a word of `args[from..]` that does not start with `--` and is not
/// the value of an `--out`.
pub open spec fn report_path_from(args: Seq<Seq<char>>, from: int, w: Seq<char>) -> bool {
    exists|k: int|
        from <= k < args.len() && #[trigger] args[k] == w && !is_flag(w) && !is_out_value(args, k)
}

proof fn lemma_report_options_from(
    args: Seq<Seq<char>>,
    i: int,
    root: Option<Seq<char>>,
    out: Option<Seq<char>>,
    todos: bool,
)
    requires
        0 <= i <= args.len(),
        !is_out_value(args, i),
    ensures
        report_spec(args, i, root, out, todos) matches Ok(t) ==> {
            &&& t.2 == (todos || report_todos_from(args, i))
            &&& (last_out_is(args, i, t.1) || (out == Some(t.1) && no_out_from(args, i)))
            &&& (root matches Some(r) ==> t.0 == r)
            &&& (root is None ==> report_path_from(args, i, t.0))
        },
    decreases args.len() - i,
{
    lemma_option_literals();
    if i < args.len() {
        let a = args[i];
        if a == "--out"@ && i + 1 < args.len() {
            assert(out_option_at(args, i));
            assert(is_out_value(args, i + 1));
            assert(!out_option_at(args, i + 1));
            assert(!is_out_value(args, i + 2));
            let o = args[i + 1];
            lemma_report_options_from(args, i + 2, root, Some(o), todos);
            assert(report_spec(args, i, root, out, todos) == report_spec(args, i + 2, root, Some(o), todos));
            if let Ok(t) = report_spec(args, i, root, out, todos) {
                assert(report_todos_from(args, i) == report_todos_from(args, i + 2)) by {
                    if report_todos_from(args, i) {
                        let j = choose|j: int|
                            i <= j < args.len() && #[trigger] args[j] == "--todos"@ && !is_out_value(args, j);
                        assert(j != i && j != i + 1);
                    }
                    if report_todos_from(args, i + 2) {
                        let j = choose|j: int|
                            i + 2 <= j < args.len() && #[trigger] args[j] == "--todos"@ && !is_out_value(args, j);
                        assert(args[j] == "--todos"@);
                    }
                }
                if last_out_is(args, i + 2, t.1) {
                    let p = choose|p: int|
                        i + 2 <= p && p + 1 < args.len() && #[trigger] out_option_at(args, p) && args[p
                            + 1] == t.1 && forall|q: int| p < q < args.len() ==> !out_option_at(args, q);
                    assert(out_option_at(args, p));
                    assert(last_out_is(args, i, t.1));
                } else {
                    assert(o == t.1 && no_out_from(args, i + 2));
                    assert forall|q: int| i < q < args.len() implies !out_option_at(args, q) by {
                        if q >= i + 2 {
                            assert(!out_option_at(args, q));
                        }
                    }
                    assert(out_option_at(args, i));
                    assert(last_out_is(args, i, t.1));
                }
                if root is None {
                    assert(report_path_from(args, i + 2, t.0) ==> report_path_from(args, i, t.0)) by {
                        if report_path_from(args, i + 2, t.0) {
                            let k = choose|k: int|
                                i + 2 <= k < args.len() && #[trigger] args[k] == t.0 && !is_flag(t.0)
                                    && !is_out_value(args, k);
                            assert(args[k] == t.0);
                        }
                    }
                }
            }
        } else if a != "--out"@ && (a == "--todos"@ || (!is_flag(a) && root is None)) {
            assert(!out_option_at(args, i));
            assert(!is_out_value(args, i + 1));
            let nroot = if a == "--todos"@ {
                root
            } else {
                Some(a)
            };
            let ntodos = todos || a == "--todos"@;
            lemma_report_options_from(args, i + 1, nroot, out, ntodos);
            assert(report_spec(args, i, root, out, todos) == report_spec(args, i + 1, nroot, out, ntodos));
            if let Ok(t) = report_spec(args, i, root, out, todos) {
                if a == "--todos"@ {
                    assert(report_todos_from(args, i));
                } else {
                    assert(report_todos_from(args, i) == report_todos_from(args, i + 1)) by {
                        if report_todos_from(args, i) {
                            let j = choose|j: int|
                                i <= j < args.len() && #[trigger] args[j] == "--todos"@ && !is_out_value(args, j);
                            assert(j != i);
                        }
                    }
                    assert(report_path_from(args, i, a)) by {
                        assert(args[i] == a);
                    }
                }
                assert(report_todos_from(args, i + 1) ==> report_todos_from(args, i)) by {
                    if report_todos_from(args, i + 1) {
                        let j = choose|j: int|
                            i + 1 <= j < args.len() && #[trigger] args[j] == "--todos"@ && !is_out_value(args, j);
                        assert(args[j] == "--todos"@);
                    }
                }
                assert(last_out_is(args, i + 1, t.1) ==> last_out_is(args, i, t.1)) by {
                    if last_out_is(args, i + 1, t.1) {
                        let p = choose|p: int|
                            i + 1 <= p && p + 1 < args.len() && #[trigger] out_option_at(args, p) && args[p
                                + 1] == t.1 && forall|q: int| p < q < args.len() ==> !out_option_at(args, q);
                        assert(out_option_at(args, p));
                    }
                }
                assert(no_out_from(args, i + 1) ==> no_out_from(args, i)) by {
                    if no_out_from(args, i + 1) {
                        assert forall|q: int| i <= q < args.len() implies !#[trigger] out_option_at(args, q) by {
                            if q > i {
                                assert(!out_option_at(args, q));
                            }
                        }
                    }
                }
                if root is None && a == "--todos"@ {
                    assert(report_path_from(args, i + 1, t.0) ==> report_path_from(args, i, t.0)) by {
                        if report_path_from(args, i + 1, t.0) {
                            let k = choose|k: int|
                                i + 1 <= k < args.len() && #[trigger] args[k] == t.0 && !is_flag(t.0)
                                    && !is_out_value(args, k);
                            assert(args[k] == t.0);
                        }
                    }
                }
            }
        }
    }
}

/// What `report`'s options mean, read from its arguments: when they parse, the
/// output file is the word after the last `--out` (a word right after an `--out` is
/// that option's value, whatever it is), `--todos` is set exactly when some argument
/// other than such a value is `--todos`, and the path is an argument that does not
/// start with `--` and is no such value.
pub proof fn lemma_report_options(args: Seq<Seq<char>>)
    ensures
        report_spec(args, 0, None, None, false) matches Ok(t) ==> {
            &&& t.2 == report_todos_from(args, 0)
            &&& last_out_is(args, 0, t.1)
            &&& report_path_from(args, 0, t.0)
        },
{
    lemma_report_options_from(args, 0, None, None, false);
}

} // verus!
