//! Languages by file extension, line counts, and their summaries.
use vstd::prelude::*;
use crate::human::{human_lines, human_spec};
use crate::text::{
    push_str,
    chars_of, text_is, text_eq, text_lt, seq_lt, lemma_seq_lt_irreflexive, lemma_seq_lt_transitive,
    lemma_seq_lt_total,
};

verus! {

/// Lines of one language in a repository.
#[derive(Debug, Clone, PartialEq, Eq)]
pub struct LangCount {
    pub lang: &'static str,
    pub lines: u64,
}

/// The language of a (lower-case) file extension.
pub open spec fn lang_spec(e: Seq<char>) -> Option<Seq<char>> {
    if e == "rs"@ {
        Some("Rust"@)
    } else if e == "py"@ {
        Some("Python"@)
    } else if e == "js"@ || e == "mjs"@ || e == "cjs"@ || e == "jsx"@ {
        Some("JavaScript"@)
    } else if e == "ts"@ || e == "tsx"@ || e == "mts"@ || e == "cts"@ {
        Some("TypeScript"@)
    } else if e == "c"@ || e == "h"@ {
        Some("C"@)
    } else if e == "cpp"@ || e == "cc"@ || e == "cxx"@ || e == "hpp"@ || e == "hh"@ {
        Some("C++"@)
    } else if e == "cs"@ {
        Some("C#"@)
    } else if e == "go"@ {
        Some("Go"@)
    } else if e == "rb"@ {
        Some("Ruby"@)
    } else if e == "java"@ {
        Some("Java"@)
    } else if e == "kt"@ || e == "kts"@ {
        Some("Kotlin"@)
    } else if e == "swift"@ {
        Some("Swift"@)
    } else if e == "dart"@ {
        Some("Dart"@)
    } else if e == "gd"@ {
        Some("GDScript"@)
    } else if e == "lua"@ {
        Some("Lua"@)
    } else if e == "zig"@ {
        Some("Zig"@)
    } else if e == "odin"@ {
        Some("Odin"@)
    } else if e == "sh"@ || e == "bash"@ || e == "fish"@ || e == "zsh"@ {
        Some("Shell"@)
    } else if e == "html"@ || e == "htm"@ {
        Some("HTML"@)
    } else if e == "css"@ || e == "scss"@ || e == "sass"@ {
        Some("CSS"@)
    } else if e == "md"@ || e == "markdown"@ {
        Some("Markdown"@)
    } else if e == "toml"@ {
        Some("TOML"@)
    } else if e == "yaml"@ || e == "yml"@ {
        Some("YAML"@)
    } else if e == "json"@ {
        Some("JSON"@)
    } else if e == "xml"@ {
        Some("XML"@)
    } else if e == "sql"@ {
        Some("SQL"@)
    } else if e == "vim"@ {
        Some("Vim"@)
    } else if e == "el"@ {
        Some("Elisp"@)
    } else if e == "ex"@ || e == "exs"@ {
        Some("Elixir"@)
    } else if e == "erl"@ || e == "hrl"@ {
        Some("Erlang"@)
    } else if e == "hs"@ {
        Some("Haskell"@)
    } else if e == "ml"@ || e == "mli"@ {
        Some("OCaml"@)
    } else if e == "fs"@ || e == "fsx"@ {
        Some("F#"@)
    } else if e == "clj"@ || e == "cljs"@ {
        Some("Clojure"@)
    } else if e == "r"@ {
        Some("R"@)
    } else if e == "php"@ {
        Some("PHP"@)
    } else if e == "pl"@ || e == "pm"@ {
        Some("Perl"@)
    } else if e == "vue"@ {
        Some("Vue"@)
    } else if e == "svelte"@ {
        Some("Svelte"@)
    } else {
        None
    }
}

/// Maps a file extension to a language name. Pure and total.
pub fn lang_for_ext(ext: &str) -> (r: Option<&'static str>)
    ensures
        r is None <==> lang_spec(ext@) is None,
        r matches Some(l) ==> lang_spec(ext@) == Some(l@),
{
    let e = chars_of(ext);
    if text_is(&e, "rs") {
        Some("Rust")
    } else if text_is(&e, "py") {
        Some("Python")
    } else if text_is(&e, "js") || text_is(&e, "mjs") || text_is(&e, "cjs") || text_is(&e, "jsx") {
        Some("JavaScript")
    } else if text_is(&e, "ts") || text_is(&e, "tsx") || text_is(&e, "mts") || text_is(&e, "cts") {
        Some("TypeScript")
    } else if text_is(&e, "c") || text_is(&e, "h") {
        Some("C")
    } else if text_is(&e, "cpp") || text_is(&e, "cc") || text_is(&e, "cxx") || text_is(&e, "hpp") || text_is(&e, "hh") {
        Some("C++")
    } else if text_is(&e, "cs") {
        Some("C#")
    } else if text_is(&e, "go") {
        Some("Go")
    } else if text_is(&e, "rb") {
        Some("Ruby")
    } else if text_is(&e, "java") {
        Some("Java")
    } else if text_is(&e, "kt") || text_is(&e, "kts") {
        Some("Kotlin")
    } else if text_is(&e, "swift") {
        Some("Swift")
    } else if text_is(&e, "dart") {
        Some("Dart")
    } else if text_is(&e, "gd") {
        Some("GDScript")
    } else if text_is(&e, "lua") {
        Some("Lua")
    } else if text_is(&e, "zig") {
        Some("Zig")
    } else if text_is(&e, "odin") {
        Some("Odin")
    } else if text_is(&e, "sh") || text_is(&e, "bash") || text_is(&e, "fish") || text_is(&e, "zsh") {
        Some("Shell")
    } else if text_is(&e, "html") || text_is(&e, "htm") {
        Some("HTML")
    } else if text_is(&e, "css") || text_is(&e, "scss") || text_is(&e, "sass") {
        Some("CSS")
    } else if text_is(&e, "md") || text_is(&e, "markdown") {
        Some("Markdown")
    } else if text_is(&e, "toml") {
        Some("TOML")
    } else if text_is(&e, "yaml") || text_is(&e, "yml") {
        Some("YAML")
    } else if text_is(&e, "json") {
        Some("JSON")
    } else if text_is(&e, "xml") {
        Some("XML")
    } else if text_is(&e, "sql") {
        Some("SQL")
    } else if text_is(&e, "vim") {
        Some("Vim")
    } else if text_is(&e, "el") {
        Some("Elisp")
    } else if text_is(&e, "ex") || text_is(&e, "exs") {
        Some("Elixir")
    } else if text_is(&e, "erl") || text_is(&e, "hrl") {
        Some("Erlang")
    } else if text_is(&e, "hs") {
        Some("Haskell")
    } else if text_is(&e, "ml") || text_is(&e, "mli") {
        Some("OCaml")
    } else if text_is(&e, "fs") || text_is(&e, "fsx") {
        Some("F#")
    } else if text_is(&e, "clj") || text_is(&e, "cljs") {
        Some("Clojure")
    } else if text_is(&e, "r") {
        Some("R")
    } else if text_is(&e, "php") {
        Some("PHP")
    } else if text_is(&e, "pl") || text_is(&e, "pm") {
        Some("Perl")
    } else if text_is(&e, "vue") {
        Some("Vue")
    } else if text_is(&e, "svelte") {
        Some("Svelte")
    } else {
        None
    }
}

/// Directory names that never count toward line totals.
pub open spec fn ignored_dir_spec(n: Seq<char>) -> bool {
    ||| n == ".git"@
    ||| n == "target"@
    ||| n == "node_modules"@
    ||| n == "dist"@
    ||| n == "build"@
    ||| n == "out"@
    ||| n == ".next"@
    ||| n == ".cache"@
    ||| n == "__pycache__"@
    ||| n == ".venv"@
    ||| n == "venv"@
    ||| n == "vendor"@
    ||| n == "Pods"@
    ||| n == ".dart_tool"@
    ||| n == ".idea"@
    ||| n == ".vscode"@
}

/// Directories that never count toward line totals.
pub fn is_ignored_dir(name: &str) -> (r: bool)
    ensures
        r == ignored_dir_spec(name@),
{
    let e = chars_of(name);
    text_is(&e, ".git") || text_is(&e, "target") || text_is(&e, "node_modules") || text_is(&e, "dist") || text_is(&e, "build") || text_is(&e, "out") || text_is(&e, ".next") || text_is(&e, ".cache") || text_is(&e, "__pycache__") || text_is(&e, ".venv") || text_is(&e, "venv") || text_is(&e, "vendor") || text_is(&e, "Pods") || text_is(&e, ".dart_tool") || text_is(&e, ".idea") || text_is(&e, ".vscode")
}

/// What `str::to_lowercase` returns for a text: each character replaced by its
/// lowercase mapping as the Unicode character database defines it.
pub uninterp spec fn lowercase(s: Seq<char>) -> Seq<char>;

/// Calls `str::to_lowercase`. Claimed: the result is `lowercase` of the argument,
/// a function of the argument alone; nothing more of the Unicode mapping is stated.
#[verifier::external_body]
fn to_lowercase(s: &str) -> (r: String)
    ensures
        r@ == lowercase(s@),
{
    s.to_lowercase()
}

/// The language of a file with extension `ext`, which is compared in lower case.
pub fn language_for_extension(ext: &str) -> (r: Option<&'static str>)
    ensures
        r is None <==> lang_spec(lowercase(ext@)) is None,
        r matches Some(l) ==> lang_spec(lowercase(ext@)) == Some(l@),
{
    let lower = to_lowercase(ext);
    lang_for_ext(lower.as_str())
}

/// Number of line feeds in `s`.
pub open spec fn newline_count(s: Seq<u8>) -> nat
    decreases s.len(),
{
    if s.len() == 0 {
        0
    } else {
        newline_count(s.drop_last()) + if s.last() == 10 {
            1nat
        } else {
            0nat
        }
    }
}

/// Whether one of the first 8192 bytes is NUL: such a file is taken for binary.
pub open spec fn looks_binary(s: Seq<u8>) -> bool {
    exists|i: int| 0 <= i < s.len() && i < 8192 && s[i] == 0
}

/// Lines of a file's content: none for a binary file, 0 for an empty one, else the
/// line feeds plus one when the last line has none.
pub open spec fn line_count_spec(s: Seq<u8>) -> Option<nat> {
    if looks_binary(s) {
        None
    } else if s.len() == 0 {
        Some(0)
    } else {
        Some(
            newline_count(s) + if s.last() != 10 {
                1nat
            } else {
                0nat
            },
        )
    }
}

proof fn lemma_newline_count_bound(s: Seq<u8>)
    ensures
        newline_count(s) <= s.len(),
        s.len() > 0 && s.last() != 10 ==> newline_count(s) < s.len(),
    decreases s.len(),
{
    if s.len() > 0 {
        lemma_newline_count_bound(s.drop_last());
    }
}

proof fn lemma_newline_count_filter(s: Seq<u8>)
    ensures
        newline_count(s) == s.filter(|b: u8| b == 10u8).len(),
    decreases s.len(),
{
    reveal(Seq::filter);
    if s.len() > 0 {
        lemma_newline_count_filter(s.drop_last());
    }
}

/// Only a NUL byte among the first 8192 marks a file as binary. Any other content
/// (tabs, carriage returns, UTF-8 of any kind) has as many lines as it has line
/// feeds, plus one when its last byte is not a line feed; a binary file has none.
pub proof fn lemma_line_count_of_content(s: Seq<u8>)
    ensures
        (forall|i: int| 0 <= i < s.len() && i < 8192 ==> s[i] != 0u8) ==> line_count_spec(s)
            == Some(s.filter(|b: u8| b == 10u8).len() + if s.len() > 0 && s.last() != 10u8 {
            1nat
        } else {
            0nat
        }),
        (exists|i: int| 0 <= i < s.len() && i < 8192 && s[i] == 0u8) ==> line_count_spec(s)
            is None,
{
    lemma_newline_count_filter(s);
}

/// Counts the lines of a file's content (see `line_count_spec`).
pub fn count_lines(bytes: &[u8]) -> (r: Option<u64>)
    ensures
        r is None <==> line_count_spec(bytes@) is None,
        r matches Some(n) ==> line_count_spec(bytes@) == Some(n as nat),
{
    let len: usize = bytes.len();
    let probe: usize = if len < 8192 {
        len
    } else {
        8192
    };
    let mut i: usize = 0;
    while i < probe
        invariant
            probe <= len == bytes@.len(),
            probe <= 8192,
            i <= probe,
            forall|k: int| 0 <= k < i ==> bytes@[k] != 0,
        decreases probe - i,
    {
        if bytes[i] == 0 {
            return None;
        }
        i = i + 1;
    }
    if len == 0 {
        return Some(0);
    }
    let mut n: usize = 0;
    let mut j: usize = 0;
    while j < len
        invariant
            len == bytes@.len(),
            j <= len,
            n == newline_count(bytes@.take(j as int)),
            n <= j,
        decreases len - j,
    {
        assert(bytes@.take(j + 1).drop_last() =~= bytes@.take(j as int));
        if bytes[j] == 10 {
            n = n + 1;
        }
        j = j + 1;
    }
    assert(bytes@.take(len as int) =~= bytes@);
    proof {
        lemma_newline_count_bound(bytes@);
    }
    if bytes[len - 1] != 10 {
        n = n + 1;
    }
    Some(n as u64)
}

/// Lines of language `l` over all files: the sum of the counts whose language is `l`.
pub open spec fn lang_total(files: Seq<(&'static str, u64)>, l: Seq<char>) -> nat
    decreases files.len(),
{
    if files.len() == 0 {
        0
    } else {
        lang_total(files.drop_last(), l) + if files.last().0@ == l {
            files.last().1 as nat
        } else {
            0nat
        }
    }
}

/// Whether some file of `files` is of language `l`.
pub open spec fn in_files(files: Seq<(&'static str, u64)>, l: Seq<char>) -> bool {
    exists|j: int| 0 <= j < files.len() && (#[trigger] files[j]).0@ == l
}

/// Whether some entry of `s` is for language `l`.
pub open spec fn in_summary(s: Seq<LangCount>, l: Seq<char>) -> bool {
    exists|i: int| 0 <= i < s.len() && (#[trigger] s[i]).lang@ == l
}

/// `a` goes before `b` in a language summary: more lines first, then by name.
pub open spec fn lang_before(a: LangCount, b: LangCount) -> bool {
    a.lines > b.lines || (a.lines == b.lines && seq_lt(a.lang@, b.lang@))
}

proof fn lemma_lang_total_prefix(files: Seq<(&'static str, u64)>, l: Seq<char>, i: int)
    requires
        0 <= i <= files.len(),
    ensures
        lang_total(files.take(i), l) <= lang_total(files, l),
    decreases files.len() - i,
{
    if i < files.len() {
        lemma_lang_total_prefix(files.drop_last(), l, i);
        assert(files.drop_last().take(i) =~= files.take(i));
    } else {
        assert(files.take(i) =~= files);
    }
}

proof fn lemma_lang_total_absent(files: Seq<(&'static str, u64)>, l: Seq<char>)
    requires
        forall|j: int| 0 <= j < files.len() ==> (#[trigger] files[j]).0@ != l,
    ensures
        lang_total(files, l) == 0,
    decreases files.len(),
{
    if files.len() > 0 {
        let d = files.drop_last();
        assert forall|j: int| 0 <= j < d.len() implies (#[trigger] d[j]).0@ != l by {
            assert(d[j] == files[j]);
        }
        lemma_lang_total_absent(d, l);
    }
}

proof fn lemma_lang_before_order(a: LangCount, b: LangCount, c: LangCount)
    ensures
        !lang_before(a, a),
        lang_before(a, b) && lang_before(b, c) ==> lang_before(a, c),
        a.lang@ != b.lang@ ==> (lang_before(a, b) || lang_before(b, a)),
        !(lang_before(a, b) && lang_before(b, a)),
{
    lemma_seq_lt_irreflexive(a.lang@);
    lemma_seq_lt_total(a.lang@, b.lang@);
    if lang_before(a, b) && lang_before(b, c) && a.lines == b.lines && b.lines == c.lines {
        lemma_seq_lt_transitive(a.lang@, b.lang@, c.lang@);
    }
}

/// Whether `a` goes before `b` in a language summary.
fn lang_before_exec(a: &LangCount, b: &LangCount) -> (r: bool)
    ensures
        r == lang_before(*a, *b),
{
    a.lines > b.lines || (a.lines == b.lines && text_lt(a.lang, b.lang))
}

/// Whether the total of each language fits in a `u64`.
pub open spec fn totals_fit(files: Seq<(&'static str, u64)>) -> bool {
    forall|j: int| 0 <= j < files.len() ==> lang_total(files, (#[trigger] files[j]).0@) <= u64::MAX
}

/// `acc` holds one entry per language of `files`, with its total.
pub open spec fn totals_of(files: Seq<(&'static str, u64)>, acc: Seq<LangCount>) -> bool {
    &&& forall|k: int|
        0 <= k < acc.len() ==> (#[trigger] acc[k]).lines == lang_total(files, acc[k].lang@)
    &&& forall|k: int| 0 <= k < acc.len() ==> in_files(files, (#[trigger] acc[k]).lang@)
    &&& forall|j: int| 0 <= j < files.len() ==> in_summary(acc, (#[trigger] files[j]).0@)
    &&& forall|k1: int, k2: int| 0 <= k1 < k2 < acc.len() ==> acc[k1].lang@ != acc[k2].lang@
}

/// Sum per language, in the order in which languages first occur; `None` when a
/// total does not fit in a `u64`.
#[verifier::rlimit(40)]
fn accumulate_totals(files: &[(&'static str, u64)]) -> (r: Option<Vec<LangCount>>)
    ensures
        r is None <==> !totals_fit(files@),
        r matches Some(acc) ==> totals_of(files@, acc@),
{
    let mut acc: Vec<LangCount> = Vec::new();
    let mut i: usize = 0;
    while i < files.len()
        invariant
            i <= files@.len(),
            forall|k: int|
                0 <= k < acc@.len() ==> (#[trigger] acc@[k]).lines == lang_total(
                    files@.take(i as int),
                    acc@[k].lang@,
                ),
            forall|k: int|
                0 <= k < acc@.len() ==> in_files(files@.take(i as int), (#[trigger] acc@[k]).lang@),
            forall|j: int| 0 <= j < i ==> in_summary(acc@, (#[trigger] files@[j]).0@),
            forall|k1: int, k2: int|
                0 <= k1 < k2 < acc@.len() ==> acc@[k1].lang@ != acc@[k2].lang@,
        decreases files@.len() - i,
    {
        let (lang, n) = files[i];
        let ghost pre = files@.take(i as int);
        let ghost post = files@.take(i + 1);
        assert(post.drop_last() =~= pre);
        assert(post.last() == files@[i as int]);
        assert forall|l: Seq<char>| in_files(pre, l) implies in_files(post, l) by {
            let j = choose|j: int| 0 <= j < pre.len() && (#[trigger] pre[j]).0@ == l;
            assert(post[j] == pre[j]);
        }
        assert(in_files(post, lang@)) by {
            assert(post[i as int].0@ == lang@);
        }
        let mut k: usize = 0;
        while k < acc.len() && !text_eq(acc[k].lang, lang)
            invariant
                k <= acc@.len(),
                forall|q: int| 0 <= q < k ==> acc@[q].lang@ != lang@,
            decreases acc@.len() - k,
        {
            k = k + 1;
        }
        proof {
            lemma_lang_total_prefix(files@, lang@, i + 1);
        }
        let ghost before = acc@;
        if k < acc.len() {
            let old_lc = acc[k].lang;
            let total = match acc[k].lines.checked_add(n) {
                Some(t) => t,
                None => {
                    proof {
                        assert(lang_total(post, lang@) > u64::MAX);
                        assert(files@[i as int].0@ == lang@);
                    }
                    return None;
                },
            };
            acc.set(k, LangCount { lang: old_lc, lines: total });
            assert forall|q: int| 0 <= q < acc@.len() implies #[trigger] acc@[q] == (if q == k {
                LangCount { lang: old_lc, lines: total }
            } else {
                before[q]
            }) by {}
        } else {
            proof {
                assert forall|j: int| 0 <= j < pre.len() implies (#[trigger] pre[j]).0@ != lang@ by {
                    assert(pre[j] == files@[j]);
                    if files@[j].0@ == lang@ {
                        assert(in_summary(acc@, files@[j].0@));
                    }
                }
                lemma_lang_total_absent(pre, lang@);
            }
            acc.push(LangCount { lang, lines: n });
            assert forall|q: int| 0 <= q < acc@.len() implies #[trigger] acc@[q] == (if q
                == before.len() {
                LangCount { lang, lines: n }
            } else {
                before[q]
            }) by {}
        }
        assert forall|q: int| 0 <= q < acc@.len() implies (#[trigger] acc@[q]).lines
            == lang_total(post, acc@[q].lang@) && in_files(post, acc@[q].lang@) by {
            if q < before.len() {
                assert(in_files(pre, before[q].lang@));
            }
        }
        assert forall|j: int| 0 <= j < i + 1 implies in_summary(acc@, (#[trigger] files@[j]).0@) by {
            if j == i {
                assert(acc@[k as int].lang@ == files@[j].0@);
            } else {
                assert(in_summary(before, files@[j].0@));
                let q = choose|q: int| 0 <= q < before.len() && (#[trigger] before[q]).lang@
                    == files@[j].0@;
                assert(acc@[q].lang@ == files@[j].0@);
            }
        }
        i = i + 1;
    }
    assert(files@.take(files@.len() as int) =~= files@);
    proof {
        assert forall|j: int| 0 <= j < files@.len() implies lang_total(
            files@,
            (#[trigger] files@[j]).0@,
        ) <= u64::MAX by {
            assert(in_summary(acc@, files@[j].0@));
            let k = choose|k: int| 0 <= k < acc@.len() && (#[trigger] acc@[k]).lang@ == files@[j].0@;
            assert(acc@[k].lines == lang_total(files@, acc@[k].lang@));
        }
    }
    Some(acc)
}

/// Whether the entries of `s` are in summary order.
pub open spec fn ranked(s: Seq<LangCount>) -> bool {
    forall|a: int, b: int| 0 <= a < b < s.len() ==> lang_before(s[a], s[b])
}

/// Inserts `e` into the ranked `out` at its place.
#[verifier::rlimit(40)]
fn insert_ranked(out: &mut Vec<LangCount>, e: LangCount)
    requires
        ranked(old(out)@),
        forall|o: int| 0 <= o < old(out)@.len() ==> (#[trigger] old(out)@[o]).lang@ != e.lang@,
    ensures
        ranked(final(out)@),
        final(out)@.len() == old(out)@.len() + 1,
        forall|x: LangCount| #[trigger] final(out)@.contains(x) <==> (old(out)@.contains(x) || x == e),
{
    let mut pos: usize = 0;
    while pos < out.len() && !lang_before_exec(&e, &out[pos])
        invariant
            pos <= out@.len(),
            forall|q: int| 0 <= q < pos ==> !lang_before(e, #[trigger] out@[q]),
        decreases out@.len() - pos,
    {
        pos = pos + 1;
    }
    let ghost before = out@;
    proof {
        assert forall|q: int| 0 <= q < pos implies lang_before(#[trigger] before[q], e) by {
            lemma_lang_before_order(before[q], e, e);
        }
        before.insert_ensures(pos as int, e);
    }
    out.insert(pos, e);
    proof {
        assert forall|i: int| 0 <= i < out@.len() implies #[trigger] out@[i] == (if i < pos {
            before[i]
        } else if i == pos {
            e
        } else {
            before[i - 1]
        }) by {
            if i > pos {
                assert(out@[(i - 1) + 1] == before[i - 1]);
            }
        }
        assert forall|a: int, b: int| 0 <= a < b < out@.len() implies lang_before(
            out@[a],
            out@[b],
        ) by {
            let x = out@[a];
            let y = out@[b];
            if b < pos {
                assert(x == before[a] && y == before[b]);
            } else if b == pos {
                assert(x == before[a]);
            } else if a < pos {
                assert(x == before[a] && y == before[b - 1]);
                assert(lang_before(before[a], before[b - 1]));
            } else if a == pos {
                assert(y == before[b - 1]);
                assert(lang_before(e, before[pos as int]));
                if b - 1 > pos {
                    assert(lang_before(before[pos as int], before[b - 1]));
                    lemma_lang_before_order(e, before[pos as int], before[b - 1]);
                }
            } else {
                assert(x == before[a - 1] && y == before[b - 1]);
                assert(lang_before(before[a - 1], before[b - 1]));
            }
        }
        assert forall|x: LangCount| #[trigger] out@.contains(x) <==> (before.contains(x) || x == e) by {
            if out@.contains(x) {
                let o = choose|o: int| 0 <= o < out@.len() && out@[o] == x;
                if o < pos {
                    assert(before[o] == x);
                } else if o > pos {
                    assert(before[o - 1] == x);
                }
            }
            if before.contains(x) {
                let o = choose|o: int| 0 <= o < before.len() && before[o] == x;
                if o < pos {
                    assert(out@[o] == x);
                } else {
                    assert(out@[o + 1] == x);
                }
            }
            if x == e {
                assert(out@[pos as int] == x);
            }
        }
    }
}

/// The language summary of a repository from the `(language, lines)` of each of its
/// files: one entry per language with its total, most lines first, then by name;
/// `None` when a total does not fit in a `u64`.
#[verifier::rlimit(40)]
pub fn language_totals(files: &[(&'static str, u64)]) -> (r: Option<Vec<LangCount>>)
    ensures
        r is None <==> !totals_fit(files@),
        r matches Some(v) ==> totals_of(files@, v@) && ranked(v@),
{
    let acc = match accumulate_totals(files) {
        Some(a) => a,
        None => return None,
    };
    let mut out: Vec<LangCount> = Vec::new();
    let mut t: usize = 0;
    while t < acc.len()
        invariant
            t <= acc@.len(),
            forall|k1: int, k2: int|
                0 <= k1 < k2 < acc@.len() ==> acc@[k1].lang@ != acc@[k2].lang@,
            forall|o: int| 0 <= o < out@.len() ==> acc@.take(t as int).contains(#[trigger] out@[o]),
            forall|k: int| 0 <= k < t ==> out@.contains(#[trigger] acc@[k]),
            ranked(out@),
        decreases acc@.len() - t,
    {
        let e = LangCount { lang: acc[t].lang, lines: acc[t].lines };
        assert(e == acc@[t as int]);
        proof {
            assert forall|o: int| 0 <= o < out@.len() implies (#[trigger] out@[o]).lang@ != e.lang@ by {
                assert(acc@.take(t as int).contains(out@[o]));
                let k = choose|k: int| 0 <= k < t && acc@.take(t as int)[k] == out@[o];
                assert(acc@[k] == out@[o]);
            }
        }
        let ghost before = out@;
        insert_ranked(&mut out, e);
        proof {
            assert forall|o: int| 0 <= o < out@.len() implies acc@.take(t + 1).contains(
                #[trigger] out@[o],
            ) by {
                assert(out@.contains(out@[o]));
                if out@[o] == e {
                    assert(acc@.take(t + 1)[t as int] == e);
                } else {
                    let q = choose|q: int| 0 <= q < before.len() && before[q] == out@[o];
                    assert(acc@.take(t as int).contains(before[q]));
                    let k = choose|k: int| 0 <= k < t && acc@.take(t as int)[k] == before[q];
                    assert(acc@.take(t + 1)[k] == out@[o]);
                }
            }
            assert forall|k: int| 0 <= k < t + 1 implies out@.contains(#[trigger] acc@[k]) by {
                if k < t {
                    assert(before.contains(acc@[k]));
                }
            }
        }
        t = t + 1;
    }
    proof {
        assert(acc@.take(acc@.len() as int) =~= acc@);
        assert forall|i: int| 0 <= i < out@.len() implies (#[trigger] out@[i]).lines == lang_total(
            files@,
            out@[i].lang@,
        ) by {
            assert(acc@.contains(out@[i]));
            let k = choose|k: int| 0 <= k < acc@.len() && acc@[k] == out@[i];
            assert(acc@[k].lines == lang_total(files@, acc@[k].lang@));
        }
        assert forall|i: int| 0 <= i < out@.len() implies in_files(
            files@,
            (#[trigger] out@[i]).lang@,
        ) by {
            assert(acc@.contains(out@[i]));
            let k = choose|k: int| 0 <= k < acc@.len() && acc@[k] == out@[i];
            assert(in_files(files@, acc@[k].lang@));
        }
        assert forall|j: int| 0 <= j < files@.len() implies in_summary(
            out@,
            (#[trigger] files@[j]).0@,
        ) by {
            assert(in_summary(acc@, files@[j].0@));
            let k = choose|k: int| 0 <= k < acc@.len() && (#[trigger] acc@[k]).lang@ == files@[j].0@;
            assert(out@.contains(acc@[k]));
            let i = choose|i: int| 0 <= i < out@.len() && out@[i] == acc@[k];
            assert(out@[i].lang@ == files@[j].0@);
        }
        assert forall|k1: int, k2: int| 0 <= k1 < k2 < out@.len() implies out@[k1].lang@
            != out@[k2].lang@ by {
            lemma_lang_before_order(out@[k1], out@[k2], out@[k2]);
            if out@[k1].lang@ == out@[k2].lang@ {
                lemma_seq_lt_irreflexive(out@[k1].lang@);
            }
        }
    }
    Some(out)
}

/// One entry of a language summary: "Rust:12.3k".
pub open spec fn lang_item(l: LangCount) -> Seq<char> {
    l.lang@ + seq![':'] + human_spec(l.lines as nat)
}

/// The entries of `s`, separated by single spaces.
pub open spec fn join_items(s: Seq<LangCount>) -> Seq<char>
    decreases s.len(),
{
    if s.len() == 0 {
        Seq::empty()
    } else if s.len() == 1 {
        lang_item(s[0])
    } else {
        join_items(s.drop_last()) + seq![' '] + lang_item(s.last())
    }
}

/// What `summarize_langs` prints: "-" for no language, else the first three
/// entries (or fewer) separated by spaces.
pub open spec fn summary_spec(langs: Seq<LangCount>) -> Seq<char> {
    if langs.len() == 0 {
        seq!['-']
    } else if langs.len() < 3 {
        join_items(langs)
    } else {
        join_items(langs.take(3))
    }
}

/// "Rust:12.3k C++:4.1k" style summary, top 3 languages.
pub fn summarize_langs(langs: &[LangCount]) -> (r: String)
    ensures
        r@ == summary_spec(langs@),
{
    let mut out = String::new();
    if langs.len() == 0 {
        out.push('-');
        assert(out@ =~= seq!['-']);
        return out;
    }
    let n: usize = if langs.len() < 3 {
        langs.len()
    } else {
        3
    };
    let mut i: usize = 0;
    assert(langs@.take(0) =~= Seq::<LangCount>::empty());
    while i < n
        invariant
            n <= langs@.len(),
            i <= n,
            out@ == join_items(langs@.take(i as int)),
        decreases n - i,
    {
        let ghost prev = out@;
        if i > 0 {
            out.push(' ');
        }
        push_str(&mut out, langs[i].lang);
        out.push(':');
        let h = human_lines(langs[i].lines);
        push_str(&mut out, h.as_str());
        let ghost t = langs@.take(i + 1);
        assert(t.drop_last() =~= langs@.take(i as int));
        assert(t.last() == langs@[i as int]);
        if i == 0 {
            assert(out@ =~= lang_item(langs@[0]));
        } else {
            assert(out@ =~= prev + seq![' '] + lang_item(langs@[i as int]));
        }
        i = i + 1;
    }
    if langs.len() < 3 {
        assert(langs@.take(n as int) =~= langs@);
    }
    out
}

} // verus!
