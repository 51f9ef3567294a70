//! The three outputs of a scan: the terminal table, the line records for scripts,
//! and the Markdown report.
use vstd::prelude::*;
use crate::langs::{LangCount, join_items, lang_item, summarize_langs, summary_spec};
use crate::human::{human_spec, one_decimal};
use crate::markers::MarkerCounts;
use crate::repo::RepoInfo;
use vstd::utf8::encode_utf8;
use crate::text::{
    all_digits, digit_char, digits_value, is_digit, lemma_dec_digits, lemma_digit_char,
    chars_of, dec, dec_signed, pad_right, push_i64, push_padded, push_repeat, push_str, push_u64,
    repeat_char, trim_end, trimmed_end,
};

verus! {

/// Tag that opens each line record; it changes when fields change other than by
/// being appended at the end.
pub const FORMAT_VERSION: &'static str = "neondeck/v1";

/// What `truncate` gives: `s` itself when it has at most `max` characters, else its
/// first `max - 1` characters (none when `max` is 0) and an ellipsis.
pub open spec fn truncate_spec(s: Seq<char>, max: nat) -> Seq<char> {
    if s.len() <= max {
        s
    } else if max == 0 {
        seq!['\u{2026}']
    } else {
        s.take(max - 1) + seq!['\u{2026}']
    }
}

/// Cuts `s` to at most `max` characters, marking a cut with "…".
pub fn truncate(s: &str, max: usize) -> (r: String)
    ensures
        r@ == truncate_spec(s@, max as nat),
{
    let v = chars_of(s);
    let mut out = String::new();
    if v.len() <= max {
        push_str(&mut out, s);
        return out;
    }
    let keep: usize = if max == 0 {
        0
    } else {
        max - 1
    };
    let mut i: usize = 0;
    while i < keep
        invariant
            keep < v@.len(),
            i <= keep,
            out@ == v@.take(i as int),
        decreases keep - i,
    {
        out.push(v[i]);
        assert(v@.take(i + 1) =~= v@.take(i as int).push(v@[i as int]));
        i = i + 1;
    }
    out.push('\u{2026}');
    assert(max == 0 ==> out@ =~= seq!['\u{2026}']);
    out
}

/// A cut text has exactly `max` characters and ends with the ellipsis; a text that
/// is not cut is left as it is. (For `max == 0` the ellipsis alone is one character.)
pub proof fn lemma_truncate_fits(s: Seq<char>, max: nat)
    requires
        max >= 1,
    ensures
        truncate_spec(s, max).len() <= max,
        s.len() <= max ==> truncate_spec(s, max) == s,
        s.len() > max ==> truncate_spec(s, max).len() == max && truncate_spec(s, max).last()
            == '\u{2026}',
{
}

/// The escaped form of one character of a record field.
pub open spec fn escape_char(c: char) -> Seq<char> {
    if c == '\\' {
        seq!['\\', '\\']
    } else if c == '|' {
        seq!['\\', '|']
    } else if c == '\n' {
        seq!['\\', 'n']
    } else if c == '\r' {
        seq!['\\', 'r']
    } else {
        seq![c]
    }
}

/// A record field with backslash, pipe, line feed and carriage return escaped.
pub open spec fn escape_spec(s: Seq<char>) -> Seq<char>
    decreases s.len(),
{
    if s.len() == 0 {
        Seq::empty()
    } else {
        escape_char(s[0]) + escape_spec(s.drop_first())
    }
}

/// Escaping one more character appends its escaped form.
pub proof fn lemma_escape_push(s: Seq<char>, c: char)
    ensures
        escape_spec(s.push(c)) == escape_spec(s) + escape_char(c),
    decreases s.len(),
{
    if s.len() == 0 {
        assert(s.push(c).drop_first() =~= Seq::<char>::empty());
        assert(s.push(c)[0] == c);
        assert(escape_spec(Seq::<char>::empty()) == Seq::<char>::empty());
        assert(escape_spec(s.push(c)) =~= escape_char(c));
    } else {
        assert(s.push(c).drop_first() =~= s.drop_first().push(c));
        lemma_escape_push(s.drop_first(), c);
        assert(escape_spec(s.push(c)) =~= escape_spec(s) + escape_char(c));
    }
}

/// Keeps the line format single-line and pipe-safe.
pub fn escape_field(s: &str) -> (r: String)
    ensures
        r@ == escape_spec(s@),
{
    let v = chars_of(s);
    let mut out = String::new();
    let mut i: usize = 0;
    while i < v.len()
        invariant
            i <= v@.len(),
            out@ == escape_spec(v@.take(i as int)),
        decreases v@.len() - i,
    {
        let c = v[i];
        if c == '\\' {
            out.push('\\');
            out.push('\\');
        } else if c == '|' {
            out.push('\\');
            out.push('|');
        } else if c == '\n' {
            out.push('\\');
            out.push('n');
        } else if c == '\r' {
            out.push('\\');
            out.push('r');
        } else {
            out.push(c);
        }
        proof {
            assert(v@.take(i + 1) =~= v@.take(i as int).push(c));
            lemma_escape_push(v@.take(i as int), c);
        }
        i = i + 1;
    }
    assert(v@.take(v@.len() as int) =~= v@);
    out
}

/// Reads an escaped field back: a backslash and the character after it stand for
/// that character, `n` and `r` standing for line feed and carriage return.
pub open spec fn unescape_spec(s: Seq<char>) -> Seq<char>
    decreases s.len(),
{
    if s.len() == 0 {
        Seq::empty()
    } else if s[0] == '\\' && s.len() >= 2 {
        let c = if s[1] == 'n' {
            '\n'
        } else if s[1] == 'r' {
            '\r'
        } else {
            s[1]
        };
        seq![c] + unescape_spec(s.skip(2))
    } else {
        seq![s[0]] + unescape_spec(s.drop_first())
    }
}

/// Escaping loses nothing: the field is read back from its escaped form.
pub proof fn lemma_escape_roundtrip(s: Seq<char>)
    ensures
        unescape_spec(escape_spec(s)) == s,
    decreases s.len(),
{
    if s.len() > 0 {
        let e = escape_spec(s);
        let c = s[0];
        let rest = escape_spec(s.drop_first());
        lemma_escape_roundtrip(s.drop_first());
        assert(e == escape_char(c) + rest);
        if c == '\\' || c == '|' || c == '\n' || c == '\r' {
            assert(e.skip(2) =~= rest);
        } else {
            assert(e.drop_first() =~= rest);
        }
        assert(unescape_spec(e) =~= seq![c] + s.drop_first());
        assert(seq![c] + s.drop_first() =~= s);
    }
}

/// An escaped field holds no line feed and no carriage return.
pub proof fn lemma_escape_single_line(s: Seq<char>)
    ensures
        !escape_spec(s).contains('\n'),
        !escape_spec(s).contains('\r'),
    decreases s.len(),
{
    if s.len() > 0 {
        lemma_escape_single_line(s.drop_first());
        let e = escape_spec(s);
        let h = escape_char(s[0]);
        let rest = escape_spec(s.drop_first());
        assert(e == h + rest);
        assert forall|k: int| 0 <= k < e.len() implies e[k] != '\n' && e[k] != '\r' by {
            if k >= h.len() {
                assert(e[k] == rest[k - h.len()]);
            }
        }
    }
}

/// `true` or `false`, as `Display` writes a `bool`.
pub open spec fn bool_text(b: bool) -> Seq<char> {
    if b {
        "true"@
    } else {
        "false"@
    }
}

/// The marker counts of a repository, zero when they were not counted.
pub open spec fn marks_of(r: RepoInfo) -> MarkerCounts {
    match r.todos {
        Some(m) => m,
        None => MarkerCounts { todo: 0, fixme: 0, hack: 0 },
    }
}

/// One language of a record: "Rust:12345".
pub open spec fn csv_item(l: LangCount) -> Seq<char> {
    l.lang@ + seq![':'] + dec(l.lines as nat)
}

/// The languages of a record, separated by commas.
pub open spec fn lang_csv(s: Seq<LangCount>) -> Seq<char>
    decreases s.len(),
{
    if s.len() == 0 {
        Seq::empty()
    } else if s.len() == 1 {
        csv_item(s[0])
    } else {
        lang_csv(s.drop_last()) + seq![','] + csv_item(s.last())
    }
}

/// The fields of a repository's record, in order.
pub open spec fn record_fields(r: RepoInfo) -> Seq<Seq<char>> {
    let m = marks_of(r);
    seq![
        FORMAT_VERSION@,
        escape_spec(r.name@),
        escape_spec(r.path@),
        escape_spec(r.branch@),
        dec_signed(r.last_commit_epoch as int),
        escape_spec(r.last_commit_date@),
        bool_text(r.dirty),
        dec(r.dirty_files as nat),
        dec(r.ahead as nat),
        dec(r.behind as nat),
        escape_spec(lang_csv(r.languages@)),
        dec(m.todo as nat),
        dec(m.fixme as nat),
        dec(m.hack as nat),
        escape_spec(r.last_commit_subject@),
    ]
}

/// The pieces `f` joined by the separator `sep`.
pub open spec fn join_with(f: Seq<Seq<char>>, sep: Seq<char>) -> Seq<char>
    decreases f.len(),
{
    if f.len() == 0 {
        Seq::empty()
    } else if f.len() == 1 {
        f[0]
    } else {
        join_with(f.drop_last(), sep) + sep + f.last()
    }
}

/// The views of a list of strings.
pub open spec fn views(v: Seq<String>) -> Seq<Seq<char>> {
    v.map_values(|x: String| x@)
}

/// Appends `fields` joined by `sep`.
fn push_joined(out: &mut String, fields: &Vec<String>, sep: &str)
    ensures
        final(out)@ == old(out)@ + join_with(views(fields@), sep@),
{
    let mut i: usize = 0;
    assert(views(fields@.take(0)) =~= Seq::<Seq<char>>::empty());
    while i < fields.len()
        invariant
            i <= fields@.len(),
            out@ == old(out)@ + join_with(views(fields@.take(i as int)), sep@),
        decreases fields@.len() - i,
    {
        let ghost prev = out@;
        if i > 0 {
            push_str(out, sep);
        }
        push_str(out, fields[i].as_str());
        let ghost t = views(fields@.take(i + 1));
        assert(t.drop_last() =~= views(fields@.take(i as int)));
        assert(t.last() == fields@[i as int]@);
        if i == 0 {
            assert(out@ =~= old(out)@ + join_with(t, sep@));
        } else {
            assert(out@ =~= prev + sep@ + fields@[i as int]@);
        }
        i = i + 1;
    }
    assert(fields@.take(fields@.len() as int) =~= fields@);
}

/// A `String` holding the decimal digits of `n`.
fn dec_string(n: u64) -> (r: String)
    ensures
        r@ == dec(n as nat),
{
    let mut r = String::new();
    push_u64(&mut r, n);
    r
}

/// A repository's record: its fields joined by `|`, then a line feed.
pub open spec fn record(r: RepoInfo) -> Seq<char> {
    join_with(record_fields(r), seq!['|']) + seq!['\n']
}

/// The records of all repositories, in order.
pub open spec fn records(rs: Seq<RepoInfo>) -> Seq<char>
    decreases rs.len(),
{
    if rs.len() == 0 {
        Seq::empty()
    } else {
        records(rs.drop_last()) + record(rs.last())
    }
}

/// Appends the languages of a record.
fn push_lang_csv(out: &mut String, langs: &Vec<LangCount>)
    ensures
        final(out)@ == old(out)@ + lang_csv(langs@),
{
    let mut i: usize = 0;
    assert(langs@.take(0) =~= Seq::<LangCount>::empty());
    while i < langs.len()
        invariant
            i <= langs@.len(),
            out@ == old(out)@ + lang_csv(langs@.take(i as int)),
        decreases langs@.len() - i,
    {
        let ghost prev = out@;
        if i > 0 {
            out.push(',');
        }
        push_str(out, langs[i].lang);
        out.push(':');
        push_u64(out, langs[i].lines);
        let ghost t = langs@.take(i + 1);
        assert(t.drop_last() =~= langs@.take(i as int));
        assert(t.last() == langs@[i as int]);
        if i == 0 {
            assert(lang_csv(langs@.take(0)) =~= Seq::<char>::empty());
            assert(out@ =~= old(out)@ + csv_item(langs@[0]));
        } else {
            assert(out@ =~= prev + seq![','] + csv_item(langs@[i as int]));
        }
        i = i + 1;
    }
    assert(langs@.take(langs@.len() as int) =~= langs@);
}

/// The fields of one repository's record.
fn record_field_strings(r: &RepoInfo) -> (v: Vec<String>)
    ensures
        views(v@) == record_fields(*r),
{
    let m = match r.todos {
        Some(m) => m,
        None => MarkerCounts::default(),
    };
    let mut v: Vec<String> = Vec::new();
    let mut version = String::new();
    push_str(&mut version, FORMAT_VERSION);
    v.push(version);
    v.push(escape_field(r.name.as_str()));
    v.push(escape_field(r.path.as_str()));
    v.push(escape_field(r.branch.as_str()));
    let mut epoch = String::new();
    push_i64(&mut epoch, r.last_commit_epoch);
    v.push(epoch);
    v.push(escape_field(r.last_commit_date.as_str()));
    let mut dirty = String::new();
    if r.dirty {
        push_str(&mut dirty, "true");
    } else {
        push_str(&mut dirty, "false");
    }
    v.push(dirty);
    v.push(dec_string(r.dirty_files as u64));
    v.push(dec_string(r.ahead as u64));
    v.push(dec_string(r.behind as u64));
    let mut langs = String::new();
    push_lang_csv(&mut langs, &r.languages);
    v.push(escape_field(langs.as_str()));
    v.push(dec_string(m.todo as u64));
    v.push(dec_string(m.fixme as u64));
    v.push(dec_string(m.hack as u64));
    v.push(escape_field(r.last_commit_subject.as_str()));
    assert(m == marks_of(*r));
    assert(views(v@) =~= record_fields(*r));
    v
}

/// Appends one repository's record.
fn push_record(out: &mut String, r: &RepoInfo)
    ensures
        final(out)@ == old(out)@ + record(*r),
{
    let fields = record_field_strings(r);
    push_joined(out, &fields, "|");
    proof {
        reveal_strlit("|");
        assert("|"@ =~= seq!['|']);
    }
    out.push('\n');
    assert(out@ =~= old(out)@ + record(*r));
}

/// Versioned line-oriented format, one record per repo:
/// `neondeck/v1|name|path|branch|epoch|date|dirty|dirty_files|ahead|behind|langs|todos|fixmes|hacks|subject`
/// Fields are only ever appended at the end; bump FORMAT_VERSION otherwise.
pub fn render_lines(repos: &[RepoInfo]) -> (r: String)
    ensures
        r@ == records(repos@),
{
    let mut s = String::new();
    let mut i: usize = 0;
    assert(repos@.take(0) =~= Seq::<RepoInfo>::empty());
    while i < repos.len()
        invariant
            i <= repos@.len(),
            s@ == records(repos@.take(i as int)),
        decreases repos@.len() - i,
    {
        push_record(&mut s, &repos[i]);
        let ghost t = repos@.take(i + 1);
        assert(t.drop_last() =~= repos@.take(i as int));
        i = i + 1;
    }
    assert(repos@.take(repos@.len() as int) =~= repos@);
    s
}

/// Length in bytes of the UTF-8 encoding of `s`, as `str::len` returns it.
pub open spec fn byte_len(s: Seq<char>) -> nat {
    (encode_utf8(s).len() as usize) as nat
}

/// The longest name of `rs`, in bytes (0 when there is none).
pub open spec fn max_name_bytes(rs: Seq<RepoInfo>) -> nat
    decreases rs.len(),
{
    if rs.len() == 0 {
        0
    } else {
        let m = max_name_bytes(rs.drop_last());
        let b = byte_len(rs.last().name@);
        if b > m {
            b
        } else {
            m
        }
    }
}

/// The longest branch of `rs`, in bytes (0 when there is none).
pub open spec fn max_branch_bytes(rs: Seq<RepoInfo>) -> nat
    decreases rs.len(),
{
    if rs.len() == 0 {
        0
    } else {
        let m = max_branch_bytes(rs.drop_last());
        let b = byte_len(rs.last().branch@);
        if b > m {
            b
        } else {
            m
        }
    }
}

/// `a`, or `floor` when `a` is smaller.
pub open spec fn at_least(a: nat, floor: nat) -> nat {
    if a > floor {
        a
    } else {
        floor
    }
}

/// Width of the repository column: the longest name in bytes, 4 at least.
pub open spec fn name_width(rs: Seq<RepoInfo>) -> nat {
    at_least(max_name_bytes(rs), 4)
}

/// Width of the branch column: the longest branch in bytes, 6 at least.
pub open spec fn branch_width(rs: Seq<RepoInfo>) -> nat {
    at_least(max_branch_bytes(rs), 6)
}

proof fn lemma_max_name_bytes(rs: Seq<RepoInfo>)
    ensures
        forall|k: int| 0 <= k < rs.len() ==> byte_len(#[trigger] rs[k].name@) <= max_name_bytes(rs),
        max_name_bytes(rs) == 0 || exists|k: int|
            0 <= k < rs.len() && byte_len(#[trigger] rs[k].name@) == max_name_bytes(rs),
    decreases rs.len(),
{
    if rs.len() > 0 {
        let d = rs.drop_last();
        lemma_max_name_bytes(d);
        assert forall|k: int| 0 <= k < rs.len() implies byte_len(#[trigger] rs[k].name@)
            <= max_name_bytes(rs) by {
            if k < rs.len() - 1 {
                assert(rs[k] == d[k]);
            }
        }
        if max_name_bytes(rs) != 0 && max_name_bytes(rs) == max_name_bytes(d) {
            let k = choose|k: int| 0 <= k < d.len() && byte_len(#[trigger] d[k].name@)
                == max_name_bytes(d);
            assert(rs[k] == d[k]);
        }
        if max_name_bytes(rs) != max_name_bytes(d) {
            assert(byte_len(rs[rs.len() - 1].name@) == max_name_bytes(rs));
        }
    }
}

proof fn lemma_max_branch_bytes(rs: Seq<RepoInfo>)
    ensures
        forall|k: int|
            0 <= k < rs.len() ==> byte_len(#[trigger] rs[k].branch@) <= max_branch_bytes(rs),
        max_branch_bytes(rs) == 0 || exists|k: int|
            0 <= k < rs.len() && byte_len(#[trigger] rs[k].branch@) == max_branch_bytes(rs),
    decreases rs.len(),
{
    if rs.len() > 0 {
        let d = rs.drop_last();
        lemma_max_branch_bytes(d);
        assert forall|k: int| 0 <= k < rs.len() implies byte_len(#[trigger] rs[k].branch@)
            <= max_branch_bytes(rs) by {
            if k < rs.len() - 1 {
                assert(rs[k] == d[k]);
            }
        }
        if max_branch_bytes(rs) != 0 && max_branch_bytes(rs) == max_branch_bytes(d) {
            let k = choose|k: int| 0 <= k < d.len() && byte_len(#[trigger] d[k].branch@)
                == max_branch_bytes(d);
            assert(rs[k] == d[k]);
        }
        if max_branch_bytes(rs) != max_branch_bytes(d) {
            assert(byte_len(rs[rs.len() - 1].branch@) == max_branch_bytes(rs));
        }
    }
}

/// The table's first two columns are as wide as their longest entry in bytes: the
/// repository column as the longest name (4 at least, for "REPO"), the branch
/// column as the longest branch (6 at least, for "BRANCH"), so every name and
/// branch fits in its column.
pub proof fn lemma_column_widths(rs: Seq<RepoInfo>)
    ensures
        name_width(rs) >= 4,
        forall|k: int| 0 <= k < rs.len() ==> byte_len(#[trigger] rs[k].name@) <= name_width(rs),
        name_width(rs) == 4 || exists|k: int|
            0 <= k < rs.len() && byte_len(#[trigger] rs[k].name@) == name_width(rs),
        branch_width(rs) >= 6,
        forall|k: int|
            0 <= k < rs.len() ==> byte_len(#[trigger] rs[k].branch@) <= branch_width(rs),
        branch_width(rs) == 6 || exists|k: int|
            0 <= k < rs.len() && byte_len(#[trigger] rs[k].branch@) == branch_width(rs),
{
    lemma_max_name_bytes(rs);
    lemma_max_branch_bytes(rs);
}

/// The dirty column: "+N" changed files, or "clean".
pub open spec fn dirty_text(r: RepoInfo) -> Seq<char> {
    if r.dirty {
        seq!['+'] + dec(r.dirty_files as nat)
    } else {
        "clean"@
    }
}

/// The ahead/behind column of the table: "+A/-B" when there is an upstream, else "-".
pub open spec fn ahead_text(r: RepoInfo) -> Seq<char> {
    match r.upstream {
        Some(_) => seq!['+'] + dec(r.ahead as nat) + seq!['/', '-'] + dec(r.behind as nat),
        None => seq!['-'],
    }
}

/// The marker column: "T/F/H" counts.
pub open spec fn marker_text(r: RepoInfo) -> Seq<char> {
    let m = marks_of(r);
    dec(m.todo as nat) + seq!['/'] + dec(m.fixme as nat) + seq!['/'] + dec(m.hack as nat)
}

/// The cells of the table's header line.
pub open spec fn header_cells(todos: bool, nw: nat, bw: nat) -> Seq<Seq<char>> {
    seq![
        pad_right("REPO"@, nw),
        pad_right("BRANCH"@, bw),
        pad_right("COMMIT"@, 10),
        pad_right("DIRTY"@, 5),
        pad_right("AHEAD/UP"@, 9),
        pad_right("LANGS"@, 11),
    ] + if todos {
        seq![pad_right("T/F/H"@, 9)]
    } else {
        Seq::empty()
    } + seq!["LAST COMMIT"@]
}

/// The cells of one repository's line of the table.
pub open spec fn row_cells(r: RepoInfo, todos: bool, nw: nat, bw: nat) -> Seq<Seq<char>> {
    seq![
        pad_right(r.name@, nw),
        pad_right(r.branch@, bw),
        pad_right(r.last_commit_date@, 10),
        pad_right(dirty_text(r), 5),
        pad_right(ahead_text(r), 9),
        pad_right(summary_spec(r.languages@), 11),
    ] + if todos {
        seq![pad_right(marker_text(r), 9)]
    } else {
        Seq::empty()
    } + seq![truncate_spec(r.last_commit_subject@, 48)]
}

/// Cells separated by two spaces, then a line feed.
pub open spec fn table_line(cells: Seq<Seq<char>>) -> Seq<char> {
    join_with(cells, seq![' ', ' ']) + seq!['\n']
}

/// The table lines of all repositories, in order.
pub open spec fn table_rows(rs: Seq<RepoInfo>, todos: bool, nw: nat, bw: nat) -> Seq<char>
    decreases rs.len(),
{
    if rs.len() == 0 {
        Seq::empty()
    } else {
        table_rows(rs.drop_last(), todos, nw, bw) + table_line(row_cells(rs.last(), todos, nw, bw))
    }
}

/// What `render_table` prints: the header, a rule of dashes as long as the header
/// in bytes (40 at least), one line per repository, and the count.
pub open spec fn table_spec(rs: Seq<RepoInfo>, todos: bool) -> Seq<char> {
    let nw = name_width(rs);
    let bw = branch_width(rs);
    let header = table_line(header_cells(todos, nw, bw));
    header + repeat_char('-', at_least(byte_len(trim_end(header)), 40)) + seq!['\n']
        + table_rows(rs, todos, nw, bw) + seq!['\n'] + dec(rs.len()) + " repositories\n"@
}

/// A `String` holding `s`.
fn owned(s: &str) -> (r: String)
    ensures
        r@ == s@,
{
    let mut r = String::new();
    push_str(&mut r, s);
    r
}

/// A `String` holding `s` padded on the right to `w` characters.
fn padded(s: &str, w: usize) -> (r: String)
    ensures
        r@ == pad_right(s@, w as nat),
{
    let mut r = String::new();
    push_padded(&mut r, s, w);
    r
}

fn dirty_string(r: &RepoInfo) -> (t: String)
    ensures
        t@ == dirty_text(*r),
{
    let mut t = String::new();
    if r.dirty {
        t.push('+');
        push_u64(&mut t, r.dirty_files as u64);
    } else {
        push_str(&mut t, "clean");
    }
    t
}

fn ahead_string(r: &RepoInfo) -> (t: String)
    ensures
        t@ == ahead_text(*r),
{
    let mut t = String::new();
    match &r.upstream {
        Some(_) => {
            t.push('+');
            push_u64(&mut t, r.ahead as u64);
            t.push('/');
            t.push('-');
            push_u64(&mut t, r.behind as u64);
        },
        None => {
            t.push('-');
        },
    }
    assert(t@ =~= ahead_text(*r));
    t
}

fn marker_string(r: &RepoInfo) -> (t: String)
    ensures
        t@ == marker_text(*r),
{
    let m = match r.todos {
        Some(m) => m,
        None => MarkerCounts::default(),
    };
    let mut t = String::new();
    push_u64(&mut t, m.todo as u64);
    t.push('/');
    push_u64(&mut t, m.fixme as u64);
    t.push('/');
    push_u64(&mut t, m.hack as u64);
    assert(m == marks_of(*r));
    assert(t@ =~= marker_text(*r));
    t
}

/// Appends cells separated by two spaces, then a line feed.
fn push_table_line(out: &mut String, cells: &Vec<String>)
    ensures
        final(out)@ == old(out)@ + table_line(views(cells@)),
{
    push_joined(out, cells, "  ");
    proof {
        reveal_strlit("  ");
        assert("  "@ =~= seq![' ', ' ']);
    }
    out.push('\n');
    assert(out@ =~= old(out)@ + table_line(views(cells@)));
}

fn header_strings(todos: bool, nw: usize, bw: usize) -> (v: Vec<String>)
    ensures
        views(v@) == header_cells(todos, nw as nat, bw as nat),
{
    let mut v: Vec<String> = Vec::new();
    v.push(padded("REPO", nw));
    v.push(padded("BRANCH", bw));
    v.push(padded("COMMIT", 10));
    v.push(padded("DIRTY", 5));
    v.push(padded("AHEAD/UP", 9));
    v.push(padded("LANGS", 11));
    if todos {
        v.push(padded("T/F/H", 9));
    }
    v.push(owned("LAST COMMIT"));
    assert(views(v@) =~= header_cells(todos, nw as nat, bw as nat));
    v
}

fn row_strings(r: &RepoInfo, todos: bool, nw: usize, bw: usize) -> (v: Vec<String>)
    ensures
        views(v@) == row_cells(*r, todos, nw as nat, bw as nat),
{
    let mut v: Vec<String> = Vec::new();
    v.push(padded(r.name.as_str(), nw));
    v.push(padded(r.branch.as_str(), bw));
    v.push(padded(r.last_commit_date.as_str(), 10));
    let d = dirty_string(r);
    v.push(padded(d.as_str(), 5));
    let a = ahead_string(r);
    v.push(padded(a.as_str(), 9));
    let l = summarize_langs(r.languages.as_slice());
    v.push(padded(l.as_str(), 11));
    if todos {
        let m = marker_string(r);
        v.push(padded(m.as_str(), 9));
    }
    v.push(truncate(r.last_commit_subject.as_str(), 48));
    assert(views(v@) =~= row_cells(*r, todos, nw as nat, bw as nat));
    v
}

/// Widths of the name and branch columns.
fn column_widths(repos: &[RepoInfo]) -> (w: (usize, usize))
    ensures
        w.0 == name_width(repos@),
        w.1 == branch_width(repos@),
{
    let mut nw: usize = 0;
    let mut bw: usize = 0;
    let mut i: usize = 0;
    assert(repos@.take(0) =~= Seq::<RepoInfo>::empty());
    while i < repos.len()
        invariant
            i <= repos@.len(),
            nw == max_name_bytes(repos@.take(i as int)),
            bw == max_branch_bytes(repos@.take(i as int)),
        decreases repos@.len() - i,
    {
        let ghost t = repos@.take(i + 1);
        assert(t.drop_last() =~= repos@.take(i as int));
        assert(t.last() == repos@[i as int]);
        let a = repos[i].name.as_str().len();
        let b = repos[i].branch.as_str().len();
        if a > nw {
            nw = a;
        }
        if b > bw {
            bw = b;
        }
        i = i + 1;
    }
    assert(repos@.take(repos@.len() as int) =~= repos@);
    (if nw > 4 {
        nw
    } else {
        4
    }, if bw > 6 {
        bw
    } else {
        6
    })
}

/// The fleet as a terminal table.
pub fn render_table(repos: &[RepoInfo], todos: bool) -> (r: String)
    ensures
        r@ == table_spec(repos@, todos),
{
    let (nw, bw) = column_widths(repos);
    let mut s = String::new();
    let hc = header_strings(todos, nw, bw);
    let mut header = String::new();
    push_table_line(&mut header, &hc);
    push_str(&mut s, header.as_str());
    let t = trimmed_end(header.as_str());
    let tl = t.as_str().len();
    let dashes: usize = if tl > 40 {
        tl
    } else {
        40
    };
    push_repeat(&mut s, '-', dashes);
    s.push('\n');
    let ghost top = s@;
    let mut i: usize = 0;
    assert(repos@.take(0) =~= Seq::<RepoInfo>::empty());
    while i < repos.len()
        invariant
            i <= repos@.len(),
            nw == name_width(repos@),
            bw == branch_width(repos@),
            s@ == top + table_rows(repos@.take(i as int), todos, nw as nat, bw as nat),
        decreases repos@.len() - i,
    {
        let cells = row_strings(&repos[i], todos, nw, bw);
        push_table_line(&mut s, &cells);
        let ghost t = repos@.take(i + 1);
        assert(t.drop_last() =~= repos@.take(i as int));
        assert(t.last() == repos@[i as int]);
        i = i + 1;
    }
    assert(repos@.take(repos@.len() as int) =~= repos@);
    s.push('\n');
    push_u64(&mut s, repos.len() as u64);
    push_str(&mut s, " repositories\n");
    s
}

/// A Markdown table cell: `s` with each `|` written `\|`.
pub open spec fn md_escape(s: Seq<char>) -> Seq<char>
    decreases s.len(),
{
    if s.len() == 0 {
        Seq::empty()
    } else {
        md_escape(s.drop_last()) + if s.last() == '|' {
            seq!['\\', '|']
        } else {
            seq![s.last()]
        }
    }
}

/// The ahead/behind cell of the report: "+A/-B (upstream)", or "-".
pub open spec fn md_ahead_text(r: RepoInfo) -> Seq<char> {
    match r.upstream {
        Some(u) => seq!['+'] + dec(r.ahead as nat) + seq!['/', '-'] + dec(r.behind as nat) + seq![
            ' ',
            '(',
        ] + u@ + seq![')'],
        None => seq!['-'],
    }
}

/// The cells of one repository's row of the report.
pub open spec fn md_cells(r: RepoInfo, todos: bool) -> Seq<Seq<char>> {
    seq![
        r.name@,
        r.branch@,
        r.last_commit_date@,
        dirty_text(r),
        md_ahead_text(r),
        summary_spec(r.languages@),
    ] + if todos {
        seq![marker_text(r)]
    } else {
        Seq::empty()
    } + seq![md_escape(r.last_commit_subject@)]
}

/// A Markdown table row: "| a | b | c |" and a line feed.
pub open spec fn md_row(cells: Seq<Seq<char>>) -> Seq<char> {
    seq!['|', ' '] + join_with(cells, seq![' ', '|', ' ']) + seq![' ', '|', '\n']
}

/// The report rows of all repositories, in order.
pub open spec fn md_rows(rs: Seq<RepoInfo>, todos: bool) -> Seq<char>
    decreases rs.len(),
{
    if rs.len() == 0 {
        Seq::empty()
    } else {
        md_rows(rs.drop_last(), todos) + md_row(md_cells(rs.last(), todos))
    }
}

/// The table head of the report.
pub open spec fn md_head(todos: bool) -> Seq<char> {
    if todos {
        "| Repository | Branch | Last Commit | Dirty | Ahead/Behind | Languages | T/F/H | Subject |\n"@
            + "|---|---|---|---|---|---|---|---|\n"@
    } else {
        "| Repository | Branch | Last Commit | Dirty | Ahead/Behind | Languages | Subject |\n"@
            + "|---|---|---|---|---|---|---|\n"@
    }
}

/// What `render_markdown` writes: title, scanned root, table, count and signature.
pub open spec fn markdown_spec(root: Seq<char>, rs: Seq<RepoInfo>, todos: bool) -> Seq<char> {
    "# Fleet Status\n\n"@ + "Scanned: `"@ + root + "`\n\n"@ + md_head(todos) + md_rows(rs, todos)
        + "\n**"@ + dec(rs.len()) + " repositories**\n"@ + "\n---\nMade by synth with synthclaw \u{1F3B9}\u{1F99E}\n"@
}

fn md_escape_string(s: &str) -> (r: String)
    ensures
        r@ == md_escape(s@),
{
    let v = chars_of(s);
    let mut out = String::new();
    let mut i: usize = 0;
    assert(v@.take(0) =~= Seq::<char>::empty());
    while i < v.len()
        invariant
            i <= v@.len(),
            out@ == md_escape(v@.take(i as int)),
        decreases v@.len() - i,
    {
        let c = v[i];
        if c == '|' {
            out.push('\\');
        }
        out.push(c);
        let ghost t = v@.take(i + 1);
        assert(t.drop_last() =~= v@.take(i as int));
        assert(t.last() == c);
        assert(out@ =~= md_escape(t));
        i = i + 1;
    }
    assert(v@.take(v@.len() as int) =~= v@);
    out
}

fn md_ahead_string(r: &RepoInfo) -> (t: String)
    ensures
        t@ == md_ahead_text(*r),
{
    let mut t = String::new();
    match &r.upstream {
        Some(u) => {
            t.push('+');
            push_u64(&mut t, r.ahead as u64);
            t.push('/');
            t.push('-');
            push_u64(&mut t, r.behind as u64);
            t.push(' ');
            t.push('(');
            push_str(&mut t, u.as_str());
            t.push(')');
        },
        None => {
            t.push('-');
        },
    }
    assert(t@ =~= md_ahead_text(*r));
    t
}

fn md_cell_strings(r: &RepoInfo, todos: bool) -> (v: Vec<String>)
    ensures
        views(v@) == md_cells(*r, todos),
{
    let mut v: Vec<String> = Vec::new();
    v.push(owned(r.name.as_str()));
    v.push(owned(r.branch.as_str()));
    v.push(owned(r.last_commit_date.as_str()));
    v.push(dirty_string(r));
    v.push(md_ahead_string(r));
    v.push(summarize_langs(r.languages.as_slice()));
    if todos {
        v.push(marker_string(r));
    }
    v.push(md_escape_string(r.last_commit_subject.as_str()));
    assert(views(v@) =~= md_cells(*r, todos));
    v
}

fn push_md_row(out: &mut String, cells: &Vec<String>)
    ensures
        final(out)@ == old(out)@ + md_row(views(cells@)),
{
    out.push('|');
    out.push(' ');
    push_joined(out, cells, " | ");
    proof {
        reveal_strlit(" | ");
        assert(" | "@ =~= seq![' ', '|', ' ']);
    }
    out.push(' ');
    out.push('|');
    out.push('\n');
    assert(out@ =~= old(out)@ + md_row(views(cells@)));
}

/// The fleet as a Markdown report, for the scanned directory `root` (as displayed).
pub fn render_markdown(root: &str, repos: &[RepoInfo], todos: bool) -> (r: String)
    ensures
        r@ == markdown_spec(root@, repos@, todos),
{
    let mut s = String::new();
    push_str(&mut s, "# Fleet Status\n\n");
    push_str(&mut s, "Scanned: `");
    push_str(&mut s, root);
    push_str(&mut s, "`\n\n");
    if todos {
        push_str(
            &mut s,
            "| Repository | Branch | Last Commit | Dirty | Ahead/Behind | Languages | T/F/H | Subject |\n",
        );
        push_str(&mut s, "|---|---|---|---|---|---|---|---|\n");
    } else {
        push_str(
            &mut s,
            "| Repository | Branch | Last Commit | Dirty | Ahead/Behind | Languages | Subject |\n",
        );
        push_str(&mut s, "|---|---|---|---|---|---|---|\n");
    }
    let ghost top = s@;
    let mut i: usize = 0;
    assert(repos@.take(0) =~= Seq::<RepoInfo>::empty());
    while i < repos.len()
        invariant
            i <= repos@.len(),
            s@ == top + md_rows(repos@.take(i as int), todos),
        decreases repos@.len() - i,
    {
        let cells = md_cell_strings(&repos[i], todos);
        push_md_row(&mut s, &cells);
        let ghost t = repos@.take(i + 1);
        assert(t.drop_last() =~= repos@.take(i as int));
        assert(t.last() == repos@[i as int]);
        i = i + 1;
    }
    assert(repos@.take(repos@.len() as int) =~= repos@);
    push_str(&mut s, "\n**");
    push_u64(&mut s, repos.len() as u64);
    push_str(&mut s, " repositories**\n");
    push_str(&mut s, "\n---\nMade by synth with synthclaw \u{1F3B9}\u{1F99E}\n");
    s
}

/// Position of the first `|` of `s` that no backslash escapes (`s.len()` when there
/// is none): a backslash and the character after it are read together.
pub open spec fn field_end(s: Seq<char>) -> nat
    decreases s.len(),
{
    if s.len() == 0 {
        0
    } else if s[0] == '|' {
        0
    } else if s[0] == '\\' && s.len() >= 2 {
        2 + field_end(s.skip(2))
    } else {
        1 + field_end(s.drop_first())
    }
}

/// `s` cut at each `|` that no backslash escapes.
pub open spec fn split_fields(s: Seq<char>) -> Seq<Seq<char>>
    decreases s.len(),
{
    let e = field_end(s);
    if e >= s.len() {
        seq![s]
    } else {
        seq![s.take(e as int)] + split_fields(s.skip(e as int + 1))
    }
}

/// `x` can stand as a field: each backslash is followed by a character, and each
/// `|` is escaped.
pub open spec fn field_safe(x: Seq<char>) -> bool
    decreases x.len(),
{
    if x.len() == 0 {
        true
    } else if x[0] == '|' {
        false
    } else if x[0] == '\\' {
        x.len() >= 2 && field_safe(x.skip(2))
    } else {
        field_safe(x.drop_first())
    }
}

proof fn lemma_safe_field_end(x: Seq<char>, y: Seq<char>)
    requires
        field_safe(x),
    ensures
        field_end(x + seq!['|'] + y) == x.len(),
        field_end(x) == x.len(),
    decreases x.len(),
{
    let s = x + seq!['|'] + y;
    if x.len() == 0 {
        assert(s[0] == '|');
    } else if x[0] == '\\' {
        assert(s[0] == '\\');
        assert(s.skip(2) =~= x.skip(2) + seq!['|'] + y);
        lemma_safe_field_end(x.skip(2), y);
    } else {
        assert(s[0] == x[0]);
        assert(s.drop_first() =~= x.drop_first() + seq!['|'] + y);
        lemma_safe_field_end(x.drop_first(), y);
    }
}

proof fn lemma_plain_safe(x: Seq<char>)
    requires
        !x.contains('|'),
        !x.contains('\\'),
    ensures
        field_safe(x),
    decreases x.len(),
{
    if x.len() > 0 {
        assert(x[0] != '|' && x[0] != '\\');
        assert forall|c: char| #[trigger] x.drop_first().contains(c) implies x.contains(c) by {
            let i = choose|i: int| 0 <= i < x.drop_first().len() && x.drop_first()[i] == c;
            assert(x[i + 1] == c);
        }
        lemma_plain_safe(x.drop_first());
    }
}

proof fn lemma_escape_safe(s: Seq<char>)
    ensures
        field_safe(escape_spec(s)),
    decreases s.len(),
{
    if s.len() > 0 {
        lemma_escape_safe(s.drop_first());
        let h = escape_char(s[0]);
        let t = escape_spec(s.drop_first());
        let e = h + t;
        assert(escape_spec(s) == e);
        if h.len() == 2 {
            assert(e.skip(2) =~= t);
        } else {
            assert(e.drop_first() =~= t);
        }
    }
}

proof fn lemma_dec_plain(n: nat)
    ensures
        !dec(n).contains('|'),
        !dec(n).contains('\\'),
        !dec(n).contains('\n'),
{
    lemma_dec_digits(n);
    assert forall|c: char| #[trigger] dec(n).contains(c) implies is_digit(c) by {
        let i = choose|i: int| 0 <= i < dec(n).len() && dec(n)[i] == c;
    }
}

proof fn lemma_dec_signed_plain(n: int)
    ensures
        !dec_signed(n).contains('|'),
        !dec_signed(n).contains('\\'),
        !dec_signed(n).contains('\n'),
{
    let m = if n < 0 {
        (-n) as nat
    } else {
        n as nat
    };
    lemma_dec_plain(m);
    if n < 0 {
        let s = dec_signed(n);
        assert forall|c: char| #[trigger] s.contains(c) implies c == '-' || dec(m).contains(c) by {
            let i = choose|i: int| 0 <= i < s.len() && s[i] == c;
            if i > 0 {
                assert(dec(m)[i - 1] == c);
            }
        }
    }
}

/// Joining from the front: the first piece, the separator, and the rest joined.
pub proof fn lemma_join_front(f: Seq<Seq<char>>, sep: Seq<char>)
    requires
        f.len() >= 2,
    ensures
        join_with(f, sep) == f[0] + sep + join_with(f.drop_first(), sep),
    decreases f.len(),
{
    if f.len() == 2 {
        assert(f.drop_last() =~= seq![f[0]]);
        assert(f.drop_first() =~= seq![f[1]]);
        assert(join_with(f.drop_last(), sep) == f[0]);
        assert(join_with(f.drop_first(), sep) == f[1]);
        assert(join_with(f, sep) =~= f[0] + sep + f[1]);
    } else {
        lemma_join_front(f.drop_last(), sep);
        assert(f.drop_last().drop_first() =~= f.drop_first().drop_last());
        assert(f.drop_first().last() == f.last());
        assert(join_with(f, sep) =~= f[0] + sep + join_with(f.drop_first(), sep));
    }
}

/// Fields that can stand as fields are read back from their join.
pub proof fn lemma_split_join(f: Seq<Seq<char>>)
    requires
        f.len() >= 1,
        forall|i: int| 0 <= i < f.len() ==> field_safe(#[trigger] f[i]),
    ensures
        split_fields(join_with(f, seq!['|'])) == f,
    decreases f.len(),
{
    if f.len() == 1 {
        lemma_safe_field_end(f[0], Seq::empty());
        assert(split_fields(f[0]) == seq![f[0]]);
        assert(f =~= seq![f[0]]);
    } else {
        lemma_join_front(f, seq!['|']);
        let rest = join_with(f.drop_first(), seq!['|']);
        let j = f[0] + seq!['|'] + rest;
        lemma_safe_field_end(f[0], rest);
        assert(j.take(f[0].len() as int) =~= f[0]);
        assert(j.skip(f[0].len() as int + 1) =~= rest);
        assert forall|i: int| 0 <= i < f.drop_first().len() implies field_safe(
            #[trigger] f.drop_first()[i],
        ) by {
            assert(f.drop_first()[i] == f[i + 1]);
        }
        lemma_split_join(f.drop_first());
        assert(f =~= seq![f[0]] + f.drop_first());
    }
}

/// A record is read back field by field: cutting its line at the pipes that no
/// backslash escapes gives its 15 fields, whatever its text fields hold.
pub proof fn lemma_record_fields_recoverable(r: RepoInfo)
    ensures
        record_fields(r).len() == 15,
        split_fields(join_with(record_fields(r), seq!['|'])) == record_fields(r),
{
    let f = record_fields(r);
    let m = marks_of(r);
    reveal_strlit("neondeck/v1");
    reveal_strlit("true");
    reveal_strlit("false");
    lemma_plain_safe(FORMAT_VERSION@);
    lemma_escape_safe(r.name@);
    lemma_escape_safe(r.path@);
    lemma_escape_safe(r.branch@);
    lemma_dec_signed_plain(r.last_commit_epoch as int);
    lemma_plain_safe(dec_signed(r.last_commit_epoch as int));
    lemma_escape_safe(r.last_commit_date@);
    lemma_plain_safe(bool_text(r.dirty));
    lemma_dec_plain(r.dirty_files as nat);
    lemma_plain_safe(dec(r.dirty_files as nat));
    lemma_dec_plain(r.ahead as nat);
    lemma_plain_safe(dec(r.ahead as nat));
    lemma_dec_plain(r.behind as nat);
    lemma_plain_safe(dec(r.behind as nat));
    lemma_escape_safe(lang_csv(r.languages@));
    lemma_dec_plain(m.todo as nat);
    lemma_plain_safe(dec(m.todo as nat));
    lemma_dec_plain(m.fixme as nat);
    lemma_plain_safe(dec(m.fixme as nat));
    lemma_dec_plain(m.hack as nat);
    lemma_plain_safe(dec(m.hack as nat));
    lemma_escape_safe(r.last_commit_subject@);
    lemma_split_join(f);
}

/// Number of line feeds in `s`.
pub open spec fn line_feeds(s: Seq<char>) -> nat
    decreases s.len(),
{
    if s.len() == 0 {
        0
    } else {
        line_feeds(s.drop_last()) + if s.last() == '\n' {
            1nat
        } else {
            0nat
        }
    }
}

proof fn lemma_line_feeds_concat(a: Seq<char>, b: Seq<char>)
    ensures
        line_feeds(a + b) == line_feeds(a) + line_feeds(b),
    decreases b.len(),
{
    if b.len() == 0 {
        assert(a + b =~= a);
    } else {
        assert((a + b).drop_last() =~= a + b.drop_last());
        lemma_line_feeds_concat(a, b.drop_last());
    }
}

proof fn lemma_no_line_feed(s: Seq<char>)
    requires
        !s.contains('\n'),
    ensures
        line_feeds(s) == 0,
    decreases s.len(),
{
    if s.len() > 0 {
        assert(!s.drop_last().contains('\n')) by {
            if s.drop_last().contains('\n') {
                let i = choose|i: int| 0 <= i < s.drop_last().len() && s.drop_last()[i] == '\n';
                assert(s[i] == '\n');
            }
        }
        lemma_no_line_feed(s.drop_last());
    }
}

proof fn lemma_join_no_char(f: Seq<Seq<char>>, sep: Seq<char>, c: char)
    requires
        !sep.contains(c),
        forall|i: int| 0 <= i < f.len() ==> !(#[trigger] f[i]).contains(c),
    ensures
        !join_with(f, sep).contains(c),
    decreases f.len(),
{
    if f.len() >= 2 {
        lemma_join_no_char(f.drop_last(), sep, c);
        let a = join_with(f.drop_last(), sep);
        let j = a + sep + f.last();
        assert(!f.last().contains(c));
        if j.contains(c) {
            let i = choose|i: int| 0 <= i < j.len() && j[i] == c;
            if i < a.len() {
                assert(a[i] == c);
            } else if i < a.len() + sep.len() {
                assert(sep[i - a.len()] == c);
            } else {
                assert(f.last()[i - a.len() - sep.len()] == c);
            }
        }
    }
}

/// A record is one line: its only line feed is the one that ends it.
pub proof fn lemma_record_one_line(r: RepoInfo)
    ensures
        !join_with(record_fields(r), seq!['|']).contains('\n'),
        line_feeds(record(r)) == 1,
{
    let f = record_fields(r);
    let m = marks_of(r);
    reveal_strlit("neondeck/v1");
    reveal_strlit("true");
    reveal_strlit("false");
    lemma_escape_single_line(r.name@);
    lemma_escape_single_line(r.path@);
    lemma_escape_single_line(r.branch@);
    lemma_dec_signed_plain(r.last_commit_epoch as int);
    lemma_escape_single_line(r.last_commit_date@);
    lemma_dec_plain(r.dirty_files as nat);
    lemma_dec_plain(r.ahead as nat);
    lemma_dec_plain(r.behind as nat);
    lemma_escape_single_line(lang_csv(r.languages@));
    lemma_dec_plain(m.todo as nat);
    lemma_dec_plain(m.fixme as nat);
    lemma_dec_plain(m.hack as nat);
    lemma_escape_single_line(r.last_commit_subject@);
    assert forall|i: int| 0 <= i < f.len() implies !(#[trigger] f[i]).contains('\n') by {
        if i == 6 {
            assert(!bool_text(r.dirty).contains('\n'));
        }
    }
    lemma_join_no_char(f, seq!['|'], '\n');
    lemma_ends_line(join_with(f, seq!['|']));
}

/// The line format gives one line per repository: as many line feeds as
/// repositories.
pub proof fn lemma_records_one_per_repo(rs: Seq<RepoInfo>)
    ensures
        line_feeds(records(rs)) == rs.len(),
    decreases rs.len(),
{
    if rs.len() > 0 {
        lemma_records_one_per_repo(rs.drop_last());
        lemma_record_one_line(rs.last());
        lemma_line_feeds_concat(records(rs.drop_last()), record(rs.last()));
    }
}

/// Whether `s` holds no line feed.
pub open spec fn one_line_text(s: Seq<char>) -> bool {
    !s.contains('\n')
}

proof fn lemma_concat_one_line(a: Seq<char>, b: Seq<char>)
    requires
        one_line_text(a),
        one_line_text(b),
    ensures
        one_line_text(a + b),
{
    let j = a + b;
    if j.contains('\n') {
        let i = choose|i: int| 0 <= i < j.len() && j[i] == '\n';
        if i < a.len() {
            assert(a[i] == '\n');
        } else {
            assert(b[i - a.len()] == '\n');
        }
    }
}

proof fn lemma_repeat_one_line(c: char, n: nat)
    requires
        c != '\n',
    ensures
        one_line_text(repeat_char(c, n)),
{
    let r = repeat_char(c, n);
    if r.contains('\n') {
        let i = choose|i: int| 0 <= i < r.len() && r[i] == '\n';
        assert(r[i] == c);
    }
}

proof fn lemma_pad_one_line(s: Seq<char>, w: nat)
    requires
        one_line_text(s),
    ensures
        one_line_text(pad_right(s, w)),
{
    if s.len() < w {
        lemma_repeat_one_line(' ', (w - s.len()) as nat);
        lemma_concat_one_line(s, repeat_char(' ', (w - s.len()) as nat));
    }
}

proof fn lemma_take_one_line(s: Seq<char>, k: int)
    requires
        one_line_text(s),
        0 <= k <= s.len(),
    ensures
        one_line_text(s.take(k)),
{
    let t = s.take(k);
    if t.contains('\n') {
        let i = choose|i: int| 0 <= i < t.len() && t[i] == '\n';
        assert(s[i] == '\n');
    }
}

proof fn lemma_truncate_one_line(s: Seq<char>, max: nat)
    requires
        one_line_text(s),
    ensures
        one_line_text(truncate_spec(s, max)),
{
    let e: Seq<char> = seq!['\u{2026}'];
    assert(one_line_text(e)) by {
        if e.contains('\n') {
            let i = choose|i: int| 0 <= i < e.len() && e[i] == '\n';
            assert(e[0] == '\u{2026}');
        }
    }
    if s.len() > max && max > 0 {
        lemma_take_one_line(s, max - 1);
        lemma_concat_one_line(s.take(max - 1), e);
    }
}

proof fn lemma_chars_one_line(s: Seq<char>)
    requires
        forall|i: int| 0 <= i < s.len() ==> #[trigger] s[i] != '\n',
    ensures
        one_line_text(s),
{
}

proof fn lemma_dec_one_line(n: nat)
    ensures
        one_line_text(dec(n)),
{
    lemma_dec_plain(n);
}

proof fn lemma_human_one_line(n: nat)
    ensures
        one_line_text(human_spec(n)),
{
    if n >= 1000 {
        let t = if n >= 1_000_000 {
            crate::human::tenths_of_quotient(crate::human::f64_value(n), 1_000_000)
        } else {
            crate::human::tenths_of_quotient(n, 1000)
        };
        lemma_digit_char(t % 10);
        let tail: Seq<char> = seq!['.', digit_char(t % 10)];
        lemma_chars_one_line(tail);
        lemma_dec_one_line(t / 10);
        lemma_concat_one_line(dec(t / 10), tail);
        assert(one_decimal(t) == dec(t / 10) + tail);
        let unit: Seq<char> = if n >= 1_000_000 {
            seq!['M']
        } else {
            seq!['k']
        };
        lemma_chars_one_line(unit);
        lemma_concat_one_line(one_decimal(t), unit);
    } else {
        lemma_dec_one_line(n);
    }
}

/// Whether no language name of `s` holds a line feed.
pub open spec fn langs_one_line(s: Seq<LangCount>) -> bool {
    forall|k: int| 0 <= k < s.len() ==> one_line_text(#[trigger] s[k].lang@)
}

proof fn lemma_join_items_one_line(s: Seq<LangCount>)
    requires
        langs_one_line(s),
    ensures
        one_line_text(join_items(s)),
    decreases s.len(),
{
    if s.len() > 0 {
        let l = s.last();
        assert(one_line_text(l.lang@));
        let colon: Seq<char> = seq![':'];
        lemma_chars_one_line(colon);
        lemma_human_one_line(l.lines as nat);
        lemma_concat_one_line(l.lang@, colon);
        lemma_concat_one_line(l.lang@ + colon, human_spec(l.lines as nat));
        if s.len() == 1 {
            assert(s[0] == l);
        } else {
            assert forall|k: int| 0 <= k < s.drop_last().len() implies one_line_text(
                #[trigger] s.drop_last()[k].lang@,
            ) by {
                assert(s.drop_last()[k] == s[k]);
            }
            lemma_join_items_one_line(s.drop_last());
            let sp: Seq<char> = seq![' '];
            lemma_chars_one_line(sp);
            lemma_concat_one_line(join_items(s.drop_last()), sp);
            lemma_concat_one_line(join_items(s.drop_last()) + sp, lang_item(l));
        }
    }
}

proof fn lemma_summary_one_line(s: Seq<LangCount>)
    requires
        langs_one_line(s),
    ensures
        one_line_text(summary_spec(s)),
{
    if s.len() == 0 {
        lemma_chars_one_line(seq!['-']);
    } else if s.len() < 3 {
        lemma_join_items_one_line(s);
    } else {
        assert forall|k: int| 0 <= k < s.take(3).len() implies one_line_text(
            #[trigger] s.take(3)[k].lang@,
        ) by {
            assert(s.take(3)[k] == s[k]);
        }
        lemma_join_items_one_line(s.take(3));
    }
}

/// Whether the text that a repository brings into the table and the report holds
/// no line feed: its name, branch, commit date and subject, and its language names.
pub open spec fn repo_one_line(r: RepoInfo) -> bool {
    &&& one_line_text(r.name@)
    &&& one_line_text(r.branch@)
    &&& one_line_text(r.last_commit_date@)
    &&& one_line_text(r.last_commit_subject@)
    &&& langs_one_line(r.languages@)
}

proof fn lemma_counts_one_line(r: RepoInfo)
    ensures
        one_line_text(dirty_text(r)),
        one_line_text(ahead_text(r)),
        one_line_text(marker_text(r)),
{
    let m = marks_of(r);
    let plus: Seq<char> = seq!['+'];
    let slash: Seq<char> = seq!['/'];
    let mid: Seq<char> = seq!['/', '-'];
    lemma_chars_one_line(plus);
    lemma_chars_one_line(slash);
    lemma_chars_one_line(mid);
    lemma_dec_one_line(r.dirty_files as nat);
    lemma_dec_one_line(r.ahead as nat);
    lemma_dec_one_line(r.behind as nat);
    lemma_dec_one_line(m.todo as nat);
    lemma_dec_one_line(m.fixme as nat);
    lemma_dec_one_line(m.hack as nat);
    if r.dirty {
        lemma_concat_one_line(plus, dec(r.dirty_files as nat));
    } else {
        reveal_strlit("clean");
        lemma_chars_one_line("clean"@);
    }
    if r.upstream is Some {
        lemma_concat_one_line(plus, dec(r.ahead as nat));
        lemma_concat_one_line(plus + dec(r.ahead as nat), mid);
        lemma_concat_one_line(plus + dec(r.ahead as nat) + mid, dec(r.behind as nat));
    } else {
        lemma_chars_one_line(seq!['-']);
    }
    lemma_concat_one_line(dec(m.todo as nat), slash);
    lemma_concat_one_line(dec(m.todo as nat) + slash, dec(m.fixme as nat));
    lemma_concat_one_line(dec(m.todo as nat) + slash + dec(m.fixme as nat), slash);
    lemma_concat_one_line(
        dec(m.todo as nat) + slash + dec(m.fixme as nat) + slash,
        dec(m.hack as nat),
    );
}

proof fn lemma_line_of_cells(cells: Seq<Seq<char>>, sep: Seq<char>)
    requires
        one_line_text(sep),
        forall|i: int| 0 <= i < cells.len() ==> one_line_text(#[trigger] cells[i]),
    ensures
        line_feeds(join_with(cells, sep) + seq!['\n']) == 1,
{
    lemma_join_no_char(cells, sep, '\n');
    lemma_ends_line(join_with(cells, sep));
}

proof fn lemma_ends_line(body: Seq<char>)
    requires
        one_line_text(body),
    ensures
        line_feeds(body + seq!['\n']) == 1,
{
    lemma_no_line_feed(body);
    lemma_line_feeds_concat(body, seq!['\n']);
    let lf: Seq<char> = seq!['\n'];
    assert(lf.drop_last() =~= Seq::<char>::empty());
    assert(line_feeds(Seq::<char>::empty()) == 0);
    assert(lf.last() == '\n');
    assert(line_feeds(lf) == 1);
}

proof fn lemma_row_one_line(r: RepoInfo, todos: bool, nw: nat, bw: nat)
    requires
        repo_one_line(r),
    ensures
        line_feeds(table_line(row_cells(r, todos, nw, bw))) == 1,
{
    let c = row_cells(r, todos, nw, bw);
    lemma_counts_one_line(r);
    lemma_pad_one_line(r.name@, nw);
    lemma_pad_one_line(r.branch@, bw);
    lemma_pad_one_line(r.last_commit_date@, 10);
    lemma_pad_one_line(dirty_text(r), 5);
    lemma_pad_one_line(ahead_text(r), 9);
    lemma_summary_one_line(r.languages@);
    lemma_pad_one_line(summary_spec(r.languages@), 11);
    lemma_pad_one_line(marker_text(r), 9);
    lemma_truncate_one_line(r.last_commit_subject@, 48);
    lemma_chars_one_line(seq![' ', ' ']);
    assert forall|i: int| 0 <= i < c.len() implies one_line_text(#[trigger] c[i]) by {
        if todos {
            if i == 7 {
                assert(c[i] == truncate_spec(r.last_commit_subject@, 48));
            }
        } else if i == 6 {
            assert(c[i] == truncate_spec(r.last_commit_subject@, 48));
        }
    }
    lemma_line_of_cells(c, seq![' ', ' ']);
}

proof fn lemma_table_rows_lines(rs: Seq<RepoInfo>, todos: bool, nw: nat, bw: nat)
    requires
        forall|i: int| 0 <= i < rs.len() ==> repo_one_line(#[trigger] rs[i]),
    ensures
        line_feeds(table_rows(rs, todos, nw, bw)) == rs.len(),
    decreases rs.len(),
{
    if rs.len() > 0 {
        assert forall|i: int| 0 <= i < rs.drop_last().len() implies repo_one_line(
            #[trigger] rs.drop_last()[i],
        ) by {
            assert(rs.drop_last()[i] == rs[i]);
        }
        lemma_table_rows_lines(rs.drop_last(), todos, nw, bw);
        lemma_row_one_line(rs.last(), todos, nw, bw);
        lemma_line_feeds_concat(
            table_rows(rs.drop_last(), todos, nw, bw),
            table_line(row_cells(rs.last(), todos, nw, bw)),
        );
    }
}

proof fn lemma_header_one_line(todos: bool, nw: nat, bw: nat)
    ensures
        line_feeds(table_line(header_cells(todos, nw, bw))) == 1,
{
    let c = header_cells(todos, nw, bw);
    reveal_strlit("REPO");
    reveal_strlit("BRANCH");
    reveal_strlit("COMMIT");
    reveal_strlit("DIRTY");
    reveal_strlit("AHEAD/UP");
    reveal_strlit("LANGS");
    reveal_strlit("T/F/H");
    reveal_strlit("LAST COMMIT");
    lemma_chars_one_line("REPO"@);
    lemma_chars_one_line("BRANCH"@);
    lemma_chars_one_line("COMMIT"@);
    lemma_chars_one_line("DIRTY"@);
    lemma_chars_one_line("AHEAD/UP"@);
    lemma_chars_one_line("LANGS"@);
    lemma_chars_one_line("T/F/H"@);
    lemma_chars_one_line("LAST COMMIT"@);
    lemma_pad_one_line("REPO"@, nw);
    lemma_pad_one_line("BRANCH"@, bw);
    lemma_pad_one_line("COMMIT"@, 10);
    lemma_pad_one_line("DIRTY"@, 5);
    lemma_pad_one_line("AHEAD/UP"@, 9);
    lemma_pad_one_line("LANGS"@, 11);
    lemma_pad_one_line("T/F/H"@, 9);
    lemma_chars_one_line(seq![' ', ' ']);
    assert forall|i: int| 0 <= i < c.len() implies one_line_text(#[trigger] c[i]) by {
        if todos {
            if i == 7 {
                assert(c[i] == "LAST COMMIT"@);
            }
        } else if i == 6 {
            assert(c[i] == "LAST COMMIT"@);
        }
    }
    lemma_line_of_cells(c, seq![' ', ' ']);
}

/// The table has four lines more than there are repositories (the header, the rule,
/// the blank line and the count), when no repository brings a line feed into it.
pub proof fn lemma_table_line_count(rs: Seq<RepoInfo>, todos: bool)
    requires
        forall|i: int| 0 <= i < rs.len() ==> repo_one_line(#[trigger] rs[i]),
    ensures
        line_feeds(table_spec(rs, todos)) == rs.len() + 4,
{
    let nw = name_width(rs);
    let bw = branch_width(rs);
    let header = table_line(header_cells(todos, nw, bw));
    let dashes = repeat_char('-', at_least(byte_len(trim_end(header)), 40));
    let rows = table_rows(rs, todos, nw, bw);
    let lf: Seq<char> = seq!['\n'];
    let count = dec(rs.len());
    let tail = " repositories\n"@;
    lemma_header_one_line(todos, nw, bw);
    lemma_repeat_one_line('-', at_least(byte_len(trim_end(header)), 40));
    lemma_ends_line(dashes);
    lemma_table_rows_lines(rs, todos, nw, bw);
    lemma_ends_line(Seq::<char>::empty());
    assert(Seq::<char>::empty() + lf =~= lf);
    lemma_dec_one_line(rs.len());
    lemma_no_line_feed(count);
    reveal_strlit(" repositories\n");
    reveal_strlit(" repositories");
    assert(tail =~= " repositories"@ + lf);
    lemma_chars_one_line(" repositories"@);
    lemma_ends_line(" repositories"@);
    lemma_line_feeds_concat(header, dashes + lf);
    lemma_line_feeds_concat(header + (dashes + lf), rows);
    lemma_line_feeds_concat(header + (dashes + lf) + rows, lf);
    lemma_line_feeds_concat(header + (dashes + lf) + rows + lf, count);
    lemma_line_feeds_concat(header + (dashes + lf) + rows + lf + count, tail);
    assert(table_spec(rs, todos) =~= header + (dashes + lf) + rows + lf + count + tail);
}

proof fn lemma_md_escape_one_line(s: Seq<char>)
    requires
        one_line_text(s),
    ensures
        one_line_text(md_escape(s)),
    decreases s.len(),
{
    if s.len() > 0 {
        lemma_take_one_line(s, s.len() - 1);
        assert(s.drop_last() =~= s.take(s.len() - 1));
        lemma_md_escape_one_line(s.drop_last());
        assert(s.last() != '\n') by {
            assert(s[s.len() - 1] == s.last());
        }
        let piece: Seq<char> = if s.last() == '|' {
            seq!['\\', '|']
        } else {
            seq![s.last()]
        };
        lemma_chars_one_line(piece);
        lemma_concat_one_line(md_escape(s.drop_last()), piece);
    }
}

/// Whether the text that a repository brings into the report holds no line feed:
/// what it brings into the table, and the name of its upstream.
pub open spec fn report_one_line(r: RepoInfo) -> bool {
    &&& repo_one_line(r)
    &&& (r.upstream matches Some(u) ==> one_line_text(u@))
}

proof fn lemma_md_row_one_line(r: RepoInfo, todos: bool)
    requires
        report_one_line(r),
    ensures
        line_feeds(md_row(md_cells(r, todos))) == 1,
{
    let c = md_cells(r, todos);
    lemma_counts_one_line(r);
    lemma_summary_one_line(r.languages@);
    lemma_md_escape_one_line(r.last_commit_subject@);
    match r.upstream {
        Some(u) => {
            let pre = seq!['+'] + dec(r.ahead as nat) + seq!['/', '-'] + dec(r.behind as nat);
            assert(ahead_text(r) == pre);
            let open: Seq<char> = seq![' ', '('];
            let close: Seq<char> = seq![')'];
            lemma_chars_one_line(open);
            lemma_chars_one_line(close);
            lemma_concat_one_line(pre, open);
            lemma_concat_one_line(pre + open, u@);
            lemma_concat_one_line(pre + open + u@, close);
        },
        None => {
            lemma_chars_one_line(seq!['-']);
        },
    }
    let sep: Seq<char> = seq![' ', '|', ' '];
    lemma_chars_one_line(sep);
    assert forall|i: int| 0 <= i < c.len() implies one_line_text(#[trigger] c[i]) by {
        if todos {
            if i == 7 {
                assert(c[i] == md_escape(r.last_commit_subject@));
            }
        } else if i == 6 {
            assert(c[i] == md_escape(r.last_commit_subject@));
        }
    }
    lemma_join_no_char(c, sep, '\n');
    let j = join_with(c, sep);
    let a: Seq<char> = seq!['|', ' '];
    let b: Seq<char> = seq![' ', '|'];
    lemma_chars_one_line(a);
    lemma_chars_one_line(b);
    lemma_concat_one_line(a, j);
    lemma_concat_one_line(a + j, b);
    lemma_ends_line(a + j + b);
    assert(md_row(c) =~= a + j + b + seq!['\n']);
}

proof fn lemma_md_rows_lines(rs: Seq<RepoInfo>, todos: bool)
    requires
        forall|i: int| 0 <= i < rs.len() ==> report_one_line(#[trigger] rs[i]),
    ensures
        line_feeds(md_rows(rs, todos)) == rs.len(),
    decreases rs.len(),
{
    if rs.len() > 0 {
        assert forall|i: int| 0 <= i < rs.drop_last().len() implies report_one_line(
            #[trigger] rs.drop_last()[i],
        ) by {
            assert(rs.drop_last()[i] == rs[i]);
        }
        lemma_md_rows_lines(rs.drop_last(), todos);
        lemma_md_row_one_line(rs.last(), todos);
        lemma_line_feeds_concat(md_rows(rs.drop_last(), todos), md_row(md_cells(rs.last(), todos)));
    }
}

proof fn lemma_md_head_lines(todos: bool)
    ensures
        line_feeds(md_head(todos)) == 2,
{
    let lf: Seq<char> = seq!['\n'];
    if todos {
        let a = "| Repository | Branch | Last Commit | Dirty | Ahead/Behind | Languages | T/F/H | Subject |"@;
        let b = "|---|---|---|---|---|---|---|---|"@;
        reveal_strlit("| Repository | Branch | Last Commit | Dirty | Ahead/Behind | Languages | T/F/H | Subject |");
        reveal_strlit("| Repository | Branch | Last Commit | Dirty | Ahead/Behind | Languages | T/F/H | Subject |\n");
        reveal_strlit("|---|---|---|---|---|---|---|---|");
        reveal_strlit("|---|---|---|---|---|---|---|---|\n");
        lemma_chars_one_line(a);
        lemma_chars_one_line(b);
        lemma_ends_line(a);
        lemma_ends_line(b);
        lemma_line_feeds_concat(a + lf, b + lf);
        assert(md_head(todos) =~= (a + lf) + (b + lf));
    } else {
        let a = "| Repository | Branch | Last Commit | Dirty | Ahead/Behind | Languages | Subject |"@;
        let b = "|---|---|---|---|---|---|---|"@;
        reveal_strlit("| Repository | Branch | Last Commit | Dirty | Ahead/Behind | Languages | Subject |");
        reveal_strlit("| Repository | Branch | Last Commit | Dirty | Ahead/Behind | Languages | Subject |\n");
        reveal_strlit("|---|---|---|---|---|---|---|");
        reveal_strlit("|---|---|---|---|---|---|---|\n");
        lemma_chars_one_line(a);
        lemma_chars_one_line(b);
        lemma_ends_line(a);
        lemma_ends_line(b);
        lemma_line_feeds_concat(a + lf, b + lf);
        assert(md_head(todos) =~= (a + lf) + (b + lf));
    }
}

/// The report has eleven lines more than there are repositories (title, scanned
/// root, table head, count and signature, with their blank lines), when neither the
/// root nor any repository brings a line feed into it.
pub proof fn lemma_report_line_count(root: Seq<char>, rs: Seq<RepoInfo>, todos: bool)
    requires
        one_line_text(root),
        forall|i: int| 0 <= i < rs.len() ==> report_one_line(#[trigger] rs[i]),
    ensures
        line_feeds(markdown_spec(root, rs, todos)) == rs.len() + 11,
{
    let lf: Seq<char> = seq!['\n'];
    let e = Seq::<char>::empty();
    lemma_ends_line(e);
    assert(e + lf =~= lf);
    let title = "# Fleet Status"@;
    let scanned = "Scanned: `"@;
    let tick = seq!['`'];
    let stars: Seq<char> = seq!['*', '*'];
    let repos_word = " repositories**"@;
    let rule = "---"@;
    let sig = "Made by synth with synthclaw \u{1F3B9}\u{1F99E}"@;
    reveal_strlit("# Fleet Status");
    reveal_strlit("# Fleet Status\n\n");
    reveal_strlit("Scanned: `");
    reveal_strlit("`\n\n");
    reveal_strlit("\n**");
    reveal_strlit(" repositories**");
    reveal_strlit(" repositories**\n");
    reveal_strlit("---");
    reveal_strlit("Made by synth with synthclaw \u{1F3B9}\u{1F99E}");
    reveal_strlit("\n---\nMade by synth with synthclaw \u{1F3B9}\u{1F99E}\n");
    lemma_chars_one_line(title);
    lemma_chars_one_line(scanned);
    lemma_chars_one_line(tick);
    lemma_chars_one_line(stars);
    lemma_chars_one_line(repos_word);
    lemma_chars_one_line(rule);
    lemma_chars_one_line(sig);
    lemma_ends_line(title);
    lemma_ends_line(tick);
    lemma_ends_line(repos_word);
    lemma_ends_line(rule);
    lemma_ends_line(sig);
    lemma_no_line_feed(scanned);
    lemma_no_line_feed(root);
    lemma_no_line_feed(stars);
    lemma_dec_one_line(rs.len());
    lemma_no_line_feed(dec(rs.len()));
    lemma_md_head_lines(todos);
    lemma_md_rows_lines(rs, todos);
    let p1 = "# Fleet Status\n\n"@;
    assert(p1 =~= (title + lf) + lf);
    lemma_line_feeds_concat(title + lf, lf);
    let p2 = "`\n\n"@;
    assert(p2 =~= (tick + lf) + lf);
    lemma_line_feeds_concat(tick + lf, lf);
    let p3 = "\n**"@;
    assert(p3 =~= lf + stars);
    lemma_line_feeds_concat(lf, stars);
    let p4 = " repositories**\n"@;
    assert(p4 =~= repos_word + lf);
    let p5 = "\n---\nMade by synth with synthclaw \u{1F3B9}\u{1F99E}\n"@;
    assert(p5 =~= lf + (rule + lf) + (sig + lf));
    lemma_line_feeds_concat(lf, rule + lf);
    lemma_line_feeds_concat(lf + (rule + lf), sig + lf);
    let head = md_head(todos);
    let rows = md_rows(rs, todos);
    let n = dec(rs.len());
    lemma_line_feeds_concat(p1, scanned);
    lemma_line_feeds_concat(p1 + scanned, root);
    lemma_line_feeds_concat(p1 + scanned + root, p2);
    lemma_line_feeds_concat(p1 + scanned + root + p2, head);
    lemma_line_feeds_concat(p1 + scanned + root + p2 + head, rows);
    lemma_line_feeds_concat(p1 + scanned + root + p2 + head + rows, p3);
    lemma_line_feeds_concat(p1 + scanned + root + p2 + head + rows + p3, n);
    lemma_line_feeds_concat(p1 + scanned + root + p2 + head + rows + p3 + n, p4);
    lemma_line_feeds_concat(p1 + scanned + root + p2 + head + rows + p3 + n + p4, p5);
    assert(markdown_spec(root, rs, todos) =~= p1 + scanned + root + p2 + head + rows + p3 + n
        + p4 + p5);
}

/// Position of the first line feed of `s` (`s.len()` when there is none).
pub open spec fn line_end(s: Seq<char>) -> nat
    decreases s.len(),
{
    if s.len() == 0 || s[0] == '\n' {
        0
    } else {
        1 + line_end(s.drop_first())
    }
}

/// The lines of `s`: the pieces between its line feeds, where a final line feed
/// ends the last line rather than opening an empty one.
pub open spec fn lines_of(s: Seq<char>) -> Seq<Seq<char>>
    decreases s.len(),
{
    if s.len() == 0 {
        Seq::empty()
    } else {
        let e = line_end(s);
        if e >= s.len() {
            seq![s]
        } else {
            seq![s.take(e as int)] + lines_of(s.skip(e as int + 1))
        }
    }
}

/// Each of `ls` followed by a line feed, in order.
pub open spec fn unlines(ls: Seq<Seq<char>>) -> Seq<char>
    decreases ls.len(),
{
    if ls.len() == 0 {
        Seq::empty()
    } else {
        unlines(ls.drop_last()) + ls.last() + seq!['\n']
    }
}

proof fn lemma_line_end_at(x: Seq<char>, y: Seq<char>)
    requires
        one_line_text(x),
    ensures
        line_end(x + seq!['\n'] + y) == x.len(),
    decreases x.len(),
{
    let s = x + seq!['\n'] + y;
    if x.len() > 0 {
        assert(x[0] != '\n') by {
            if x[0] == '\n' {
                assert(x.contains('\n'));
            }
        }
        assert(s[0] == x[0]);
        assert(s.drop_first() =~= x.drop_first() + seq!['\n'] + y);
        assert(one_line_text(x.drop_first())) by {
            if x.drop_first().contains('\n') {
                let i = choose|i: int| 0 <= i < x.drop_first().len() && x.drop_first()[i] == '\n';
                assert(x[i + 1] == '\n');
            }
        }
        lemma_line_end_at(x.drop_first(), y);
    } else {
        assert(s[0] == '\n');
    }
}

proof fn lemma_lines_front(x: Seq<char>, y: Seq<char>)
    requires
        one_line_text(x),
    ensures
        lines_of(x + seq!['\n'] + y) == seq![x] + lines_of(y),
{
    let s = x + seq!['\n'] + y;
    lemma_line_end_at(x, y);
    assert(s.take(x.len() as int) =~= x);
    assert(s.skip(x.len() as int + 1) =~= y);
}

proof fn lemma_unlines_front(ls: Seq<Seq<char>>)
    requires
        ls.len() >= 1,
    ensures
        unlines(ls) == ls[0] + seq!['\n'] + unlines(ls.drop_first()),
    decreases ls.len(),
{
    if ls.len() == 1 {
        assert(ls.drop_last() =~= Seq::<Seq<char>>::empty());
        assert(ls.drop_first() =~= Seq::<Seq<char>>::empty());
        assert(unlines(ls) =~= ls[0] + seq!['\n'] + unlines(ls.drop_first()));
    } else {
        lemma_unlines_front(ls.drop_last());
        assert(ls.drop_last().drop_first() =~= ls.drop_first().drop_last());
        assert(ls.drop_first().last() == ls.last());
        assert(unlines(ls) =~= ls[0] + seq!['\n'] + unlines(ls.drop_first()));
    }
}

/// Lines that hold no line feed are read back from their text, one by one.
pub proof fn lemma_lines_of_unlines(ls: Seq<Seq<char>>)
    requires
        forall|i: int| 0 <= i < ls.len() ==> one_line_text(#[trigger] ls[i]),
    ensures
        lines_of(unlines(ls)) == ls,
    decreases ls.len(),
{
    if ls.len() == 0 {
        assert(lines_of(Seq::<char>::empty()) =~= Seq::<Seq<char>>::empty());
    } else {
        lemma_unlines_front(ls);
        lemma_lines_front(ls[0], unlines(ls.drop_first()));
        assert forall|i: int| 0 <= i < ls.drop_first().len() implies one_line_text(
            #[trigger] ls.drop_first()[i],
        ) by {
            assert(ls.drop_first()[i] == ls[i + 1]);
        }
        lemma_lines_of_unlines(ls.drop_first());
        assert(ls =~= seq![ls[0]] + ls.drop_first());
    }
}

/// The text of one record, without its line feed.
pub open spec fn record_line(r: RepoInfo) -> Seq<char> {
    join_with(record_fields(r), seq!['|'])
}

proof fn lemma_records_unlines(rs: Seq<RepoInfo>)
    ensures
        records(rs) == unlines(rs.map_values(|r: RepoInfo| record_line(r))),
    decreases rs.len(),
{
    let ls = rs.map_values(|r: RepoInfo| record_line(r));
    if rs.len() > 0 {
        lemma_records_unlines(rs.drop_last());
        assert(ls.drop_last() =~= rs.drop_last().map_values(|r: RepoInfo| record_line(r)));
        assert(ls.last() == record_line(rs.last()));
        assert(records(rs) =~= unlines(ls));
    } else {
        assert(ls =~= Seq::<Seq<char>>::empty());
    }
}

/// The line format is read back repository by repository: the output of
/// `render_lines` has one line per repository, in order, and cutting the k-th line
/// at the pipes that no backslash escapes gives that repository's 15 fields, the
/// first being the format's tag.
pub proof fn lemma_records_read_back(rs: Seq<RepoInfo>)
    ensures
        lines_of(records(rs)).len() == rs.len(),
        forall|k: int|
            0 <= k < rs.len() ==> split_fields(#[trigger] lines_of(records(rs))[k])
                == record_fields(rs[k]),
        forall|k: int| 0 <= k < rs.len() ==> (#[trigger] record_fields(rs[k]))[0] == FORMAT_VERSION@,
{
    let ls = rs.map_values(|r: RepoInfo| record_line(r));
    lemma_records_unlines(rs);
    assert forall|i: int| 0 <= i < ls.len() implies one_line_text(#[trigger] ls[i]) by {
        lemma_record_one_line(rs[i]);
    }
    lemma_lines_of_unlines(ls);
    assert forall|k: int| 0 <= k < rs.len() implies split_fields(
        #[trigger] lines_of(records(rs))[k],
    ) == record_fields(rs[k]) by {
        assert(lines_of(records(rs))[k] == record_line(rs[k]));
        lemma_record_fields_recoverable(rs[k]);
    }
}

proof fn lemma_unlines_append(a: Seq<Seq<char>>, b: Seq<Seq<char>>)
    ensures
        unlines(a + b) == unlines(a) + unlines(b),
    decreases b.len(),
{
    if b.len() == 0 {
        assert(a + b =~= a);
        assert(unlines(a) + unlines(b) =~= unlines(a));
    } else {
        assert((a + b).drop_last() =~= a + b.drop_last());
        assert((a + b).last() == b.last());
        lemma_unlines_append(a, b.drop_last());
        assert(unlines(a + b) =~= unlines(a) + unlines(b));
    }
}

/// One line of the table, without its line feed.
pub open spec fn table_text(cells: Seq<Seq<char>>) -> Seq<char> {
    join_with(cells, seq![' ', ' '])
}

/// The lines that `table_rows` writes, without their line feeds.
pub open spec fn row_texts(rs: Seq<RepoInfo>, todos: bool, nw: nat, bw: nat) -> Seq<Seq<char>> {
    rs.map_values(|r: RepoInfo| table_text(row_cells(r, todos, nw, bw)))
}

proof fn lemma_table_rows_unlines(rs: Seq<RepoInfo>, todos: bool, nw: nat, bw: nat)
    ensures
        table_rows(rs, todos, nw, bw) == unlines(row_texts(rs, todos, nw, bw)),
    decreases rs.len(),
{
    let ls = row_texts(rs, todos, nw, bw);
    if rs.len() > 0 {
        lemma_table_rows_unlines(rs.drop_last(), todos, nw, bw);
        assert(ls.drop_last() =~= row_texts(rs.drop_last(), todos, nw, bw));
        assert(table_rows(rs, todos, nw, bw) =~= unlines(ls));
    } else {
        assert(ls =~= Seq::<Seq<char>>::empty());
    }
}

proof fn lemma_unlines_two(a: Seq<char>, b: Seq<char>)
    ensures
        unlines(seq![a, b]) == a + seq!['\n'] + b + seq!['\n'],
{
    let ls = seq![a, b];
    assert(ls.drop_last() =~= seq![a]);
    assert(seq![a].drop_last() =~= Seq::<Seq<char>>::empty());
    assert(unlines(Seq::<Seq<char>>::empty()) == Seq::<char>::empty());
    assert(seq![a].last() == a);
    assert(unlines(seq![a]) =~= a + seq!['\n']);
    assert(ls.last() == b);
    assert(unlines(ls) =~= a + seq!['\n'] + b + seq!['\n']);
}

/// The table read line by line: the header, the rule of dashes, then each
/// repository's line in order (which starts with its name and ends with its
/// subject cut to 48 characters), a blank line and the count, when no repository
/// brings a line feed into it.
pub proof fn lemma_table_read_back(rs: Seq<RepoInfo>, todos: bool)
    requires
        forall|i: int| 0 <= i < rs.len() ==> repo_one_line(#[trigger] rs[i]),
    ensures
        lines_of(table_spec(rs, todos)).len() == rs.len() + 4,
        lines_of(table_spec(rs, todos))[0] == table_text(
            header_cells(todos, name_width(rs), branch_width(rs)),
        ),
        lines_of(table_spec(rs, todos))[rs.len() as int + 2] == Seq::<char>::empty(),
        lines_of(table_spec(rs, todos))[rs.len() as int + 3] == dec(rs.len()) + " repositories"@,
        forall|k: int|
            0 <= k < rs.len() ==> #[trigger] lines_of(table_spec(rs, todos))[k + 2] == table_text(
                row_cells(rs[k], todos, name_width(rs), branch_width(rs)),
            ),
        forall|k: int|
            0 <= k < rs.len() ==> {
                let line = #[trigger] lines_of(table_spec(rs, todos))[k + 2];
                &&& rs[k].name@.len() <= line.len()
                &&& line.take(rs[k].name@.len() as int) == rs[k].name@
                &&& line.skip(line.len() - truncate_spec(rs[k].last_commit_subject@, 48).len())
                    == truncate_spec(rs[k].last_commit_subject@, 48)
            },
{
    let nw = name_width(rs);
    let bw = branch_width(rs);
    let hcells = header_cells(todos, nw, bw);
    let header = table_line(hcells);
    let dashes = repeat_char('-', at_least(byte_len(trim_end(header)), 40));
    let rows = row_texts(rs, todos, nw, bw);
    let count = dec(rs.len()) + " repositories"@;
    let lf: Seq<char> = seq!['\n'];
    let ls = seq![table_text(hcells), dashes] + rows + seq![Seq::<char>::empty(), count];
    lemma_table_rows_unlines(rs, todos, nw, bw);
    lemma_unlines_append(seq![table_text(hcells), dashes], rows);
    lemma_unlines_append(seq![table_text(hcells), dashes] + rows, seq![Seq::<char>::empty(), count]);
    lemma_unlines_two(table_text(hcells), dashes);
    lemma_unlines_two(Seq::<char>::empty(), count);
    reveal_strlit(" repositories\n");
    reveal_strlit(" repositories");
    assert(table_spec(rs, todos) =~= unlines(ls));
    // every line is free of line feeds
    lemma_header_one_line(todos, nw, bw);
    lemma_chars_one_line(seq![' ', ' ']);
    lemma_no_line_feed_count(table_text(hcells));
    lemma_repeat_one_line('-', at_least(byte_len(trim_end(header)), 40));
    lemma_chars_one_line(Seq::<char>::empty());
    lemma_dec_one_line(rs.len());
    lemma_chars_one_line(" repositories"@);
    lemma_concat_one_line(dec(rs.len()), " repositories"@);
    assert forall|i: int| 0 <= i < ls.len() implies one_line_text(#[trigger] ls[i]) by {
        if 2 <= i < rs.len() + 2 {
            let r = rs[i - 2];
            assert(ls[i] == rows[i - 2]);
            lemma_row_text_one_line(r, todos, nw, bw);
        }
    }
    lemma_lines_of_unlines(ls);
    assert forall|k: int| 0 <= k < rs.len() implies {
        let line = #[trigger] lines_of(table_spec(rs, todos))[k + 2];
        &&& rs[k].name@.len() <= line.len()
        &&& line.take(rs[k].name@.len() as int) == rs[k].name@
        &&& line.skip(line.len() - truncate_spec(rs[k].last_commit_subject@, 48).len())
            == truncate_spec(rs[k].last_commit_subject@, 48)
    } by {
        let r = rs[k];
        let c = row_cells(r, todos, nw, bw);
        let sep: Seq<char> = seq![' ', ' '];
        let line = table_text(c);
        assert(lines_of(table_spec(rs, todos))[k + 2] == ls[k + 2]);
        assert(ls[k + 2] == line);
        lemma_join_front(c, sep);
        assert(c[0] == pad_right(r.name@, nw));
        assert(pad_right(r.name@, nw).take(r.name@.len() as int) =~= r.name@);
        assert(line.take(r.name@.len() as int) =~= r.name@);
        let t = truncate_spec(r.last_commit_subject@, 48);
        assert(c.last() == t);
        assert(line == join_with(c.drop_last(), sep) + sep + t);
        assert(line.skip(line.len() - t.len()) =~= t);
    }
}

proof fn lemma_no_line_feed_count(t: Seq<char>)
    requires
        line_feeds(t + seq!['\n']) == 1,
    ensures
        one_line_text(t),
{
    lemma_line_feeds_concat(t, seq!['\n']);
    let lf: Seq<char> = seq!['\n'];
    assert(lf.drop_last() =~= Seq::<char>::empty());
    assert(line_feeds(Seq::<char>::empty()) == 0);
    assert(line_feeds(lf) == 1);
    lemma_line_feeds_zero(t);
}

proof fn lemma_line_feeds_zero(t: Seq<char>)
    requires
        line_feeds(t) == 0,
    ensures
        one_line_text(t),
    decreases t.len(),
{
    if t.len() > 0 {
        lemma_line_feeds_zero(t.drop_last());
        if t.contains('\n') {
            let i = choose|i: int| 0 <= i < t.len() && t[i] == '\n';
            if i < t.len() - 1 {
                assert(t.drop_last()[i] == '\n');
                assert(t.drop_last().contains('\n'));
            }
        }
    }
}

proof fn lemma_row_text_one_line(r: RepoInfo, todos: bool, nw: nat, bw: nat)
    requires
        repo_one_line(r),
    ensures
        one_line_text(table_text(row_cells(r, todos, nw, bw))),
{
    lemma_row_one_line(r, todos, nw, bw);
    lemma_no_line_feed_count(table_text(row_cells(r, todos, nw, bw)));
}

/// One row of the report, without its line feed.
pub open spec fn md_text(cells: Seq<Seq<char>>) -> Seq<char> {
    seq!['|', ' '] + join_with(cells, seq![' ', '|', ' ']) + seq![' ', '|']
}

/// The rows that `md_rows` writes, without their line feeds.
pub open spec fn md_texts(rs: Seq<RepoInfo>, todos: bool) -> Seq<Seq<char>> {
    rs.map_values(|r: RepoInfo| md_text(md_cells(r, todos)))
}

proof fn lemma_md_rows_unlines(rs: Seq<RepoInfo>, todos: bool)
    ensures
        md_rows(rs, todos) == unlines(md_texts(rs, todos)),
    decreases rs.len(),
{
    let ls = md_texts(rs, todos);
    if rs.len() > 0 {
        lemma_md_rows_unlines(rs.drop_last(), todos);
        assert(ls.drop_last() =~= md_texts(rs.drop_last(), todos));
        assert(md_row(md_cells(rs.last(), todos)) =~= md_text(md_cells(rs.last(), todos))
            + seq!['\n']);
        assert(md_rows(rs, todos) =~= unlines(ls));
    } else {
        assert(ls =~= Seq::<Seq<char>>::empty());
    }
}

proof fn lemma_unlines_one(a: Seq<char>)
    ensures
        unlines(seq![a]) == a + seq!['\n'],
{
    assert(seq![a].drop_last() =~= Seq::<Seq<char>>::empty());
    assert(unlines(Seq::<Seq<char>>::empty()) == Seq::<char>::empty());
    assert(seq![a].last() == a);
    assert(unlines(seq![a]) =~= a + seq!['\n']);
}

proof fn lemma_unlines_push(v: Seq<Seq<char>>, x: Seq<char>)
    ensures
        unlines(v.push(x)) == unlines(v) + x + seq!['\n'],
{
    assert(v.push(x).drop_last() =~= v);
    assert(v.push(x).last() == x);
}

proof fn lemma_unlines_five(a: Seq<char>, b: Seq<char>, c: Seq<char>, d: Seq<char>, f: Seq<char>)
    ensures
        unlines(seq![a, b, c, d, f]) == a + seq!['\n'] + b + seq!['\n'] + c + seq!['\n'] + d
            + seq!['\n'] + f + seq!['\n'],
{
    let e = Seq::<Seq<char>>::empty();
    lemma_unlines_push(e, a);
    lemma_unlines_push(e.push(a), b);
    lemma_unlines_push(e.push(a).push(b), c);
    lemma_unlines_push(e.push(a).push(b).push(c), d);
    lemma_unlines_push(e.push(a).push(b).push(c).push(d), f);
    assert(seq![a, b, c, d, f] =~= e.push(a).push(b).push(c).push(d).push(f));
    assert(unlines(seq![a, b, c, d, f]) =~= a + seq!['\n'] + b + seq!['\n'] + c + seq!['\n'] + d
        + seq!['\n'] + f + seq!['\n']);
}

proof fn lemma_unlines_six(
    a: Seq<char>,
    b: Seq<char>,
    c: Seq<char>,
    d: Seq<char>,
    f: Seq<char>,
    g: Seq<char>,
)
    ensures
        unlines(seq![a, b, c, d, f, g]) == a + seq!['\n'] + b + seq!['\n'] + c + seq!['\n'] + d
            + seq!['\n'] + f + seq!['\n'] + g + seq!['\n'],
{
    lemma_unlines_five(a, b, c, d, f);
    lemma_unlines_push(seq![a, b, c, d, f], g);
    assert(seq![a, b, c, d, f, g] =~= seq![a, b, c, d, f].push(g));
    assert(unlines(seq![a, b, c, d, f, g]) =~= a + seq!['\n'] + b + seq!['\n'] + c + seq!['\n']
        + d + seq!['\n'] + f + seq!['\n'] + g + seq!['\n']);
}

/// The column titles of the report's table head.
pub open spec fn md_titles(todos: bool) -> Seq<char> {
    if todos {
        "| Repository | Branch | Last Commit | Dirty | Ahead/Behind | Languages | T/F/H | Subject |"@
    } else {
        "| Repository | Branch | Last Commit | Dirty | Ahead/Behind | Languages | Subject |"@
    }
}

/// The rule under the report's table head.
pub open spec fn md_rule(todos: bool) -> Seq<char> {
    if todos {
        "|---|---|---|---|---|---|---|---|"@
    } else {
        "|---|---|---|---|---|---|---|"@
    }
}

proof fn lemma_md_head_split(todos: bool)
    ensures
        md_head(todos) == md_titles(todos) + seq!['\n'] + md_rule(todos) + seq!['\n'],
        one_line_text(md_titles(todos)),
        one_line_text(md_rule(todos)),
{
    if todos {
        reveal_strlit("| Repository | Branch | Last Commit | Dirty | Ahead/Behind | Languages | T/F/H | Subject |");
        reveal_strlit("| Repository | Branch | Last Commit | Dirty | Ahead/Behind | Languages | T/F/H | Subject |\n");
        reveal_strlit("|---|---|---|---|---|---|---|---|");
        reveal_strlit("|---|---|---|---|---|---|---|---|\n");
    } else {
        reveal_strlit("| Repository | Branch | Last Commit | Dirty | Ahead/Behind | Languages | Subject |");
        reveal_strlit("| Repository | Branch | Last Commit | Dirty | Ahead/Behind | Languages | Subject |\n");
        reveal_strlit("|---|---|---|---|---|---|---|");
        reveal_strlit("|---|---|---|---|---|---|---|\n");
    }
    lemma_chars_one_line(md_titles(todos));
    lemma_chars_one_line(md_rule(todos));
    assert(md_head(todos) =~= md_titles(todos) + seq!['\n'] + md_rule(todos) + seq!['\n']);
}

/// The count line of the report.
pub open spec fn md_count(n: nat) -> Seq<char> {
    seq!['*', '*'] + dec(n) + " repositories**"@
}

/// The signature line of the report.
pub open spec fn md_signature() -> Seq<char> {
    "Made by synth with synthclaw \u{1F3B9}\u{1F99E}"@
}

/// The lines of the report, without their line feeds.
pub open spec fn md_lines(root: Seq<char>, rs: Seq<RepoInfo>, todos: bool) -> Seq<Seq<char>> {
    let e = Seq::<char>::empty();
    seq!["# Fleet Status"@, e, "Scanned: `"@ + root + seq!['`'], e, md_titles(todos), md_rule(todos)]
        + md_texts(rs, todos) + seq![e, md_count(rs.len()), e, "---"@, md_signature()]
}

proof fn lemma_markdown_unlines(root: Seq<char>, rs: Seq<RepoInfo>, todos: bool)
    ensures
        markdown_spec(root, rs, todos) == unlines(md_lines(root, rs, todos)),
{
    let lf: Seq<char> = seq!['\n'];
    let e = Seq::<char>::empty();
    let top = seq!["# Fleet Status"@, e, "Scanned: `"@ + root + seq!['`'], e, md_titles(todos), md_rule(todos)];
    let rows = md_texts(rs, todos);
    let bottom = seq![e, md_count(rs.len()), e, "---"@, md_signature()];
    lemma_md_rows_unlines(rs, todos);
    lemma_unlines_append(top, rows);
    lemma_unlines_append(top + rows, bottom);
    lemma_unlines_six("# Fleet Status"@, e, "Scanned: `"@ + root + seq!['`'], e, md_titles(todos), md_rule(todos));
    lemma_unlines_five(e, md_count(rs.len()), e, "---"@, md_signature());
    lemma_md_head_split(todos);
    reveal_strlit("# Fleet Status");
    reveal_strlit("# Fleet Status\n\n");
    reveal_strlit("`\n\n");
    reveal_strlit("\n**");
    reveal_strlit(" repositories**");
    reveal_strlit(" repositories**\n");
    reveal_strlit("---");
    reveal_strlit("Made by synth with synthclaw \u{1F3B9}\u{1F99E}");
    reveal_strlit("\n---\nMade by synth with synthclaw \u{1F3B9}\u{1F99E}\n");
    assert(md_lines(root, rs, todos) == top + rows + bottom);
    assert(markdown_spec(root, rs, todos) =~= unlines(md_lines(root, rs, todos)));
}

proof fn lemma_md_lines_one_line(root: Seq<char>, rs: Seq<RepoInfo>, todos: bool)
    requires
        one_line_text(root),
        forall|i: int| 0 <= i < rs.len() ==> report_one_line(#[trigger] rs[i]),
    ensures
        forall|i: int|
            0 <= i < md_lines(root, rs, todos).len() ==> one_line_text(
                #[trigger] md_lines(root, rs, todos)[i],
            ),
{
    let ls = md_lines(root, rs, todos);
    let e = Seq::<char>::empty();
    reveal_strlit("# Fleet Status");
    reveal_strlit("Scanned: `");
    reveal_strlit(" repositories**");
    reveal_strlit("---");
    reveal_strlit("Made by synth with synthclaw \u{1F3B9}\u{1F99E}");
    lemma_md_head_split(todos);
    lemma_chars_one_line("# Fleet Status"@);
    lemma_chars_one_line("Scanned: `"@);
    lemma_chars_one_line(seq!['`']);
    lemma_chars_one_line(seq!['*', '*']);
    lemma_chars_one_line(" repositories**"@);
    lemma_chars_one_line("---"@);
    lemma_chars_one_line(md_signature());
    lemma_chars_one_line(e);
    lemma_concat_one_line("Scanned: `"@, root);
    lemma_concat_one_line("Scanned: `"@ + root, seq!['`']);
    lemma_dec_one_line(rs.len());
    lemma_concat_one_line(seq!['*', '*'], dec(rs.len()));
    lemma_concat_one_line(seq!['*', '*'] + dec(rs.len()), " repositories**"@);
    assert forall|i: int| 0 <= i < ls.len() implies one_line_text(#[trigger] ls[i]) by {
        if 6 <= i < rs.len() + 6 {
            let r = rs[i - 6];
            assert(ls[i] == md_text(md_cells(r, todos)));
            lemma_md_row_one_line(r, todos);
            assert(md_row(md_cells(r, todos)) =~= md_text(md_cells(r, todos)) + seq!['\n']);
            lemma_no_line_feed_count(md_text(md_cells(r, todos)));
        }
    }
}

/// The report read line by line: the title, the scanned root, the table head, then
/// each repository's row in order (which starts with "| " and its name), the count
/// and the signature, with blank lines between them, when neither the root nor any
/// repository brings a line feed into it.
pub proof fn lemma_report_read_back(root: Seq<char>, rs: Seq<RepoInfo>, todos: bool)
    requires
        one_line_text(root),
        forall|i: int| 0 <= i < rs.len() ==> report_one_line(#[trigger] rs[i]),
    ensures
        lines_of(markdown_spec(root, rs, todos)) == md_lines(root, rs, todos),
        md_lines(root, rs, todos).len() == rs.len() + 11,
        md_lines(root, rs, todos)[0] == "# Fleet Status"@,
        md_lines(root, rs, todos)[2] == "Scanned: `"@ + root + seq!['`'],
        md_lines(root, rs, todos)[4] == md_titles(todos),
        forall|k: int|
            0 <= k < rs.len() ==> #[trigger] md_lines(root, rs, todos)[k + 6] == md_text(
                md_cells(rs[k], todos),
            ),
        forall|k: int|
            0 <= k < rs.len() ==> (#[trigger] md_lines(root, rs, todos)[k + 6]).take(
                rs[k].name@.len() as int + 2,
            ) == seq!['|', ' '] + rs[k].name@,
        md_lines(root, rs, todos)[rs.len() as int + 7] == md_count(rs.len()),
{
    let ls = md_lines(root, rs, todos);
    lemma_markdown_unlines(root, rs, todos);
    lemma_md_lines_one_line(root, rs, todos);
    lemma_lines_of_unlines(ls);
    assert forall|k: int| 0 <= k < rs.len() implies (#[trigger] ls[k + 6]).take(
        rs[k].name@.len() as int + 2,
    ) == seq!['|', ' '] + rs[k].name@ by {
        let c = md_cells(rs[k], todos);
        let sep: Seq<char> = seq![' ', '|', ' '];
        assert(ls[k + 6] == md_text(c));
        lemma_join_front(c, sep);
        assert(c[0] == rs[k].name@);
        assert(md_text(c).take(rs[k].name@.len() as int + 2) =~= seq!['|', ' '] + rs[k].name@);
    }
}

/// `s` cut at each `c`: the pieces between the occurrences of `c`, in order.
pub open spec fn split_at_char(s: Seq<char>, c: char) -> Seq<Seq<char>>
    decreases s.len(),
{
    if s.len() == 0 {
        seq![Seq::empty()]
    } else {
        let prev = split_at_char(s.drop_last(), c);
        if s.last() == c {
            prev.push(Seq::empty())
        } else {
            prev.update(prev.len() - 1, prev.last().push(s.last()))
        }
    }
}

/// Position of the last `c` in `s`, or -1 when there is none.
pub open spec fn last_index_of(s: Seq<char>, c: char) -> int
    decreases s.len(),
{
    if s.len() == 0 {
        -1
    } else if s.last() == c {
        s.len() - 1
    } else {
        last_index_of(s.drop_last(), c)
    }
}

/// The languages field of a record as a script reads it back: unescaped.
pub open spec fn langs_field(r: RepoInfo) -> Seq<char> {
    unescape_spec(record_fields(r)[10])
}

proof fn lemma_split_plain(y: Seq<char>, c: char)
    requires
        !y.contains(c),
    ensures
        split_at_char(y, c) == seq![y],
    decreases y.len(),
{
    if y.len() == 0 {
        assert(y =~= Seq::<char>::empty());
    } else {
        let d = y.drop_last();
        assert(!d.contains(c)) by {
            if d.contains(c) {
                let i = choose|i: int| 0 <= i < d.len() && d[i] == c;
                assert(y[i] == c);
            }
        }
        lemma_split_plain(d, c);
        assert(y.last() != c) by {
            assert(y[y.len() - 1] == y.last());
        }
        assert(d.push(y.last()) =~= y);
        assert(seq![d].last() == d);
        assert(seq![d].update(0, d.push(y.last())) =~= seq![y]);
        assert(split_at_char(y, c) == seq![d].update(0, d.push(y.last())));
    }
}

proof fn lemma_split_after(x: Seq<char>, y: Seq<char>, c: char)
    requires
        !y.contains(c),
    ensures
        split_at_char(x + seq![c] + y, c) == split_at_char(x, c).push(y),
        last_index_of(x + seq![c] + y, c) == x.len(),
    decreases y.len(),
{
    let s = x + seq![c] + y;
    if y.len() == 0 {
        assert(y =~= Seq::<char>::empty());
        assert(s =~= x.push(c));
        assert(s.drop_last() =~= x);
        assert(s.last() == c);
    } else {
        let d = y.drop_last();
        assert(!d.contains(c)) by {
            if d.contains(c) {
                let i = choose|i: int| 0 <= i < d.len() && d[i] == c;
                assert(y[i] == c);
            }
        }
        lemma_split_after(x, d, c);
        assert(y.last() != c) by {
            assert(y[y.len() - 1] == y.last());
        }
        assert(s.drop_last() =~= x + seq![c] + d);
        assert(s.last() == y.last());
        let prev = split_at_char(x, c).push(d);
        assert(d.push(y.last()) =~= y);
        assert(prev.last() == d);
        assert(prev.update(prev.len() - 1, d.push(y.last())) =~= split_at_char(x, c).push(y));
        assert(split_at_char(s, c) == prev.update(prev.len() - 1, prev.last().push(s.last())));
    }
}

proof fn lemma_digits_lack(s: Seq<char>, c: char)
    requires
        all_digits(s),
        !is_digit(c),
    ensures
        !s.contains(c),
{
    if s.contains(c) {
        let i = choose|i: int| 0 <= i < s.len() && s[i] == c;
        assert(is_digit(s[i]));
    }
}

proof fn lemma_csv_item_read_back(l: LangCount)
    requires
        !l.lang@.contains(','),
    ensures
        !csv_item(l).contains(','),
        last_index_of(csv_item(l), ':') == l.lang@.len(),
        csv_item(l).take(l.lang@.len() as int) == l.lang@,
        all_digits(csv_item(l).skip(l.lang@.len() as int + 1)),
        digits_value(csv_item(l).skip(l.lang@.len() as int + 1)) == l.lines,
{
    let n = dec(l.lines as nat);
    lemma_dec_digits(l.lines as nat);
    lemma_digits_lack(n, ':');
    lemma_digits_lack(n, ',');
    lemma_split_after(l.lang@, n, ':');
    let item = csv_item(l);
    assert(item == l.lang@ + seq![':'] + n);
    assert(item.take(l.lang@.len() as int) =~= l.lang@);
    assert(item.skip(l.lang@.len() as int + 1) =~= n);
    if item.contains(',') {
        let i = choose|i: int| 0 <= i < item.len() && item[i] == ',';
        if i < l.lang@.len() {
            assert(l.lang@[i] == ',');
        } else if i > l.lang@.len() {
            assert(n[i - l.lang@.len() - 1] == ',');
        }
    }
}

proof fn lemma_lang_csv_split(s: Seq<LangCount>)
    requires
        s.len() > 0,
        forall|k: int| 0 <= k < s.len() ==> !(#[trigger] s[k]).lang@.contains(','),
    ensures
        split_at_char(lang_csv(s), ',') == s.map_values(|l: LangCount| csv_item(l)),
    decreases s.len(),
{
    let last = s.last();
    assert(s[s.len() - 1] == last);
    lemma_csv_item_read_back(last);
    if s.len() == 1 {
        lemma_split_plain(csv_item(last), ',');
        assert(s.map_values(|l: LangCount| csv_item(l)) =~= seq![csv_item(last)]);
    } else {
        let d = s.drop_last();
        assert forall|k: int| 0 <= k < d.len() implies !(#[trigger] d[k]).lang@.contains(',') by {
            assert(d[k] == s[k]);
        }
        lemma_lang_csv_split(d);
        lemma_split_after(lang_csv(d), csv_item(last), ',');
        assert(s.map_values(|l: LangCount| csv_item(l)) =~= d.map_values(
            |l: LangCount| csv_item(l),
        ).push(csv_item(last)));
    }
}

/// The languages field of a record is read back exactly: unescaped, cut at each
/// comma, and each piece cut at its last colon, it gives every language's name and
/// its line count as decimal digits whose value is the exact count, in order (when
/// no language name holds a comma). With no languages the field is empty.
pub proof fn lemma_langs_field_read_back(r: RepoInfo)
    requires
        forall|k: int| 0 <= k < r.languages@.len() ==> !(
        #[trigger] r.languages@[k]).lang@.contains(','),
    ensures
        r.languages@.len() == 0 ==> langs_field(r) == Seq::<char>::empty(),
        r.languages@.len() > 0 ==> split_at_char(langs_field(r), ',').len()
            == r.languages@.len(),
        r.languages@.len() > 0 ==> forall|k: int|
            0 <= k < r.languages@.len() ==> {
                let item = #[trigger] split_at_char(langs_field(r), ',')[k];
                let p = last_index_of(item, ':');
                &&& p >= 0
                &&& item.take(p) == r.languages@[k].lang@
                &&& all_digits(item.skip(p + 1))
                &&& digits_value(item.skip(p + 1)) == r.languages@[k].lines
            },
{
    let s = r.languages@;
    lemma_escape_roundtrip(lang_csv(s));
    assert(langs_field(r) == lang_csv(s));
    if s.len() > 0 {
        lemma_lang_csv_split(s);
        assert forall|k: int| 0 <= k < s.len() implies {
            let item = #[trigger] split_at_char(langs_field(r), ',')[k];
            let p = last_index_of(item, ':');
            &&& p >= 0
            &&& item.take(p) == s[k].lang@
            &&& all_digits(item.skip(p + 1))
            &&& digits_value(item.skip(p + 1)) == s[k].lines
        } by {
            assert(split_at_char(langs_field(r), ',')[k] == csv_item(s[k]));
            lemma_csv_item_read_back(s[k]);
        }
    }
}

} // verus!
