//! Parsers for what `git` prints, and the decisions taken on it.
use vstd::prelude::*;
use crate::text::{
    chars_of, find_char, first_pos, is_ws, lemma_first_pos_bounds, lemma_trim_start_skip,
    parse_i64_range, parse_i64_spec, parse_u32_range, parse_u32_spec, string_of_range, trim,
    trim_bounds, trim_start, char_is_ws, trimmed, push_str, dec, dec_signed, lemma_first_pos,
    lemma_dec_digits, lemma_parse_u32_dec, lemma_parse_i64_dec, lemma_dec_signed_trimmed, is_digit,
};

verus! {

/// What `parse_last_commit` gives for the text `s`: the text is cut at its first
/// two `|`; the first piece, trimmed, is the epoch; the second, trimmed, the date,
/// which must not be empty; the rest, trimmed, the subject (empty when there is no
/// second `|`).
pub open spec fn last_commit_spec(s: Seq<char>) -> Option<(i64, Seq<char>, Seq<char>)> {
    let p1 = first_pos(s, '|');
    if p1 >= s.len() {
        None
    } else {
        let rest = s.skip(p1 + 1);
        let p2 = first_pos(rest, '|');
        let date = trim(rest.take(p2));
        let subject = if p2 < rest.len() {
            trim(rest.skip(p2 + 1))
        } else {
            Seq::<char>::empty()
        };
        match parse_i64_spec(trim(s.take(p1))) {
            None => None,
            Some(epoch) => if date.len() == 0 {
                None
            } else {
                Some((epoch, date, subject))
            },
        }
    }
}

/// Parses one line of `git log -1 --format=%ct|%cs|%s`: epoch, date and subject.
/// The subject keeps any further `|`.
pub fn parse_last_commit(line: &str) -> (r: Option<(i64, String, String)>)
    ensures
        r is None <==> last_commit_spec(line@) is None,
        r matches Some(x) ==> last_commit_spec(line@) == Some((x.0, x.1@, x.2@)),
{
    let s = chars_of(line);
    let n = s.len();
    let p1 = find_char(&s, 0, n, '|');
    proof {
        assert(s@.subrange(0, n as int) =~= s@);
        lemma_first_pos_bounds(s@, '|');
    }
    if p1 >= n {
        return None;
    }
    let p2 = find_char(&s, p1 + 1, n, '|');
    let ghost rest = s@.skip(p1 + 1);
    proof {
        assert(s@.subrange(p1 + 1, n as int) =~= rest);
        lemma_first_pos_bounds(rest, '|');
    }
    let (e0, e1) = trim_bounds(&s, 0, p1);
    assert(s@.subrange(0, p1 as int) =~= s@.take(p1 as int));
    let epoch = match parse_i64_range(&s, e0, e1) {
        Some(v) => v,
        None => return None,
    };
    let (d0, d1) = trim_bounds(&s, p1 + 1, p2);
    assert(s@.subrange(p1 + 1, p2 as int) =~= rest.take(p2 - (p1 + 1)));
    if d0 == d1 {
        return None;
    }
    let date = string_of_range(&s, d0, d1);
    let subject = if p2 < n {
        let (s0, s1) = trim_bounds(&s, p2 + 1, n);
        assert(s@.subrange(p2 + 1, n as int) =~= rest.skip(p2 - p1));
        string_of_range(&s, s0, s1)
    } else {
        String::new()
    };
    Some((epoch, date, subject))
}

/// Number of characters before the first white space of `s`.
pub open spec fn token_len(s: Seq<char>) -> nat
    decreases s.len(),
{
    if s.len() > 0 && !is_ws(s[0]) {
        1 + token_len(s.drop_first())
    } else {
        0
    }
}

proof fn lemma_token_len(s: Seq<char>, k: int)
    requires
        0 <= k <= s.len(),
        forall|i: int| 0 <= i < k ==> !is_ws(#[trigger] s[i]),
        k == s.len() || is_ws(s[k]),
    ensures
        token_len(s) == k,
    decreases k,
{
    if k > 0 {
        let t = s.drop_first();
        assert forall|i: int| 0 <= i < k - 1 implies !is_ws(#[trigger] t[i]) by {
            assert(t[i] == s[i + 1]);
        }
        lemma_token_len(t, k - 1);
    }
}

/// The first white-space separated word of `s` and the text after it, as
/// `str::split_whitespace` finds it; `None` when `s` is all white space.
pub open spec fn first_word(s: Seq<char>) -> Option<(Seq<char>, Seq<char>)> {
    let t = trim_start(s);
    if t.len() == 0 {
        None
    } else {
        Some((t.take(token_len(t) as int), t.skip(token_len(t) as int)))
    }
}

/// What `parse_ahead_behind` gives for the text `s`: its first two words,
/// each read as a `u32`.
pub open spec fn ahead_behind_spec(s: Seq<char>) -> Option<(u32, u32)> {
    match first_word(s) {
        None => None,
        Some((w1, r1)) => match parse_u32_spec(w1) {
            None => None,
            Some(a) => match first_word(r1) {
                None => None,
                Some((w2, _)) => match parse_u32_spec(w2) {
                    None => None,
                    Some(b) => Some((a, b)),
                },
            },
        },
    }
}

/// Bounds of the first word of `s[lo..hi]` inside `s`, when there is one.
fn next_word(s: &Vec<char>, lo: usize, hi: usize) -> (r: Option<(usize, usize)>)
    requires
        lo <= hi <= s@.len(),
    ensures
        r is None <==> first_word(s@.subrange(lo as int, hi as int)) is None,
        r matches Some(b) ==> lo <= b.0 < b.1 <= hi && first_word(
            s@.subrange(lo as int, hi as int),
        ) == Some((s@.subrange(b.0 as int, b.1 as int), s@.subrange(b.1 as int, hi as int))),
{
    let ghost t = s@.subrange(lo as int, hi as int);
    let mut a: usize = lo;
    while a < hi && char_is_ws(s[a])
        invariant
            lo <= a <= hi <= s@.len(),
            forall|i: int| lo <= i < a ==> is_ws(#[trigger] s@[i]),
        decreases hi - a,
    {
        a = a + 1;
    }
    proof {
        assert forall|i: int| 0 <= i < a - lo implies is_ws(#[trigger] t[i]) by {
            assert(t[i] == s@[lo + i]);
        }
        lemma_trim_start_skip(t, a - lo);
        assert(t.skip(a - lo) =~= s@.subrange(a as int, hi as int));
    }
    if a == hi {
        return None;
    }
    let mut b: usize = a;
    while b < hi && !char_is_ws(s[b])
        invariant
            a <= b <= hi <= s@.len(),
            forall|i: int| a <= i < b ==> !is_ws(#[trigger] s@[i]),
        decreases hi - b,
    {
        b = b + 1;
    }
    proof {
        let u = s@.subrange(a as int, hi as int);
        assert forall|i: int| 0 <= i < b - a implies !is_ws(#[trigger] u[i]) by {
            assert(u[i] == s@[a + i]);
        }
        lemma_token_len(u, b - a);
        assert(u.take(b - a) =~= s@.subrange(a as int, b as int));
        assert(u.skip(b - a) =~= s@.subrange(b as int, hi as int));
    }
    Some((a, b))
}

/// Parses `git rev-list --left-right --count` output ("A\tB"): commits ahead
/// and behind the upstream.
pub fn parse_ahead_behind(line: &str) -> (r: Option<(u32, u32)>)
    ensures
        r == ahead_behind_spec(line@),
{
    let s = chars_of(line);
    let n = s.len();
    assert(s@.subrange(0, n as int) =~= s@);
    let (a0, a1) = match next_word(&s, 0, n) {
        Some(b) => b,
        None => return None,
    };
    let ahead = match parse_u32_range(&s, a0, a1) {
        Some(v) => v,
        None => return None,
    };
    let (b0, b1) = match next_word(&s, a1, n) {
        Some(b) => b,
        None => return None,
    };
    let behind = match parse_u32_range(&s, b0, b1) {
        Some(v) => v,
        None => return None,
    };
    Some((ahead, behind))
}

/// What the first `git` call of a branch lookup (`symbolic-ref --short HEAD`)
/// decides: the branch, or that a short revision must be asked for.
pub enum BranchStep {
    /// The current branch.
    Known(String),
    /// HEAD is detached or the call failed: ask `rev-parse --short HEAD`.
    AskShortRev,
}

/// The output trimmed, when the call succeeded and the trimmed text is not empty.
pub open spec fn nonempty_trim(out: Option<&str>) -> Option<Seq<char>> {
    match out {
        Some(o) => if trim(o@).len() > 0 {
            Some(trim(o@))
        } else {
            None
        },
        None => None,
    }
}

/// First step of the branch lookup, from the output of `git symbolic-ref --short HEAD`
/// (`None` when the call failed).
pub fn branch_from_symbolic_ref(out: Option<&str>) -> (r: BranchStep)
    ensures
        nonempty_trim(out) is None ==> r is AskShortRev,
        nonempty_trim(out) matches Some(b) ==> r matches BranchStep::Known(k) && k@ == b,
{
    match out {
        Some(o) => {
            let b = trimmed(o);
            if b.as_str().is_empty() {
                BranchStep::AskShortRev
            } else {
                BranchStep::Known(b)
            }
        },
        None => BranchStep::AskShortRev,
    }
}

/// The label of a detached HEAD, from the output of `git rev-parse --short HEAD`
/// (`None` when the call failed).
pub fn detached_branch(out: Option<&str>) -> (r: Option<String>)
    ensures
        r is None <==> out is None,
        r matches Some(b) ==> b@ == "(detached "@ + trim(out.unwrap()@) + ")"@,
{
    match out {
        Some(o) => {
            let mut b = String::new();
            push_str(&mut b, "(detached ");
            let t = trimmed(o);
            push_str(&mut b, t.as_str());
            push_str(&mut b, ")");
            Some(b)
        },
        None => None,
    }
}

/// The last commit, from the output of `git log -1 --format=%ct|%cs|%s`
/// (`None` when the call failed): the trimmed output, parsed.
pub fn last_commit_from_log(out: Option<&str>) -> (r: Option<(i64, String, String)>)
    ensures
        out is None ==> r is None,
        out matches Some(o) ==> (r is None <==> last_commit_spec(trim(o@)) is None),
        out matches Some(o) ==> (r matches Some(x) ==> last_commit_spec(trim(o@)) == Some(
            (x.0, x.1@, x.2@),
        )),
{
    match out {
        Some(o) => {
            let t = trimmed(o);
            parse_last_commit(t.as_str())
        },
        None => None,
    }
}

/// Number of lines of `s` (pieces between line breaks) that hold more than white space.
pub open spec fn busy_lines(s: Seq<char>) -> nat
    decreases s.len(),
{
    let p = first_pos(s, '\n');
    let here: nat = if trim(s.take(p)).len() > 0 {
        1
    } else {
        0
    };
    proof {
        lemma_first_pos_bounds(s, '\n');
    }
    if p < s.len() {
        here + busy_lines(s.skip(p + 1))
    } else {
        here
    }
}

/// Whether the work tree is dirty and how many changed files, from the output of
/// `git status --porcelain` (`None` when the call failed): the lines that hold
/// more than white space, counted in a `u32` (which keeps the low 32 bits).
pub fn dirty_from_status(out: Option<&str>) -> (r: (bool, u32))
    ensures
        out is None ==> r == (false, 0u32),
        out matches Some(o) ==> r.1 == #[verifier::truncate] (busy_lines(o@) as u32) && r.0 == (r.1 > 0),
{
    match out {
        Some(o) => {
            let s = chars_of(o);
            let n: usize = s.len();
            let mut i: usize = 0;
            let mut count: usize = 0;
            assert(s@.skip(0) =~= s@);
            loop
                invariant
                    i <= n == s@.len(),
                    s@ == o@,
                    out == Some(o),
                    count <= i,
                    busy_lines(s@) == count + busy_lines(s@.skip(i as int)),
                decreases n - i,
            {
                let ghost rest = s@.skip(i as int);
                let p = find_char(&s, i, n, '\n');
                proof {
                    assert(s@.subrange(i as int, n as int) =~= rest);
                    lemma_first_pos_bounds(rest, '\n');
                    assert(s@.subrange(i as int, p as int) =~= rest.take(p - i));
                }
                let (a, b) = trim_bounds(&s, i, p);
                if a < b {
                    count = count + 1;
                }
                if p >= n {
                    let k = #[verifier::truncate] (count as u32);
                    return (k > 0, k);
                }
                assert(rest.skip(p - i + 1) =~= s@.skip(p + 1));
                i = p + 1;
            }
        },
        None => (false, 0),
    }
}

/// The upstream branch, from the output of
/// `git rev-parse --abbrev-ref --symbolic-full-name @{upstream}` (`None` when the call
/// failed): the trimmed output, when it is not empty.
pub fn upstream_from_output(out: Option<&str>) -> (r: Option<String>)
    ensures
        r is None <==> nonempty_trim(out) is None,
        r matches Some(u) ==> nonempty_trim(out) == Some(u@),
{
    match out {
        Some(o) => {
            let u = trimmed(o);
            if u.as_str().is_empty() {
                None
            } else {
                Some(u)
            }
        },
        None => None,
    }
}

/// Upstream, ahead and behind counts, from the upstream name and the output of
/// `git rev-list --left-right --count HEAD...@{upstream}` (`None` when the call failed).
pub fn ahead_behind_from_output(upstream: String, out: Option<&str>) -> (r: Option<
    (String, u32, u32),
>)
    ensures
        out is None ==> r is None,
        out matches Some(o) ==> (r is None <==> ahead_behind_spec(trim(o@)) is None),
        out matches Some(o) ==> (r matches Some(x) ==> x.0@ == upstream@ && ahead_behind_spec(
            trim(o@),
        ) == Some((x.1, x.2))),
{
    match out {
        Some(o) => {
            let t = trimmed(o);
            match parse_ahead_behind(t.as_str()) {
                Some((a, b)) => Some((upstream, a, b)),
                None => None,
            }
        },
        None => None,
    }
}

/// What `git log -1 --format=%ct|%cs|%s` prints is read back: the epoch, the trimmed
/// date and the trimmed subject, whatever the subject holds, when the date holds no
/// `|` and is not blank.
pub proof fn lemma_last_commit_roundtrip(epoch: i64, date: Seq<char>, subject: Seq<char>)
    requires
        !date.contains('|'),
        trim(date).len() > 0,
    ensures
        last_commit_spec(dec_signed(epoch as int) + seq!['|'] + date + seq!['|'] + subject) == Some(
            (epoch, trim(date), trim(subject)),
        ),
{
    let e = dec_signed(epoch as int);
    let s = e + seq!['|'] + date + seq!['|'] + subject;
    lemma_dec_signed_trimmed(epoch as int);
    lemma_parse_i64_dec(epoch);
    assert forall|i: int| 0 <= i < e.len() implies #[trigger] s[i] != '|' by {
        assert(s[i] == e[i]);
    }
    assert(s[e.len() as int] == '|');
    lemma_first_pos(s, '|', e.len() as int);
    assert(s.take(e.len() as int) =~= e);
    let rest = s.skip(e.len() as int + 1);
    assert(rest =~= date + seq!['|'] + subject);
    assert forall|i: int| 0 <= i < date.len() implies #[trigger] rest[i] != '|' by {
        assert(rest[i] == date[i]);
    }
    lemma_first_pos(rest, '|', date.len() as int);
    assert(rest.take(date.len() as int) =~= date);
    assert(rest.skip(date.len() as int + 1) =~= subject);
}

/// What `git rev-list --left-right --count` prints ("A\tB") is read back.
pub proof fn lemma_ahead_behind_roundtrip(a: u32, b: u32)
    ensures
        ahead_behind_spec(dec(a as nat) + seq!['\t'] + dec(b as nat)) == Some((a, b)),
{
    let da = dec(a as nat);
    let db = dec(b as nat);
    let s = da + seq!['\t'] + db;
    lemma_dec_digits(a as nat);
    lemma_dec_digits(b as nat);
    lemma_parse_u32_dec(a);
    lemma_parse_u32_dec(b);
    assert(is_digit(da[0]));
    assert(s[0] == da[0]);
    assert(trim_start(s) == s);
    assert forall|i: int| 0 <= i < da.len() implies !is_ws(#[trigger] s[i]) by {
        assert(s[i] == da[i]);
        assert(is_digit(da[i]));
    }
    assert(s[da.len() as int] == '\t');
    lemma_token_len(s, da.len() as int);
    assert(s.take(da.len() as int) =~= da);
    let r1 = s.skip(da.len() as int);
    assert(r1 =~= seq!['\t'] + db);
    assert(forall|i: int| 0 <= i < 1 ==> is_ws(#[trigger] r1[i]));
    assert(is_digit(db[0]));
    assert(r1[1] == db[0]);
    lemma_trim_start_skip(r1, 1);
    assert(r1.skip(1) =~= db);
    assert forall|i: int| 0 <= i < db.len() implies !is_ws(#[trigger] db[i]) by {
        assert(is_digit(db[i]));
    }
    lemma_token_len(db, db.len() as int);
    assert(db.take(db.len() as int) =~= db);
}

} // verus!
