//! TODO / FIXME / HACK marker counts.
use vstd::prelude::*;

verus! {

/// Marker occurrences found in a repository's source files.
#[derive(Debug, Clone, Copy, PartialEq, Eq, Structural)]
pub struct MarkerCounts {
    pub todo: u32,
    pub fixme: u32,
    pub hack: u32,
}

impl Default for MarkerCounts {
    fn default() -> (r: Self)
        ensures
            r.todo == 0 && r.fixme == 0 && r.hack == 0,
    {
        MarkerCounts { todo: 0, fixme: 0, hack: 0 }
    }
}

/// The marker `TODO`.
pub open spec fn todo_word() -> Seq<char> {
    seq!['T', 'O', 'D', 'O']
}

/// The marker `FIXME`.
pub open spec fn fixme_word() -> Seq<char> {
    seq!['F', 'I', 'X', 'M', 'E']
}

/// The marker `HACK`.
pub open spec fn hack_word() -> Seq<char> {
    seq!['H', 'A', 'C', 'K']
}

/// Whether `s` begins with `p`.
pub open spec fn starts_with(s: Seq<char>, p: Seq<char>) -> bool {
    p.len() <= s.len() && s.take(p.len() as int) == p
}

/// Marker counts of a text, `(TODO, FIXME, HACK)`: the text is read from left to
/// right, each marker is counted where it starts and reading goes on after it, so
/// occurrences do not overlap. No marker holds a line break, so this is the sum of
/// what each line gives.
pub open spec fn tally(s: Seq<char>) -> (nat, nat, nat)
    decreases s.len(),
{
    if s.len() == 0 {
        (0, 0, 0)
    } else if starts_with(s, todo_word()) {
        let t = tally(s.skip(4));
        (t.0 + 1, t.1, t.2)
    } else if starts_with(s, fixme_word()) {
        let t = tally(s.skip(5));
        (t.0, t.1 + 1, t.2)
    } else if starts_with(s, hack_word()) {
        let t = tally(s.skip(4));
        (t.0, t.1, t.2 + 1)
    } else {
        tally(s.skip(1))
    }
}

/// Whether `w` occurs in `s` at position `i`.
fn word_at(s: &Vec<char>, i: usize, w: &Vec<char>) -> (r: bool)
    requires
        i <= s@.len(),
    ensures
        r == starts_with(s@.skip(i as int), w@),
{
    if w.len() > s.len() - i {
        return false;
    }
    let mut k: usize = 0;
    while k < w.len()
        invariant
            i + w.len() <= s.len(),
            k <= w.len(),
            forall|j: int| 0 <= j < k ==> #[trigger] s@[i + j] == w@[j],
        decreases w@.len() - k,
    {
        if s[i + k] != w[k] {
            proof {
                assert(s@.skip(i as int).take(w@.len() as int)[k as int] == s@[i + k]);
            }
            return false;
        }
        k = k + 1;
    }
    assert forall|j: int| 0 <= j < w@.len() implies #[trigger] s@.skip(i as int).take(
        w@.len() as int,
    )[j] == w@[j] by {
        assert(s@[i + j] == w@[j]);
    }
    assert(s@.skip(i as int).take(w@.len() as int) =~= w@);
    true
}

/// The tally of the characters `s`.
fn tally_chars(s: &Vec<char>) -> (r: (u64, u64, u64))
    ensures
        r.0 == tally(s@).0,
        r.1 == tally(s@).1,
        r.2 == tally(s@).2,
{
    let todo: Vec<char> = vec!['T', 'O', 'D', 'O'];
    let fixme: Vec<char> = vec!['F', 'I', 'X', 'M', 'E'];
    let hack: Vec<char> = vec!['H', 'A', 'C', 'K'];
    assert(todo@ =~= todo_word());
    assert(fixme@ =~= fixme_word());
    assert(hack@ =~= hack_word());
    let mut t: u64 = 0;
    let mut f: u64 = 0;
    let mut h: u64 = 0;
    let mut i: usize = 0;
    assert(s@.skip(0) =~= s@);
    while i < s.len()
        invariant
            i <= s@.len(),
            todo@ == todo_word(),
            fixme@ == fixme_word(),
            hack@ == hack_word(),
            t + f + h <= i,
            t + tally(s@.skip(i as int)).0 == tally(s@).0,
            f + tally(s@.skip(i as int)).1 == tally(s@).1,
            h + tally(s@.skip(i as int)).2 == tally(s@).2,
        decreases s@.len() - i,
    {
        let ghost rest = s@.skip(i as int);
        if word_at(s, i, &todo) {
            assert(rest.skip(4) =~= s@.skip(i + 4));
            t = t + 1;
            i = i + 4;
        } else if word_at(s, i, &fixme) {
            assert(rest.skip(5) =~= s@.skip(i + 5));
            f = f + 1;
            i = i + 5;
        } else if word_at(s, i, &hack) {
            assert(rest.skip(4) =~= s@.skip(i + 4));
            h = h + 1;
            i = i + 4;
        } else {
            assert(rest.skip(1) =~= s@.skip(i + 1));
            i = i + 1;
        }
    }
    assert(s@.skip(i as int).len() == 0);
    (t, f, h)
}

/// Adds the TODO, FIXME and HACK occurrences of `text` to `counts`.
/// Counting is case-sensitive and takes no account of word boundaries.
pub fn tally_markers(text: &str, counts: &mut MarkerCounts)
    requires
        old(counts).todo + tally(text@).0 <= u32::MAX,
        old(counts).fixme + tally(text@).1 <= u32::MAX,
        old(counts).hack + tally(text@).2 <= u32::MAX,
    ensures
        final(counts).todo == old(counts).todo + tally(text@).0,
        final(counts).fixme == old(counts).fixme + tally(text@).1,
        final(counts).hack == old(counts).hack + tally(text@).2,
{
    let chars = crate::text::chars_of(text);
    let (t, f, h) = tally_chars(&chars);
    counts.todo = counts.todo + t as u32;
    counts.fixme = counts.fixme + f as u32;
    counts.hack = counts.hack + h as u32;
}

/// `tally_markers` where the sums fit in `u32`: returns `true` and adds the
/// occurrences of `text`; otherwise returns `false` and leaves `counts` as it was.
pub fn try_tally_markers(text: &str, counts: &mut MarkerCounts) -> (ok: bool)
    ensures
        ok == (old(counts).todo + tally(text@).0 <= u32::MAX && old(counts).fixme + tally(
            text@,
        ).1 <= u32::MAX && old(counts).hack + tally(text@).2 <= u32::MAX),
        ok ==> final(counts).todo == old(counts).todo + tally(text@).0 && final(counts).fixme
            == old(counts).fixme + tally(text@).1 && final(counts).hack == old(counts).hack
            + tally(text@).2,
        !ok ==> *final(counts) == *old(counts),
{
    let chars = crate::text::chars_of(text);
    let (t, f, h) = tally_chars(&chars);
    if t > (u32::MAX - counts.todo) as u64 || f > (u32::MAX - counts.fixme) as u64 || h > (
    u32::MAX - counts.hack) as u64 {
        return false;
    }
    counts.todo = counts.todo + t as u32;
    counts.fixme = counts.fixme + f as u32;
    counts.hack = counts.hack + h as u32;
    true
}

proof fn lemma_starts_with_across_newline(a: Seq<char>, b: Seq<char>, w: Seq<char>)
    requires
        forall|j: int| 0 <= j < w.len() ==> #[trigger] w[j] != '\n',
    ensures
        starts_with(a + seq!['\n'] + b, w) == starts_with(a, w),
{
    let s = a + seq!['\n'] + b;
    if a.len() >= w.len() {
        assert(s.take(w.len() as int) =~= a.take(w.len() as int));
    } else if starts_with(s, w) {
        assert(s.take(w.len() as int)[a.len() as int] == s[a.len() as int]);
        assert(s[a.len() as int] == '\n');
    }
}

/// The tally of two pieces of text joined by a line break is the sum of their
/// tallies: markers are counted line by line.
pub proof fn lemma_tally_lines(a: Seq<char>, b: Seq<char>)
    ensures
        tally(a + seq!['\n'] + b).0 == tally(a).0 + tally(b).0,
        tally(a + seq!['\n'] + b).1 == tally(a).1 + tally(b).1,
        tally(a + seq!['\n'] + b).2 == tally(a).2 + tally(b).2,
    decreases a.len(),
{
    let s = a + seq!['\n'] + b;
    lemma_starts_with_across_newline(a, b, todo_word());
    lemma_starts_with_across_newline(a, b, fixme_word());
    lemma_starts_with_across_newline(a, b, hack_word());
    if a.len() == 0 {
        assert(s.skip(1) =~= b);
    } else if starts_with(a, todo_word()) {
        assert(s.skip(4) =~= a.skip(4) + seq!['\n'] + b);
        lemma_tally_lines(a.skip(4), b);
    } else if starts_with(a, fixme_word()) {
        assert(s.skip(5) =~= a.skip(5) + seq!['\n'] + b);
        lemma_tally_lines(a.skip(5), b);
    } else if starts_with(a, hack_word()) {
        assert(s.skip(4) =~= a.skip(4) + seq!['\n'] + b);
        lemma_tally_lines(a.skip(4), b);
    } else {
        assert(s.skip(1) =~= a.skip(1) + seq!['\n'] + b);
        lemma_tally_lines(a.skip(1), b);
    }
}

/// Occurrences of the word `w` alone in `s`, read from left to right without
/// overlap, as `str::matches(w).count()` counts them.
pub open spec fn count_word(s: Seq<char>, w: Seq<char>) -> nat
    decreases s.len(),
{
    if s.len() == 0 || w.len() == 0 {
        0
    } else if starts_with(s, w) {
        1 + count_word(s.skip(w.len() as int), w)
    } else {
        count_word(s.skip(1), w)
    }
}

proof fn lemma_count_word_skip(s: Seq<char>, w: Seq<char>, k: int)
    requires
        w.len() > 0,
        0 <= k <= s.len(),
        forall|j: int| 0 <= j < k ==> #[trigger] s[j] != w[0],
    ensures
        count_word(s, w) == count_word(s.skip(k), w),
    decreases k,
{
    if k > 0 {
        assert(!starts_with(s, w)) by {
            if starts_with(s, w) {
                assert(s.take(w.len() as int)[0] == s[0]);
            }
        }
        let t = s.skip(1);
        assert forall|j: int| 0 <= j < k - 1 implies #[trigger] t[j] != w[0] by {
            assert(t[j] == s[j + 1]);
        }
        lemma_count_word_skip(t, w, k - 1);
        assert(t.skip(k - 1) =~= s.skip(k));
    } else {
        assert(s.skip(0) =~= s);
    }
}

/// Each marker is counted as if it were searched for alone: the tally of a text
/// gives, for TODO, FIXME and HACK, the non-overlapping occurrences of that word,
/// read from left to right. (No marker can start inside another one.)
pub proof fn lemma_tally_per_word(s: Seq<char>)
    ensures
        tally(s).0 == count_word(s, todo_word()),
        tally(s).1 == count_word(s, fixme_word()),
        tally(s).2 == count_word(s, hack_word()),
    decreases s.len(),
{
    let tw = todo_word();
    let fw = fixme_word();
    let hw = hack_word();
    if s.len() > 0 {
        if starts_with(s, tw) {
            assert(s.take(4) == tw);
            assert forall|j: int| 0 <= j < 4 implies s[j] == #[trigger] tw[j] by {
                assert(s.take(4)[j] == s[j]);
            }
            lemma_count_word_skip(s, fw, 4);
            lemma_count_word_skip(s, hw, 4);
            lemma_tally_per_word(s.skip(4));
        } else if starts_with(s, fw) {
            assert(s.take(5) == fw);
            assert forall|j: int| 0 <= j < 5 implies s[j] == #[trigger] fw[j] by {
                assert(s.take(5)[j] == s[j]);
            }
            lemma_count_word_skip(s, tw, 5);
            lemma_count_word_skip(s, hw, 5);
            lemma_tally_per_word(s.skip(5));
        } else if starts_with(s, hw) {
            assert(s.take(4) == hw);
            assert forall|j: int| 0 <= j < 4 implies s[j] == #[trigger] hw[j] by {
                assert(s.take(4)[j] == s[j]);
            }
            lemma_count_word_skip(s, tw, 4);
            lemma_count_word_skip(s, fw, 4);
            lemma_tally_per_word(s.skip(4));
        } else {
            lemma_tally_per_word(s.skip(1));
        }
    }
}

} // verus!
