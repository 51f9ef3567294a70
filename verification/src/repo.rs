//! What is known of one repository, the errors of a scan, and the fleet order.
use vstd::prelude::*;
use crate::langs::LangCount;
use crate::markers::MarkerCounts;
use crate::text::{push_str, seq_lt, text_lt, lemma_seq_lt_irreflexive, lemma_seq_lt_transitive, lemma_seq_lt_total};

verus! {

/// Everything we know about one repository on the grid.
#[derive(Debug, Clone)]
pub struct RepoInfo {
    /// The repository's path, as it is displayed.
    pub path: String,
    pub name: String,
    pub branch: String,
    pub last_commit_epoch: i64,
    pub last_commit_date: String,
    pub last_commit_subject: String,
    pub dirty: bool,
    pub dirty_files: u32,
    pub upstream: Option<String>,
    pub ahead: u32,
    pub behind: u32,
    pub languages: Vec<LangCount>,
    pub todos: Option<MarkerCounts>,
}

impl Default for RepoInfo {
    fn default() -> (r: Self)
        ensures
            r.path@ == Seq::<char>::empty(),
            r.name@ == Seq::<char>::empty(),
            r.branch@ == Seq::<char>::empty(),
            r.last_commit_epoch == 0,
            r.last_commit_date@ == Seq::<char>::empty(),
            r.last_commit_subject@ == Seq::<char>::empty(),
            !r.dirty,
            r.dirty_files == 0,
            r.upstream is None,
            r.ahead == 0,
            r.behind == 0,
            r.languages@ == Seq::<LangCount>::empty(),
            r.todos is None,
    {
        RepoInfo {
            path: String::new(),
            name: String::new(),
            branch: String::new(),
            last_commit_epoch: 0,
            last_commit_date: String::new(),
            last_commit_subject: String::new(),
            dirty: false,
            dirty_files: 0,
            upstream: None,
            ahead: 0,
            behind: 0,
            languages: Vec::new(),
            todos: None,
        }
    }
}

impl RepoInfo {
    /// Sort key: newest commit first. Repos with no commits sink to the bottom.
    pub fn sort_key(&self) -> (k: i64)
        requires
            self.last_commit_epoch > i64::MIN,
        ensures
            k == -self.last_commit_epoch,
    {
        -self.last_commit_epoch
    }
}

/// An error of a scan.
#[derive(Debug)]
pub enum NdError {
    /// An I/O error, with the error's message.
    Io(String),
    /// The root path does not exist.
    NotFound(String),
    /// The root path is not a directory.
    NotADirectory(String),
    /// A `git` failure, with its message.
    Git(String),
}

impl NdError {
    /// The error's message, as the report prints it.
    pub fn message(&self) -> (m: String)
        ensures
            self matches NdError::Io(e) ==> m@ == "io error: "@ + e@,
            self matches NdError::NotFound(p) ==> m@ == "path does not exist: "@ + p@,
            self matches NdError::NotADirectory(p) ==> m@ == "path is not a directory: "@ + p@,
            self matches NdError::Git(e) ==> m@ == "git error: "@ + e@,
    {
        let mut m = String::new();
        match self {
            NdError::Io(e) => {
                push_str(&mut m, "io error: ");
                push_str(&mut m, e.as_str());
            },
            NdError::NotFound(p) => {
                push_str(&mut m, "path does not exist: ");
                push_str(&mut m, p.as_str());
            },
            NdError::NotADirectory(p) => {
                push_str(&mut m, "path is not a directory: ");
                push_str(&mut m, p.as_str());
            },
            NdError::Git(e) => {
                push_str(&mut m, "git error: ");
                push_str(&mut m, e.as_str());
            },
        }
        m
    }
}

/// Checks the root of a scan before it is read: it must exist and be a directory.
pub fn check_root(root: &str, exists: bool, is_dir: bool) -> (r: Result<(), NdError>)
    ensures
        !exists ==> (r matches Err(NdError::NotFound(p)) && p@ == root@),
        exists && !is_dir ==> (r matches Err(NdError::NotADirectory(p)) && p@ == root@),
        exists && is_dir ==> r is Ok,
{
    if !exists {
        let mut p = String::new();
        push_str(&mut p, root);
        return Err(NdError::NotFound(p));
    }
    if !is_dir {
        let mut p = String::new();
        push_str(&mut p, root);
        return Err(NdError::NotADirectory(p));
    }
    Ok(())
}

/// Gathers what is known of one repository: branch "(unknown)" when it could not be
/// read, no commit (epoch 0, empty date and subject) when the log could not be read.
pub fn repo_info(
    path: String,
    name: String,
    branch: Option<String>,
    last_commit: Option<(i64, String, String)>,
    dirty: (bool, u32),
    upstream: Option<(String, u32, u32)>,
    languages: Vec<LangCount>,
    todos: Option<MarkerCounts>,
) -> (r: RepoInfo)
    ensures
        r.path == path,
        r.name == name,
        branch matches Some(b) ==> r.branch == b,
        branch is None ==> r.branch@ == "(unknown)"@,
        last_commit matches Some(c) ==> r.last_commit_epoch == c.0 && r.last_commit_date == c.1
            && r.last_commit_subject == c.2,
        last_commit is None ==> r.last_commit_epoch == 0 && r.last_commit_date@
            == Seq::<char>::empty() && r.last_commit_subject@ == Seq::<char>::empty(),
        r.dirty == dirty.0,
        r.dirty_files == dirty.1,
        upstream matches Some(u) ==> r.upstream == Some(u.0) && r.ahead == u.1 && r.behind
            == u.2,
        upstream is None ==> r.upstream is None && r.ahead == 0 && r.behind == 0,
        r.languages == languages,
        r.todos == todos,
{
    let branch = match branch {
        Some(b) => b,
        None => {
            let mut b = String::new();
            push_str(&mut b, "(unknown)");
            b
        },
    };
    let (epoch, date, subject) = match last_commit {
        Some(c) => c,
        None => (0, String::new(), String::new()),
    };
    let (upstream, ahead, behind) = match upstream {
        Some((u, a, b)) => (Some(u), a, b),
        None => (None, 0, 0),
    };
    RepoInfo {
        path,
        name,
        branch,
        last_commit_epoch: epoch,
        last_commit_date: date,
        last_commit_subject: subject,
        dirty: dirty.0,
        dirty_files: dirty.1,
        upstream,
        ahead,
        behind,
        languages,
        todos,
    }
}

/// `a` goes before `b` in the fleet: newer last commit first, then by name.
pub open spec fn fleet_before(a: RepoInfo, b: RepoInfo) -> bool {
    a.last_commit_epoch > b.last_commit_epoch || (a.last_commit_epoch == b.last_commit_epoch
        && seq_lt(a.name@, b.name@))
}

/// `a` and `b` have the same place in the fleet order.
pub open spec fn same_rank(a: RepoInfo, b: RepoInfo) -> bool {
    a.last_commit_epoch == b.last_commit_epoch && a.name@ == b.name@
}

/// `out` is `input` sorted into fleet order by a stable sort, `p` telling where
/// each entry of `out` was in `input`.
pub open spec fn stable_sorted(input: Seq<RepoInfo>, out: Seq<RepoInfo>, p: Seq<int>) -> bool {
    &&& out.len() == input.len()
    &&& p.len() == out.len()
    &&& forall|i: int| 0 <= i < p.len() ==> 0 <= #[trigger] p[i] < input.len()
    &&& forall|i: int, j: int| 0 <= i < j < p.len() ==> p[i] != p[j]
    &&& forall|i: int| 0 <= i < out.len() ==> #[trigger] out[i] == input[p[i]]
    &&& forall|i: int, j: int| 0 <= i < j < out.len() ==> !fleet_before(out[j], out[i])
    &&& forall|i: int, j: int|
        0 <= i < j < out.len() && same_rank(out[i], out[j]) ==> p[i] < p[j]
}

/// The fleet order is a strict weak order whose ties are the entries of the same rank.
pub proof fn lemma_fleet_order(a: RepoInfo, b: RepoInfo, c: RepoInfo)
    ensures
        fleet_before(a, b) && fleet_before(b, c) ==> fleet_before(a, c),
        same_rank(a, b) ==> !fleet_before(a, b),
        fleet_before(a, b) && same_rank(b, c) ==> fleet_before(a, c),
        fleet_before(a, b) && same_rank(a, c) ==> fleet_before(c, b),
        !fleet_before(a, b) && !fleet_before(b, a) ==> same_rank(a, b),
{
    lemma_seq_lt_irreflexive(a.name@);
    lemma_seq_lt_total(a.name@, b.name@);
    if fleet_before(a, b) && fleet_before(b, c) && a.last_commit_epoch == b.last_commit_epoch
        && b.last_commit_epoch == c.last_commit_epoch {
        lemma_seq_lt_transitive(a.name@, b.name@, c.name@);
    }
}

/// Whether `a` goes before `b` in the fleet.
fn fleet_before_exec(a: &RepoInfo, b: &RepoInfo) -> (r: bool)
    ensures
        r == fleet_before(*a, *b),
{
    a.last_commit_epoch > b.last_commit_epoch || (a.last_commit_epoch == b.last_commit_epoch
        && text_lt(a.name.as_str(), b.name.as_str()))
}

/// Sorts the fleet deterministically: newest commit first, ties broken by name;
/// entries of the same commit time and name keep their order.
pub fn sort_fleet(repos: Vec<RepoInfo>) -> (r: Vec<RepoInfo>)
    requires
        forall|i: int| 0 <= i < repos@.len() ==> (#[trigger] repos@[i]).last_commit_epoch > i64::MIN,
    ensures
        exists|p: Seq<int>| stable_sorted(repos@, r@, p),
{
    let ghost input = repos@;
    let ghost n = input.len();
    let mut rest = repos;
    let mut out: Vec<RepoInfo> = Vec::new();
    let ghost mut p: Seq<int> = Seq::empty();
    assert(input.skip(0) =~= input);
    while rest.len() > 0
        invariant
            rest@ == input.skip(out@.len() as int),
            out@.len() <= n == input.len(),
            p.len() == out@.len(),
            forall|i: int| 0 <= i < p.len() ==> 0 <= #[trigger] p[i] < out@.len(),
            forall|i: int, j: int| 0 <= i < j < p.len() ==> p[i] != p[j],
            forall|i: int| 0 <= i < out@.len() ==> #[trigger] out@[i] == input[p[i]],
            forall|i: int, j: int| 0 <= i < j < out@.len() ==> !fleet_before(out@[j], out@[i]),
            forall|i: int, j: int|
                0 <= i < j < out@.len() && same_rank(out@[i], out@[j]) ==> p[i] < p[j],
        decreases rest@.len(),
    {
        let ghost t = out@.len() as int;
        let e = rest.remove(0);
        assert(e == input[t]);
        assert(rest@ =~= input.skip(t + 1));
        let mut pos: usize = 0;
        while pos < out.len() && !fleet_before_exec(&e, &out[pos])
            invariant
                pos <= out@.len(),
                forall|q: int| 0 <= q < pos ==> !fleet_before(e, #[trigger] out@[q]),
            decreases out@.len() - pos,
        {
            pos = pos + 1;
        }
        let ghost before = out@;
        let ghost pb = p;
        proof {
            before.insert_ensures(pos as int, e);
            pb.insert_ensures(pos as int, t);
            p = pb.insert(pos as int, t);
        }
        out.insert(pos, e);
        proof {
            assert forall|i: int| 0 <= i < out@.len() implies #[trigger] out@[i] == (if i < pos {
                before[i]
            } else if i == pos {
                e
            } else {
                before[i - 1]
            }) && p[i] == (if i < pos {
                pb[i]
            } else if i == pos {
                t
            } else {
                pb[i - 1]
            }) by {
                if i > pos {
                    assert(out@[(i - 1) + 1] == before[i - 1]);
                    assert(p[(i - 1) + 1] == pb[i - 1]);
                }
            }
            assert forall|i: int| 0 <= i < p.len() implies 0 <= #[trigger] p[i] < out@.len() by {}
            assert forall|i: int, j: int| 0 <= i < j < p.len() implies p[i] != p[j] by {
                let x = p[i];
                let y = p[j];
            }
            assert forall|i: int| 0 <= i < out@.len() implies #[trigger] out@[i] == input[p[i]] by {}
            assert forall|i: int, j: int| 0 <= i < j < out@.len() implies !fleet_before(
                out@[j],
                out@[i],
            ) && (same_rank(out@[i], out@[j]) ==> p[i] < p[j]) by {
                let x = out@[i];
                let y = out@[j];
                if j < pos {
                    assert(x == before[i] && y == before[j]);
                } else if j == pos {
                    assert(x == before[i]);
                    assert(!fleet_before(e, before[i]));
                    lemma_fleet_order(before[i], e, e);
                } else if i < pos {
                    assert(x == before[i] && y == before[j - 1]);
                } else if i == pos {
                    assert(y == before[j - 1]);
                    assert(fleet_before(e, before[pos as int]));
                    if j - 1 > pos {
                        assert(!fleet_before(before[j - 1], before[pos as int]));
                    }
                    lemma_fleet_order(e, before[pos as int], before[j - 1]);
                    lemma_fleet_order(before[j - 1], e, before[pos as int]);
                    lemma_fleet_order(e, before[j - 1], before[pos as int]);
                    lemma_fleet_order(y, y, y);
                    lemma_fleet_order(before[pos as int], before[pos as int], before[pos as int]);
                } else {
                    assert(x == before[i - 1] && y == before[j - 1]);
                }
            }
        }
    }
    assert(stable_sorted(input, out@, p));
    out
}

/// The fleet order is the order of `sort_key` (the negated commit time), ties
/// broken by name.
pub proof fn lemma_fleet_order_by_sort_key(a: RepoInfo, b: RepoInfo)
    requires
        a.last_commit_epoch > i64::MIN,
        b.last_commit_epoch > i64::MIN,
    ensures
        fleet_before(a, b) <==> (-a.last_commit_epoch < -b.last_commit_epoch || (
        -a.last_commit_epoch == -b.last_commit_epoch && seq_lt(a.name@, b.name@))),
{
}

} // verus!
