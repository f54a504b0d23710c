//! Telling a model about the state of the project's repositories.
use crate::graph;
use crate::limit::{self, cut};
use crate::text;
use vstd::prelude::*;
use vstd::string::StringExecFns;

verus! {

/// How many bytes of a diff are shown where nothing else was asked for.
pub const DEFAULT_DIFF_BYTES: usize = 80_000;

/// How many bytes of a diff are shown at most.
pub const MAX_DIFF_BYTES: usize = 200_000;

/// What happened to one side of a tracked file.
#[derive(Clone, Copy, Debug, PartialEq, Eq)]
pub enum StatusCode {
    Modified,
    TypeChanged,
    Added,
    Deleted,
    Renamed,
    Copied,
    Unmodified,
}

/// What happened to a tracked file, in the index and in the working tree.
#[derive(Clone, Copy, Debug, PartialEq, Eq)]
pub struct TrackedStatus {
    pub index_status: StatusCode,
    pub worktree_status: StatusCode,
}

/// What happened to a file.
#[derive(Clone, Copy, Debug, PartialEq, Eq)]
pub enum FileStatus {
    Untracked,
    Ignored,
    Unmerged,
    Versioned(TrackedStatus),
}

/// The letter of a status, as in Git's porcelain format.
pub open spec fn status_letter(status: StatusCode) -> char {
    match status {
        StatusCode::Modified => 'M',
        StatusCode::TypeChanged => 'T',
        StatusCode::Added => 'A',
        StatusCode::Deleted => 'D',
        StatusCode::Renamed => 'R',
        StatusCode::Copied => 'C',
        StatusCode::Unmodified => ' ',
    }
}

/// The two letters of a file's status, as in Git's porcelain format.
pub open spec fn status_letters(status: FileStatus) -> Seq<char> {
    match status {
        FileStatus::Untracked => "??"@,
        FileStatus::Ignored => "!!"@,
        FileStatus::Unmerged => "UU"@,
        FileStatus::Versioned(sides) => seq![
            status_letter(sides.index_status),
            status_letter(sides.worktree_status),
        ],
    }
}

fn status_char(status: StatusCode) -> (res: char)
    ensures
        res == status_letter(status),
{
    match status {
        StatusCode::Modified => 'M',
        StatusCode::TypeChanged => 'T',
        StatusCode::Added => 'A',
        StatusCode::Deleted => 'D',
        StatusCode::Renamed => 'R',
        StatusCode::Copied => 'C',
        StatusCode::Unmodified => ' ',
    }
}

/// The two letters of a file's status, as in Git's porcelain format.
pub fn status_code(status: FileStatus) -> (res: String)
    ensures
        res@ == status_letters(status),
{
    match status {
        FileStatus::Untracked => "??".to_owned(),
        FileStatus::Ignored => "!!".to_owned(),
        FileStatus::Unmerged => "UU".to_owned(),
        FileStatus::Versioned(sides) => {
            let mut out = String::new();
            out.push(status_char(sides.index_status));
            out.push(status_char(sides.worktree_status));
            proof {
                assert(out@ =~= status_letters(status));
            }
            out
        },
    }
}

/// Cuts a diff off where it no longer fits.
pub fn truncate_utf8(diff: String, max_bytes: usize) -> (res: String)
    ensures
        res@ == limit::cut_off(diff@, max_bytes as nat, diff_notice()),
{
    cut(
        diff.as_str(),
        max_bytes,
        "\n\n[Diff truncated. Increase `max_bytes` to inspect more, up to 200000 bytes.]\n",
    )
}

/// What is said where a diff was cut off.
pub open spec fn diff_notice() -> Seq<char> {
    "\n\n[Diff truncated. Increase `max_bytes` to inspect more, up to 200000 bytes.]\n"@
}

/// How a branch stands to the one it follows.
#[derive(Clone, Copy, Debug, PartialEq, Eq)]
pub enum Tracking {
    Gone,
    Counted { ahead: u32, behind: u32 },
}

/// The branch that a branch follows.
pub struct Upstream {
    pub ref_name: String,
    pub tracking: Tracking,
}

/// A commit in short.
pub struct CommitSummary {
    pub sha: String,
    pub subject: String,
}

/// A branch of a repository.
pub struct BranchInfo {
    pub name: String,
    pub is_head: bool,
    pub upstream: Option<Upstream>,
    pub most_recent_commit: Option<CommitSummary>,
}

/// A file that is not as it was committed.
pub struct StatusEntry {
    pub status: FileStatus,
    pub path: String,
}

/// The state of a repository.
pub struct RepositoryStatus {
    /// Where its working tree is.
    pub path: String,
    pub branch: Option<BranchInfo>,
    pub entries: Vec<StatusEntry>,
}

/// How many commits two branches are apart.
pub open spec fn apart(ahead: u32, behind: u32) -> Seq<char> {
    " (ahead "@ + text::decimal(ahead as nat) + ", behind "@ + text::decimal(behind as nat) + ")"@
}

fn apart_text(ahead: u32, behind: u32) -> (res: String)
    ensures
        res@ == apart(ahead, behind),
{
    text::cat5(
        " (ahead ",
        text::number(ahead as u128).as_str(),
        ", behind ",
        text::number(behind as u128).as_str(),
        ")",
    )
}

/// What is said of the branch that a branch follows.
pub open spec fn following(upstream: Option<Upstream>, mind_gone: bool) -> Seq<char> {
    match upstream {
        Some(up) => " -> "@ + up.ref_name@ + (match up.tracking {
            Tracking::Counted { ahead, behind } => apart(ahead, behind),
            Tracking::Gone => if mind_gone {
                " (upstream gone)"@
            } else {
                ""@
            },
        }),
        None => Seq::empty(),
    }
}

fn following_text(upstream: &Option<Upstream>, mind_gone: bool) -> (res: String)
    ensures
        res@ == following(*upstream, mind_gone),
{
    match upstream {
        Some(up) => {
            let state = match up.tracking {
                Tracking::Counted { ahead, behind } => apart_text(ahead, behind),
                Tracking::Gone => if mind_gone {
                    " (upstream gone)".to_owned()
                } else {
                    "".to_owned()
                },
            };
            text::cat3(" -> ", up.ref_name.as_str(), state.as_str())
        },
        None => {
            let none = String::new();
            proof {
                assert(none@ =~= Seq::empty());
            }
            none
        },
    }
}

/// The line that names a repository.
pub open spec fn heading(name: Seq<char>) -> Seq<char> {
    "# "@ + name + "\n"@
}

/// What is said of the branch a repository is on.
pub open spec fn branch_line(branch: Option<BranchInfo>) -> Seq<char> {
    match branch {
        Some(b) => "Branch: "@ + b.name@ + following(b.upstream, true) + "\n"@,
        None => "Branch: detached or unborn HEAD\n"@,
    }
}

/// What is said of the files of a repository.
pub open spec fn entry_lines(entries: Seq<StatusEntry>) -> Seq<char> {
    if entries.len() == 0 {
        "Working tree clean\n\n"@
    } else {
        text::flat(
            entries.map_values(
                |e: StatusEntry| status_letters(e.status) + " "@ + e.path@ + "\n"@,
            ),
        ) + "\n"@
    }
}

/// What is said of the state of a repository.
pub open spec fn status_part(repository: RepositoryStatus) -> Seq<char> {
    heading(repository.path@) + branch_line(repository.branch) + entry_lines(
        repository.entries@,
    )
}

/// Whether name `a` is listed before name `b`.
pub open spec fn listed_before(names: Seq<Seq<char>>, a: int, b: int) -> bool {
    text::comes_before(names[a], names[b])
}

/// A list of places in name order with one more, behind those not listed after it.
pub open spec fn with_place(names: Seq<Seq<char>>, places: Seq<int>, p: int) -> Seq<int>
    decreases places.len(),
{
    if places.len() > 0 && listed_before(names, p, places.last()) {
        with_place(names, places.drop_last(), p).push(places.last())
    } else {
        places.push(p)
    }
}

/// The places of the first `k` names, in name order; equals keep their order.
pub open spec fn name_order(names: Seq<Seq<char>>, k: int) -> Seq<int>
    decreases k,
{
    if k <= 0 {
        Seq::empty()
    } else {
        with_place(names, name_order(names, k - 1), k - 1)
    }
}

proof fn lemma_with_place(names: Seq<Seq<char>>, places: Seq<int>, p: int, at: int)
    requires
        0 <= at <= places.len(),
        forall|i: int| at <= i < places.len() ==> listed_before(names, p, #[trigger] places[i]),
        at > 0 ==> !listed_before(names, p, places[at - 1]),
    ensures
        with_place(names, places, p) == places.insert(at, p),
    decreases places.len(),
{
    if at == places.len() {
        assert(places.insert(at, p) =~= places.push(p));
    } else {
        assert(places.last() == places[places.len() - 1]);
        lemma_with_place(names, places.drop_last(), p, at);
        assert(places.insert(at, p) =~= places.drop_last().insert(at, p).push(places.last()));
    }
}

/// The places of some names, in name order.
pub fn sort_names(names: &Vec<String>) -> (res: Vec<usize>)
    ensures
        crate::search::numbers(res@) == name_order(graph::texts(names@), names@.len() as int),
        res@.len() == names@.len(),
        forall|i: int| 0 <= i < res@.len() ==> #[trigger] res@[i] < names@.len(),
{
    let ghost all = graph::texts(names@);
    let mut out: Vec<usize> = Vec::new();
    proof {
        assert(crate::search::numbers(out@) =~= Seq::empty());
    }
    for k in 0..names.len()
        invariant
            all == graph::texts(names@),
            crate::search::numbers(out@) == name_order(all, k as int),
            out@.len() == k,
            forall|i: int| 0 <= i < out@.len() ==> #[trigger] out@[i] < names@.len(),
    {
        let mut at: usize = out.len();
        while at > 0 && text::less(names[k].as_str(), names[out[at - 1]].as_str())
            invariant
                all == graph::texts(names@),
                k < names@.len(),
                at <= out@.len(),
                forall|i: int| 0 <= i < out@.len() ==> #[trigger] out@[i] < names@.len(),
                forall|i: int|
                    at <= i < out@.len() ==> listed_before(
                        all,
                        k as int,
                        #[trigger] crate::search::numbers(out@)[i],
                    ),
            ensures
                at > 0 ==> !listed_before(all, k as int, crate::search::numbers(out@)[at - 1]),
            decreases at,
        {
            at -= 1;
        }
        let ghost before = out@;
        out.insert(at, k);
        proof {
            lemma_with_place(all, crate::search::numbers(before), k as int, at as int);
            assert(crate::search::numbers(out@) =~= crate::search::numbers(before).insert(
                at as int,
                k as int,
            ));
        }
    }
    out
}

/// The names of some repositories.
pub open spec fn repository_names(repositories: Seq<RepositoryStatus>) -> Seq<Seq<char>> {
    repositories.map_values(|r: RepositoryStatus| r.path@)
}

/// What is said of the state of some repositories, in the order of their names.
pub open spec fn status_says(repositories: Seq<RepositoryStatus>) -> Seq<char> {
    let order = name_order(repository_names(repositories), repositories.len() as int);
    text::flat(order.map_values(|p: int| status_part(repositories[p])))
}

/// Puts the repositories of a project in the order of their names, which are the paths
/// of their working trees. A project without any has nothing to inspect.
pub fn repositories(names: &Vec<String>) -> (res: Result<Vec<usize>, String>)
    ensures
        match res {
            Ok(order) => names@.len() > 0 && crate::search::numbers(order@) == name_order(
                graph::texts(names@),
                names@.len() as int,
            ),
            Err(error) => names@.len() == 0 && error@
                == "The project does not contain a Git repository."@,
        },
{
    if names.len() == 0 {
        return Err("The project does not contain a Git repository.".to_owned());
    }
    Ok(sort_names(names))
}

fn status_text(repository: &RepositoryStatus) -> (res: String)
    ensures
        res@ == status_part(*repository),
{
    let mut out = text::cat3("# ", repository.path.as_str(), "\n");
    let branch = match &repository.branch {
        Some(b) => text::cat4(
            "Branch: ",
            b.name.as_str(),
            following_text(&b.upstream, true).as_str(),
            "\n",
        ),
        None => "Branch: detached or unborn HEAD\n".to_owned(),
    };
    out.append(branch.as_str());
    let files = if repository.entries.len() == 0 {
        "Working tree clean\n\n".to_owned()
    } else {
        let mut lines = text::none();
        let ghost f = |e: StatusEntry| status_letters(e.status) + " "@ + e.path@ + "\n"@;
        let ghost all = repository.entries@.map_values(f);
        proof {
            assert(all.take(0) =~= Seq::empty());
        }
        for k in 0..repository.entries.len()
            invariant
                f == (|e: StatusEntry| status_letters(e.status) + " "@ + e.path@ + "\n"@),
                all == repository.entries@.map_values(f),
                lines@ == text::flat(all.take(k as int)),
        {
            let entry = &repository.entries[k];
            let line = text::cat4(
                status_code(entry.status).as_str(),
                " ",
                entry.path.as_str(),
                "\n",
            );
            lines.append(line.as_str());
            proof {
                assert(all[k as int] == line@);
                assert(all.take(k + 1) =~= all.take(k as int).push(line@));
                text::lemma_flat_push(all.take(k as int), line@);
            }
        }
        proof {
            assert(all.take(all.len() as int) =~= all);
        }
        lines.append("\n");
        lines
    };
    out.append(files.as_str());
    out
}

/// Tells of the state of the project's repositories.
pub fn git_status(repositories: &Vec<RepositoryStatus>) -> (res: Result<String, String>)
    ensures
        match res {
            Ok(said) => repositories@.len() > 0 && said@ == status_says(repositories@),
            Err(error) => repositories@.len() == 0 && error@
                == "The project does not contain a Git repository."@,
        },
{
    if repositories.len() == 0 {
        return Err("The project does not contain a Git repository.".to_owned());
    }
    let mut names: Vec<String> = Vec::new();
    let ghost all = repository_names(repositories@);
    proof {
        assert(graph::texts(names@) =~= all.take(0));
    }
    for k in 0..repositories.len()
        invariant
            all == repository_names(repositories@),
            graph::texts(names@) == all.take(k as int),
    {
        let ghost before = names@;
        names.push(repositories[k].path.clone());
        proof {
            assert(all[k as int] == repositories@[k as int].path@);
            assert(graph::texts(names@) =~= graph::texts(before).push(all[k as int]));
            assert(all.take(k + 1) =~= all.take(k as int).push(all[k as int]));
        }
    }
    proof {
        assert(all.take(all.len() as int) =~= all);
        assert(graph::texts(names@).len() == names@.len());
    }
    let order = sort_names(&names);
    let ghost places = crate::search::numbers(order@);
    let ghost f = |p: int| status_part(repositories@[p]);
    let ghost parts = places.map_values(f);
    let mut out = text::none();
    proof {
        assert(parts.take(0) =~= Seq::empty());
    }
    for k in 0..order.len()
        invariant
            places == crate::search::numbers(order@),
            f == (|p: int| status_part(repositories@[p])),
            parts == places.map_values(f),
            parts.len() == order@.len(),
            forall|i: int| 0 <= i < order@.len() ==> #[trigger] order@[i] < repositories@.len(),
            out@ == text::flat(parts.take(k as int)),
    {
        let part = status_text(&repositories[order[k]]);
        out.append(part.as_str());
        proof {
            assert(places[k as int] == order@[k as int] as int);
            assert(parts[k as int] == part@);
            assert(parts.take(k + 1) =~= parts.take(k as int).push(part@));
            text::lemma_flat_push(parts.take(k as int), part@);
        }
    }
    proof {
        assert(parts.take(parts.len() as int) =~= parts);
    }
    Ok(out)
}

/// The branches of a repository, or why they could not be read.
pub struct RepositoryBranches {
    pub repository: String,
    pub result: Result<BranchScan, String>,
}

/// The branches found in a repository, and what went wrong on the way, if
/// anything did.
pub struct BranchScan {
    pub error: Option<String>,
    pub branches: Vec<BranchInfo>,
}

/// What is said of a branch.
pub open spec fn branch_entry(branch: BranchInfo) -> Seq<char> {
    (if branch.is_head {
        "* "@
    } else {
        "  "@
    }) + branch.name@ + following(branch.upstream, false) + (match branch.most_recent_commit {
        Some(commit) => " | "@ + commit.sha@ + " "@ + commit.subject@,
        None => ""@,
    }) + "\n"@
}

/// What is said of the branches of a repository.
pub open spec fn branches_part(repository: Seq<char>, scan: BranchScan) -> Seq<char> {
    heading(repository) + (match scan.error {
        Some(error) => "Warning: "@ + error@ + "\n"@,
        None => ""@,
    }) + (if scan.branches@.len() == 0 {
        "No branches found\n\n"@
    } else {
        text::flat(scan.branches@.map_values(|b: BranchInfo| branch_entry(b))) + "\n"@
    })
}

/// What is said of the branches of the first `k` repositories; the first one that
/// could not be read is all that is told.
pub open spec fn branches_say(jobs: Seq<RepositoryBranches>, k: int) -> Result<Seq<char>, Seq<char>>
    decreases k,
{
    if k <= 0 {
        Ok(Seq::empty())
    } else {
        match branches_say(jobs, k - 1) {
            Ok(said) => match jobs[k - 1].result {
                Ok(scan) => Ok(said + branches_part(jobs[k - 1].repository@, scan)),
                Err(error) => Err(
                    "Could not inspect branches for "@ + jobs[k - 1].repository@ + ": "@ + error@,
                ),
            },
            Err(error) => Err(error),
        }
    }
}

fn branch_text(branch: &BranchInfo) -> (res: String)
    ensures
        res@ == branch_entry(*branch),
{
    let commit = match &branch.most_recent_commit {
        Some(commit) => text::cat4(" | ", commit.sha.as_str(), " ", commit.subject.as_str()),
        None => "".to_owned(),
    };
    text::cat5(
        if branch.is_head {
            "* "
        } else {
            "  "
        },
        branch.name.as_str(),
        following_text(&branch.upstream, false).as_str(),
        commit.as_str(),
        "\n",
    )
}

fn branches_text(repository: &String, scan: &BranchScan) -> (res: String)
    ensures
        res@ == branches_part(repository@, *scan),
{
    let mut out = text::cat3("# ", repository.as_str(), "\n");
    let warning = match &scan.error {
        Some(error) => text::cat3("Warning: ", error.as_str(), "\n"),
        None => "".to_owned(),
    };
    out.append(warning.as_str());
    if scan.branches.len() == 0 {
        out.append("No branches found\n\n");
        return out;
    }
    let mut lines = text::none();
    let ghost all = scan.branches@.map_values(|b: BranchInfo| branch_entry(b));
    proof {
        assert(all.take(0) =~= Seq::empty());
    }
    for k in 0..scan.branches.len()
        invariant
            all == scan.branches@.map_values(|b: BranchInfo| branch_entry(b)),
            lines@ == text::flat(all.take(k as int)),
    {
        let line = branch_text(&scan.branches[k]);
        lines.append(line.as_str());
        proof {
            assert(all[k as int] == line@);
            assert(all.take(k + 1) =~= all.take(k as int).push(line@));
            text::lemma_flat_push(all.take(k as int), line@);
        }
    }
    proof {
        assert(all.take(all.len() as int) =~= all);
    }
    lines.append("\n");
    out.append(lines.as_str());
    out
}

/// A text result as a mathematical value.
pub open spec fn outcome(res: Result<String, String>) -> Result<Seq<char>, Seq<char>> {
    match res {
        Ok(said) => Ok(said@),
        Err(error) => Err(error@),
    }
}

/// Tells of the branches of the project's repositories.
pub fn git_branches(jobs: &Vec<RepositoryBranches>) -> (res: Result<String, String>)
    ensures
        outcome(res) == branches_say(jobs@, jobs@.len() as int),
{
    let mut out = text::none();
    for k in 0..jobs.len()
        invariant
            branches_say(jobs@, k as int) == Ok::<Seq<char>, Seq<char>>(out@),
    {
        match &jobs[k].result {
            Ok(scan) => {
                out.append(branches_text(&jobs[k].repository, scan).as_str());
            },
            Err(error) => {
                let told = text::cat4(
                    "Could not inspect branches for ",
                    jobs[k].repository.as_str(),
                    ": ",
                    error.as_str(),
                );
                proof {
                    lemma_branches_error(jobs@, k + 1, jobs@.len() as int);
                }
                return Err(told);
            },
        }
    }
    Ok(out)
}

proof fn lemma_branches_error(jobs: Seq<RepositoryBranches>, k: int, n: int)
    requires
        0 <= k <= n,
    ensures
        branches_say(jobs, k) is Err ==> branches_say(jobs, n) == branches_say(jobs, k),
    decreases n,
{
    if k < n {
        lemma_branches_error(jobs, k, n - 1);
    }
}

/// A remote of a repository.
pub struct RemoteInfo {
    pub name: String,
    pub url: String,
}

/// The remotes of a repository, or why they could not be read.
pub struct RepositoryRemotes {
    pub repository: String,
    pub result: Result<Vec<RemoteInfo>, String>,
}

/// What is said of the remotes of a repository, in the order of their names.
pub open spec fn remotes_part(repository: Seq<char>, remotes: Seq<RemoteInfo>) -> Seq<char> {
    heading(repository) + (if remotes.len() == 0 {
        "No remotes configured\n\n"@
    } else {
        let order = name_order(
            remotes.map_values(|r: RemoteInfo| r.name@),
            remotes.len() as int,
        );
        text::flat(
            order.map_values(|p: int| remotes[p].name@ + ": "@ + remotes[p].url@ + "\n"@),
        ) + "\n"@
    })
}

/// What is said of the remotes of the first `k` repositories; the first one that
/// could not be read is all that is told.
pub open spec fn remotes_say(jobs: Seq<RepositoryRemotes>, k: int) -> Result<Seq<char>, Seq<char>>
    decreases k,
{
    if k <= 0 {
        Ok(Seq::empty())
    } else {
        match remotes_say(jobs, k - 1) {
            Ok(said) => match jobs[k - 1].result {
                Ok(remotes) => Ok(said + remotes_part(jobs[k - 1].repository@, remotes@)),
                Err(error) => Err(
                    "Could not inspect remotes for "@ + jobs[k - 1].repository@ + ": "@ + error@,
                ),
            },
            Err(error) => Err(error),
        }
    }
}

fn remotes_text(repository: &String, remotes: &Vec<RemoteInfo>) -> (res: String)
    ensures
        res@ == remotes_part(repository@, remotes@),
{
    let mut out = text::cat3("# ", repository.as_str(), "\n");
    if remotes.len() == 0 {
        out.append("No remotes configured\n\n");
        return out;
    }
    let mut names: Vec<String> = Vec::new();
    let ghost all = remotes@.map_values(|r: RemoteInfo| r.name@);
    proof {
        assert(graph::texts(names@) =~= all.take(0));
    }
    for k in 0..remotes.len()
        invariant
            all == remotes@.map_values(|r: RemoteInfo| r.name@),
            graph::texts(names@) == all.take(k as int),
    {
        let ghost before = names@;
        names.push(remotes[k].name.clone());
        proof {
            assert(all[k as int] == remotes@[k as int].name@);
            assert(graph::texts(names@) =~= graph::texts(before).push(all[k as int]));
            assert(all.take(k + 1) =~= all.take(k as int).push(all[k as int]));
        }
    }
    proof {
        assert(all.take(all.len() as int) =~= all);
        assert(graph::texts(names@).len() == names@.len());
    }
    let order = sort_names(&names);
    let ghost places = crate::search::numbers(order@);
    let ghost f = |p: int| remotes@[p].name@ + ": "@ + remotes@[p].url@ + "\n"@;
    let ghost parts = places.map_values(f);
    let mut lines = text::none();
    proof {
        assert(parts.take(0) =~= Seq::empty());
    }
    for k in 0..order.len()
        invariant
            places == crate::search::numbers(order@),
            f == (|p: int| remotes@[p].name@ + ": "@ + remotes@[p].url@ + "\n"@),
            parts == places.map_values(f),
            parts.len() == order@.len(),
            forall|i: int| 0 <= i < order@.len() ==> #[trigger] order@[i] < remotes@.len(),
            lines@ == text::flat(parts.take(k as int)),
    {
        let remote = &remotes[order[k]];
        let line = text::cat4(remote.name.as_str(), ": ", remote.url.as_str(), "\n");
        lines.append(line.as_str());
        proof {
            assert(places[k as int] == order@[k as int] as int);
            assert(parts[k as int] == line@);
            assert(parts.take(k + 1) =~= parts.take(k as int).push(line@));
            text::lemma_flat_push(parts.take(k as int), line@);
        }
    }
    proof {
        assert(parts.take(parts.len() as int) =~= parts);
    }
    lines.append("\n");
    out.append(lines.as_str());
    out
}

/// Tells of the remotes of the project's repositories.
pub fn git_remotes(jobs: &Vec<RepositoryRemotes>) -> (res: Result<String, String>)
    ensures
        outcome(res) == remotes_say(jobs@, jobs@.len() as int),
{
    let mut out = text::none();
    for k in 0..jobs.len()
        invariant
            remotes_say(jobs@, k as int) == Ok::<Seq<char>, Seq<char>>(out@),
    {
        match &jobs[k].result {
            Ok(remotes) => {
                out.append(remotes_text(&jobs[k].repository, remotes).as_str());
            },
            Err(error) => {
                let told = text::cat4(
                    "Could not inspect remotes for ",
                    jobs[k].repository.as_str(),
                    ": ",
                    error.as_str(),
                );
                proof {
                    lemma_remotes_error(jobs@, k + 1, jobs@.len() as int);
                }
                return Err(told);
            },
        }
    }
    Ok(out)
}

proof fn lemma_remotes_error(jobs: Seq<RepositoryRemotes>, k: int, n: int)
    requires
        0 <= k <= n,
    ensures
        remotes_say(jobs, k) is Err ==> remotes_say(jobs, n) == remotes_say(jobs, k),
    decreases n,
{
    if k < n {
        lemma_remotes_error(jobs, k, n - 1);
    }
}

/// What a diff compares.
#[derive(Clone, Copy, Debug, PartialEq, Eq, Structural)]
pub enum GitDiffMode {
    /// The working tree against the last commit.
    Worktree,
    /// What is staged against the last commit.
    Staged,
    /// The last commit against where it left another branch.
    MergeBase,
}

impl Default for GitDiffMode {
    fn default() -> (res: Self)
        ensures
            res == GitDiffMode::Worktree,
    {
        GitDiffMode::Worktree
    }
}

/// What is asked about the state of the repositories: nothing in particular.
#[derive(Debug)]
pub struct GitStatusToolInput {}

/// What is asked about branches: nothing in particular.
#[derive(Debug)]
pub struct GitBranchesToolInput {}

/// What is asked about remotes: nothing in particular.
#[derive(Debug)]
pub struct GitRemotesToolInput {}

/// Which diff is asked for.
#[derive(Debug)]
pub struct GitDiffToolInput {
    pub mode: GitDiffMode,
    /// What a merge-base diff compares with.
    pub base_ref: Option<String>,
    /// How many bytes of each diff to show.
    pub max_bytes: Option<usize>,
}

/// Which revision is asked for.
#[derive(Debug)]
pub struct GitShowToolInput {
    pub revision: String,
}

/// The diff to take in every repository.
pub enum DiffType {
    HeadToWorktree,
    HeadToIndex,
    MergeBase { base_ref: String },
}

/// The diff to take, and how many bytes of it to show.
pub struct DiffRequest {
    pub diff: DiffType,
    pub max_bytes: usize,
}

/// A number kept between two others.
pub open spec fn between(n: nat, least: nat, most: nat) -> nat {
    if n < least {
        least
    } else if n > most {
        most
    } else {
        n
    }
}

/// How many bytes to show: what was asked for within limits, or the default.
pub open spec fn byte_limit(asked: Option<usize>, default: nat, most: nat) -> nat {
    match asked {
        Some(n) => between(n as nat, 1, most),
        None => between(default, 1, most),
    }
}

/// How many bytes to show.
pub fn clamp_bytes(asked: Option<usize>, default: usize, most: usize) -> (res: usize)
    requires
        most >= 1,
    ensures
        res == byte_limit(asked, default as nat, most as nat),
{
    let n: usize = match asked {
        Some(n) => n,
        None => default,
    };
    if n < 1 {
        1
    } else if n > most {
        most
    } else {
        n
    }
}

/// Works out which diff to take. A merge-base diff needs something to compare
/// with.
pub fn diff_request(input: &GitDiffToolInput) -> (res: Result<DiffRequest, String>)
    ensures
        match res {
            Ok(request) => {
                &&& request.max_bytes == byte_limit(
                    input.max_bytes,
                    DEFAULT_DIFF_BYTES as nat,
                    MAX_DIFF_BYTES as nat,
                )
                &&& match input.mode {
                    GitDiffMode::Worktree => request.diff is HeadToWorktree,
                    GitDiffMode::Staged => request.diff is HeadToIndex,
                    GitDiffMode::MergeBase => {
                        &&& input.base_ref matches Some(base)
                        &&& !text::is_blank(base@)
                        &&& request.diff matches DiffType::MergeBase { base_ref }
                        &&& base_ref@ == base@
                    },
                }
            },
            Err(error) => {
                &&& input.mode == GitDiffMode::MergeBase
                &&& match input.base_ref {
                    Some(base) => text::is_blank(base@),
                    None => true,
                }
                &&& error@ == "`base_ref` is required for a merge-base diff."@
            },
        },
{
    let max_bytes: usize = clamp_bytes(input.max_bytes, DEFAULT_DIFF_BYTES, MAX_DIFF_BYTES);
    let diff = match input.mode {
        GitDiffMode::Worktree => DiffType::HeadToWorktree,
        GitDiffMode::Staged => DiffType::HeadToIndex,
        GitDiffMode::MergeBase => match &input.base_ref {
            Some(base) => {
                if text::blank(base.as_str()) {
                    return Err("`base_ref` is required for a merge-base diff.".to_owned());
                }
                DiffType::MergeBase { base_ref: base.clone() }
            },
            None => {
                return Err("`base_ref` is required for a merge-base diff.".to_owned());
            },
        },
    };
    Ok(DiffRequest { diff, max_bytes })
}

/// The diff of a repository, or why it could not be read.
pub struct RepositoryDiff {
    pub repository: String,
    pub result: Result<String, String>,
}

/// What is said of the diff of a repository.
pub open spec fn diff_part(repository: Seq<char>, diff: Seq<char>, max_bytes: nat) -> Seq<char> {
    heading(repository) + (if diff.len() == 0 {
        "No changes\n\n"@
    } else {
        limit::cut_off(diff, max_bytes, diff_notice()) + "\n\n"@
    })
}

/// What is said of the diffs of the first `k` repositories; the first one that
/// could not be read is all that is told.
pub open spec fn diffs_say(jobs: Seq<RepositoryDiff>, max_bytes: nat, k: int) -> Result<
    Seq<char>,
    Seq<char>,
>
    decreases k,
{
    if k <= 0 {
        Ok(Seq::empty())
    } else {
        match diffs_say(jobs, max_bytes, k - 1) {
            Ok(said) => match jobs[k - 1].result {
                Ok(diff) => Ok(said + diff_part(jobs[k - 1].repository@, diff@, max_bytes)),
                Err(error) => Err(
                    "Could not read diff for "@ + jobs[k - 1].repository@ + ": "@ + error@,
                ),
            },
            Err(error) => Err(error),
        }
    }
}

/// Tells of the diffs of the project's repositories.
pub fn git_diff(jobs: &Vec<RepositoryDiff>, max_bytes: usize) -> (res: Result<String, String>)
    ensures
        outcome(res) == diffs_say(jobs@, max_bytes as nat, jobs@.len() as int),
{
    let mut out = text::none();
    for k in 0..jobs.len()
        invariant
            diffs_say(jobs@, max_bytes as nat, k as int) == Ok::<Seq<char>, Seq<char>>(out@),
    {
        match &jobs[k].result {
            Ok(diff) => {
                let mut part = text::cat3("# ", jobs[k].repository.as_str(), "\n");
                if diff.as_str().is_empty() {
                    part.append("No changes\n\n");
                } else {
                    let shown = truncate_utf8(diff.clone(), max_bytes);
                    part.append(text::cat2(shown.as_str(), "\n\n").as_str());
                }
                out.append(part.as_str());
            },
            Err(error) => {
                let told = text::cat4(
                    "Could not read diff for ",
                    jobs[k].repository.as_str(),
                    ": ",
                    error.as_str(),
                );
                proof {
                    lemma_diffs_error(jobs@, max_bytes as nat, k + 1, jobs@.len() as int);
                }
                return Err(told);
            },
        }
    }
    Ok(out)
}

proof fn lemma_diffs_error(jobs: Seq<RepositoryDiff>, max_bytes: nat, k: int, n: int)
    requires
        0 <= k <= n,
    ensures
        diffs_say(jobs, max_bytes, k) is Err ==> diffs_say(jobs, max_bytes, n) == diffs_say(
            jobs,
            max_bytes,
            k,
        ),
    decreases n,
{
    if k < n {
        lemma_diffs_error(jobs, max_bytes, k, n - 1);
    }
}

/// The revision to show: what was asked for, without the space around it.
pub fn revision_to_show(input: &GitShowToolInput) -> (res: Result<String, String>)
    ensures
        match res {
            Ok(revision) => !text::is_blank(input.revision@) && revision@ == text::trimmed(
                input.revision@,
            ),
            Err(error) => text::is_blank(input.revision@) && error@
                == "`revision` cannot be empty."@,
        },
{
    if text::blank(input.revision.as_str()) {
        return Err("`revision` cannot be empty.".to_owned());
    }
    Ok(text::trim(input.revision.as_str()).to_owned())
}

/// What a commit did to a file.
#[derive(Clone, Copy, Debug, PartialEq, Eq)]
pub enum CommitFileStatus {
    Added,
    Modified,
    Deleted,
}

/// A file that a commit changed.
pub struct CommitFile {
    pub status: CommitFileStatus,
    pub path: String,
}

/// What is known of a commit.
pub struct CommitDetails {
    pub sha: String,
    pub author_name: String,
    pub author_email: String,
    pub commit_timestamp: i64,
    pub message: String,
}

/// What a commit changed.
pub struct CommitDiff {
    pub files: Vec<CommitFile>,
    pub is_shallow_boundary: bool,
}

/// How looking a revision up in a repository ended.
pub enum RevisionLookup {
    Found { details: CommitDetails, diff: Result<CommitDiff, String> },
    /// The repository does not know the revision.
    NotFound(String),
    /// The repository could not be asked.
    Failed(String),
}

/// A revision looked up in a repository.
pub struct RepositoryRevision {
    pub repository: String,
    pub lookup: RevisionLookup,
}

/// The word for what a commit did to a file.
pub open spec fn change_word(status: CommitFileStatus) -> Seq<char> {
    match status {
        CommitFileStatus::Added => "Added"@,
        CommitFileStatus::Modified => "Modified"@,
        CommitFileStatus::Deleted => "Deleted"@,
    }
}

/// What is said of a commit.
pub open spec fn commit_part(repository: Seq<char>, details: CommitDetails, diff: CommitDiff) -> Seq<
    char,
> {
    heading(repository) + ("Commit: "@ + details.sha@ + "\n"@) + ("Author: "@
        + details.author_name@ + " <"@ + details.author_email@ + ">\n"@) + ("Timestamp: "@
        + text::signed_decimal(details.commit_timestamp as int) + "\n"@) + ("Message:\n"@
        + details.message@ + "\n"@) + (if diff.is_shallow_boundary {
        "Warning: this commit is a shallow-history boundary.\n"@
    } else {
        ""@
    }) + (if diff.files@.len() == 0 {
        "Changed files: none\n\n"@
    } else {
        "Changed files:\n"@ + text::flat(
            diff.files@.map_values(
                |f: CommitFile| "- "@ + change_word(f.status) + " "@ + f.path@ + "\n"@,
            ),
        ) + "\n"@
    })
}

/// What is said of a revision in the first `k` repositories. A repository that
/// does not know it is passed over where there are others; anything else that
/// goes wrong is all that is told.
pub open spec fn revisions_say(
    jobs: Seq<RepositoryRevision>,
    revision: Seq<char>,
    k: int,
) -> Result<Seq<char>, Seq<char>>
    decreases k,
{
    if k <= 0 {
        Ok(Seq::empty())
    } else {
        let job = jobs[k - 1];
        match revisions_say(jobs, revision, k - 1) {
            Ok(said) => match job.lookup {
                RevisionLookup::Found { details, diff: Ok(diff) } => Ok(
                    said + commit_part(job.repository@, details, diff),
                ),
                RevisionLookup::Found { details, diff: Err(error) } => Err(
                    "Could not read changed files for "@ + job.repository@ + ": "@ + error@,
                ),
                RevisionLookup::NotFound(error) => if jobs.len() > 1 {
                    Ok(
                        said + (heading(job.repository@) + "Revision not found: "@ + error@
                            + "\n\n"@),
                    )
                } else {
                    Err("Could not inspect "@ + revision + ": "@ + error@)
                },
                RevisionLookup::Failed(error) => Err(
                    "Could not inspect "@ + revision + ": "@ + error@,
                ),
            },
            Err(error) => Err(error),
        }
    }
}

fn change_text(status: CommitFileStatus) -> (res: &'static str)
    ensures
        res@ == change_word(status),
{
    match status {
        CommitFileStatus::Added => "Added",
        CommitFileStatus::Modified => "Modified",
        CommitFileStatus::Deleted => "Deleted",
    }
}

fn commit_text(repository: &String, details: &CommitDetails, diff: &CommitDiff) -> (res: String)
    ensures
        res@ == commit_part(repository@, *details, *diff),
{
    let mut out = text::cat3("# ", repository.as_str(), "\n");
    out.append(text::cat3("Commit: ", details.sha.as_str(), "\n").as_str());
    out.append(
        text::cat5(
            "Author: ",
            details.author_name.as_str(),
            " <",
            details.author_email.as_str(),
            ">\n",
        ).as_str(),
    );
    out.append(
        text::cat3("Timestamp: ", text::signed_number(details.commit_timestamp).as_str(), "\n").as_str(),
    );
    out.append(text::cat3("Message:\n", details.message.as_str(), "\n").as_str());
    out.append(
        if diff.is_shallow_boundary {
            "Warning: this commit is a shallow-history boundary.\n"
        } else {
            ""
        },
    );
    if diff.files.len() == 0 {
        out.append("Changed files: none\n\n");
        return out;
    }
    let mut lines = text::none();
    let ghost f = |f: CommitFile| "- "@ + change_word(f.status) + " "@ + f.path@ + "\n"@;
    let ghost all = diff.files@.map_values(f);
    proof {
        assert(all.take(0) =~= Seq::empty());
    }
    for k in 0..diff.files.len()
        invariant
            f == (|f: CommitFile| "- "@ + change_word(f.status) + " "@ + f.path@ + "\n"@),
            all == diff.files@.map_values(f),
            lines@ == text::flat(all.take(k as int)),
    {
        let file = &diff.files[k];
        let line = text::cat5("- ", change_text(file.status), " ", file.path.as_str(), "\n");
        lines.append(line.as_str());
        proof {
            assert(all[k as int] == line@);
            assert(all.take(k + 1) =~= all.take(k as int).push(line@));
            text::lemma_flat_push(all.take(k as int), line@);
        }
    }
    proof {
        assert(all.take(all.len() as int) =~= all);
    }
    out.append(text::cat3("Changed files:\n", lines.as_str(), "\n").as_str());
    out
}

/// Tells of a revision in the project's repositories.
pub fn git_show(jobs: &Vec<RepositoryRevision>, revision: &str) -> (res: Result<String, String>)
    ensures
        outcome(res) == revisions_say(jobs@, revision@, jobs@.len() as int),
{
    let mut out = text::none();
    let several = jobs.len() > 1;
    for k in 0..jobs.len()
        invariant
            several == (jobs@.len() > 1),
            revisions_say(jobs@, revision@, k as int) == Ok::<Seq<char>, Seq<char>>(out@),
    {
        let job = &jobs[k];
        proof {
            lemma_revisions_error(jobs@, revision@, k + 1, jobs@.len() as int);
        }
        match &job.lookup {
            RevisionLookup::Found { details, diff } => match diff {
                Ok(diff) => {
                    out.append(commit_text(&job.repository, details, diff).as_str());
                },
                Err(error) => {
                    return Err(
                        text::cat4(
                            "Could not read changed files for ",
                            job.repository.as_str(),
                            ": ",
                            error.as_str(),
                        ),
                    );
                },
            },
            RevisionLookup::NotFound(error) => {
                if several {
                    let name = text::cat3("# ", job.repository.as_str(), "\n");
                    out.append(
                        text::cat4(
                            name.as_str(),
                            "Revision not found: ",
                            error.as_str(),
                            "\n\n",
                        ).as_str(),
                    );
                } else {
                    return Err(text::cat4("Could not inspect ", revision, ": ", error.as_str()));
                }
            },
            RevisionLookup::Failed(error) => {
                return Err(text::cat4("Could not inspect ", revision, ": ", error.as_str()));
            },
        }
    }
    Ok(out)
}

proof fn lemma_revisions_error(jobs: Seq<RepositoryRevision>, revision: Seq<char>, k: int, n: int)
    requires
        0 <= k <= n,
    ensures
        revisions_say(jobs, revision, k) is Err ==> revisions_say(jobs, revision, n)
            == revisions_say(jobs, revision, k),
    decreases n,
{
    if k < n {
        lemma_revisions_error(jobs, revision, k, n - 1);
    }
}

/// What taking a diff is called while it is under way; `None` stands for input
/// that could not be read.
pub fn diff_title(mode: Option<GitDiffMode>) -> (res: &'static str)
    ensures
        res@ == (match mode {
            Some(GitDiffMode::Staged) => "Inspect staged Git diff"@,
            Some(GitDiffMode::MergeBase) => "Inspect merge-base Git diff"@,
            _ => "Inspect Git diff"@,
        }),
{
    match mode {
        Some(GitDiffMode::Staged) => "Inspect staged Git diff",
        Some(GitDiffMode::MergeBase) => "Inspect merge-base Git diff",
        _ => "Inspect Git diff",
    }
}

/// What showing a revision is called while it is under way; `None` stands for
/// input that could not be read.
pub fn show_title(input: Option<&GitShowToolInput>) -> (res: String)
    ensures
        res@ == (match input {
            Some(asked) => "Inspect Git revision `"@ + asked.revision@ + "`"@,
            None => "Inspect Git revision"@,
        }),
{
    match input {
        Some(asked) => text::cat3("Inspect Git revision `", asked.revision.as_str(), "`"),
        None => "Inspect Git revision".to_owned(),
    }
}

} // verus!
