//! What the tools that look around a project are sure to say.
use crate::git::{
    self, BranchInfo, CommitDetails, CommitDiff, FileStatus, RemoteInfo, RepositoryBranches,
    RepositoryDiff, RepositoryRemotes, RepositoryRevision, RepositoryStatus, RevisionLookup,
    StatusCode, StatusEntry, TrackedStatus,
};
use crate::limit;
use crate::text;
use vstd::prelude::*;

verus! {

proof fn lemma_with_place(names: Seq<Seq<char>>, places: Seq<int>, p: int)
    requires
        places.no_duplicates(),
        forall|i: int| 0 <= i < places.len() ==> 0 <= #[trigger] places[i] < p,
        forall|i: int, j: int|
            #![trigger places[i], places[j]]
            0 <= i < j < places.len() ==> !text::comes_before(names[places[j]], names[places[i]])
                && (names[places[i]] == names[places[j]] ==> places[i] < places[j]),
    ensures
        ({
            let after = git::with_place(names, places, p);
            &&& after.len() == places.len() + 1
            &&& after.no_duplicates()
            &&& forall|i: int|
                0 <= i < after.len() ==> #[trigger] after[i] == p || places.contains(after[i])
            &&& forall|i: int, j: int|
                #![trigger after[i], after[j]]
                0 <= i < j < after.len() ==> !text::comes_before(names[after[j]], names[after[i]])
                    && (names[after[i]] == names[after[j]] ==> after[i] < after[j])
        }),
    decreases places.len(),
{
    let after = git::with_place(names, places, p);
    if places.len() > 0 && git::listed_before(names, p, places.last()) {
        let init = places.drop_last();
        let last = places.last();
        assert forall|i: int, j: int|
            #![trigger init[i], init[j]]
            0 <= i < j < init.len() implies !text::comes_before(names[init[j]], names[init[i]]) && (
        names[init[i]] == names[init[j]] ==> init[i] < init[j]) by {
            assert(init[i] == places[i] && init[j] == places[j]);
        }
        assert forall|i: int| 0 <= i < init.len() implies 0 <= #[trigger] init[i] < p by {
            assert(init[i] == places[i]);
        }
        lemma_with_place(names, init, p);
        let rest = git::with_place(names, init, p);
        assert forall|i: int| 0 <= i < after.len() implies #[trigger] after[i] == p
            || places.contains(after[i]) by {
            if i < rest.len() {
                assert(after[i] == rest[i]);
                if rest[i] != p {
                    let k = choose|k: int| 0 <= k < init.len() && init[k] == rest[i];
                    assert(places[k] == rest[i]);
                }
            } else {
                assert(places[places.len() - 1] == after[i]);
            }
        }
        assert forall|i: int| 0 <= i < rest.len() implies #[trigger] rest[i] != last by {
            if rest[i] != p {
                let k = choose|k: int| 0 <= k < init.len() && init[k] == rest[i];
                assert(places[k] != places[places.len() - 1]);
            } else {
                assert(places[places.len() - 1] < p);
            }
        }
        assert forall|i: int, j: int|
            #![trigger after[i], after[j]]
            0 <= i < j < after.len() implies !text::comes_before(names[after[j]], names[after[i]])
            && (names[after[i]] == names[after[j]] ==> after[i] < after[j]) by {
            assert(after[i] == rest[i]);
            if j < rest.len() {
                assert(after[j] == rest[j]);
            } else if rest[i] == p {
                text::lemma_before_total(names[p], names[last]);
            } else {
                let k = choose|k: int| 0 <= k < init.len() && init[k] == rest[i];
                assert(places[k] == rest[i] && places[places.len() - 1] == last);
            }
        }
    } else {
        assert forall|i: int| 0 <= i < after.len() implies #[trigger] after[i] == p
            || places.contains(after[i]) by {
            if i < places.len() {
                assert(places[i] == after[i]);
            }
        }
        assert forall|i: int, j: int|
            #![trigger after[i], after[j]]
            0 <= i < j < after.len() implies !text::comes_before(names[after[j]], names[after[i]])
            && (names[after[i]] == names[after[j]] ==> after[i] < after[j]) by {
            assert(after[i] == places[i]);
            if j < places.len() {
                assert(after[j] == places[j]);
            } else {
                let last = places.last();
                assert(places[places.len() - 1] == last);
                if i < places.len() - 1 && text::comes_before(names[p], names[places[i]]) {
                    text::lemma_before_total(names[p], names[last]);
                    text::lemma_before_total(names[last], names[places[i]]);
                    if names[last] != names[p] {
                        text::lemma_before_transitive(names[last], names[p], names[places[i]]);
                    }
                }
            }
        }
    }
}

proof fn lemma_name_order(names: Seq<Seq<char>>, k: int)
    requires
        0 <= k <= names.len(),
    ensures
        ({
            let order = git::name_order(names, k);
            &&& order.len() == k
            &&& order.no_duplicates()
            &&& forall|i: int| 0 <= i < order.len() ==> 0 <= #[trigger] order[i] < k
            &&& forall|i: int, j: int|
                #![trigger order[i], order[j]]
                0 <= i < j < order.len() ==> !text::comes_before(names[order[j]], names[order[i]])
                    && (names[order[i]] == names[order[j]] ==> order[i] < order[j])
        }),
    decreases k,
{
    if k > 0 {
        lemma_name_order(names, k - 1);
        let rest = git::name_order(names, k - 1);
        lemma_with_place(names, rest, k - 1);
        let order = git::name_order(names, k);
        assert forall|i: int| 0 <= i < order.len() implies 0 <= #[trigger] order[i] < k by {
            if order[i] != k - 1 {
                let m = choose|m: int| 0 <= m < rest.len() && rest[m] == order[i];
                assert(rest[m] < k - 1);
            }
        }
    }
}

/// Names are listed in order, each of them once, and equal ones as they were given.
pub proof fn law_names_are_listed_in_order(names: Seq<Seq<char>>)
    ensures
        ({
            let order = git::name_order(names, names.len() as int);
            &&& order.len() == names.len()
            &&& order.no_duplicates()
            &&& forall|i: int| 0 <= i < order.len() ==> 0 <= #[trigger] order[i] < names.len()
            &&& forall|i: int, j: int|
                #![trigger order[i], order[j]]
                0 <= i < j < order.len() ==> !text::comes_before(names[order[j]], names[order[i]])
                    && (names[order[i]] == names[order[j]] ==> order[i] < order[j])
        }),
{
    lemma_name_order(names, names.len() as int);
}

proof fn lemma_place_listed(order: Seq<int>, n: int, p: int)
    requires
        order.len() == n,
        order.no_duplicates(),
        forall|i: int| 0 <= i < order.len() ==> 0 <= #[trigger] order[i] < n,
        0 <= p < n,
    ensures
        order.contains(p),
{
    order.unique_seq_to_set();
    let range = vstd::set_lib::set_int_range(0, n);
    vstd::set_lib::lemma_int_range(0, n);
    assert(order.to_set().subset_of(range)) by {
        assert forall|x: int| order.to_set().contains(x) implies range.contains(x) by {
            let i = choose|i: int| 0 <= i < order.len() && order[i] == x;
            assert(0 <= order[i] < n);
        }
    }
    vstd::set_lib::lemma_subset_equality(order.to_set(), range);
    assert(range.contains(p));
    assert(order.to_set().contains(p));
}

/// A status is two letters, the first about the index and the second about the working
/// tree; where nothing happened the letter is a space.
pub proof fn law_status_letters_tell_both_sides(sides: TrackedStatus, other: TrackedStatus)
    ensures
        git::status_letters(FileStatus::Versioned(sides)).len() == 2,
        sides.index_status is Unmodified ==> git::status_letters(FileStatus::Versioned(sides))[0]
            == ' ',
        sides.worktree_status is Unmodified ==> git::status_letters(
            FileStatus::Versioned(sides),
        )[1] == ' ',
        git::status_letters(FileStatus::Versioned(sides))[0] == git::status_letters(
            FileStatus::Versioned(other),
        )[0] <==> sides.index_status == other.index_status,
        git::status_letters(FileStatus::Versioned(sides))[1] == git::status_letters(
            FileStatus::Versioned(other),
        )[1] <==> sides.worktree_status == other.worktree_status,
        sides.index_status == sides.worktree_status ==> git::status_letters(
            FileStatus::Versioned(sides),
        ) == (match sides.index_status {
            StatusCode::Modified => "MM"@,
            StatusCode::TypeChanged => "TT"@,
            StatusCode::Added => "AA"@,
            StatusCode::Deleted => "DD"@,
            StatusCode::Renamed => "RR"@,
            StatusCode::Copied => "CC"@,
            StatusCode::Unmodified => "  "@,
        }),
        git::status_letters(FileStatus::Untracked) == "??"@,
        git::status_letters(FileStatus::Ignored) == "!!"@,
        git::status_letters(FileStatus::Unmerged) == "UU"@,
{
    reveal_strlit("MM");
    reveal_strlit("TT");
    reveal_strlit("AA");
    reveal_strlit("DD");
    reveal_strlit("RR");
    reveal_strlit("CC");
    reveal_strlit("  ");
    let letters = git::status_letters(FileStatus::Versioned(sides));
    if sides.index_status == sides.worktree_status {
        assert(letters =~= match sides.index_status {
            StatusCode::Modified => "MM"@,
            StatusCode::TypeChanged => "TT"@,
            StatusCode::Added => "AA"@,
            StatusCode::Deleted => "DD"@,
            StatusCode::Renamed => "RR"@,
            StatusCode::Copied => "CC"@,
            StatusCode::Unmodified => "  "@,
        });
    }
}

proof fn lemma_branch_line(branch: Option<BranchInfo>)
    ensures
        ({
            let said = git::branch_line(branch);
            &&& branch is None ==> said == "Branch: detached or unborn HEAD\n"@
            &&& branch matches Some(b) ==> text::part_of("Branch: "@ + b.name@, said)
            &&& branch matches Some(b) ==> (b.upstream matches Some(up) ==> text::part_of(
                " -> "@ + up.ref_name@,
                said,
            ))
        }),
{
    if let Some(b) = branch {
        let said = git::branch_line(branch);
        let start = "Branch: "@ + b.name@;
        let follows = git::following(b.upstream, true);
        text::lemma_part_first(start, follows);
        text::lemma_part_first(start + follows, "\n"@);
        text::lemma_part_within(start, start + follows, said);
        text::lemma_part_last(start, follows);
        text::lemma_part_within(follows, start + follows, said);
        if let Some(up) = b.upstream {
            let named = " -> "@ + up.ref_name@;
            let state = match up.tracking {
                git::Tracking::Counted { ahead, behind } => git::apart(ahead, behind),
                git::Tracking::Gone => " (upstream gone)"@,
            };
            text::lemma_part_first(named, state);
            text::lemma_part_within(named, follows, said);
        }
    }
}

proof fn lemma_entry_lines(entries: Seq<StatusEntry>)
    ensures
        entries.len() == 0 ==> git::entry_lines(entries) == "Working tree clean\n\n"@,
        forall|k: int|
            #![trigger entries[k]]
            0 <= k < entries.len() ==> text::part_of(
                git::status_letters(entries[k].status) + " "@ + entries[k].path@ + "\n"@,
                git::entry_lines(entries),
            ),
{
    let files = git::entry_lines(entries);
    let lines = entries.map_values(
        |e: StatusEntry| git::status_letters(e.status) + " "@ + e.path@ + "\n"@,
    );
    assert forall|k: int|
        #![trigger entries[k]]
        0 <= k < entries.len() implies text::part_of(
        git::status_letters(entries[k].status) + " "@ + entries[k].path@ + "\n"@,
        files,
    ) by {
        text::lemma_part_of_flat(lines, k);
        text::lemma_part_first(text::flat(lines), "\n"@);
        text::lemma_part_within(lines[k], text::flat(lines), files);
    }
}

/// The status names every repository, the branch it is on with the one it follows, and
/// every changed file with what happened to it.
pub proof fn law_status_says_every_change(repositories: Seq<RepositoryStatus>, p: int)
    requires
        0 <= p < repositories.len(),
    ensures
        ({
            let said = git::status_says(repositories);
            let one = repositories[p];
            &&& text::part_of("# "@ + one.path@ + "\n"@, said)
            &&& one.branch is None ==> text::part_of("Branch: detached or unborn HEAD\n"@, said)
            &&& one.branch matches Some(branch) ==> text::part_of("Branch: "@ + branch.name@, said)
            &&& one.branch matches Some(branch) ==> (branch.upstream matches Some(up)
                ==> text::part_of(" -> "@ + up.ref_name@, said))
            &&& one.entries@.len() == 0 ==> text::part_of("Working tree clean\n\n"@, said)
            &&& forall|k: int|
                #![trigger one.entries@[k]]
                0 <= k < one.entries@.len() ==> text::part_of(
                    git::status_letters(one.entries@[k].status) + " "@ + one.entries@[k].path@
                        + "\n"@,
                    said,
                )
        }),
{
    let said = git::status_says(repositories);
    let one = repositories[p];
    let names = git::repository_names(repositories);
    let n = repositories.len() as int;
    lemma_name_order(names, n);
    let order = git::name_order(names, n);
    lemma_place_listed(order, n, p);
    let m = choose|m: int| 0 <= m < order.len() && order[m] == p;
    let parts = order.map_values(|p: int| git::status_part(repositories[p]));
    text::lemma_part_of_flat(parts, m);
    let part = git::status_part(one);
    assert(parts[m] == part);
    let head = git::heading(one.path@);
    let branch = git::branch_line(one.branch);
    let files = git::entry_lines(one.entries@);
    text::lemma_part_first(head, branch);
    text::lemma_part_last(head, branch);
    text::lemma_part_first(head + branch, files);
    text::lemma_part_last(head + branch, files);
    text::lemma_part_within(head + branch, part, said);
    text::lemma_part_within(head, head + branch, said);
    text::lemma_part_within(branch, head + branch, said);
    text::lemma_part_within(files, part, said);
    lemma_branch_line(one.branch);
    lemma_entry_lines(one.entries@);
    if let Some(b) = one.branch {
        text::lemma_part_within("Branch: "@ + b.name@, branch, said);
        if let Some(up) = b.upstream {
            text::lemma_part_within(" -> "@ + up.ref_name@, branch, said);
        }
    }
    assert forall|k: int|
        #![trigger one.entries@[k]]
        0 <= k < one.entries@.len() implies text::part_of(
        git::status_letters(one.entries@[k].status) + " "@ + one.entries@[k].path@ + "\n"@,
        said,
    ) by {
        text::lemma_part_within(
            git::status_letters(one.entries@[k].status) + " "@ + one.entries@[k].path@ + "\n"@,
            files,
            said,
        );
    }
}

proof fn lemma_branches_said(jobs: Seq<RepositoryBranches>, k: int, i: int)
    requires
        0 <= i < k <= jobs.len(),
    ensures
        git::branches_say(jobs, k) matches Ok(said) ==> jobs[i].result is Ok && text::part_of(
            git::branches_part(jobs[i].repository@, jobs[i].result->Ok_0),
            said,
        ),
    decreases k,
{
    if let Ok(said) = git::branches_say(jobs, k) {
        let rest = git::branches_say(jobs, k - 1)->Ok_0;
        let last = git::branches_part(jobs[k - 1].repository@, jobs[k - 1].result->Ok_0);
        let nothing = Seq::<char>::empty();
        if i == k - 1 {
            text::lemma_part(rest, last, nothing);
            assert(rest + last + nothing =~= said);
        } else {
            lemma_branches_said(jobs, k - 1, i);
            text::lemma_part(nothing, rest, last);
            assert(nothing + rest + last =~= said);
            text::lemma_part_within(
                git::branches_part(jobs[i].repository@, jobs[i].result->Ok_0),
                rest,
                said,
            );
        }
    }
}

proof fn lemma_branches_fail(jobs: Seq<RepositoryBranches>, k: int, i: int)
    requires
        0 <= i < k <= jobs.len(),
        jobs[i].result is Err,
        forall|j: int| 0 <= j < i ==> (#[trigger] jobs[j]).result is Ok,
    ensures
        git::branches_say(jobs, k) == Err::<Seq<char>, Seq<char>>(
            "Could not inspect branches for "@ + jobs[i].repository@ + ": "@
                + jobs[i].result->Err_0@,
        ),
    decreases k,
{
    if i < k - 1 {
        lemma_branches_fail(jobs, k - 1, i);
    } else {
        lemma_branches_read(jobs, k - 1);
    }
}

proof fn lemma_branches_read(jobs: Seq<RepositoryBranches>, k: int)
    requires
        0 <= k <= jobs.len(),
        forall|j: int| 0 <= j < k ==> (#[trigger] jobs[j]).result is Ok,
    ensures
        git::branches_say(jobs, k) is Ok,
    decreases k,
{
    if k > 0 {
        lemma_branches_read(jobs, k - 1);
        assert(jobs[k - 1].result is Ok);
    }
}

/// The branches of every repository are told where all could be read, each by its name,
/// the current one with a star and the others without. Where one could not be read, the
/// first such is named, with the reason.
pub proof fn law_branches_are_all_told(jobs: Seq<RepositoryBranches>, i: int, k: int)
    requires
        0 <= i < jobs.len(),
    ensures
        (forall|j: int| 0 <= j < jobs.len() ==> (#[trigger] jobs[j]).result is Ok) ==> {
            let said = git::branches_say(jobs, jobs.len() as int);
            let scan = jobs[i].result->Ok_0;
            &&& said is Ok
            &&& text::part_of("# "@ + jobs[i].repository@ + "\n"@, said->Ok_0)
            &&& 0 <= k < scan.branches@.len() ==> text::part_of(
                (if scan.branches@[k].is_head {
                    "* "@
                } else {
                    "  "@
                }) + scan.branches@[k].name@,
                said->Ok_0,
            )
        },
        jobs[i].result is Err && (forall|j: int| 0 <= j < i ==> (#[trigger] jobs[j]).result is Ok)
            ==> git::branches_say(jobs, jobs.len() as int) == Err::<Seq<char>, Seq<char>>(
            "Could not inspect branches for "@ + jobs[i].repository@ + ": "@
                + jobs[i].result->Err_0@,
        ),
{
    let n = jobs.len() as int;
    if forall|j: int| 0 <= j < jobs.len() ==> (#[trigger] jobs[j]).result is Ok {
        lemma_branches_read(jobs, n);
        lemma_branches_said(jobs, n, i);
        let said = git::branches_say(jobs, n)->Ok_0;
        let scan = jobs[i].result->Ok_0;
        let part = git::branches_part(jobs[i].repository@, scan);
        let head = "# "@ + jobs[i].repository@ + "\n"@;
        let warning = match scan.error {
            Some(error) => "Warning: "@ + error@ + "\n"@,
            None => ""@,
        };
        let nothing = Seq::<char>::empty();
        let entries = scan.branches@.map_values(|b: BranchInfo| git::branch_entry(b));
        let rest = if scan.branches@.len() == 0 {
            "No branches found\n\n"@
        } else {
            text::flat(entries) + "\n"@
        };
        text::lemma_part(nothing, head, warning + rest);
        assert(nothing + head + (warning + rest) =~= part);
        text::lemma_part_within(head, part, said);
        if 0 <= k < scan.branches@.len() {
            let branch = scan.branches@[k];
            let named = (if branch.is_head {
                "* "@
            } else {
                "  "@
            }) + branch.name@;
            let more = git::following(branch.upstream, false) + (match branch.most_recent_commit {
                Some(commit) => " | "@ + commit.sha@ + " "@ + commit.subject@,
                None => ""@,
            }) + "\n"@;
            text::lemma_part(nothing, named, more);
            assert(nothing + named + more =~= entries[k]);
            text::lemma_part_of_flat(entries, k);
            text::lemma_part_within(named, entries[k], text::flat(entries));
            text::lemma_part(head + warning, text::flat(entries), "\n"@);
            assert(head + warning + text::flat(entries) + "\n"@ =~= part);
            text::lemma_part_within(named, text::flat(entries), part);
            text::lemma_part_within(named, part, said);
        }
    }
    if jobs[i].result is Err && (forall|j: int|
        0 <= j < i ==> (#[trigger] jobs[j]).result is Ok) {
        lemma_branches_fail(jobs, n, i);
    }
}

proof fn lemma_remotes_read(jobs: Seq<RepositoryRemotes>, k: int)
    requires
        0 <= k <= jobs.len(),
        forall|j: int| 0 <= j < k ==> (#[trigger] jobs[j]).result is Ok,
    ensures
        git::remotes_say(jobs, k) is Ok,
        forall|i: int|
            #![trigger jobs[i]]
            0 <= i < k ==> text::part_of(
                git::remotes_part(jobs[i].repository@, jobs[i].result->Ok_0@),
                git::remotes_say(jobs, k)->Ok_0,
            ),
    decreases k,
{
    if k > 0 {
        lemma_remotes_read(jobs, k - 1);
        assert(jobs[k - 1].result is Ok);
        let rest = git::remotes_say(jobs, k - 1)->Ok_0;
        let said = git::remotes_say(jobs, k)->Ok_0;
        let last = git::remotes_part(jobs[k - 1].repository@, jobs[k - 1].result->Ok_0@);
        let nothing = Seq::<char>::empty();
        text::lemma_part(nothing, rest, last);
        assert(nothing + rest + last =~= said);
        text::lemma_part(rest, last, nothing);
        assert(rest + last + nothing =~= said);
        assert forall|i: int| #![trigger jobs[i]] 0 <= i < k implies text::part_of(
            git::remotes_part(jobs[i].repository@, jobs[i].result->Ok_0@),
            said,
        ) by {
            if i < k - 1 {
                text::lemma_part_within(
                    git::remotes_part(jobs[i].repository@, jobs[i].result->Ok_0@),
                    rest,
                    said,
                );
            }
        }
    }
}

/// The remotes of every repository are told where all could be read, each with its
/// address; where one could not be, nothing but that is.
pub proof fn law_remotes_are_all_told(jobs: Seq<RepositoryRemotes>, i: int, k: int)
    requires
        0 <= i < jobs.len(),
    ensures
        (forall|j: int| 0 <= j < jobs.len() ==> (#[trigger] jobs[j]).result is Ok) ==> {
            let said = git::remotes_say(jobs, jobs.len() as int);
            let remotes = jobs[i].result->Ok_0@;
            &&& said is Ok
            &&& text::part_of("# "@ + jobs[i].repository@ + "\n"@, said->Ok_0)
            &&& 0 <= k < remotes.len() ==> text::part_of(
                remotes[k].name@ + ": "@ + remotes[k].url@ + "\n"@,
                said->Ok_0,
            )
        },
        jobs[i].result is Err ==> git::remotes_say(jobs, jobs.len() as int) is Err,
{
    let n = jobs.len() as int;
    if forall|j: int| 0 <= j < jobs.len() ==> (#[trigger] jobs[j]).result is Ok {
        lemma_remotes_read(jobs, n);
        let said = git::remotes_say(jobs, n)->Ok_0;
        let remotes = jobs[i].result->Ok_0@;
        let part = git::remotes_part(jobs[i].repository@, remotes);
        let head = "# "@ + jobs[i].repository@ + "\n"@;
        let names = remotes.map_values(|r: RemoteInfo| r.name@);
        let order = git::name_order(names, remotes.len() as int);
        let lines = order.map_values(
            |p: int| remotes[p].name@ + ": "@ + remotes[p].url@ + "\n"@,
        );
        let rest = if remotes.len() == 0 {
            "No remotes configured\n\n"@
        } else {
            text::flat(lines) + "\n"@
        };
        text::lemma_part_first(head, rest);
        text::lemma_part_last(head, rest);
        assert(part == head + rest);
        text::lemma_part_within(head, part, said);
        if 0 <= k < remotes.len() {
            lemma_name_order(names, remotes.len() as int);
            lemma_place_listed(order, remotes.len() as int, k);
            let m = choose|m: int| 0 <= m < order.len() && order[m] == k;
            text::lemma_part_of_flat(lines, m);
            text::lemma_part_first(text::flat(lines), "\n"@);
            text::lemma_part_within(lines[m], text::flat(lines), rest);
            text::lemma_part_within(lines[m], rest, part);
            text::lemma_part_within(lines[m], part, said);
        }
    }
    if jobs[i].result is Err {
        lemma_remotes_fail(jobs, n, i);
    }
}

proof fn lemma_remotes_fail(jobs: Seq<RepositoryRemotes>, k: int, i: int)
    requires
        0 <= i < k <= jobs.len(),
        jobs[i].result is Err,
    ensures
        git::remotes_say(jobs, k) is Err,
    decreases k,
{
    if i < k - 1 {
        lemma_remotes_fail(jobs, k - 1, i);
    }
}

proof fn lemma_diffs_read(jobs: Seq<RepositoryDiff>, most: nat, k: int)
    requires
        0 <= k <= jobs.len(),
        forall|j: int| 0 <= j < k ==> (#[trigger] jobs[j]).result is Ok,
    ensures
        git::diffs_say(jobs, most, k) is Ok,
        forall|i: int|
            #![trigger jobs[i]]
            0 <= i < k ==> text::part_of(
                git::diff_part(jobs[i].repository@, jobs[i].result->Ok_0@, most),
                git::diffs_say(jobs, most, k)->Ok_0,
            ),
    decreases k,
{
    if k > 0 {
        lemma_diffs_read(jobs, most, k - 1);
        assert(jobs[k - 1].result is Ok);
        let rest = git::diffs_say(jobs, most, k - 1)->Ok_0;
        let said = git::diffs_say(jobs, most, k)->Ok_0;
        let last = git::diff_part(jobs[k - 1].repository@, jobs[k - 1].result->Ok_0@, most);
        let nothing = Seq::<char>::empty();
        text::lemma_part(nothing, rest, last);
        assert(nothing + rest + last =~= said);
        text::lemma_part(rest, last, nothing);
        assert(rest + last + nothing =~= said);
        assert forall|i: int| #![trigger jobs[i]] 0 <= i < k implies text::part_of(
            git::diff_part(jobs[i].repository@, jobs[i].result->Ok_0@, most),
            said,
        ) by {
            if i < k - 1 {
                text::lemma_part_within(
                    git::diff_part(jobs[i].repository@, jobs[i].result->Ok_0@, most),
                    rest,
                    said,
                );
            }
        }
    }
}

proof fn lemma_diffs_fail(jobs: Seq<RepositoryDiff>, most: nat, k: int, i: int)
    requires
        0 <= i < k <= jobs.len(),
        jobs[i].result is Err,
    ensures
        git::diffs_say(jobs, most, k) is Err,
    decreases k,
{
    if i < k - 1 {
        lemma_diffs_fail(jobs, most, k - 1, i);
    }
}

proof fn lemma_shown(head: Seq<char>, shown: Seq<char>, notice: Seq<char>, end: Seq<char>)
    ensures
        text::part_of(head + shown, head + (shown + notice + end)),
        text::part_of(head + shown + notice, head + (shown + notice + end)),
{
    let whole = head + (shown + notice + end);
    text::lemma_part_first(head + shown, notice + end);
    assert(head + shown + (notice + end) =~= whole);
    text::lemma_part_first(head + shown + notice, end);
    assert(head + shown + notice + end =~= whole);
}

/// The diff of every repository is told where all could be read: in full where it fits,
/// and otherwise its beginning, as much as fits; where one could not be read, nothing
/// but that is told.
pub proof fn law_diffs_are_told_as_far_as_they_fit(jobs: Seq<RepositoryDiff>, most: nat, i: int)
    requires
        0 <= i < jobs.len(),
    ensures
        (forall|j: int| 0 <= j < jobs.len() ==> (#[trigger] jobs[j]).result is Ok) ==> {
            let said = git::diffs_say(jobs, most, jobs.len() as int);
            let diff = jobs[i].result->Ok_0@;
            &&& said is Ok
            &&& diff.len() == 0 ==> text::part_of(
                "# "@ + jobs[i].repository@ + "\n"@ + "No changes\n\n"@,
                said->Ok_0,
            )
            &&& diff.len() > 0 && limit::utf8_len(diff) <= most ==> text::part_of(
                "# "@ + jobs[i].repository@ + "\n"@ + diff,
                said->Ok_0,
            )
            &&& diff.len() > 0 && limit::utf8_len(diff) > most ==> exists|k: int|
                0 <= k < diff.len() && limit::utf8_len(diff.take(k)) <= most && limit::utf8_len(
                    #[trigger] diff.take(k + 1),
                ) > most && text::part_of(
                    "# "@ + jobs[i].repository@ + "\n"@ + diff.take(k)
                        + "\n\n[Diff truncated. Increase `max_bytes` to inspect more, up to 200000 bytes.]\n"@,
                    said->Ok_0,
                )
        },
        jobs[i].result is Err ==> git::diffs_say(jobs, most, jobs.len() as int) is Err,
{
    let n = jobs.len() as int;
    if forall|j: int| 0 <= j < jobs.len() ==> (#[trigger] jobs[j]).result is Ok {
        lemma_diffs_read(jobs, most, n);
        let said = git::diffs_say(jobs, most, n)->Ok_0;
        let diff = jobs[i].result->Ok_0@;
        let head = "# "@ + jobs[i].repository@ + "\n"@;
        let part = git::diff_part(jobs[i].repository@, diff, most);
        let k = limit::law_cut_text_is_the_longest_that_fits(diff, most);
        if diff.len() > 0 {
            let notice =
                "\n\n[Diff truncated. Increase `max_bytes` to inspect more, up to 200000 bytes.]\n"@;
            if limit::utf8_len(diff) <= most {
                lemma_shown(head, diff, Seq::empty(), "\n\n"@);
                assert(diff + Seq::<char>::empty() =~= diff);
                assert(limit::cut_off(diff, most, notice) == diff);
                text::lemma_part_within(head + diff, part, said);
            } else {
                lemma_shown(head, diff.take(k), notice, "\n\n"@);
                assert(limit::cut_off(diff, most, notice) == diff.take(k) + notice);
                text::lemma_part_within(head + diff.take(k) + notice, part, said);
                assert(limit::utf8_len(diff.take(k + 1)) > most);
            }
        }
    }
    if jobs[i].result is Err {
        lemma_diffs_fail(jobs, most, n, i);
    }
}

/// What is said of a commit names it, its author and its message, and every file it
/// changed.
pub proof fn law_commits_are_told_in_full(
    repository: Seq<char>,
    details: CommitDetails,
    diff: CommitDiff,
    k: int,
)
    ensures
        ({
            let said = git::commit_part(repository, details, diff);
            &&& ("# "@ + repository + "\n"@ + ("Commit: "@ + details.sha@ + "\n"@)).is_prefix_of(said)
            &&& text::part_of(
                "Author: "@ + details.author_name@ + " <"@ + details.author_email@ + ">\n"@,
                said,
            )
            &&& text::part_of("Message:\n"@ + details.message@ + "\n"@, said)
            &&& 0 <= k < diff.files@.len() ==> text::part_of(
                "- "@ + (match diff.files@[k].status {
                    git::CommitFileStatus::Added => "Added"@,
                    git::CommitFileStatus::Modified => "Modified"@,
                    git::CommitFileStatus::Deleted => "Deleted"@,
                }) + " "@ + diff.files@[k].path@ + "\n"@,
                said,
            )
        }),
{
    let said = git::commit_part(repository, details, diff);
    let a = git::heading(repository);
    let b = "Commit: "@ + details.sha@ + "\n"@;
    let c = "Author: "@ + details.author_name@ + " <"@ + details.author_email@ + ">\n"@;
    let d = "Timestamp: "@ + text::signed_decimal(details.commit_timestamp as int) + "\n"@;
    let e = "Message:\n"@ + details.message@ + "\n"@;
    let f = if diff.is_shallow_boundary {
        "Warning: this commit is a shallow-history boundary.\n"@
    } else {
        ""@
    };
    let lines = diff.files@.map_values(
        |f: git::CommitFile| "- "@ + git::change_word(f.status) + " "@ + f.path@ + "\n"@,
    );
    let g = if diff.files@.len() == 0 {
        "Changed files: none\n\n"@
    } else {
        "Changed files:\n"@ + text::flat(lines) + "\n"@
    };
    assert(said == a + b + c + d + e + f + g);
    assert(a + b =~= said.subrange(0, (a + b).len() as int));
    text::lemma_part(a + b, c, d + e + f + g);
    assert(a + b + c + (d + e + f + g) =~= said);
    text::lemma_part(a + b + c + d, e, f + g);
    assert(a + b + c + d + e + (f + g) =~= said);
    if 0 <= k < diff.files@.len() {
        text::lemma_part_of_flat(lines, k);
        let front = a + b + c + d + e + f + "Changed files:\n"@;
        text::lemma_part(front, text::flat(lines), "\n"@);
        assert(front + text::flat(lines) + "\n"@ =~= said);
        text::lemma_part_within(lines[k], text::flat(lines), said);
    }
}

/// A revision that no other repository could know is an error where the only repository
/// does not know it; where there are several, those that do not are told of and passed
/// over.
pub proof fn law_unknown_revisions_are_passed_over_among_several(
    jobs: Seq<RepositoryRevision>,
    revision: Seq<char>,
)
    ensures
        jobs.len() == 1 && jobs[0].lookup is NotFound ==> git::revisions_say(
            jobs,
            revision,
            1,
        ) is Err,
        jobs.len() > 1 && (forall|j: int|
            #![trigger jobs[j]]
            0 <= j < jobs.len() ==> jobs[j].lookup is NotFound || (jobs[j].lookup matches
                RevisionLookup::Found { diff, .. } && diff is Ok)) ==> git::revisions_say(
            jobs,
            revision,
            jobs.len() as int,
        ) is Ok,
        (exists|j: int| 0 <= j < jobs.len() && (#[trigger] jobs[j]).lookup is Failed)
            ==> git::revisions_say(jobs, revision, jobs.len() as int) is Err,
{
    let n = jobs.len() as int;
    reveal_with_fuel(git::revisions_say, 2);
    if jobs.len() > 1 && (forall|j: int|
        #![trigger jobs[j]]
        0 <= j < jobs.len() ==> jobs[j].lookup is NotFound || (jobs[j].lookup matches
            RevisionLookup::Found { diff, .. } && diff is Ok)) {
        lemma_revisions_read(jobs, revision, n);
    }
    if exists|j: int| 0 <= j < jobs.len() && (#[trigger] jobs[j]).lookup is Failed {
        let j = choose|j: int| 0 <= j < jobs.len() && (#[trigger] jobs[j]).lookup is Failed;
        lemma_revisions_fail(jobs, revision, n, j);
    }
}

proof fn lemma_revisions_read(jobs: Seq<RepositoryRevision>, revision: Seq<char>, k: int)
    requires
        0 <= k <= jobs.len(),
        jobs.len() > 1,
        forall|j: int|
            #![trigger jobs[j]]
            0 <= j < jobs.len() ==> jobs[j].lookup is NotFound || (jobs[j].lookup matches
                RevisionLookup::Found { diff, .. } && diff is Ok),
    ensures
        git::revisions_say(jobs, revision, k) is Ok,
    decreases k,
{
    if k > 0 {
        lemma_revisions_read(jobs, revision, k - 1);
        assert(jobs[k - 1].lookup is NotFound || (jobs[k - 1].lookup matches
            RevisionLookup::Found { diff, .. } && diff is Ok));
    }
}

proof fn lemma_revisions_fail(jobs: Seq<RepositoryRevision>, revision: Seq<char>, k: int, i: int)
    requires
        0 <= i < k <= jobs.len(),
        jobs[i].lookup is Failed,
    ensures
        git::revisions_say(jobs, revision, k) is Err,
    decreases k,
{
    if i < k - 1 {
        lemma_revisions_fail(jobs, revision, k - 1, i);
    }
}

/// As many bytes are shown as were asked for, where that is within the limits; otherwise
/// as many as come nearest.
pub proof fn law_byte_limits_hold(asked: Option<usize>, default: nat, most: nat)
    requires
        1 <= default <= most,
    ensures
        ({
            let limit = git::byte_limit(asked, default, most);
            &&& 1 <= limit <= most
            &&& asked is None ==> limit == default
            &&& asked matches Some(n) ==> (1 <= n <= most ==> limit == n)
            &&& asked matches Some(n) ==> (n > most ==> limit == most)
            &&& asked matches Some(n) ==> (n < 1 ==> limit == 1)
        }),
{
}

} // verus!
