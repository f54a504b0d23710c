use architect::git;
use architect::git::{
    clamp_bytes, diff_request, diff_title, git_branches, git_diff, git_remotes, git_show,
    git_status, revision_to_show, show_title, status_code, BranchInfo, BranchScan, CommitDetails,
    CommitDiff, CommitFile, CommitFileStatus, CommitSummary, DiffType, FileStatus,
    GitDiffMode, GitDiffToolInput, GitShowToolInput, RemoteInfo, RepositoryBranches,
    RepositoryDiff, RepositoryRemotes, RepositoryRevision, RepositoryStatus, RevisionLookup,
    StatusCode, StatusEntry, TrackedStatus, Tracking, Upstream,
};
use architect::inspection::{authorization_title, Inspection};
use architect::pull_request::{
    accept_reply, github_api_url, gitlab_api_url, head_commit, inspection_title,
    parse_number, parse_pull_request_url, plan_sections, request_headers, summary_url,
    with_page_size, PullRequestSection, PullRequestTarget, PullRequestUrlError,
    MAX_RESPONSE_BYTES,
};

#[test]
fn status_codes_match_porcelain_layout() {
    assert_eq!(status_code(FileStatus::Untracked), "??");
    assert_eq!(
        status_code(FileStatus::Versioned(TrackedStatus {
            index_status: StatusCode::Added,
            worktree_status: StatusCode::Modified,
        })),
        "AM"
    );
}

#[test]
fn diff_truncation_preserves_utf8_boundaries() {
    let output = git::truncate_utf8("aébc".into(), 2);
    assert!(output.starts_with('a'));
    assert!(!output.starts_with("aé"));
    assert!(output.contains("Diff truncated"));
}

#[test]
fn a_diff_that_fits_is_shown_whole() {
    assert_eq!(git::truncate_utf8("aébc".into(), 5), "aébc");
}

#[test]
fn byte_limits_are_kept_within_bounds() {
    assert_eq!(clamp_bytes(None, 80, 200), 80);
    assert_eq!(clamp_bytes(Some(0), 80, 200), 1);
    assert_eq!(clamp_bytes(Some(1000), 80, 200), 200);
}

#[test]
fn a_merge_base_diff_needs_a_base() {
    let mut input = GitDiffToolInput {
        mode: GitDiffMode::MergeBase,
        base_ref: None,
        max_bytes: Some(1_000_000),
    };
    assert!(diff_request(&input).is_err());
    input.base_ref = Some("main".into());
    let request = diff_request(&input).ok().unwrap();
    assert!(matches!(request.diff, DiffType::MergeBase { base_ref } if base_ref == "main"));
    assert_eq!(request.max_bytes, 200_000);
    assert_eq!(
        diff_title(Some(GitDiffMode::MergeBase)),
        "Inspect merge-base Git diff"
    );
}

#[test]
fn a_revision_has_to_be_named() {
    assert!(revision_to_show(&GitShowToolInput {
        revision: "  ".into()
    })
    .is_err());
    assert_eq!(
        revision_to_show(&GitShowToolInput {
            revision: " HEAD~1 ".into()
        })
        .unwrap(),
        "HEAD~1"
    );
    assert_eq!(
        show_title(Some(&GitShowToolInput {
            revision: "HEAD".into()
        })),
        "Inspect Git revision `HEAD`"
    );
}

fn branch(name: &str, is_head: bool) -> BranchInfo {
    BranchInfo {
        name: name.into(),
        is_head,
        upstream: Some(Upstream {
            ref_name: "refs/remotes/origin/main".into(),
            tracking: Tracking::Counted {
                ahead: 1,
                behind: 2,
            },
        }),
        most_recent_commit: Some(CommitSummary {
            sha: "abc".into(),
            subject: "Fix".into(),
        }),
    }
}

#[test]
fn repositories_come_in_the_order_of_their_paths() {
    assert_eq!(
        git::repositories(&vec!["/b".into(), "/a/b".into(), "/a".into()]).unwrap(),
        vec![2, 1, 0]
    );
    assert_eq!(
        git::repositories(&vec![]).unwrap_err(),
        "The project does not contain a Git repository."
    );
}

#[test]
fn a_status_names_the_branch_and_the_files() {
    assert!(git_status(&vec![]).is_err());
    let said = git_status(&vec![RepositoryStatus {
        path: "/work/repo".into(),
        branch: Some(branch("main", true)),
        entries: vec![StatusEntry {
            status: FileStatus::Untracked,
            path: "new.rs".into(),
        }],
    }])
    .unwrap();
    assert!(said.contains("/work/repo"), "{said}");
    assert!(said.contains("main"), "{said}");
    assert!(said.contains("?? new.rs"), "{said}");
}

#[test]
fn remotes_are_listed_in_the_order_of_their_names() {
    let said = git_remotes(&vec![RepositoryRemotes {
        repository: "repo".into(),
        result: Ok(vec![
            RemoteInfo {
                name: "upstream".into(),
                url: "https://u".into(),
            },
            RemoteInfo {
                name: "origin".into(),
                url: "https://o".into(),
            },
        ]),
    }])
    .unwrap();
    assert!(said.find("origin").unwrap() < said.find("upstream").unwrap());
    assert!(git_remotes(&vec![RepositoryRemotes {
        repository: "repo".into(),
        result: Err("gone".into()),
    }])
    .is_err());
}

#[test]
fn branches_and_diffs_are_reported_by_repository() {
    let said = git_branches(&vec![RepositoryBranches {
        repository: "repo".into(),
        result: Ok(BranchScan {
            error: None,
            branches: vec![branch("main", true), branch("side", false)],
        }),
    }])
    .unwrap();
    assert!(said.contains("main"), "{said}");
    assert!(said.contains("side"), "{said}");

    let said = git_diff(
        &vec![RepositoryDiff {
            repository: "repo".into(),
            result: Ok("+line\n".into()),
        }],
        100,
    )
    .unwrap();
    assert!(said.contains("+line"), "{said}");
}

#[test]
fn a_revision_is_shown_with_its_files() {
    let said = git_show(
        &vec![RepositoryRevision {
            repository: "repo".into(),
            lookup: RevisionLookup::Found {
                details: CommitDetails {
                    sha: "abc123".into(),
                    author_name: "Ann".into(),
                    author_email: "ann@example.com".into(),
                    commit_timestamp: 5,
                    message: "Fix it".into(),
                },
                diff: Ok(CommitDiff {
                    files: vec![CommitFile {
                        status: CommitFileStatus::Added,
                        path: "new.rs".into(),
                    }],
                    is_shallow_boundary: false,
                }),
            },
        }],
        "HEAD",
    )
    .unwrap();
    for part in ["abc123", "Ann", "ann@example.com", "Fix it", "new.rs"] {
        assert!(said.contains(part), "{part} missing from {said}");
    }
    assert!(git_show(
        &vec![RepositoryRevision {
            repository: "repo".into(),
            lookup: RevisionLookup::NotFound("unknown revision".into()),
        }],
        "nope",
    )
    .is_err());
}

#[test]
fn parses_github_pull_request_urls() {
    assert_eq!(
        parse_pull_request_url("https://github.com/zed-industries/zed/pull/123").unwrap(),
        PullRequestTarget::Github {
            owner: "zed-industries".into(),
            repo: "zed".into(),
            number: 123,
        }
    );
}

#[test]
fn parses_nested_gitlab_merge_request_urls() {
    assert_eq!(
        parse_pull_request_url("https://gitlab.com/example/nested/project/-/merge_requests/42")
            .unwrap(),
        PullRequestTarget::Gitlab {
            project: "example/nested/project".into(),
            number: 42,
        }
    );
}

#[test]
fn rejects_non_https_and_unrecognized_hosts() {
    assert!(parse_pull_request_url("http://github.com/o/r/pull/1").is_err());
    assert!(parse_pull_request_url("https://example.com/o/r/pull/1").is_err());
}

#[test]
fn api_urls_encode_gitlab_project_paths() {
    let url = gitlab_api_url("group/nested/project", 12, &vec!["diffs".into()]).unwrap();
    assert_eq!(
        url.as_str(),
        "https://gitlab.com/api/v4/projects/group%2Fnested%2Fproject/merge_requests/12/diffs"
    );
}

#[test]
fn addresses_are_refused_for_what_is_wrong_with_them() {
    for (url, error) in [
        ("not a url", PullRequestUrlError::Invalid),
        ("http://github.com/o/r/pull/1", PullRequestUrlError::NotHttps),
        (
            "https://user@github.com/o/r/pull/1",
            PullRequestUrlError::CredentialsOrPort,
        ),
        (
            "https://github.com:8443/o/r/pull/1",
            PullRequestUrlError::CredentialsOrPort,
        ),
        (
            "https://github.com/o/r/issues/1",
            PullRequestUrlError::NotGithubPullRequest,
        ),
    ] {
        assert_eq!(parse_pull_request_url(url).unwrap_err(), error, "{url}");
    }
    assert_eq!(
        PullRequestUrlError::NotHttps.to_text(),
        "pull request URLs must use HTTPS"
    );
}

#[test]
fn numbers_are_read_as_whole_numbers_that_fit() {
    assert_eq!(parse_number("42"), Some(42));
    assert_eq!(parse_number("+42"), Some(42));
    assert_eq!(parse_number(""), None);
    assert_eq!(parse_number("4x"), None);
    assert_eq!(parse_number("18446744073709551615"), Some(u64::MAX));
    assert_eq!(parse_number("18446744073709551616"), None);
}

fn github() -> PullRequestTarget {
    PullRequestTarget::Github {
        owner: "o w".into(),
        repo: "r".into(),
        number: 7,
    }
}

#[test]
fn requests_go_to_the_pages_of_the_sections() {
    assert_eq!(
        summary_url(&github()).unwrap(),
        "https://api.github.com/repos/o%20w/r/pulls/7"
    );
    assert_eq!(
        github_api_url("o", "r", &vec!["pulls".into()]).unwrap(),
        "https://api.github.com/repos/o/r/pulls"
    );
    assert_eq!(
        with_page_size("https://api.github.com/x", 100).unwrap(),
        "https://api.github.com/x?per_page=100"
    );
    let fetches = plan_sections(
        &github(),
        &vec![PullRequestSection::Files, PullRequestSection::Checks],
        &Some("abc".into()),
    );
    assert_eq!(fetches.len(), 2);
    assert_eq!(
        fetches[0].url.as_deref().unwrap(),
        "https://api.github.com/repos/o%20w/r/pulls/7/files?per_page=100"
    );
    assert_eq!(
        fetches[1].url.as_deref().unwrap(),
        "https://api.github.com/repos/o%20w/r/commits/abc/check-runs?per_page=100"
    );
}

#[test]
fn tokens_go_where_the_service_reads_them() {
    let headers = request_headers(&github(), &Some("SECRET".into()));
    assert!(headers
        .iter()
        .any(|header| header.name == "Authorization" && header.value == "Bearer SECRET"));
    let gitlab = PullRequestTarget::Gitlab {
        project: "p".into(),
        number: 1,
    };
    let headers = request_headers(&gitlab, &Some("SECRET".into()));
    assert!(headers
        .iter()
        .any(|header| header.name == "PRIVATE-TOKEN" && header.value == "SECRET"));
    assert_eq!(gitlab.token_variable(), "GITLAB_TOKEN");
    assert_eq!(github().api_host(), "api.github.com");
}

#[test]
fn responses_share_a_budget() {
    assert_eq!(
        accept_reply("u", 200, &vec![0; 10], MAX_RESPONSE_BYTES).unwrap(),
        MAX_RESPONSE_BYTES - 10
    );
    assert_eq!(
        accept_reply("u", 200, &vec![0; 11], 10).unwrap_err(),
        "response from u exceeded 2000000 bytes"
    );
    assert_eq!(
        accept_reply("u", 404, &b"no \xff".to_vec(), 100).unwrap_err(),
        "u returned HTTP 404: no \u{fffd}"
    );
}

#[test]
fn the_head_commit_is_read_from_the_summary() {
    assert_eq!(
        head_commit(&br#"{"head":{"sha":"abc"}}"#.to_vec()),
        Some("abc".into())
    );
    assert_eq!(head_commit(&b"{}".to_vec()), None);
    assert_eq!(head_commit(&b"not json".to_vec()), None);
}

#[test]
fn a_section_that_fails_leaves_the_summary() {
    let mut inspection = Inspection::begin(
        github(),
        vec![
            PullRequestSection::Files,
            PullRequestSection::Conversation,
            PullRequestSection::Checks,
            PullRequestSection::Reviews,
        ],
        None,
    );
    assert_eq!(
        inspection.next_url().unwrap(),
        "https://api.github.com/repos/o%20w/r/pulls/7"
    );
    inspection.reply(200, br#"{"title":"T"}"#.to_vec());
    assert!(inspection.next_url().unwrap().contains("/pulls/7/files?"));
    inspection.miss();
    inspection.reply(200, b"[1]".to_vec());
    inspection.reply(500, b"down \"now\"".to_vec());
    assert!(
        inspection.next_url().unwrap().contains("/pulls/7/reviews?"),
        "without a head commit the checks are passed over"
    );
    inspection.reply(200, b"oops".to_vec());
    assert_eq!(inspection.next_url(), None);
    assert_eq!(inspection.budget(), MAX_RESPONSE_BYTES - 13 - 3 - 4);

    let shown = inspection.finish().unwrap();
    let value: serde_json::Value = serde_json::from_str(&shown).unwrap();
    assert_eq!(value["provider"], "github");
    assert_eq!(value["summary"]["title"], "T");
    assert!(value["files"]["error"]
        .as_str()
        .unwrap()
        .starts_with("failed to fetch https://api.github.com/"));
    assert_eq!(value["conversation"]["issue_comments"][0], 1);
    assert!(value["conversation"]["review_comments"]["error"]
        .as_str()
        .unwrap()
        .ends_with("returned HTTP 500: down \"now\""));
    assert_eq!(
        value["checks"]["error"],
        "GitHub response did not include the head commit SHA"
    );
    assert!(value["reviews"]["error"]
        .as_str()
        .unwrap()
        .ends_with(" returned invalid JSON"));
}

#[test]
fn a_summary_that_cannot_be_read_fails_the_inspection() {
    let mut refused = Inspection::begin(github(), vec![PullRequestSection::Files], None);
    refused.reply(404, b"no".to_vec());
    assert_eq!(refused.next_url(), None);
    assert!(refused
        .finish()
        .unwrap_err()
        .ends_with("returned HTTP 404: no"));

    let mut unread = Inspection::begin(github(), vec![], None);
    unread.reply(200, b"oops".to_vec());
    assert_eq!(
        unread.finish().unwrap_err(),
        "https://api.github.com/repos/o%20w/r/pulls/7 returned invalid JSON"
    );

    let mut silent = Inspection::begin(github(), vec![], None);
    silent.miss();
    assert!(silent.finish().unwrap_err().starts_with("failed to fetch "));
}

#[test]
fn an_inspection_is_cut_to_the_bytes_asked_for() {
    let mut inspection = Inspection::begin(github(), vec![], Some(4));
    inspection.reply(200, br#"{"title":"T"}"#.to_vec());
    let shown = inspection.finish().unwrap();
    assert!(shown.starts_with("{\n  "), "{shown}");
    assert!(shown.contains("truncated"), "{shown}");
    assert_eq!(inspection_title(None), "Inspect pull request");
    assert_eq!(
        authorization_title(inspection.target()),
        "Inspect github pull request"
    );
}

#[test]
fn a_summary_that_cannot_be_read_ends_an_inspection() {
    let mut inspection = Inspection::begin(github(), vec![PullRequestSection::Files], None);
    let url = inspection.next_url().unwrap();
    inspection.reply(200, b"oops".to_vec());
    assert_eq!(inspection.next_url(), None, "nothing else is fetched");
    assert_eq!(
        inspection.finish().unwrap_err(),
        format!("{url} returned invalid JSON")
    );
}
