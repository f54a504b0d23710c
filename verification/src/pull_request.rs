//! Inspecting a pull request on a hosting service.
//!
//! Requests go to one of two known services over HTTPS, share one budget of
//! response bytes, and a section that cannot be read does not cost the summary.
use crate::git;
use crate::git::clamp_bytes;
use crate::graph;
use crate::limit::{self, cut};
use crate::text;
use crate::web::{
    self, check_json, extend_url, lay_out_members, parse_url, query_url, quote_json,
    read_json_text, read_lossily, UrlModel, UrlParts, MAX_URL_WEIGHT,
};
use vstd::prelude::*;
use vstd::string::StringExecFns;

verus! {

/// How many bytes the responses of one inspection may have, all together.
pub const MAX_RESPONSE_BYTES: usize = 2_000_000;

/// How many bytes are shown where nothing else was asked for.
pub const DEFAULT_OUTPUT_BYTES: usize = 120_000;

/// How many bytes are shown at most.
pub const MAX_OUTPUT_BYTES: usize = 500_000;

/// A part of a pull request beyond its summary.
#[derive(Clone, Copy, Debug, PartialEq, Eq, Structural)]
pub enum PullRequestSection {
    Files,
    Conversation,
    Reviews,
    Checks,
}

/// Which pull request to inspect, and how much of it.
#[derive(Debug)]
pub struct PullRequestToolInput {
    /// The address of the pull request in a browser.
    pub url: String,
    /// What to read beyond the summary.
    pub sections: Vec<PullRequestSection>,
    /// How many bytes to show.
    pub max_bytes: Option<usize>,
}

/// A pull request on a hosting service.
#[derive(Debug, PartialEq, Eq)]
pub enum PullRequestTarget {
    Github { owner: String, repo: String, number: u64 },
    Gitlab { project: String, number: u64 },
}

/// A pull request on a hosting service.
#[verifier::ext_equal]
pub enum TargetModel {
    Github { owner: Seq<char>, repo: Seq<char>, number: u64 },
    Gitlab { project: Seq<char>, number: u64 },
}

impl View for PullRequestTarget {
    type V = TargetModel;

    open spec fn view(&self) -> TargetModel {
        match *self {
            PullRequestTarget::Github { owner, repo, number } => TargetModel::Github {
                owner: owner@,
                repo: repo@,
                number,
            },
            PullRequestTarget::Gitlab { project, number } => TargetModel::Gitlab {
                project: project@,
                number,
            },
        }
    }
}

impl PullRequestTarget {
    /// The host that answers questions about the pull request.
    pub fn api_host(&self) -> (res: &'static str)
        ensures
            res@ == (match self@ {
                TargetModel::Github { .. } => "api.github.com"@,
                TargetModel::Gitlab { .. } => "gitlab.com"@,
            }),
    {
        match self {
            PullRequestTarget::Github { .. } => "api.github.com",
            PullRequestTarget::Gitlab { .. } => "gitlab.com",
        }
    }

    /// What the hosting service is called.
    pub fn provider_name(&self) -> (res: &'static str)
        ensures
            res@ == provider(self@),
    {
        match self {
            PullRequestTarget::Github { .. } => "github",
            PullRequestTarget::Gitlab { .. } => "gitlab",
        }
    }

    /// The environment variable that may hold a token for the service.
    pub fn token_variable(&self) -> (res: &'static str)
        ensures
            res@ == (match self@ {
                TargetModel::Github { .. } => "GITHUB_TOKEN"@,
                TargetModel::Gitlab { .. } => "GITLAB_TOKEN"@,
            }),
    {
        match self {
            PullRequestTarget::Github { .. } => "GITHUB_TOKEN",
            PullRequestTarget::Gitlab { .. } => "GITLAB_TOKEN",
        }
    }
}

/// What the hosting service is called.
pub open spec fn provider(target: TargetModel) -> Seq<char> {
    match target {
        TargetModel::Github { .. } => "github"@,
        TargetModel::Gitlab { .. } => "gitlab"@,
    }
}

/// Why an address is not one of a pull request.
#[derive(Clone, Copy, Debug, PartialEq, Eq, Structural)]
pub enum PullRequestUrlError {
    Invalid,
    NotHttps,
    CredentialsOrPort,
    NoHost,
    NoPath,
    NotGithubPullRequest,
    GithubNumber,
    NoGitlabMergeRequest,
    NotGitlabMergeRequest,
    GitlabNumber,
    UnsupportedHost,
}

impl PullRequestUrlError {
    /// Why the address is not one of a pull request, in words.
    pub fn to_text(&self) -> (res: String)
        ensures
            res@ == url_fault(*self),
    {
        match self {
            PullRequestUrlError::Invalid => "invalid pull request URL".to_owned(),
            PullRequestUrlError::NotHttps => "pull request URLs must use HTTPS".to_owned(),
            PullRequestUrlError::CredentialsOrPort => "pull request URLs cannot contain credentials or a custom port".to_owned(),
            PullRequestUrlError::NoHost => "pull request URL has no host".to_owned(),
            PullRequestUrlError::NoPath => "pull request URL has no path".to_owned(),
            PullRequestUrlError::NotGithubPullRequest => "expected a GitHub URL like https://github.com/owner/repo/pull/123".to_owned(),
            PullRequestUrlError::GithubNumber => "GitHub pull request number is invalid".to_owned(),
            PullRequestUrlError::NoGitlabMergeRequest => "expected a GitLab URL like https://gitlab.com/group/project/-/merge_requests/123".to_owned(),
            PullRequestUrlError::NotGitlabMergeRequest => "expected a GitLab URL ending in /-/merge_requests/<iid>".to_owned(),
            PullRequestUrlError::GitlabNumber => "GitLab merge request number is invalid".to_owned(),
            PullRequestUrlError::UnsupportedHost => "only github.com and gitlab.com pull request URLs are supported".to_owned(),
        }
    }
}

/// Why an address is not one of a pull request, in words.
pub open spec fn url_fault(error: PullRequestUrlError) -> Seq<char> {
    match error {
        PullRequestUrlError::Invalid => "invalid pull request URL"@,
        PullRequestUrlError::NotHttps => "pull request URLs must use HTTPS"@,
        PullRequestUrlError::CredentialsOrPort =>
            "pull request URLs cannot contain credentials or a custom port"@,
        PullRequestUrlError::NoHost => "pull request URL has no host"@,
        PullRequestUrlError::NoPath => "pull request URL has no path"@,
        PullRequestUrlError::NotGithubPullRequest =>
            "expected a GitHub URL like https://github.com/owner/repo/pull/123"@,
        PullRequestUrlError::GithubNumber => "GitHub pull request number is invalid"@,
        PullRequestUrlError::NoGitlabMergeRequest =>
            "expected a GitLab URL like https://gitlab.com/group/project/-/merge_requests/123"@,
        PullRequestUrlError::NotGitlabMergeRequest =>
            "expected a GitLab URL ending in /-/merge_requests/<iid>"@,
        PullRequestUrlError::GitlabNumber => "GitLab merge request number is invalid"@,
        PullRequestUrlError::UnsupportedHost =>
            "only github.com and gitlab.com pull request URLs are supported"@,
    }
}

/// A decimal digit.
pub open spec fn is_digit(c: char) -> bool {
    48 <= c as u32 <= 57
}

/// The number that digits stand for.
pub open spec fn digits_value(s: Seq<char>) -> nat
    decreases s.len(),
{
    if s.len() == 0 {
        0
    } else {
        digits_value(s.drop_last()) * 10 + (s.last() as u32 - 48) as nat
    }
}

/// The number that a text of digits stands for, where the type can hold it.
pub open spec fn digits_number(s: Seq<char>) -> Option<u64> {
    if s.len() > 0 && (forall|i: int| 0 <= i < s.len() ==> is_digit(#[trigger] s[i]))
        && digits_value(s) <= u64::MAX {
        Some(digits_value(s) as u64)
    } else {
        None
    }
}

/// The number a text stands for: digits only, but for a plus sign before them, and
/// no greater than the type holds.
pub open spec fn parsed_number(s: Seq<char>) -> Option<u64> {
    if s.len() > 0 && s[0] == '+' {
        digits_number(s.skip(1))
    } else {
        digits_number(s)
    }
}

proof fn lemma_digits_grow(s: Seq<char>, k: int)
    requires
        0 <= k <= s.len(),
        forall|i: int| 0 <= i < s.len() ==> is_digit(#[trigger] s[i]),
    ensures
        digits_value(s.take(k)) <= digits_value(s),
    decreases s.len(),
{
    if k < s.len() {
        let t = s.drop_last();
        assert forall|i: int| 0 <= i < t.len() implies is_digit(#[trigger] t[i]) by {
            assert(t[i] == s[i]);
        }
        lemma_digits_grow(t, k);
        assert(t.take(k) =~= s.take(k));
    } else {
        assert(s.take(k) =~= s);
    }
}

fn read_digits(s: &str) -> (res: Option<u64>)
    ensures
        res == digits_number(s@),
{
    let chars = text::chars_of(s);
    if chars.len() == 0 {
        return None;
    }
    for k in 0..chars.len()
        invariant
            chars@ == s@,
            forall|i: int| 0 <= i < k ==> is_digit(#[trigger] s@[i]),
    {
        let n: u32 = chars[k] as u32;
        if n < 48 || n > 57 {
            proof {
                assert(!is_digit(s@[k as int]));
            }
            return None;
        }
    }
    let mut value: u64 = 0;
    proof {
        assert(s@.take(0) =~= Seq::empty());
    }
    for k in 0..chars.len()
        invariant
            chars@ == s@,
            forall|i: int| 0 <= i < s@.len() ==> is_digit(#[trigger] s@[i]),
            value == digits_value(s@.take(k as int)),
    {
        proof {
            assert(is_digit(s@[k as int]));
            let upto = s@.take(k + 1);
            assert(upto.drop_last() =~= s@.take(k as int));
            assert(upto.last() == s@[k as int]);
            lemma_digits_grow(s@, k + 1);
        }
        let n: u32 = chars[k] as u32;
        let d: u32 = n - 48;
        let next: u128 = value as u128 * 10 + d as u128;
        if next > u64::MAX as u128 {
            return None;
        }
        value = next as u64;
    }
    proof {
        assert(s@.take(s@.len() as int) =~= s@);
    }
    Some(value)
}

/// Reads a number: digits only, but for a plus sign before them.
pub fn parse_number(s: &str) -> (res: Option<u64>)
    ensures
        res == parsed_number(s@),
{
    let count: usize = s.unicode_len();
    if count > 0 && s.get_char(0) == '+' {
        proof {
            assert(s@.subrange(1, s@.len() as int) =~= s@.skip(1));
        }
        read_digits(s.substring_char(1, count))
    } else {
        read_digits(s)
    }
}

/// The segments of a path that are not empty.
pub open spec fn solid(segments: Seq<Seq<char>>) -> Seq<Seq<char>> {
    segments.filter(|s: Seq<char>| s.len() > 0)
}

/// Whether a merge request's marker stands at a place in a path, and at none
/// before it.
pub open spec fn is_marker(segments: Seq<Seq<char>>, i: int) -> bool {
    &&& marks(segments, i)
    &&& forall|j: int| 0 <= j < i ==> !#[trigger] marks(segments, j)
}

/// Whether the two segments of a merge request's marker stand at a place.
pub open spec fn marks(segments: Seq<Seq<char>>, i: int) -> bool {
    0 <= i && i + 1 < segments.len() && segments[i] == "-"@ && segments[i + 1]
        == "merge_requests"@
}

/// The pull request that the path of a GitHub URL names.
pub open spec fn github_target(segments: Seq<Seq<char>>) -> Result<
    TargetModel,
    PullRequestUrlError,
> {
    if segments.len() != 4 || segments[2] != "pull"@ {
        Err(PullRequestUrlError::NotGithubPullRequest)
    } else {
        match parsed_number(segments[3]) {
            Some(number) => Ok(
                TargetModel::Github { owner: segments[0], repo: segments[1], number },
            ),
            None => Err(PullRequestUrlError::GithubNumber),
        }
    }
}

/// The merge request that the path of a GitLab URL names.
pub open spec fn gitlab_target(segments: Seq<Seq<char>>) -> Result<
    TargetModel,
    PullRequestUrlError,
> {
    if exists|i: int| is_marker(segments, i) {
        let marker = choose|i: int| is_marker(segments, i);
        if marker < 2 || segments.len() != marker + 3 {
            Err(PullRequestUrlError::NotGitlabMergeRequest)
        } else {
            match parsed_number(segments[marker + 2]) {
                Some(number) => Ok(
                    TargetModel::Gitlab {
                        project: text::joined(segments.take(marker), "/"@),
                        number,
                    },
                ),
                None => Err(PullRequestUrlError::GitlabNumber),
            }
        }
    } else {
        Err(PullRequestUrlError::NoGitlabMergeRequest)
    }
}

/// The pull request that a URL names: one on a known host, over HTTPS, without
/// credentials or a port.
pub open spec fn target_of(url: UrlModel) -> Result<TargetModel, PullRequestUrlError> {
    if url.scheme != "https"@ {
        Err(PullRequestUrlError::NotHttps)
    } else if url.username.len() > 0 || url.password is Some || url.port is Some {
        Err(PullRequestUrlError::CredentialsOrPort)
    } else {
        match url.host {
            None => Err(PullRequestUrlError::NoHost),
            Some(host) => match url.segments {
                None => Err(PullRequestUrlError::NoPath),
                Some(segments) => if host == "github.com"@ {
                    github_target(solid(segments))
                } else if host == "gitlab.com"@ {
                    gitlab_target(solid(segments))
                } else {
                    Err(PullRequestUrlError::UnsupportedHost)
                },
            },
        }
    }
}

/// A target that was read, or why none was, as a mathematical value.
pub open spec fn read_target(res: Result<PullRequestTarget, PullRequestUrlError>) -> Result<
    TargetModel,
    PullRequestUrlError,
> {
    match res {
        Ok(target) => Ok(target@),
        Err(error) => Err(error),
    }
}

fn solid_segments(segments: &Vec<String>) -> (res: Vec<String>)
    ensures
        graph::texts(res@) == solid(graph::texts(segments@)),
{
    let mut out: Vec<String> = Vec::new();
    let ghost all = graph::texts(segments@);
    let ghost p = |s: Seq<char>| s.len() > 0;
    proof {
        reveal(Seq::filter);
        assert(graph::texts(out@) =~= all.take(0).filter(p));
    }
    for k in 0..segments.len()
        invariant
            all == graph::texts(segments@),
            p == (|s: Seq<char>| s.len() > 0),
            graph::texts(out@) == all.take(k as int).filter(p),
    {
        proof {
            crate::model::lemma_filter_take(all, p, k as int);
        }
        if !segments[k].as_str().is_empty() {
            let ghost before = out@;
            out.push(segments[k].clone());
            proof {
                assert(graph::texts(out@) =~= graph::texts(before).push(all[k as int]));
            }
        }
    }
    proof {
        assert(all.take(all.len() as int) =~= all);
    }
    out
}

fn read_github(segments: &Vec<String>) -> (res: Result<PullRequestTarget, PullRequestUrlError>)
    ensures
        read_target(res) == github_target(graph::texts(segments@)),
{
    proof {
        assert(graph::texts(segments@).len() == segments@.len());
    }
    if segments.len() != 4 || !text::same(segments[2].as_str(), "pull") {
        return Err(PullRequestUrlError::NotGithubPullRequest);
    }
    match parse_number(segments[3].as_str()) {
        Some(number) => Ok(
            PullRequestTarget::Github {
                owner: segments[0].clone(),
                repo: segments[1].clone(),
                number,
            },
        ),
        None => Err(PullRequestUrlError::GithubNumber),
    }
}

fn read_gitlab(segments: &Vec<String>) -> (res: Result<PullRequestTarget, PullRequestUrlError>)
    ensures
        read_target(res) == gitlab_target(graph::texts(segments@)),
{
    let ghost all = graph::texts(segments@);
    let n: usize = segments.len();
    proof {
        assert(all.len() == n);
    }
    let mut marker: usize = 0;
    let mut found = false;
    while marker < n && n - marker >= 2
        invariant_except_break
            !found,
        invariant
            all == graph::texts(segments@),
            n == segments@.len(),
            n == all.len(),
            marker <= n,
            forall|j: int| 0 <= j < marker ==> !#[trigger] marks(all, j),
        ensures
            found ==> marks(all, marker as int),
            !found ==> marker >= n || n - marker < 2,
        decreases n - marker,
    {
        proof {
            assert(all[marker as int] == segments@[marker as int]@);
            assert(all[marker + 1] == segments@[marker + 1]@);
        }
        if text::same(segments[marker].as_str(), "-") && text::same(
            segments[marker + 1].as_str(),
            "merge_requests",
        ) {
            found = true;
            break;
        }
        marker += 1;
    }
    if !found {
        proof {
            if exists|i: int| is_marker(all, i) {
                let i = choose|i: int| is_marker(all, i);
                assert(marks(all, i));
                assert(i < marker);
            }
        }
        return Err(PullRequestUrlError::NoGitlabMergeRequest);
    }
    proof {
        assert(is_marker(all, marker as int));
        let c = choose|i: int| is_marker(all, i);
        assert(is_marker(all, c));
        if c < marker {
            assert(!marks(all, c));
        }
        if marker < c {
            assert(!marks(all, marker as int));
        }
    }
    if marker < 2 || n - marker != 3 {
        return Err(PullRequestUrlError::NotGitlabMergeRequest);
    }
    match parse_number(segments[marker + 2].as_str()) {
        Some(number) => {
            let mut parts: Vec<String> = Vec::new();
            proof {
                assert(graph::texts(parts@) =~= all.take(0));
            }
            for k in 0..marker
                invariant
                    all == graph::texts(segments@),
                    marker <= segments@.len(),
                    graph::texts(parts@) == all.take(k as int),
            {
                let ghost before = parts@;
                parts.push(segments[k].clone());
                proof {
                    assert(graph::texts(parts@) =~= graph::texts(before).push(all[k as int]));
                    assert(all.take(k + 1) =~= all.take(k as int).push(all[k as int]));
                }
            }
            Ok(PullRequestTarget::Gitlab { project: text::join(&parts, "/"), number })
        },
        None => Err(PullRequestUrlError::GitlabNumber),
    }
}

/// Reads which pull request a URL that has been taken apart names.
pub fn pull_request_target(url: &UrlParts) -> (res: Result<PullRequestTarget, PullRequestUrlError>)
    ensures
        read_target(res) == target_of(url@),
{
    if !text::same(url.scheme.as_str(), "https") {
        return Err(PullRequestUrlError::NotHttps);
    }
    if !url.username.as_str().is_empty() || url.password.is_some() || url.port.is_some() {
        return Err(PullRequestUrlError::CredentialsOrPort);
    }
    match &url.host {
        None => Err(PullRequestUrlError::NoHost),
        Some(host) => match &url.segments {
            None => Err(PullRequestUrlError::NoPath),
            Some(segments) => {
                let segments = solid_segments(segments);
                proof {
                    reveal_strlit("github.com");
                    reveal_strlit("gitlab.com");
                }
                if text::same(host.as_str(), "github.com") {
                    read_github(&segments)
                } else if text::same(host.as_str(), "gitlab.com") {
                    read_gitlab(&segments)
                } else {
                    Err(PullRequestUrlError::UnsupportedHost)
                }
            },
        },
    }
}

/// Reads which pull request an address names.
pub fn parse_pull_request_url(input: &str) -> (res: Result<PullRequestTarget, PullRequestUrlError>)
    ensures
        read_target(res) == (match web::parsed_url(input@) {
            Some(url) => target_of(url),
            None => Err(PullRequestUrlError::Invalid),
        }),
{
    match parse_url(input) {
        Ok(url) => pull_request_target(&url),
        Err(_) => Err(PullRequestUrlError::Invalid),
    }
}

/// Cuts the output off where it no longer fits.
pub fn truncate_utf8(output: String, max_bytes: usize) -> (res: String)
    ensures
        res@ == limit::cut_off(output@, max_bytes as nat, output_notice()),
{
    cut(
        output.as_str(),
        max_bytes,
        "\n\n[Pull request output truncated. Increase `max_bytes` to inspect more.]\n",
    )
}

/// What is said where the output was cut off.
pub open spec fn output_notice() -> Seq<char> {
    "\n\n[Pull request output truncated. Increase `max_bytes` to inspect more.]\n"@
}

/// The path of a question about a GitHub repository.
pub open spec fn github_path(owner: Seq<char>, repo: Seq<char>, suffix: Seq<Seq<char>>) -> Seq<
    Seq<char>,
> {
    seq!["repos"@, owner, repo] + suffix
}

/// The path of a question about a GitLab merge request.
pub open spec fn gitlab_path(project: Seq<char>, number: u64, suffix: Seq<Seq<char>>) -> Seq<
    Seq<char>,
> {
    seq![
        "api"@,
        "v4"@,
        "projects"@,
        project,
        "merge_requests"@,
        text::decimal(number as nat),
    ] + suffix
}

/// A URL with a path, where it is not too long to be one.
pub open spec fn url_with_path(base: Seq<char>, segments: Seq<Seq<char>>) -> Option<Seq<char>> {
    if web::path_weight(base, segments) <= MAX_URL_WEIGHT {
        web::extended_url(base, segments)
    } else {
        None
    }
}

/// A URL that asks for a page of some size.
pub open spec fn url_with_page(url: Seq<char>, page_size: nat) -> Option<Seq<char>> {
    if url.len() + "per_page"@.len() + text::decimal(page_size).len() <= MAX_URL_WEIGHT {
        web::queried_url(url, "per_page"@, text::decimal(page_size))
    } else {
        None
    }
}

fn is_light(base: &str, segments: &Vec<String>) -> (res: bool)
    ensures
        res == (web::path_weight(base@, graph::texts(segments@)) <= MAX_URL_WEIGHT),
{
    let ghost all = graph::texts(segments@);
    let mut used: usize = base.unicode_len();
    proof {
        assert(all.take(all.len() as int) =~= all);
        lemma_weight_grows(base@, all, 0);
    }
    if used > MAX_URL_WEIGHT {
        return false;
    }
    for k in 0..segments.len()
        invariant
            all == graph::texts(segments@),
            used == web::path_weight(base@, all.take(k as int)),
            used <= MAX_URL_WEIGHT,
    {
        let more: usize = segments[k].as_str().unicode_len();
        proof {
            assert(all.take(k + 1).drop_last() =~= all.take(k as int));
            assert(all.take(k + 1).last() == segments@[k as int]@);
            lemma_weight_grows(base@, all, k + 1);
        }
        if more >= MAX_URL_WEIGHT || used + more + 1 > MAX_URL_WEIGHT {
            return false;
        }
        used = used + more + 1;
    }
    proof {
        assert(all.take(all.len() as int) =~= all);
    }
    true
}

proof fn lemma_weight_grows(base: Seq<char>, segments: Seq<Seq<char>>, k: int)
    requires
        0 <= k <= segments.len(),
    ensures
        web::path_weight(base, segments.take(k)) <= web::path_weight(base, segments),
        k == 0 ==> web::path_weight(base, segments.take(k)) == base.len(),
    decreases segments.len(),
{
    if k < segments.len() {
        lemma_weight_grows(base, segments.drop_last(), k);
        assert(segments.drop_last().take(k) =~= segments.take(k));
    } else {
        assert(segments.take(k) =~= segments);
    }
}

/// A text that is there or not, as a mathematical value.
pub open spec fn optional(text: Option<String>) -> Option<Seq<char>> {
    match text {
        Some(t) => Some(t@),
        None => None,
    }
}

fn join_path(base: &str, first: Vec<String>, suffix: &Vec<String>) -> (res: Option<String>)
    ensures
        optional(res) == url_with_path(base@, graph::texts(first@) + graph::texts(suffix@)),
{
    let ghost start = graph::texts(first@);
    let ghost all = graph::texts(suffix@);
    let mut segments = first;
    proof {
        assert(start + all.take(0) =~= start);
    }
    for k in 0..suffix.len()
        invariant
            all == graph::texts(suffix@),
            graph::texts(segments@) == start + all.take(k as int),
    {
        let ghost before = segments@;
        segments.push(suffix[k].clone());
        proof {
            assert(graph::texts(segments@) =~= graph::texts(before).push(all[k as int]));
            assert(start + all.take(k + 1) =~= (start + all.take(k as int)).push(all[k as int]));
        }
    }
    proof {
        assert(all.take(all.len() as int) =~= all);
    }
    if is_light(base, &segments) {
        extend_url(base, &segments)
    } else {
        None
    }
}

/// The URL of a question about a GitHub repository.
pub fn github_api_url(owner: &str, repo: &str, suffix: &Vec<String>) -> (res: Option<String>)
    ensures
        optional(res) == url_with_path(
            "https://api.github.com"@,
            github_path(owner@, repo@, graph::texts(suffix@)),
        ),
{
    let mut first: Vec<String> = Vec::new();
    first.push("repos".to_owned());
    first.push(owner.to_owned());
    first.push(repo.to_owned());
    proof {
        assert(graph::texts(first@) =~= seq!["repos"@, owner@, repo@]);
    }
    join_path("https://api.github.com", first, suffix)
}

/// The URL of a question about a GitLab merge request.
pub fn gitlab_api_url(project: &str, number: u64, suffix: &Vec<String>) -> (res: Option<String>)
    ensures
        optional(res) == url_with_path(
            "https://gitlab.com"@,
            gitlab_path(project@, number, graph::texts(suffix@)),
        ),
{
    let mut first: Vec<String> = Vec::new();
    first.push("api".to_owned());
    first.push("v4".to_owned());
    first.push("projects".to_owned());
    first.push(project.to_owned());
    first.push("merge_requests".to_owned());
    first.push(text::number(number as u128));
    proof {
        assert(graph::texts(first@) =~= seq![
            "api"@,
            "v4"@,
            "projects"@,
            project@,
            "merge_requests"@,
            text::decimal(number as nat),
        ]);
    }
    join_path("https://gitlab.com", first, suffix)
}

/// A URL that asks for a page of some size.
pub fn with_page_size(url: &str, page_size: u16) -> (res: Option<String>)
    ensures
        optional(res) == url_with_page(url@, page_size as nat),
{
    let size = text::number(page_size as u128);
    let a: usize = url.unicode_len();
    let b: usize = "per_page".unicode_len();
    let c: usize = size.as_str().unicode_len();
    if a > MAX_URL_WEIGHT || b > MAX_URL_WEIGHT || c > MAX_URL_WEIGHT || a + b + c
        > MAX_URL_WEIGHT {
        return None;
    }
    query_url(url, "per_page", size.as_str())
}

/// A response to fetch for a section.
#[derive(Debug)]
pub struct SectionFetch {
    /// The name of the section.
    pub key: String,
    /// The part of the section it is, where the section has several.
    pub part: Option<String>,
    /// Where to fetch it, or why it cannot be.
    pub url: Result<String, String>,
}

/// A response to fetch for a section.
#[verifier::ext_equal]
pub struct FetchModel {
    pub key: Seq<char>,
    pub part: Option<Seq<char>>,
    pub url: Result<Seq<char>, Seq<char>>,
}

impl FetchModel {
    /// Which place of the output the response goes to.
    pub open spec fn path(self) -> Seq<Seq<char>> {
        match self.part {
            Some(part) => seq![self.key, part],
            None => seq![self.key],
        }
    }
}

impl View for SectionFetch {
    type V = FetchModel;

    open spec fn view(&self) -> FetchModel {
        FetchModel { key: self.key@, part: optional(self.part), url: found(self.url) }
    }
}

/// Some fetches as mathematical values.
pub open spec fn fetch_models(fetches: Seq<SectionFetch>) -> Seq<FetchModel> {
    fetches.map_values(|f: SectionFetch| f@)
}

/// A page of a question, or that there is no URL for it.
pub open spec fn paged(url: Option<Seq<char>>, page_size: nat) -> Result<Seq<char>, Seq<char>> {
    match url {
        Some(base) => match url_with_page(base, page_size) {
            Some(page) => Ok(page),
            None => Err("the request URL could not be made"@),
        },
        None => Err("the request URL could not be made"@),
    }
}

/// A page of a question about a GitHub repository.
pub open spec fn github_page(owner: Seq<char>, repo: Seq<char>, suffix: Seq<Seq<char>>) -> Result<
    Seq<char>,
    Seq<char>,
> {
    paged(url_with_path("https://api.github.com"@, github_path(owner, repo, suffix)), 100)
}

/// What is fetched for a section of a GitHub pull request. Checks belong to the
/// commit at its head, which the summary names.
pub open spec fn github_fetches(
    owner: Seq<char>,
    repo: Seq<char>,
    number: u64,
    section: PullRequestSection,
    head: Option<Seq<char>>,
) -> Seq<FetchModel> {
    let n = text::decimal(number as nat);
    match section {
        PullRequestSection::Files => seq![
            FetchModel {
                key: "files"@,
                part: None,
                url: github_page(owner, repo, seq!["pulls"@, n, "files"@]),
            },
        ],
        PullRequestSection::Conversation => seq![
            FetchModel {
                key: "conversation"@,
                part: Some("issue_comments"@),
                url: github_page(owner, repo, seq!["issues"@, n, "comments"@]),
            },
            FetchModel {
                key: "conversation"@,
                part: Some("review_comments"@),
                url: github_page(owner, repo, seq!["pulls"@, n, "comments"@]),
            },
        ],
        PullRequestSection::Reviews => seq![
            FetchModel {
                key: "reviews"@,
                part: None,
                url: github_page(owner, repo, seq!["pulls"@, n, "reviews"@]),
            },
        ],
        PullRequestSection::Checks => seq![
            FetchModel {
                key: "checks"@,
                part: None,
                url: match head {
                    Some(sha) => github_page(owner, repo, seq!["commits"@, sha, "check-runs"@]),
                    None => Err("GitHub response did not include the head commit SHA"@),
                },
            },
        ],
    }
}

/// What is fetched for a section of a GitLab merge request.
pub open spec fn gitlab_fetches(
    project: Seq<char>,
    number: u64,
    section: PullRequestSection,
) -> Seq<FetchModel> {
    let (key, suffix, page) = match section {
        PullRequestSection::Files => ("files"@, "diffs"@, 100nat),
        PullRequestSection::Conversation => ("conversation"@, "notes"@, 100nat),
        PullRequestSection::Reviews => ("reviews"@, "approvals"@, 100nat),
        PullRequestSection::Checks => ("checks"@, "pipelines"@, 20nat),
    };
    seq![
        FetchModel {
            key,
            part: None,
            url: paged(
                url_with_path(
                    "https://gitlab.com"@,
                    gitlab_path(project, number, seq![suffix]),
                ),
                page,
            ),
        },
    ]
}

/// What is fetched for the first `k` sections, in order.
pub open spec fn planned(
    target: TargetModel,
    sections: Seq<PullRequestSection>,
    head: Option<Seq<char>>,
    k: int,
) -> Seq<FetchModel>
    decreases k,
{
    if k <= 0 {
        Seq::empty()
    } else {
        planned(target, sections, head, k - 1) + (match target {
            TargetModel::Github { owner, repo, number } => github_fetches(
                owner,
                repo,
                number,
                sections[k - 1],
                head,
            ),
            TargetModel::Gitlab { project, number } => gitlab_fetches(
                project,
                number,
                sections[k - 1],
            ),
        })
    }
}

/// Where the summary of a pull request is fetched.
pub open spec fn summary_place(target: TargetModel) -> Option<Seq<char>> {
    match target {
        TargetModel::Github { owner, repo, number } => url_with_path(
            "https://api.github.com"@,
            github_path(owner, repo, seq!["pulls"@, text::decimal(number as nat)]),
        ),
        TargetModel::Gitlab { project, number } => url_with_path(
            "https://gitlab.com"@,
            gitlab_path(project, number, Seq::empty()),
        ),
    }
}

fn words(a: &str, b: &str, c: &str) -> (res: Vec<String>)
    ensures
        graph::texts(res@) == seq![a@, b@, c@],
{
    let mut out: Vec<String> = Vec::new();
    out.push(a.to_owned());
    out.push(b.to_owned());
    out.push(c.to_owned());
    proof {
        assert(graph::texts(out@) =~= seq![a@, b@, c@]);
    }
    out
}

/// Where the summary of a pull request is fetched.
pub fn summary_url(target: &PullRequestTarget) -> (res: Option<String>)
    ensures
        optional(res) == summary_place(target@),
{
    let mut suffix: Vec<String> = Vec::new();
    match target {
        PullRequestTarget::Github { owner, repo, number } => {
            suffix.push("pulls".to_owned());
            suffix.push(text::number(*number as u128));
            proof {
                assert(graph::texts(suffix@) =~= seq!["pulls"@, text::decimal(*number as nat)]);
            }
            github_api_url(owner.as_str(), repo.as_str(), &suffix)
        },
        PullRequestTarget::Gitlab { project, number } => {
            proof {
                assert(graph::texts(suffix@) =~= Seq::empty());
            }
            gitlab_api_url(project.as_str(), *number, &suffix)
        },
    }
}

/// A text result as a mathematical value.
pub open spec fn found(res: Result<String, String>) -> Result<Seq<char>, Seq<char>> {
    match res {
        Ok(t) => Ok(t@),
        Err(t) => Err(t@),
    }
}

fn page_of(url: Option<String>, page_size: u16) -> (res: Result<String, String>)
    ensures
        found(res) == paged(optional(url), page_size as nat),
{
    match url {
        Some(base) => match with_page_size(base.as_str(), page_size) {
            Some(page) => Ok(page),
            None => Err("the request URL could not be made".to_owned()),
        },
        None => Err("the request URL could not be made".to_owned()),
    }
}

fn plan_github(
    owner: &String,
    repo: &String,
    number: u64,
    section: PullRequestSection,
    head: &Option<String>,
) -> (res: Vec<SectionFetch>)
    ensures
        fetch_models(res@) == github_fetches(owner@, repo@, number, section, optional(*head)),
{
    let owner = owner.as_str();
    let repo = repo.as_str();
    let n = text::number(number as u128);
    let mut out: Vec<SectionFetch> = Vec::new();
    match section {
        PullRequestSection::Files => {
            let url = page_of(
                github_api_url(owner, repo, &words("pulls", n.as_str(), "files")),
                100,
            );
            out.push(SectionFetch { key: "files".to_owned(), part: None, url });
        },
        PullRequestSection::Conversation => {
            let url = page_of(
                github_api_url(owner, repo, &words("issues", n.as_str(), "comments")),
                100,
            );
            let part = Some("issue_comments".to_owned());
            out.push(SectionFetch { key: "conversation".to_owned(), part, url });
            let url = page_of(
                github_api_url(owner, repo, &words("pulls", n.as_str(), "comments")),
                100,
            );
            let part = Some("review_comments".to_owned());
            out.push(SectionFetch { key: "conversation".to_owned(), part, url });
        },
        PullRequestSection::Reviews => {
            let url = page_of(
                github_api_url(owner, repo, &words("pulls", n.as_str(), "reviews")),
                100,
            );
            out.push(SectionFetch { key: "reviews".to_owned(), part: None, url });
        },
        PullRequestSection::Checks => {
            let url = match head {
                Some(sha) => page_of(
                    github_api_url(owner, repo, &words("commits", sha.as_str(), "check-runs")),
                    100,
                ),
                None => Err("GitHub response did not include the head commit SHA".to_owned()),
            };
            out.push(SectionFetch { key: "checks".to_owned(), part: None, url });
        },
    }
    proof {
        assert(fetch_models(out@) =~= github_fetches(
            owner@,
            repo@,
            number,
            section,
            optional(*head),
        ));
    }
    out
}

fn plan_gitlab(project: &String, number: u64, section: PullRequestSection) -> (res: Vec<
    SectionFetch,
>)
    ensures
        fetch_models(res@) == gitlab_fetches(project@, number, section),
{
    let key;
    let name;
    let mut page: u16 = 100;
    match section {
        PullRequestSection::Files => {
            key = "files";
            name = "diffs";
        },
        PullRequestSection::Conversation => {
            key = "conversation";
            name = "notes";
        },
        PullRequestSection::Reviews => {
            key = "reviews";
            name = "approvals";
        },
        PullRequestSection::Checks => {
            key = "checks";
            name = "pipelines";
            page = 20;
        },
    }
    let mut suffix: Vec<String> = Vec::new();
    suffix.push(name.to_owned());
    proof {
        assert(graph::texts(suffix@) =~= seq![name@]);
    }
    let url = page_of(gitlab_api_url(project.as_str(), number, &suffix), page);
    let mut out: Vec<SectionFetch> = Vec::new();
    out.push(SectionFetch { key: key.to_owned(), part: None, url });
    proof {
        assert(fetch_models(out@) =~= gitlab_fetches(project@, number, section));
    }
    out
}

/// Works out what to fetch for the sections asked for, in order.
pub fn plan_sections(
    target: &PullRequestTarget,
    sections: &Vec<PullRequestSection>,
    head: &Option<String>,
) -> (res: Vec<SectionFetch>)
    ensures
        fetch_models(res@) == planned(
            target@,
            sections@,
            optional(*head),
            sections@.len() as int,
        ),
{
    let mut out: Vec<SectionFetch> = Vec::new();
    proof {
        assert(fetch_models(out@) =~= Seq::empty());
    }
    for k in 0..sections.len()
        invariant
            fetch_models(out@) == planned(target@, sections@, optional(*head), k as int),
    {
        let mut more = match target {
            PullRequestTarget::Github { owner, repo, number } => plan_github(
                owner,
                repo,
                *number,
                sections[k],
                head,
            ),
            PullRequestTarget::Gitlab { project, number } => plan_gitlab(
                project,
                *number,
                sections[k],
            ),
        };
        let ghost before = out@;
        let ghost added = more@;
        out.append(&mut more);
        proof {
            assert(fetch_models(out@) =~= fetch_models(before) + fetch_models(added));
        }
    }
    out
}

/// The commit at the head of a pull request, as the summary that GitHub gave names
/// it.
pub open spec fn head_named(summary: Seq<u8>) -> Option<Seq<char>> {
    if web::is_json(summary) {
        web::json_text_at(summary, "/head/sha"@)
    } else {
        None
    }
}

/// Reads which commit is at the head of a pull request.
pub fn head_commit(summary: &Vec<u8>) -> (res: Option<String>)
    ensures
        optional(res) == head_named(summary@),
{
    match read_json_text(summary.as_slice(), "/head/sha") {
        Ok(found) => found,
        Err(_) => None,
    }
}

/// A header of a request.
pub struct Header {
    pub name: String,
    pub value: String,
}

/// A header of a request, as a pair of texts.
pub open spec fn header_pair(header: Header) -> (Seq<char>, Seq<char>) {
    (header.name@, header.value@)
}

/// The headers of a request to a hosting service. A token, where there is one, goes
/// into the header that the service reads it from.
pub open spec fn headers_for(target: TargetModel, token: Option<Seq<char>>) -> Seq<
    (Seq<char>, Seq<char>),
> {
    let common = seq![
        ("Accept"@, "application/json"@),
        ("User-Agent"@, "Zed-Agent"@),
    ];
    match target {
        TargetModel::Github { .. } => {
            let versioned = common.push(("X-GitHub-Api-Version"@, "2022-11-28"@));
            match token {
                Some(t) => versioned.push(("Authorization"@, "Bearer "@ + t)),
                None => versioned,
            }
        },
        TargetModel::Gitlab { .. } => match token {
            Some(t) => common.push(("PRIVATE-TOKEN"@, t)),
            None => common,
        },
    }
}

/// The headers of a request to a hosting service.
pub fn request_headers(target: &PullRequestTarget, token: &Option<String>) -> (res: Vec<Header>)
    ensures
        res@.map_values(|h: Header| header_pair(h)) == headers_for(target@, optional(*token)),
{
    let mut out: Vec<Header> = Vec::new();
    out.push(Header { name: "Accept".to_owned(), value: "application/json".to_owned() });
    out.push(Header { name: "User-Agent".to_owned(), value: "Zed-Agent".to_owned() });
    match target {
        PullRequestTarget::Github { .. } => {
            out.push(
                Header { name: "X-GitHub-Api-Version".to_owned(), value: "2022-11-28".to_owned() },
            );
            if let Some(t) = token {
                out.push(
                    Header {
                        name: "Authorization".to_owned(),
                        value: text::cat2("Bearer ", t.as_str()),
                    },
                );
            }
        },
        PullRequestTarget::Gitlab { .. } => {
            if let Some(t) = token {
                out.push(Header { name: "PRIVATE-TOKEN".to_owned(), value: t.clone() });
            }
        },
    }
    proof {
        assert(out@.map_values(|h: Header| header_pair(h)) =~= headers_for(
            target@,
            optional(*token),
        ));
    }
    out
}

/// What is wrong with a response: it is larger than what is left of the budget, or
/// the service did not succeed.
pub open spec fn reply_fault(url: Seq<char>, status: u16, body: Seq<u8>, budget: nat) -> Option<
    Seq<char>,
> {
    if body.len() > budget {
        Some(
            "response from "@ + url + " exceeded "@ + text::decimal(MAX_RESPONSE_BYTES as nat)
                + " bytes"@,
        )
    } else if !(200 <= status <= 299) {
        Some(
            url + " returned HTTP "@ + text::decimal(status as nat) + ": "@ + web::lossy_text(body),
        )
    } else {
        None
    }
}

/// Accepts a response, and hands back what is left of the budget of response bytes
/// that all requests of an inspection share.
pub fn accept_reply(url: &str, status: u16, body: &Vec<u8>, budget: usize) -> (res: Result<
    usize,
    String,
>)
    ensures
        match res {
            Ok(left) => reply_fault(url@, status, body@, budget as nat) is None && left as int
                == budget - body@.len(),
            Err(error) => reply_fault(url@, status, body@, budget as nat) == Some(error@),
        },
{
    if body.len() > budget {
        return Err(
            text::cat5(
                "response from ",
                url,
                " exceeded ",
                text::number(MAX_RESPONSE_BYTES as u128).as_str(),
                " bytes",
            ),
        );
    }
    if status < 200 || status > 299 {
        return Err(
            text::cat5(
                url,
                " returned HTTP ",
                text::number(status as u128).as_str(),
                ": ",
                read_lossily(body.as_slice()).as_str(),
            ),
        );
    }
    Ok(budget - body.len())
}

/// The bytes of a text.
pub open spec fn bytes_of(s: Seq<char>) -> Seq<u8> {
    vstd::utf8::encode_utf8(s)
}

/// What stands in the output where something could not be read.
pub open spec fn error_document(error: Seq<char>) -> Seq<u8> {
    bytes_of(web::error_object(web::json_quoted(error)))
}

/// What stands in the output for a response, or for the reason that there is none.
pub open spec fn shown_document(fetch: FetchModel, reply: Result<Seq<u8>, Seq<char>>) -> Seq<u8> {
    match reply {
        Ok(body) => if web::is_json(body) {
            body
        } else {
            error_document(
                match fetch.url {
                    Ok(url) => url + " returned invalid JSON"@,
                    Err(error) => error,
                },
            )
        },
        Err(error) => error_document(error),
    }
}

/// The response to a fetch, or why there is none.
#[derive(Debug)]
pub struct SectionReply {
    pub result: Result<Vec<u8>, String>,
}

/// The response to a fetch as a mathematical value.
pub open spec fn reply_value(reply: SectionReply) -> Result<Seq<u8>, Seq<char>> {
    match reply.result {
        Ok(body) => Ok(body@),
        Err(error) => Err(error@),
    }
}

/// Some responses as mathematical values.
pub open spec fn reply_values(replies: Seq<SectionReply>) -> Seq<Result<Seq<u8>, Seq<char>>> {
    replies.map_values(|r: SectionReply| reply_value(r))
}

/// The places of the output: the name of the service, the summary, then the sections.
pub open spec fn output_paths(fetches: Seq<FetchModel>) -> Seq<Seq<Seq<char>>> {
    seq![seq!["provider"@], seq!["summary"@]] + fetches.map_values(|f: FetchModel| f.path())
}

/// What stands at the places of the output.
pub open spec fn output_documents(
    target: TargetModel,
    summary: Seq<u8>,
    fetches: Seq<FetchModel>,
    replies: Seq<Result<Seq<u8>, Seq<char>>>,
) -> Seq<Seq<u8>> {
    seq![bytes_of(web::json_quoted(provider(target))), summary] + Seq::new(
        fetches.len(),
        |i: int| shown_document(fetches[i], replies[i]),
    )
}

/// What the inspection shows. Only a summary that cannot be read fails it: a section
/// that cannot be read is shown as such.
pub open spec fn inspected(
    target: TargetModel,
    summary: Seq<u8>,
    summary_url: Seq<char>,
    fetches: Seq<FetchModel>,
    replies: Seq<Result<Seq<u8>, Seq<char>>>,
    max_bytes: Option<usize>,
) -> Result<Seq<char>, Seq<char>> {
    if web::is_json(summary) {
        Ok(
            limit::cut_off(
                web::members_laid_out(
                    output_paths(fetches),
                    output_documents(target, summary, fetches, replies),
                )->0,
                git::byte_limit(max_bytes, DEFAULT_OUTPUT_BYTES as nat, MAX_OUTPUT_BYTES as nat),
                output_notice(),
            ),
        )
    } else {
        Err(summary_url + " returned invalid JSON"@)
    }
}

fn error_bytes(error: &str) -> (res: Vec<u8>)
    ensures
        res@ == error_document(error@),
        web::is_json(res@),
{
    let said = text::cat3("{\"error\":", quote_json(error).as_str(), "}");
    to_bytes(said.as_str())
}

fn to_bytes(s: &str) -> (res: Vec<u8>)
    ensures
        res@ == bytes_of(s@),
{
    let bytes = s.as_bytes();
    let mut out: Vec<u8> = Vec::new();
    for k in 0..bytes.len()
        invariant
            out@ =~= bytes@.take(k as int),
    {
        out.push(bytes[k]);
    }
    proof {
        assert(bytes@.take(bytes@.len() as int) =~= bytes@);
    }
    out
}

fn shown_bytes(fetch: &SectionFetch, reply: &SectionReply) -> (res: Vec<u8>)
    ensures
        res@ == shown_document(fetch@, reply_value(*reply)),
        web::is_json(res@),
{
    match &reply.result {
        Ok(body) => if check_json(body.as_slice()) {
            let mut out: Vec<u8> = Vec::new();
            for k in 0..body.len()
                invariant
                    out@ =~= body@.take(k as int),
            {
                out.push(body[k]);
            }
            proof {
                assert(body@.take(body@.len() as int) =~= body@);
            }
            out
        } else {
            match &fetch.url {
                Ok(url) => error_bytes(text::cat2(url.as_str(), " returned invalid JSON").as_str()),
                Err(error) => error_bytes(error.as_str()),
            }
        },
        Err(error) => error_bytes(error.as_str()),
    }
}

fn fetch_path(fetch: &SectionFetch) -> (res: Vec<String>)
    ensures
        graph::texts(res@) == fetch@.path(),
{
    let mut path: Vec<String> = Vec::new();
    path.push(fetch.key.clone());
    if let Some(part) = &fetch.part {
        path.push(part.clone());
    }
    proof {
        assert(graph::texts(path@) =~= fetch@.path());
    }
    path
}

fn one(name: &str) -> (res: Vec<String>)
    ensures
        graph::texts(res@) == seq![name@],
{
    let mut path: Vec<String> = Vec::new();
    path.push(name.to_owned());
    proof {
        assert(graph::texts(path@) =~= seq![name@]);
    }
    path
}

/// Puts the summary and what was read of the sections together.
pub(crate) fn assemble(
    target: &PullRequestTarget,
    summary: &Vec<u8>,
    summary_url: &str,
    fetches: &Vec<SectionFetch>,
    replies: &Vec<SectionReply>,
    max_bytes: Option<usize>,
) -> (res: Result<String, String>)
    requires
        fetches@.len() == replies@.len(),
        web::apart(output_paths(fetch_models(fetches@))),
    ensures
        found(res) == inspected(
            target@,
            summary@,
            summary_url@,
            fetch_models(fetches@),
            reply_values(replies@),
            max_bytes,
        ),
{
    if !check_json(summary.as_slice()) {
        return Err(text::cat2(summary_url, " returned invalid JSON"));
    }
    let ghost models = fetch_models(fetches@);
    let ghost values = reply_values(replies@);
    let ghost all_paths = output_paths(models);
    let ghost all_documents = output_documents(target@, summary@, models, values);
    let mut paths: Vec<Vec<String>> = Vec::new();
    let mut documents: Vec<Vec<u8>> = Vec::new();
    paths.push(one("provider"));
    documents.push(to_bytes(quote_json(target.provider_name()).as_str()));
    paths.push(one("summary"));
    documents.push(summary.clone());
    proof {
        assert(documents@[1]@ =~= summary@);
        assert(web::text_lists(paths@) =~= all_paths.take(2));
        assert(web::byte_lists(documents@) =~= all_documents.take(2));
    }
    for k in 0..fetches.len()
        invariant
            models == fetch_models(fetches@),
            values == reply_values(replies@),
            fetches@.len() == replies@.len(),
            all_paths == output_paths(models),
            all_documents == output_documents(target@, summary@, models, values),
            paths@.len() == k + 2,
            documents@.len() == k + 2,
            web::text_lists(paths@) == all_paths.take(k + 2),
            web::byte_lists(documents@) == all_documents.take(k + 2),
            forall|i: int| 0 <= i < documents@.len() ==> web::is_json(#[trigger] documents@[i]@),
    {
        let fetch = &fetches[k];
        let reply = &replies[k];
        proof {
            assert(models[k as int] == fetch@);
            assert(values[k as int] == reply_value(*reply));
        }
        let ghost paths_before = paths@;
        let ghost documents_before = documents@;
        paths.push(fetch_path(fetch));
        documents.push(shown_bytes(fetch, reply));
        proof {
            assert(all_paths[k + 2] == fetch@.path());
            assert(all_documents[k + 2] == shown_document(fetch@, reply_value(*reply)));
            assert(web::text_lists(paths@) =~= web::text_lists(paths_before).push(all_paths[k + 2]));
            assert(web::byte_lists(documents@) =~= web::byte_lists(documents_before).push(
                all_documents[k + 2],
            ));
            assert(all_paths.take(k + 3) =~= all_paths.take(k + 2).push(all_paths[k + 2]));
            assert(all_documents.take(k + 3) =~= all_documents.take(k + 2).push(
                all_documents[k + 2],
            ));
        }
    }
    proof {
        assert(all_paths.take(all_paths.len() as int) =~= all_paths);
        assert(all_documents.take(all_documents.len() as int) =~= all_documents);
    }
    match lay_out_members(&paths, &documents) {
        Ok(laid_out) => {
            let limit: usize = clamp_bytes(max_bytes, DEFAULT_OUTPUT_BYTES, MAX_OUTPUT_BYTES);
            Ok(truncate_utf8(laid_out, limit))
        },
        Err(_) => {
            proof {
                assert(false);
            }
            Err(String::new())
        },
    }
}

/// What inspecting a pull request is called while it is under way; `None` stands for
/// input that could not be read.
pub fn inspection_title(input: Option<&PullRequestToolInput>) -> (res: String)
    ensures
        res@ == (match input {
            Some(asked) => "Inspect pull request "@ + asked.url@,
            None => "Inspect pull request"@,
        }),
{
    match input {
        Some(asked) => text::cat2("Inspect pull request ", asked.url.as_str()),
        None => "Inspect pull request".to_owned(),
    }
}

/// Only HTTPS addresses of the two known hosts, without credentials or a port, name
/// a pull request.
pub proof fn law_targets_are_on_known_hosts(url: UrlModel)
    ensures
        target_of(url) is Ok ==> url.scheme == "https"@ && url.username.len() == 0
            && url.password is None && url.port is None && (url.host == Some("github.com"@)
            || url.host == Some("gitlab.com"@)),
        target_of(url) matches Ok(TargetModel::Github { .. }) ==> url.host == Some("github.com"@),
{
    reveal_strlit("github.com");
    reveal_strlit("gitlab.com");
}

/// Whatever becomes of the sections, an inspection with a readable summary succeeds.
pub proof fn law_sections_cannot_fail_an_inspection(
    target: TargetModel,
    summary: Seq<u8>,
    summary_url: Seq<char>,
    fetches: Seq<FetchModel>,
    replies: Seq<Result<Seq<u8>, Seq<char>>>,
    max_bytes: Option<usize>,
)
    ensures
        inspected(target, summary, summary_url, fetches, replies, max_bytes) is Ok
            <==> web::is_json(summary),
{
}

/// What a section is shown as does not depend on how any other section was answered,
/// and the summary stands in the output as it was read.
pub proof fn law_sections_stand_by_themselves(
    target: TargetModel,
    summary: Seq<u8>,
    fetches: Seq<FetchModel>,
    replies: Seq<Result<Seq<u8>, Seq<char>>>,
    other: Seq<Result<Seq<u8>, Seq<char>>>,
    i: int,
)
    requires
        0 <= i < fetches.len(),
        replies[i] == other[i],
    ensures
        output_documents(target, summary, fetches, replies)[i + 2] == output_documents(
            target,
            summary,
            fetches,
            other,
        )[i + 2],
        output_documents(target, summary, fetches, replies)[1] == summary,
        output_paths(fetches)[1] == seq!["summary"@],
{
}

/// No section is ever put where the summary or the name of the service stands.
pub proof fn law_sections_leave_the_summary(
    target: TargetModel,
    sections: Seq<PullRequestSection>,
    head: Option<Seq<char>>,
    k: int,
    i: int,
)
    requires
        0 <= i < planned(target, sections, head, k).len(),
    ensures
        planned(target, sections, head, k)[i].key != "summary"@,
        planned(target, sections, head, k)[i].key != "provider"@,
    decreases k,
{
    reveal_strlit("summary");
    reveal_strlit("provider");
    reveal_strlit("files");
    reveal_strlit("conversation");
    reveal_strlit("reviews");
    reveal_strlit("checks");
    if k > 0 {
        let before = planned(target, sections, head, k - 1);
        if i < before.len() {
            law_sections_leave_the_summary(target, sections, head, k - 1, i);
            assert(planned(target, sections, head, k)[i] == before[i]);
        } else {
            let more = match target {
                TargetModel::Github { owner, repo, number } => github_fetches(
                    owner,
                    repo,
                    number,
                    sections[k - 1],
                    head,
                ),
                TargetModel::Gitlab { project, number } => gitlab_fetches(
                    project,
                    number,
                    sections[k - 1],
                ),
            };
            assert(planned(target, sections, head, k)[i] == more[i - before.len()]);
            let key = more[i - before.len()].key;
            assert("summary"@[0] == 's');
            assert("provider"@[0] == 'p');
            assert("files"@[0] == 'f');
            assert("conversation"@[0] == 'c');
            assert("reviews"@[0] == 'r');
            assert("checks"@[0] == 'c');
            assert(key[0] == 'f' || key[0] == 'c' || key[0] == 'r');
        }
    }
}

proof fn lemma_number_read(n: nat)
    requires
        n <= u64::MAX,
    ensures
        parsed_number(text::decimal(n)) == Some(n as u64),
{
    let digits = text::decimal(n);
    text::law_numbers_read_back(n);
    lemma_digits_said(digits);
    assert(digits[0] != '+');
    assert forall|i: int| 0 <= i < digits.len() implies is_digit(#[trigger] digits[i]) by {
        assert('0' <= digits[i] && digits[i] <= '9');
    }
}

proof fn lemma_digits_said(digits: Seq<char>)
    requires
        forall|i: int| 0 <= i < digits.len() ==> '0' <= #[trigger] digits[i] && digits[i] <= '9',
    ensures
        digits_value(digits) == text::said(digits),
    decreases digits.len(),
{
    if digits.len() > 0 {
        let rest = digits.drop_last();
        assert forall|i: int| 0 <= i < rest.len() implies '0' <= #[trigger] rest[i] && rest[i]
            <= '9' by {
            assert(rest[i] == digits[i]);
        }
        lemma_digits_said(rest);
        assert('0' <= digits[digits.len() - 1]);
    }
}

/// The address of a pull request names it: on GitHub by owner, repository and number, and
/// on GitLab by the groups and the project, however many, and the number. Empty parts of
/// the path, as after a slash at its end, do not count. Nothing else names one.
pub proof fn law_addresses_name_their_pull_requests(url: UrlModel, n: u64)
    requires
        url.scheme == "https"@,
        url.username.len() == 0,
        url.password is None,
        url.port is None,
        url.segments is Some,
    ensures
        ({
            let parts = url.segments->0.filter(|s: Seq<char>| s.len() > 0);
            let count = parts.len() as int;
            &&& url.host == Some("github.com"@) && count == 4 && parts[2] == "pull"@ && parts[3]
                == text::decimal(n as nat) ==> target_of(url) == Ok::<
                TargetModel,
                PullRequestUrlError,
            >(TargetModel::Github { owner: parts[0], repo: parts[1], number: n })
            &&& url.host == Some("github.com"@) && (count != 4 || parts[2] != "pull"@)
                ==> target_of(url) is Err
            &&& url.host == Some("gitlab.com"@) && count >= 5 && parts[count - 3] == "-"@
                && parts[count - 2] == "merge_requests"@ && parts[count - 1] == text::decimal(
                n as nat,
            ) && (forall|i: int|
                0 <= i < count - 3 ==> !(#[trigger] parts[i] == "-"@ && parts[i + 1]
                    == "merge_requests"@)) ==> target_of(url) == Ok::<
                TargetModel,
                PullRequestUrlError,
            >(
                TargetModel::Gitlab {
                    project: text::joined(parts.take(count - 3), "/"@),
                    number: n,
                },
            )
            &&& url.host == Some("gitlab.com"@) && (forall|i: int|
                0 <= i < count - 1 ==> !(#[trigger] parts[i] == "-"@ && parts[i + 1]
                    == "merge_requests"@)) ==> target_of(url) is Err
        }),
{
    reveal_strlit("github.com");
    reveal_strlit("gitlab.com");
    let parts = url.segments->0.filter(|s: Seq<char>| s.len() > 0);
    let count = parts.len() as int;
    lemma_number_read(n as nat);
    assert(solid(url.segments->0) == parts);
    if url.host == Some("gitlab.com"@) {
        assert("github.com"@[3] == 'h' && "gitlab.com"@[3] == 'l');
        assert(url.host != Some("github.com"@));
        if count >= 5 && parts[count - 3] == "-"@ && parts[count - 2] == "merge_requests"@ && (
        forall|i: int|
            0 <= i < count - 3 ==> !(#[trigger] parts[i] == "-"@ && parts[i + 1]
                == "merge_requests"@)) {
            let m = count - 3;
            assert(marks(parts, m));
            assert forall|j: int| 0 <= j < m implies !#[trigger] marks(parts, j) by {
                assert(!(parts[j] == "-"@ && parts[j + 1] == "merge_requests"@));
            }
            assert(is_marker(parts, m));
            let c = choose|i: int| is_marker(parts, i);
            assert(is_marker(parts, c));
            if c < m {
                assert(!marks(parts, c));
            }
            if m < c {
                assert(!marks(parts, m));
            }
        }
        if forall|i: int|
            0 <= i < count - 1 ==> !(#[trigger] parts[i] == "-"@ && parts[i + 1]
                == "merge_requests"@) {
            assert forall|i: int| !is_marker(parts, i) by {
                if is_marker(parts, i) {
                    assert(!(parts[i] == "-"@ && parts[i + 1] == "merge_requests"@));
                }
            }
        }
    }
}

/// A response is accepted just where it fits what is left of the budget and its status
/// says success.
pub proof fn law_responses_are_accepted_within_limits(
    url: Seq<char>,
    status: u16,
    body: Seq<u8>,
    budget: nat,
)
    ensures
        reply_fault(url, status, body, budget) is None <==> body.len() <= budget && 200 <= status
            && status < 300,
        body.len() <= budget && !(200 <= status && status < 300) ==> (url + " returned HTTP "@
            + text::decimal(status as nat) + ": "@).is_prefix_of(
            reply_fault(url, status, body, budget)->0,
        ),
{
    if body.len() <= budget && !(200 <= status && status < 300) {
        let start = url + " returned HTTP "@ + text::decimal(status as nat) + ": "@;
        let said = reply_fault(url, status, body, budget)->0;
        assert(start =~= said.subrange(0, start.len() as int));
    }
}

/// A token is handed to the service it is for, in the header that the service reads, and
/// to nobody where there is none; what is asked for is JSON.
pub proof fn law_tokens_go_where_they_belong(target: TargetModel, token: Option<Seq<char>>)
    ensures
        ({
            let headers = headers_for(target, token);
            &&& headers.contains(("Accept"@, "application/json"@))
            &&& token matches Some(t) ==> (target is Github ==> headers.contains(
                ("Authorization"@, "Bearer "@ + t),
            ))
            &&& token matches Some(t) ==> (target is Gitlab ==> headers.contains(
                ("PRIVATE-TOKEN"@, t),
            ))
            &&& token is None || target is Gitlab ==> forall|i: int|
                0 <= i < headers.len() ==> (#[trigger] headers[i]).0 != "Authorization"@
            &&& token is None || target is Github ==> forall|i: int|
                0 <= i < headers.len() ==> (#[trigger] headers[i]).0 != "PRIVATE-TOKEN"@
        }),
{
    reveal_strlit("Accept");
    reveal_strlit("User-Agent");
    reveal_strlit("X-GitHub-Api-Version");
    reveal_strlit("Authorization");
    reveal_strlit("PRIVATE-TOKEN");
    let headers = headers_for(target, token);
    assert(headers[0] == ("Accept"@, "application/json"@));
    assert("Accept"@.len() == 6 && "User-Agent"@.len() == 10 && "X-GitHub-Api-Version"@.len() == 20
        && "Authorization"@.len() == 13 && "PRIVATE-TOKEN"@.len() == 13);
    assert("Authorization"@[0] == 'A' && "PRIVATE-TOKEN"@[0] == 'P');
    if let Some(t) = token {
        assert(headers[headers.len() - 1] == headers.last());
    }
}

/// Every section that was asked for is fetched, each from the resource that holds it.
pub proof fn law_sections_are_fetched_from_their_places(
    target: TargetModel,
    sections: Seq<PullRequestSection>,
    head: Option<Seq<char>>,
    k: int,
    i: int,
)
    requires
        0 <= i < k <= sections.len(),
    ensures
        ({
            let fetches = planned(target, sections, head, k);
            match target {
                TargetModel::Github { owner, repo, number } => {
                    let n = text::decimal(number as nat);
                    let at = |suffix: Seq<Seq<char>>|
                        paged(
                            url_with_path(
                                "https://api.github.com"@,
                                seq!["repos"@, owner, repo] + suffix,
                            ),
                            100,
                        );
                    match sections[i] {
                        PullRequestSection::Files => fetches.contains(
                            FetchModel {
                                key: "files"@,
                                part: None,
                                url: at(seq!["pulls"@, n, "files"@]),
                            },
                        ),
                        PullRequestSection::Reviews => fetches.contains(
                            FetchModel {
                                key: "reviews"@,
                                part: None,
                                url: at(seq!["pulls"@, n, "reviews"@]),
                            },
                        ),
                        PullRequestSection::Conversation => fetches.contains(
                            FetchModel {
                                key: "conversation"@,
                                part: Some("issue_comments"@),
                                url: at(seq!["issues"@, n, "comments"@]),
                            },
                        ) && fetches.contains(
                            FetchModel {
                                key: "conversation"@,
                                part: Some("review_comments"@),
                                url: at(seq!["pulls"@, n, "comments"@]),
                            },
                        ),
                        PullRequestSection::Checks => head is Some ==> fetches.contains(
                            FetchModel {
                                key: "checks"@,
                                part: None,
                                url: at(seq!["commits"@, head->0, "check-runs"@]),
                            },
                        ),
                    }
                },
                TargetModel::Gitlab { project, number } => {
                    let (key, name, size) = match sections[i] {
                        PullRequestSection::Files => ("files"@, "diffs"@, 100nat),
                        PullRequestSection::Conversation => ("conversation"@, "notes"@, 100nat),
                        PullRequestSection::Reviews => ("reviews"@, "approvals"@, 100nat),
                        PullRequestSection::Checks => ("checks"@, "pipelines"@, 20nat),
                    };
                    fetches.contains(
                        FetchModel {
                            key,
                            part: None,
                            url: paged(
                                url_with_path(
                                    "https://gitlab.com"@,
                                    seq![
                                        "api"@,
                                        "v4"@,
                                        "projects"@,
                                        project,
                                        "merge_requests"@,
                                        text::decimal(number as nat),
                                    ] + seq![name],
                                ),
                                size,
                            ),
                        },
                    )
                },
            }
        }),
    decreases k,
{
    let fetches = planned(target, sections, head, k);
    let before = planned(target, sections, head, k - 1);
    if i < k - 1 {
        law_sections_are_fetched_from_their_places(target, sections, head, k - 1, i);
        assert forall|fetch: FetchModel| before.contains(fetch) implies #[trigger] fetches.contains(
            fetch,
        ) by {
            let j = choose|j: int| 0 <= j < before.len() && before[j] == fetch;
            assert(fetches[j] == fetch);
        }
    } else {
        let more = match target {
            TargetModel::Github { owner, repo, number } => github_fetches(
                owner,
                repo,
                number,
                sections[i],
                head,
            ),
            TargetModel::Gitlab { project, number } => gitlab_fetches(
                project,
                number,
                sections[i],
            ),
        };
        assert(fetches == before + more);
        assert(more.len() > 0);
        assert(fetches[before.len() as int] == more[0]);
        if more.len() > 1 {
            assert(fetches[before.len() as int + 1] == more[1]);
        }
    }
}

} // verus!
