//! What a tool may do, and which tools Plan mode permits.
use vstd::prelude::*;

verus! {

/// What a tool may do.
#[derive(Clone, Copy, Debug, PartialEq, Eq, Structural)]
pub enum ToolCapability {
    /// Reads local project or conversation state.
    ReadOnly,
    /// Changes only conversation-owned planning state.
    ConversationMutation,
    /// Performs a non-mutating external lookup.
    ExternalRead,
    /// Changes project state.
    ProjectMutation,
    /// May change an external system.
    ExternalMutation,
    /// Runs commands or delegates unrestricted execution.
    ArbitraryExecution,
}

impl Default for ToolCapability {
    /// A tool that was not looked at counts as one that changes the project, so that
    /// Plan mode withholds it.
    fn default() -> (res: Self)
        ensures
            res == ToolCapability::ProjectMutation,
    {
        ToolCapability::ProjectMutation
    }
}

impl ToolCapability {
    /// Whether Plan mode permits a tool.
    pub open spec fn permitted(self) -> bool {
        self == ToolCapability::ReadOnly || self == ToolCapability::ConversationMutation || self
            == ToolCapability::ExternalRead
    }

    /// Whether Plan mode permits a tool.
    pub fn allowed_in_plan_mode(self) -> (res: bool)
        ensures
            res == self.permitted(),
    {
        matches!(
            self,
            ToolCapability::ReadOnly | ToolCapability::ConversationMutation
            | ToolCapability::ExternalRead
        )
    }
}

/// How a client shows a tool.
#[derive(Clone, Copy, Debug, PartialEq, Eq, Structural)]
pub enum ToolKind {
    Think,
    Search,
    Fetch,
}

/// The tools of this library.
#[derive(Clone, Copy, Debug, PartialEq, Eq, Structural)]
pub enum BuiltInTool {
    AskQuestion,
    CompleteStep,
    DraftPlan,
    RefineStep,
    GitStatus,
    GitBranches,
    GitRemotes,
    GitDiff,
    GitShow,
    PullRequest,
}

impl BuiltInTool {
    /// What a model calls the tool.
    pub open spec fn called(self) -> Seq<char> {
        match self {
            BuiltInTool::AskQuestion => "ask_question"@,
            BuiltInTool::CompleteStep => "complete_step"@,
            BuiltInTool::DraftPlan => "draft_plan"@,
            BuiltInTool::RefineStep => "refine_step"@,
            BuiltInTool::GitStatus => "git_status"@,
            BuiltInTool::GitBranches => "git_branches"@,
            BuiltInTool::GitRemotes => "git_remotes"@,
            BuiltInTool::GitDiff => "git_diff"@,
            BuiltInTool::GitShow => "git_show"@,
            BuiltInTool::PullRequest => "pull_request"@,
        }
    }

    /// What a model calls the tool.
    pub fn name(self) -> (res: &'static str)
        ensures
            res@ == self.called(),
    {
        match self {
            BuiltInTool::AskQuestion => "ask_question",
            BuiltInTool::CompleteStep => "complete_step",
            BuiltInTool::DraftPlan => "draft_plan",
            BuiltInTool::RefineStep => "refine_step",
            BuiltInTool::GitStatus => "git_status",
            BuiltInTool::GitBranches => "git_branches",
            BuiltInTool::GitRemotes => "git_remotes",
            BuiltInTool::GitDiff => "git_diff",
            BuiltInTool::GitShow => "git_show",
            BuiltInTool::PullRequest => "pull_request",
        }
    }

    /// How a client shows the tool.
    pub fn kind(self) -> (res: ToolKind)
        ensures
            res == (match self {
                BuiltInTool::AskQuestion | BuiltInTool::CompleteStep | BuiltInTool::DraftPlan
                | BuiltInTool::RefineStep => ToolKind::Think,
                BuiltInTool::PullRequest => ToolKind::Fetch,
                _ => ToolKind::Search,
            }),
    {
        match self {
            BuiltInTool::AskQuestion
            | BuiltInTool::CompleteStep
            | BuiltInTool::DraftPlan
            | BuiltInTool::RefineStep => ToolKind::Think,
            BuiltInTool::PullRequest => ToolKind::Fetch,
            _ => ToolKind::Search,
        }
    }

    /// What the tool may do.
    pub open spec fn may(self) -> ToolCapability {
        match self {
            BuiltInTool::DraftPlan | BuiltInTool::RefineStep =>
                ToolCapability::ConversationMutation,
            BuiltInTool::GitStatus | BuiltInTool::GitBranches | BuiltInTool::GitRemotes
            | BuiltInTool::GitDiff | BuiltInTool::GitShow => ToolCapability::ReadOnly,
            BuiltInTool::PullRequest => ToolCapability::ExternalRead,
            BuiltInTool::AskQuestion | BuiltInTool::CompleteStep =>
                ToolCapability::ProjectMutation,
        }
    }

    /// What the tool may do.
    pub fn capability(self) -> (res: ToolCapability)
        ensures
            res == self.may(),
    {
        match self {
            BuiltInTool::DraftPlan | BuiltInTool::RefineStep =>
                ToolCapability::ConversationMutation,
            BuiltInTool::GitStatus
            | BuiltInTool::GitBranches
            | BuiltInTool::GitRemotes
            | BuiltInTool::GitDiff
            | BuiltInTool::GitShow => ToolCapability::ReadOnly,
            BuiltInTool::PullRequest => ToolCapability::ExternalRead,
            BuiltInTool::AskQuestion | BuiltInTool::CompleteStep => ToolCapability::default(),
        }
    }
}

/// What a tool of a server may do, by what the server says of it. Only a tool that
/// is said to read and nothing else is taken for one that does.
pub open spec fn annotated(read_only: Option<bool>, open_world: bool) -> ToolCapability {
    if read_only == Some(true) {
        if open_world {
            ToolCapability::ExternalRead
        } else {
            ToolCapability::ReadOnly
        }
    } else {
        ToolCapability::ExternalMutation
    }
}

/// Works out what a tool of a server may do.
pub fn annotated_capability(read_only: Option<bool>, open_world: bool) -> (res: ToolCapability)
    ensures
        res == annotated(read_only, open_world),
{
    match read_only {
        Some(true) => if open_world {
            ToolCapability::ExternalRead
        } else {
            ToolCapability::ReadOnly
        },
        _ => ToolCapability::ExternalMutation,
    }
}

/// Plan mode admits a tool of a server exactly where the server says that it only
/// reads.
pub proof fn law_plan_mode_admits_only_declared_reads(read_only: Option<bool>, open_world: bool)
    ensures
        annotated(read_only, open_world).permitted() <==> read_only == Some(true),
{
}

/// Plan mode permits what cannot change a project or anything outside: the tools that read
/// a repository, that look up a pull request, and that edit the plan itself.
pub proof fn law_plan_mode_changes_nothing_outside(tool: BuiltInTool, capability: ToolCapability)
    ensures
        capability.permitted() <==> capability != ToolCapability::ProjectMutation && capability
            != ToolCapability::ExternalMutation && capability != ToolCapability::ArbitraryExecution,
        tool is GitStatus || tool is GitBranches || tool is GitRemotes || tool is GitDiff
            || tool is GitShow ==> tool.may() == ToolCapability::ReadOnly && tool.may().permitted(),
        tool is PullRequest ==> tool.may() == ToolCapability::ExternalRead && tool.may().permitted(),
        tool is DraftPlan || tool is RefineStep ==> tool.may()
            == ToolCapability::ConversationMutation && tool.may().permitted(),
{
}

} // verus!
