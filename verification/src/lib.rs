//! Plans as graphs: steps, the connections between them, and everything that
//! is decided about them.
pub mod ask_question;
pub mod briefing;
pub mod canvas;
pub mod capability;
pub mod cards;
pub mod cli;
pub mod compile;
pub mod complete_step;
pub mod draft;
pub mod draft_plan;
pub mod edit;
pub mod editing;
pub mod extent;
pub mod findings;
pub mod form;
pub mod git;
pub mod graph;
pub mod header;
pub mod id_map;
pub mod input;
pub mod inspection;
pub mod inspector;
pub mod layout;
pub mod limit;
pub mod locks;
pub mod merge;
pub mod model;
pub mod mutate;
pub mod outline;
pub mod outline_panel;
pub mod panel;
pub mod path;
pub mod problems;
pub mod prompt;
pub mod pull_request;
pub mod refine_step;
pub mod research;
pub mod run;
pub mod runner;
pub mod search;
pub mod starting;
pub mod steering;
pub mod text;
pub mod verdict;
pub mod views;
pub mod web;
pub mod workspace;

pub use compile::compile_spec;
pub use draft::{ProposedEdge, ProposedGraph, ProposedNode};
pub use graph::{
    ArchitectEdge, ArchitectGraph, ArchitectNode, EdgeCondition, EdgeId, NodeId, Position,
    SessionId, StepResult,
};
pub use merge::{LockedStepsWouldChange, MergedDraft};
pub use mutate::GraphMutationError;
pub use path::NodePath;
pub use problems::GraphProblem;
pub use run::{Branch, Decision, PlanRun, RunOutcome, RunRefusal};
pub use verdict::parse_verdict;
