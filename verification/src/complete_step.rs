//! Reporting what a step of a running plan did.
use crate::graph::{ArchitectGraph, StepResult};
use crate::model::{GraphModel, ResultModel};
use crate::path::NodePath;
use crate::text;
use vstd::prelude::*;

verus! {

/// What a step reports when it finishes.
#[derive(Debug)]
pub struct CompleteStepToolInput {
    /// What the step did, answering what it was asked to capture.
    pub summary: String,
}

/// What came of a report.
#[derive(Debug)]
pub enum CompleteStepToolOutput {
    Success { step: String, attempt: usize },
    Error { error: String },
}

impl GraphModel {
    /// The attempt that the step at a path is reporting on.
    pub open spec fn reporting_attempt(self, path: Seq<Seq<char>>) -> nat {
        match self.step_at(path)->0.result {
            Some(result) => result.attempt + 1,
            None => 1,
        }
    }
}

/// The path a step is reported under: that of the step being run, where it is
/// still part of the plan.
pub open spec fn reporting_path(plan: GraphModel, running: Option<NodePath>) -> Option<
    Seq<Seq<char>>,
> {
    match running {
        Some(path) => if plan.step_at(path@) is Some {
            Some(path@)
        } else {
            None
        },
        None => None,
    }
}

/// Records what the step being run reports.
pub fn complete_step(
    graph: &mut ArchitectGraph,
    running: &Option<NodePath>,
    input: &CompleteStepToolInput,
) -> (res: Result<CompleteStepToolOutput, CompleteStepToolOutput>)
    requires
        reporting_path(old(graph)@, *running) matches Some(path) ==> old(graph)@.reporting_attempt(
            path,
        ) <= usize::MAX,
    ensures
        if text::is_blank(input.summary@) {
            &&& final(graph)@ == old(graph)@
            &&& res matches Err(CompleteStepToolOutput::Error { error }) && error@
                == "A summary cannot be empty; the steps that follow have nothing else to go on."@
        } else {
            match reporting_path(old(graph)@, *running) {
                Some(path) => {
                    let number = old(graph)@.reporting_attempt(path);
                    &&& final(graph)@ == old(graph)@.with_report(
                        path,
                        ResultModel { summary: text::trimmed(input.summary@), attempt: number },
                    )
                    &&& res matches Ok(CompleteStepToolOutput::Success { step, attempt }) && step@
                        == old(graph)@.step_at(path)->0.title && attempt as nat == number
                },
                None => {
                    &&& final(graph)@ == old(graph)@
                    &&& res matches Err(CompleteStepToolOutput::Error { error }) && error@
                        == "There is no step running, so there is nothing to report on. This tool is only for steps of a plan being run from the Architect canvas."@
                },
            }
        },
{
    if text::blank(input.summary.as_str()) {
        return Err(
            CompleteStepToolOutput::Error {
                error: "A summary cannot be empty; the steps that follow have nothing else to go on.".to_owned(),
            },
        );
    }
    let summary = text::trim(input.summary.as_str()).to_owned();
    if let Some(path) = running {
        if let Some(node) = graph.node_at_mut(path) {
            let attempt: usize = match &node.result {
                Some(result) => result.attempt + 1,
                None => 1,
            };
            node.result = Some(StepResult { summary, attempt });
            let step = node.title.clone();
            return Ok(CompleteStepToolOutput::Success { step, attempt });
        }
    }
    Err(
        CompleteStepToolOutput::Error {
            error: "There is no step running, so there is nothing to report on. This tool is only for steps of a plan being run from the Architect canvas.".to_owned(),
        },
    )
}

} // verus!
