//! Drawing a plan, or drawing over the one that is there.
use crate::draft::{ProposedEdge, ProposedGraph, ProposedNode};
use crate::graph::{self, ArchitectGraph, NodeId};
use crate::merge::MergedDraft;
use crate::model::{GraphModel, NodeModel};
use crate::run::{self, describe_problems};
use crate::text;
use vstd::prelude::*;

verus! {

/// The steps and connections a model draws.
#[derive(Debug)]
pub struct DraftPlanToolInput {
    pub nodes: Vec<ProposedNode>,
    pub edges: Vec<ProposedEdge>,
}

/// What came of drawing a plan.
#[derive(Debug)]
pub enum DraftPlanToolOutput {
    Success {
        steps: usize,
        connections: usize,
        /// What is wrong with the plan as drawn, and what is probably missing.
        problems: Vec<String>,
        /// Steps that kept what was already settled about them.
        kept_existing_detail: Vec<String>,
    },
    Error { error: String },
}

impl DraftPlanToolInput {
    /// The plan the input draws.
    pub open spec fn drawn(&self) -> GraphModel {
        ProposedGraph { nodes: self.nodes, edges: self.edges }.graph()
    }

    /// The plan as it will be: the one drawn, over the one that is there.
    pub open spec fn resulting(&self, existing: Option<GraphModel>) -> GraphModel {
        match existing {
            Some(plan) => plan.merged(self.drawn()),
            None => self.drawn(),
        }
    }

    /// The locked steps that drawing the plan would change.
    pub open spec fn refused(&self, existing: Option<GraphModel>) -> Seq<Seq<char>> {
        match existing {
            Some(plan) => plan.refused(self.drawn()),
            None => Seq::empty(),
        }
    }

    /// The steps that keep something the drawing does not carry.
    pub open spec fn kept(&self, existing: Option<GraphModel>) -> Seq<Seq<char>> {
        match existing {
            Some(plan) => plan.preserved(self.drawn()),
            None => Seq::empty(),
        }
    }
}

/// What is said of a step that leads somewhere but hands nothing on.
pub open spec fn hands_nothing_on(id: Seq<char>) -> Seq<char> {
    id + " leads to another step but does not say what it hands on"@
}

impl GraphModel {
    /// What is told of a plan as drawn: its problems, then the steps that lead
    /// somewhere but hand nothing on.
    pub open spec fn drawing_problems(self) -> Seq<Seq<char>> {
        run::sentences(self.problems()) + self.without_capture().map_values(
            |n: NodeModel| hands_nothing_on(n.id),
        )
    }
}

/// Why a drawing is refused that would discard locked steps.
pub open spec fn locked_refusal(steps: Seq<Seq<char>>) -> Seq<char> {
    "This draft would have discarded steps the user has locked: "@ + text::joined(steps, ", "@)
        + ". A locked step is settled — its goal, rules, capture and where it leads were argued out, often in its own chat. Draw the plan again, restating those steps and their connections exactly as they are, and change only what is not locked. If one of them really does have to change, say so and let the user unlock it first."@
}

fn drawing_problems(graph: &ArchitectGraph) -> (res: Vec<String>)
    ensures
        graph::texts(res@) == graph@.drawing_problems(),
{
    let found = graph.problems();
    let mut out = describe_problems(&found);
    let silent = graph.steps_without_capture();
    let ghost first = graph::texts(out@);
    let ghost steps = graph@.without_capture();
    let ghost f = |n: NodeModel| hands_nothing_on(n.id);
    let ghost lines = steps.map_values(f);
    proof {
        assert(graph::ids(silent@).len() == silent@.len());
        assert(steps.map_values(|n: NodeModel| n.id).len() == steps.len());
        assert(first + lines.take(0) =~= first);
    }
    for k in 0..silent.len()
        invariant
            f == (|n: NodeModel| hands_nothing_on(n.id)),
            lines == steps.map_values(f),
            graph::ids(silent@) == steps.map_values(|n: NodeModel| n.id),
            steps.len() == silent@.len(),
            graph::texts(out@) == first + lines.take(k as int),
    {
        let line = text::cat2(
            silent[k].0.as_str(),
            " leads to another step but does not say what it hands on",
        );
        let ghost before = out@;
        out.push(line);
        proof {
            assert(graph::ids(silent@)[k as int] == silent@[k as int]@);
            assert(steps.map_values(|n: NodeModel| n.id)[k as int] == steps[k as int].id);
            assert(lines[k as int] == line@);
            assert(graph::texts(out@) =~= graph::texts(before).push(line@));
            assert(first + lines.take(k + 1) =~= (first + lines.take(k as int)).push(line@));
        }
    }
    proof {
        assert(graph::ids(silent@).len() == steps.len());
        assert(lines.take(lines.len() as int) =~= lines);
    }
    out
}

/// Draws a plan over the one that is there, if any. Hands back the new plan with
/// what the model is told of it, or what it is told instead.
///
/// Drawing over a plan that already exists is an edit, not a fresh start:
/// everything settled since it was first drawn has to survive.
pub fn draft_plan(existing: Option<&ArchitectGraph>, input: DraftPlanToolInput) -> (res: Result<
    (ArchitectGraph, DraftPlanToolOutput),
    DraftPlanToolOutput,
>)
    ensures
        ({
            let plan = match existing {
                Some(graph) => Some(graph@),
                None => None,
            };
            if input.nodes@.len() == 0 {
                res matches Err(DraftPlanToolOutput::Error { error }) && error@
                    == "A plan needs at least one step."@
            } else if input.refused(plan).len() > 0 {
                res matches Err(DraftPlanToolOutput::Error { error }) && error@ == locked_refusal(
                    input.refused(plan),
                )
            } else {
                let after = input.resulting(plan);
                &&& res matches Ok((graph, output))
                &&& graph@ == after
                &&& output matches DraftPlanToolOutput::Success {
                    steps,
                    connections,
                    problems,
                    kept_existing_detail,
                }
                &&& steps == after.nodes.len()
                &&& connections == after.edges.len()
                &&& graph::texts(problems@) == after.drawing_problems()
                &&& graph::texts(kept_existing_detail@) == input.kept(plan)
            }
        }),
{
    if input.nodes.len() == 0 {
        return Err(
            DraftPlanToolOutput::Error { error: "A plan needs at least one step.".to_owned() },
        );
    }
    let ghost given = input;
    let draft = ProposedGraph { nodes: input.nodes, edges: input.edges }.into_graph();
    let merged = match existing {
        Some(plan) => match plan.merge_draft(draft) {
            Ok(merged) => merged,
            Err(refusal) => {
                return Err(
                    DraftPlanToolOutput::Error {
                        error: text::cat3(
                            "This draft would have discarded steps the user has locked: ",
                            text::join(&refusal.steps, ", ").as_str(),
                            ". A locked step is settled — its goal, rules, capture and where it leads were argued out, often in its own chat. Draw the plan again, restating those steps and their connections exactly as they are, and change only what is not locked. If one of them really does have to change, say so and let the user unlock it first.",
                        ),
                    },
                );
            },
        },
        None => {
            let preserved: Vec<NodeId> = Vec::new();
            proof {
                assert(graph::ids(preserved@) =~= Seq::empty());
            }
            MergedDraft { graph: draft, preserved }
        },
    };
    let kept_existing_detail = graph::id_texts(&merged.preserved);
    let graph = merged.graph;
    let steps: usize = graph.nodes.len();
    let connections: usize = graph.edges.len();
    let problems = drawing_problems(&graph);
    proof {
        graph.lemma_view();
    }
    let output = DraftPlanToolOutput::Success {
        steps,
        connections,
        problems,
        kept_existing_detail,
    };
    Ok((graph, output))
}

/// What drawing a plan is called while it is under way; `None` stands for input
/// that could not be read.
pub fn draft_title(input: Option<&DraftPlanToolInput>) -> (res: String)
    ensures
        res@ == (match input {
            Some(drawn) => if drawn.nodes@.len() == 1 {
                "Draft a plan of 1 step"@
            } else {
                "Draft a plan of "@ + text::decimal(drawn.nodes@.len()) + " steps"@
            },
            None => "Draft a plan"@,
        }),
{
    match input {
        Some(drawn) => {
            let count: usize = drawn.nodes.len();
            if count == 1 {
                "Draft a plan of 1 step".to_owned()
            } else {
                text::cat3("Draft a plan of ", text::number(count as u128).as_str(), " steps")
            }
        },
        None => "Draft a plan".to_owned(),
    }
}

proof fn lemma_open_plan_refuses_nothing(plan: GraphModel, draft: GraphModel, k: nat)
    requires
        plan.open_deeply(),
        k <= plan.nodes.len(),
    ensures
        plan.refused_among(draft, k).len() == 0,
    decreases plan, k,
{
    if k > 0 {
        lemma_open_plan_refuses_nothing(plan, draft, (k - 1) as nat);
        let node = plan.nodes[k - 1];
        if let Some(g) = node.subplan {
            match draft.node(node.id) {
                Some(drafted) => {
                    if let Some(inner) = drafted.subplan {
                        lemma_open_plan_refuses_nothing(*g, *inner, g.nodes.len());
                    }
                },
                None => {
                    lemma_open_plan_refuses_nothing(*g, GraphModel::empty(), g.nodes.len());
                },
            }
        }
        assert(!node.locked);
        assert(node.refused_inside(draft.node(node.id)).len() == 0);
    }
}

/// A drawing that is refused is refused for the locked steps it would change: a plan
/// without locked steps, at any depth, never refuses one.
pub proof fn law_unlocked_plan_takes_any_drawing(input: &DraftPlanToolInput, plan: GraphModel)
    requires
        plan.open_deeply(),
    ensures
        input.refused(Some(plan)).len() == 0,
{
    lemma_open_plan_refuses_nothing(plan, input.drawn(), plan.nodes.len());
}

} // verus!
