//! Recording what has been settled about one step of a plan.
//!
//! A step's own conversation writes down what was agreed in it, and cannot reach
//! past its own step however it is prompted.
use crate::graph::{self, clone_texts, ArchitectGraph, EdgeCondition, NodeId};
use crate::model::{ConditionModel, EdgeModel, GraphModel, NodeModel};
use crate::mutate::{self, GraphMutationError, PlannedRoute, PlannedRouteModel, RefusalModel};
use crate::path::NodePath;
use crate::text;
use vstd::prelude::*;

verus! {

/// What a conversation about a step asks to be written down.
#[derive(Debug)]
pub struct RefineStepToolInput {
    /// What this step must accomplish. Leave out to keep what is already there.
    pub goal: Option<String>,
    /// The constraints on this step, replacing the current list. Leave out to
    /// keep what is already there; send an empty list to clear them.
    pub rules: Option<Vec<String>>,
    /// What this step's summary must contain, for the steps that follow it.
    /// Leave out to keep what is already there.
    pub capture: Option<String>,
    /// When this step leads to each step that follows it. Leave out to keep the
    /// current routing.
    pub routing: Option<Vec<StepRoute>>,
    /// Whether the user has declared this step settled.
    pub lock: bool,
}

/// One outgoing connection from this step.
#[derive(Debug)]
pub struct StepRoute {
    /// The id of the step this connection leads to.
    pub to: String,
    /// When this connection is taken. Leave out when the step simply follows.
    pub condition: Option<RouteCondition>,
}

/// When a connection is taken.
#[derive(Debug)]
pub enum RouteCondition {
    /// An objective statement, such as whether a command succeeded.
    Objective { statement: String },
    /// A yes-or-no question that genuinely needs judgement.
    LlmEvaluated { question: String },
}

impl vstd::std_specs::convert::FromSpecImpl<RouteCondition> for EdgeCondition {
    open spec fn obeys_from_spec() -> bool {
        true
    }

    open spec fn from_spec(v: RouteCondition) -> Self {
        match v {
            RouteCondition::Objective { statement } => EdgeCondition::Deterministic {
                expression: statement,
            },
            RouteCondition::LlmEvaluated { question } => EdgeCondition::LlmEvaluated { question },
        }
    }
}

impl From<RouteCondition> for EdgeCondition {
    fn from(condition: RouteCondition) -> (res: Self) {
        match condition {
            RouteCondition::Objective { statement } => EdgeCondition::Deterministic {
                expression: statement,
            },
            RouteCondition::LlmEvaluated { question } => EdgeCondition::LlmEvaluated { question },
        }
    }
}

/// What came of a refinement.
#[derive(Debug)]
pub enum RefineStepToolOutput {
    Success {
        step: String,
        locked: bool,
        /// Routing that was asked for but could not be applied, because it
        /// pointed at a step that does not exist.
        unknown_steps: Vec<String>,
    },
    Error { error: String },
}

impl StepRoute {
    /// The route this asks for.
    pub open spec fn route(&self) -> PlannedRouteModel {
        PlannedRouteModel {
            to: self.to@,
            condition: match self.condition {
                Some(RouteCondition::Objective { statement }) => ConditionModel::Deterministic {
                    expression: statement@,
                },
                Some(RouteCondition::LlmEvaluated { question }) => ConditionModel::LlmEvaluated {
                    question: question@,
                },
                None => ConditionModel::Always,
            },
        }
    }
}

impl RefineStepToolInput {
    /// The routes this asks for, where it asks for any.
    pub open spec fn routes(&self) -> Option<Seq<PlannedRouteModel>> {
        match self.routing {
            Some(routing) => Some(routing@.map_values(|r: StepRoute| r.route())),
            None => None,
        }
    }

    /// The step with what was agreed written down.
    pub open spec fn written(&self, node: NodeModel) -> NodeModel {
        NodeModel {
            intent: match self.goal {
                Some(goal) => goal@,
                None => node.intent,
            },
            rules: match self.rules {
                Some(rules) => graph::texts(rules@),
                None => node.rules,
            },
            capture: match self.capture {
                Some(capture) => capture@,
                None => node.capture,
            },
            ..node
        }
    }

    /// Why the refinement of the step at a path is refused: the step may not be
    /// edited, or it is to be locked over a plan that is not settled.
    pub open spec fn refusal(&self, plan: GraphModel, path: Seq<Seq<char>>) -> Option<RefusalModel> {
        match plan.step_refusal(path) {
            Some(refusal) => Some(refusal),
            None => if self.lock && !plan.step_at(path)->0.may_lock() {
                Some(RefusalModel::NestedPlanUnlocked { path })
            } else {
                None
            },
        }
    }

    /// The plan around the refined step: its routes replaced where asked, its
    /// detail written down, and locked where asked.
    pub open spec fn refined_local(&self, local: GraphModel, id: Seq<char>) -> GraphModel {
        let routed = match self.routes() {
            Some(routes) => local.without_routes(id).with_routes(id, routes, routes.len()),
            None => local,
        };
        let node = self.written(local.node(id)->0);
        routed.with_step(id, NodeModel { locked: self.lock || node.locked, ..node })
    }

    /// The plan with the step at a path refined.
    pub open spec fn refined(&self, plan: GraphModel, path: Seq<Seq<char>>) -> GraphModel {
        plan.with_plan_at(
            path.drop_last(),
            self.refined_local(plan.plan_at(path.drop_last())->0, path.last()),
        )
    }

    /// The steps that were routed to but do not exist.
    pub open spec fn unknown(&self, plan: GraphModel, path: Seq<Seq<char>>) -> Seq<Seq<char>> {
        match self.routes() {
            Some(routes) => plan.plan_at(path.drop_last())->0.unknown_targets(routes),
            None => Seq::empty(),
        }
    }
}

/// What a refinement did: the step's title, whether it is locked, and the steps
/// that were routed to but do not exist.
#[derive(Debug)]
pub struct Refinement {
    pub step: String,
    pub locked: bool,
    pub unknown_steps: Vec<String>,
}

fn planned_routes(routing: &Vec<StepRoute>) -> (res: Vec<PlannedRoute>)
    ensures
        mutate::route_values(res@) == routing@.map_values(|r: StepRoute| r.route()),
{
    let mut out: Vec<PlannedRoute> = Vec::new();
    let ghost all = routing@.map_values(|r: StepRoute| r.route());
    proof {
        assert(mutate::route_values(out@) =~= all.take(0));
    }
    for k in 0..routing.len()
        invariant
            all == routing@.map_values(|r: StepRoute| r.route()),
            mutate::route_values(out@) == all.take(k as int),
    {
        let condition = match &routing[k].condition {
            Some(RouteCondition::Objective { statement }) => EdgeCondition::from(
                RouteCondition::Objective { statement: statement.clone() },
            ),
            Some(RouteCondition::LlmEvaluated { question }) => EdgeCondition::from(
                RouteCondition::LlmEvaluated { question: question.clone() },
            ),
            None => EdgeCondition::Always,
        };
        let ghost before = out@;
        let route = PlannedRoute { to: NodeId(routing[k].to.clone()), condition };
        let ghost value = route@;
        out.push(route);
        proof {
            assert(value == all[k as int]);
            assert(mutate::route_values(out@) =~= mutate::route_values(before).push(value));
            assert(all.take(k + 1) =~= all.take(k as int).push(value));
        }
    }
    proof {
        assert(all.take(all.len() as int) =~= all);
    }
    out
}

/// Writes a refinement down on the step at a path.
///
/// Everything that can be refused is refused before anything is written: a lock
/// that may not be set or a path that leads nowhere must not leave half the
/// request written to the plan.
pub fn apply_refinement(
    graph: &mut ArchitectGraph,
    node_path: &NodePath,
    input: &RefineStepToolInput,
) -> (res: Result<Refinement, GraphMutationError>)
    ensures
        match res {
            Ok(done) => {
                &&& input.refusal(old(graph)@, node_path@) is None
                &&& final(graph)@ == input.refined(old(graph)@, node_path@)
                &&& done.step@ == old(graph)@.step_at(node_path@)->0.title
                &&& done.locked == (input.lock || old(graph)@.step_at(node_path@)->0.locked)
                &&& graph::texts(done.unknown_steps@) == input.unknown(old(graph)@, node_path@)
            },
            Err(error) => {
                &&& input.refusal(old(graph)@, node_path@) == Some(error@)
                &&& final(graph)@ == old(graph)@
            },
        },
{
    if let Err(error) = graph.check_step(node_path) {
        return Err(error);
    }
    let count: usize = node_path.0.len();
    proof {
        assert(node_path@.take(node_path@.len() as int) =~= node_path@);
    }
    if input.lock {
        if let Some(node) = graph.step_within(node_path, count) {
            let settled = match node.subplan() {
                Some(subplan) => subplan.is_fully_locked_deeply(),
                None => true,
            };
            if !settled {
                return Err(GraphMutationError::NestedPlanUnlocked { path: node_path.clone() });
            }
        }
    }
    let above = crate::mutate::parent_path(node_path);
    let id = &node_path.0[count - 1];
    match graph.graph_at_mut(&above) {
        Some(local) => {
            let done = refine_local(local, id, input);
            Ok(done)
        },
        None => Err(GraphMutationError::NotFound { path: node_path.clone() }),
    }
}

fn refine_local(local: &mut ArchitectGraph, id: &NodeId, input: &RefineStepToolInput) -> (res:
    Refinement)
    requires
        old(local)@.node(id@) is Some,
    ensures
        final(local)@ == input.refined_local(old(local)@, id@),
        res.step@ == old(local)@.node(id@)->0.title,
        res.locked == (input.lock || old(local)@.node(id@)->0.locked),
        graph::texts(res.unknown_steps@) == (match input.routes() {
            Some(routes) => old(local)@.unknown_targets(routes),
            None => Seq::empty(),
        }),
{
    let ghost before = local@;
    let mut unknown_steps: Vec<String> = Vec::new();
    proof {
        assert(graph::texts(unknown_steps@) =~= Seq::empty());
    }
    if let Some(routing) = &input.routing {
        let routes = planned_routes(routing);
        local.remove_routes(id);
        let unknown = local.add_routes(id, &routes);
        unknown_steps = graph::id_texts(&unknown);
        proof {
            let values = mutate::route_values(routes@);
            let bare = before.without_routes(id@);
            bare.lemma_routes_keep_nodes(id@, values, values.len());
            assert forall|r: PlannedRouteModel| #[trigger] bare.has_node(r.to) == before.has_node(
                r.to,
            ) by {
                assert(bare.nodes == before.nodes);
            }
            let p = |r: PlannedRouteModel| !bare.has_node(r.to);
            let q = |r: PlannedRouteModel| !before.has_node(r.to);
            assert(p =~= q);
        }
    }
    let ghost routed = local@;
    let mut step = String::new();
    let mut locked = false;
    proof {
        assert(routed.nodes == before.nodes);
        assert(routed.node(id@) == before.node(id@)) by {
            before.lemma_node(id@);
            let i = before.node_index(id@)->0;
            assert(routed.is_index(id@, i));
            routed.lemma_index(id@, i);
        }
    }
    if let Some(node) = local.node_mut(id) {
        if let Some(goal) = &input.goal {
            node.intent = goal.clone();
        }
        if let Some(rules) = &input.rules {
            node.rules = clone_texts(rules);
        }
        if let Some(capture) = &input.capture {
            node.capture = capture.clone();
        }
        if input.lock {
            node.locked = true;
        }
        step = node.title.clone();
        locked = node.locked;
    }
    Refinement { step, locked, unknown_steps }
}

/// What the model is told of a refinement: what was recorded, or why nothing was.
pub fn refinement_output(outcome: Result<Refinement, GraphMutationError>) -> (res: Result<
    RefineStepToolOutput,
    RefineStepToolOutput,
>)
    ensures
        match outcome {
            Ok(done) => res matches Ok(RefineStepToolOutput::Success {
                step,
                locked,
                unknown_steps,
            }) && step == done.step && locked == done.locked && unknown_steps == done.unknown_steps,
            Err(error) => res matches Err(RefineStepToolOutput::Error { error: told }) && told@
                == "Could not refine this step: "@ + error@.sentence(),
        },
{
    match outcome {
        Ok(done) => Ok(
            RefineStepToolOutput::Success {
                step: done.step,
                locked: done.locked,
                unknown_steps: done.unknown_steps,
            },
        ),
        Err(error) => Err(
            RefineStepToolOutput::Error {
                error: text::cat2("Could not refine this step: ", error.to_text().as_str()),
            },
        ),
    }
}

/// What the refinement is called while it is under way; `None` stands for input
/// that could not be read.
pub fn refinement_title(input: Option<&RefineStepToolInput>) -> (res: &'static str)
    ensures
        res@ == (if input matches Some(asked) && asked.lock {
            "Settle and lock this step"@
        } else {
            "Record what this step must do"@
        }),
{
    match input {
        Some(asked) if asked.lock => "Settle and lock this step",
        _ => "Record what this step must do",
    }
}

/// A refinement reaches no other step: within its plan every other step stays as
/// it is, and so does every connection that does not leave the refined step.
pub proof fn law_refinement_touches_one_step(
    input: &RefineStepToolInput,
    local: GraphModel,
    id: Seq<char>,
)
    requires
        local.node(id) is Some,
    ensures
        input.refined_local(local, id).nodes.len() == local.nodes.len(),
        forall|i: int|
            0 <= i < local.nodes.len() && local.node_index(id) != Some(i)
                ==> #[trigger] input.refined_local(local, id).nodes[i] == local.nodes[i],
        input.refined_local(local, id).edges.filter(|e: EdgeModel| e.from != id)
            == local.edges.filter(|e: EdgeModel| e.from != id),
        local.node(id)->0.subplan == input.refined_local(local, id).nodes[local.node_index(
            id,
        )->0].subplan,
{
    local.lemma_node(id);
    let i = local.node_index(id)->0;
    let other = |e: EdgeModel| e.from != id;
    if let Some(routes) = input.routes() {
        let bare = local.without_routes(id);
        let routed = bare.with_routes(id, routes, routes.len());
        bare.lemma_routes_keep_nodes(id, routes, routes.len());
        assert(routed.is_index(id, i));
        routed.lemma_index(id, i);
        lemma_other_edges(bare, id, routes, routes.len());
        lemma_filter_twice(local.edges, other);
    }
}

proof fn lemma_filter_twice(edges: Seq<EdgeModel>, p: spec_fn(EdgeModel) -> bool)
    ensures
        edges.filter(p).filter(p) == edges.filter(p),
    decreases edges.len(),
{
    reveal(Seq::filter);
    if edges.len() > 0 {
        let init = edges.drop_last();
        lemma_filter_twice(init, p);
        if p(edges.last()) {
            crate::model::lemma_filter_push(init.filter(p), p, edges.last());
        }
    }
}

proof fn lemma_other_edges(
    plan: GraphModel,
    id: Seq<char>,
    routes: Seq<PlannedRouteModel>,
    k: nat,
)
    ensures
        plan.with_routes(id, routes, k).edges.filter(|e: EdgeModel| e.from != id)
            == plan.edges.filter(|e: EdgeModel| e.from != id),
    decreases k,
{
    if k > 0 && k <= routes.len() {
        lemma_other_edges(plan, id, routes, (k - 1) as nat);
        let rest = plan.with_routes(id, routes, (k - 1) as nat);
        let route = routes[k - 1];
        if plan.has_node(route.to) {
            let added = EdgeModel {
                id: rest.free_edge_id(id, route.to),
                from: id,
                to: route.to,
                condition: route.condition,
            };
            crate::model::lemma_filter_push(rest.edges, |e: EdgeModel| e.from != id, added);
        }
    }
}

} // verus!
