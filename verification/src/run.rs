//! Driving a finished plan one step at a time, through nested plans and loops.
//!
//! The run holds the position in the graph, the model is told about one step at
//! a time, and every branch is a question put to it in isolation with the answer
//! read back here.
//!
//! A step that contains a plan of its own is not carried out directly: the run
//! descends into it, and the step is finished when its plan is. Which is why
//! position is a stack of frames rather than a single node.
//!
//! Nothing here talks to a model or a UI. It is a state machine: the caller asks
//! what to do next, does it, and reports what happened.
use crate::graph::{self, clone_ids, ArchitectGraph, EdgeCondition, EdgeId, NodeId};
use crate::model::{self, ConditionModel, EdgeModel, GraphModel};
use crate::path::NodePath;
use crate::problems::{self, GraphProblem, ProblemModel};
use crate::text;
use vstd::prelude::*;

verus! {

/// How many steps a run may take before it is stopped, counted across every
/// level. A plan with loops has no natural length, so the run needs a ceiling.
pub const MAX_RUN_STEPS: usize = 200;

/// How many times a single step may be entered before the run is stopped. A
/// tighter bound on the failure that actually happens: a retry loop whose exit
/// condition is never satisfied.
pub const MAX_NODE_VISITS: usize = 25;

/// How deeply plans may nest before a run refuses to descend further.
pub const MAX_PLAN_DEPTH: usize = 5;

/// Why a run would not start.
#[derive(Debug, PartialEq, Eq)]
pub enum RunRefusal {
    NothingToRun,
    NotReady(Vec<GraphProblem>),
}

/// The sentences of some problems.
pub open spec fn sentences(problems: Seq<ProblemModel>) -> Seq<Seq<char>> {
    problems.map_values(|p: ProblemModel| p.sentence())
}

/// Writes out each of some problems.
pub fn describe_problems(problems: &Vec<GraphProblem>) -> (res: Vec<String>)
    ensures
        crate::graph::texts(res@) == sentences(problems::problem_models(problems@)),
{
    let mut out: Vec<String> = Vec::new();
    let ghost all = problems::problem_models(problems@);
    for k in 0..problems.len()
        invariant
            all == problems::problem_models(problems@),
            crate::graph::texts(out@) =~= sentences(all.take(k as int)),
    {
        let ghost before = out@;
        let sentence = problems[k].to_text();
        out.push(sentence);
        proof {
            assert(crate::graph::texts(out@) =~= crate::graph::texts(before).push(sentence@));
            assert(all.take(k + 1) =~= all.take(k as int).push(all[k as int]));
        }
    }
    proof {
        assert(all.take(all.len() as int) =~= all);
    }
    out
}

impl RunRefusal {
    /// Why the run would not start, as a sentence.
    pub fn to_text(&self) -> (res: String)
        ensures
            match *self {
                RunRefusal::NothingToRun => res@ == "there are no steps to run"@,
                RunRefusal::NotReady(problems) => res@ == text::joined(
                    sentences(problems::problem_models(problems@)),
                    "; "@,
                ),
            },
    {
        match self {
            RunRefusal::NothingToRun => "there are no steps to run".to_owned(),
            RunRefusal::NotReady(problems) => {
                let described = describe_problems(problems);
                text::join(&described, "; ")
            },
        }
    }
}

/// How a run ended.
#[derive(Debug, PartialEq, Eq)]
pub enum RunOutcome {
    Completed,
    StepLimit { steps: usize },
    NodeLimit { node: NodeId, visits: usize },
    DepthLimit { node: NodeId },
    Cancelled,
}

/// How a run ended.
#[verifier::ext_equal]
pub enum OutcomeModel {
    Completed,
    StepLimit { steps: nat },
    NodeLimit { node: Seq<char>, visits: nat },
    DepthLimit { node: Seq<char> },
    Cancelled,
}

impl View for RunOutcome {
    type V = OutcomeModel;

    open spec fn view(&self) -> OutcomeModel {
        match *self {
            RunOutcome::Completed => OutcomeModel::Completed,
            RunOutcome::StepLimit { steps } => OutcomeModel::StepLimit { steps: steps as nat },
            RunOutcome::NodeLimit { node, visits } => OutcomeModel::NodeLimit {
                node: node@,
                visits: visits as nat,
            },
            RunOutcome::DepthLimit { node } => OutcomeModel::DepthLimit { node: node@ },
            RunOutcome::Cancelled => OutcomeModel::Cancelled,
        }
    }
}

impl Clone for RunOutcome {
    fn clone(&self) -> (res: Self)
        ensures
            res == *self,
    {
        match self {
            RunOutcome::Completed => RunOutcome::Completed,
            RunOutcome::StepLimit { steps } => RunOutcome::StepLimit { steps: *steps },
            RunOutcome::NodeLimit { node, visits } => RunOutcome::NodeLimit {
                node: node.clone(),
                visits: *visits,
            },
            RunOutcome::DepthLimit { node } => RunOutcome::DepthLimit { node: node.clone() },
            RunOutcome::Cancelled => RunOutcome::Cancelled,
        }
    }
}

impl RunOutcome {
    /// Whether the plan was carried out to its end.
    pub fn is_success(&self) -> (res: bool)
        ensures
            res == (self@ == OutcomeModel::Completed),
    {
        matches!(self, RunOutcome::Completed)
    }
}

/// One way out of the step the run is sitting on.
#[derive(Debug, PartialEq, Eq)]
pub struct Branch {
    pub edge: EdgeId,
    pub to: NodeId,
    pub condition: EdgeCondition,
}

/// One way out of a step.
#[verifier::ext_equal]
pub struct BranchModel {
    pub edge: Seq<char>,
    pub to: Seq<char>,
    pub condition: ConditionModel,
}

impl View for Branch {
    type V = BranchModel;

    open spec fn view(&self) -> BranchModel {
        BranchModel { edge: self.edge@, to: self.to@, condition: self.condition@ }
    }
}

impl Clone for Branch {
    fn clone(&self) -> (res: Self)
        ensures
            res == *self,
    {
        Branch {
            edge: self.edge.clone(),
            to: self.to.clone(),
            condition: self.condition.clone(),
        }
    }
}

/// What the caller should do next.
#[derive(Debug, PartialEq, Eq)]
pub enum Decision {
    /// Carry out this step, then report it with [`PlanRun::finish_step`].
    Run(NodePath),
    /// Put this question to the agent, then report the answer with
    /// [`PlanRun::answer`].
    Ask(Branch),
    /// The run is over.
    Done(RunOutcome),
}

/// What to do next.
#[verifier::ext_equal]
pub enum DecisionModel {
    Run(Seq<Seq<char>>),
    Ask(BranchModel),
    Done(OutcomeModel),
}

impl View for Decision {
    type V = DecisionModel;

    open spec fn view(&self) -> DecisionModel {
        match *self {
            Decision::Run(path) => DecisionModel::Run(path@),
            Decision::Ask(branch) => DecisionModel::Ask(branch@),
            Decision::Done(outcome) => DecisionModel::Done(outcome@),
        }
    }
}

impl Clone for Decision {
    fn clone(&self) -> (res: Self)
        ensures
            res@ == self@,
    {
        match self {
            Decision::Run(path) => Decision::Run(path.clone()),
            Decision::Ask(branch) => Decision::Ask(branch.clone()),
            Decision::Done(outcome) => Decision::Done(outcome.clone()),
        }
    }
}

#[derive(Debug)]
enum Phase {
    Working,
    Deciding { remaining: Vec<Branch>, fallback: Option<NodeId> },
}

/// What a run is doing about the step it is on.
#[verifier::ext_equal]
pub enum PhaseModel {
    /// The step is being carried out.
    Working,
    /// The step is done, and the way out of it is being found: the conditional
    /// ways not asked about yet, and the way taken if none of them is.
    Deciding { remaining: Seq<BranchModel>, fallback: Option<Seq<char>> },
}

impl Phase {
    spec fn model(&self) -> PhaseModel {
        match *self {
            Phase::Working => PhaseModel::Working,
            Phase::Deciding { remaining, fallback } => PhaseModel::Deciding {
                remaining: remaining@.map_values(|b: Branch| b@),
                fallback: match fallback {
                    Some(id) => Some(id@),
                    None => None,
                },
            },
        }
    }
}

/// A position within one plan. A run holds a stack of these, one per level.
#[derive(Debug)]
struct Frame {
    /// The steps walked to reach this plan; empty for the top-level plan.
    parents: Vec<NodeId>,
    current: NodeId,
    phase: Phase,
    /// How many steps had been entered when the run came into this plan.
    since: usize,
}

/// A position within one plan: the steps walked to reach the plan, the step the
/// run is on, and how many steps had been entered when it came into the plan.
#[verifier::ext_equal]
pub struct FrameModel {
    pub parents: Seq<Seq<char>>,
    pub current: Seq<char>,
    pub phase: PhaseModel,
    pub since: nat,
}

impl FrameModel {
    /// The step the frame is on, as a full path.
    pub open spec fn path(self) -> Seq<Seq<char>> {
        self.parents.push(self.current)
    }
}

/// How often a path stands in a list from a place on.
pub open spec fn times_since(
    history: Seq<Seq<Seq<char>>>,
    since: nat,
    path: Seq<Seq<char>>,
) -> nat
    decreases history.len(),
{
    if history.len() <= since {
        0
    } else {
        times_since(history.drop_last(), since, path) + (if history.last() == path {
            1nat
        } else {
            0
        })
    }
}

/// How often a path stands in a list.
pub open spec fn times(history: Seq<Seq<Seq<char>>>, path: Seq<Seq<char>>) -> nat {
    times_since(history, 0, path)
}

proof fn lemma_times_push(history: Seq<Seq<Seq<char>>>, path: Seq<Seq<char>>)
    ensures
        forall|other: Seq<Seq<char>>| #[trigger]
            times(history.push(path), other) == times(history, other) + (if other == path {
                1nat
            } else {
                0
            }),
{
    assert(history.push(path).drop_last() =~= history);
}

impl Frame {
    spec fn model(&self) -> FrameModel {
        FrameModel {
            parents: graph::ids(self.parents@),
            current: self.current@,
            phase: self.phase.model(),
            since: self.since as nat,
        }
    }

    fn path(&self) -> (res: NodePath)
        ensures
            res@ == self.model().path(),
    {
        let mut walked = clone_ids(&self.parents);
        walked.push(self.current.clone());
        let res = NodePath(walked);
        proof {
            assert(res@ =~= self.model().path());
        }
        res
    }

    fn graph_path(&self) -> (res: NodePath)
        ensures
            res@ == self.model().parents,
    {
        NodePath(clone_ids(&self.parents))
    }
}

/// A position in a plan, and the history of how it got there.
#[derive(Debug)]
pub struct PlanRun {
    stack: Vec<Frame>,
    /// Every step entered, at any depth, in order and including repeats.
    history: Vec<NodePath>,
    outcome: Option<RunOutcome>,
}

/// A run: a position at each level of nesting, every step entered so far, and
/// how the run ended once it has.
#[verifier::ext_equal]
pub struct RunModel {
    pub stack: Seq<FrameModel>,
    pub history: Seq<Seq<Seq<char>>>,
    pub outcome: Option<OutcomeModel>,
}

impl GraphModel {
    /// Of the first `k` roots, the one whose step comes first.
    pub open spec fn earliest_root(self, k: int) -> Seq<char>
        decreases k,
    {
        if k <= 1 {
            self.roots()[0]
        } else {
            let best = self.earliest_root(k - 1);
            let next = self.roots()[k - 1];
            if self.node_index(next)->0 < self.node_index(best)->0 {
                next
            } else {
                best
            }
        }
    }

    /// Where a run of this plan begins.
    pub open spec fn entry(self) -> Option<Seq<char>> {
        if self.roots().len() == 0 {
            None
        } else {
            Some(self.earliest_root(self.roots().len() as int))
        }
    }

    /// The ways out of a step that lead to a step that is there.
    pub open spec fn open_edges(self, id: Seq<char>) -> Seq<EdgeModel> {
        self.edges_from(id).filter(|e: EdgeModel| self.has_node(e.to))
    }

    /// The conditional ways out of a step, in order.
    pub open spec fn conditional_ways(self, id: Seq<char>) -> Seq<BranchModel> {
        self.open_edges(id).filter(|e: EdgeModel| e.condition != ConditionModel::Always).map_values(
            |e: EdgeModel| BranchModel { edge: e.id, to: e.to, condition: e.condition },
        )
    }

    /// Where the first plain connection out of a step leads.
    pub open spec fn plain_way(self, id: Seq<char>) -> Option<Seq<char>> {
        let plain = self.open_edges(id).filter(
            |e: EdgeModel| e.condition == ConditionModel::Always,
        );
        if plain.len() == 0 {
            None
        } else {
            Some(plain[0].to)
        }
    }
}

impl RunModel {
    /// A run that has not entered any step.
    pub open spec fn blank() -> RunModel {
        RunModel { stack: Seq::empty(), history: Seq::empty(), outcome: None }
    }

    /// The innermost position.
    pub open spec fn top(self) -> FrameModel {
        self.stack.last()
    }

    /// The run with another innermost position.
    pub open spec fn with_top(self, frame: FrameModel) -> RunModel {
        RunModel { stack: self.stack.update(self.stack.len() - 1, frame), ..self }
    }

    /// The run at its end.
    pub open spec fn ended(self, outcome: OutcomeModel) -> RunModel {
        RunModel { outcome: Some(outcome), ..self }
    }

    /// The run one level further down, on the first step of a plan.
    pub open spec fn with_frame(self, parents: Seq<Seq<char>>, current: Seq<char>) -> RunModel {
        let frame = FrameModel {
            parents,
            current,
            phase: PhaseModel::Working,
            since: self.history.len(),
        };
        RunModel {
            stack: self.stack.push(frame),
            history: self.history.push(frame.path()),
            ..self
        }
    }

    /// The run after going down into the step it is on, as long as that step
    /// contains a plan.
    pub open spec fn descended(self, plan: GraphModel) -> RunModel
        decreases MAX_PLAN_DEPTH - self.stack.len(),
    {
        if self.stack.len() == 0 {
            self
        } else {
            match plan.node_at(self.top().path()) {
                Some(node) => match node.nested() {
                    Some(inner) => if self.stack.len() >= MAX_PLAN_DEPTH {
                        self.ended(OutcomeModel::DepthLimit { node: node.id })
                    } else if self.history.len() >= MAX_RUN_STEPS {
                        self.ended(OutcomeModel::StepLimit { steps: self.history.len() })
                    } else {
                        match inner.entry() {
                            Some(entry) => {
                                let count = times(self.history, self.top().path().push(entry)) + 1;
                                if count > MAX_NODE_VISITS {
                                    self.ended(
                                        OutcomeModel::NodeLimit { node: entry, visits: count },
                                    )
                                } else {
                                    self.with_frame(self.top().path(), entry).descended(plan)
                                }
                            },
                            None => self,
                        }
                    },
                    None => self,
                },
                None => self,
            }
        }
    }

    /// The run after moving onto a step of the current plan.
    pub open spec fn entered(self, id: Seq<char>, plan: GraphModel) -> RunModel {
        if self.history.len() >= MAX_RUN_STEPS {
            self.ended(OutcomeModel::StepLimit { steps: self.history.len() })
        } else if self.stack.len() == 0 {
            self.ended(OutcomeModel::Completed)
        } else {
            let frame = self.top();
            let count = times(self.history, frame.parents.push(id)) + 1;
            if count > MAX_NODE_VISITS {
                self.ended(OutcomeModel::NodeLimit { node: id, visits: count })
            } else {
                let next = FrameModel { current: id, phase: PhaseModel::Working, ..frame };
                RunModel {
                    history: self.history.push(next.path()),
                    ..self.with_top(next)
                }.descended(plan)
            }
        }
    }

    /// How often a step has been entered, by its full path.
    pub open spec fn visits(self, path: Seq<Seq<char>>) -> nat {
        times(self.history, path)
    }

    /// The attempt that a step of the current plan is on, counted since the run came
    /// into the plan.
    pub open spec fn attempt(self, id: Seq<char>) -> nat {
        let count = times_since(self.history, self.top().since, self.top().parents.push(id));
        if self.stack.len() > 0 && count > 0 {
            count
        } else {
            1
        }
    }

    /// The first root of the current plan, in order, that has not been entered
    /// since the run came into the plan.
    pub open spec fn next_root(self, plan: GraphModel) -> Option<Seq<char>> {
        match plan.graph_at(self.top().parents) {
            Some(local) => first_unvisited(
                local.roots(),
                self.top().parents,
                self.history.skip(self.top().since as int),
            ),
            None => None,
        }
    }

    /// The run after the current plan has run out of connections to follow: the
    /// next root of the plan is entered; where there is none left, the step that
    /// contained the plan is finished.
    pub open spec fn left(self, plan: GraphModel) -> RunModel
        decreases self.stack.len(), 0int,
    {
        if self.stack.len() == 0 {
            self.ended(OutcomeModel::Completed)
        } else {
            match self.next_root(plan) {
                Some(root) => self.entered(root, plan),
                None => {
                    let outer = RunModel { stack: self.stack.drop_last(), ..self };
                    if outer.stack.len() == 0 {
                        outer.ended(OutcomeModel::Completed)
                    } else {
                        outer.step_finished(plan)
                    }
                },
            }
        }
    }

    /// The run after the way out of the current step is looked for: it stays
    /// where there is a question to ask.
    pub open spec fn moved_on(self, plan: GraphModel) -> RunModel
        decreases self.stack.len(), 1int,
    {
        if self.stack.len() == 0 {
            self.ended(OutcomeModel::Completed)
        } else {
            match self.top().phase {
                PhaseModel::Working => self,
                PhaseModel::Deciding { remaining, fallback } => if remaining.len() > 0 {
                    self
                } else {
                    match fallback {
                        Some(to) => self.entered(to, plan),
                        None => self.left(plan),
                    }
                },
            }
        }
    }

    /// The run after the current step has been carried out.
    pub open spec fn step_finished(self, plan: GraphModel) -> RunModel
        decreases self.stack.len(), 2int,
    {
        if self.stack.len() == 0 {
            self.ended(OutcomeModel::Completed)
        } else {
            match plan.graph_at(self.top().parents) {
                Some(local) => self.with_top(
                    FrameModel {
                        phase: PhaseModel::Deciding {
                            remaining: local.conditional_ways(self.top().current),
                            fallback: local.plain_way(self.top().current),
                        },
                        ..self.top()
                    },
                ).moved_on(plan),
                None => self.ended(OutcomeModel::Completed),
            }
        }
    }

    /// The run after the question it asked has been answered.
    pub open spec fn answered(self, plan: GraphModel, taken: bool) -> RunModel {
        if self.stack.len() == 0 {
            self.ended(OutcomeModel::Completed)
        } else {
            match self.top().phase {
                PhaseModel::Working => self,
                PhaseModel::Deciding { remaining, fallback } => if remaining.len() == 0 {
                    self.moved_on(plan)
                } else {
                    let next = self.with_top(
                        FrameModel {
                            phase: PhaseModel::Deciding { remaining: remaining.skip(1), fallback },
                            ..self.top()
                        },
                    );
                    if taken {
                        next.entered(remaining[0].to, plan)
                    } else {
                        next.moved_on(plan)
                    }
                },
            }
        }
    }

    /// What the caller should do in this state.
    pub open spec fn decision(self) -> DecisionModel {
        match self.outcome {
            Some(outcome) => DecisionModel::Done(outcome),
            None => match self.top().phase {
                PhaseModel::Working => DecisionModel::Run(self.top().path()),
                PhaseModel::Deciding { remaining, fallback } => DecisionModel::Ask(remaining[0]),
            },
        }
    }

    /// The plan that the run's questions and its ending speak of: the one it is in,
    /// or, where it ended on the way into a step, the one inside that step.
    pub open spec fn scope(self) -> Seq<Seq<char>> {
        if self.stack.len() == 0 {
            Seq::empty()
        } else if self.outcome is Some && self.outcome->0 is NodeLimit && self.top().phase
            == PhaseModel::Working {
            self.top().path()
        } else {
            self.top().parents
        }
    }

    /// The run of a plan that is ready, at its beginning.
    pub open spec fn begun(plan: GraphModel) -> RunModel {
        RunModel::blank().with_frame(Seq::empty(), plan.entry()->0).descended(plan)
    }

    /// What holds of a run at every moment: it has not gone too far or too deep,
    /// and until it ends it is on a step or has a question to ask.
    pub open spec fn valid(self) -> bool {
        &&& self.history.len() <= MAX_RUN_STEPS
        &&& self.sound()
        &&& self.outcome is None ==> self.stack.len() > 0 && match self.top().phase {
            PhaseModel::Working => true,
            PhaseModel::Deciding { remaining, fallback } => remaining.len() > 0,
        }
    }

    /// What holds of a run between two reports too: no step was entered too often,
    /// at whatever depth, and each level lies inside the step of the one above.
    pub open spec fn sound(self) -> bool {
        &&& self.history.len() <= MAX_RUN_STEPS
        &&& self.stack.len() <= MAX_PLAN_DEPTH
        &&& forall|path: Seq<Seq<char>>| #[trigger] times(self.history, path) <= MAX_NODE_VISITS
        &&& forall|i: int|
            0 <= i < self.stack.len() ==> (#[trigger] self.stack[i]).since <= self.history.len()
        &&& self.stack.len() > 0 ==> self.stack[0].parents.len() == 0
        &&& forall|i: int|
            0 < i < self.stack.len() ==> (#[trigger] self.stack[i]).parents == self.stack[i
                - 1].path()
    }
}

/// The first of some ids whose step, inside the given ones, is not among those
/// entered.
pub open spec fn first_unvisited(
    roots: Seq<Seq<char>>,
    parents: Seq<Seq<char>>,
    entered: Seq<Seq<Seq<char>>>,
) -> Option<Seq<char>>
    decreases roots.len(),
{
    if roots.len() == 0 {
        None
    } else if entered.contains(parents.push(roots[0])) {
        first_unvisited(roots.skip(1), parents, entered)
    } else {
        Some(roots[0])
    }
}

impl RunModel {
    pub proof fn lemma_with_frame(self, parents: Seq<Seq<char>>, current: Seq<char>)
        requires
            self.sound(),
            self.stack.len() < MAX_PLAN_DEPTH,
            self.history.len() < MAX_RUN_STEPS,
            self.stack.len() == 0 ==> parents.len() == 0,
            self.stack.len() > 0 ==> parents == self.top().path(),
            times(self.history, parents.push(current)) < MAX_NODE_VISITS,
        ensures
            self.with_frame(parents, current).sound(),
    {
        let next = self.with_frame(parents, current);
        lemma_times_push(self.history, parents.push(current));
        assert forall|i: int| 0 <= i < next.stack.len() implies (#[trigger] next.stack[i]).since
            <= next.history.len() by {
            if i < self.stack.len() {
                assert(self.stack[i].since <= self.history.len());
            }
        }
        assert forall|i: int| 0 < i < next.stack.len() implies (#[trigger] next.stack[i]).parents
            == next.stack[i - 1].path() by {
            if i < self.stack.len() {
                assert(self.stack[i].parents == self.stack[i - 1].path());
            }
        }
    }

    pub proof fn lemma_descended(self, plan: GraphModel)
        requires
            self.sound(),
            self.stack.len() > 0,
            self.top().phase == PhaseModel::Working,
        ensures
            self.descended(plan).valid(),
            self.history.is_prefix_of(self.descended(plan).history),
            self.descended(plan).stack.len() >= self.stack.len(),
            self.outcome is Some ==> self.descended(plan).outcome is Some,
        decreases MAX_PLAN_DEPTH - self.stack.len(),
    {
        let next = self.descended(plan);
        if let Some(node) = plan.node_at(self.top().path()) {
            if let Some(inner) = node.nested() {
                if self.stack.len() < MAX_PLAN_DEPTH && self.history.len() < MAX_RUN_STEPS {
                    if let Some(entry) = inner.entry() {
                        if times(self.history, self.top().path().push(entry)) < MAX_NODE_VISITS {
                            self.lemma_with_frame(self.top().path(), entry);
                            let deeper = self.with_frame(self.top().path(), entry);
                            deeper.lemma_descended(plan);
                            assert(self.history.is_prefix_of(deeper.history));
                        }
                    }
                }
            }
        }
    }

    pub proof fn lemma_with_top(self, frame: FrameModel)
        requires
            self.sound(),
            self.stack.len() > 0,
            frame.parents == self.top().parents,
            frame.since == self.top().since,
        ensures
            self.with_top(frame).sound(),
    {
        let next = self.with_top(frame);
        assert forall|i: int| 0 <= i < next.stack.len() implies (#[trigger] next.stack[i]).since
            <= next.history.len() by {
            assert(self.stack[i].since <= self.history.len());
        }
        assert forall|i: int| 0 < i < next.stack.len() implies (#[trigger] next.stack[i]).parents
            == next.stack[i - 1].path() by {
            assert(self.stack[i].parents == self.stack[i - 1].path());
        }
    }

    proof fn lemma_entered(self, id: Seq<char>, plan: GraphModel)
        requires
            self.sound(),
            self.outcome is None,
        ensures
            self.entered(id, plan).valid(),
            self.history.is_prefix_of(self.entered(id, plan).history),
            self.entered(id, plan).outcome is None ==> self.entered(id, plan).history.len()
                > self.history.len(),
    {
        if self.history.len() < MAX_RUN_STEPS && self.stack.len() > 0 {
            let frame = self.top();
            if times(self.history, frame.parents.push(id)) < MAX_NODE_VISITS {
                let next = FrameModel { current: id, phase: PhaseModel::Working, ..frame };
                self.lemma_entered_sound(id);
                let moved = RunModel {
                    history: self.history.push(next.path()),
                    ..self.with_top(next)
                };
                moved.lemma_descended(plan);
                assert(self.history.is_prefix_of(moved.history));
            }
        }
    }

    /// A run that has moved onto a step it may enter is sound.
    pub proof fn lemma_entered_sound(self, id: Seq<char>)
        requires
            self.sound(),
            self.stack.len() > 0,
            self.history.len() < MAX_RUN_STEPS,
            times(self.history, self.top().parents.push(id)) < MAX_NODE_VISITS,
        ensures
            ({
                let next = FrameModel { current: id, phase: PhaseModel::Working, ..self.top() };
                RunModel { history: self.history.push(next.path()), ..self.with_top(next) }.sound()
            }),
    {
        let next = FrameModel { current: id, phase: PhaseModel::Working, ..self.top() };
        self.lemma_with_top(next);
        lemma_times_push(self.history, next.path());
        let moved = RunModel { history: self.history.push(next.path()), ..self.with_top(next) };
        assert forall|i: int| 0 <= i < moved.stack.len() implies (#[trigger] moved.stack[i]).since
            <= moved.history.len() by {
            assert(self.with_top(next).stack[i].since <= self.history.len());
        }
        assert forall|i: int| 0 < i < moved.stack.len() implies (#[trigger] moved.stack[i]).parents
            == moved.stack[i - 1].path() by {
            assert(self.with_top(next).stack[i].parents == self.with_top(next).stack[i
                - 1].path());
        }
    }

    /// How much is left of a run: reports only ever make this smaller.
    pub open spec fn rest(self) -> (int, int, int) {
        if self.outcome is Some {
            (0, 0, 0)
        } else {
            match self.top().phase {
                PhaseModel::Working => (
                    MAX_RUN_STEPS + 1 - self.history.len(),
                    2 * self.stack.len() as int + 1,
                    0,
                ),
                PhaseModel::Deciding { remaining, fallback } => (
                    MAX_RUN_STEPS + 1 - self.history.len(),
                    2 * self.stack.len() as int,
                    remaining.len() as int,
                ),
            }
        }
    }

    proof fn lemma_moved_on(self, plan: GraphModel, tag: int)
        requires
            self.sound(),
            self.outcome is None,
            0 <= tag <= 2,
        ensures
            tag == 0 ==> self.left(plan).valid() && self.history.is_prefix_of(
                self.left(plan).history,
            ) && (self.left(plan).outcome is None ==> self.left(plan).history.len()
                > self.history.len() || (self.left(plan).stack.len() < self.stack.len()
                && self.left(plan).top().phase is Deciding)),
            tag == 1 ==> self.moved_on(plan).valid() && self.history.is_prefix_of(
                self.moved_on(plan).history,
            ) && (self.moved_on(plan).outcome is None ==> self.moved_on(plan).history.len()
                > self.history.len() || (self.moved_on(plan).stack.len() < self.stack.len()
                && self.moved_on(plan).top().phase is Deciding) || self.moved_on(plan) == self),
            tag == 2 ==> self.step_finished(plan).valid() && self.history.is_prefix_of(
                self.step_finished(plan).history,
            ) && (self.step_finished(plan).outcome is None ==> self.step_finished(
                plan,
            ).history.len() > self.history.len() || (self.step_finished(plan).stack.len()
                <= self.stack.len() && self.step_finished(plan).top().phase is Deciding)),
        decreases self.stack.len(), tag,
    {
        if self.stack.len() > 0 {
            if tag == 0 {
                match self.next_root(plan) {
                    Some(root) => {
                        self.lemma_entered(root, plan);
                    },
                    None => {
                        let outer = RunModel { stack: self.stack.drop_last(), ..self };
                        assert(outer.sound()) by {
                            assert forall|i: int| 0 <= i < outer.stack.len() implies (
                            #[trigger] outer.stack[i]).since <= outer.history.len() by {
                                assert(self.stack[i].since <= self.history.len());
                            }
                            assert forall|i: int| 0 < i < outer.stack.len() implies (
                            #[trigger] outer.stack[i]).parents == outer.stack[i - 1].path() by {
                                assert(self.stack[i].parents == self.stack[i - 1].path());
                            }
                        }
                        if outer.stack.len() > 0 {
                            outer.lemma_moved_on(plan, 2);
                        }
                    },
                }
            } else if tag == 1 {
                if let PhaseModel::Deciding { remaining, fallback } = self.top().phase {
                    if remaining.len() == 0 {
                        match fallback {
                            Some(to) => {
                                self.lemma_entered(to, plan);
                            },
                            None => {
                                self.lemma_moved_on(plan, 0);
                            },
                        }
                    }
                }
            } else {
                if let Some(local) = plan.graph_at(self.top().parents) {
                    let frame = FrameModel {
                        phase: PhaseModel::Deciding {
                            remaining: local.conditional_ways(self.top().current),
                            fallback: local.plain_way(self.top().current),
                        },
                        ..self.top()
                    };
                    self.lemma_with_top(frame);
                    self.with_top(frame).lemma_moved_on(plan, 1);
                }
            }
        }
    }
}

/// Whether one amount of rest is smaller than another.
pub open spec fn less_rest(a: (int, int, int), b: (int, int, int)) -> bool {
    a.0 < b.0 || (a.0 == b.0 && (a.1 < b.1 || (a.1 == b.1 && a.2 < b.2)))
}

/// A run never takes more than the allowed number of steps, never enters a step
/// too often and never nests too deep, whatever the agent reports.
pub proof fn law_run_stays_within_limits(run: RunModel, plan: GraphModel, taken: bool)
    requires
        run.valid(),
        run.outcome is None,
    ensures
        run.step_finished(plan).valid(),
        run.answered(plan, taken).valid(),
        run.step_finished(plan).history.len() <= MAX_RUN_STEPS,
        run.answered(plan, taken).history.len() <= MAX_RUN_STEPS,
        run.step_finished(plan).stack.len() <= MAX_PLAN_DEPTH,
        run.answered(plan, taken).stack.len() <= MAX_PLAN_DEPTH,
        forall|path: Seq<Seq<char>>| #[trigger]
            run.step_finished(plan).visits(path) <= MAX_NODE_VISITS,
        forall|path: Seq<Seq<char>>| #[trigger]
            run.answered(plan, taken).visits(path) <= MAX_NODE_VISITS,
{
    run.lemma_moved_on(plan, 2);
    lemma_answered(run, plan, taken);
}

/// Something a caller tells a run.
pub enum CallModel {
    /// The step has been carried out.
    Finish,
    /// The question has been answered, with yes or no.
    Answer(bool),
    /// The run is to be stopped.
    Cancel,
}

impl RunModel {
    /// The run after one call, with the plan as it was then.
    pub open spec fn called(self, call: CallModel, plan: GraphModel) -> RunModel {
        if self.outcome is Some {
            self
        } else {
            match call {
                CallModel::Finish => self.step_finished(plan),
                CallModel::Answer(taken) => self.answered(plan, taken),
                CallModel::Cancel => self.ended(OutcomeModel::Cancelled),
            }
        }
    }

    /// The run after some calls, one after the other.
    pub open spec fn after(self, calls: Seq<(CallModel, GraphModel)>) -> RunModel
        decreases calls.len(),
    {
        if calls.len() == 0 {
            self
        } else {
            self.after(calls.drop_last()).called(calls.last().0, calls.last().1)
        }
    }
}

/// Whatever a caller does from the start of a run on, and however the plan is edited
/// meanwhile: at most so many steps are entered, counted at every level, none of them
/// too often, and the run is never too deep.
pub proof fn law_every_run_is_bounded(plan: GraphModel, calls: Seq<(CallModel, GraphModel)>)
    ensures
        ({
            let run = RunModel::begun(plan).after(calls);
            &&& run.valid()
            &&& run.history.len() <= MAX_RUN_STEPS
            &&& run.stack.len() <= MAX_PLAN_DEPTH
            &&& forall|path: Seq<Seq<char>>| #[trigger] run.visits(path) <= MAX_NODE_VISITS
        }),
    decreases calls.len(),
{
    if calls.len() == 0 {
        lemma_begun(plan);
    } else {
        law_every_run_is_bounded(plan, calls.drop_last());
        let before = RunModel::begun(plan).after(calls.drop_last());
        if before.outcome is None {
            match calls.last().0 {
                CallModel::Finish => before.lemma_moved_on(calls.last().1, 2),
                CallModel::Answer(taken) => lemma_answered(before, calls.last().1, taken),
                CallModel::Cancel => {},
            }
        }
    }
}

/// A run that has entered as many steps as it may ends instead of entering another,
/// and its history stays as it is.
pub proof fn law_full_run_ends(run: RunModel, id: Seq<char>, plan: GraphModel, taken: bool)
    requires
        run.valid(),
        run.outcome is None,
        run.history.len() == MAX_RUN_STEPS,
    ensures
        run.entered(id, plan) == run.ended(
            OutcomeModel::StepLimit { steps: MAX_RUN_STEPS as nat },
        ),
        run.entered(id, plan).history == run.history,
        run.step_finished(plan).history == run.history,
        run.answered(plan, taken).history == run.history,
{
    run.lemma_moved_on(plan, 2);
    lemma_answered(run, plan, taken);
    assert(run.step_finished(plan).history =~= run.history);
    assert(run.answered(plan, taken).history =~= run.history);
}

/// A step that has been entered as often as it may is not entered again: the run ends
/// there, and its history stays as it is.
pub proof fn law_step_is_not_entered_too_often(run: RunModel, id: Seq<char>, plan: GraphModel)
    requires
        run.valid(),
        run.outcome is None,
        run.history.len() < MAX_RUN_STEPS,
        run.visits(run.top().parents.push(id)) == MAX_NODE_VISITS,
    ensures
        run.entered(id, plan) == run.ended(
            OutcomeModel::NodeLimit { node: id, visits: (MAX_NODE_VISITS + 1) as nat },
        ),
        run.entered(id, plan).history == run.history,
{
}

/// A run remembers every step it entered, in order: reports only ever add steps.
pub proof fn law_history_only_grows(run: RunModel, plan: GraphModel, taken: bool)
    requires
        run.valid(),
        run.outcome is None,
    ensures
        run.history.is_prefix_of(run.step_finished(plan).history),
        run.history.is_prefix_of(run.answered(plan, taken).history),
{
    run.lemma_moved_on(plan, 2);
    lemma_answered(run, plan, taken);
}

/// Every run comes to an end: reporting the step that was to be carried out, or
/// the answer to the question that was asked, leaves less of the run.
pub proof fn law_reports_use_a_run_up(run: RunModel, plan: GraphModel, taken: bool)
    requires
        run.valid(),
        run.outcome is None,
    ensures
        run.decision() is Run ==> less_rest(run.step_finished(plan).rest(), run.rest()),
        run.decision() is Ask ==> less_rest(run.answered(plan, taken).rest(), run.rest()),
{
    run.lemma_moved_on(plan, 2);
    lemma_answered(run, plan, taken);
}

/// When the top-level plan is complete, every root of it has been entered: no
/// part of a plan with several beginnings is left out.
pub proof fn law_completed_plan_entered_every_root(run: RunModel, plan: GraphModel, i: int)
    requires
        run.stack.len() == 1,
        run.top().parents.len() == 0,
        run.top().since <= run.history.len(),
        run.next_root(plan) is None,
        0 <= i < plan.roots().len(),
    ensures
        run.left(plan).outcome == Some(OutcomeModel::Completed),
        run.history.contains(seq![plan.roots()[i]]),
{
    let entered = run.history.skip(run.top().since as int);
    lemma_first_unvisited(plan.roots(), run.top().parents, entered, i);
    let path = run.top().parents.push(plan.roots()[i]);
    assert(path =~= seq![plan.roots()[i]]);
    let j = choose|j: int| 0 <= j < entered.len() && entered[j] == path;
    assert(run.history[run.top().since + j] == path);
}

proof fn lemma_first_unvisited(
    roots: Seq<Seq<char>>,
    parents: Seq<Seq<char>>,
    entered: Seq<Seq<Seq<char>>>,
    i: int,
)
    requires
        first_unvisited(roots, parents, entered) is None,
        0 <= i < roots.len(),
    ensures
        entered.contains(parents.push(roots[i])),
    decreases roots.len(),
{
    if i > 0 {
        lemma_first_unvisited(roots.skip(1), parents, entered, i - 1);
        assert(roots.skip(1)[i - 1] == roots[i]);
    }
}

proof fn lemma_answered(run: RunModel, plan: GraphModel, taken: bool)
    requires
        run.valid(),
        run.outcome is None,
    ensures
        run.answered(plan, taken).valid(),
        run.history.is_prefix_of(run.answered(plan, taken).history),
        run.decision() is Ask ==> less_rest(run.answered(plan, taken).rest(), run.rest()),
{
    if let PhaseModel::Deciding { remaining, fallback } = run.top().phase {
        let frame = FrameModel {
            phase: PhaseModel::Deciding { remaining: remaining.skip(1), fallback },
            ..run.top()
        };
        run.lemma_with_top(frame);
        let next = run.with_top(frame);
        if taken {
            next.lemma_entered(remaining[0].to, plan);
        } else {
            next.lemma_moved_on(plan, 1);
        }
    }
}

/// A run that starts is within its limits.
pub proof fn lemma_begun(plan: GraphModel)
    ensures
        RunModel::begun(plan).valid(),
{
    RunModel::blank().lemma_with_frame(Seq::empty(), plan.entry()->0);
    RunModel::blank().with_frame(Seq::empty(), plan.entry()->0).lemma_descended(plan);
}

/// Where a plan begins. Several entry points are possible and nothing in the
/// graph ranks them, so node order decides: it is the order the steps were
/// drafted in, and it makes the choice reproducible.
fn entry_of(graph: &ArchitectGraph) -> (res: Option<NodeId>)
    ensures
        match res {
            Some(id) => graph@.entry() == Some(id@),
            None => graph@.entry() is None,
        },
        graph@.nodes.len() > 0 ==> res is Some,
{
    let roots = graph.roots();
    proof {
        assert(graph::ids(roots@).len() == roots@.len());
    }
    if roots.len() == 0 {
        return None;
    }
    let mut best: usize = 0;
    for k in 1..roots.len()
        invariant
            graph::ids(roots@) == graph@.roots(),
            best < roots@.len(),
            graph@.earliest_root(k as int) == roots@[best as int]@,
    {
        proof {
            assert(graph@.roots()[k as int] == roots@[k as int]@);
            graph@.lemma_root_is_there(k as int);
            graph@.lemma_node(roots@[k as int]@);
            graph@.lemma_root_is_there(best as int);
            assert(graph@.roots()[best as int] == roots@[best as int]@);
            graph@.lemma_node(roots@[best as int]@);
        }
        if let (Some(a), Some(b)) = (graph.node_index(&roots[k]), graph.node_index(&roots[best])) {
            if a < b {
                best = k;
            }
        }
    }
    proof {
        assert(graph@.roots()[best as int] == roots@[best as int]@);
    }
    Some(roots[best].clone())
}

impl GraphModel {
    /// Roots are ids of steps.
    pub proof fn lemma_root_is_there(self, i: int)
        requires
            0 <= i < self.roots().len(),
        ensures
            self.has_node(self.roots()[i]),
    {
        if self.unentered().len() > 0 {
            let p = |n: crate::model::NodeModel| self.edges_into(n.id).len() == 0;
            let kept = self.nodes.filter(p);
            assert(self.roots()[i] == kept[i].id);
            let j = model::lemma_filter_source(self.nodes, p, i);
            assert(self.nodes[j].id == self.roots()[i]);
        } else {
            self.lemma_loop_entries(self.nodes.len() as int, i);
        }
    }

    proof fn lemma_loop_entries(self, m: int, i: int)
        requires
            0 <= m <= self.nodes.len(),
            0 <= i < self.loop_entries(m).len(),
        ensures
            self.has_node(self.loop_entries(m)[i]),
        decreases m,
    {
        if m > 0 {
            let rest = self.loop_entries(m - 1);
            if i < rest.len() {
                self.lemma_loop_entries(m - 1, i);
                assert(self.loop_entries(m)[i] == rest[i]);
            } else {
                assert(self.nodes[m - 1].id == self.loop_entries(m)[i]);
            }
        }
    }
}

impl View for PlanRun {
    type V = RunModel;

    closed spec fn view(&self) -> RunModel {
        RunModel {
            stack: self.stack@.map_values(|f: Frame| f.model()),
            history: self.history@.map_values(|p: NodePath| p@),
            outcome: match self.outcome {
                Some(o) => Some(o@),
                None => None,
            },
        }
    }
}

/// The ways out of a step: those to ask about, and the one to take otherwise.
fn ways_out(local: &ArchitectGraph, current: &NodeId) -> (res: (Vec<Branch>, Option<NodeId>))
    ensures
        res.0@.map_values(|b: Branch| b@) == local@.conditional_ways(current@),
        match res.1 {
            Some(id) => local@.plain_way(current@) == Some(id@),
            None => local@.plain_way(current@) is None,
        },
{
    let edges = local.edges_from(current);
    let ghost all = local@.edges_from(current@);
    let ghost there = |e: EdgeModel| local@.has_node(e.to);
    let ghost asked = |e: EdgeModel| e.condition != ConditionModel::Always;
    let ghost plain = |e: EdgeModel| e.condition == ConditionModel::Always;
    let ghost as_branch = |e: EdgeModel| BranchModel { edge: e.id, to: e.to, condition: e.condition };
    let mut remaining: Vec<Branch> = Vec::new();
    let mut fallback: Option<NodeId> = None;
    proof {
        reveal(Seq::filter);
        assert(all.len() == edges@.len()) by {
            assert(edges@.map_values(|e: &crate::graph::ArchitectEdge| e@).len() == edges@.len());
        }
        assert(all.take(0).filter(there).filter(asked).map_values(as_branch) =~= Seq::empty());
        assert(remaining@.map_values(|b: Branch| b@) =~= Seq::empty());
        assert(all.take(0).filter(there) =~= Seq::empty());
    }
    for k in 0..edges.len()
        invariant
            all == local@.edges_from(current@),
            all.len() == edges@.len(),
            edges@.map_values(|e: &crate::graph::ArchitectEdge| e@) == all,
            there == (|e: EdgeModel| local@.has_node(e.to)),
            asked == (|e: EdgeModel| e.condition != ConditionModel::Always),
            plain == (|e: EdgeModel| e.condition == ConditionModel::Always),
            as_branch == (|e: EdgeModel| BranchModel {
                edge: e.id,
                to: e.to,
                condition: e.condition,
            }),
            remaining@.map_values(|b: Branch| b@) == all.take(k as int).filter(there).filter(
                asked,
            ).map_values(as_branch),
            match fallback {
                Some(id) => all.take(k as int).filter(there).filter(plain).len() > 0 && all.take(
                    k as int,
                ).filter(there).filter(plain)[0].to == id@,
                None => all.take(k as int).filter(there).filter(plain).len() == 0,
            },
    {
        let edge = edges[k];
        let ghost kept = all.take(k as int).filter(there);
        proof {
            assert(edges@.map_values(|e: &crate::graph::ArchitectEdge| e@)[k as int] == edge@);
            model::lemma_filter_take(all, there, k as int);
            local@.lemma_node(edge.to@);
            model::lemma_filter_push(kept, asked, edge@);
            model::lemma_filter_push(kept, plain, edge@);
        }
        if local.node(&edge.to).is_some() {
            if edge.condition.is_always() {
                if fallback.is_none() {
                    fallback = Some(edge.to.clone());
                }
            } else {
                let ghost before = remaining@;
                let ghost mapped = kept.filter(asked);
                remaining.push(
                    Branch {
                        edge: edge.id.clone(),
                        to: edge.to.clone(),
                        condition: edge.condition.clone(),
                    },
                );
                proof {
                    assert(remaining@.map_values(|b: Branch| b@) =~= before.map_values(
                        |b: Branch| b@,
                    ).push(as_branch(edge@)));
                    assert(mapped.push(edge@).map_values(as_branch) =~= mapped.map_values(
                        as_branch,
                    ).push(as_branch(edge@)));
                }
            }
        }
    }
    proof {
        assert(all.take(all.len() as int) =~= all);
    }
    (remaining, fallback)
}

impl PlanRun {
    /// Starts a run at the plan's entry point, or explains why it cannot.
    pub fn start(graph: &ArchitectGraph) -> (res: Result<Self, RunRefusal>)
        ensures
            match res {
                Ok(run) => graph@.nodes.len() > 0 && graph@.blocking().len() == 0 && run@
                    == RunModel::begun(graph@) && run@.valid(),
                Err(RunRefusal::NothingToRun) => graph@.nodes.len() == 0,
                Err(RunRefusal::NotReady(problems)) => graph@.nodes.len() > 0 && problems::problem_models(
                    problems@,
                ) == graph@.blocking() && graph@.blocking().len() > 0,
            },
    {
        if graph.is_empty() {
            return Err(RunRefusal::NothingToRun);
        }
        let problems = graph.blocking_problems();
        proof {
            assert(problems::problem_models(problems@).len() == problems@.len());
        }
        if problems.len() > 0 {
            return Err(RunRefusal::NotReady(problems));
        }
        match entry_of(graph) {
            Some(entry) => {
                let mut run = PlanRun { stack: Vec::new(), history: Vec::new(), outcome: None };
                proof {
                    assert(run@ =~= RunModel::blank());
                    lemma_begun(graph@);
                }
                let parents: Vec<NodeId> = Vec::new();
                proof {
                    assert(graph::ids(parents@) =~= Seq::empty());
                }
                run.push_frame(parents, entry);
                // The entry step may itself be a plan, so descend before handing back.
                run.descend_while_nested(graph);
                Ok(run)
            },
            None => Err(RunRefusal::NothingToRun),
        }
    }

    fn push_frame(&mut self, parents: Vec<NodeId>, current: NodeId)
        ensures
            final(self)@ == old(self)@.with_frame(graph::ids(parents@), current@),
    {
        let since: usize = self.history.len();
        let frame = Frame { parents, current, phase: Phase::Working, since };
        let ghost before = *self;
        let ghost added = frame.model();
        self.history.push(frame.path());
        self.stack.push(frame);
        proof {
            let next = before@.with_frame(graph::ids(parents@), current@);
            assert(self@.stack =~= next.stack);
            assert(self@.history =~= next.history);
        }
    }

    /// The step the run is on, as a full path.
    pub fn current(&self) -> (res: NodePath)
        ensures
            res@ == (if self@.stack.len() > 0 {
                self@.top().path()
            } else {
                Seq::empty()
            }),
    {
        if self.stack.len() > 0 {
            self.stack[self.stack.len() - 1].path()
        } else {
            NodePath::default()
        }
    }

    /// The steps entered, at any depth, in order.
    pub fn history(&self) -> (res: &Vec<NodePath>)
        ensures
            res@.map_values(|p: NodePath| p@) == self@.history,
    {
        &self.history
    }

    /// How many steps have been entered.
    pub fn steps_taken(&self) -> (res: usize)
        ensures
            res == self@.history.len(),
    {
        self.history.len()
    }

    fn visits_since(&self, since: usize, path: &NodePath) -> (res: usize)
        ensures
            res == times_since(self@.history, since as nat, path@),
            res <= self@.history.len(),
    {
        let ghost all = self@.history;
        let mut count: usize = 0;
        for k in 0..self.history.len()
            invariant
                all == self.history@.map_values(|p: NodePath| p@),
                count == times_since(all.take(k as int), since as nat, path@),
                count <= k,
        {
            proof {
                assert(all.take(k + 1).drop_last() =~= all.take(k as int));
                assert(all.take(k + 1).last() == self.history@[k as int]@);
                assert(k < since ==> count == 0);
            }
            if k >= since && self.history[k].same(path) {
                count += 1;
            }
        }
        proof {
            assert(all.take(all.len() as int) =~= all);
        }
        count
    }

    /// How many times a step has been entered, wherever it is in the plan.
    pub fn visits(&self, path: &NodePath) -> (res: usize)
        ensures
            res == self@.visits(path@),
            res <= self@.history.len(),
    {
        self.visits_since(0, path)
    }

    /// How many times the current frame has entered a step. A step reached
    /// again by a loop is on attempt 2.
    pub fn attempt(&self, id: &NodeId) -> (res: usize)
        ensures
            res == self@.attempt(id@),
    {
        if self.stack.len() > 0 {
            let top = &self.stack[self.stack.len() - 1];
            proof {
                assert(self@.top() == top.model());
            }
            let count: usize = self.visits_since(
                top.since,
                &top.graph_path().child(id.clone()),
            );
            if count > 0 {
                return count;
            }
        }
        1
    }

    /// Every step currently in progress, outermost first. The breadcrumb during
    /// a run: "Build API › Write handlers › Validate".
    pub fn active_path(&self) -> (res: Vec<NodeId>)
        ensures
            graph::ids(res@) == (if self@.stack.len() > 0 {
                self@.top().path()
            } else {
                Seq::empty()
            }),
    {
        self.current().0
    }

    /// The plan that the run's questions and its ending speak of, as the path of the
    /// step that contains it.
    pub fn scope(&self) -> (res: NodePath)
        ensures
            res@ == self@.scope(),
    {
        if self.stack.len() == 0 {
            return NodePath::default();
        }
        let top = &self.stack[self.stack.len() - 1];
        proof {
            assert(self@.top() == top.model());
        }
        match (&self.outcome, &top.phase) {
            (Some(RunOutcome::NodeLimit { .. }), Phase::Working) => top.path(),
            _ => top.graph_path(),
        }
    }

    /// How many plans the run is inside of.
    pub fn depth(&self) -> (res: usize)
        ensures
            res == self@.stack.len(),
    {
        self.stack.len()
    }

    /// How the run ended, once it has.
    pub fn outcome(&self) -> (res: Option<&RunOutcome>)
        ensures
            match res {
                Some(o) => self@.outcome == Some(o@),
                None => self@.outcome is None,
            },
    {
        self.outcome.as_ref()
    }

    /// Whether the run has ended.
    pub fn is_finished(&self) -> (res: bool)
        ensures
            res == (self@.outcome is Some),
    {
        self.outcome.is_some()
    }

    /// Stops the run, unless it has ended already.
    pub fn cancel(&mut self)
        ensures
            final(self)@ == (if old(self)@.outcome is Some {
                old(self)@
            } else {
                old(self)@.ended(OutcomeModel::Cancelled)
            }),
            old(self)@.valid() ==> final(self)@.valid(),
    {
        if !self.is_finished() {
            self.outcome = Some(RunOutcome::Cancelled);
        }
    }

    /// What to do next, given where the run currently is.
    pub fn decide(&mut self, graph: &ArchitectGraph) -> (res: Decision)
        requires
            old(self)@.valid(),
        ensures
            final(self)@ == old(self)@,
            res@ == old(self)@.decision(),
    {
        self.shown()
    }

    fn shown(&self) -> (res: Decision)
        requires
            self@.valid(),
        ensures
            res@ == self@.decision(),
    {
        if let Some(outcome) = &self.outcome {
            return Decision::Done(outcome.clone());
        }
        let top: usize = self.stack.len() - 1;
        proof {
            assert(self@.top() == self.stack@[top as int].model());
        }
        match &self.stack[top].phase {
            Phase::Working => Decision::Run(self.stack[top].path()),
            Phase::Deciding { remaining, fallback } => Decision::Ask(remaining[0].clone()),
        }
    }

    /// Reports that the current step has been carried out, moving the run on to
    /// deciding which way to leave it.
    pub fn finish_step(&mut self, graph: &ArchitectGraph) -> (res: Decision)
        requires
            old(self)@.valid(),
        ensures
            final(self)@.valid(),
            final(self)@ == (if old(self)@.outcome is Some {
                old(self)@
            } else {
                old(self)@.step_finished(graph@)
            }),
            res@ == final(self)@.decision(),
    {
        if !self.is_finished() {
            proof {
                self@.lemma_moved_on(graph@, 2);
            }
            self.leave_step(graph);
        }
        self.shown()
    }

    /// Reports the answer to the question [`Decision::Ask`] posed.
    pub fn answer(&mut self, graph: &ArchitectGraph, taken: bool) -> (res: Decision)
        requires
            old(self)@.valid(),
        ensures
            final(self)@.valid(),
            final(self)@ == (if old(self)@.outcome is Some {
                old(self)@
            } else {
                old(self)@.answered(graph@, taken)
            }),
            res@ == final(self)@.decision(),
    {
        if !self.is_finished() {
            proof {
                lemma_answered(self@, graph@, taken);
            }
            self.take_answer(graph, taken);
        }
        self.shown()
    }

    fn take_answer(&mut self, graph: &ArchitectGraph, taken: bool)
        requires
            old(self)@.valid(),
            old(self)@.outcome is None,
        ensures
            final(self)@ == old(self)@.answered(graph@, taken),
    {
        let ghost before = *self;
        let top: usize = self.stack.len() - 1;
        proof {
            assert(self@.top() == self.stack@[top as int].model());
        }
        let mut asked: Option<Branch> = None;
        match &mut self.stack[top].phase {
            Phase::Working => {},
            Phase::Deciding { remaining, fallback } => {
                let ghost all = remaining@;
                asked = Some(remaining.remove(0));
                proof {
                    assert(remaining@.map_values(|b: Branch| b@) =~= all.map_values(
                        |b: Branch| b@,
                    ).skip(1));
                }
            },
        }
        match asked {
            Some(branch) => {
                proof {
                    let frame = FrameModel {
                        phase: PhaseModel::Deciding {
                            remaining: before@.top().phase->remaining.skip(1),
                            fallback: before@.top().phase->fallback,
                        },
                        ..before@.top()
                    };
                    assert(self.stack@[top as int].model() == frame);
                    assert(self@.stack =~= before@.with_top(frame).stack);
                    assert(self@ == before@.with_top(frame));
                    before@.lemma_with_top(frame);
                }
                if taken {
                    self.enter(branch.to, graph);
                } else {
                    self.move_on(graph);
                }
            },
            None => {
                proof {
                    assert(self@.stack =~= before@.stack);
                }
            },
        }
    }

    fn leave_step(&mut self, graph: &ArchitectGraph)
        requires
            old(self)@.sound(),
            old(self)@.outcome is None,
            old(self)@.stack.len() > 0,
        ensures
            final(self)@ == old(self)@.step_finished(graph@),
        decreases old(self)@.stack.len(), 2int,
    {
        let ghost before = *self;
        let top: usize = self.stack.len() - 1;
        proof {
            assert(self@.top() == self.stack@[top as int].model());
        }
        let graph_path = self.stack[top].graph_path();
        match graph.graph_at(&graph_path) {
            Some(local) => {
                let (remaining, fallback) = ways_out(local, &self.stack[top].current);
                self.stack[top].phase = Phase::Deciding { remaining, fallback };
                proof {
                    let frame = FrameModel {
                        phase: PhaseModel::Deciding {
                            remaining: local@.conditional_ways(before@.top().current),
                            fallback: local@.plain_way(before@.top().current),
                        },
                        ..before@.top()
                    };
                    assert(self.stack@[top as int].model() == frame);
                    assert(self@.stack =~= before@.with_top(frame).stack);
                    assert(self@ == before@.with_top(frame));
                    before@.lemma_with_top(frame);
                }
                self.move_on(graph);
            },
            None => {
                self.outcome = Some(RunOutcome::Completed);
            },
        }
    }

    /// Looks for the way out of the current step.
    fn move_on(&mut self, graph: &ArchitectGraph)
        requires
            old(self)@.sound(),
            old(self)@.outcome is None,
            old(self)@.stack.len() > 0,
        ensures
            final(self)@ == old(self)@.moved_on(graph@),
        decreases old(self)@.stack.len(), 1int,
    {
        let top: usize = self.stack.len() - 1;
        proof {
            assert(self@.top() == self.stack@[top as int].model());
        }
        let mut taken: Option<NodeId> = None;
        match &self.stack[top].phase {
            Phase::Working => {
                return;
            },
            Phase::Deciding { remaining, fallback } => {
                if remaining.len() > 0 {
                    return;
                }
                if let Some(to) = fallback {
                    taken = Some(to.clone());
                }
            },
        }
        match taken {
            Some(to) => {
                self.enter(to, graph);
            },
            None => {
                self.leave_frame(graph);
            },
        }
    }

    /// Moves onto a step within the current plan, descending into it if it is
    /// itself a plan.
    fn enter(&mut self, id: NodeId, graph: &ArchitectGraph)
        requires
            old(self)@.sound(),
            old(self)@.outcome is None,
            old(self)@.stack.len() > 0,
        ensures
            final(self)@ == old(self)@.entered(id@, graph@),
    {
        let ghost before = *self;
        let steps: usize = self.history.len();
        if steps >= MAX_RUN_STEPS {
            self.outcome = Some(RunOutcome::StepLimit { steps });
            return;
        }
        let top: usize = self.stack.len() - 1;
        proof {
            assert(self@.top() == self.stack@[top as int].model());
        }
        let visits: usize = self.visits(&self.stack[top].graph_path().child(id.clone())) + 1;
        if visits > MAX_NODE_VISITS {
            self.outcome = Some(RunOutcome::NodeLimit { node: id, visits });
            return;
        }
        let ghost next = FrameModel { current: id@, phase: PhaseModel::Working, ..before@.top() };
        self.stack[top].current = id;
        self.stack[top].phase = Phase::Working;
        let path = self.stack[top].path();
        self.history.push(path);
        proof {
            assert(self.stack@[top as int].model() == next);
            assert(self@.stack =~= before@.with_top(next).stack);
            assert(self@.history =~= before@.history.push(next.path()));
        }
        self.descend_while_nested(graph);
    }

    /// A step that contains a plan is not carried out itself; the run descends
    /// into it. Repeated, because the first step of that plan may nest too.
    fn descend_while_nested(&mut self, graph: &ArchitectGraph)
        requires
            old(self)@.stack.len() > 0,
        ensures
            final(self)@ == old(self)@.descended(graph@),
        decreases MAX_PLAN_DEPTH - old(self)@.stack.len(),
    {
        let top: usize = self.stack.len() - 1;
        proof {
            assert(self@.top() == self.stack@[top as int].model());
        }
        let path = self.stack[top].path();
        if let Some(node) = graph.node_at(&path) {
            if let Some(subplan) = node.subplan() {
                if self.stack.len() >= MAX_PLAN_DEPTH {
                    self.outcome = Some(RunOutcome::DepthLimit { node: node.id.clone() });
                    return;
                }
                let steps: usize = self.history.len();
                if steps >= MAX_RUN_STEPS {
                    self.outcome = Some(RunOutcome::StepLimit { steps });
                    return;
                }
                if let Some(entry) = entry_of(subplan) {
                    let visits: usize = self.visits(&path.child(entry.clone())) + 1;
                    if visits > MAX_NODE_VISITS {
                        self.outcome = Some(RunOutcome::NodeLimit { node: entry, visits });
                        return;
                    }
                    self.push_frame(path.0, entry);
                    self.descend_while_nested(graph);
                }
            }
        }
    }

    /// Whether a step has been entered since so many steps were.
    fn entered_since(&self, path: &NodePath, since: usize) -> (res: bool)
        requires
            since <= self@.history.len(),
        ensures
            res == self@.history.skip(since as int).contains(path@),
    {
        let ghost late = self@.history.skip(since as int);
        let count: usize = self.history.len();
        proof {
            assert(self@.history.len() == count);
        }
        for k in since..count
            invariant
                count == self.history@.len(),
                since <= count,
                late == self@.history.skip(since as int),
                forall|i: int| 0 <= i < k - since ==> late[i] != path@,
        {
            proof {
                assert(late[k - since] == self.history@[k as int]@);
            }
            if self.history[k].same(path) {
                return true;
            }
        }
        false
    }

    /// The first root of the current plan that has not been entered since the run
    /// came into the plan.
    fn next_root(&self, graph: &ArchitectGraph) -> (res: Option<NodeId>)
        requires
            self@.stack.len() > 0,
            self@.top().since <= self@.history.len(),
        ensures
            match res {
                Some(id) => self@.next_root(graph@) == Some(id@),
                None => self@.next_root(graph@) is None,
            },
    {
        let frame = &self.stack[self.stack.len() - 1];
        proof {
            assert(self@.top() == frame.model());
        }
        let above = frame.graph_path();
        let ghost late = self@.history.skip(frame.since as int);
        match graph.graph_at(&above) {
            Some(local) => {
                let roots = local.roots();
                let ghost all = local@.roots();
                proof {
                    assert(all.skip(0) =~= all);
                    assert(all.len() == roots@.len());
                }
                for k in 0..roots.len()
                    invariant
                        all == graph::ids(roots@),
                        all == local@.roots(),
                        self@.top() == frame.model(),
                        graph@.graph_at(self@.top().parents) == Some(local@),
                        self@.top().since <= self@.history.len(),
                        late == self@.history.skip(frame.since as int),
                        above@ == self@.top().parents,
                        first_unvisited(all.skip(k as int), above@, late) == first_unvisited(
                            all,
                            above@,
                            late,
                        ),
                {
                    proof {
                        assert(all.skip(k as int)[0] == roots@[k as int]@);
                        assert(all.skip(k as int).skip(1) =~= all.skip(k + 1));
                    }
                    if !self.entered_since(&above.child(roots[k].clone()), frame.since) {
                        return Some(roots[k].clone());
                    }
                }
                proof {
                    assert(all.skip(roots@.len() as int).len() == 0);
                }
                None
            },
            None => None,
        }
    }

    /// The current plan has run out of connections to follow. A root of it that
    /// has not been entered comes next. Where there is none and the plan is a
    /// nested one, the step that contained it is now finished, and the level
    /// above carries on.
    fn leave_frame(&mut self, graph: &ArchitectGraph)
        requires
            old(self)@.sound(),
            old(self)@.outcome is None,
            old(self)@.stack.len() > 0,
        ensures
            final(self)@ == old(self)@.left(graph@),
        decreases old(self)@.stack.len(), 0int,
    {
        proof {
            assert(self@.stack[self@.stack.len() - 1].since <= self@.history.len());
        }
        if let Some(root) = self.next_root(graph) {
            self.enter(root, graph);
            return;
        }
        let ghost before = *self;
        self.stack.pop();
        proof {
            let outer = RunModel { stack: before@.stack.drop_last(), ..before@ };
            assert(self@.stack =~= outer.stack);
            assert(self@ == outer);
            assert forall|i: int| 0 <= i < outer.stack.len() implies (
            #[trigger] outer.stack[i]).since <= outer.history.len() by {
                assert(before@.stack[i].since <= before@.history.len());
            }
            assert forall|i: int| 0 < i < outer.stack.len() implies (
            #[trigger] outer.stack[i]).parents == outer.stack[i - 1].path() by {
                assert(before@.stack[i].parents == before@.stack[i - 1].path());
            }
        }
        if self.stack.len() == 0 {
            self.outcome = Some(RunOutcome::Completed);
        } else {
            self.leave_step(graph);
        }
    }
}

/// A step has been entered as often as it stands in the history.
pub proof fn law_visits_are_counted(history: Seq<Seq<Seq<char>>>, path: Seq<Seq<char>>)
    ensures
        times(history, path) == history.filter(|p: Seq<Seq<char>>| p == path).len(),
    decreases history.len(),
{
    reveal(Seq::filter);
    if history.len() > 0 {
        law_visits_are_counted(history.drop_last(), path);
    }
}

} // verus!
