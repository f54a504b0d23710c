//! Carrying a plan out against a conversation.
//!
//! The plan is copied when the run starts, so edits made while a run is in
//! flight cannot change its control flow. The caller sends what it is told to
//! send, and reports what came back; every decision in between is taken here.
use crate::graph::{self, ArchitectGraph, StepResult};
use crate::model::{GraphModel, NodeModel, ResultModel};
use crate::path::NodePath;
use crate::problems;
use crate::prompt::{self, branch_prompt, step_prompt};
use crate::run::{
    self, Branch, Decision, DecisionModel, OutcomeModel, PlanRun, RunModel, RunOutcome, RunRefusal,
};
use crate::text;
use crate::verdict::{self, parse_verdict};
use vstd::prelude::*;

verus! {

/// Why a run was not started.
#[derive(Debug)]
pub enum ArchitectRunStartError {
    AlreadyRunning,
    Refused(RunRefusal),
}

impl vstd::std_specs::convert::FromSpecImpl<RunRefusal> for ArchitectRunStartError {
    open spec fn obeys_from_spec() -> bool {
        true
    }

    open spec fn from_spec(v: RunRefusal) -> Self {
        ArchitectRunStartError::Refused(v)
    }
}

impl From<RunRefusal> for ArchitectRunStartError {
    fn from(refusal: RunRefusal) -> (res: Self) {
        ArchitectRunStartError::Refused(refusal)
    }
}

impl ArchitectRunStartError {
    /// Why the run was not started, as a sentence.
    pub fn to_text(&self) -> (res: String)
        ensures
            match *self {
                ArchitectRunStartError::AlreadyRunning => res@
                    == "An Architect run is already in progress."@,
                ArchitectRunStartError::Refused(RunRefusal::NothingToRun) => res@
                    == "There is no plan to run yet."@,
                ArchitectRunStartError::Refused(RunRefusal::NotReady(problems)) => res@
                    == "This plan is not ready to run: "@ + text::joined(
                    run::sentences(problems::problem_models(problems@)),
                    "; "@,
                ),
            },
    {
        match self {
            ArchitectRunStartError::AlreadyRunning => "An Architect run is already in progress.".to_owned(),
            ArchitectRunStartError::Refused(refusal) => match refusal {
                RunRefusal::NothingToRun => "There is no plan to run yet.".to_owned(),
                RunRefusal::NotReady(_) => text::cat2(
                    "This plan is not ready to run: ",
                    refusal.to_text().as_str(),
                ),
            },
        }
    }
}

impl GraphModel {
    /// The plan without anything its steps reported, at any depth.
    pub open spec fn cleared(self) -> GraphModel
        decreases self,
    {
        GraphModel {
            nodes: Seq::new(
                self.nodes.len(),
                |i: int|
                    if 0 <= i < self.nodes.len() {
                        NodeModel {
                            result: None,
                            subplan: match self.nodes[i].subplan {
                                Some(g) => Some(Box::new(g.cleared())),
                                None => None,
                            },
                            ..self.nodes[i]
                        }
                    } else {
                        arbitrary()
                    },
            ),
            edges: self.edges,
        }
    }

    /// The plan with what the step at a path reported.
    pub open spec fn with_report(self, path: Seq<Seq<char>>, report: ResultModel) -> GraphModel {
        match self.step_at(path) {
            Some(node) => self.with_step_at(path, NodeModel { result: Some(report), ..node }),
            None => self,
        }
    }

    /// What a step is called on the way through a run.
    pub open spec fn step_title(self, path: Seq<Seq<char>>) -> Seq<char> {
        match self.node_at(path) {
            Some(node) => node.title,
            None => if path.len() > 0 {
                path.last()
            } else {
                "Step"@
            },
        }
    }
}

impl ArchitectGraph {
    /// Forgets what the steps reported, here and in every nested plan.
    pub fn clear_results(&mut self)
        ensures
            final(self)@ == old(self)@.cleared(),
        decreases *old(self),
    {
        let ghost before = *self;
        proof {
            before.lemma_view();
        }
        let mut k: usize = 0;
        while k < self.nodes.len()
            invariant
                k <= self.nodes@.len(),
                before == *old(self),
                self.nodes@.len() == before.nodes@.len(),
                self.edges == before.edges,
                before@.nodes.len() == before.nodes@.len(),
                forall|i: int|
                    0 <= i < k ==> (#[trigger] self.nodes@[i])@ == before@.cleared().nodes[i],
                forall|i: int|
                    k <= i < self.nodes@.len() ==> #[trigger] self.nodes@[i] == before.nodes@[i],
            decreases self.nodes@.len() - k,
        {
            proof {
                before.lemma_view();
                assert(before@.nodes[k as int] == before.nodes@[k as int]@);
            }
            self.nodes[k].result = None;
            if let Some(subplan) = &mut self.nodes[k].subplan {
                subplan.clear_results();
            }
            k += 1;
        }
        proof {
            self.lemma_view();
            assert(self@.nodes =~= before@.cleared().nodes);
            assert(self@.edges =~= before@.edges);
        }
    }
}

/// What a step is called on the way through a run.
pub fn step_title(graph: &ArchitectGraph, path: &NodePath) -> (res: String)
    ensures
        res@ == graph@.step_title(path@),
{
    match graph.node_at(path) {
        Some(node) => node.title.clone(),
        None => match path.leaf() {
            Some(id) => id.0.clone(),
            None => "Step".to_owned(),
        },
    }
}

/// What the caller has to do for a run.
pub enum RunAction {
    /// Send the brief of a step, wait for the agent, then report with
    /// [`ArchitectRun::step_carried_out`].
    CarryOut { path: NodePath, title: String, step_number: usize, attempt: usize, prompt: String },
    /// Send a question, wait for the agent, then report the reply with
    /// [`ArchitectRun::question_answered`].
    Ask { branch: Branch, prompt: String },
    /// The run is over. Where there is something to tell the agent, send it.
    Finish { outcome: RunOutcome, report: Option<String> },
}

/// A plan being carried out.
pub struct ArchitectRun {
    graph: ArchitectGraph,
    run: PlanRun,
}

/// A plan being carried out: the copy of the plan that is followed, and where
/// the run is in it.
#[verifier::ext_equal]
pub struct CarryingModel {
    pub plan: GraphModel,
    pub run: RunModel,
}

impl View for ArchitectRun {
    type V = CarryingModel;

    closed spec fn view(&self) -> CarryingModel {
        CarryingModel { plan: self.graph@, run: self.run@ }
    }
}

/// The summary of a step: what it reported on this attempt, or its closing
/// message where it reported nothing.
pub open spec fn summary_of(reported: Option<ResultModel>, attempt: nat, closing: Seq<char>) -> Seq<
    char,
> {
    if reports(reported, attempt) {
        text::trimmed(reported->0.summary)
    } else {
        text::trimmed(closing)
    }
}

/// Whether a step reported something on this attempt. A step may report more than
/// once while it is carried out, and each report is numbered after the one before.
pub open spec fn reports(reported: Option<ResultModel>, attempt: nat) -> bool {
    reported matches Some(result) && result.attempt >= attempt && !text::is_blank(result.summary)
}

impl CarryingModel {
    /// The plan that the steps named in questions and in the ending belong to.
    pub open spec fn spoken_of(self) -> GraphModel {
        match self.plan.graph_at(self.run.scope()) {
            Some(local) => local,
            None => self.plan,
        }
    }

    /// The attempt the step being carried out is on: how many times it has been
    /// reached, be it by a loop in its own plan or around it.
    pub open spec fn attempt(self) -> nat {
        let count = self.run.visits(self.run.top().path());
        if self.run.stack.len() > 0 && count > 0 {
            count
        } else {
            1
        }
    }

    /// The run after the current step has been carried out with this summary.
    pub open spec fn carried_out(self, summary: Seq<char>) -> CarryingModel {
        let plan = self.plan.with_report(
            self.run.top().path(),
            ResultModel { summary, attempt: self.attempt() },
        );
        CarryingModel { plan, run: self.run.step_finished(plan) }
    }

    /// The run after the question has been answered; a reply without a verdict
    /// counts as no.
    pub open spec fn answered(self, reply: Seq<char>) -> CarryingModel {
        CarryingModel {
            run: self.run.answered(self.plan, verdict::verdict(reply) == Some(true)),
            ..self
        }
    }
}

impl ArchitectRun {
    /// Starts carrying out a copy of a plan, unless a run is in progress. A run
    /// must not inherit summaries from an earlier attempt, so the copy starts
    /// without any.
    pub fn start(graph: ArchitectGraph, already_running: bool) -> (res: Result<
        Self,
        ArchitectRunStartError,
    >)
        ensures
            match res {
                Ok(run) => {
                    &&& !already_running
                    &&& graph@.nodes.len() > 0
                    &&& graph@.blocking().len() == 0
                    &&& run@ == (CarryingModel {
                        plan: graph@.cleared(),
                        run: RunModel::begun(graph@),
                    })
                    &&& run@.run.valid()
                },
                Err(ArchitectRunStartError::AlreadyRunning) => already_running,
                Err(ArchitectRunStartError::Refused(RunRefusal::NothingToRun)) => !already_running
                    && graph@.nodes.len() == 0,
                Err(ArchitectRunStartError::Refused(RunRefusal::NotReady(problems))) =>
                    !already_running && graph@.nodes.len() > 0 && problems::problem_models(problems@)
                    == graph@.blocking() && graph@.blocking().len() > 0,
            },
    {
        if already_running {
            return Err(ArchitectRunStartError::AlreadyRunning);
        }
        match PlanRun::start(&graph) {
            Ok(run) => {
                let mut graph = graph;
                graph.clear_results();
                Ok(ArchitectRun { graph, run })
            },
            Err(refusal) => Err(ArchitectRunStartError::Refused(refusal)),
        }
    }

    /// The plan being carried out, with what its steps have reported so far.
    pub fn graph(&self) -> (res: &ArchitectGraph)
        ensures
            res@ == self@.plan,
    {
        &self.graph
    }

    /// The step the run is on, as a full path.
    pub fn current(&self) -> (res: NodePath)
        ensures
            res@ == (if self@.run.stack.len() > 0 {
                self@.run.top().path()
            } else {
                Seq::empty()
            }),
    {
        self.run.current()
    }

    fn attempt(&self) -> (res: usize)
        ensures
            res == self@.attempt(),
    {
        let count: usize = self.run.visits(&self.run.current());
        if self.run.depth() > 0 && count > 0 {
            count
        } else {
            1
        }
    }

    fn spoken_of(&self) -> (res: &ArchitectGraph)
        ensures
            res@ == self@.spoken_of(),
    {
        match self.graph.graph_at(&self.run.scope()) {
            Some(local) => local,
            None => &self.graph,
        }
    }

    /// What to do next.
    pub fn next_action(&mut self) -> (res: RunAction)
        requires
            old(self)@.run.valid(),
        ensures
            final(self)@ == old(self)@,
            match old(self)@.run.decision() {
                DecisionModel::Run(path) => res matches RunAction::CarryOut {
                    path: p,
                    title,
                    step_number,
                    attempt,
                    prompt,
                } && p@ == path && title@ == old(self)@.plan.step_title(path) && step_number
                    == old(self)@.run.history.len() && attempt as nat == old(self)@.attempt()
                    && prompt@ == prompt::brief(
                    old(self)@.plan,
                    path,
                    old(self)@.run.history.len(),
                    old(self)@.attempt(),
                ),
                DecisionModel::Ask(branch) => res matches RunAction::Ask { branch: b, prompt }
                    && b@ == branch && prompt@ == prompt::question(old(self)@.spoken_of(), branch),
                DecisionModel::Done(outcome) => res matches RunAction::Finish {
                    outcome: o,
                    report,
                } && o@ == outcome && match report {
                    Some(told) => outcome != OutcomeModel::Completed && outcome
                        != OutcomeModel::Cancelled && told@ == prompt::ending(
                        old(self)@.spoken_of(),
                        outcome,
                    ),
                    None => outcome == OutcomeModel::Completed || outcome
                        == OutcomeModel::Cancelled,
                },
            },
    {
        match self.run.decide(&self.graph) {
            Decision::Run(path) => {
                let step_number: usize = self.run.steps_taken();
                let attempt: usize = self.attempt();
                let title = step_title(&self.graph, &path);
                let prompt = step_prompt(&self.graph, &path, step_number, attempt);
                RunAction::CarryOut { path, title, step_number, attempt, prompt }
            },
            Decision::Ask(branch) => {
                let prompt = branch_prompt(self.spoken_of(), &branch);
                RunAction::Ask { branch, prompt }
            },
            Decision::Done(outcome) => {
                let report = match &outcome {
                    RunOutcome::Completed => None,
                    RunOutcome::Cancelled => None,
                    _ => Some(outcome.describe(self.spoken_of())),
                };
                RunAction::Finish { outcome, report }
            },
        }
    }

    /// Reports that the step has been carried out: what it reported by itself,
    /// and its closing message. Hands back the summary, and whether it had to be
    /// taken from the closing message.
    pub fn step_carried_out(&mut self, reported: Option<&StepResult>, closing: &str) -> (res: (
        String,
        bool,
    ))
        requires
            old(self)@.run.valid(),
            old(self)@.run.decision() is Run,
        ensures
            final(self)@.run.valid(),
            res.0@ == summary_of(
                match reported {
                    Some(result) => Some(result@),
                    None => None,
                },
                old(self)@.attempt(),
                closing@,
            ),
            res.1 == !reports(
                match reported {
                    Some(result) => Some(result@),
                    None => None,
                },
                old(self)@.attempt(),
            ),
            final(self)@ == old(self)@.carried_out(res.0@),
    {
        let path = self.run.current();
        let attempt: usize = self.attempt();
        let mut from_closing = true;
        let mut summary = text::trim(closing).to_owned();
        if let Some(result) = reported {
            if result.attempt >= attempt && !text::blank(result.summary.as_str()) {
                summary = text::trim(result.summary.as_str()).to_owned();
                from_closing = false;
            }
        }
        if let Some(step) = self.graph.node_at_mut(&path) {
            step.result = Some(StepResult { summary: summary.clone(), attempt });
        }
        let _ = self.run.finish_step(&self.graph);
        (summary, from_closing)
    }

    /// Reports the reply to the question that was asked. A reply without a
    /// verdict counts as no; tells whether there was one.
    pub fn question_answered(&mut self, reply: &str) -> (res: bool)
        requires
            old(self)@.run.valid(),
            old(self)@.run.decision() is Ask,
        ensures
            final(self)@.run.valid(),
            final(self)@ == old(self)@.answered(reply@),
            res == (verdict::verdict(reply@) is Some),
    {
        let found = parse_verdict(reply);
        let taken = match found {
            Some(taken) => taken,
            None => false,
        };
        let _ = self.run.answer(&self.graph, taken);
        found.is_some()
    }

    /// Ends the run because a message could not be sent, or the user stopped it.
    pub fn interrupt(&mut self)
        ensures
            final(self)@ == (CarryingModel {
                run: if old(self)@.run.outcome is Some {
                    old(self)@.run
                } else {
                    old(self)@.run.ended(OutcomeModel::Cancelled)
                },
                ..old(self)@
            }),
            old(self)@.run.valid() ==> final(self)@.run.valid(),
    {
        self.run.cancel();
    }
}

/// The last report of a step while it is carried out is what counts, however often it
/// reports: where the next report is numbered for this attempt or later, making it
/// leaves it as the report of the attempt, and the same holds of the one after it.
pub proof fn law_last_report_counts(
    plan: GraphModel,
    path: Seq<Seq<char>>,
    attempt: nat,
    summary: Seq<char>,
    closing: Seq<char>,
)
    requires
        plan.step_at(path) is Some,
        plan.reporting_attempt(path) >= attempt,
        !text::is_blank(summary),
    ensures
        ({
            let number = plan.reporting_attempt(path);
            let after = plan.with_report(
                path,
                ResultModel { summary: text::trimmed(summary), attempt: number },
            );
            let reported = after.step_at(path)->0.result;
            &&& after.step_at(path) is Some
            &&& reports(reported, attempt)
            &&& summary_of(reported, attempt, closing) == text::trimmed(summary)
            &&& after.reporting_attempt(path) >= attempt
        }),
{
    let node = plan.step_at(path)->0;
    (plan.plan_at(path.drop_last())->0).lemma_node(path.last());
    let report = ResultModel { summary: text::trimmed(summary), attempt: plan.reporting_attempt(path) };
    plan.lemma_step_put(path, NodeModel { result: Some(report), ..node });
    text::lemma_trimmed_twice(summary);
}

/// A step that has not reported since its last attempt was recorded hands on its closing
/// message.
pub proof fn law_old_reports_do_not_count(
    recorded: Option<ResultModel>,
    attempt: nat,
    closing: Seq<char>,
)
    requires
        recorded matches Some(result) ==> result.attempt < attempt,
    ensures
        summary_of(recorded, attempt, closing) == text::trimmed(closing),
{
}

/// Starting a run forgets every summary of an earlier one, at any depth, and
/// nothing else.
pub proof fn law_run_starts_without_summaries(plan: GraphModel, path: Seq<Seq<char>>)
    ensures
        match plan.step_at(path) {
            Some(node) => plan.cleared().step_at(path) matches Some(after) && after.result is None
                && after.id == node.id && after.title == node.title && after.intent == node.intent
                && after.rules == node.rules && after.locked == node.locked,
            None => plan.cleared().step_at(path) is None,
        },
{
    if path.len() > 0 {
        lemma_cleared_plan(plan, path.drop_last());
        if let Some(local) = plan.plan_at(path.drop_last()) {
            lemma_cleared_node(local, path.last());
        }
    }
}

proof fn lemma_cleared_node(plan: GraphModel, id: Seq<char>)
    ensures
        plan.cleared().node_index(id) == plan.node_index(id),
        match plan.node_index(id) {
            Some(i) => plan.cleared().node(id) == Some(plan.cleared().nodes[i]) && 0 <= i
                < plan.nodes.len(),
            None => plan.cleared().node(id) is None,
        },
{
    let after = plan.cleared();
    assert(after.nodes.len() == plan.nodes.len());
    assert forall|i: int| 0 <= i < plan.nodes.len() implies (#[trigger] after.nodes[i]).id
        == plan.nodes[i].id by {
    }
    plan.lemma_node(id);
    after.lemma_node(id);
    if plan.has_node(id) {
        let i = plan.node_index(id)->0;
        assert(after.nodes[i].id == id);
        assert(after.is_index(id, i));
        after.lemma_index(id, i);
    } else if after.has_node(id) {
        let i = after.node_index(id)->0;
        assert(plan.nodes[i].id == id);
    }
}

proof fn lemma_cleared_plan(plan: GraphModel, path: Seq<Seq<char>>)
    ensures
        plan.cleared().plan_at(path) == (match plan.plan_at(path) {
            Some(g) => Some(g.cleared()),
            None => None,
        }),
    decreases path.len(),
{
    if path.len() > 0 {
        lemma_cleared_node(plan, path[0]);
        if let Some(i) = plan.node_index(path[0]) {
            if let Some(g) = plan.nodes[i].subplan {
                lemma_cleared_plan(*g, path.skip(1));
            }
        }
    }
}

/// One piece of an assistant's message.
pub enum MessageChunk {
    /// Text addressed to the user.
    Message(String),
    /// Text the assistant wrote for itself.
    Thought,
}

/// One entry of a conversation.
pub enum ConversationEntry {
    Assistant(Vec<MessageChunk>),
    Other,
}

/// The texts of a message addressed to the user.
pub open spec fn spoken(chunks: Seq<MessageChunk>) -> Seq<Seq<char>>
    decreases chunks.len(),
{
    if chunks.len() == 0 {
        Seq::empty()
    } else {
        let rest = spoken(chunks.drop_last());
        match chunks.last() {
            MessageChunk::Message(said) => rest.push(said@),
            MessageChunk::Thought => rest,
        }
    }
}

/// The last thing the assistant said, empty where it said nothing.
pub open spec fn last_spoken(entries: Seq<ConversationEntry>) -> Seq<char>
    decreases entries.len(),
{
    if entries.len() == 0 {
        Seq::empty()
    } else {
        match entries.last() {
            ConversationEntry::Assistant(chunks) => text::joined(spoken(chunks@), "\n"@),
            ConversationEntry::Other => last_spoken(entries.drop_last()),
        }
    }
}

/// The last thing the assistant said.
pub fn last_assistant_text(entries: &Vec<ConversationEntry>) -> (res: String)
    ensures
        res@ == last_spoken(entries@),
{
    let mut k: usize = entries.len();
    proof {
        assert(entries@.take(entries@.len() as int) =~= entries@);
    }
    while k > 0
        invariant
            k <= entries@.len(),
            last_spoken(entries@) == last_spoken(entries@.take(k as int)),
        decreases k,
    {
        proof {
            assert(entries@.take(k as int).last() == entries@[k - 1]);
            assert(entries@.take(k as int).drop_last() =~= entries@.take(k - 1));
        }
        if let ConversationEntry::Assistant(chunks) = &entries[k - 1] {
            let mut said: Vec<String> = Vec::new();
            proof {
                assert(graph::texts(said@) =~= spoken(chunks@.take(0)));
            }
            for j in 0..chunks.len()
                invariant
                    graph::texts(said@) == spoken(chunks@.take(j as int)),
            {
                proof {
                    assert(chunks@.take(j + 1).last() == chunks@[j as int]);
                    assert(chunks@.take(j + 1).drop_last() =~= chunks@.take(j as int));
                }
                if let MessageChunk::Message(one) = &chunks[j] {
                    let ghost before = said@;
                    said.push(one.clone());
                    proof {
                        assert(graph::texts(said@) =~= graph::texts(before).push(one@));
                    }
                }
            }
            proof {
                assert(chunks@.take(chunks@.len() as int) =~= chunks@);
            }
            return text::join(&said, "\n");
        }
        k -= 1;
    }
    let none = String::new();
    proof {
        assert(none@ =~= last_spoken(entries@.take(0)));
    }
    none
}

/// Only a yes takes a branch: any other reply, a verdict or not, leaves it.
pub proof fn law_only_a_yes_takes_a_branch(state: CarryingModel, reply: Seq<char>)
    ensures
        verdict::verdict(reply) == Some(true) ==> state.answered(reply).run == state.run.answered(
            state.plan,
            true,
        ),
        verdict::verdict(reply) != Some(true) ==> state.answered(reply).run == state.run.answered(
            state.plan,
            false,
        ),
        state.answered(reply).plan == state.plan,
{
}

/// What a step reported is recorded with it, under the attempt it was made on, and that is
/// the plan the run goes on with.
pub proof fn law_summaries_are_recorded(state: CarryingModel, summary: Seq<char>)
    requires
        state.run.stack.len() > 0,
        state.plan.step_at(state.run.top().path()) is Some,
    ensures
        ({
            let path = state.run.top().path();
            let before = state.plan.step_at(path)->0;
            let visits = crate::run::times(state.run.history, path);
            let after = state.carried_out(summary);
            &&& after.plan.step_at(path) == Some(
                NodeModel {
                    result: Some(
                        ResultModel {
                            summary,
                            attempt: if visits == 0 {
                                1
                            } else {
                                visits
                            },
                        },
                    ),
                    ..before
                },
            )
            &&& after.run == state.run.step_finished(after.plan)
        }),
{
    let path = state.run.top().path();
    let node = state.plan.step_at(path)->0;
    (state.plan.plan_at(path.drop_last())->0).lemma_node(path.last());
    let report = ResultModel { summary, attempt: state.attempt() };
    state.plan.lemma_step_put(path, NodeModel { result: Some(report), ..node });
}

/// The last thing said is what the last message of the assistant says to the user, line by
/// line; what comes after it from others does not count, nor do its thoughts.
pub proof fn law_last_message_is_what_was_said(
    before: Seq<ConversationEntry>,
    chunks: Vec<MessageChunk>,
    after: Seq<ConversationEntry>,
)
    requires
        forall|i: int| 0 <= i < after.len() ==> (#[trigger] after[i]) is Other,
    ensures
        last_spoken(before.push(ConversationEntry::Assistant(chunks)) + after) == text::joined(
            chunks@.filter(|c: MessageChunk| c is Message).map_values(
                |c: MessageChunk| c->Message_0@,
            ),
            "\n"@,
        ),
    decreases after.len(),
{
    let all = before.push(ConversationEntry::Assistant(chunks)) + after;
    if after.len() > 0 {
        assert(all.last() == after[after.len() - 1]);
        assert(all.drop_last() =~= before.push(ConversationEntry::Assistant(chunks))
            + after.drop_last());
        law_last_message_is_what_was_said(before, chunks, after.drop_last());
    } else {
        assert(all =~= before.push(ConversationEntry::Assistant(chunks)));
        lemma_spoken(chunks@);
    }
}

proof fn lemma_spoken(chunks: Seq<MessageChunk>)
    ensures
        spoken(chunks) == chunks.filter(|c: MessageChunk| c is Message).map_values(
            |c: MessageChunk| c->Message_0@,
        ),
    decreases chunks.len(),
{
    reveal(Seq::filter);
    let p = |c: MessageChunk| c is Message;
    let f = |c: MessageChunk| c->Message_0@;
    if chunks.len() > 0 {
        lemma_spoken(chunks.drop_last());
        let kept = chunks.drop_last().filter(p);
        if p(chunks.last()) {
            assert(kept.push(chunks.last()).map_values(f) =~= kept.map_values(f).push(
                f(chunks.last()),
            ));
        }
    } else {
        assert(chunks.filter(p).map_values(f) =~= Seq::empty());
    }
}

} // verus!
