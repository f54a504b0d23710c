//! What the agent is told during a run, one step and one question at a time.
use crate::compile::{self, goal_text, rules_text};
use crate::graph::{self, ArchitectGraph, ArchitectNode, EdgeCondition, NodeId};
use crate::model::{ConditionModel, EdgeModel, GraphModel, NodeModel};
use crate::outline;
use crate::path::NodePath;
use crate::run::{Branch, BranchModel, OutcomeModel, RunOutcome, MAX_PLAN_DEPTH};
use crate::runner::step_title;
use crate::text;
use vstd::prelude::*;

verus! {

impl GraphModel {
    /// The title of the step of an id, here or in a nested plan.
    pub open spec fn find_title(self, id: Seq<char>) -> Option<Seq<char>>
        decreases self, self.nodes.len() + 1,
    {
        match self.node(id) {
            Some(node) => Some(node.title),
            None => self.find_title_from(id, self.nodes.len()),
        }
    }

    /// The title of the step of an id in the plans nested inside the last `left`
    /// steps.
    pub open spec fn find_title_from(self, id: Seq<char>, left: nat) -> Option<Seq<char>>
        decreases self, left,
    {
        if left == 0 || left > self.nodes.len() {
            None
        } else {
            let rest = self.find_title_from(id, (left - 1) as nat);
            match self.nodes[self.nodes.len() - left].subplan {
                Some(g) => if g.nodes.len() == 0 {
                    rest
                } else {
                    match g.find_title(id) {
                        Some(title) => Some(title),
                        None => rest,
                    }
                },
                None => rest,
            }
        }
    }

    /// What a step is called: its title, or its id where it is not there.
    pub open spec fn called(self, id: Seq<char>) -> Seq<char> {
        match self.find_title(id) {
            Some(title) => title,
            None => id,
        }
    }

    /// What the first `k` steps of a plan hand on together, each under its title.
    pub open spec fn handed_on(self, k: nat) -> Seq<Seq<char>>
        decreases self, k,
    {
        if k == 0 || k > self.nodes.len() {
            Seq::empty()
        } else {
            let rest = self.handed_on((k - 1) as nat);
            let node = self.nodes[k - 1];
            match node.handoff() {
                Some(summary) => rest.push(node.title + ": "@ + summary),
                None => rest,
            }
        }
    }
}

impl NodeModel {
    /// What a step hands on: its own summary, or, for a step carried out as a
    /// plan, what the steps of that plan hand on.
    pub open spec fn handoff(self) -> Option<Seq<char>>
        decreases self,
    {
        match self.result {
            Some(result) if !text::is_blank(result.summary) => Some(text::trimmed(result.summary)),
            _ => match self.subplan {
                Some(g) => {
                    let parts = g.handed_on(g.nodes.len());
                    if parts.len() == 0 {
                        None
                    } else {
                        Some(text::joined(parts, "; "@))
                    }
                },
                None => None,
            },
        }
    }
}

/// A step that reported something: the way to it, what it is called, and what it
/// reported.
#[verifier::ext_equal]
pub struct ToldModel {
    pub path: Seq<Seq<char>>,
    pub title: Seq<char>,
    pub summary: Seq<char>,
}

/// What the step at the end of a path has to say to others, if anything.
pub open spec fn reported(node: NodeModel, path: Seq<Seq<char>>) -> Seq<ToldModel> {
    match node.handoff() {
        Some(summary) => seq![ToldModel { path, title: node.title, summary }],
        None => Seq::empty(),
    }
}

impl GraphModel {
    /// What the pinned ones of the first `k` steps reported, and those in the plans
    /// nested inside these.
    pub open spec fn pinned_reports(self, above: Seq<Seq<char>>, k: nat) -> Seq<ToldModel>
        decreases self, k,
    {
        if k == 0 || k > self.nodes.len() {
            Seq::empty()
        } else {
            let node = self.nodes[k - 1];
            let path = above.push(node.id);
            self.pinned_reports(above, (k - 1) as nat) + (if node.pinned {
                reported(node, path)
            } else {
                Seq::empty()
            }) + match node.subplan {
                Some(g) => g.pinned_reports(path, g.nodes.len()),
                None => Seq::empty(),
            }
        }
    }

    /// What the steps that some connections come from reported.
    pub open spec fn source_reports(self, above: Seq<Seq<char>>, edges: Seq<EdgeModel>) -> Seq<
        ToldModel,
    >
        decreases edges.len(),
    {
        if edges.len() == 0 {
            Seq::empty()
        } else {
            let from = edges.last().from;
            self.source_reports(above, edges.drop_last()) + match self.node(from) {
                Some(node) => reported(node, above.push(from)),
                None => Seq::empty(),
            }
        }
    }

    /// Whether something is what the step that a connection comes from reported.
    pub open spec fn reported_along(
        self,
        above: Seq<Seq<char>>,
        edge: EdgeModel,
        entry: ToldModel,
    ) -> bool {
        match self.node(edge.from) {
            Some(node) => node.handoff() == Some(entry.summary) && entry.title == node.title
                && entry.path == above.push(edge.from),
            None => false,
        }
    }

    /// What may concern a step: what the pinned steps reported, wherever they are,
    /// then what those that lead to it reported.
    pub open spec fn concerning(self, path: Seq<Seq<char>>) -> Seq<ToldModel> {
        let above = path.drop_last();
        let local = self.graph_at(above)->0;
        self.pinned_reports(Seq::empty(), self.nodes.len()) + local.source_reports(
            above,
            local.edges_into(path.last()),
        )
    }

    /// What a step is told of earlier steps: each of them once.
    pub open spec fn told(self, path: Seq<Seq<char>>) -> Seq<ToldModel> {
        told_of(self.concerning(path), path)
    }
}

/// What there is to tell a step of some reports: the first of each step, but for the
/// step itself and those it lies inside.
pub open spec fn told_of(reports: Seq<ToldModel>, own: Seq<Seq<char>>) -> Seq<ToldModel>
    decreases reports.len(),
{
    if reports.len() == 0 {
        Seq::empty()
    } else {
        let rest = told_of(reports.drop_last(), own);
        let last = reports.last();
        if last.path.is_prefix_of(own) || has_told(rest, last.path) {
            rest
        } else {
            rest.push(last)
        }
    }
}

/// Whether a step has been told of.
pub open spec fn has_told(told: Seq<ToldModel>, path: Seq<Seq<char>>) -> bool {
    exists|i: int| 0 <= i < told.len() && (#[trigger] told[i]).path == path
}

/// What earlier steps reported, as part of a brief.
pub open spec fn reports_part(told: Seq<ToldModel>) -> Seq<char> {
    if told.len() == 0 {
        Seq::empty()
    } else {
        "\nWhat earlier steps reported:\n"@ + text::flat(
            told.map_values(|t: ToldModel| "- "@ + t.title + ": "@ + t.summary + "\n"@),
        )
    }
}

/// Which steps a step lies inside, as part of a brief.
pub open spec fn inside_part(plan: GraphModel, path: Seq<Seq<char>>) -> Seq<char> {
    if path.len() > 1 {
        "You are inside: "@ + text::joined(
            Seq::new((path.len() - 1) as nat, |j: int| plan.step_title(path.take(j + 1))),
            " › "@,
        ) + ".\n\n"@
    } else {
        Seq::empty()
    }
}

/// What a step is reminded of when a loop brings it round again.
pub open spec fn again_part(node: NodeModel, attempt: nat) -> Seq<char> {
    match node.result {
        Some(result) => if attempt > 1 {
            "\nYou have been here before. On attempt "@ + text::decimal(
                outline::at_least_one(result.attempt),
            ) + ", you reported:\n"@ + text::trimmed(result.summary)
                + "\n\nThat did not settle it, which is why you are back. Do not repeat what you already tried.\n"@
        } else {
            Seq::empty()
        },
        None => Seq::empty(),
    }
}

/// What a step's summary has to contain, as part of a brief.
pub open spec fn capture_part(capture: Seq<char>) -> Seq<char> {
    if text::is_blank(capture) {
        Seq::empty()
    } else {
        "\nCapture in your summary: "@ + text::trimmed(capture) + "\n"@
    }
}

/// How every brief ends.
pub open spec fn closing() -> Seq<char> {
    "\nCarry out this step now, and only this step. Do not start any later step: what happens next is decided once this one is done. When it is finished, report what you did as your summary.\n"@
}

/// The brief for one step.
pub open spec fn brief(plan: GraphModel, path: Seq<Seq<char>>, number: nat, attempt: nat) -> Seq<
    char,
> {
    match plan.node_at(path) {
        Some(node) => {
            inside_part(plan, path) + ("## Step "@ + text::decimal(number) + ": "@ + node.title
                + "\n"@) + reports_part(plan.told(path)) + again_part(node, attempt)
                + compile::goal_part(node.intent) + compile::rules_part(
                "\nRules, which hold however you carry this out:\n"@,
                node.rules,
            ) + capture_part(node.capture) + closing()
        },
        None => "Step "@ + text::decimal(number)
            + " is missing from the plan; stop and say so."@,
    }
}

/// The question that decides whether a branch is taken.
pub open spec fn question(plan: GraphModel, branch: BranchModel) -> Seq<char> {
    let asked = match branch.condition {
        ConditionModel::Always => "Should the plan continue?"@,
        ConditionModel::Deterministic { expression } => "Check whether this is true right now: "@
            + expression + "\n\nCheck it, rather than recalling what was true earlier."@,
        ConditionModel::LlmEvaluated { question } => "Answer this question: "@ + question,
    };
    asked + "\n\nAnswering YES means the plan moves on to \""@ + plan.called(branch.to)
        + "\". Reply with YES or NO on the first line by itself, then one sentence saying why.\n"@
}

/// How a run ended, in words.
pub open spec fn ending(plan: GraphModel, outcome: OutcomeModel) -> Seq<char> {
    match outcome {
        OutcomeModel::Completed => "The plan is complete; every step has been carried out."@,
        OutcomeModel::StepLimit { steps } => "The run was stopped after "@ + text::decimal(steps)
            + " steps, which means the plan is looping without ever reaching an end. Do not carry on; say which step kept repeating and what would have to change for it to finish."@,
        OutcomeModel::NodeLimit { node, visits } => "The run was stopped because \""@ + plan.called(
            node,
        ) + "\" was entered "@ + text::decimal(visits)
            + " times without its exit condition ever being met. Do not carry on; say what kept failing and what would have to change for it to pass."@,
        OutcomeModel::DepthLimit { node } => "The run was stopped because plans nested more than "@
            + text::decimal(MAX_PLAN_DEPTH as nat) + " deep at \""@ + plan.called(node)
            + "\". Flatten that part of the plan before running it again."@,
        OutcomeModel::Cancelled => "The run was stopped."@,
    }
}

/// The title of the step of an id, here or in a nested plan.
pub fn find_title(graph: &ArchitectGraph, id: &NodeId) -> (res: Option<String>)
    ensures
        match res {
            Some(title) => graph@.find_title(id@) == Some(title@),
            None => graph@.find_title(id@) is None,
        },
    decreases graph,
{
    if let Some(node) = graph.node(id) {
        return Some(node.title.clone());
    }
    proof {
        graph.lemma_view();
    }
    for k in 0..graph.nodes.len()
        invariant
            graph@.nodes.len() == graph.nodes@.len(),
            graph@.find_title(id@) == graph@.find_title_from(
                id@,
                (graph@.nodes.len() - k) as nat,
            ),
    {
        proof {
            graph.lemma_view();
            assert(graph@.nodes[k as int] == graph.nodes@[k as int]@);
        }
        if let Some(subplan) = &graph.nodes[k].subplan {
            proof {
                subplan.lemma_view();
            }
            if subplan.nodes.len() > 0 {
                if let Some(title) = find_title(subplan, id) {
                    return Some(title);
                }
            }
        }
    }
    None
}

/// What a step is called: its title, or its id where it is not there.
pub fn called(graph: &ArchitectGraph, id: &NodeId) -> (res: String)
    ensures
        res@ == graph@.called(id@),
{
    match find_title(graph, id) {
        Some(title) => title,
        None => id.0.clone(),
    }
}

impl RunOutcome {
    /// A sentence describing the end of the run, for the transcript.
    pub fn describe(&self, graph: &ArchitectGraph) -> (res: String)
        ensures
            res@ == ending(graph@, self@),
    {
        match self {
            RunOutcome::Completed => "The plan is complete; every step has been carried out.".to_owned(),
            RunOutcome::StepLimit { steps } => text::cat3(
                "The run was stopped after ",
                text::number(*steps as u128).as_str(),
                " steps, which means the plan is looping without ever reaching an end. Do not carry on; say which step kept repeating and what would have to change for it to finish.",
            ),
            RunOutcome::NodeLimit { node, visits } => text::cat5(
                "The run was stopped because \"",
                called(graph, node).as_str(),
                "\" was entered ",
                text::number(*visits as u128).as_str(),
                " times without its exit condition ever being met. Do not carry on; say what kept failing and what would have to change for it to pass.",
            ),
            RunOutcome::DepthLimit { node } => text::cat5(
                "The run was stopped because plans nested more than ",
                text::number(MAX_PLAN_DEPTH as u128).as_str(),
                " deep at \"",
                called(graph, node).as_str(),
                "\". Flatten that part of the plan before running it again.",
            ),
            RunOutcome::Cancelled => "The run was stopped.".to_owned(),
        }
    }
}

/// What a step hands on to the steps that follow it.
fn handoff(node: &ArchitectNode) -> (res: Option<String>)
    ensures
        match res {
            Some(summary) => node@.handoff() == Some(summary@),
            None => node@.handoff() is None,
        },
    decreases node,
{
    if let Some(result) = &node.result {
        if !text::blank(result.summary.as_str()) {
            return Some(text::trim(result.summary.as_str()).to_owned());
        }
    }
    match &node.subplan {
        Some(subplan) => {
            let parts = handed_on(subplan);
            proof {
                assert(graph::texts(parts@).len() == parts@.len());
            }
            if parts.len() == 0 {
                None
            } else {
                Some(text::join(&parts, "; "))
            }
        },
        None => None,
    }
}

/// What the steps of a plan hand on together, each under its title.
fn handed_on(graph: &ArchitectGraph) -> (res: Vec<String>)
    ensures
        graph::texts(res@) == graph@.handed_on(graph@.nodes.len()),
    decreases graph,
{
    let mut parts: Vec<String> = Vec::new();
    proof {
        graph.lemma_view();
        assert(graph::texts(parts@) =~= Seq::empty());
    }
    for k in 0..graph.nodes.len()
        invariant
            graph@.nodes.len() == graph.nodes@.len(),
            graph::texts(parts@) == graph@.handed_on(k as nat),
    {
        let inner = &graph.nodes[k];
        proof {
            graph.lemma_view();
            assert(graph@.nodes[k as int] == inner@);
        }
        if let Some(summary) = handoff(inner) {
            let part = text::cat3(inner.title.as_str(), ": ", summary.as_str());
            let ghost before = parts@;
            parts.push(part);
            proof {
                assert(graph::texts(parts@) =~= graph::texts(before).push(part@));
            }
        }
    }
    parts
}

/// A step that reported something: the way to it, what it is called, and what it
/// reported.
struct Told {
    path: NodePath,
    title: String,
    summary: String,
}

impl Told {
    spec fn model(&self) -> ToldModel {
        ToldModel { path: self.path@, title: self.title@, summary: self.summary@ }
    }
}

spec fn told_models(told: Seq<Told>) -> Seq<ToldModel> {
    told.map_values(|t: Told| t.model())
}

/// Adds what a step has to say to others.
fn report(node: &ArchitectNode, path: NodePath, out: &mut Vec<Told>)
    ensures
        told_models(final(out)@) == told_models(old(out)@) + reported(node@, path@),
{
    let ghost before = out@;
    let ghost at = path@;
    if let Some(summary) = handoff(node) {
        let next = Told { path, title: node.title.clone(), summary };
        let ghost added = next.model();
        out.push(next);
        proof {
            assert(told_models(out@) =~= told_models(before) + seq![added]);
            assert(seq![added] =~= reported(node@, at));
        }
    } else {
        proof {
            assert(told_models(out@) =~= told_models(before) + reported(node@, at));
        }
    }
}

/// Adds what the pinned steps of a plan reported, here and in nested plans.
fn report_pinned(graph: &ArchitectGraph, above: &NodePath, out: &mut Vec<Told>)
    ensures
        told_models(final(out)@) == told_models(old(out)@) + graph@.pinned_reports(
            above@,
            graph@.nodes.len(),
        ),
    decreases graph,
{
    let ghost start = told_models(out@);
    proof {
        graph.lemma_view();
        assert(start + graph@.pinned_reports(above@, 0) =~= start);
    }
    for k in 0..graph.nodes.len()
        invariant
            graph@.nodes.len() == graph.nodes@.len(),
            told_models(out@) == start + graph@.pinned_reports(above@, k as nat),
    {
        let node = &graph.nodes[k];
        proof {
            graph.lemma_view();
            assert(graph@.nodes[k as int] == node@);
        }
        let path = above.child(node.id.clone());
        let ghost first = told_models(out@);
        if node.pinned {
            report(node, path.clone(), out);
        }
        let ghost second = told_models(out@);
        if let Some(subplan) = &node.subplan {
            report_pinned(subplan, &path, out);
        }
        proof {
            let own = if node@.pinned {
                reported(node@, path@)
            } else {
                Seq::empty()
            };
            let inner = match node@.subplan {
                Some(g) => g.pinned_reports(path@, g.nodes.len()),
                None => Seq::empty(),
            };
            assert(second =~= first + own);
            assert(told_models(out@) =~= second + inner);
            assert(told_models(out@) =~= start + graph@.pinned_reports(above@, (k + 1) as nat));
        }
    }
}

/// What the steps leading into this one reported, plus anything pinned.
///
/// Pinned steps are included wherever they are in the plan, which is the whole
/// point of pinning: a decision taken early that everything after it depends on
/// should not fall out of view once it is no longer a direct predecessor.
fn incoming_summaries(graph: &ArchitectGraph, path: &NodePath, own: &NodeId) -> (res: Vec<Told>)
    requires
        path@.len() > 0,
        own@ == path@.last(),
        graph@.graph_at(path@.drop_last()) is Some,
    ensures
        told_models(res@) == graph@.told(path@),
{
    let mut reports: Vec<Told> = Vec::new();
    // Pinned first, so a standing decision is read before the detail of
    // whatever happened to run immediately before this step.
    report_pinned(graph, &NodePath::default(), &mut reports);
    let above = match path.parent() {
        Some(parent) => parent,
        None => NodePath::default(),
    };
    proof {
        assert(above@ =~= path@.drop_last());
    }
    let ghost pinned = told_models(reports@);
    if let Some(local) = graph.graph_at(&above) {
        let edges = local.edges_into(own);
        let ghost all = local@.edges_into(own@);
        proof {
            assert(edges@.map_values(|e: &crate::graph::ArchitectEdge| e@).len() == edges@.len());
            assert(pinned + local@.source_reports(above@, all.take(0)) =~= pinned);
        }
        for k in 0..edges.len()
            invariant
                all == edges@.map_values(|e: &crate::graph::ArchitectEdge| e@),
                told_models(reports@) == pinned + local@.source_reports(above@, all.take(k as int)),
        {
            let from = &edges[k].from;
            proof {
                assert(all.take(k + 1).drop_last() =~= all.take(k as int));
                assert(all.take(k + 1).last() == edges@[k as int]@);
            }
            let ghost before = told_models(reports@);
            if let Some(source) = local.node(from) {
                report(source, above.child(from.clone()), &mut reports);
            }
            proof {
                assert(told_models(reports@) =~= pinned + local@.source_reports(
                    above@,
                    all.take(k + 1),
                ));
            }
        }
        proof {
            assert(all.take(all.len() as int) =~= all);
        }
    }
    first_reports(reports, path)
}

/// The first report of each step, but for a step and those it lies inside.
fn first_reports(reports: Vec<Told>, own: &NodePath) -> (res: Vec<Told>)
    ensures
        told_models(res@) == told_of(told_models(reports@), own@),
{
    let ghost all = told_models(reports@);
    let mut out: Vec<Told> = Vec::new();
    proof {
        assert(told_models(out@) =~= told_of(all.take(0), own@));
    }
    let count: usize = reports.len();
    for k in 0..count
        invariant
            count == reports@.len(),
            all == told_models(reports@),
            told_models(out@) == told_of(all.take(k as int), own@),
    {
        let next = &reports[k];
        proof {
            assert(all.take(k + 1).drop_last() =~= all.take(k as int));
            assert(all.take(k + 1).last() == next.model());
        }
        let ghost told = told_models(out@);
        let mut seen = false;
        for j in 0..out.len()
            invariant
                told == told_models(out@),
                seen <==> exists|i: int| 0 <= i < j && (#[trigger] told[i]).path == next.path@,
        {
            proof {
                assert(told[j as int] == out@[j as int].model());
            }
            if out[j].path.same(&next.path) {
                seen = true;
            }
        }
        proof {
            assert(told.len() == out@.len());
            assert(seen == has_told(told, next.path@));
        }
        if !seen && !next.path.starts(own) {
            let ghost before = out@;
            out.push(
                Told {
                    path: next.path.clone(),
                    title: next.title.clone(),
                    summary: next.summary.clone(),
                },
            );
            proof {
                assert(told_models(out@) =~= told_models(before).push(next.model()));
            }
        }
    }
    proof {
        assert(all.take(all.len() as int) =~= all);
    }
    out
}

fn reports_text(told: &Vec<Told>) -> (res: String)
    ensures
        res@ == reports_part(told_models(told@)),
{
    let ghost all = told_models(told@);
    let ghost f = |t: ToldModel| "- "@ + t.title + ": "@ + t.summary + "\n"@;
    let ghost lines = all.map_values(f);
    if told.len() == 0 {
        return text::none();
    }
    let mut out = String::new();
    proof {
        assert(lines.take(0) =~= Seq::empty());
    }
    for k in 0..told.len()
        invariant
            all == told_models(told@),
            f == (|t: ToldModel| "- "@ + t.title + ": "@ + t.summary + "\n"@),
            lines == all.map_values(f),
            out@ == text::flat(lines.take(k as int)),
    {
        let line = text::cat5("- ", told[k].title.as_str(), ": ", told[k].summary.as_str(), "\n");
        out.append(line.as_str());
        proof {
            assert(all[k as int] == told@[k as int].model());
            assert(lines[k as int] == line@);
            assert(lines.take(k + 1) =~= lines.take(k as int).push(line@));
            text::lemma_flat_push(lines.take(k as int), line@);
        }
    }
    proof {
        assert(lines.take(lines.len() as int) =~= lines);
    }
    text::cat2("\nWhat earlier steps reported:\n", out.as_str())
}

fn inside_text(graph: &ArchitectGraph, path: &NodePath) -> (res: String)
    ensures
        res@ == inside_part(graph@, path@),
{
    let count: usize = path.0.len();
    if count <= 1 {
        return text::none();
    }
    let mut ancestry: Vec<String> = Vec::new();
    let ghost f = |j: int| graph@.step_title(path@.take(j + 1));
    let ghost all = Seq::new((path@.len() - 1) as nat, f);
    let mut within = NodePath::default();
    proof {
        assert(graph::texts(ancestry@) =~= all.take(0));
        assert(within@ =~= path@.take(0));
    }
    for k in 0..count - 1
        invariant
            count == path.0@.len(),
            count == path@.len(),
            count > 1,
            f == (|j: int| graph@.step_title(path@.take(j + 1))),
            all == Seq::new((path@.len() - 1) as nat, f),
            within@ == path@.take(k as int),
            graph::texts(ancestry@) == all.take(k as int),
    {
        within = within.child(path.0[k].clone());
        proof {
            assert(within@ =~= path@.take(k + 1));
        }
        let title = step_title(graph, &within);
        let ghost before = ancestry@;
        ancestry.push(title);
        proof {
            assert(all[k as int] == title@);
            assert(graph::texts(ancestry@) =~= graph::texts(before).push(title@));
            assert(all.take(k + 1) =~= all.take(k as int).push(title@));
        }
    }
    proof {
        assert(all.take(all.len() as int) =~= all);
    }
    text::cat3("You are inside: ", text::join(&ancestry, " › ").as_str(), ".\n\n")
}

fn again_text(node: &ArchitectNode, attempt: usize) -> (res: String)
    ensures
        res@ == again_part(node@, attempt as nat),
{
    match &node.result {
        Some(result) => if attempt > 1 {
            let before: usize = if result.attempt == 0 {
                1
            } else {
                result.attempt
            };
            text::cat5(
                "\nYou have been here before. On attempt ",
                text::number(before as u128).as_str(),
                ", you reported:\n",
                text::trim(result.summary.as_str()),
                "\n\nThat did not settle it, which is why you are back. Do not repeat what you already tried.\n",
            )
        } else {
            text::none()
        },
        None => text::none(),
    }
}

fn capture_text(capture: &str) -> (res: String)
    ensures
        res@ == capture_part(capture@),
{
    if text::blank(capture) {
        text::none()
    } else {
        text::cat3("\nCapture in your summary: ", text::trim(capture), "\n")
    }
}

/// The brief handed to the agent for one step.
///
/// Only this step is described, plus what the steps feeding into it reported.
/// The agent is not shown the rest of the plan: a model that can see step 4
/// tends to start on it while it is still meant to be doing step 3, and the
/// run, not the model, decides what comes next.
pub fn step_prompt(
    graph: &ArchitectGraph,
    path: &NodePath,
    step_number: usize,
    attempt: usize,
) -> (res: String)
    ensures
        res@ == brief(graph@, path@, step_number as nat, attempt as nat),
{
    let number = text::number(step_number as u128);
    match graph.node_at(path) {
        Some(node) => {
            let mut prompt = inside_text(graph, path);
            prompt.append(
                text::cat5("## Step ", number.as_str(), ": ", node.title.as_str(), "\n").as_str(),
            );
            proof {
                (graph@.graph_at(path@.drop_last())->0).lemma_node(path@.last());
            }
            let told = incoming_summaries(graph, path, &node.id);
            prompt.append(reports_text(&told).as_str());
            prompt.append(again_text(node, attempt).as_str());
            prompt.append(goal_text(node.intent.as_str()).as_str());
            prompt.append(
                rules_text("\nRules, which hold however you carry this out:\n", &node.rules).as_str(),
            );
            prompt.append(capture_text(node.capture.as_str()).as_str());
            prompt.append(
                "\nCarry out this step now, and only this step. Do not start any later step: what happens next is decided once this one is done. When it is finished, report what you did as your summary.\n",
            );
            prompt
        },
        None => text::cat3(
            "Step ",
            number.as_str(),
            " is missing from the plan; stop and say so.",
        ),
    }
}

/// The question that decides whether a branch is taken.
///
/// The answer is parsed from the reply, so the shape of the reply is not
/// optional; asking for the verdict first also stops a model reasoning its way
/// into an answer it would not have given up front.
pub fn branch_prompt(graph: &ArchitectGraph, branch: &Branch) -> (res: String)
    ensures
        res@ == question(graph@, branch@),
{
    let target = called(graph, &branch.to);
    let asked = match &branch.condition {
        EdgeCondition::Always => "Should the plan continue?".to_owned(),
        EdgeCondition::Deterministic { expression } => text::cat3(
            "Check whether this is true right now: ",
            expression.as_str(),
            "\n\nCheck it, rather than recalling what was true earlier.",
        ),
        EdgeCondition::LlmEvaluated { question } => text::cat2(
            "Answer this question: ",
            question.as_str(),
        ),
    };
    text::cat4(
        asked.as_str(),
        "\n\nAnswering YES means the plan moves on to \"",
        target.as_str(),
        "\". Reply with YES or NO on the first line by itself, then one sentence saying why.\n",
    )
}

proof fn lemma_told_of(reports: Seq<ToldModel>, own: Seq<Seq<char>>)
    ensures
        forall|i: int|
            0 <= i < told_of(reports, own).len() ==> {
                let entry = #[trigger] told_of(reports, own)[i];
                reports.contains(entry) && !entry.path.is_prefix_of(own)
            },
        forall|i: int, j: int|
            0 <= i < j < told_of(reports, own).len() ==> told_of(reports, own)[i].path
                != told_of(reports, own)[j].path,
        forall|i: int|
            #![trigger reports[i]]
            0 <= i < reports.len() && !reports[i].path.is_prefix_of(own) ==> has_told(
                told_of(reports, own),
                reports[i].path,
            ),
    decreases reports.len(),
{
    if reports.len() > 0 {
        let rest = reports.drop_last();
        lemma_told_of(rest, own);
        let before = told_of(rest, own);
        let after = told_of(reports, own);
        assert forall|i: int| 0 <= i < after.len() implies {
            let entry = #[trigger] after[i];
            reports.contains(entry) && !entry.path.is_prefix_of(own)
        } by {
            if i < before.len() {
                assert(after[i] == before[i]);
                let j = choose|j: int| 0 <= j < rest.len() && rest[j] == before[i];
                assert(reports[j] == before[i]);
            } else {
                assert(reports[reports.len() - 1] == after[i]);
            }
        }
        assert forall|i: int, j: int| 0 <= i < j < after.len() implies after[i].path
            != after[j].path by {
            assert(after[i] == before[i]);
            if j < before.len() {
                assert(after[j] == before[j]);
            }
        }
        assert forall|i: int|
            #![trigger reports[i]]
            0 <= i < reports.len() && !reports[i].path.is_prefix_of(own) implies has_told(
            after,
            reports[i].path,
        ) by {
            if i < rest.len() {
                assert(rest[i] == reports[i]);
                let j = choose|j: int|
                    0 <= j < before.len() && (#[trigger] before[j]).path == reports[i].path;
                assert(after[j] == before[j]);
            } else if !has_told(before, reports[i].path) {
                assert(after[before.len() as int].path == reports[i].path);
            } else {
                assert(after == before);
            }
        }
    }
}

proof fn lemma_first_told(reports: Seq<ToldModel>, own: Seq<Seq<char>>, m: int)
    requires
        0 <= m < reports.len(),
        !reports[m].path.is_prefix_of(own),
        forall|i: int| 0 <= i < m ==> (#[trigger] reports[i]).path != reports[m].path,
    ensures
        told_of(reports, own).contains(reports[m]),
    decreases reports.len(),
{
    let rest = reports.drop_last();
    let before = told_of(rest, own);
    let after = told_of(reports, own);
    if m < rest.len() {
        lemma_first_told(rest, own, m);
        let j = choose|j: int| 0 <= j < before.len() && before[j] == reports[m];
        assert(after[j] == reports[m]);
    } else {
        lemma_told_of(rest, own);
        if has_told(before, reports[m].path) {
            let j = choose|j: int|
                0 <= j < before.len() && (#[trigger] before[j]).path == reports[m].path;
            let i = choose|i: int| 0 <= i < rest.len() && rest[i] == before[j];
            assert(reports[i].path == reports[m].path);
        }
        assert(after[before.len() as int] == reports[m]);
    }
}

impl GraphModel {
    proof fn lemma_pinned_paths(self, above: Seq<Seq<char>>, k: nat)
        requires
            k <= self.nodes.len(),
        ensures
            forall|i: int|
                0 <= i < self.pinned_reports(above, k).len() ==> {
                    let path = (#[trigger] self.pinned_reports(above, k)[i]).path;
                    &&& path.len() > above.len()
                    &&& exists|j: int|
                        0 <= j < k && #[trigger] self.nodes[j].id == path[above.len() as int]
                },
        decreases self, k,
    {
        if k > 0 {
            let node = self.nodes[k - 1];
            let path = above.push(node.id);
            let rest = self.pinned_reports(above, (k - 1) as nat);
            let own = if node.pinned {
                reported(node, path)
            } else {
                Seq::empty()
            };
            self.lemma_pinned_paths(above, (k - 1) as nat);
            let inner = match node.subplan {
                Some(g) => g.pinned_reports(path, g.nodes.len()),
                None => Seq::empty(),
            };
            if let Some(g) = node.subplan {
                g.lemma_pinned_paths(path, g.nodes.len());
                g.lemma_pinned_above(path, g.nodes.len());
            }
            let all = self.pinned_reports(above, k);
            assert(all =~= rest + own + inner);
            assert forall|i: int| 0 <= i < all.len() implies {
                let path = (#[trigger] all[i]).path;
                &&& path.len() > above.len()
                &&& exists|j: int|
                    0 <= j < k && #[trigger] self.nodes[j].id == path[above.len() as int]
            } by {
                if i < rest.len() {
                    assert(all[i] == rest[i]);
                } else if i < rest.len() + own.len() {
                    assert(all[i] == own[i - rest.len()]);
                    assert(self.nodes[k - 1].id == all[i].path[above.len() as int]);
                } else {
                    let entry = inner[i - rest.len() - own.len()];
                    assert(all[i] == entry);
                    assert(path.is_prefix_of(entry.path));
                    assert(entry.path.subrange(0, path.len() as int)[above.len() as int]
                        == path[above.len() as int]);
                    assert(self.nodes[k - 1].id == all[i].path[above.len() as int]);
                }
            }
        }
    }

    proof fn lemma_pinned_above(self, above: Seq<Seq<char>>, k: nat)
        requires
            k <= self.nodes.len(),
        ensures
            forall|i: int|
                0 <= i < self.pinned_reports(above, k).len() ==> above.is_prefix_of(
                    (#[trigger] self.pinned_reports(above, k)[i]).path,
                ),
        decreases self, k,
    {
        if k > 0 {
            let node = self.nodes[k - 1];
            let path = above.push(node.id);
            let rest = self.pinned_reports(above, (k - 1) as nat);
            let own = if node.pinned {
                reported(node, path)
            } else {
                Seq::empty()
            };
            self.lemma_pinned_above(above, (k - 1) as nat);
            let inner = match node.subplan {
                Some(g) => g.pinned_reports(path, g.nodes.len()),
                None => Seq::empty(),
            };
            if let Some(g) = node.subplan {
                g.lemma_pinned_above(path, g.nodes.len());
            }
            let all = self.pinned_reports(above, k);
            assert(all =~= rest + own + inner);
            assert forall|i: int| 0 <= i < all.len() implies above.is_prefix_of(
                (#[trigger] all[i]).path,
            ) by {
                if i < rest.len() {
                    assert(all[i] == rest[i]);
                } else if i < rest.len() + own.len() {
                    assert(all[i] == own[i - rest.len()]);
                } else {
                    let entry = inner[i - rest.len() - own.len()];
                    assert(all[i] == entry);
                    assert(path.is_prefix_of(entry.path));
                    assert(above =~= path.subrange(0, above.len() as int));
                    assert(above =~= entry.path.subrange(0, path.len() as int).subrange(
                        0,
                        above.len() as int,
                    ));
                }
            }
        }
    }

    proof fn lemma_pinned_grows(self, above: Seq<Seq<char>>, k: nat, n: nat)
        requires
            k <= n <= self.nodes.len(),
        ensures
            self.pinned_reports(above, k).is_prefix_of(self.pinned_reports(above, n)),
        decreases n,
    {
        if k < n {
            self.lemma_pinned_grows(above, k, (n - 1) as nat);
        }
    }

    proof fn lemma_pinned_report(self, above: Seq<Seq<char>>, path: Seq<Seq<char>>) -> (m: int)
        requires
            self.node_at(path) is Some,
            self.node_at(path)->0.pinned,
            self.node_at(path)->0.handoff() is Some,
        ensures
            ({
                let all = self.pinned_reports(above, self.nodes.len());
                let node = self.node_at(path)->0;
                &&& 0 <= m < all.len()
                &&& all[m] == (ToldModel {
                    path: above + path,
                    title: node.title,
                    summary: node.handoff()->0,
                })
                &&& forall|i: int| 0 <= i < m ==> (#[trigger] all[i]).path != above + path
            }),
        decreases path.len(),
    {
        let first = path[0];
        self.lemma_node(first);
        if path.len() > 1 {
            assert(path.drop_last()[0] == first);
        } else {
            assert(path.drop_last() =~= Seq::empty());
        }
        let p = self.node_index(first)->0;
        let k = p as nat;
        let node = self.nodes[p];
        let here = above.push(node.id);
        let full = above + path;
        let rest = self.pinned_reports(above, k);
        let own = if node.pinned {
            reported(node, here)
        } else {
            Seq::empty()
        };
        let inner = match node.subplan {
            Some(g) => g.pinned_reports(here, g.nodes.len()),
            None => Seq::empty(),
        };
        let upto = self.pinned_reports(above, k + 1);
        let all = self.pinned_reports(above, self.nodes.len());
        assert(upto =~= rest + own + inner);
        self.lemma_pinned_grows(above, k + 1, self.nodes.len());
        self.lemma_pinned_paths(above, k);
        assert(forall|i: int| 0 <= i < upto.len() ==> all[i] == upto[i]) by {
            assert forall|i: int| 0 <= i < upto.len() implies all[i] == upto[i] by {
                assert(all.subrange(0, upto.len() as int)[i] == all[i]);
            }
        }
        assert forall|i: int| 0 <= i < rest.len() implies (#[trigger] rest[i]).path != full by {
            assert(full[above.len() as int] == first);
        }
        if path.len() == 1 {
            assert(here =~= full);
            let m = rest.len() as int;
            assert(own[0] == upto[m]);
            assert forall|i: int| 0 <= i < m implies (#[trigger] all[i]).path != full by {
                assert(upto[i] == rest[i]);
            }
            m
        } else {
            let tail = path.skip(1);
            assert(path.drop_last().skip(1) =~= tail.drop_last());
            assert(path.last() == tail.last());
            let g = node.subplan->0;
            assert(g.node_at(tail) == self.node_at(path));
            let j = g.lemma_pinned_report(here, tail);
            assert(here + tail =~= full);
            let m = rest.len() + own.len() + j;
            assert(upto[m] == inner[j]);
            assert forall|i: int| 0 <= i < m implies (#[trigger] all[i]).path != full by {
                if i < rest.len() {
                    assert(upto[i] == rest[i]);
                } else if i < rest.len() + own.len() {
                    assert(upto[i] == own[i - rest.len()]);
                    assert(here.len() < full.len());
                } else {
                    assert(upto[i] == inner[i - rest.len() - own.len()]);
                }
            }
            m
        }
    }

    proof fn lemma_source_reports(self, above: Seq<Seq<char>>, edges: Seq<EdgeModel>)
        ensures
            forall|i: int|
                #![trigger self.source_reports(above, edges)[i]]
                0 <= i < self.source_reports(above, edges).len() ==> exists|j: int|
                    0 <= j < edges.len() && self.reported_along(
                        above,
                        #[trigger] edges[j],
                        self.source_reports(above, edges)[i],
                    ),
            forall|j: int|
                #![trigger edges[j]]
                0 <= j < edges.len() && self.node(edges[j].from) is Some && self.node(
                    edges[j].from,
                )->0.handoff() is Some ==> exists|i: int|
                    0 <= i < self.source_reports(above, edges).len()
                        && (#[trigger] self.source_reports(above, edges)[i]).path == above.push(
                        edges[j].from,
                    ),
        decreases edges.len(),
    {
        if edges.len() > 0 {
            let rest = edges.drop_last();
            self.lemma_source_reports(above, rest);
            let before = self.source_reports(above, rest);
            let after = self.source_reports(above, edges);
            let from = edges.last().from;
            let last = match self.node(from) {
                Some(node) => reported(node, above.push(from)),
                None => Seq::empty(),
            };
            assert(after =~= before + last);
            assert forall|i: int| #![trigger after[i]] 0 <= i < after.len() implies exists|j: int|
                0 <= j < edges.len() && self.reported_along(above, #[trigger] edges[j], after[i]) by {
                if i < before.len() {
                    assert(after[i] == before[i]);
                    let j = choose|j: int|
                        0 <= j < rest.len() && self.reported_along(
                            above,
                            #[trigger] rest[j],
                            before[i],
                        );
                    assert(edges[j] == rest[j]);
                } else {
                    assert(after[i] == last[i - before.len()]);
                    assert(self.reported_along(above, edges[edges.len() - 1], after[i]));
                }
            }
            assert forall|j: int|
                #![trigger edges[j]]
                0 <= j < edges.len() && self.node(edges[j].from) is Some && self.node(
                    edges[j].from,
                )->0.handoff() is Some implies exists|i: int|
                0 <= i < after.len() && (#[trigger] after[i]).path == above.push(edges[j].from) by {
                if j < rest.len() {
                    assert(rest[j] == edges[j]);
                    let i = choose|i: int|
                        0 <= i < before.len() && (#[trigger] before[i]).path == above.push(
                            edges[j].from,
                        );
                    assert(after[i] == before[i]);
                } else {
                    assert(after[before.len() as int] == last[0]);
                }
            }
        }
    }
}

/// A pinned step that has something to hand on is told to every other step, wherever
/// the two are in the plan, but for the steps inside it.
pub proof fn law_pinned_steps_are_told_everywhere(
    plan: GraphModel,
    pinned: Seq<Seq<char>>,
    path: Seq<Seq<char>>,
)
    requires
        plan.node_at(path) is Some,
        plan.node_at(pinned) is Some,
        plan.node_at(pinned)->0.pinned,
        plan.node_at(pinned)->0.handoff() is Some,
        !pinned.is_prefix_of(path),
    ensures
        plan.told(path).contains(
            (ToldModel {
                path: pinned,
                title: plan.node_at(pinned)->0.title,
                summary: plan.node_at(pinned)->0.handoff()->0,
            }),
        ),
{
    let m = plan.lemma_pinned_report(Seq::empty(), pinned);
    assert(Seq::<Seq<char>>::empty() + pinned =~= pinned);
    let reports = plan.concerning(path);
    let first = plan.pinned_reports(Seq::empty(), plan.nodes.len());
    assert(forall|i: int| 0 <= i < first.len() ==> reports[i] == first[i]);
    lemma_first_told(reports, path, m);
}

/// A step that leads to another, and has something to hand on, is told to it.
pub proof fn law_steps_are_told_what_feeds_them(
    plan: GraphModel,
    path: Seq<Seq<char>>,
    edge: EdgeModel,
)
    requires
        plan.node_at(path) is Some,
        plan.graph_at(path.drop_last())->0.edges_into(path.last()).contains(edge),
        edge.from != path.last(),
        plan.node_at(path.drop_last().push(edge.from)) is Some,
        plan.node_at(path.drop_last().push(edge.from))->0.handoff() is Some,
    ensures
        has_told(plan.told(path), path.drop_last().push(edge.from)),
{
    let above = path.drop_last();
    let local = plan.graph_at(above)->0;
    let edges = local.edges_into(path.last());
    let source = above.push(edge.from);
    assert(source.drop_last() =~= above);
    local.lemma_source_reports(above, edges);
    let j = choose|j: int| 0 <= j < edges.len() && edges[j] == edge;
    assert(edges[j].from == edge.from);
    let fed = local.source_reports(above, edges);
    let i = choose|i: int| 0 <= i < fed.len() && (#[trigger] fed[i]).path == source;
    let first = plan.pinned_reports(Seq::empty(), plan.nodes.len());
    let reports = plan.concerning(path);
    assert(reports[first.len() + i] == fed[i]);
    if source.is_prefix_of(path) {
        assert(source[above.len() as int] == path.subrange(0, source.len() as int)[above.len() as int]);
    }
    lemma_told_of(reports, path);
}

/// Nothing else is told: what a step is told is what a pinned step reported, or one
/// that leads to it. No step is told of twice, and none of itself or of a step it lies
/// inside.
pub proof fn law_steps_are_told_nothing_else(plan: GraphModel, path: Seq<Seq<char>>, i: int)
    requires
        plan.node_at(path) is Some,
        0 <= i < plan.told(path).len(),
    ensures
        ({
            let entry = plan.told(path)[i];
            let above = path.drop_last();
            let local = plan.graph_at(above)->0;
            plan.pinned_reports(Seq::empty(), plan.nodes.len()).contains(entry) || exists|j: int|
                0 <= j < local.edges_into(path.last()).len() && local.reported_along(
                    above,
                    #[trigger] local.edges_into(path.last())[j],
                    entry,
                )
        }),
        !plan.told(path)[i].path.is_prefix_of(path),
        forall|j: int|
            0 <= j < plan.told(path).len() && j != i ==> (#[trigger] plan.told(path)[j]).path
                != plan.told(path)[i].path,
{
    let above = path.drop_last();
    let local = plan.graph_at(above)->0;
    let edges = local.edges_into(path.last());
    let reports = plan.concerning(path);
    let entry = plan.told(path)[i];
    lemma_told_of(reports, path);
    local.lemma_source_reports(above, edges);
    let first = plan.pinned_reports(Seq::empty(), plan.nodes.len());
    let fed = local.source_reports(above, edges);
    let j = choose|j: int| 0 <= j < reports.len() && reports[j] == entry;
    if j < first.len() {
        assert(first[j] == entry);
    } else {
        assert(fed[j - first.len()] == entry);
    }
}

proof fn lemma_told_matters(reports: Seq<ToldModel>, own: Seq<Seq<char>>)
    ensures
        told_of(reports, own) == told_of(
            reports.filter(|t: ToldModel| !t.path.is_prefix_of(own)),
            own,
        ),
    decreases reports.len(),
{
    reveal(Seq::filter);
    let p = |t: ToldModel| !t.path.is_prefix_of(own);
    if reports.len() > 0 {
        let rest = reports.drop_last();
        lemma_told_matters(rest, own);
        if p(reports.last()) {
            assert(reports.filter(p) == rest.filter(p).push(reports.last()));
            assert(reports.filter(p).drop_last() =~= rest.filter(p));
        }
    }
}

impl NodeModel {
    /// What the pinned steps inside a step reported.
    pub open spec fn pinned_inside(self, path: Seq<Seq<char>>) -> Seq<ToldModel> {
        match self.subplan {
            Some(g) => g.pinned_reports(path, g.nodes.len()),
            None => Seq::empty(),
        }
    }

    /// What a step adds to what pinned steps reported.
    spec fn pinned_part(self, above: Seq<Seq<char>>) -> Seq<ToldModel> {
        (if self.pinned {
            reported(self, above.push(self.id))
        } else {
            Seq::empty()
        }) + self.pinned_inside(above.push(self.id))
    }
}

impl GraphModel {
    proof fn lemma_one_changed(
        self,
        i: int,
        changed: NodeModel,
        above: Seq<Seq<char>>,
        k: nat,
        p: spec_fn(ToldModel) -> bool,
    )
        requires
            0 <= i < self.nodes.len(),
            k <= self.nodes.len(),
            changed.pinned_part(above).filter(p) == self.nodes[i].pinned_part(above).filter(p),
        ensures
            self.with_node(i, changed).pinned_reports(above, k).filter(p) == self.pinned_reports(
                above,
                k,
            ).filter(p),
        decreases k,
    {
        if k > 0 {
            let after = self.with_node(i, changed);
            self.lemma_one_changed(i, changed, above, (k - 1) as nat, p);
            let rest = self.pinned_reports(above, (k - 1) as nat);
            let rest_after = after.pinned_reports(above, (k - 1) as nat);
            let part = self.nodes[k - 1].pinned_part(above);
            let part_after = after.nodes[k - 1].pinned_part(above);
            assert(self.pinned_reports(above, k) =~= rest + part);
            assert(after.pinned_reports(above, k) =~= rest_after + part_after);
            Seq::filter_distributes_over_add(rest, part, p);
            Seq::filter_distributes_over_add(rest_after, part_after, p);
        }
    }

    proof fn lemma_pinned_elsewhere(
        self,
        above: Seq<Seq<char>>,
        parents: Seq<Seq<char>>,
        plan: GraphModel,
        own: Seq<Seq<char>>,
    )
        requires
            self.plan_at(parents) is Some,
            (above + parents).is_prefix_of(own),
            plan.pinned_reports(above + parents, plan.nodes.len()).filter(
                |t: ToldModel| !t.path.is_prefix_of(own),
            ) == (self.plan_at(parents)->0).pinned_reports(
                above + parents,
                (self.plan_at(parents)->0).nodes.len(),
            ).filter(|t: ToldModel| !t.path.is_prefix_of(own)),
        ensures
            self.with_plan_at(parents, plan).pinned_reports(
                above,
                self.with_plan_at(parents, plan).nodes.len(),
            ).filter(|t: ToldModel| !t.path.is_prefix_of(own)) == self.pinned_reports(
                above,
                self.nodes.len(),
            ).filter(|t: ToldModel| !t.path.is_prefix_of(own)),
        decreases parents.len(),
    {
        let p = |t: ToldModel| !t.path.is_prefix_of(own);
        if parents.len() == 0 {
            assert(above + parents =~= above);
        } else {
            self.lemma_node(parents[0]);
            let i = self.node_index(parents[0])->0;
            let node = self.nodes[i];
            let g = *node.subplan->0;
            let here = above.push(node.id);
            let rest = parents.skip(1);
            assert(here + rest =~= above + parents);
            g.lemma_pinned_elsewhere(here, rest, plan, own);
            let inner = g.with_plan_at(rest, plan);
            let changed = NodeModel { subplan: Some(Box::new(inner)), ..node };
            assert(here.is_prefix_of(own)) by {
                assert(here =~= (above + parents).subrange(0, here.len() as int));
                assert(here =~= own.subrange(0, here.len() as int));
            }
            let own_before = if node.pinned {
                reported(node, here)
            } else {
                Seq::empty()
            };
            let own_after = if node.pinned {
                reported(changed, here)
            } else {
                Seq::empty()
            };
            assert(own_before.filter(p) =~= Seq::empty()) by {
                reveal(Seq::filter);
                if own_before.len() > 0 {
                    assert(own_before.drop_last() =~= Seq::empty());
                }
            }
            assert(own_after.filter(p) =~= Seq::empty()) by {
                reveal(Seq::filter);
                if own_after.len() > 0 {
                    assert(own_after.drop_last() =~= Seq::empty());
                }
            }
            Seq::filter_distributes_over_add(own_before, node.pinned_inside(here), p);
            Seq::filter_distributes_over_add(own_after, changed.pinned_inside(here), p);
            self.lemma_one_changed(i, changed, above, self.nodes.len(), p);
        }
    }

    proof fn lemma_graph_put(self, path: Seq<Seq<char>>, plan: GraphModel)
        requires
            self.graph_at(path) is Some,
            plan.nodes.len() > 0,
        ensures
            self.plan_at(path) == self.graph_at(path),
            self.with_plan_at(path, plan).graph_at(path) == Some(plan),
            self.with_plan_at(path, plan).nodes.len() > 0,
        decreases path.len(),
    {
        if path.len() > 0 {
            self.lemma_node(path[0]);
            let i = self.node_index(path[0])->0;
            let g = *self.nodes[i].subplan->0;
            g.lemma_graph_put(path.skip(1), plan);
            let after = self.with_plan_at(path, plan);
            assert(after.is_index(path[0], i));
            after.lemma_index(path[0], i);
        }
    }

    proof fn lemma_title_kept(self, path: Seq<Seq<char>>, plan: GraphModel, m: int)
        requires
            self.graph_at(path) is Some,
            plan.nodes.len() > 0,
            1 <= m <= path.len(),
        ensures
            self.with_plan_at(path, plan).step_title(path.take(m)) == self.step_title(path.take(m)),
        decreases path.len(),
    {
        self.lemma_node(path[0]);
        let i = self.node_index(path[0])->0;
        let g = *self.nodes[i].subplan->0;
        let after = self.with_plan_at(path, plan);
        let rest = path.skip(1);
        g.lemma_graph_put(rest, plan);
        assert(after.is_index(path[0], i));
        after.lemma_index(path[0], i);
        let way = path.take(m);
        if m == 1 {
            assert(way.drop_last() =~= Seq::empty());
            assert(way.last() == path[0]);
        } else {
            g.lemma_title_kept(rest, plan, m - 1);
            let inner = rest.take(m - 1);
            assert(way.drop_last()[0] == path[0]);
            assert(way.drop_last().skip(1) =~= inner.drop_last());
            assert(way.last() == inner.last());
            let below = g.with_plan_at(rest, plan);
            assert(after.graph_at(way.drop_last()) == below.graph_at(inner.drop_last()));
            assert(self.graph_at(way.drop_last()) == g.graph_at(inner.drop_last()));
        }
    }

    proof fn lemma_other_node(self, i: int, changed: NodeModel, id: Seq<char>)
        requires
            0 <= i < self.nodes.len(),
            changed.id == self.nodes[i].id,
            id != changed.id,
        ensures
            self.with_node(i, changed).node(id) == self.node(id),
    {
        let after = self.with_node(i, changed);
        self.lemma_node(id);
        after.lemma_node(id);
        if let Some(k) = self.node_index(id) {
            assert(after.is_index(id, k)) by {
                assert forall|j: int| 0 <= j < k implies (#[trigger] after.nodes[j]).id != id by {
                    assert(self.nodes[j].id != id);
                }
            }
            after.lemma_index(id, k);
        } else if let Some(k) = after.node_index(id) {
            assert(self.nodes[k].id == id);
        }
    }

    proof fn lemma_other_sources(
        self,
        i: int,
        changed: NodeModel,
        above: Seq<Seq<char>>,
        edges: Seq<EdgeModel>,
    )
        requires
            0 <= i < self.nodes.len(),
            changed.id == self.nodes[i].id,
            forall|j: int| 0 <= j < edges.len() ==> (#[trigger] edges[j]).from != changed.id,
        ensures
            self.with_node(i, changed).source_reports(above, edges) == self.source_reports(
                above,
                edges,
            ),
        decreases edges.len(),
    {
        if edges.len() > 0 {
            assert(edges[edges.len() - 1].from != changed.id);
            self.lemma_other_node(i, changed, edges.last().from);
            self.lemma_other_sources(i, changed, above, edges.drop_last());
        }
    }
}

/// Nothing of an unrelated step reaches a brief, be it later or earlier in the plan: its
/// title, goal, rules, capture, summary and nested plan may change, and the brief of a
/// step that it does not lead to stays the same, unless it is pinned or a step inside it
/// is pinned and reported something.
pub proof fn law_unrelated_steps_leave_a_brief(
    plan: GraphModel,
    path: Seq<Seq<char>>,
    i: int,
    changed: NodeModel,
    number: nat,
    attempt: nat,
)
    requires
        plan.node_at(path) is Some,
        ({
            let local = plan.graph_at(path.drop_last())->0;
            let before = local.nodes[i];
            let there = path.drop_last().push(changed.id);
            &&& 0 <= i < local.nodes.len()
            &&& changed.id == before.id
            &&& changed.id != path.last()
            &&& !before.pinned
            &&& !changed.pinned
            &&& before.pinned_inside(there) == changed.pinned_inside(there)
            &&& forall|j: int|
                #![trigger local.edges[j]]
                0 <= j < local.edges.len() && local.edges[j].to == path.last()
                    ==> local.edges[j].from != changed.id
        }),
    ensures
        brief(
            plan.with_plan_at(
                path.drop_last(),
                (plan.graph_at(path.drop_last())->0).with_node(i, changed),
            ),
            path,
            number,
            attempt,
        ) == brief(plan, path, number, attempt),
{
    let parents = path.drop_last();
    let local = plan.graph_at(parents)->0;
    let after = local.with_node(i, changed);
    let other = plan.with_plan_at(parents, after);
    let p = |t: ToldModel| !t.path.is_prefix_of(path);
    plan.lemma_graph_put(parents, after);
    local.lemma_other_node(i, changed, path.last());
    local.lemma_one_changed(i, changed, parents, local.nodes.len(), p);
    let nothing = Seq::<Seq<char>>::empty();
    assert(nothing + parents =~= parents);
    assert(parents.is_prefix_of(path));
    plan.lemma_pinned_elsewhere(nothing, parents, after, path);
    let edges = local.edges_into(path.last());
    assert forall|j: int| 0 <= j < edges.len() implies (#[trigger] edges[j]).from != changed.id by {
        let k = crate::model::lemma_filter_source(
            local.edges,
            |e: EdgeModel| e.to == path.last(),
            j,
        );
        assert(local.edges[k].from != changed.id);
    }
    local.lemma_other_sources(i, changed, parents, edges);
    let first = plan.pinned_reports(nothing, plan.nodes.len());
    let first_after = other.pinned_reports(nothing, other.nodes.len());
    let fed = local.source_reports(parents, edges);
    Seq::filter_distributes_over_add(first, fed, p);
    Seq::filter_distributes_over_add(first_after, fed, p);
    lemma_told_matters(plan.concerning(path), path);
    lemma_told_matters(other.concerning(path), path);
    assert(other.told(path) == plan.told(path));
    if path.len() > 1 {
        let titles = Seq::new((path.len() - 1) as nat, |j: int| plan.step_title(path.take(j + 1)));
        let titles_after = Seq::new(
            (path.len() - 1) as nat,
            |j: int| other.step_title(path.take(j + 1)),
        );
        assert forall|j: int| 0 <= j < titles.len() implies titles[j] == titles_after[j] by {
            plan.lemma_title_kept(parents, after, j + 1);
            assert(parents.take(j + 1) =~= path.take(j + 1));
        }
        assert(titles =~= titles_after);
    }
}

proof fn lemma_told_in_turn(a: Seq<ToldModel>, b: Seq<ToldModel>, own: Seq<Seq<char>>)
    ensures
        ({
            let first = told_of(a, own);
            let all = told_of(a + b, own);
            &&& first.is_prefix_of(all)
            &&& forall|i: int|
                first.len() <= i < all.len() ==> b.contains(#[trigger] all[i]) && !has_told(
                    first,
                    all[i].path,
                )
        }),
    decreases b.len(),
{
    let first = told_of(a, own);
    let all = told_of(a + b, own);
    if b.len() == 0 {
        assert(a + b =~= a);
        assert(first =~= all.subrange(0, first.len() as int));
    } else {
        let rest = b.drop_last();
        lemma_told_in_turn(a, rest, own);
        let before = told_of(a + rest, own);
        assert((a + b).drop_last() =~= a + rest);
        assert((a + b).last() == b.last());
        assert(first =~= before.subrange(0, first.len() as int));
        assert forall|i: int| 0 <= i < before.len() implies #[trigger] all[i] == before[i] by {
        }
        assert(first =~= all.subrange(0, first.len() as int));
        assert forall|i: int| first.len() <= i < all.len() implies b.contains(#[trigger] all[i])
            && !has_told(first, all[i].path) by {
            if i < before.len() {
                assert(rest.contains(before[i]));
                let k = choose|k: int| 0 <= k < rest.len() && rest[k] == before[i];
                assert(b[k] == all[i]);
            } else {
                assert(b[b.len() - 1] == all[i]);
                if has_told(first, all[i].path) {
                    let k = choose|k: int|
                        0 <= k < first.len() && (#[trigger] first[k]).path == all[i].path;
                    assert(before[k] == first[k]);
                    assert(has_told(before, b.last().path));
                }
            }
        }
    }
}

/// What pinned steps reported is told first, and what the steps that lead to a step
/// reported after it, as far as it has not been told already.
pub proof fn law_pinned_steps_are_told_first(plan: GraphModel, path: Seq<Seq<char>>) -> (m: int)
    requires
        plan.node_at(path) is Some,
    ensures
        ({
            let told = plan.told(path);
            let above = path.drop_last();
            let local = plan.graph_at(above)->0;
            let pinned = plan.pinned_reports(Seq::empty(), plan.nodes.len());
            &&& 0 <= m <= told.len()
            &&& forall|i: int| 0 <= i < m ==> pinned.contains(#[trigger] told[i])
            &&& forall|i: int|
                #![trigger told[i]]
                m <= i < told.len() ==> exists|j: int|
                    0 <= j < local.edges_into(path.last()).len() && local.reported_along(
                        above,
                        #[trigger] local.edges_into(path.last())[j],
                        told[i],
                    )
        }),
{
    let above = path.drop_last();
    let local = plan.graph_at(above)->0;
    let edges = local.edges_into(path.last());
    let pinned = plan.pinned_reports(Seq::empty(), plan.nodes.len());
    let fed = local.source_reports(above, edges);
    let told = plan.told(path);
    let first = told_of(pinned, path);
    lemma_told_in_turn(pinned, fed, path);
    lemma_told_of(pinned, path);
    local.lemma_source_reports(above, edges);
    assert forall|i: int| 0 <= i < first.len() implies pinned.contains(#[trigger] told[i]) by {
        assert(told.subrange(0, first.len() as int)[i] == told[i]);
        assert(pinned.contains(first[i]));
    }
    assert forall|i: int| #![trigger told[i]] first.len() <= i < told.len() implies exists|j: int|
        0 <= j < edges.len() && local.reported_along(above, #[trigger] edges[j], told[i]) by {
        assert(fed.contains(told[i]));
        let k = choose|k: int| 0 <= k < fed.len() && fed[k] == told[i];
        assert(fed[k] == told[i]);
    }
    first.len() as int
}

} // verus!
