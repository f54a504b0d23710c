//! The bars above the canvas: which plan it is, how ready, and how its run goes.
use crate::graph::{self, ArchitectGraph, NodeId};
use crate::model::{GraphModel, NodeModel};
use crate::panel::{self, truncate, Glyph, Tone};
use crate::path::NodePath;
use crate::prompt;
use crate::run::{OutcomeModel, RunOutcome};
use crate::text;
use vstd::prelude::*;
use vstd::string::StringExecFns;

verus! {

/// One level on the way to the plan on screen.
pub struct Crumb {
    /// How deep the level is; the top-level plan is at zero.
    pub depth: usize,
    pub title: String,
}

/// One level on the way to the plan on screen.
#[verifier::ext_equal]
pub struct CrumbModel {
    pub depth: nat,
    pub title: Seq<char>,
}

impl View for Crumb {
    type V = CrumbModel;

    open spec fn view(&self) -> CrumbModel {
        CrumbModel { depth: self.depth as nat, title: self.title@ }
    }
}

/// What the step at a place of the trail is called: its title in short, or its id
/// where it is not there.
pub open spec fn crumb_title(root: Option<GraphModel>, focus: Seq<Seq<char>>, depth: int) -> Seq<
    char,
> {
    let id = focus[depth];
    match root {
        Some(plan) => match plan.graph_at(focus.take(depth)) {
            Some(local) => match local.node(id) {
                Some(node) => panel::shortened(node.title, 28),
                None => id,
            },
            None => id,
        },
        None => id,
    }
}

/// The trail of steps opened to reach the plan on screen; it begins with the plan
/// itself.
pub open spec fn trail(root: Option<GraphModel>, focus: Seq<Seq<char>>) -> Seq<CrumbModel> {
    Seq::new(
        focus.len() + 1,
        |i: int|
            if i == 0 {
                CrumbModel { depth: 0, title: "Plan"@ }
            } else {
                CrumbModel { depth: i as nat, title: crumb_title(root, focus, i - 1) }
            },
    )
}

/// The trail of steps opened to reach the plan on screen.
pub fn breadcrumb(root: Option<&ArchitectGraph>, focus: &NodePath) -> (res: Vec<Crumb>)
    ensures
        res@.map_values(|c: Crumb| c@) == trail(graph::plan_value(root), focus@),
{
    let ghost all = trail(graph::plan_value(root), focus@);
    let mut out: Vec<Crumb> = Vec::new();
    out.push(Crumb { depth: 0, title: "Plan".to_owned() });
    let mut above = NodePath(Vec::new());
    proof {
        assert(out@.map_values(|c: Crumb| c@) =~= all.take(1));
        assert(above@ =~= focus@.take(0));
    }
    for k in 0..focus.0.len()
        invariant
            all == trail(graph::plan_value(root), focus@),
            above@ == focus@.take(k as int),
            out@.map_values(|c: Crumb| c@) == all.take(k + 1),
    {
        let id = &focus.0[k];
        let mut title = id.0.clone();
        if let Some(plan) = root {
            if let Some(local) = plan.graph_at(&above) {
                if let Some(node) = local.node(id) {
                    title = truncate(node.title.as_str(), 28);
                }
            }
        }
        let ghost before = out@;
        let crumb = Crumb { depth: k + 1, title };
        let ghost added = crumb@;
        out.push(crumb);
        above.0.push(id.clone());
        proof {
            assert(focus@[k as int] == id@);
            assert(added == all[k + 1]);
            assert(out@.map_values(|c: Crumb| c@) =~= before.map_values(|c: Crumb| c@).push(added));
            assert(all.take(k + 2) =~= all.take(k + 1).push(added));
            assert(above@ =~= focus@.take(k + 1));
        }
    }
    proof {
        assert(all.take(all.len() as int) =~= all);
    }
    out
}

/// What says how deep the plan on screen is nested, where it is.
pub fn level_label(focus: &NodePath) -> (res: Option<String>)
    ensures
        match res {
            Some(label) => focus@.len() > 0 && label@ == "level "@ + text::decimal(
                focus@.len() + 1,
            ),
            None => focus@.len() == 0,
        },
{
    let depth: usize = focus.depth();
    if depth == 0 {
        None
    } else {
        Some(text::cat2("level ", text::number(depth as u128 + 1).as_str()))
    }
}

/// What the small map of the plan is called.
pub fn map_label(root: Option<&ArchitectGraph>, focus: &NodePath) -> (res: String)
    ensures
        res@ == (if focus@.len() == 0 {
            "plan"@
        } else {
            "level "@ + text::decimal(focus@.len() + 1) + " · "@ + panel::shortened(
                match root {
                    Some(plan) => plan@.step_title(focus@),
                    None => focus@.last(),
                },
                16,
            )
        }),
{
    let depth: usize = focus.depth();
    if depth == 0 {
        return "plan".to_owned();
    }
    let title = match root {
        Some(plan) => crate::runner::step_title(plan, focus),
        None => focus.0[depth - 1].0.clone(),
    };
    text::cat4(
        "level ",
        text::number(depth as u128 + 1).as_str(),
        " · ",
        truncate(title.as_str(), 16).as_str(),
    )
}

/// Whether the small map of a plan is worth drawing: the plan is large enough, and
/// something in it has a place.
pub fn shows_map(graph: &ArchitectGraph) -> (res: bool)
    ensures
        res == (graph@.nodes.len() >= 4 && exists|i: int|
            0 <= i < graph@.nodes.len() && (#[trigger] graph@.nodes[i]).position is Some),
{
    proof {
        graph.lemma_view();
    }
    if graph.nodes.len() < 4 {
        return false;
    }
    for k in 0..graph.nodes.len()
        invariant
            graph@.nodes.len() == graph.nodes@.len(),
            graph@.nodes.len() >= 4,
            forall|i: int| 0 <= i < k ==> (#[trigger] graph@.nodes[i]).position is None,
    {
        proof {
            graph.lemma_view();
            assert(graph@.nodes[k as int] == graph.nodes@[k as int]@);
        }
        if graph.nodes[k].position.is_some() {
            return true;
        }
    }
    false
}

/// How a run is going, as the conversation that owns the plan knows it.
pub struct RunProgress {
    pub outcome: Option<RunOutcome>,
    /// The step being carried out, while one is.
    pub current: Option<NodePath>,
    pub current_title: String,
    /// How many steps have been entered.
    pub step_number: usize,
    /// For each step entered so far, whether it is still being carried out.
    pub history: Vec<bool>,
    /// How long the steps took so far.
    pub elapsed_secs: u64,
}

/// How many steps contain a plan.
pub open spec fn nested_steps(plan: GraphModel) -> nat {
    plan.nodes.filter(|n: NodeModel| n.nested() is Some).len()
}

fn count_nested(graph: &ArchitectGraph) -> (res: usize)
    ensures
        res == nested_steps(graph@),
{
    let mut count: usize = 0;
    let ghost p = |n: NodeModel| n.nested() is Some;
    proof {
        reveal(Seq::filter);
    }
    for k in 0..graph.nodes.len()
        invariant
            p == (|n: NodeModel| n.nested() is Some),
            count <= k,
            count == graph@.nodes.take(k as int).filter(p).len(),
    {
        proof {
            graph.lemma_view();
            crate::model::lemma_filter_take(graph@.nodes, p, k as int);
            assert(graph@.nodes[k as int] == graph.nodes@[k as int]@);
        }
        if graph.nodes[k].has_subplan() {
            count += 1;
        }
    }
    proof {
        graph.lemma_view();
        assert(graph@.nodes.take(graph@.nodes.len() as int) =~= graph@.nodes);
    }
    count
}

/// What a plan consists of, in one line.
pub open spec fn plan_summary(plan: Option<GraphModel>) -> Seq<char> {
    match plan {
        None => "no steps yet"@,
        Some(p) => {
            let steps = p.nodes.len();
            let counted = if steps == 0 {
                "no steps yet"@
            } else if steps == 1 {
                "1 step"@
            } else {
                text::decimal(steps) + " steps"@
            };
            let nested = if nested_steps(p) > 0 {
                counted + (" · "@ + text::decimal(nested_steps(p)) + " nested"@)
            } else {
                counted
            };
            if steps == 0 {
                nested
            } else if p.locked_count() == steps {
                nested + " · all locked"@
            } else {
                nested + (" · "@ + text::decimal((steps - p.locked_count()) as nat)
                    + " still open"@)
            }
        },
    }
}

fn summary_text(plan: Option<&ArchitectGraph>) -> (res: String)
    ensures
        res@ == plan_summary(graph::plan_value(plan)),
{
    match plan {
        None => "no steps yet".to_owned(),
        Some(graph) => {
            let steps: usize = graph.nodes.len();
            proof {
                graph.lemma_view();
            }
            let mut out = if steps == 0 {
                "no steps yet".to_owned()
            } else if steps == 1 {
                "1 step".to_owned()
            } else {
                text::cat2(text::number(steps as u128).as_str(), " steps")
            };
            let nested: usize = count_nested(graph);
            if nested > 0 {
                out.append(
                    text::cat3(" · ", text::number(nested as u128).as_str(), " nested").as_str(),
                );
            }
            if steps > 0 {
                let locked: usize = graph.locked_count();
                if locked == steps {
                    out.append(" · all locked");
                } else {
                    out.append(
                        text::cat3(
                            " · ",
                            text::number((steps - locked) as u128).as_str(),
                            " still open",
                        ).as_str(),
                    );
                }
            }
            out
        },
    }
}

/// Whether the whole plan can be run: there are steps, every one of them is locked
/// at every depth, and nothing is wrong with it.
pub open spec fn ready(root: Option<GraphModel>) -> bool {
    root matches Some(plan) && plan.fully_locked_deeply() && plan.blocking().len() == 0
}

/// Whether something is in the way of running the whole plan.
pub open spec fn blocked(root: Option<GraphModel>) -> bool {
    root matches Some(plan) && plan.blocking().len() > 0
}

/// What the run button says when pointed at.
pub open spec fn run_hint(root: Option<GraphModel>, steps: nat) -> Seq<char> {
    if ready(root) {
        "Run the plan, one step at a time"@
    } else if steps == 0 {
        "There is no plan yet"@
    } else if blocked(root) {
        "Fix the problems with the plan first"@
    } else {
        "Lock every step first"@
    }
}

/// How ready a plan is, in a word or two.
pub open spec fn readiness_word(running: bool, root: Option<GraphModel>, steps: nat) -> Seq<char> {
    if running {
        "Running"@
    } else if ready(root) {
        "Ready to run"@
    } else if steps == 0 {
        "Waiting for a plan"@
    } else {
        "Needs review"@
    }
}

/// How a run is going or how it ended, in a line.
pub open spec fn run_line(root: Option<GraphModel>, run: RunProgress) -> Option<Seq<char>> {
    match run.outcome {
        Some(outcome) => match root {
            Some(plan) => Some(prompt::ending(plan, outcome@)),
            None => None,
        },
        None => Some(
            "Step "@ + text::decimal(run.step_number as nat) + " of "@ + text::decimal(
                deep_count(root),
            ) + " · "@ + run.current_title@,
        ),
    }
}

/// How many steps a run may have to carry out.
pub open spec fn deep_count(root: Option<GraphModel>) -> nat {
    match root {
        Some(plan) => panel::capped(plan.steps_deeply(plan.nodes.len())),
        None => 0,
    }
}

/// What the bar above the canvas says.
pub struct PlanHeader {
    pub title: String,
    pub readiness: String,
    pub tone: Tone,
    pub glyph: Glyph,
    /// What the plan on screen consists of.
    pub summary: String,
    /// The line below the title, where there is room for one.
    pub line: String,
    pub run_hint: String,
    pub can_run: bool,
    /// Whether there is anything to review.
    pub can_review: bool,
    /// How the run is going: in short, and in full.
    pub run_status: Option<(String, String)>,
}

fn is_ready(root: Option<&ArchitectGraph>) -> (res: bool)
    ensures
        res == ready(graph::plan_value(root)),
{
    match root {
        Some(plan) => {
            let problems = plan.blocking_problems();
            proof {
                assert(crate::problems::problem_models(problems@).len() == problems@.len());
            }
            plan.is_fully_locked_deeply() && problems.len() == 0
        },
        None => false,
    }
}

fn is_blocked(root: Option<&ArchitectGraph>) -> (res: bool)
    ensures
        res == blocked(graph::plan_value(root)),
{
    match root {
        Some(plan) => {
            let problems = plan.blocking_problems();
            proof {
                assert(crate::problems::problem_models(problems@).len() == problems@.len());
            }
            problems.len() > 0
        },
        None => false,
    }
}

fn count_deeply(root: Option<&ArchitectGraph>) -> (res: usize)
    ensures
        res as nat == deep_count(graph::plan_value(root)),
{
    match root {
        Some(plan) => plan.step_count_deeply(),
        None => 0,
    }
}

fn run_text(root: Option<&ArchitectGraph>, run: &RunProgress) -> (res: Option<String>)
    ensures
        match res {
            Some(line) => run_line(graph::plan_value(root), *run) == Some(line@),
            None => run_line(graph::plan_value(root), *run) is None,
        },
{
    match &run.outcome {
        Some(outcome) => match root {
            Some(plan) => Some(outcome.describe(plan)),
            None => None,
        },
        None => {
            let total: usize = count_deeply(root);
            let mut line = text::cat5(
                "Step ",
                text::number(run.step_number as u128).as_str(),
                " of ",
                text::number(total as u128).as_str(),
                " · ",
            );
            line.append(run.current_title.as_str());
            Some(line)
        },
    }
}

/// Works out what the bar above the canvas says. Readiness is a property of the
/// whole plan, not of the level on screen: a run started from inside a sub-plan
/// still runs everything.
pub fn plan_header(
    root: Option<&ArchitectGraph>,
    shown: Option<&ArchitectGraph>,
    title: Option<&String>,
    running: bool,
    run: Option<&RunProgress>,
) -> (res: PlanHeader)
    ensures
        ({
            let plan = graph::plan_value(root);
            let steps = match shown {
                Some(graph) => graph@.nodes.len(),
                None => 0,
            };
            &&& res.title@ == (match title {
                Some(t) => t@,
                None => "Untitled plan"@,
            })
            &&& res.readiness@ == readiness_word(running, plan, steps)
            &&& res.tone == (if running {
                Tone::Info
            } else if ready(plan) {
                Tone::Success
            } else {
                Tone::Warning
            })
            &&& res.glyph == (if running {
                Glyph::Play
            } else if ready(plan) {
                Glyph::Check
            } else {
                Glyph::Warning
            })
            &&& res.summary@ == plan_summary(graph::plan_value(shown))
            &&& res.line@ == plan_summary(graph::plan_value(shown)) + " · live workspace state"@
            &&& res.run_hint@ == run_hint(plan, steps)
            &&& res.can_run == ready(plan)
            &&& res.can_review == (steps > 0)
            &&& match res.run_status {
                Some((short, full)) => run matches Some(r) && run_line(plan, *r) == Some(full@)
                    && short@ == panel::shortened(full@, 34),
                None => match run {
                    Some(r) => run_line(plan, *r) is None,
                    None => true,
                },
            }
        }),
{
    let steps: usize = match shown {
        Some(graph) => graph.nodes.len(),
        None => 0,
    };
    proof {
        if let Some(graph) = shown {
            graph.lemma_view();
        }
    }
    let can_run = is_ready(root);
    let run_hint = if can_run {
        "Run the plan, one step at a time"
    } else if steps == 0 {
        "There is no plan yet"
    } else if is_blocked(root) {
        "Fix the problems with the plan first"
    } else {
        "Lock every step first"
    };
    let readiness = if running {
        "Running"
    } else if can_run {
        "Ready to run"
    } else if steps == 0 {
        "Waiting for a plan"
    } else {
        "Needs review"
    };
    let run_status = match run {
        Some(r) => match run_text(root, r) {
            Some(full) => Some((truncate(full.as_str(), 34), full)),
            None => None,
        },
        None => None,
    };
    PlanHeader {
        title: match title {
            Some(t) => t.clone(),
            None => "Untitled plan".to_owned(),
        },
        readiness: readiness.to_owned(),
        tone: if running {
            Tone::Info
        } else if can_run {
            Tone::Success
        } else {
            Tone::Warning
        },
        glyph: if running {
            Glyph::Play
        } else if can_run {
            Glyph::Check
        } else {
            Glyph::Warning
        },
        line: text::cat2(summary_text(shown).as_str(), " · live workspace state"),
        summary: summary_text(shown),
        run_hint: run_hint.to_owned(),
        can_run,
        can_review: steps > 0,
        run_status,
    }
}

/// What the command bar of the canvas offers: nothing is edited while a run is in
/// progress, and there is nothing to search in a plan without steps.
pub struct CommandBar {
    /// Whether the outline, which has no room of its own, is opened from here.
    pub opens_outline: bool,
    /// Whether the commands are spelled out rather than pictures only.
    pub labelled: bool,
    pub can_search: bool,
    pub search_hint: String,
    pub can_tidy: bool,
    pub can_add_step: bool,
}

/// Works out what the command bar of the canvas offers. `compact` says that there is
/// little room.
pub fn command_bar(shown: Option<&ArchitectGraph>, running: bool, compact: bool) -> (res: CommandBar)
    ensures
        res.opens_outline == compact,
        res.labelled == !compact,
        res.can_search == (graph::plan_value(shown) matches Some(plan) && plan.nodes.len() > 0),
        res.search_hint@ == (if compact {
            "Search plan steps"@
        } else {
            "Open the ordered plan navigator to find a step"@
        }),
        res.can_tidy == !running,
        res.can_add_step == !running,
{
    let can_search = match shown {
        Some(plan) => !plan.is_empty(),
        None => false,
    };
    CommandBar {
        opens_outline: compact,
        labelled: !compact,
        can_search,
        search_hint: if compact {
            "Search plan steps".to_owned()
        } else {
            "Open the ordered plan navigator to find a step".to_owned()
        },
        can_tidy: !running,
        can_add_step: !running,
    }
}

/// How many of some steps are no longer being carried out.
pub open spec fn finished_steps(history: Seq<bool>) -> nat {
    history.filter(|running: bool| !running).len()
}

/// What the bar says that shows how a run is going.
pub struct RunBar {
    pub status: String,
    pub tone: Tone,
    pub glyph: Glyph,
    /// How much of the run is done: this many parts of `total`.
    pub done: usize,
    pub total: usize,
    pub counter: String,
}

/// Works out what the bar says that shows how a run is going.
pub fn run_bar(root: Option<&ArchitectGraph>, run: &RunProgress) -> (res: RunBar)
    ensures
        ({
            let plan = graph::plan_value(root);
            let outcome = run.outcome;
            let succeeded = outcome matches Some(o) && o@ == OutcomeModel::Completed;
            let cancelled = outcome matches Some(o) && o@ == OutcomeModel::Cancelled;
            let failed = outcome is Some && !succeeded && !cancelled;
            let finished = finished_steps(run.history@);
            &&& res.total as nat == (if deep_count(plan) == 0 {
                1
            } else {
                deep_count(plan)
            })
            &&& res.done as nat == (if finished < res.total {
                finished
            } else {
                res.total as nat
            })
            &&& res.status@ == (match outcome {
                Some(o) => match plan {
                    Some(p) => prompt::ending(p, o@),
                    None => "Run finished"@,
                },
                None => "Running "@ + run.current_title@,
            })
            &&& res.tone == (if failed {
                Tone::Error
            } else if cancelled {
                Tone::Warning
            } else if succeeded {
                Tone::Success
            } else {
                Tone::Info
            })
            &&& res.glyph == (if outcome is None {
                Glyph::Play
            } else if succeeded {
                Glyph::Check
            } else {
                Glyph::Warning
            })
            &&& res.counter@ == text::decimal(res.done as nat) + " of "@ + text::decimal(
                res.total as nat,
            ) + " · "@ + text::decimal(run.elapsed_secs as nat) + "s"@
        }),
{
    let counted: usize = count_deeply(root);
    let total: usize = if counted == 0 {
        1
    } else {
        counted
    };
    let ghost p = |running: bool| !running;
    let mut finished: usize = 0;
    proof {
        reveal(Seq::filter);
    }
    for k in 0..run.history.len()
        invariant
            p == (|running: bool| !running),
            finished <= k,
            finished == run.history@.take(k as int).filter(p).len(),
    {
        proof {
            crate::model::lemma_filter_take(run.history@, p, k as int);
        }
        if !run.history[k] {
            finished += 1;
        }
    }
    proof {
        assert(run.history@.take(run.history@.len() as int) =~= run.history@);
    }
    let done: usize = if finished < total {
        finished
    } else {
        total
    };
    let mut succeeded = false;
    let mut cancelled = false;
    let status = match &run.outcome {
        Some(outcome) => {
            succeeded = outcome.is_success();
            cancelled = matches!(outcome, RunOutcome::Cancelled);
            match root {
                Some(plan) => outcome.describe(plan),
                None => "Run finished".to_owned(),
            }
        },
        None => text::cat2("Running ", run.current_title.as_str()),
    };
    let failed = run.outcome.is_some() && !succeeded && !cancelled;
    let mut counter = text::cat5(
        text::number(done as u128).as_str(),
        " of ",
        text::number(total as u128).as_str(),
        " · ",
        text::number(run.elapsed_secs as u128).as_str(),
    );
    counter.append("s");
    RunBar {
        status,
        tone: if failed {
            Tone::Error
        } else if cancelled {
            Tone::Warning
        } else if succeeded {
            Tone::Success
        } else {
            Tone::Info
        },
        glyph: if run.outcome.is_none() {
            Glyph::Play
        } else if succeeded {
            Glyph::Check
        } else {
            Glyph::Warning
        },
        done,
        total,
        counter,
    }
}

/// The step a run is carrying out, if it is. Only the leaf matters for highlighting,
/// since the canvas shows one level at a time.
pub fn running_node(run: Option<&RunProgress>) -> (res: Option<NodeId>)
    ensures
        match res {
            Some(id) => run matches Some(r) && (r.current matches Some(path) && path@.len() > 0
                && id@ == path@.last()),
            None => match run {
                Some(r) => match r.current {
                    Some(path) => path@.len() == 0,
                    None => true,
                },
                None => true,
            },
        },
{
    match run {
        Some(r) => match &r.current {
            Some(path) => match path.leaf() {
                Some(id) => Some(id.clone()),
                None => None,
            },
            None => None,
        },
        None => None,
    }
}

/// The step a run was stopped at, where it was stopped at one.
pub fn failed_node(run: Option<&RunProgress>) -> (res: Option<NodeId>)
    ensures
        match res {
            Some(id) => run matches Some(r) && (r.outcome matches Some(o) && stopped_at(o@) == Some(
                id@,
            )),
            None => match run {
                Some(r) => match r.outcome {
                    Some(o) => stopped_at(o@) is None,
                    None => true,
                },
                None => true,
            },
        },
{
    match run {
        Some(r) => match &r.outcome {
            Some(RunOutcome::NodeLimit { node, visits }) => Some(node.clone()),
            Some(RunOutcome::DepthLimit { node }) => Some(node.clone()),
            _ => None,
        },
        None => None,
    }
}

/// The step a run was stopped at, where it was stopped at one.
pub open spec fn stopped_at(outcome: OutcomeModel) -> Option<Seq<char>> {
    match outcome {
        OutcomeModel::NodeLimit { node, visits } => Some(node),
        OutcomeModel::DepthLimit { node } => Some(node),
        _ => None,
    }
}

/// The canvas calls a plan ready exactly when a run would start on it: it has steps
/// and nothing is in the way.
pub proof fn law_ready_plans_are_those_that_start(plan: GraphModel)
    ensures
        ready(Some(plan)) <==> plan.nodes.len() > 0 && plan.blocking().len() == 0,
{
    if plan.nodes.len() > 0 && plan.blocking().len() == 0 {
        plan.law_nothing_blocking_means_settled();
    }
}

/// The line about a plan says how many steps it has, and, where it has any, that all of
/// them are locked just where they are, and otherwise how many are still open.
pub proof fn law_summaries_count_what_is_open(plan: GraphModel)
    requires
        plan.nodes.len() > 1,
    ensures
        ({
            let said = plan_summary(Some(plan));
            let open = plan.nodes.filter(|n: NodeModel| !n.locked).len();
            &&& (text::decimal(plan.nodes.len()) + " steps"@).is_prefix_of(said)
            &&& open == 0 ==> " · all locked"@.is_suffix_of(said)
            &&& open > 0 ==> (" · "@ + text::decimal(open) + " still open"@).is_suffix_of(said)
        }),
{
    let locked = |n: NodeModel| n.locked;
    let free = |n: NodeModel| !n.locked;
    lemma_counted_apart(plan.nodes, locked, free);
    let said = plan_summary(Some(plan));
    let open = plan.nodes.filter(free).len();
    let start = text::decimal(plan.nodes.len()) + " steps"@;
    assert(start =~= said.subrange(0, start.len() as int));
    let end = if open == 0 {
        " · all locked"@
    } else {
        " · "@ + text::decimal(open) + " still open"@
    };
    assert(end =~= said.subrange(said.len() - end.len(), said.len() as int));
}

proof fn lemma_counted_apart(
    nodes: Seq<NodeModel>,
    p: spec_fn(NodeModel) -> bool,
    q: spec_fn(NodeModel) -> bool,
)
    requires
        forall|n: NodeModel| #[trigger] p(n) != q(n),
    ensures
        nodes.filter(p).len() + nodes.filter(q).len() == nodes.len(),
    decreases nodes.len(),
{
    reveal(Seq::filter);
    if nodes.len() > 0 {
        lemma_counted_apart(nodes.drop_last(), p, q);
        assert(p(nodes.last()) != q(nodes.last()));
    }
}

} // verus!
