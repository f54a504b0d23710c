//! The outline beside the canvas: the steps of a plan in the order they run.
use crate::canvas::{self, problem_selection, Selection, SelectionModel};
use crate::cards::{self, given_or};
use crate::graph::{self, ArchitectGraph, ArchitectNode, NodeId};
use crate::model::{GraphModel, NodeModel};
use crate::panel::{self, contains, names, padded, reported, to_lower, truncate, Glyph, Tone};
use crate::problems::{self, ProblemModel};
use crate::text;
use vstd::prelude::*;
use vstd::string::StringExecFns;

verus! {

/// What the outline depends on besides the plan.
pub struct OutlineContext {
    /// What is typed into the search field.
    pub search: String,
    pub selection: Option<Selection>,
    pub running: Option<NodeId>,
    pub run_active: bool,
    pub failed: Option<NodeId>,
}

/// A row of the outline.
pub struct OutlineRow {
    pub id: NodeId,
    pub number: String,
    pub title: String,
    pub responsibility: String,
    pub state: String,
    pub tone: Tone,
    pub selected: bool,
}

/// A row of the outline.
#[verifier::ext_equal]
pub struct RowModel {
    pub id: Seq<char>,
    pub number: Seq<char>,
    pub title: Seq<char>,
    pub responsibility: Seq<char>,
    pub state: Seq<char>,
    pub tone: Tone,
    pub selected: bool,
}

impl View for OutlineRow {
    type V = RowModel;

    open spec fn view(&self) -> RowModel {
        RowModel {
            id: self.id@,
            number: self.number@,
            title: self.title@,
            responsibility: self.responsibility@,
            state: self.state@,
            tone: self.tone,
            selected: self.selected,
        }
    }
}

/// A problem of the outline: a short text, the whole of it, and what it is about.
pub struct ProblemRow {
    pub label: String,
    pub hint: String,
    pub selection: Selection,
}

/// A problem of the outline.
#[verifier::ext_equal]
pub struct ProblemRowModel {
    pub label: Seq<char>,
    pub hint: Seq<char>,
    pub selection: SelectionModel,
}

impl View for ProblemRow {
    type V = ProblemRowModel;

    open spec fn view(&self) -> ProblemRowModel {
        ProblemRowModel {
            label: self.label@,
            hint: self.hint@,
            selection: self.selection@,
        }
    }
}

/// How a problem reads in the outline.
pub open spec fn problem_row(problem: ProblemModel) -> ProblemRowModel {
    ProblemRowModel {
        label: panel::shortened(problem.sentence(), 42),
        hint: problem.sentence(),
        selection: canvas::about(problem),
    }
}

/// What is searched for: nothing, where the field is blank.
pub open spec fn query(search: Seq<char>) -> Seq<char> {
    panel::lowercased(text::trimmed(search))
}

/// Whether a step is found. The texts are its title, what it is responsible for and
/// its goal, in lower case.
pub open spec fn found(
    query: Seq<char>,
    title: Seq<char>,
    responsibility: Seq<char>,
    goal: Seq<char>,
) -> bool {
    ||| query.len() == 0
    ||| panel::occurs(title, query)
    ||| panel::occurs(responsibility, query)
    ||| panel::occurs(goal, query)
}

/// Tells whether a step is found.
pub fn matches_query(query: &str, title: &str, responsibility: &str, goal: &str) -> (res: bool)
    ensures
        res == found(query@, title@, responsibility@, goal@),
{
    query.unicode_len() == 0 || contains(title, query) || contains(responsibility, query)
        || contains(goal, query)
}

/// The word for the state of a step in the outline, and its colour.
pub open spec fn row_state(node: NodeModel, running: bool, failed: bool, run_active: bool) -> (
    Seq<char>,
    Tone,
) {
    if running {
        ("running"@, Tone::Info)
    } else if failed {
        ("failed"@, Tone::Error)
    } else if panel::has_report(node) {
        ("completed"@, Tone::Success)
    } else if node.locked {
        ("settled"@, Tone::Success)
    } else if run_active {
        ("queued"@, Tone::Muted)
    } else {
        ("draft"@, Tone::Muted)
    }
}

/// How a step reads in the outline.
pub open spec fn row(
    node: NodeModel,
    number: nat,
    responsibility: Seq<char>,
    context: OutlineContext,
) -> RowModel {
    let state = row_state(
        node,
        panel::is_id(context.running, node.id),
        panel::is_id(context.failed, node.id),
        context.run_active,
    );
    RowModel {
        id: node.id,
        number: panel::two_digits(number),
        title: node.title,
        responsibility: cards::or_else(responsibility, "Responsibility not set"@),
        state: state.0,
        tone: state.1,
        selected: canvas::selection_value(context.selection) == Some(SelectionModel::Node(node.id)),
    }
}

impl GraphModel {
    /// The place in the plan of the step that runs in the `p`-th place: the first
    /// with its id.
    pub open spec fn listed_at(self, p: int) -> int {
        self.node_index(self.order_ids()[p])->0
    }

    /// Whether the step that runs in the `p`-th place is found.
    pub open spec fn found_at(self, duties: Seq<Seq<char>>, query: Seq<char>, p: int) -> bool {
        let ix = self.listed_at(p);
        found(
            query,
            panel::lowercased(self.nodes[ix].title),
            panel::lowercased(cards::text_at(duties, ix)),
            panel::lowercased(self.nodes[ix].intent),
        )
    }

    /// The rows of the first `k` steps in the order they run. Rows are numbered as
    /// they are shown.
    pub open spec fn rows(self, duties: Seq<Seq<char>>, context: OutlineContext, k: int) -> Seq<
        RowModel,
    >
        decreases k,
    {
        if k <= 0 {
            Seq::empty()
        } else {
            let rest = self.rows(duties, context, k - 1);
            if self.found_at(duties, query(context.search@), k - 1) {
                let ix = self.listed_at(k - 1);
                rest.push(
                    row(self.nodes[ix], rest.len() + 1, cards::text_at(duties, ix), context),
                )
            } else {
                rest
            }
        }
    }

    /// How many of the first `k` steps, in the order they run, are locked.
    pub open spec fn settled(self, k: int) -> nat
        decreases k,
    {
        if k <= 0 {
            0
        } else if self.nodes[self.listed_at(k - 1)].locked {
            self.settled(k - 1) + 1
        } else {
            self.settled(k - 1)
        }
    }

    /// How many of the first `k` steps, in the order they run, have reported
    /// something.
    pub open spec fn completed(self, k: int) -> nat
        decreases k,
    {
        if k <= 0 {
            0
        } else if panel::has_report(self.nodes[self.listed_at(k - 1)]) {
            self.completed(k - 1) + 1
        } else {
            self.completed(k - 1)
        }
    }

    /// Whether the outline calls a plan ready.
    pub open spec fn looks_ready(self) -> bool {
        self.nodes.len() > 0 && self.blocking().len() == 0
    }
}

/// What the outline shows.
pub struct PlanOutline {
    pub readiness: String,
    pub glyph: Glyph,
    pub tone: Tone,
    pub settled: String,
    pub draft: String,
    pub complete: String,
    pub problems: Vec<ProblemRow>,
    /// The steps that lead somewhere without saying what they hand on.
    pub handoffs: Vec<NodeId>,
    pub handoff_label: String,
    /// What is said where nothing is found.
    pub nothing_found: Option<String>,
    pub rows: Vec<OutlineRow>,
}

/// An outline of a plan.
pub open spec fn outlines(
    outline: PlanOutline,
    plan: GraphModel,
    duties: Seq<Seq<char>>,
    context: OutlineContext,
) -> bool {
    let n = plan.order().len() as int;
    &&& outline.readiness@ == (if plan.looks_ready() {
        "Ready"@
    } else {
        "Review"@
    })
    &&& outline.glyph == (if plan.looks_ready() {
        Glyph::Check
    } else {
        Glyph::Warning
    })
    &&& outline.tone == (if plan.looks_ready() {
        Tone::Success
    } else {
        Tone::Warning
    })
    &&& outline.settled@ == text::decimal(plan.settled(n)) + " settled"@
    &&& outline.draft@ == text::decimal((n - plan.settled(n)) as nat) + " draft"@
    &&& outline.complete@ == text::decimal(plan.completed(n)) + " complete"@
    &&& outline.problems@.map_values(|r: ProblemRow| r@) == plan.blocking().map_values(
        |p: ProblemModel| problem_row(p),
    )
    &&& graph::ids(outline.handoffs@) == plan.without_capture().map_values(|n: NodeModel| n.id)
    &&& outline.handoff_label@ == "Add a handoff summary"@
    &&& outline.rows@.map_values(|r: OutlineRow| r@) == plan.rows(duties, context, n)
    &&& match outline.nothing_found {
        Some(said) => {
            &&& said@ == "No steps match this search."@
            &&& query(context.search@).len() > 0
            &&& plan.rows(duties, context, n).len() == 0
        },
        None => query(context.search@).len() == 0 || plan.rows(duties, context, n).len() > 0,
    }
}

fn outline_row(
    node: &ArchitectNode,
    number: u128,
    responsibility: &str,
    context: &OutlineContext,
) -> (res: OutlineRow)
    ensures
        res@ == row(node@, number as nat, responsibility@, *context),
{
    let (state, tone) = if names(&context.running, &node.id) {
        ("running", Tone::Info)
    } else if names(&context.failed, &node.id) {
        ("failed", Tone::Error)
    } else if reported(node) {
        ("completed", Tone::Success)
    } else if node.locked {
        ("settled", Tone::Success)
    } else if context.run_active {
        ("queued", Tone::Muted)
    } else {
        ("draft", Tone::Muted)
    };
    OutlineRow {
        id: node.id.clone(),
        number: padded(number),
        title: node.title.clone(),
        responsibility: given_or(responsibility, "Responsibility not set"),
        state: state.to_owned(),
        tone,
        selected: match &context.selection {
            Some(Selection::Node(id)) => id.same(&node.id),
            _ => false,
        },
    }
}

fn problem_rows(graph: &ArchitectGraph) -> (res: Vec<ProblemRow>)
    ensures
        res@.map_values(|r: ProblemRow| r@) == graph@.blocking().map_values(
            |p: ProblemModel| problem_row(p),
        ),
{
    let problems = graph.blocking_problems();
    let ghost f = |p: ProblemModel| problem_row(p);
    let ghost all = problems::problem_models(problems@).map_values(f);
    let mut rows: Vec<ProblemRow> = Vec::new();
    proof {
        assert(rows@.map_values(|r: ProblemRow| r@) =~= all.take(0));
    }
    for k in 0..problems.len()
        invariant
            f == (|p: ProblemModel| problem_row(p)),
            all == problems::problem_models(problems@).map_values(f),
            all.len() == problems@.len(),
            rows@.map_values(|r: ProblemRow| r@) == all.take(k as int),
    {
        let problem = &problems[k];
        let hint = problem.to_text();
        let row = ProblemRow {
            label: truncate(hint.as_str(), 42),
            hint,
            selection: problem_selection(problem),
        };
        let ghost added = row@;
        let ghost before = rows@;
        rows.push(row);
        proof {
            assert(all[k as int] == problem_row(problem@));
            assert(rows@.map_values(|r: ProblemRow| r@) =~= before.map_values(
                |r: ProblemRow| r@,
            ).push(added));
            assert(all.take(k + 1) =~= all.take(k as int).push(all[k as int]));
        }
    }
    proof {
        assert(all.take(all.len() as int) =~= all);
    }
    rows
}

/// Works out what the outline shows of a plan. `responsibilities` holds what each
/// step of the plan in turn is responsible for.
pub fn plan_outline(
    graph: &ArchitectGraph,
    responsibilities: &Vec<String>,
    context: &OutlineContext,
) -> (res: PlanOutline)
    ensures
        outlines(res, graph@, graph::texts(responsibilities@), *context),
{
    let wanted = to_lower(text::trim(context.search.as_str()));
    let order = graph.execution_order();
    let ghost duties = graph::texts(responsibilities@);
    let mut settled: usize = 0;
    let mut completed: usize = 0;
    let mut rows: Vec<OutlineRow> = Vec::new();
    proof {
        graph.lemma_view();
        assert(graph::ids(order@).len() == order@.len());
        assert(rows@.map_values(|r: OutlineRow| r@) =~= Seq::empty());
    }
    for k in 0..order.len()
        invariant
            graph@.nodes.len() == graph.nodes@.len(),
            graph::ids(order@) == graph@.order_ids(),
            graph@.order_ids().len() == graph@.order().len(),
            order@.len() == graph@.order().len(),
            duties == graph::texts(responsibilities@),
            wanted@ == query(context.search@),
            settled <= k,
            settled as nat == graph@.settled(k as int),
            completed <= k,
            completed as nat == graph@.completed(k as int),
            rows@.len() <= k,
            rows@.map_values(|r: OutlineRow| r@) == graph@.rows(duties, *context, k as int),
    {
        let id = &order[k];
        proof {
            assert(graph@.order_ids()[k as int] == id@);
            graph@.lemma_order_is_listed(k as int);
        }
        if let Some(ix) = graph.node_index(id) {
            let node = &graph.nodes[ix];
            proof {
                graph.lemma_view();
                assert(graph@.nodes[ix as int] == node@);
                assert(graph@.listed_at(k as int) == ix);
            }
            if node.locked {
                settled += 1;
            }
            if reported(node) {
                completed += 1;
            }
            let duty = if ix < responsibilities.len() {
                responsibilities[ix].as_str()
            } else {
                ""
            };
            proof {
                reveal_strlit("");
                assert(duty@ =~= cards::text_at(duties, ix as int));
            }
            if matches_query(
                wanted.as_str(),
                to_lower(node.title.as_str()).as_str(),
                to_lower(duty).as_str(),
                to_lower(node.intent.as_str()).as_str(),
            ) {
                let row = outline_row(node, rows.len() as u128 + 1, duty, context);
                let ghost before = rows@;
                let ghost added = row@;
                rows.push(row);
                proof {
                    assert(before.map_values(|r: OutlineRow| r@).len() == before.len());
                    assert(rows@.map_values(|r: OutlineRow| r@) =~= before.map_values(
                        |r: OutlineRow| r@,
                    ).push(added));
                }
            }
        }
    }
    let problems = problem_rows(graph);
    let ready = graph.nodes.len() > 0 && problems.len() == 0;
    proof {
        assert(problems@.map_values(|r: ProblemRow| r@).len() == problems@.len());
        assert(graph@.blocking().map_values(|p: ProblemModel| problem_row(p)).len()
            == graph@.blocking().len());
        assert(rows@.map_values(|r: OutlineRow| r@).len() == rows@.len());
    }
    let draft: usize = order.len() - settled;
    PlanOutline {
        readiness: if ready {
            "Ready".to_owned()
        } else {
            "Review".to_owned()
        },
        glyph: if ready {
            Glyph::Check
        } else {
            Glyph::Warning
        },
        tone: if ready {
            Tone::Success
        } else {
            Tone::Warning
        },
        settled: text::cat2(text::number(settled as u128).as_str(), " settled"),
        draft: text::cat2(text::number(draft as u128).as_str(), " draft"),
        complete: text::cat2(text::number(completed as u128).as_str(), " complete"),
        problems,
        handoffs: graph.steps_without_capture(),
        handoff_label: "Add a handoff summary".to_owned(),
        nothing_found: if wanted.as_str().unicode_len() > 0 && rows.len() == 0 {
            Some("No steps match this search.".to_owned())
        } else {
            None
        },
        rows,
    }
}

impl GraphModel {
    /// Every step that runs is a step of the plan.
    proof fn lemma_order_is_listed(self, p: int)
        requires
            0 <= p < self.order_ids().len(),
        ensures
            self.node_index(self.order_ids()[p]) is Some,
    {
        crate::compile::law_order_follows_connections(self);
        assert(self.has_node(self.nodes[self.order()[p]].id));
    }
}

} // verus!
