//! What is drawn on the canvas: the cards of steps and the connections between
//! them.
use crate::canvas::{self, Selection, SelectionModel};
use crate::graph::{
    self, ArchitectEdge, ArchitectGraph, ArchitectNode, EdgeCondition, NodeId, Position,
};
use crate::model::{EdgeModel, GraphModel, NodeModel};
use crate::panel::{self, names, padded, reported, truncate, Glyph, Tone};
use crate::path::NodePath;
use crate::problems::{self, GraphProblem, ProblemModel};
use crate::text;
use vstd::prelude::*;
use vstd::string::StringExecFns;

verus! {

/// How many children an expanded step shows before it stops and says how many are
/// left. Past this the cards are too narrow to read.
pub const EXPANDED_CHILD_LIMIT: usize = 4;

/// How wide a step is drawn, in canvas units.
pub const NODE_WIDTH: i128 = 248;

/// How high a step is drawn, in canvas units.
pub const NODE_HEIGHT: i128 = 104;

/// How wide a step is drawn that shows the steps inside it.
pub const EXPANDED_NODE_WIDTH: i128 = 344;

/// How high a step is drawn that shows the steps inside it.
pub const EXPANDED_NODE_HEIGHT: i128 = 188;

/// How big a step is drawn, in canvas units. A step showing its sub-plan inside
/// itself needs room for it, and everything that hit-tests or lays out a step has to
/// agree about that.
pub fn node_size(node: &ArchitectNode, expanded: bool) -> (res: (i128, i128))
    ensures
        res == (if expanded && node@.nested() is Some {
            (EXPANDED_NODE_WIDTH, EXPANDED_NODE_HEIGHT)
        } else {
            (NODE_WIDTH, NODE_HEIGHT)
        }),
{
    if expanded && node.has_subplan() {
        (EXPANDED_NODE_WIDTH, EXPANDED_NODE_HEIGHT)
    } else {
        (NODE_WIDTH, NODE_HEIGHT)
    }
}

/// What is going on with a step.
pub struct CardState {
    pub selected: bool,
    pub hovered: bool,
    /// The step is being carried out.
    pub running: bool,
    /// A run is in progress.
    pub run_active: bool,
    /// A run was stopped at this step.
    pub failed: bool,
    /// No root leads to this step.
    pub invalid: bool,
    /// The steps inside are shown on the card.
    pub expanded: bool,
    /// The canvas is near enough to read small text.
    pub detailed: bool,
}

/// Whether a step is done: it reported something and is not being carried out.
pub open spec fn is_done(node: NodeModel, state: CardState) -> bool {
    panel::has_report(node) && !state.running
}

/// Whether a step is waiting for its turn.
pub open spec fn is_queued(node: NodeModel, state: CardState) -> bool {
    state.run_active && !state.running && !is_done(node, state) && !state.failed
}

/// The word for the state of a step.
pub open spec fn state_word(node: NodeModel, state: CardState) -> Seq<char> {
    if state.running {
        "running"@
    } else if state.failed {
        "failed"@
    } else if is_done(node, state) {
        "completed"@
    } else if is_queued(node, state) {
        "queued"@
    } else if node.locked {
        "settled"@
    } else {
        "draft"@
    }
}

/// How the state of a step is coloured.
pub open spec fn state_tone(node: NodeModel, state: CardState) -> Tone {
    if state.running {
        Tone::Info
    } else if state.failed {
        Tone::Error
    } else if is_done(node, state) || node.locked {
        Tone::Success
    } else {
        Tone::Muted
    }
}

/// What the border of a card says. The step being carried out outranks selection,
/// because during a run where the agent is now is the thing worth being able to
/// find.
#[derive(Clone, Copy, Debug, PartialEq, Eq, Structural)]
pub enum CardBorder {
    Error,
    Running,
    Selected,
    Hovered,
    Settled,
    Draft,
}

/// What the border of a card says. Pointing at a card shows unless it is selected.
pub open spec fn card_border(node: NodeModel, state: CardState) -> CardBorder {
    if state.hovered && !state.selected {
        CardBorder::Hovered
    } else if state.invalid || state.failed {
        CardBorder::Error
    } else if state.running {
        CardBorder::Running
    } else if state.selected {
        CardBorder::Selected
    } else if node.locked {
        CardBorder::Settled
    } else {
        CardBorder::Draft
    }
}

/// A number of steps, in words.
pub open spec fn steps_counted(n: nat) -> Seq<char> {
    if n == 1 {
        "1 step"@
    } else {
        text::decimal(n) + " steps"@
    }
}

/// The titles of the first `k` steps of a plan.
pub open spec fn first_titles(plan: GraphModel, k: nat) -> Seq<Seq<char>> {
    plan.nodes.take(
        if k <= plan.nodes.len() {
            k as int
        } else {
            plan.nodes.len() as int
        },
    ).map_values(|n: NodeModel| n.title)
}

/// The steps inside a step, named: enough to tell two sub-plans apart at a glance.
pub open spec fn inside_preview(node: NodeModel) -> Seq<char> {
    match node.nested() {
        Some(plan) => {
            let listed = text::joined(first_titles(plan, 6), "  →  "@);
            "Opens the plan inside this step:\n"@ + (if plan.nodes.len() > 6 {
                listed + ("  →  … and "@ + text::decimal((plan.nodes.len() - 6) as nat) + " more"@)
            } else {
                listed
            })
        },
        None => "This step contains a plan. Open it."@,
    }
}

/// How many steps are inside a step.
pub open spec fn inside_count(node: NodeModel) -> nat {
    match node.nested() {
        Some(plan) => plan.nodes.len(),
        None => 0,
    }
}

/// What the card of a step says.
pub struct NodeCard {
    pub number: String,
    pub title: String,
    pub responsibility: String,
    pub goal: String,
    pub state: String,
    pub tone: Tone,
    pub border: CardBorder,
    pub done: bool,
    pub queued: bool,
    /// Whether the card can be opened up to show the steps inside.
    pub expandable: bool,
    pub expand_hint: String,
    pub expand_glyph: Glyph,
    /// Whether the card warns that no root leads to the step.
    pub unreachable: bool,
    /// How many steps are inside, and which, where the card says so.
    pub inside: Option<(String, String)>,
    /// What the step reported, where the card says so.
    pub summary: Option<String>,
    /// Which attempt the step is on, and what that means, where it is not the first.
    pub attempt: Option<(String, String)>,
}

/// What the card of a step says.
#[verifier::ext_equal]
pub struct CardModel {
    pub number: Seq<char>,
    pub title: Seq<char>,
    pub responsibility: Seq<char>,
    pub goal: Seq<char>,
    pub state: Seq<char>,
    pub tone: Tone,
    pub border: CardBorder,
    pub done: bool,
    pub queued: bool,
    pub expandable: bool,
    pub expand_hint: Seq<char>,
    pub expand_glyph: Glyph,
    pub unreachable: bool,
    pub inside: Option<(Seq<char>, Seq<char>)>,
    pub summary: Option<Seq<char>>,
    pub attempt: Option<(Seq<char>, Seq<char>)>,
}

/// Two texts or none, as a mathematical value.
pub open spec fn pair_value(pair: Option<(String, String)>) -> Option<(Seq<char>, Seq<char>)> {
    match pair {
        Some((a, b)) => Some((a@, b@)),
        None => None,
    }
}

impl View for NodeCard {
    type V = CardModel;

    open spec fn view(&self) -> CardModel {
        CardModel {
            number: self.number@,
            title: self.title@,
            responsibility: self.responsibility@,
            goal: self.goal@,
            state: self.state@,
            tone: self.tone,
            border: self.border,
            done: self.done,
            queued: self.queued,
            expandable: self.expandable,
            expand_hint: self.expand_hint@,
            expand_glyph: self.expand_glyph,
            unreachable: self.unreachable,
            inside: pair_value(self.inside),
            summary: canvas::notice_value(self.summary),
            attempt: pair_value(self.attempt),
        }
    }
}

/// A text, or what stands in for it where it is blank.
pub open spec fn or_else(s: Seq<char>, blank: Seq<char>) -> Seq<char> {
    if text::is_blank(s) {
        blank
    } else {
        s
    }
}

/// The attempt a step is on.
pub open spec fn attempt_of(node: NodeModel) -> nat {
    match node.result {
        Some(result) => result.attempt,
        None => 1,
    }
}

/// What the card of a step says. From a distance it says what the step is and how it
/// stands; the rest only shows in detail.
pub open spec fn card(
    node: NodeModel,
    number: nat,
    responsibility: Seq<char>,
    state: CardState,
) -> CardModel {
    CardModel {
        number: panel::two_digits(number),
        title: node.title,
        responsibility: or_else(responsibility, "Responsibility not set"@),
        goal: or_else(node.intent, "No goal set yet"@),
        state: state_word(node, state),
        tone: state_tone(node, state),
        border: card_border(node, state),
        done: is_done(node, state),
        queued: is_queued(node, state),
        expandable: inside_count(node) > 0 && state.detailed,
        expand_hint: if state.expanded {
            "Fold the steps inside back up"@
        } else {
            "Show the steps inside, here"@
        },
        expand_glyph: if state.expanded {
            Glyph::ChevronUp
        } else {
            Glyph::ChevronDown
        },
        unreachable: state.detailed && state.invalid,
        inside: if state.detailed && !state.expanded && inside_count(node) > 0 {
            Some((steps_counted(inside_count(node)), inside_preview(node)))
        } else {
            None
        },
        summary: if state.detailed && panel::has_report(node) {
            Some(node.result->0.summary)
        } else {
            None
        },
        attempt: if state.detailed && attempt_of(node) > 1 {
            Some(
                (
                    "attempt "@ + text::decimal(attempt_of(node)),
                    "A loop has brought this step round "@ + text::decimal(attempt_of(node))
                        + " times"@,
                ),
            )
        } else {
            None
        },
    }
}

fn preview_text(node: &ArchitectNode) -> (res: String)
    ensures
        res@ == inside_preview(node@),
{
    match node.subplan() {
        Some(plan) => {
            let total: usize = plan.nodes.len();
            let shown: usize = if total <= 6 {
                total
            } else {
                6
            };
            let mut titles: Vec<String> = Vec::new();
            let ghost all = first_titles(plan@, 6);
            proof {
                plan.lemma_view();
                assert(graph::texts(titles@) =~= all.take(0));
            }
            for k in 0..shown
                invariant
                    shown <= plan.nodes@.len(),
                    shown == all.len(),
                    plan@.nodes.len() == plan.nodes@.len(),
                    all == first_titles(plan@, 6),
                    graph::texts(titles@) == all.take(k as int),
            {
                proof {
                    plan.lemma_view();
                    assert(plan@.nodes[k as int] == plan.nodes@[k as int]@);
                    assert(all[k as int] == plan.nodes@[k as int].title@);
                }
                let ghost before = titles@;
                titles.push(plan.nodes[k].title.clone());
                proof {
                    assert(graph::texts(titles@) =~= graph::texts(before).push(all[k as int]));
                    assert(all.take(k + 1) =~= all.take(k as int).push(all[k as int]));
                }
            }
            proof {
                assert(all.take(all.len() as int) =~= all);
            }
            let mut listed = text::join(&titles, "  →  ");
            if total > 6 {
                listed.append(
                    text::cat3(
                        "  →  … and ",
                        text::number((total - 6) as u128).as_str(),
                        " more",
                    ).as_str(),
                );
            }
            text::cat2("Opens the plan inside this step:\n", listed.as_str())
        },
        None => "This step contains a plan. Open it.".to_owned(),
    }
}

/// Works out what the card of a step says.
pub fn node_card(
    node: &ArchitectNode,
    step_number: u128,
    responsibility: &str,
    state: &CardState,
) -> (res: NodeCard)
    ensures
        res@ == card(node@, step_number as nat, responsibility@, *state),
{
    let told = reported(node);
    let done = told && !state.running;
    let queued = state.run_active && !state.running && !done && !state.failed;
    let word = if state.running {
        "running"
    } else if state.failed {
        "failed"
    } else if done {
        "completed"
    } else if queued {
        "queued"
    } else if node.locked {
        "settled"
    } else {
        "draft"
    };
    let tone = if state.running {
        Tone::Info
    } else if state.failed {
        Tone::Error
    } else if done || node.locked {
        Tone::Success
    } else {
        Tone::Muted
    };
    let border = if state.hovered && !state.selected {
        CardBorder::Hovered
    } else if state.invalid || state.failed {
        CardBorder::Error
    } else if state.running {
        CardBorder::Running
    } else if state.selected {
        CardBorder::Selected
    } else if node.locked {
        CardBorder::Settled
    } else {
        CardBorder::Draft
    };
    let count: usize = match node.subplan() {
        Some(plan) => {
            proof {
                plan.lemma_view();
            }
            plan.nodes.len()
        },
        None => 0,
    };
    let inside = if state.detailed && !state.expanded && count > 0 {
        let label = if count == 1 {
            "1 step".to_owned()
        } else {
            text::cat2(text::number(count as u128).as_str(), " steps")
        };
        Some((label, preview_text(node)))
    } else {
        None
    };
    let summary = match &node.result {
        Some(result) => if state.detailed && told {
            Some(result.summary.clone())
        } else {
            None
        },
        None => None,
    };
    let attempt = match &node.result {
        Some(result) => if state.detailed && result.attempt > 1 {
            let n = text::number(result.attempt as u128);
            Some(
                (
                    text::cat2("attempt ", n.as_str()),
                    text::cat3("A loop has brought this step round ", n.as_str(), " times"),
                ),
            )
        } else {
            None
        },
        None => None,
    };
    NodeCard {
        number: padded(step_number),
        title: node.title.clone(),
        responsibility: given_or(responsibility, "Responsibility not set"),
        goal: given_or(node.intent.as_str(), "No goal set yet"),
        state: word.to_owned(),
        tone,
        border,
        done,
        queued,
        expandable: count > 0 && state.detailed,
        expand_hint: if state.expanded {
            "Fold the steps inside back up".to_owned()
        } else {
            "Show the steps inside, here".to_owned()
        },
        expand_glyph: if state.expanded {
            Glyph::ChevronUp
        } else {
            Glyph::ChevronDown
        },
        unreachable: state.detailed && state.invalid,
        inside,
        summary,
        attempt,
    }
}

/// A text, or what stands in for it where it is blank.
pub fn given_or(s: &str, blank: &str) -> (res: String)
    ensures
        res@ == or_else(s@, blank@),
{
    if text::blank(s) {
        blank.to_owned()
    } else {
        s.to_owned()
    }
}

/// The number shown on a step: its place in the order steps run, or its place in
/// the plan where it has none.
pub fn card_number(order: &Vec<NodeId>, id: &NodeId, ix: usize) -> (res: u128)
    ensures
        res as int == (match canvas::first_place(graph::ids(order@), id@) {
            Some(p) => p + 1,
            None => ix + 1,
        }),
{
    let ghost all = graph::ids(order@);
    let mut found: Option<usize> = None;
    for k in 0..order.len()
        invariant
            all == graph::ids(order@),
            match found {
                Some(p) => canvas::first_place(all.take(k as int), id@) == Some(p as int),
                None => canvas::first_place(all.take(k as int), id@) is None,
            },
    {
        proof {
            assert(all.take(k + 1).drop_last() =~= all.take(k as int));
            assert(all.take(k + 1).last() == order@[k as int]@);
        }
        if found.is_none() && order[k].same(id) {
            found = Some(k);
        }
    }
    proof {
        assert(all.take(all.len() as int) =~= all);
    }
    match found {
        Some(p) => p as u128 + 1,
        None => ix as u128 + 1,
    }
}

/// What the cards of a plan depend on besides the plan.
pub struct CardContext {
    pub selection: Option<Selection>,
    pub hovered: Option<NodeId>,
    pub running: Option<NodeId>,
    pub run_active: bool,
    pub failed: Option<NodeId>,
    pub expanded: Vec<NodeId>,
    pub detailed: bool,
}

/// The text at a place of a list, which is empty past its end.
pub open spec fn text_at(list: Seq<Seq<char>>, i: int) -> Seq<char> {
    if 0 <= i < list.len() {
        list[i]
    } else {
        Seq::empty()
    }
}

impl CardContext {
    /// What is going on with a step of a plan.
    pub open spec fn state_of(&self, plan: GraphModel, id: Seq<char>) -> CardState {
        CardState {
            selected: canvas::selection_value(self.selection) == Some(SelectionModel::Node(id)),
            hovered: panel::is_id(self.hovered, id),
            running: panel::is_id(self.running, id),
            run_active: self.run_active,
            failed: panel::is_id(self.failed, id),
            invalid: plan.problems().contains(ProblemModel::Unreachable(id)),
            expanded: graph::ids(self.expanded@).contains(id),
            detailed: self.detailed,
        }
    }
}

/// The card of a step and where it stands.
pub struct PlacedCard {
    /// Which step of the plan it is.
    pub index: usize,
    pub position: Position,
    pub card: NodeCard,
}

/// The card of a step and where it stands.
#[verifier::ext_equal]
pub struct PlacedModel {
    pub index: nat,
    pub position: Position,
    pub card: CardModel,
}

impl View for PlacedCard {
    type V = PlacedModel;

    open spec fn view(&self) -> PlacedModel {
        PlacedModel { index: self.index as nat, position: self.position, card: self.card@ }
    }
}

impl GraphModel {
    /// The number shown on a step: its place in the order steps run, or its place in
    /// the plan where it has none.
    pub open spec fn shown_number(self, k: int) -> nat {
        match canvas::first_place(self.order_ids(), self.nodes[k].id) {
            Some(p) => (p + 1) as nat,
            None => (k + 1) as nat,
        }
    }

    /// The cards of the first `k` steps: a step without a place has none.
    pub open spec fn cards(
        self,
        responsibilities: Seq<Seq<char>>,
        context: CardContext,
        k: int,
    ) -> Seq<PlacedModel>
        decreases k,
    {
        if k <= 0 {
            Seq::empty()
        } else {
            let rest = self.cards(responsibilities, context, k - 1);
            let node = self.nodes[k - 1];
            match node.position {
                Some(position) => rest.push(
                    PlacedModel {
                        index: (k - 1) as nat,
                        position,
                        card: card(
                            node,
                            self.shown_number(k - 1),
                            text_at(responsibilities, k - 1),
                            context.state_of(self, node.id),
                        ),
                    },
                ),
                None => rest,
            }
        }
    }
}

fn is_unreachable(problems: &Vec<GraphProblem>, id: &NodeId) -> (res: bool)
    ensures
        res == problems::problem_models(problems@).contains(ProblemModel::Unreachable(id@)),
{
    let ghost all = problems::problem_models(problems@);
    for k in 0..problems.len()
        invariant
            all == problems::problem_models(problems@),
            all.len() == problems@.len(),
            forall|j: int| 0 <= j < k ==> #[trigger] all[j] != ProblemModel::Unreachable(id@),
    {
        proof {
            assert(all[k as int] == problems@[k as int]@);
        }
        if let GraphProblem::Unreachable(other) = &problems[k] {
            if other.same(id) {
                return true;
            }
        }
    }
    false
}

pub(crate) fn listed(ids: &Vec<NodeId>, id: &NodeId) -> (res: bool)
    ensures
        res == graph::ids(ids@).contains(id@),
{
    let ghost all = graph::ids(ids@);
    for k in 0..ids.len()
        invariant
            all == graph::ids(ids@),
            all.len() == ids@.len(),
            forall|j: int| 0 <= j < k ==> #[trigger] all[j] != id@,
    {
        proof {
            assert(all[k as int] == ids@[k as int]@);
        }
        if ids[k].same(id) {
            return true;
        }
    }
    false
}

/// Works out the cards of a plan. `responsibilities` holds what each step of the
/// plan in turn is responsible for.
pub fn node_cards(
    graph: &ArchitectGraph,
    responsibilities: &Vec<String>,
    context: &CardContext,
) -> (res: Vec<PlacedCard>)
    ensures
        res@.map_values(|c: PlacedCard| c@) == graph@.cards(
            graph::texts(responsibilities@),
            *context,
            graph@.nodes.len() as int,
        ),
{
    let problems = graph.problems();
    let order = graph.execution_order();
    let ghost duties = graph::texts(responsibilities@);
    let mut out: Vec<PlacedCard> = Vec::new();
    proof {
        graph.lemma_view();
        assert(out@.map_values(|c: PlacedCard| c@) =~= Seq::empty());
    }
    for k in 0..graph.nodes.len()
        invariant
            graph@.nodes.len() == graph.nodes@.len(),
            problems::problem_models(problems@) == graph@.problems(),
            graph::ids(order@) == graph@.order_ids(),
            duties == graph::texts(responsibilities@),
            out@.map_values(|c: PlacedCard| c@) == graph@.cards(duties, *context, k as int),
    {
        let node = &graph.nodes[k];
        proof {
            graph.lemma_view();
            assert(graph@.nodes[k as int] == node@);
        }
        if let Some(position) = node.position {
            let state = CardState {
                selected: match &context.selection {
                    Some(Selection::Node(id)) => id.same(&node.id),
                    _ => false,
                },
                hovered: names(&context.hovered, &node.id),
                running: names(&context.running, &node.id),
                run_active: context.run_active,
                failed: names(&context.failed, &node.id),
                invalid: is_unreachable(&problems, &node.id),
                expanded: listed(&context.expanded, &node.id),
                detailed: context.detailed,
            };
            let duty = if k < responsibilities.len() {
                responsibilities[k].as_str()
            } else {
                ""
            };
            proof {
                reveal_strlit("");
                assert(duty@ =~= text_at(duties, k as int));
                assert(state == context.state_of(graph@, node@.id));
            }
            let placed = PlacedCard {
                index: k,
                position,
                card: node_card(node, card_number(&order, &node.id, k), duty, &state),
            };
            let ghost before = out@;
            let ghost added = placed@;
            out.push(placed);
            proof {
                assert(out@.map_values(|c: PlacedCard| c@) =~= before.map_values(
                    |c: PlacedCard| c@,
                ).push(added));
            }
        }
    }
    out
}

/// What a step inside another says on the card of that one.
pub struct ChildCard {
    pub title: String,
    pub goal: String,
    pub running: bool,
    pub done: bool,
    pub locked: bool,
}

/// What a step inside another says on the card of that one.
#[verifier::ext_equal]
pub struct ChildModel {
    pub title: Seq<char>,
    pub goal: Seq<char>,
    pub running: bool,
    pub done: bool,
    pub locked: bool,
}

impl View for ChildCard {
    type V = ChildModel;

    open spec fn view(&self) -> ChildModel {
        ChildModel {
            title: self.title@,
            goal: self.goal@,
            running: self.running,
            done: self.done,
            locked: self.locked,
        }
    }
}

/// What a step inside another says, given the way to the step that contains it.
pub open spec fn child_card(
    node: NodeModel,
    running: Option<Seq<Seq<char>>>,
    within: Seq<Seq<char>>,
) -> ChildModel {
    let here = running == Some(within.push(node.id));
    ChildModel {
        title: node.title,
        goal: if text::is_blank(node.intent) {
            "no goal yet"@
        } else {
            panel::shortened(node.intent, 22)
        },
        running: here,
        done: panel::has_report(node) && !here,
        locked: node.locked,
    }
}

/// The steps inside a step as its card shows them, and how many are not shown.
pub struct ExpandedChildren {
    pub cards: Vec<ChildCard>,
    pub hidden: Option<String>,
}

/// How many steps of a plan an expanded card shows.
pub open spec fn children_shown(plan: GraphModel) -> nat {
    if plan.nodes.len() <= EXPANDED_CHILD_LIMIT {
        plan.nodes.len()
    } else {
        EXPANDED_CHILD_LIMIT as nat
    }
}

/// A path or none, as a mathematical value.
pub open spec fn path_value(path: Option<&NodePath>) -> Option<Seq<Seq<char>>> {
    match path {
        Some(p) => Some(p@),
        None => None,
    }
}

/// Works out what an expanded card shows of the steps inside.
pub fn expanded_children(
    node: &ArchitectNode,
    running: Option<&NodePath>,
    focus: &NodePath,
) -> (res: Option<ExpandedChildren>)
    ensures
        match res {
            Some(children) => {
                &&& node@.nested() matches Some(plan)
                &&& children.cards@.map_values(|c: ChildCard| c@) == plan.nodes.take(
                    children_shown(plan) as int,
                ).map_values(
                    |n: NodeModel| child_card(n, path_value(running), focus@.push(node@.id)),
                )
                &&& match children.hidden {
                    Some(more) => plan.nodes.len() > EXPANDED_CHILD_LIMIT && more@ == "+"@
                        + text::decimal((plan.nodes.len() - EXPANDED_CHILD_LIMIT) as nat),
                    None => plan.nodes.len() <= EXPANDED_CHILD_LIMIT,
                }
            },
            None => node@.nested() is None,
        },
{
    match node.subplan() {
        None => None,
        Some(plan) => {
            let total: usize = plan.nodes.len();
            let shown: usize = if total <= EXPANDED_CHILD_LIMIT {
                total
            } else {
                EXPANDED_CHILD_LIMIT
            };
            let within = focus.child(node.id.clone());
            let ghost f = |n: NodeModel| child_card(n, path_value(running), within@);
            let ghost all = plan@.nodes.take(shown as int).map_values(f);
            let mut cards: Vec<ChildCard> = Vec::new();
            proof {
                plan.lemma_view();
                assert(cards@.map_values(|c: ChildCard| c@) =~= all.take(0));
            }
            for k in 0..shown
                invariant
                    shown <= plan.nodes@.len(),
                    plan@.nodes.len() == plan.nodes@.len(),
                    f == (|n: NodeModel| child_card(n, path_value(running), within@)),
                    all == plan@.nodes.take(shown as int).map_values(f),
                    cards@.map_values(|c: ChildCard| c@) == all.take(k as int),
            {
                let child = &plan.nodes[k];
                proof {
                    plan.lemma_view();
                    assert(plan@.nodes[k as int] == child@);
                }
                let here = match running {
                    Some(path) => path.same(&within.child(child.id.clone())),
                    None => false,
                };
                let card = ChildCard {
                    title: child.title.clone(),
                    goal: if text::blank(child.intent.as_str()) {
                        "no goal yet".to_owned()
                    } else {
                        truncate(child.intent.as_str(), 22)
                    },
                    running: here,
                    done: reported(child) && !here,
                    locked: child.locked,
                };
                let ghost added = card@;
                let ghost before = cards@;
                cards.push(card);
                proof {
                    assert(added == all[k as int]);
                    assert(cards@.map_values(|c: ChildCard| c@) =~= before.map_values(
                        |c: ChildCard| c@,
                    ).push(added));
                    assert(all.take(k + 1) =~= all.take(k as int).push(added));
                }
            }
            proof {
                assert(all.take(all.len() as int) =~= all);
            }
            let hidden = if total > EXPANDED_CHILD_LIMIT {
                Some(
                    text::cat2(
                        "+",
                        text::number((total - EXPANDED_CHILD_LIMIT) as u128).as_str(),
                    ),
                )
            } else {
                None
            };
            Some(ExpandedChildren { cards, hidden })
        },
    }
}

/// Whether a connection between two places runs back the way the plan came, which
/// is what makes it a loop.
pub open spec fn backwards(from: Position, to: Position) -> bool {
    to.x <= from.x + 124
}

/// Tells whether a connection between two places runs back the way the plan came.
pub fn runs_backwards(from: Position, to: Position) -> (res: bool)
    ensures
        res == backwards(from, to),
{
    if to.x <= from.x {
        true
    } else if from.x > i128::MAX - NODE_WIDTH / 2 {
        true
    } else {
        to.x <= from.x + NODE_WIDTH / 2
    }
}

/// What the colour of a connection says.
#[derive(Clone, Copy, Debug, PartialEq, Eq, Structural)]
pub enum EdgeTone {
    Selected,
    Active,
    Completed,
    Loop,
    Plain,
}

/// A connection as it is drawn.
pub struct EdgeLine {
    pub from: Position,
    pub to: Position,
    pub tone: EdgeTone,
    /// Whether it is drawn heavier than others.
    pub strong: bool,
    pub backwards: bool,
}

/// A connection as it is drawn.
#[verifier::ext_equal]
pub struct LineModel {
    pub from: Position,
    pub to: Position,
    pub tone: EdgeTone,
    pub strong: bool,
    pub backwards: bool,
}

impl View for EdgeLine {
    type V = LineModel;

    open spec fn view(&self) -> LineModel {
        LineModel {
            from: self.from,
            to: self.to,
            tone: self.tone,
            strong: self.strong,
            backwards: self.backwards,
        }
    }
}

impl GraphModel {
    /// Where the first step of an id stands, if it is there and has a place.
    pub open spec fn position_of(self, id: Seq<char>) -> Option<Position> {
        match self.node(id) {
            Some(node) => node.position,
            None => None,
        }
    }

    /// Whether the first step of an id has reported something.
    pub open spec fn has_reported(self, id: Seq<char>) -> bool {
        self.node(id) matches Some(node) && panel::has_report(node)
    }

    /// How a connection is drawn: not at all, where one of its steps has no place.
    pub open spec fn edge_line(
        self,
        edge: EdgeModel,
        selection: Option<SelectionModel>,
        running: Option<Seq<char>>,
    ) -> Option<LineModel> {
        match (self.position_of(edge.from), self.position_of(edge.to)) {
            (Some(from), Some(to)) => {
                let selected = selection == Some(SelectionModel::Edge(edge.id));
                let active = running == Some(edge.to);
                Some(
                    LineModel {
                        from,
                        to,
                        tone: if selected {
                            EdgeTone::Selected
                        } else if active {
                            EdgeTone::Active
                        } else if self.has_reported(edge.from) && self.has_reported(edge.to) {
                            EdgeTone::Completed
                        } else if backwards(from, to) {
                            EdgeTone::Loop
                        } else {
                            EdgeTone::Plain
                        },
                        strong: selected || active,
                        backwards: backwards(from, to),
                    },
                )
            },
            _ => None,
        }
    }

    /// How the first `k` connections are drawn.
    pub open spec fn edge_lines(
        self,
        selection: Option<SelectionModel>,
        running: Option<Seq<char>>,
        k: int,
    ) -> Seq<LineModel>
        decreases k,
    {
        if k <= 0 {
            Seq::empty()
        } else {
            let rest = self.edge_lines(selection, running, k - 1);
            match self.edge_line(self.edges[k - 1], selection, running) {
                Some(line) => rest.push(line),
                None => rest,
            }
        }
    }
}

fn place_of(graph: &ArchitectGraph, id: &NodeId) -> (res: Option<Position>)
    ensures
        res == graph@.position_of(id@),
{
    match graph.node(id) {
        Some(node) => node.position,
        None => None,
    }
}

fn has_reported(graph: &ArchitectGraph, id: &NodeId) -> (res: bool)
    ensures
        res == graph@.has_reported(id@),
{
    match graph.node(id) {
        Some(node) => reported(node),
        None => false,
    }
}

fn edge_line(
    graph: &ArchitectGraph,
    edge: &ArchitectEdge,
    selection: &Option<Selection>,
    running: &Option<NodeId>,
) -> (res: Option<EdgeLine>)
    ensures
        match res {
            Some(line) => graph@.edge_line(
                edge@,
                canvas::selection_value(*selection),
                crate::canvas::id_value(*running),
            ) == Some(line@),
            None => graph@.edge_line(
                edge@,
                canvas::selection_value(*selection),
                crate::canvas::id_value(*running),
            ) is None,
        },
{
    if let (Some(from), Some(to)) = (place_of(graph, &edge.from), place_of(graph, &edge.to)) {
        let selected = match selection {
            Some(Selection::Edge(id)) => id.same(&edge.id),
            _ => false,
        };
        let active = names(running, &edge.to);
        let completed = has_reported(graph, &edge.from) && has_reported(graph, &edge.to);
        let back = runs_backwards(from, to);
        Some(
            EdgeLine {
                from,
                to,
                tone: if selected {
                    EdgeTone::Selected
                } else if active {
                    EdgeTone::Active
                } else if completed {
                    EdgeTone::Completed
                } else if back {
                    EdgeTone::Loop
                } else {
                    EdgeTone::Plain
                },
                strong: selected || active,
                backwards: back,
            },
        )
    } else {
        None
    }
}

/// Works out how the connections of a plan are drawn.
pub fn edge_lines(
    graph: &ArchitectGraph,
    selection: &Option<Selection>,
    running: &Option<NodeId>,
) -> (res: Vec<EdgeLine>)
    ensures
        res@.map_values(|l: EdgeLine| l@) == graph@.edge_lines(
            canvas::selection_value(*selection),
            crate::canvas::id_value(*running),
            graph@.edges.len() as int,
        ),
{
    let mut out: Vec<EdgeLine> = Vec::new();
    proof {
        graph.lemma_view();
        assert(out@.map_values(|l: EdgeLine| l@) =~= Seq::empty());
    }
    for k in 0..graph.edges.len()
        invariant
            graph@.edges.len() == graph.edges@.len(),
            out@.map_values(|l: EdgeLine| l@) == graph@.edge_lines(
                canvas::selection_value(*selection),
                crate::canvas::id_value(*running),
                k as int,
            ),
    {
        proof {
            graph.lemma_view();
            assert(graph@.edges[k as int] == graph.edges@[k as int]@);
        }
        if let Some(line) = edge_line(graph, &graph.edges[k], selection, running) {
            let ghost before = out@;
            let ghost added = line@;
            out.push(line);
            proof {
                assert(out@.map_values(|l: EdgeLine| l@) =~= before.map_values(
                    |l: EdgeLine| l@,
                ).push(added));
            }
        }
    }
    out
}

/// What is said on a connection.
pub struct EdgeLabel {
    /// Which connection of the plan it is.
    pub index: usize,
    pub from: Position,
    pub to: Position,
    pub label: String,
    pub hint: String,
    pub tone: Tone,
    pub glyph: Option<Glyph>,
}

/// What is said on a connection.
#[verifier::ext_equal]
pub struct LabelModel {
    pub index: nat,
    pub from: Position,
    pub to: Position,
    pub label: Seq<char>,
    pub hint: Seq<char>,
    pub tone: Tone,
    pub glyph: Option<Glyph>,
}

impl View for EdgeLabel {
    type V = LabelModel;

    open spec fn view(&self) -> LabelModel {
        LabelModel {
            index: self.index as nat,
            from: self.from,
            to: self.to,
            label: self.label@,
            hint: self.hint@,
            tone: self.tone,
            glyph: self.glyph,
        }
    }
}

impl GraphModel {
    /// What is said on a connection. Two things can be worth saying, and never both:
    /// what has to be true for it to be taken, or, once it has been taken, that the
    /// earlier step's summary went along it.
    pub open spec fn edge_label(self, index: int) -> Option<LabelModel> {
        let edge = self.edges[index];
        match (self.position_of(edge.from), self.position_of(edge.to)) {
            (Some(from), Some(to)) => match edge.condition.label() {
                Some(label) => {
                    let judged = edge.condition is LlmEvaluated;
                    Some(
                        LabelModel {
                            index: index as nat,
                            from,
                            to,
                            label: panel::shortened(label, 32),
                            hint: if judged {
                                "The model decides: "@ + label
                            } else {
                                "Taken only if "@ + label
                            },
                            tone: if backwards(from, to) {
                                Tone::Warning
                            } else {
                                Tone::Default
                            },
                            glyph: if judged {
                                Some(Glyph::Sparkle)
                            } else {
                                None
                            },
                        },
                    )
                },
                None => if self.has_reported(edge.from) {
                    Some(
                        LabelModel {
                            index: index as nat,
                            from,
                            to,
                            label: "summary passed"@,
                            hint: "What the next step was told:\n"@ + self.node(
                                edge.from,
                            )->0.result->0.summary,
                            tone: Tone::Success,
                            glyph: Some(Glyph::Check),
                        },
                    )
                } else {
                    None
                },
            },
            _ => None,
        }
    }

    /// What is said on the first `k` connections.
    pub open spec fn edge_labels(self, k: int) -> Seq<LabelModel>
        decreases k,
    {
        if k <= 0 {
            Seq::empty()
        } else {
            match self.edge_label(k - 1) {
                Some(label) => self.edge_labels(k - 1).push(label),
                None => self.edge_labels(k - 1),
            }
        }
    }
}

fn edge_label(graph: &ArchitectGraph, index: usize) -> (res: Option<EdgeLabel>)
    requires
        index < graph.edges@.len(),
    ensures
        match res {
            Some(label) => graph@.edge_label(index as int) == Some(label@),
            None => graph@.edge_label(index as int) is None,
        },
{
    let edge = &graph.edges[index];
    proof {
        graph.lemma_view();
        assert(graph@.edges[index as int] == edge@);
    }
    if let (Some(from), Some(to)) = (place_of(graph, &edge.from), place_of(graph, &edge.to)) {
        match edge.condition.label() {
            Some(said) => {
                let judged = matches!(&edge.condition, EdgeCondition::LlmEvaluated { .. });
                Some(
                    EdgeLabel {
                        index,
                        from,
                        to,
                        label: truncate(said, 32),
                        hint: if judged {
                            text::cat2("The model decides: ", said)
                        } else {
                            text::cat2("Taken only if ", said)
                        },
                        tone: if runs_backwards(from, to) {
                            Tone::Warning
                        } else {
                            Tone::Default
                        },
                        glyph: if judged {
                            Some(Glyph::Sparkle)
                        } else {
                            None
                        },
                    },
                )
            },
            None => {
                if let Some(node) = graph.node(&edge.from) {
                    if let Some(result) = &node.result {
                        if !text::blank(result.summary.as_str()) {
                            let label = EdgeLabel {
                                index,
                                from,
                                to,
                                label: "summary passed".to_owned(),
                                hint: text::cat2(
                                    "What the next step was told:\n",
                                    result.summary.as_str(),
                                ),
                                tone: Tone::Success,
                                glyph: Some(Glyph::Check),
                            };
                            proof {
                                assert("summary passed"@.len() <= 32) by {
                                    reveal_strlit("summary passed");
                                }
                            }
                            return Some(label);
                        }
                    }
                }
                None
            },
        }
    } else {
        None
    }
}

/// Works out what is said on the connections of a plan.
pub fn edge_labels(graph: &ArchitectGraph) -> (res: Vec<EdgeLabel>)
    ensures
        res@.map_values(|l: EdgeLabel| l@) == graph@.edge_labels(graph@.edges.len() as int),
{
    let mut out: Vec<EdgeLabel> = Vec::new();
    proof {
        graph.lemma_view();
        assert(out@.map_values(|l: EdgeLabel| l@) =~= Seq::empty());
    }
    for k in 0..graph.edges.len()
        invariant
            graph@.edges.len() == graph.edges@.len(),
            out@.map_values(|l: EdgeLabel| l@) == graph@.edge_labels(k as int),
    {
        if let Some(label) = edge_label(graph, k) {
            let ghost before = out@;
            let ghost added = label@;
            out.push(label);
            proof {
                assert(out@.map_values(|l: EdgeLabel| l@) =~= before.map_values(
                    |l: EdgeLabel| l@,
                ).push(added));
            }
        }
    }
    out
}

/// What an empty canvas says.
pub struct EmptyCanvas {
    pub title: String,
    pub invitation: String,
    /// What is said where drafting is on; otherwise the switch to it is offered.
    pub planning: Option<String>,
}

/// Works out what an empty canvas says. Plans are only drafted in Plan mode, so the
/// canvas explains what it needs to fill itself.
pub fn empty_canvas(planning: bool) -> (res: EmptyCanvas)
    ensures
        res.title@ == "No plan yet"@,
        res.invitation@
            == "Describe what you want built in the chat. The steps will appear here as a flowchart you can rearrange, discuss one at a time, and lock when you are happy with them."@,
        match res.planning {
            Some(said) => planning && said@
                == "Plan mode is on — the agent will draft before it builds."@,
            None => !planning,
        },
{
    EmptyCanvas {
        title: "No plan yet".to_owned(),
        invitation: "Describe what you want built in the chat. The steps will appear here as a flowchart you can rearrange, discuss one at a time, and lock when you are happy with them.".to_owned(),
        planning: if planning {
            Some("Plan mode is on — the agent will draft before it builds.".to_owned())
        } else {
            None
        },
    }
}

} // verus!
