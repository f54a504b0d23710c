//! What the canvas and the panels around it are sure to show.
use crate::canvas::{self, ActivityModel, CanvasModel, NodeEdit, SelectionModel};
use crate::cards::{self, CardBorder, CardState};
use crate::model::{EdgeModel, GraphModel, NodeModel};
use crate::outline_panel::{self, OutlineContext};
use crate::panel::{self, Tone};
use crate::text;
use vstd::prelude::*;

verus! {

/// The card and the row of a step agree on how it stands: a step that is carried out says
/// so whatever else holds of it, then one that failed, then one that reported something,
/// and a settled step is never called a draft.
pub proof fn law_cards_say_how_steps_stand(
    node: NodeModel,
    number: nat,
    responsibility: Seq<char>,
    state: CardState,
)
    ensures
        ({
            let card = cards::card(node, number, responsibility, state);
            let row = outline_panel::row_state(node, state.running, state.failed, state.run_active);
            let reported = node.result is Some && !text::is_blank(node.result->0.summary);
            &&& card.title == node.title
            &&& !text::is_blank(node.intent) ==> card.goal == node.intent
            &&& text::is_blank(node.intent) ==> card.goal == "No goal set yet"@
            &&& state.running ==> card.state == "running"@ && row.0 == "running"@ && card.tone
                == Tone::Info && row.1 == Tone::Info && !card.done && !card.queued
            &&& !state.running && state.failed ==> card.state == "failed"@ && row.0 == "failed"@
                && card.tone == Tone::Error && row.1 == Tone::Error && !card.queued
            &&& !state.running && !state.failed && reported ==> card.state == "completed"@ && row.0
                == "completed"@ && card.tone == Tone::Success && card.done && !card.queued
            &&& !state.running && !state.failed && !reported && state.run_active ==> card.queued
                && card.state == "queued"@
            &&& !state.running && !state.failed && !reported && !state.run_active ==> card.state
                == (if node.locked {
                "settled"@
            } else {
                "draft"@
            }) && row.0 == card.state && !card.done && !card.queued
            &&& state.detailed && reported ==> card.summary == Some(node.result->0.summary)
            &&& !(state.detailed && reported) ==> card.summary is None
            &&& !state.hovered && !state.invalid && !state.failed && state.running ==> card.border
                == CardBorder::Running
            &&& !state.hovered && (state.invalid || state.failed) ==> card.border
                == CardBorder::Error
        }),
{
}

/// A text is shown whole where it fits, and otherwise its beginning with an ellipsis, as
/// many characters as there is room for.
pub proof fn law_texts_are_shortened_at_the_end(s: Seq<char>, limit: nat)
    requires
        limit > 0,
    ensures
        s.len() <= limit ==> panel::shortened(s, limit) == s,
        s.len() > limit ==> panel::shortened(s, limit).len() == limit && panel::shortened(
            s,
            limit,
        ).last() == '…' && panel::shortened(s, limit).drop_last().is_prefix_of(s),
{
    if s.len() > limit {
        let short = panel::shortened(s, limit);
        assert(short.drop_last() =~= s.take(limit - 1));
        assert(s.take(limit - 1) =~= s.subrange(0, limit - 1));
    }
}

/// Every step that is found is listed once, in the order steps run, and the rows are
/// numbered from one without a gap; where nothing is searched for, every step is listed.
pub proof fn law_found_steps_are_listed_in_order(
    plan: GraphModel,
    duties: Seq<Seq<char>>,
    context: OutlineContext,
    k: int,
)
    requires
        0 <= k <= plan.order().len(),
    ensures
        ({
            let rows = plan.rows(duties, context, k);
            let wanted = outline_panel::query(context.search@);
            &&& forall|i: int|
                0 <= i < rows.len() ==> (#[trigger] rows[i]).number == panel::two_digits(
                    (i + 1) as nat,
                )
            &&& wanted.len() == 0 ==> rows.len() == k
            &&& forall|p: int|
                #![trigger plan.listed_at(p)]
                0 <= p < k && (wanted.len() == 0 || panel::occurs(
                    panel::lowercased(plan.nodes[plan.listed_at(p)].title),
                    wanted,
                ) || panel::occurs(
                    panel::lowercased(plan.nodes[plan.listed_at(p)].intent),
                    wanted,
                )) ==> exists|i: int|
                    0 <= i < rows.len() && (#[trigger] rows[i]).title == plan.nodes[plan.listed_at(
                        p,
                    )].title && rows[i].id == plan.nodes[plan.listed_at(p)].id
            &&& forall|i: int|
                #![trigger rows[i]]
                0 <= i < rows.len() ==> exists|p: int|
                    0 <= p < k && rows[i].id == plan.nodes[#[trigger] plan.listed_at(p)].id
        }),
    decreases k,
{
    if k > 0 {
        law_found_steps_are_listed_in_order(plan, duties, context, k - 1);
        let rest = plan.rows(duties, context, k - 1);
        let rows = plan.rows(duties, context, k);
        let wanted = outline_panel::query(context.search@);
        let last = plan.nodes[plan.listed_at(k - 1)];
        assert forall|i: int| 0 <= i < rows.len() implies (#[trigger] rows[i]).number
            == panel::two_digits((i + 1) as nat) by {
            if i < rest.len() {
                assert(rows[i] == rest[i]);
            }
        }
        assert forall|p: int|
            #![trigger plan.listed_at(p)]
            0 <= p < k && (wanted.len() == 0 || panel::occurs(
                panel::lowercased(plan.nodes[plan.listed_at(p)].title),
                wanted,
            ) || panel::occurs(
                panel::lowercased(plan.nodes[plan.listed_at(p)].intent),
                wanted,
            )) implies exists|i: int|
            0 <= i < rows.len() && (#[trigger] rows[i]).title == plan.nodes[plan.listed_at(p)].title
                && rows[i].id == plan.nodes[plan.listed_at(p)].id by {
            if p < k - 1 {
                let i = choose|i: int|
                    0 <= i < rest.len() && (#[trigger] rest[i]).title == plan.nodes[plan.listed_at(
                        p,
                    )].title && rest[i].id == plan.nodes[plan.listed_at(p)].id;
                assert(rows[i] == rest[i]);
            } else {
                assert(rows[rest.len() as int].title == last.title);
            }
        }
        assert forall|i: int| #![trigger rows[i]] 0 <= i < rows.len() implies exists|p: int|
            0 <= p < k && rows[i].id == plan.nodes[#[trigger] plan.listed_at(p)].id by {
            if i < rest.len() {
                assert(rows[i] == rest[i]);
            } else {
                assert(rows[i].id == plan.nodes[plan.listed_at(k - 1)].id);
            }
        }
    }
}

/// Every connection between two steps that have a place is drawn from the one to the
/// other, in the order of the plan; one that is selected or leads to the step being
/// carried out stands out.
pub proof fn law_placed_connections_are_drawn(
    plan: GraphModel,
    selection: Option<SelectionModel>,
    running: Option<Seq<char>>,
    k: int,
    i: int,
)
    requires
        0 <= i < k <= plan.edges.len(),
        plan.node(plan.edges[i].from) is Some,
        plan.node(plan.edges[i].to) is Some,
        plan.node(plan.edges[i].from)->0.position is Some,
        plan.node(plan.edges[i].to)->0.position is Some,
    ensures
        exists|j: int|
            0 <= j < plan.edge_lines(selection, running, k).len() && {
                let line = #[trigger] plan.edge_lines(selection, running, k)[j];
                &&& line.from == plan.node(plan.edges[i].from)->0.position->0
                &&& line.to == plan.node(plan.edges[i].to)->0.position->0
                &&& line.strong <==> selection == Some(SelectionModel::Edge(plan.edges[i].id))
                    || running == Some(plan.edges[i].to)
                &&& line.tone == cards::EdgeTone::Selected <==> selection == Some(
                    SelectionModel::Edge(plan.edges[i].id),
                )
            },
    decreases k,
{
    let lines = plan.edge_lines(selection, running, k);
    let rest = plan.edge_lines(selection, running, k - 1);
    if i < k - 1 {
        law_placed_connections_are_drawn(plan, selection, running, k - 1, i);
        let j = choose|j: int|
            0 <= j < rest.len() && {
                let line = #[trigger] rest[j];
                &&& line.from == plan.node(plan.edges[i].from)->0.position->0
                &&& line.to == plan.node(plan.edges[i].to)->0.position->0
                &&& line.strong <==> selection == Some(SelectionModel::Edge(plan.edges[i].id))
                    || running == Some(plan.edges[i].to)
                &&& line.tone == cards::EdgeTone::Selected <==> selection == Some(
                    SelectionModel::Edge(plan.edges[i].id),
                )
            };
        assert(lines[j] == rest[j]);
    } else {
        let line = plan.edge_line(plan.edges[i], selection, running)->0;
        assert(lines[rest.len() as int] == line);
    }
}

proof fn lemma_first_place(list: Seq<Seq<char>>, i: int)
    requires
        list.no_duplicates(),
        0 <= i < list.len(),
    ensures
        canvas::first_place(list, list[i]) == Some(i),
    decreases list.len(),
{
    let rest = list.drop_last();
    assert(rest.no_duplicates());
    if i < rest.len() {
        lemma_first_place(rest, i);
        assert(rest[i] == list[i]);
    } else {
        lemma_no_place(rest, list[i]);
    }
}

proof fn lemma_no_place(list: Seq<Seq<char>>, id: Seq<char>)
    requires
        forall|j: int| 0 <= j < list.len() ==> #[trigger] list[j] != id,
    ensures
        canvas::first_place(list, id) is None,
    decreases list.len(),
{
    if list.len() > 0 {
        assert(list[list.len() - 1] != id);
        lemma_no_place(list.drop_last(), id);
    }
}

/// Moving the selection goes along the order steps run in, one step at a time, and stops
/// at either end; with nothing selected it starts at an end.
pub proof fn law_selection_moves_along_the_order(
    shown: CanvasModel,
    order: Seq<Seq<char>>,
    i: int,
)
    requires
        order.no_duplicates(),
        0 <= i < order.len(),
    ensures
        shown.selection == Some(SelectionModel::Node(order[i])) ==> {
            &&& i + 1 < order.len() ==> shown.adjacent(order, true) == Some(order[i + 1])
            &&& i + 1 == order.len() ==> shown.adjacent(order, true) == Some(order[i])
            &&& i > 0 ==> shown.adjacent(order, false) == Some(order[i - 1])
            &&& i == 0 ==> shown.adjacent(order, false) == Some(order[0])
        },
        shown.selection is None ==> shown.adjacent(order, true) == Some(order[0])
            && shown.adjacent(order, false) == Some(order.last()),
{
    lemma_first_place(order, i);
}

/// What happened last is remembered last, and only the oldest is ever forgotten.
pub proof fn law_recent_activity_is_remembered(
    activity: Seq<ActivityModel>,
    entry: ActivityModel,
)
    requires
        activity.len() <= canvas::MAX_ACTIVITY_ENTRIES,
    ensures
        ({
            let after = canvas::remembered(activity, entry);
            &&& after.len() <= canvas::MAX_ACTIVITY_ENTRIES
            &&& after.last() == entry
            &&& after.drop_last().is_suffix_of(activity)
            &&& activity.len() < canvas::MAX_ACTIVITY_ENTRIES ==> after.drop_last() == activity
            &&& activity.len() == canvas::MAX_ACTIVITY_ENTRIES ==> after.len() == activity.len()
        }),
{
    let after = canvas::remembered(activity, entry);
    if activity.len() < canvas::MAX_ACTIVITY_ENTRIES {
        assert(after.drop_last() =~= activity);
        assert(activity =~= activity.subrange(0, activity.len() as int));
    } else {
        assert(after.drop_last() =~= activity.skip(1));
        assert(activity.skip(1) =~= activity.subrange(1, activity.len() as int));
    }
}

/// An edit in the inspector changes what it is about and nothing else of the step.
pub proof fn law_inspector_edits_change_one_thing(edit: NodeEdit, node: NodeModel)
    ensures
        ({
            let after = edit.applied(node);
            &&& match edit {
                NodeEdit::Title(title) => after == (NodeModel { title: title@, ..node }),
                NodeEdit::Goal(goal) => after == (NodeModel { intent: goal@, ..node }),
                NodeEdit::Capture(capture) => after == (NodeModel { capture: capture@, ..node }),
                NodeEdit::TogglePinned => after == (NodeModel { pinned: !node.pinned, ..node }),
                NodeEdit::Place(position) => after == (NodeModel {
                    position: Some(position),
                    ..node
                }),
                NodeEdit::AddRule(rule) => {
                    &&& after == (NodeModel { rules: after.rules, ..node })
                    &&& text::is_blank(rule@) ==> after.rules == node.rules
                    &&& !text::is_blank(rule@) ==> after.rules.len() == node.rules.len() + 1
                        && after.rules.last() == text::trimmed(rule@) && after.rules.drop_last()
                        == node.rules
                },
                NodeEdit::RemoveRule(ix) => {
                    &&& after == (NodeModel { rules: after.rules, ..node })
                    &&& ix >= node.rules.len() ==> after.rules == node.rules
                    &&& ix < node.rules.len() ==> after.rules.len() == node.rules.len() - 1 && (
                    forall|j: int|
                        0 <= j < after.rules.len() ==> #[trigger] after.rules[j] == node.rules[if j
                            < ix {
                            j
                        } else {
                            j + 1
                        }])
                },
            }
        }),
{
    let after = edit.applied(node);
    if let NodeEdit::AddRule(rule) = edit {
        if !text::is_blank(rule@) {
            assert(after.rules.drop_last() =~= node.rules);
        }
    }
}

/// The conversation about a step opens with what is decided so far and with every step
/// that follows it, by title and id.
pub proof fn law_conversations_open_with_the_step(plan: GraphModel, node: NodeModel, i: int)
    ensures
        ({
            let said = plan.opening_brief(node);
            let out = plan.edges.filter(|e: EdgeModel| e.from == node.id);
            &&& ("We are settling one step of the plan: \""@ + node.title
                + "\".\n\n## Goal so far\n"@).is_prefix_of(said)
            &&& !text::is_blank(node.intent) ==> text::part_of(text::trimmed(node.intent), said)
            &&& 0 <= i < node.rules.len() ==> text::part_of("- "@ + node.rules[i] + "\n"@, said)
            &&& 0 <= i < out.len() && plan.node(out[i].to) is Some ==> text::part_of(
                "- "@ + plan.node(out[i].to)->0.title + " (id: "@ + plan.node(out[i].to)->0.id
                    + ")\n"@,
                said,
            )
        }),
{
    let said = plan.opening_brief(node);
    let out = plan.edges.filter(|e: EdgeModel| e.from == node.id);
    let a = "We are settling one step of the plan: \""@ + node.title + "\".\n\n## Goal so far\n"@;
    let b = if text::is_blank(node.intent) {
        "Not decided yet; that is what this conversation is for."@
    } else {
        text::trimmed(node.intent)
    };
    let c = "\n\n## Rules so far\n"@;
    let d = if node.rules.len() == 0 {
        "None yet.\n"@
    } else {
        text::bulleted(node.rules)
    };
    let e = "\n## What follows this step\n"@;
    let f = if plan.followers(node.id).len() == 0 {
        "Nothing follows this step; it is where the plan ends.\n"@
    } else {
        plan.followers(node.id)
    };
    let g =
        "\nHelp me pin this down. Ask about anything ambiguous instead of guessing, and question the goal if it is vague or wrong. When we agree, record it with refine_step, including the routing to the steps above once we have settled when each one is taken.\n\nYou are not building anything here, and no other step is yours to change; that is the main conversation's job."@;
    assert(said == a + b + c + d + e + f + g);
    lemma_seven(a, b, c, d, e, f, g);
    if 0 <= i < node.rules.len() {
        let lines = node.rules.map_values(|item: Seq<char>| "- "@ + item + "\n"@);
        text::lemma_part_of_flat(lines, i);
        text::lemma_part_within(lines[i], d, said);
    }
    if 0 <= i < out.len() && plan.node(out[i].to) is Some {
        let lines = plan.edges_from(node.id).map_values(|e: EdgeModel| plan.follower_line(e));
        text::lemma_part_of_flat(lines, i);
        let line = lines[i];
        assert(line == plan.follower_line(out[i]));
        let at = choose|at: int| text::stands_at(line, text::flat(lines), at);
        assert(text::stands_at(line, text::flat(lines), at));
        reveal_strlit("- ");
        assert(line.len() > 0);
        assert(plan.followers(node.id).len() > 0);
        text::lemma_part_within(line, f, said);
    }
}

proof fn lemma_seven(
    a: Seq<char>,
    b: Seq<char>,
    c: Seq<char>,
    d: Seq<char>,
    e: Seq<char>,
    f: Seq<char>,
    g: Seq<char>,
)
    ensures
        a.is_prefix_of(a + b + c + d + e + f + g),
        text::part_of(b, a + b + c + d + e + f + g),
        text::part_of(d, a + b + c + d + e + f + g),
        text::part_of(f, a + b + c + d + e + f + g),
{
    let whole = a + b + c + d + e + f + g;
    assert(a =~= whole.subrange(0, a.len() as int));
    text::lemma_part(a, b, c + d + e + f + g);
    assert(a + b + (c + d + e + f + g) =~= whole);
    text::lemma_part(a + b + c, d, e + f + g);
    assert(a + b + c + d + (e + f + g) =~= whole);
    text::lemma_part(a + b + c + d + e, f, g);
}

} // verus!
