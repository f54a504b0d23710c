use architect::canvas::{
    Canvas, InspectorTab, Interaction, KeyAction, NodeEdit, Selection, MAX_ACTIVITY_ENTRIES,
};
use architect::cards::{
    edge_labels, edge_lines, empty_canvas, expanded_children, node_cards, node_size, CardBorder,
    CardContext, EdgeTone,
};
use architect::extent::{map_blocks, plan_extent, BlockTone, Extent};
use architect::header::{
    breadcrumb, command_bar, failed_node, level_label, map_label, plan_header, run_bar,
    running_node, shows_map, RunProgress,
};
use architect::inspector::{adopt_chat, inspect_step, step_brief, step_fields};
use architect::outline_panel::{plan_outline, OutlineContext};
use architect::panel::{Glyph, Tone};
use architect::starting::{
    conversation_notice, is_running, start_decision, RunStartingGuard, StartDecision,
};
use architect::{
    ArchitectGraph, ArchitectNode, EdgeCondition, NodeId, NodePath, Position, RunOutcome,
    SessionId, StepResult,
};

fn return_while_starting(run_starting: &mut bool) -> Option<()> {
    let guard = RunStartingGuard::new(run_starting);
    assert!(guard.is_starting());
    None
}

#[test]
fn run_starting_resets_after_early_return() {
    let mut run_starting = false;

    assert_eq!(return_while_starting(&mut run_starting), None);
    assert!(!run_starting);
}

#[test]
fn a_run_is_asked_for_once_and_needs_its_conversation() {
    assert_eq!(start_decision(true, true, true), StartDecision::Nothing);
    assert_eq!(start_decision(false, false, true), StartDecision::Nothing);
    assert_eq!(
        start_decision(false, true, false),
        StartDecision::NeedsConversation
    );
    assert_eq!(start_decision(false, true, true), StartDecision::Start);
    assert!(conversation_notice().contains("open in the agent panel"));
    assert!(is_running(true, false));
    assert!(!is_running(false, false));
}

#[test]
fn canvas_edits_nested_navigation_and_locking_follow_graph_rules() {
    let parent = NodeId::from("parent");
    let child = NodeId::from("child");
    let target = NodeId::from("target");
    let mut nested = ArchitectGraph::default();
    let mut child_node = ArchitectNode::new("child", "Child");
    child_node.position = Some(Position { x: 0, y: 0 });
    nested.add_node(child_node);
    let mut graph = ArchitectGraph::default();
    let mut parent_node = ArchitectNode::new("parent", "Parent");
    parent_node.position = Some(Position { x: 0, y: 0 });
    parent_node.subplan = Some(Box::new(nested));
    graph.add_node(parent_node);
    let mut target_node = ArchitectNode::new("target", "Target");
    target_node.position = Some(Position { x: 400, y: 0 });
    graph.add_node(target_node);

    let mut canvas = Canvas::new();
    assert_eq!(
        canvas.edit_node(&mut graph, &parent, NodeEdit::Place(Position { x: 80, y: 40 })),
        None
    );
    assert_eq!(
        graph.node(&parent).and_then(|node| node.position),
        Some(Position { x: 80, y: 40 })
    );

    canvas.interaction = Interaction::Connecting(parent.clone());
    assert_eq!(
        canvas.release_pointer(&mut graph, Some(target.clone())),
        None
    );
    let edge = graph
        .edges
        .first()
        .expect("dragging a connector onto a step should create an edge")
        .id
        .clone();
    canvas.selection = Some(Selection::Edge(edge));
    canvas.delete_selection(&mut graph);
    assert!(graph.edges.is_empty());

    canvas.interaction = Interaction::Connecting(parent.clone());
    canvas.release_pointer(&mut graph, Some(target.clone()));
    canvas.selection = Some(Selection::Node(target.clone()));
    canvas.delete_selection(&mut graph);
    assert!(graph.node(&target).is_none());
    assert!(graph.edges.is_empty(), "deleting a step removes its edges");

    assert!(canvas.toggle_lock(&mut graph, &parent).is_some());
    assert!(!graph.node(&parent).unwrap().locked);
    canvas.drill_into(&mut graph, parent.clone());
    assert_eq!(canvas.focus, NodePath::root(parent.clone()));
    canvas.toggle_lock(&mut graph, &child);
    assert!(canvas.shown(&graph).unwrap().node(&child).unwrap().locked);
    assert!(canvas.drill_out(&graph));
    assert_eq!(canvas.selection, Some(Selection::Node(parent.clone())));
    canvas.toggle_lock(&mut graph, &parent);
    assert!(graph.node(&parent).unwrap().locked);

    canvas.drill_into(&mut graph, parent.clone());
    canvas.focus_depth(0);
    assert_eq!(canvas.focus, NodePath::default());

    let mut run = RunProgress {
        outcome: None,
        current: Some(NodePath::root(parent.clone())),
        current_title: "Parent".into(),
        step_number: 1,
        history: vec![true],
        elapsed_secs: 0,
    };
    canvas.replace_thread(true);
    assert_eq!(running_node(Some(&run)), Some(parent.clone()));
    run.outcome = Some(RunOutcome::Cancelled);
    run.current = None;
    assert_eq!(running_node(Some(&run)), None);
}

#[test]
fn edits_of_a_settled_step_are_refused_with_a_notice() {
    let mut graph = ArchitectGraph::default();
    graph.add_node(ArchitectNode {
        locked: true,
        ..ArchitectNode::new("a", "A")
    });
    let mut canvas = Canvas::new();
    let notice = canvas
        .edit_node(&mut graph, &"a".into(), NodeEdit::Title("B".into()))
        .unwrap();
    assert_eq!(
        notice,
        "That change was refused: a is locked, so it can no longer be edited"
    );
    canvas.selection = Some(Selection::Node("a".into()));
    assert!(canvas.delete_selection(&mut graph).is_some());
    assert_eq!(graph.nodes[0].title, "A");
    assert_eq!(
        canvas.drill_into(&mut graph, "a".into()).unwrap(),
        "This step is locked. Unlock it before breaking it into steps."
    );
}

#[test]
fn rules_are_added_trimmed_and_removed_by_place() {
    let mut graph = ArchitectGraph::default();
    graph.add_node(ArchitectNode::new("a", "A"));
    let canvas = Canvas::new();
    canvas.edit_node(&mut graph, &"a".into(), NodeEdit::AddRule("  keep ".into()));
    canvas.edit_node(&mut graph, &"a".into(), NodeEdit::AddRule("   ".into()));
    assert_eq!(graph.nodes[0].rules, vec!["keep"]);
    canvas.edit_node(&mut graph, &"a".into(), NodeEdit::RemoveRule(3));
    assert_eq!(graph.nodes[0].rules.len(), 1);
    canvas.edit_node(&mut graph, &"a".into(), NodeEdit::RemoveRule(0));
    assert!(graph.nodes[0].rules.is_empty());
    canvas.edit_node(&mut graph, &"a".into(), NodeEdit::TogglePinned);
    assert!(graph.nodes[0].pinned);
}

#[test]
fn an_added_step_gets_an_id_of_its_own_and_is_selected() {
    let mut graph = ArchitectGraph::default();
    let mut canvas = Canvas::new();
    canvas.add_step(&mut graph, Position { x: 3, y: 4 });
    canvas.add_step(&mut graph, Position { x: 3, y: 4 });
    assert_eq!(graph.nodes.len(), 2);
    assert_ne!(graph.nodes[0].id, graph.nodes[1].id);
    for node in &graph.nodes {
        assert!(node.id.0.starts_with("step-"));
        assert_eq!(node.id.0.len(), 37);
        assert!(node.id.0[5..]
            .chars()
            .all(|c| c.is_ascii_digit() || ('a'..='f').contains(&c)));
        assert_eq!(node.title, "New step");
    }
    assert_eq!(
        canvas.selection,
        Some(Selection::Node(graph.nodes[1].id.clone()))
    );
    assert_eq!(canvas.activity.len(), 2);
}

#[test]
fn keys_and_reviews_move_the_selection() {
    let mut graph = ArchitectGraph::default();
    for id in ["a", "b", "c"] {
        graph.add_node(ArchitectNode {
            locked: id != "b",
            ..ArchitectNode::new(id, id)
        });
    }
    graph.connect("a", "b");
    graph.connect("b", "c");
    let mut canvas = Canvas::new();
    assert_eq!(canvas.key_action("down"), KeyAction::SelectNext);
    assert_eq!(canvas.key_action("escape"), KeyAction::DrillOut);
    canvas.select_adjacent_step(true, &graph);
    canvas.select_adjacent_step(true, &graph);
    assert_eq!(canvas.selection, Some(Selection::Node("b".into())));
    canvas.select_adjacent_step(false, &graph);
    assert_eq!(canvas.selection, Some(Selection::Node("a".into())));
    assert_eq!(canvas.key_action("escape"), KeyAction::ClearSelection);
    assert_eq!(canvas.key_action("backspace"), KeyAction::DeleteSelection);
    canvas.review_plan(&graph);
    assert_eq!(canvas.selection, Some(Selection::Node("b".into())));
    assert_eq!(
        canvas.activity.last().unwrap().message,
        "Reviewed the plan: issues need attention"
    );
    canvas.set_all_locked(&mut graph, true);
    canvas.review_plan(&graph);
    assert_eq!(canvas.selection, Some(Selection::Node("a".into())));
    canvas.open_plan_conversation();
    assert_eq!(canvas.key_action("escape"), KeyAction::CloseInspector);
    assert_eq!(canvas.inspector_tab, InspectorTab::Details);
}

#[test]
fn the_pointer_selects_drags_and_opens() {
    let mut graph = drawn_plan();
    let mut canvas = Canvas::new();
    canvas.move_pointer(&mut graph, Some("a".into()), Position { x: 9, y: 9 });
    assert_eq!(canvas.hovered_node, Some("a".into()));
    assert_eq!(graph.nodes[0].position, Some(Position { x: 0, y: 0 }));
    assert!(!canvas.press_step(&graph, &"a".into(), 1));
    canvas.move_pointer(&mut graph, None, Position { x: 8, y: 16 });
    assert_eq!(graph.nodes[0].position, Some(Position { x: 8, y: 16 }));
    canvas.release_pointer(&mut graph, None);
    assert!(canvas.interaction.is_idle());
    assert!(canvas.press_step(&graph, &"a".into(), 2));
    canvas.press_canvas(&graph, Some(graph.edges[0].id.clone()));
    assert_eq!(
        canvas.selection,
        Some(Selection::Edge(graph.edges[0].id.clone()))
    );
    assert_eq!(canvas.press_key(&graph, "escape"), KeyAction::ClearSelection);
    assert_eq!(canvas.selection, None);
    assert!(canvas.interaction.is_idle());
    canvas.press_handle(&"b".into());
    let notice = canvas.release_pointer(&mut graph, Some("a".into()));
    assert!(notice.is_some(), "a settled step keeps its connections");
    canvas.press_key(&graph, "down");
    assert_eq!(canvas.selection, Some(Selection::Node("a".into())));
    canvas.press_key(&graph, "enter");
    assert!(canvas.inspector_drawer_open);
}

#[test]
fn only_the_last_things_that_happened_are_remembered() {
    let mut canvas = Canvas::new();
    for n in 0..MAX_ACTIVITY_ENTRIES + 5 {
        canvas.record_activity(None, &format!("{n}"));
    }
    assert_eq!(canvas.activity.len(), MAX_ACTIVITY_ENTRIES);
    assert_eq!(canvas.activity[0].message, "5");
}

#[test]
fn a_card_is_opened_and_closed_in_place() {
    let mut canvas = Canvas::new();
    for id in ["a", "b", "a"] {
        canvas.toggle_expanded(&NodeId::from(id));
    }
    assert_eq!(canvas.expanded, vec![NodeId::from("b")]);
}

#[test]
fn tidying_up_lays_the_plan_out() {
    let mut graph = ArchitectGraph::default();
    graph.add_node(ArchitectNode::new("a", "A"));
    let mut canvas = Canvas::new();
    canvas.tidy_up(&mut graph);
    assert_eq!(graph.nodes[0].position, Some(Position { x: 0, y: 0 }));
}

/// Two steps, the first with three steps inside, connected by a question; the second
/// leads back.
fn drawn_plan() -> ArchitectGraph {
    let mut inner = ArchitectGraph::default();
    for n in 0..7 {
        inner.add_node(ArchitectNode {
            intent: "A goal that is too long to be shown".into(),
            ..ArchitectNode::new(&format!("in{n}"), &format!("Inner {n}"))
        });
    }
    let mut graph = ArchitectGraph::default();
    graph.add_node(ArchitectNode {
        position: Some(Position { x: 0, y: 0 }),
        subplan: Some(Box::new(inner)),
        result: Some(StepResult {
            summary: "Did it".into(),
            attempt: 3,
        }),
        ..ArchitectNode::new("a", "Alpha")
    });
    graph.add_node(ArchitectNode {
        position: Some(Position { x: 340, y: 0 }),
        locked: true,
        ..ArchitectNode::new("b", "Beta")
    });
    graph.connect("a", "b");
    graph.connect_with(
        "b",
        "a",
        EdgeCondition::LlmEvaluated {
            question: "Is it still wrong?".into(),
        },
    );
    graph
}

fn context() -> CardContext {
    CardContext {
        selection: None,
        hovered: None,
        running: None,
        run_active: false,
        failed: None,
        expanded: Vec::new(),
        detailed: true,
    }
}

#[test]
fn cards_say_how_their_steps_stand() {
    let graph = drawn_plan();
    let cards = node_cards(&graph, &vec!["Keeps order".into()], &context());
    assert_eq!(cards.len(), 2);
    let alpha = &cards[0].card;
    assert_eq!(alpha.number, "01");
    assert_eq!(alpha.state, "completed");
    assert_eq!(alpha.tone, Tone::Success);
    assert_eq!(alpha.responsibility, "Keeps order");
    assert_eq!(alpha.goal, "No goal set yet");
    let (count, hint) = alpha.inside.as_ref().unwrap();
    assert_eq!(count, "7 steps");
    assert!(hint.ends_with("Inner 5  →  … and 1 more"));
    assert_eq!(alpha.attempt.as_ref().unwrap().0, "attempt 3");
    assert_eq!(alpha.summary.as_deref(), Some("Did it"));
    let beta = &cards[1].card;
    assert_eq!(beta.number, "02");
    assert_eq!(beta.state, "settled");
    assert_eq!(beta.responsibility, "Responsibility not set");
    assert_eq!(beta.border, CardBorder::Settled);
    assert_eq!(beta.inside, None);

    let mut busy = context();
    busy.running = Some("a".into());
    busy.run_active = true;
    busy.failed = Some("b".into());
    busy.expanded = vec!["a".into()];
    let cards = node_cards(&graph, &vec![], &busy);
    assert_eq!(cards[0].card.state, "running");
    assert_eq!(cards[0].card.border, CardBorder::Running);
    assert_eq!(cards[0].card.expand_glyph, Glyph::ChevronUp);
    assert_eq!(cards[0].card.inside, None);
    assert_eq!(cards[1].card.state, "failed");
    assert_eq!(cards[1].card.border, CardBorder::Error);
    assert_eq!(node_size(&graph.nodes[0], true), (344, 188));
    assert_eq!(node_size(&graph.nodes[1], true), (248, 104));
}

#[test]
fn an_expanded_card_shows_the_first_steps_inside() {
    let graph = drawn_plan();
    let running = NodePath::from(vec!["a".into(), "in1".into()]);
    let children =
        expanded_children(&graph.nodes[0], Some(&running), &NodePath::default()).unwrap();
    assert_eq!(children.cards.len(), 4);
    assert!(children.cards[1].running);
    assert!(!children.cards[0].running);
    // A step of the same id inside another step is another step.
    let elsewhere = NodePath::from(vec!["x".into(), "in1".into()]);
    let others =
        expanded_children(&graph.nodes[0], Some(&elsewhere), &NodePath::default()).unwrap();
    assert!(others.cards.iter().all(|card| !card.running));
    assert_eq!(children.cards[0].goal, "A goal that is too lo…");
    assert_eq!(children.hidden.as_deref(), Some("+3"));
    assert!(expanded_children(&graph.nodes[1], None, &NodePath::default()).is_none());
}

#[test]
fn connections_are_drawn_by_what_they_are() {
    let graph = drawn_plan();
    let lines = edge_lines(&graph, &None, &None);
    assert_eq!(lines.len(), 2);
    assert_eq!(lines[0].tone, EdgeTone::Plain);
    assert!(!lines[0].backwards);
    assert_eq!(lines[1].tone, EdgeTone::Loop);
    let lines = edge_lines(
        &graph,
        &Some(Selection::Edge(graph.edges[1].id.clone())),
        &Some("b".into()),
    );
    assert_eq!(lines[0].tone, EdgeTone::Active);
    assert_eq!(lines[1].tone, EdgeTone::Selected);
    assert!(lines[1].strong);

    let labels = edge_labels(&graph);
    assert_eq!(labels[0].label, "summary passed");
    assert_eq!(labels[0].hint, "What the next step was told:\nDid it");
    assert_eq!(labels[1].label, "Is it still wrong?");
    assert_eq!(labels[1].hint, "The model decides: Is it still wrong?");
    assert_eq!(labels[1].tone, Tone::Warning);
    assert_eq!(labels[1].glyph, Some(Glyph::Sparkle));
}

#[test]
fn the_plan_takes_up_the_room_of_its_cards() {
    let graph = drawn_plan();
    assert_eq!(
        plan_extent(&graph, &vec![]),
        Some(Extent {
            min_x: -124,
            max_x: 464,
            min_y: -52,
            max_y: 52
        })
    );
    assert_eq!(
        plan_extent(&graph, &vec!["a".into()]),
        Some(Extent {
            min_x: -172,
            max_x: 464,
            min_y: -94,
            max_y: 94
        })
    );
    assert_eq!(plan_extent(&ArchitectGraph::default(), &vec![]), None);
    let blocks = map_blocks(
        &graph,
        &Some("a".into()),
        &Some(Selection::Node("b".into())),
    );
    assert_eq!(blocks[0].tone, BlockTone::Running);
    assert_eq!(blocks[1].tone, BlockTone::Selected);
    assert!(!shows_map(&graph));
}

fn outline_context(search: &str) -> OutlineContext {
    OutlineContext {
        search: search.into(),
        selection: Some(Selection::Node("b".into())),
        running: None,
        run_active: true,
        failed: None,
    }
}

#[test]
fn the_outline_lists_the_steps_that_are_found() {
    let graph = drawn_plan();
    let outline = plan_outline(
        &graph,
        &vec![String::new(), "Ships ÄPFEL".into()],
        &outline_context(""),
    );
    assert_eq!(outline.readiness, "Review");
    assert_eq!(outline.settled, "1 settled");
    assert_eq!(outline.draft, "1 draft");
    assert_eq!(outline.complete, "1 complete");
    assert_eq!(outline.rows.len(), 2);
    assert_eq!(outline.rows[0].state, "completed");
    assert_eq!(outline.rows[1].state, "settled");
    assert!(outline.rows[1].selected);
    assert_eq!(outline.handoffs.len(), 2);
    assert!(outline.problems.len() > 0);
    assert!(outline.problems[0].label.chars().count() <= 42);

    let found = plan_outline(
        &graph,
        &vec![String::new(), "Ships ÄPFEL".into()],
        &outline_context("  äpfel "),
    );
    assert_eq!(found.rows.len(), 1);
    assert_eq!(found.rows[0].title, "Beta");
    assert_eq!(found.rows[0].number, "01");
    assert_eq!(found.nothing_found, None);
    let missed = plan_outline(&graph, &vec![], &outline_context("ALPHA!"));
    assert!(missed.rows.is_empty());
    assert_eq!(
        missed.nothing_found.as_deref(),
        Some("No steps match this search.")
    );
    assert_eq!(
        plan_outline(&graph, &vec![], &outline_context("ALPH")).rows[0].title,
        "Alpha"
    );
}

#[test]
fn the_inspector_shows_a_step_and_where_it_leads() {
    let graph = drawn_plan();
    let shown = inspect_step(&graph, &graph.nodes[0]);
    assert_eq!(shown.lock_hint, "Draft. Click to lock");
    assert_eq!(shown.inside, "7 steps · 7 still open");
    assert_eq!(shown.open, "Open Sub-plan (7 steps)");
    assert_eq!(shown.inner_steps.len(), 7);
    assert_eq!(shown.leads_to[0].target, "Beta");
    assert_eq!(shown.leads_to[0].condition, "always");
    assert_eq!(
        shown.last_result,
        Some(("attempt 3".into(), "Did it".into()))
    );
    assert!(shown.missing_capture.is_some());
    assert_eq!(shown.no_rules.as_deref(), Some("No rules yet."));
    assert!(!step_fields(&graph.nodes[0]).read_only);
    assert!(step_fields(&graph.nodes[1]).read_only);
    let locked = inspect_step(&graph, &graph.nodes[1]);
    assert_eq!(locked.footer, "Locked — unlock to edit");
    assert!(!locked.open_enabled);
    assert!(locked.leads_to[0].judged);
    assert_eq!(locked.leads_to[0].label, "Is it still wrong?");
}

#[test]
fn a_conversation_about_a_step_opens_with_its_brief() {
    let mut graph = drawn_plan();
    let brief = step_brief(&graph, &graph.nodes[0]);
    assert!(brief.starts_with(
        "We are settling one step of the plan: \"Alpha\".\n\n## Goal so far\nNot decided yet; \
         that is what this conversation is for.\n\n## Rules so far\nNone yet.\n\n## What follows \
         this step\n- Beta (id: b)\n\nHelp me pin this down."
    ));
    let path = NodePath::root("b".into());
    assert_eq!(
        adopt_chat(&mut graph, &path, SessionId("s".into())),
        Some(true)
    );
    assert_eq!(
        adopt_chat(&mut graph, &path, SessionId("t".into())),
        Some(false)
    );
    assert_eq!(graph.nodes[1].chat, Some(SessionId("t".into())));
    assert_eq!(
        adopt_chat(&mut graph, &NodePath::root("z".into()), SessionId("t".into())),
        None
    );
}

#[test]
fn the_header_says_how_ready_the_plan_is() {
    let graph = drawn_plan();
    let header = plan_header(Some(&graph), Some(&graph), None, false, None);
    assert_eq!(header.readiness, "Needs review");
    assert_eq!(header.run_hint, "Fix the problems with the plan first");
    assert_eq!(header.summary, "2 steps · 1 nested · 1 still open");
    assert!(!header.can_run);
    let mut ready = ArchitectGraph::default();
    ready.add_node(ArchitectNode {
        locked: true,
        ..ArchitectNode::new("a", "A")
    });
    let header = plan_header(Some(&ready), Some(&ready), None, false, None);
    assert_eq!(header.readiness, "Ready to run");
    assert!(header.can_run);
    assert_eq!(header.summary, "1 step · all locked");
    assert_eq!(header.line, "1 step · all locked · live workspace state");
    assert_eq!(
        plan_header(None, None, None, false, None).readiness,
        "Waiting for a plan"
    );
    assert!(command_bar(Some(&ready), false, false).can_search);
    assert!(!command_bar(Some(&ready), true, true).can_add_step);
}

#[test]
fn the_trail_names_every_level() {
    let graph = drawn_plan();
    let focus = NodePath::from(vec!["a".into()]);
    let trail = breadcrumb(Some(&graph), &focus);
    assert_eq!(trail.len(), 2);
    assert_eq!(trail[1].title, "Alpha");
    assert_eq!(map_label(Some(&graph), &NodePath::default()), "plan");
    assert_eq!(map_label(Some(&graph), &focus), "level 2 · Alpha");
    assert_eq!(level_label(&NodePath::default()), None);
}

#[test]
fn the_run_bar_counts_what_is_done() {
    let graph = drawn_plan();
    let mut run = RunProgress {
        outcome: None,
        current: Some(NodePath::root("b".into())),
        current_title: "Beta".into(),
        step_number: 2,
        history: vec![false, true],
        elapsed_secs: 12,
    };
    let bar = run_bar(Some(&graph), &run);
    assert_eq!(bar.status, "Running Beta");
    assert_eq!(bar.counter, "1 of 9 · 12s");
    assert_eq!(bar.tone, Tone::Info);
    run.outcome = Some(RunOutcome::NodeLimit {
        node: "b".into(),
        visits: 26,
    });
    assert_eq!(failed_node(Some(&run)), Some("b".into()));
    assert_eq!(run_bar(Some(&graph), &run).tone, Tone::Error);
    run.outcome = Some(RunOutcome::Completed);
    assert_eq!(run_bar(Some(&graph), &run).glyph, Glyph::Check);
    assert_eq!(failed_node(Some(&run)), None);
}

#[test]
fn an_empty_canvas_explains_itself() {
    assert!(empty_canvas(true).planning.is_some());
    assert!(empty_canvas(false).planning.is_none());
    assert_eq!(empty_canvas(false).title, "No plan yet");
}

#[test]
fn the_running_step_is_known_by_its_leaf() {
    let run = RunProgress {
        outcome: None,
        current: Some(NodePath::from(vec!["a".into(), "b".into()])),
        current_title: "B".into(),
        step_number: 2,
        history: vec![false, true],
        elapsed_secs: 0,
    };
    assert_eq!(running_node(Some(&run)), Some("b".into()));
    assert_eq!(running_node(None), None);
}
