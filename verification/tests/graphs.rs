use architect::{
    ArchitectEdge, ArchitectGraph, ArchitectNode, EdgeCondition, GraphProblem, NodeId, Position,
    ProposedEdge, ProposedGraph, ProposedNode, SessionId, StepResult,
};

/// A chain with a loop back to an earlier step, which is the shape the
/// layout and validation both have to tolerate.
fn looping_graph() -> ArchitectGraph {
    let mut graph = ArchitectGraph::default();
    for id in ["plan", "edit", "test", "ship"] {
        graph.add_node(ArchitectNode::new(id, id));
    }
    graph.connect("plan", "edit");
    graph.connect("edit", "test");
    graph.connect("test", "ship");
    // Failing tests send us back to editing.
    graph
        .edges
        .push(ArchitectEdge::new("retry", "test", "edit").with_condition(
            EdgeCondition::LlmEvaluated {
                question: "Did the tests fail?".into(),
            },
        ));
    graph
}

#[test]
fn removing_a_node_takes_its_connections_with_it() {
    let mut graph = looping_graph();
    graph.remove_node(&"test".into());

    assert!(graph.node(&"test".into()).is_none());
    assert!(
        graph
            .edges
            .iter()
            .all(|edge| edge.from.0 != "test" && edge.to.0 != "test"),
        "no edge should still refer to the removed step: {:?}",
        graph.edges
    );
    assert!(
        graph.problems().is_empty(),
        "removing a node should not leave the graph broken: {:?}",
        graph.problems()
    );
}

#[test]
fn adding_a_node_with_a_taken_id_gets_a_fresh_one() {
    let mut graph = ArchitectGraph::default();
    let first = graph.add_node(ArchitectNode::new("edit", "Edit"));
    let second = graph.add_node(ArchitectNode::new("edit", "Edit again"));

    assert_eq!(first, NodeId("edit".into()));
    assert_ne!(second, first);
    assert_eq!(graph.nodes.len(), 2);
}

#[test]
fn fresh_ids_are_numbered_from_two() {
    let mut graph = ArchitectGraph::default();
    graph.add_node(ArchitectNode::new("edit", "Edit"));
    graph.add_node(ArchitectNode::new("edit-2", "Edit"));
    let third = graph.add_node(ArchitectNode::new("edit", "Edit"));
    assert_eq!(third, NodeId("edit-3".into()));
}

#[test]
fn a_loop_does_not_make_a_reachable_graph_look_unreachable() {
    let graph = looping_graph();
    assert_eq!(graph.problems(), vec![]);
}

/// A plan that ends by looping back to its first step has nothing with a
/// clear "nothing leads here" entry, but it is perfectly ordinary.
#[test]
fn a_plan_that_loops_back_to_its_first_step_is_fine() {
    let mut graph = ArchitectGraph::default();
    graph.add_node(ArchitectNode::new("reproduce", "Reproduce"));
    graph.add_node(ArchitectNode::new("fix", "Fix"));
    graph.connect("reproduce", "fix");
    graph.connect("fix", "reproduce");

    assert_eq!(graph.roots(), vec![NodeId("reproduce".into())]);
    assert_eq!(graph.problems(), vec![]);
}

#[test]
fn reports_a_step_nothing_leads_to() {
    let mut graph = looping_graph();
    graph.add_node(ArchitectNode::new("orphan", "Orphan"));
    // An orphan with no incoming edge is a root, so give it one from
    // another orphan to make it genuinely unreachable.
    graph.add_node(ArchitectNode::new("orphan-source", "Orphan source"));
    graph.connect("orphan-source", "orphan");
    graph.connect("orphan", "orphan-source");

    let problems = graph.problems();
    assert!(
        problems.contains(&GraphProblem::Unreachable(NodeId("orphan".into()))),
        "expected the orphan to be reported, got {problems:?}"
    );
}

#[test]
fn reports_an_edge_pointing_at_a_missing_step() {
    let mut graph = ArchitectGraph::default();
    graph.add_node(ArchitectNode::new("plan", "Plan"));
    graph.connect("plan", "nowhere");

    let problems = graph.problems();
    assert!(
        problems.iter().any(|problem| matches!(
            problem,
            GraphProblem::DanglingEdge { missing, .. } if missing.0 == "nowhere"
        )),
        "expected a dangling edge, got {problems:?}"
    );
}

#[test]
fn reports_two_steps_that_share_an_id() {
    let mut graph = ArchitectGraph::default();
    graph.nodes.push(ArchitectNode::new("plan", "Plan"));
    graph.nodes.push(ArchitectNode::new("plan", "Plan again"));
    assert_eq!(
        graph.problems(),
        vec![GraphProblem::DuplicateNode(NodeId("plan".into()))]
    );
    assert_eq!(
        graph.problems()[0].to_text(),
        "more than one step uses the id plan"
    );
}

#[test]
fn locking_reports_when_the_graph_is_ready() {
    let mut graph = looping_graph();
    assert!(!graph.is_fully_locked());

    let ids: Vec<NodeId> = graph.nodes.iter().map(|node| node.id.clone()).collect();
    for id in &ids {
        graph.set_locked(id, true);
    }
    assert!(graph.is_fully_locked());

    graph.set_locked(&ids[0], false);
    assert!(!graph.is_fully_locked());
}

#[test]
fn an_empty_graph_is_never_ready_to_run() {
    let graph = ArchitectGraph::default();
    assert!(!graph.is_fully_locked());
}

/// A settled plan, as it would be after the user argued the steps out and
/// locked one of them.
fn settled_plan() -> ArchitectGraph {
    let mut graph: ArchitectGraph = ArchitectGraph::default();
    graph.add_node(ArchitectNode {
        intent: "Every migration is reversible".into(),
        rules: vec!["Do not change the token format".into()],
        capture: "The migration number".into(),
        locked: true,
        chat: Some(SessionId("chat-schema".into())),
        result: Some(StepResult {
            summary: "Added expires_at, migration 0007".into(),
            attempt: 2,
        }),
        position: Some(Position { x: 40, y: 80 }),
        pinned: true,
        ..ArchitectNode::new("schema", "Define schema")
    });
    graph.add_node(ArchitectNode {
        intent: "Endpoints behave per schema".into(),
        capture: "Which endpoints changed".into(),
        chat: Some(SessionId("chat-handlers".into())),
        ..ArchitectNode::new("handlers", "Write handlers")
    });
    graph
        .edges
        .push(ArchitectEdge::new("schema->handlers", "schema", "handlers"));
    graph
}

fn step(id: &str, title: &str) -> ProposedNode {
    ProposedNode {
        id: id.into(),
        title: title.into(),
        intent: String::new(),
        rules: Vec::new(),
        capture: String::new(),
        steps: None,
    }
}

fn settled_step() -> ProposedNode {
    ProposedNode {
        intent: "Every migration is reversible".into(),
        rules: vec!["Do not change the token format".into()],
        capture: "The migration number".into(),
        ..step("schema", "Define schema")
    }
}

fn connection(from: &str, to: &str) -> ProposedEdge {
    ProposedEdge {
        from: from.into(),
        to: to.into(),
        condition: None,
    }
}

fn draft(nodes: Vec<ProposedNode>, edges: Vec<ProposedEdge>) -> ArchitectGraph {
    ProposedGraph { nodes, edges }.into_graph()
}

#[test]
fn a_redraw_that_drops_a_locked_step_is_refused() {
    // The failure this guards against lost an afternoon of deliberation to a
    // single "revise the plan", with nothing on screen to say it had gone.
    let settled = settled_plan();
    let refusal = settled
        .merge_draft(draft(vec![step("handlers", "Write handlers")], vec![]))
        .expect_err("dropping a locked step must be refused");

    assert_eq!(refusal.steps, vec!["Define schema"]);
}

#[test]
fn a_redraw_that_rewrites_a_locked_step_is_refused() {
    let settled = settled_plan();
    let refusal = settled
        .merge_draft(draft(
            vec![
                ProposedNode {
                    intent: "Something else".into(),
                    ..step("schema", "Define schema")
                },
                step("handlers", "Write handlers"),
            ],
            vec![],
        ))
        .expect_err("rewriting a locked step must be refused");

    assert_eq!(refusal.steps, vec!["Define schema"]);
}

#[test]
fn a_redraw_that_reroutes_a_locked_step_is_refused() {
    // Where a settled step leads was settled with it.
    let settled = settled_plan();
    let refusal = settled
        .merge_draft(draft(
            vec![
                settled_step(),
                step("handlers", "Write handlers"),
                step("tests", "Add tests"),
            ],
            vec![connection("schema", "tests")],
        ))
        .expect_err("rerouting a locked step must be refused");

    assert_eq!(refusal.steps, vec!["Define schema"]);
}

#[test]
fn a_redraw_may_reshape_the_plan_around_a_locked_step() {
    // Restating the locked step exactly is allowed: that is what preserving
    // it looks like. Everything else about the plan is the draft's business.
    let settled = settled_plan();
    let merged = settled
        .merge_draft(draft(
            vec![
                settled_step(),
                step("handlers", "Write handlers"),
                step("ship", "Ship it"),
            ],
            vec![
                connection("schema", "handlers"),
                connection("handlers", "ship"),
            ],
        ))
        .expect("reshaping around a locked step is allowed");

    assert_eq!(merged.graph.nodes.len(), 3);
    assert!(merged.graph.node(&NodeId::from("ship")).is_some());
}

#[test]
fn a_redraw_keeps_what_a_draft_cannot_know() {
    let settled = settled_plan();
    let merged = settled
        .merge_draft(draft(
            vec![settled_step(), step("handlers", "Write handlers")],
            vec![connection("schema", "handlers")],
        ))
        .unwrap();

    let schema = merged.graph.node(&NodeId::from("schema")).unwrap();
    assert!(schema.locked, "a settled step must come back settled");
    assert!(schema.pinned);
    assert_eq!(schema.position, Some(Position { x: 40, y: 80 }));
    assert_eq!(schema.chat, Some(SessionId("chat-schema".into())));
    assert_eq!(
        schema.result.as_ref().map(|result| result.attempt),
        Some(2),
        "what a step reported when it ran is not the draft's to discard"
    );

    // The draft said nothing about this step beyond its title, which is not
    // the same as saying it has no goal.
    let handlers = merged.graph.node(&NodeId::from("handlers")).unwrap();
    assert_eq!(handlers.intent, "Endpoints behave per schema");
    assert_eq!(handlers.capture, "Which endpoints changed");
    assert_eq!(
        handlers.chat,
        Some(SessionId("chat-handlers".into())),
        "redrawing a plan must not orphan a step's conversation"
    );

    assert!(merged.preserved.contains(&NodeId::from("handlers")));
}

#[test]
fn a_redraw_that_leaves_a_nested_plan_out_keeps_it() {
    let mut plan = ArchitectGraph::default();
    let mut nested = ArchitectGraph::default();
    nested.add_node(ArchitectNode::new("inner", "Inner"));
    let mut outer = ArchitectNode::new("outer", "Outer");
    outer.subplan = Some(Box::new(nested));
    plan.add_node(outer);
    plan.add_node(ArchitectNode::new("plain", "Plain"));

    let merged = plan
        .merge_draft(draft(
            vec![step("outer", "Outer"), step("plain", "Plain")],
            vec![],
        ))
        .unwrap();
    let kept = merged.graph.node(&"outer".into()).unwrap();
    assert_eq!(kept.subplan.as_ref().unwrap().nodes[0].title, "Inner");
    assert_eq!(merged.preserved, vec![NodeId::from("outer")]);
}

#[test]
fn a_redraw_may_still_replace_detail_it_states() {
    // Preserving blanks must not become refusing to edit.
    let settled = settled_plan();
    let merged = settled
        .merge_draft(draft(
            vec![
                settled_step(),
                ProposedNode {
                    intent: "A better goal".into(),
                    ..step("handlers", "Write handlers")
                },
            ],
            vec![connection("schema", "handlers")],
        ))
        .unwrap();

    assert_eq!(
        merged.graph.node(&NodeId::from("handlers")).unwrap().intent,
        "A better goal"
    );
}

#[test]
fn the_outline_gives_the_model_ids_and_what_is_settled() {
    let outline = settled_plan().outline();

    assert!(
        outline.contains("schema"),
        "ids are how a redraw matches up"
    );
    assert!(outline.contains("[locked: settled, do not rewrite]"));
    assert!(outline.contains("goal: Every migration is reversible"));
    assert!(outline.contains("rule: Do not change the token format"));
    assert!(outline.contains("leads to handlers (always)"));
    assert!(
        outline.contains("has its own conversation"),
        "the model has to know a step was argued out elsewhere"
    );
}

#[test]
fn a_proposal_arrives_laid_out() {
    let proposal = ProposedGraph {
        nodes: vec![
            step("plan", "Plan the change"),
            ProposedNode {
                rules: vec!["Keep the public API stable".into()],
                ..step("edit", "Make the edit")
            },
        ],
        edges: vec![connection("plan", "edit")],
    };

    let graph = proposal.into_graph();

    assert_eq!(graph.nodes.len(), 2);
    assert!(
        graph.nodes.iter().all(|node| node.position.is_some()),
        "every proposed node should be placed"
    );
    assert_eq!(graph.nodes[1].rules, vec!["Keep the public API stable"]);
    assert!(graph.edges[0].condition.is_always());
    assert!(
        graph.nodes.iter().all(|node| !node.locked),
        "a proposal should never arrive locked"
    );
}

#[test]
fn placing_nodes_leaves_positions_the_user_chose() {
    let mut graph = looping_graph();
    let pinned = Position { x: -500, y: 42 };
    graph.node_mut(&"edit".into()).unwrap().position = Some(pinned);

    graph.place_unpositioned_nodes();

    assert_eq!(graph.node(&"edit".into()).unwrap().position, Some(pinned));
    assert!(graph.nodes.iter().all(|node| node.position.is_some()));
}

#[test]
fn the_same_routing_in_another_order_still_matches() {
    let on = |condition: EdgeCondition| ProposedEdge {
        condition: Some(condition),
        ..connection("a", "b")
    };
    let checked = || EdgeCondition::Deterministic {
        expression: "x".into(),
    };
    let judged = || EdgeCondition::LlmEvaluated {
        question: "x".into(),
    };
    let empty = || EdgeCondition::Deterministic {
        expression: String::new(),
    };
    for (first, second) in [
        (checked(), judged()),
        (EdgeCondition::Always, empty()),
        (empty(), EdgeCondition::Always),
    ] {
        let steps = || vec![step("a", "A"), step("b", "B")];
        let mut plan = draft(steps(), vec![on(first.clone()), on(second.clone())]);
        plan.set_locked(&"a".into(), true);
        let merged = plan
            .merge_draft(draft(steps(), vec![on(second), on(first.clone())]))
            .expect("the routing is the same");
        assert!(merged.graph.node(&"a".into()).unwrap().locked);
        // One route less is another routing.
        let refusal = plan
            .merge_draft(draft(steps(), vec![on(first)]))
            .expect_err("a route was dropped");
        assert_eq!(refusal.steps, vec!["A"]);
    }
}

/// A step `outer` that contains a locked step and an open one.
fn plan_with_a_settled_step_inside() -> ArchitectGraph {
    let mut plan = draft(
        vec![
            ProposedNode {
                steps: Some(Box::new(ProposedGraph {
                    nodes: vec![step("kept", "Kept"), step("free", "Free")],
                    edges: vec![connection("kept", "free")],
                })),
                ..step("outer", "Outer")
            },
            step("other", "Other"),
        ],
        vec![],
    );
    let inner = plan.subplan_mut(&"outer".into()).unwrap();
    inner.set_locked(&"kept".into(), true);
    inner.node_mut(&"free".into()).unwrap().chat = Some(SessionId("chat-free".into()));
    plan
}

#[test]
fn a_redraw_that_drops_a_locked_step_inside_another_is_refused() {
    let plan = plan_with_a_settled_step_inside();
    let refusal = plan
        .merge_draft(draft(vec![step("other", "Other")], vec![]))
        .expect_err("the locked step would be dropped with the one around it");
    assert_eq!(refusal.steps, vec!["Kept"]);

    let within = |nodes: Vec<ProposedNode>, edges: Vec<ProposedEdge>| {
        draft(
            vec![ProposedNode {
                steps: Some(Box::new(ProposedGraph { nodes, edges })),
                ..step("outer", "Outer")
            }],
            vec![],
        )
    };
    let refusal = plan
        .merge_draft(within(vec![step("free", "Free")], vec![]))
        .expect_err("the locked step would be dropped");
    assert_eq!(refusal.steps, vec!["Kept"]);
    let refusal = plan
        .merge_draft(within(
            vec![step("kept", "Changed"), step("free", "Free")],
            vec![connection("kept", "free")],
        ))
        .expect_err("the locked step would be rewritten");
    assert_eq!(refusal.steps, vec!["Kept"]);

    let merged = plan
        .merge_draft(within(
            vec![step("kept", "Kept"), step("free", "Free"), step("new", "New")],
            vec![connection("kept", "free"), connection("free", "new")],
        ))
        .expect("the locked step is restated");
    let inside = merged.graph.node(&"outer".into()).unwrap().subplan().unwrap();
    assert_eq!(inside.nodes.len(), 3);
    assert!(inside.node(&"kept".into()).unwrap().locked);
    assert_eq!(
        inside.node(&"free".into()).unwrap().chat,
        Some(SessionId("chat-free".into()))
    );
    assert_eq!(merged.preserved, vec![], "the draft has a plan of its own for the step");
}

#[test]
fn a_redraw_that_has_another_plan_for_a_locked_step_is_refused() {
    let mut plan = plan_with_a_settled_step_inside();
    plan.set_locked_at(
        &architect::NodePath(vec!["outer".into(), "free".into()]),
        true,
    )
    .unwrap();
    plan.set_locked_at(&architect::NodePath(vec!["outer".into()]), true)
        .unwrap();
    let with = |steps: Option<Box<ProposedGraph>>| {
        draft(
            vec![ProposedNode {
                steps,
                ..step("outer", "Outer")
            }],
            vec![],
        )
    };
    let inner = |more: Vec<ProposedNode>| {
        let mut nodes = vec![step("kept", "Kept"), step("free", "Free")];
        nodes.extend(more);
        Some(Box::new(ProposedGraph {
            nodes,
            edges: vec![connection("kept", "free")],
        }))
    };
    let refusal = plan
        .merge_draft(with(inner(vec![step("new", "New")])))
        .expect_err("a step would be added to a settled plan");
    assert_eq!(refusal.steps, vec!["Outer"]);
    let refusal = plan
        .merge_draft(with(Some(Box::new(ProposedGraph {
            nodes: vec![step("else", "Else")],
            edges: vec![],
        }))))
        .expect_err("a settled plan would be replaced");
    assert_eq!(refusal.steps, vec!["Outer"]);

    for drawn in [with(None), with(inner(vec![]))] {
        let merged = plan.merge_draft(drawn).expect("nothing is changed");
        assert!(merged.graph.is_fully_locked_deeply());
    }
}

/// A plan whose one step contains two steps of the same id, told apart by what was
/// decided about them.
fn plan_with_a_repeated_id_inside(locked: bool) -> ArchitectGraph {
    let mut inner = ArchitectGraph::default();
    inner.nodes.push(ArchitectNode {
        pinned: true,
        chat: Some(SessionId("chat-a".into())),
        result: Some(StepResult {
            summary: "Did A".into(),
            attempt: 1,
        }),
        ..ArchitectNode::new("x", "A")
    });
    inner.nodes.push(ArchitectNode {
        position: Some(Position { x: 1, y: 2 }),
        ..ArchitectNode::new("x", "B")
    });
    let mut plan = ArchitectGraph::default();
    plan.add_node(ArchitectNode {
        locked,
        subplan: Some(Box::new(inner)),
        ..ArchitectNode::new("outer", "Outer")
    });
    plan.add_node(ArchitectNode::new("other", "Other"));
    plan.connect("outer", "other");
    plan
}

#[test]
fn restating_a_plan_exactly_changes_nothing() {
    for plan in [
        settled_plan(),
        plan_with_a_settled_step_inside(),
        plan_with_a_repeated_id_inside(false),
        plan_with_a_repeated_id_inside(true),
    ] {
        let merged = plan.merge_draft(plan.clone()).expect("nothing is changed");
        assert!(merged.graph.same(&plan));
    }
}

#[test]
fn a_step_whose_nested_plan_is_carried_in_full_has_kept_nothing() {
    let plan = plan_with_a_repeated_id_inside(false);
    let merged = plan.merge_draft(plan.clone()).unwrap();
    assert_eq!(merged.preserved, vec![]);
}
