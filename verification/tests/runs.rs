use architect::prompt::{branch_prompt, step_prompt};
use architect::run::{MAX_NODE_VISITS, MAX_PLAN_DEPTH, MAX_RUN_STEPS};
use architect::{
    ArchitectEdge, ArchitectGraph, ArchitectNode, Branch, Decision, EdgeCondition, GraphProblem,
    NodeId, NodePath, PlanRun, RunOutcome, RunRefusal, StepResult,
};

fn lock_deeply(graph: &mut ArchitectGraph) {
    for node in &mut graph.nodes {
        node.locked = true;
        if let Some(subplan) = node.subplan.as_deref_mut() {
            lock_deeply(subplan);
        }
    }
}

/// plan → edit → test, with test looping back to edit when it fails.
fn locked_graph() -> ArchitectGraph {
    let mut graph = ArchitectGraph::default();
    let mut plan = ArchitectNode::new("plan", "Plan the change");
    plan.intent = "Decide which files need to change".into();
    plan.rules = vec!["Do not edit anything yet".into()];
    plan.capture = "Which files you intend to change".into();
    graph.add_node(plan);
    graph.add_node(ArchitectNode::new("edit", "Make the edit"));
    graph.add_node(ArchitectNode::new("test", "Run the tests"));
    graph.connect("plan", "edit");
    graph.connect("edit", "test");
    graph.edges.push(
        ArchitectEdge::new("retry", "test", "edit").with_condition(EdgeCondition::LlmEvaluated {
            question: "Did the tests fail?".into(),
        }),
    );
    lock_deeply(&mut graph);
    graph
}

fn path(ids: &[&str]) -> NodePath {
    NodePath(ids.iter().map(|id| NodeId((*id).into())).collect())
}

#[test]
fn a_run_starts_at_the_step_nothing_leads_to() {
    let graph = locked_graph();
    let mut run = PlanRun::start(&graph).unwrap();
    assert_eq!(run.current(), path(&["plan"]));
    assert_eq!(run.decide(&graph), Decision::Run(path(&["plan"])));
}

#[test]
fn an_unconditional_connection_is_followed_without_asking_anything() {
    let graph = locked_graph();
    let mut run = PlanRun::start(&graph).unwrap();
    assert_eq!(run.finish_step(&graph), Decision::Run(path(&["edit"])));
}

#[test]
fn answering_yes_takes_the_branch_back_round_the_loop() {
    let graph = locked_graph();
    let mut run = PlanRun::start(&graph).unwrap();
    run.finish_step(&graph);
    run.finish_step(&graph);
    run.finish_step(&graph);
    assert_eq!(run.answer(&graph, true), Decision::Run(path(&["edit"])));
    assert_eq!(run.attempt(&NodeId("edit".into())), 2);
}

#[test]
fn answering_no_with_nowhere_else_to_go_completes_the_plan() {
    let graph = locked_graph();
    let mut run = PlanRun::start(&graph).unwrap();
    run.finish_step(&graph);
    run.finish_step(&graph);
    run.finish_step(&graph);
    assert_eq!(
        run.answer(&graph, false),
        Decision::Done(RunOutcome::Completed)
    );
}

#[test]
fn a_plain_connection_is_taken_when_every_condition_says_no() {
    let mut graph = ArchitectGraph::default();
    graph.add_node(ArchitectNode::new("check", "Check the build"));
    graph.add_node(ArchitectNode::new("fix", "Fix the build"));
    graph.add_node(ArchitectNode::new("ship", "Ship it"));
    graph.edges.push(
        ArchitectEdge::new("broken", "check", "fix").with_condition(
            EdgeCondition::Deterministic {
                expression: "the build failed".into(),
            },
        ),
    );
    graph.connect("check", "ship");
    lock_deeply(&mut graph);

    let mut run = PlanRun::start(&graph).unwrap();
    assert!(matches!(run.finish_step(&graph), Decision::Ask(_)));
    assert_eq!(run.answer(&graph, false), Decision::Run(path(&["ship"])));
}

// ── nesting ───────────────────────────────────────────────────────────

fn nested_graph() -> ArchitectGraph {
    let mut inner = ArchitectGraph::default();
    inner.add_node(ArchitectNode::new("parse", "Parse body"));
    inner.add_node(ArchitectNode::new("respond", "Respond"));
    inner.connect("parse", "respond");

    let mut graph = ArchitectGraph::default();
    graph.add_node(ArchitectNode::new("schema", "Define schema"));
    let mut handlers = ArchitectNode::new("handlers", "Write handlers");
    handlers.subplan = Some(Box::new(inner));
    graph.add_node(handlers);
    graph.add_node(ArchitectNode::new("ship", "Ship it"));
    graph.connect("schema", "handlers");
    graph.connect("handlers", "ship");
    lock_deeply(&mut graph);
    graph
}

#[test]
fn entering_a_step_that_contains_a_plan_descends_into_it() {
    let graph = nested_graph();
    let mut run = PlanRun::start(&graph).unwrap();

    assert_eq!(run.finish_step(&graph), Decision::Run(path(&["handlers", "parse"])));
    assert_eq!(run.depth(), 2, "the run should be inside the sub-plan");
}

#[test]
fn finishing_a_sub_plan_finishes_the_step_that_contained_it() {
    let graph = nested_graph();
    let mut run = PlanRun::start(&graph).unwrap();

    run.finish_step(&graph); // schema -> handlers, descends to parse
    run.finish_step(&graph); // parse -> respond
    assert_eq!(run.current(), path(&["handlers", "respond"]));

    // Respond is the last of the sub-plan, so finishing it should pop back
    // out and carry on with the step after the one that contained it.
    assert_eq!(run.finish_step(&graph), Decision::Run(path(&["ship"])));
    assert_eq!(run.depth(), 1);
}

#[test]
fn the_breadcrumb_shows_every_level_in_progress() {
    let graph = nested_graph();
    let mut run = PlanRun::start(&graph).unwrap();
    run.finish_step(&graph);

    assert_eq!(
        run.active_path(),
        vec![NodeId("handlers".into()), NodeId("parse".into())]
    );
}

#[test]
fn a_plan_nested_too_deep_is_refused_rather_than_run() {
    let mut graph = ArchitectGraph::default();
    graph.add_node(ArchitectNode::new("leaf", "Leaf"));
    for depth in 0..MAX_PLAN_DEPTH + 1 {
        let mut outer = ArchitectGraph::default();
        let mut node = ArchitectNode::new(&format!("level-{depth}"), &format!("Level {depth}"));
        node.subplan = Some(Box::new(graph));
        outer.add_node(node);
        graph = outer;
    }
    lock_deeply(&mut graph);

    let mut run = PlanRun::start(&graph).unwrap();
    assert!(
        matches!(
            run.decide(&graph),
            Decision::Done(RunOutcome::DepthLimit { .. })
        ),
        "a plan nested past the limit should stop the run"
    );
}

#[test]
fn a_sub_plan_with_an_unlocked_step_blocks_the_whole_run() {
    let mut graph = nested_graph();
    graph
        .node_mut(&NodeId("handlers".into()))
        .unwrap()
        .subplan
        .as_deref_mut()
        .unwrap()
        .set_locked(&NodeId("parse".into()), false);

    let refusal = PlanRun::start(&graph).unwrap_err();
    let RunRefusal::NotReady(problems) = refusal else {
        panic!("expected the unlocked nested step to be reported");
    };
    assert!(
        problems
            .iter()
            .any(|problem| matches!(problem, GraphProblem::InSubplan { .. })),
        "got {problems:?}"
    );
}

#[test]
fn a_step_cannot_be_locked_while_its_sub_plan_is_still_open() {
    let mut graph = nested_graph();
    assert!(graph.can_lock(&NodeId("handlers".into())));

    graph
        .node_mut(&NodeId("handlers".into()))
        .unwrap()
        .subplan
        .as_deref_mut()
        .unwrap()
        .set_locked(&NodeId("parse".into()), false);
    assert!(!graph.can_lock(&NodeId("handlers".into())));
}

// ── handoff ───────────────────────────────────────────────────────────

fn with_result(graph: &mut ArchitectGraph, id: &str, summary: &str, attempt: usize) {
    graph.node_mut(&NodeId(id.into())).unwrap().result = Some(StepResult {
        summary: summary.into(),
        attempt,
    });
}

#[test]
fn a_step_is_told_what_the_steps_feeding_it_reported() {
    let mut graph = locked_graph();
    with_result(&mut graph, "plan", "Will change calc.py only.", 1);

    let prompt = step_prompt(&graph, &path(&["edit"]), 2, 1);
    assert!(prompt.contains("What earlier steps reported"));
    assert!(prompt.contains("Plan the change: Will change calc.py only."));
}

#[test]
fn a_step_is_not_told_what_unrelated_steps_reported() {
    let mut graph = locked_graph();
    with_result(&mut graph, "test", "Tests failed.", 1);

    // `test` does not lead into `edit` except by the retry loop, which does
    // feed it — so use `plan`, which nothing leads into.
    let prompt = step_prompt(&graph, &path(&["plan"]), 1, 1);
    assert!(
        !prompt.contains("Tests failed."),
        "a step should not receive summaries from steps that do not feed it:\n{prompt}"
    );
}

#[test]
fn a_pinned_step_reaches_steps_in_other_plans() {
    let mut graph = nested_graph();
    for id in ["schema", "handlers"] {
        graph.node_mut(&NodeId(id.into())).unwrap().pinned = true;
    }
    with_result(&mut graph, "schema", "Tables stay as they are.", 1);
    let prompt = step_prompt(&graph, &path(&["handlers", "respond"]), 3, 1);
    assert!(
        prompt.contains("- Define schema: Tables stay as they are."),
        "{prompt}"
    );

    let inner = graph
        .node_mut(&NodeId("handlers".into()))
        .unwrap()
        .subplan
        .as_deref_mut()
        .unwrap();
    inner.node_mut(&NodeId("parse".into())).unwrap().pinned = true;
    with_result(inner, "parse", "Bodies are parsed.", 1);
    let prompt = step_prompt(&graph, &path(&["handlers", "respond"]), 3, 1);
    assert_eq!(prompt.matches("Bodies are parsed.").count(), 1, "{prompt}");
    let prompt = step_prompt(&graph, &path(&["schema"]), 3, 2);
    assert!(prompt.contains("- Parse body: Bodies are parsed.\n"), "{prompt}");
}

#[test]
fn a_pinned_step_is_told_to_every_later_step() {
    let mut graph = locked_graph();
    graph.node_mut(&NodeId("plan".into())).unwrap().pinned = true;
    with_result(&mut graph, "plan", "Decided to keep the public API.", 1);

    let prompt = step_prompt(&graph, &path(&["test"]), 3, 1);
    assert!(
        prompt.contains("Decided to keep the public API."),
        "a pinned step should reach steps it does not directly feed:\n{prompt}"
    );
}

#[test]
fn coming_round_a_loop_reminds_the_step_what_it_already_tried() {
    let mut graph = locked_graph();
    with_result(&mut graph, "edit", "Widened the clock skew.", 1);

    let prompt = step_prompt(&graph, &path(&["edit"]), 4, 2);
    assert!(prompt.contains("You have been here before"));
    assert!(prompt.contains("Widened the clock skew."));
    assert!(prompt.contains("Do not repeat what you already tried"));
}

#[test]
fn a_first_attempt_is_not_told_about_a_previous_one() {
    let mut graph = locked_graph();
    with_result(&mut graph, "edit", "Widened the clock skew.", 1);

    let prompt = step_prompt(&graph, &path(&["edit"]), 2, 1);
    assert!(!prompt.contains("You have been here before"), "{prompt}");
}

#[test]
fn a_step_states_what_its_summary_must_capture() {
    let graph = locked_graph();
    let prompt = step_prompt(&graph, &path(&["plan"]), 1, 1);
    assert!(prompt.contains("Capture in your summary: Which files you intend to change"));
}

#[test]
fn a_nested_step_is_told_which_step_it_is_inside() {
    let graph = nested_graph();
    let prompt = step_prompt(&graph, &path(&["handlers", "parse"]), 2, 1);
    assert!(
        prompt.contains("You are inside: Write handlers"),
        "{prompt}"
    );
}

#[test]
fn a_step_prompt_never_mentions_later_steps() {
    let graph = locked_graph();
    let prompt = step_prompt(&graph, &path(&["plan"]), 1, 1);
    assert!(!prompt.contains("Run the tests"), "{prompt}");
}

#[test]
fn steps_that_lead_somewhere_without_saying_what_they_hand_on_are_reported() {
    let graph = locked_graph();
    let missing = graph.steps_without_capture();
    assert!(missing.contains(&NodeId("edit".into())));
    assert!(
        !missing.contains(&NodeId("plan".into())),
        "plan states a capture, so it should not be reported"
    );
}

// ── budgets and endings ───────────────────────────────────────────────

#[test]
fn a_loop_that_never_exits_is_stopped_rather_than_run_forever() {
    let mut graph = ArchitectGraph::default();
    graph.add_node(ArchitectNode::new("work", "Work"));
    graph.edges.push(
        ArchitectEdge::new("again", "work", "work").with_condition(EdgeCondition::LlmEvaluated {
            question: "Again?".into(),
        }),
    );
    lock_deeply(&mut graph);

    let mut run = PlanRun::start(&graph).unwrap();
    let outcome = loop {
        match run.finish_step(&graph) {
            Decision::Ask(_) => match run.answer(&graph, true) {
                Decision::Done(outcome) => break outcome,
                _ => continue,
            },
            Decision::Done(outcome) => break outcome,
            Decision::Run(_) => continue,
        }
    };
    assert_eq!(
        outcome,
        RunOutcome::NodeLimit {
            node: NodeId("work".into()),
            visits: MAX_NODE_VISITS + 1,
        }
    );
}

#[test]
fn an_empty_plan_refuses_to_run() {
    assert_eq!(
        PlanRun::start(&ArchitectGraph::default()).unwrap_err(),
        RunRefusal::NothingToRun
    );
}

#[test]
fn cancelling_ends_the_run_wherever_it_had_got_to() {
    let graph = locked_graph();
    let mut run = PlanRun::start(&graph).unwrap();
    run.finish_step(&graph);
    run.cancel();
    assert_eq!(run.decide(&graph), Decision::Done(RunOutcome::Cancelled));
}

#[test]
fn an_outcome_describes_itself_using_the_step_title() {
    let graph = nested_graph();
    let described = RunOutcome::NodeLimit {
        node: NodeId("parse".into()),
        visits: 25,
    }
    .describe(&graph);
    assert!(
        described.contains("Parse body"),
        "a nested step should still be named: {described}"
    );
}

// ── verdicts ──────────────────────────────────────────────────────────

fn locked(id: &str) -> ArchitectNode {
    ArchitectNode {
        locked: true,
        ..ArchitectNode::new(id, id)
    }
}

#[test]
fn a_plan_in_two_pieces_runs_one_piece_and_then_the_other() {
    let mut graph = ArchitectGraph::default();
    for id in ["a", "b", "c"] {
        graph.add_node(locked(id));
    }
    graph.connect("a", "b");
    let mut run = PlanRun::start(&graph).unwrap();
    assert_eq!(run.decide(&graph), Decision::Run(path(&["a"])));
    assert_eq!(run.finish_step(&graph), Decision::Run(path(&["b"])));
    assert_eq!(run.finish_step(&graph), Decision::Run(path(&["c"])));
    assert_eq!(
        run.finish_step(&graph),
        Decision::Done(RunOutcome::Completed)
    );
    assert_eq!(
        run.history(),
        &vec![path(&["a"]), path(&["b"]), path(&["c"])]
    );
}

#[test]
fn a_run_is_stopped_after_so_many_steps() {
    // Ten steps in a ring reach the limit on steps before any of them reaches the
    // limit on visits.
    let mut graph = ArchitectGraph::default();
    let ids: Vec<String> = (0..10).map(|n| format!("s{n}")).collect();
    for id in &ids {
        graph.add_node(locked(id));
    }
    for n in 0..10 {
        graph.connect(&ids[n], &ids[(n + 1) % 10]);
    }
    let mut run = PlanRun::start(&graph).unwrap();
    let outcome = loop {
        if let Decision::Done(outcome) = run.finish_step(&graph) {
            break outcome;
        }
    };
    assert_eq!(
        outcome,
        RunOutcome::StepLimit {
            steps: MAX_RUN_STEPS
        }
    );
    assert_eq!(run.steps_taken(), MAX_RUN_STEPS);
    assert!(run.is_finished());
    assert_eq!(run.outcome(), Some(&outcome));
}

#[test]
fn conditions_are_asked_in_order_and_the_first_yes_decides() {
    let mut graph = ArchitectGraph::default();
    for id in ["check", "first", "second"] {
        graph.add_node(locked(id));
    }
    graph.connect_with(
        "check",
        "first",
        EdgeCondition::LlmEvaluated {
            question: "First?".into(),
        },
    );
    graph.connect_with(
        "check",
        "second",
        EdgeCondition::LlmEvaluated {
            question: "Second?".into(),
        },
    );
    let mut run = PlanRun::start(&graph).unwrap();
    let Decision::Ask(asked) = run.finish_step(&graph) else {
        panic!("a condition has to be asked");
    };
    assert_eq!(asked.to, NodeId("first".into()));
    let Decision::Ask(asked) = run.answer(&graph, false) else {
        panic!("the second condition has to be asked");
    };
    assert_eq!(asked.to, NodeId("second".into()));
    assert_eq!(run.answer(&graph, true), Decision::Run(path(&["second"])));
}

#[test]
fn a_finished_run_stays_finished() {
    let graph = locked_graph();
    let mut run = PlanRun::start(&graph).unwrap();
    run.cancel();
    assert_eq!(
        run.finish_step(&graph),
        Decision::Done(RunOutcome::Cancelled)
    );
    assert_eq!(
        run.answer(&graph, true),
        Decision::Done(RunOutcome::Cancelled)
    );
    assert_eq!(run.history().len(), 1);
}

#[test]
fn a_question_says_where_a_yes_leads() {
    let graph = locked_graph();
    let branch = Branch {
        edge: "retry".into(),
        to: "edit".into(),
        condition: EdgeCondition::Deterministic {
            expression: "the build failed".into(),
        },
    };
    assert_eq!(
        branch_prompt(&graph, &branch),
        "Check whether this is true right now: the build failed\n\nCheck it, rather than \
         recalling what was true earlier.\n\nAnswering YES means the plan moves on to \"Make the \
         edit\". Reply with YES or NO on the first line by itself, then one sentence saying why.\n"
    );
}

#[test]
fn a_step_after_a_nested_plan_is_told_what_was_done_inside() {
    let mut graph = nested_graph();
    {
        let inner = graph
            .node_mut(&NodeId("handlers".into()))
            .unwrap()
            .subplan
            .as_deref_mut()
            .unwrap();
        with_result(inner, "parse", "Reads JSON.", 1);
        with_result(inner, "respond", "Answers 200.", 1);
    }
    let prompt = step_prompt(&graph, &path(&["ship"]), 4, 1);
    assert!(
        prompt.contains("Parse body: Reads JSON.; Respond: Answers 200."),
        "{prompt}"
    );
}

#[test]
fn a_run_that_cannot_start_says_why() {
    let mut graph = ArchitectGraph::default();
    graph.add_node(ArchitectNode::new("a", "A"));
    assert_eq!(
        PlanRun::start(&graph).unwrap_err(),
        RunRefusal::NotReady(vec![GraphProblem::Unlocked(NodeId("a".into()))])
    );
}

#[test]
fn a_nested_step_is_told_the_steps_on_its_own_path() {
    let mut middle = ArchitectGraph::default();
    middle.add_node(ArchitectNode::new("z", "Z"));
    let mut y = ArchitectNode::new("y", "Inner Y");
    y.subplan = Some(Box::new(middle));
    let mut inner = ArchitectGraph::default();
    inner.add_node(y);
    let mut x = ArchitectNode::new("x", "X");
    x.subplan = Some(Box::new(inner));
    let mut graph = ArchitectGraph::default();
    graph.add_node(x);
    graph.add_node(ArchitectNode::new("y", "Outer Y"));

    let prompt = step_prompt(&graph, &path(&["x", "y", "z"]), 1, 1);
    assert!(
        prompt.starts_with("You are inside: X › Inner Y.\n\n## Step 1: Z\n"),
        "{prompt}"
    );
}

/// A step that contains one other, and is repeated as long as the answer is yes.
fn looped_nesting() -> ArchitectGraph {
    let mut inner = ArchitectGraph::default();
    inner.add_node(ArchitectNode::new("work", "Work"));
    let mut outer = ArchitectNode::new("outer", "Outer");
    outer.subplan = Some(Box::new(inner));
    let mut graph = ArchitectGraph::default();
    graph.add_node(outer);
    graph.connect_with(
        "outer",
        "outer",
        EdgeCondition::LlmEvaluated {
            question: "Again?".into(),
        },
    );
    lock_deeply(&mut graph);
    graph
}

#[test]
fn a_nested_step_reached_again_from_outside_has_been_visited_twice() {
    let graph = looped_nesting();
    let mut run = PlanRun::start(&graph).unwrap();
    assert_eq!(run.current(), path(&["outer", "work"]));
    assert_eq!(run.attempt(&NodeId("work".into())), 1);
    run.finish_step(&graph);
    assert_eq!(
        run.answer(&graph, true),
        Decision::Run(path(&["outer", "work"]))
    );
    // Its plan was entered anew, and the step once since.
    assert_eq!(run.attempt(&NodeId("work".into())), 1);
    assert_eq!(run.visits(&path(&["outer", "work"])), 2);
}

#[test]
fn no_step_is_entered_too_often_however_deep_it_is() {
    // The inner step is repeated once in each round, so it runs out of visits first.
    let mut graph = looped_nesting();
    let inner = graph.subplan_mut(&NodeId("outer".into())).unwrap();
    inner.connect_with(
        "work",
        "work",
        EdgeCondition::LlmEvaluated {
            question: "Once more?".into(),
        },
    );
    let mut run = PlanRun::start(&graph).unwrap();
    let mut asked = 0;
    let outcome = loop {
        match run.decide(&graph) {
            Decision::Run(_) => {
                run.finish_step(&graph);
            }
            Decision::Ask(branch) => {
                let again = branch.to == NodeId("outer".into()) || asked % 2 == 0;
                if branch.to == NodeId("work".into()) {
                    asked += 1;
                }
                run.answer(&graph, again);
            }
            Decision::Done(outcome) => break outcome,
        }
    };
    assert_eq!(
        outcome,
        RunOutcome::NodeLimit {
            node: NodeId("work".into()),
            visits: MAX_NODE_VISITS + 1,
        }
    );
    let entered = |wanted: &NodePath| run.history().iter().filter(|step| *step == wanted).count();
    assert_eq!(entered(&path(&["outer", "work"])), MAX_NODE_VISITS);
    assert!(entered(&path(&["outer"])) <= MAX_NODE_VISITS);
    assert!(run.steps_taken() <= MAX_RUN_STEPS);
}

#[test]
fn nothing_of_an_unrelated_step_reaches_a_brief() {
    let plain = nested_graph();
    let mut changed = nested_graph();
    let ship = changed.node_mut(&NodeId("ship".into())).unwrap();
    ship.title = "Something else".into();
    ship.intent = "Another goal".into();
    ship.rules = vec!["A rule".into()];
    ship.capture = "A capture".into();
    let mut inside = ArchitectGraph::default();
    inside.add_node(ArchitectNode::new("deep", "Deep"));
    ship.subplan = Some(Box::new(inside));
    with_result(&mut changed, "ship", "Shipped.", 1);
    for place in [path(&["schema"]), path(&["handlers"]), path(&["handlers", "parse"])] {
        assert_eq!(
            step_prompt(&plain, &place, 2, 1),
            step_prompt(&changed, &place, 2, 1)
        );
    }
}
