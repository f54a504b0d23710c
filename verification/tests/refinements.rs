use architect::complete_step::{complete_step, CompleteStepToolInput, CompleteStepToolOutput};
use architect::refine_step::{
    apply_refinement, refinement_output, refinement_title, RefineStepToolInput,
    RefineStepToolOutput, RouteCondition, StepRoute,
};
use architect::{
    ArchitectGraph, ArchitectNode, EdgeCondition, GraphMutationError, NodePath, StepResult,
};

fn nothing() -> RefineStepToolInput {
    RefineStepToolInput {
        goal: None,
        rules: None,
        capture: None,
        routing: None,
        lock: false,
    }
}

#[test]
fn refinement_uses_the_complete_nested_path() {
    let nested = || {
        let mut graph = ArchitectGraph::default();
        graph.add_node(ArchitectNode::new("same", "Nested"));
        graph
    };
    let mut first = ArchitectNode::new("first", "First");
    first.subplan = Some(Box::new(nested()));
    let mut second = ArchitectNode::new("second", "Second");
    second.subplan = Some(Box::new(nested()));
    let mut graph = ArchitectGraph::default();
    graph.add_node(first);
    graph.add_node(second);

    let path = NodePath::from(vec!["second".into(), "same".into()]);
    apply_refinement(
        &mut graph,
        &path,
        &RefineStepToolInput {
            goal: Some("Only this nested step".into()),
            rules: None,
            capture: None,
            routing: None,
            lock: false,
        },
    )
    .unwrap();

    assert_eq!(
        graph
            .node_at(&NodePath::from(vec!["first".into(), "same".into()]))
            .unwrap()
            .intent,
        ""
    );
    assert_eq!(
        graph.node_at(&path).unwrap().intent,
        "Only this nested step"
    );
}

#[test]
fn failed_locking_is_atomic() {
    let mut nested = ArchitectGraph::default();
    nested.add_node(ArchitectNode::new("child", "Child"));
    let mut parent = ArchitectNode::new("parent", "Parent");
    parent.intent = "Original".into();
    parent.subplan = Some(Box::new(nested));
    let mut graph = ArchitectGraph::default();
    graph.add_node(parent);
    let path = NodePath::root("parent".into());

    let error = apply_refinement(
        &mut graph,
        &path,
        &RefineStepToolInput {
            goal: Some("Changed".into()),
            rules: None,
            capture: None,
            routing: None,
            lock: true,
        },
    )
    .unwrap_err();

    assert_eq!(
        error,
        GraphMutationError::NestedPlanUnlocked { path: path.clone() }
    );
    let parent = graph.node_at(&path).unwrap();
    assert_eq!(parent.intent, "Original");
    assert!(!parent.locked);
}

#[test]
fn what_a_refinement_leaves_out_stays_and_what_is_empty_is_cleared() {
    let mut graph = ArchitectGraph::default();
    graph.add_node(ArchitectNode {
        intent: "Goal".into(),
        rules: vec!["Rule".into()],
        capture: "Capture".into(),
        ..ArchitectNode::new("a", "A")
    });
    graph.add_node(ArchitectNode::new("b", "B"));
    graph.connect("a", "b");
    let path = NodePath::root("a".into());
    apply_refinement(
        &mut graph,
        &path,
        &RefineStepToolInput {
            goal: Some("Just the goal this time".into()),
            ..nothing()
        },
    )
    .unwrap();
    let step = graph.node_at(&path).unwrap();
    assert_eq!(step.intent, "Just the goal this time");
    assert_eq!(step.rules, vec!["Rule"]);
    assert_eq!(step.capture, "Capture");
    assert!(!step.locked);
    assert_eq!(graph.edges.len(), 1);

    apply_refinement(
        &mut graph,
        &path,
        &RefineStepToolInput {
            rules: Some(Vec::new()),
            routing: Some(Vec::new()),
            ..nothing()
        },
    )
    .unwrap();
    assert!(graph.node_at(&path).unwrap().rules.is_empty());
    assert!(graph.edges.is_empty());
}

#[test]
fn routing_names_the_steps_it_does_not_know() {
    let mut graph = ArchitectGraph::default();
    for id in ["a", "tests", "fix"] {
        graph.add_node(ArchitectNode::new(id, id));
    }
    let done = apply_refinement(
        &mut graph,
        &NodePath::root("a".into()),
        &RefineStepToolInput {
            routing: Some(vec![
                StepRoute {
                    to: "tests".into(),
                    condition: None,
                },
                StepRoute {
                    to: "fix".into(),
                    condition: Some(RouteCondition::LlmEvaluated {
                        question: "Did any endpoint still accept it?".into(),
                    }),
                },
                StepRoute {
                    to: "ship".into(),
                    condition: Some(RouteCondition::Objective {
                        statement: "all checks passed".into(),
                    }),
                },
            ]),
            lock: true,
            ..nothing()
        },
    )
    .unwrap();
    assert_eq!(done.step, "a");
    assert!(done.locked);
    assert_eq!(done.unknown_steps, vec!["ship"]);
    assert_eq!(graph.edges.len(), 2);
    assert!(graph.edges[0].condition.is_always());
    assert_eq!(
        graph.edges[1].condition,
        EdgeCondition::LlmEvaluated {
            question: "Did any endpoint still accept it?".into()
        }
    );
    assert!(matches!(
        refinement_output(Ok(done)),
        Ok(RefineStepToolOutput::Success { locked: true, .. })
    ));
}

#[test]
fn a_locked_step_takes_no_refinement() {
    let mut graph = ArchitectGraph::default();
    graph.add_node(ArchitectNode {
        locked: true,
        ..ArchitectNode::new("a", "A")
    });
    let path = NodePath::root("a".into());
    let error = apply_refinement(
        &mut graph,
        &path,
        &RefineStepToolInput {
            goal: Some("New".into()),
            ..nothing()
        },
    )
    .unwrap_err();
    assert_eq!(error, GraphMutationError::Locked { path: path.clone() });
    assert_eq!(
        error.to_text(),
        "a is locked, so it can no longer be edited"
    );
    assert_eq!(graph.node_at(&path).unwrap().intent, "");

    let missing = NodePath::root("gone".into());
    let error = apply_refinement(&mut graph, &missing, &nothing()).unwrap_err();
    assert_eq!(error, GraphMutationError::NotFound { path: missing });
}

#[test]
fn a_refinement_is_named_by_what_it_does() {
    assert_eq!(
        refinement_title(Some(&nothing())),
        "Record what this step must do"
    );
    assert_eq!(
        refinement_title(Some(&RefineStepToolInput {
            lock: true,
            ..nothing()
        })),
        "Settle and lock this step"
    );
}

#[test]
fn a_report_is_trimmed_and_counted() {
    let mut graph = ArchitectGraph::default();
    graph.add_node(ArchitectNode::new("a", "Step A"));
    let running = Some(NodePath::root("a".into()));
    for attempt in 1..3 {
        let done = complete_step(
            &mut graph,
            &running,
            &CompleteStepToolInput {
                summary: "  Changed add().\n".into(),
            },
        )
        .unwrap();
        let CompleteStepToolOutput::Success { step, attempt: n } = done else {
            panic!("the report should have been taken")
        };
        assert_eq!(step, "Step A");
        assert_eq!(n, attempt);
    }
    assert_eq!(
        graph.node(&"a".into()).unwrap().result,
        Some(StepResult {
            summary: "Changed add().".into(),
            attempt: 2
        })
    );
}

#[test]
fn a_report_needs_a_summary_and_a_running_step() {
    let mut graph = ArchitectGraph::default();
    graph.add_node(ArchitectNode::new("a", "A"));
    for (running, summary, words) in [
        (Some(NodePath::root("a".into())), " ", "A summary cannot be empty"),
        (None, "Done", "There is no step running"),
        (Some(NodePath::root("b".into())), "Done", "There is no step running"),
    ] {
        let refused = complete_step(
            &mut graph,
            &running,
            &CompleteStepToolInput {
                summary: summary.into(),
            },
        )
        .unwrap_err();
        let CompleteStepToolOutput::Error { error } = refused else {
            panic!("the report should have been refused")
        };
        assert!(error.starts_with(words));
    }
    assert_eq!(graph.node(&"a".into()).unwrap().result, None);
}
