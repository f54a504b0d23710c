use architect::draft_plan::{draft_plan, draft_title, DraftPlanToolInput, DraftPlanToolOutput};
use architect::{
    ArchitectGraph, ArchitectNode, EdgeCondition, NodeId, ProposedEdge, ProposedGraph, ProposedNode,
};

fn step(id: &str, title: &str) -> ProposedNode {
    ProposedNode {
        id: id.into(),
        title: title.into(),
        intent: String::new(),
        rules: Vec::new(),
        capture: String::new(),
        steps: None,
    }
}

fn connection(from: &str, to: &str) -> ProposedEdge {
    ProposedEdge {
        from: from.into(),
        to: to.into(),
        condition: None,
    }
}

#[test]
fn a_plan_the_model_might_send_deserializes() {
    let graph = ProposedGraph {
        nodes: vec![
            ProposedNode {
                intent: "Get a failing test that shows the bug".into(),
                rules: vec!["Do not change behaviour yet".into()],
                capture: "The test file and the assertion that failed".into(),
                ..step("reproduce", "Reproduce the failure")
            },
            ProposedNode {
                intent: "Make the test pass".into(),
                ..step("fix", "Fix it")
            },
        ],
        edges: vec![
            connection("reproduce", "fix"),
            ProposedEdge {
                condition: Some(EdgeCondition::LlmEvaluated {
                    question: "Is the test still failing?".into(),
                }),
                ..connection("fix", "reproduce")
            },
        ],
    }
    .into_graph();

    assert_eq!(graph.nodes.len(), 2);
    assert_eq!(graph.edges.len(), 2);
    assert!(
        graph.problems().is_empty(),
        "a well-formed plan should have nothing to report: {:?}",
        graph.problems()
    );
    assert!(
        graph.nodes.iter().all(|node| node.position.is_some()),
        "the plan should arrive laid out"
    );
}

#[test]
fn a_step_can_carry_a_plan_of_its_own() {
    let graph = ProposedGraph {
        nodes: vec![ProposedNode {
            intent: "Endpoints behave per the schema".into(),
            capture: "Which endpoints you added and their status codes".into(),
            steps: Some(Box::new(ProposedGraph {
                nodes: vec![step("parse", "Parse the body"), step("respond", "Respond")],
                edges: vec![connection("parse", "respond")],
            })),
            ..step("handlers", "Write handlers")
        }],
        edges: vec![],
    }
    .into_graph();

    let handlers = graph.node(&"handlers".into()).unwrap();
    assert_eq!(
        handlers.capture,
        "Which endpoints you added and their status codes"
    );

    let subplan = handlers.subplan().expect("the nested plan should survive");
    assert_eq!(subplan.nodes.len(), 2);
    assert_eq!(subplan.edges.len(), 1);
    assert!(
        subplan.nodes.iter().all(|node| node.position.is_some()),
        "a nested plan should arrive laid out, like any other"
    );
}

#[test]
fn a_step_that_leads_somewhere_without_a_capture_is_reported() {
    let graph = ProposedGraph {
        nodes: vec![step("first", "First"), step("second", "Second")],
        edges: vec![connection("first", "second")],
    }
    .into_graph();

    let missing = graph.steps_without_capture();
    assert!(missing.contains(&"first".into()));
    assert!(
        !missing.contains(&"second".into()),
        "a step nothing leads out of has nobody to hand anything to"
    );
}

#[test]
fn a_step_that_contains_a_plan_arrives_with_that_plan_inside_it() {
    let graph = ProposedGraph {
        nodes: vec![
            ProposedNode {
                capture: "Every call site of the old API".into(),
                ..step("survey", "Survey the callers")
            },
            ProposedNode {
                steps: Some(Box::new(ProposedGraph {
                    nodes: vec![
                        ProposedNode {
                            capture: "Files touched".into(),
                            ..step("rewrite", "Rewrite them")
                        },
                        step("compile", "Compile"),
                    ],
                    edges: vec![connection("rewrite", "compile")],
                })),
                ..step("migrate", "Migrate the callers")
            },
        ],
        edges: vec![connection("survey", "migrate")],
    }
    .into_graph();

    let nested = graph
        .node(&"migrate".into())
        .and_then(|node| node.subplan())
        .expect("the nested plan should have become a subplan");
    assert_eq!(nested.nodes.len(), 2);
    assert_eq!(nested.edges.len(), 1);
    assert!(
        graph
            .node(&"survey".into())
            .is_some_and(|node| !node.has_subplan()),
        "a step without nested steps should not gain an empty plan"
    );
}

#[test]
fn what_a_step_hands_on_survives_into_the_plan() {
    let graph = ProposedGraph {
        nodes: vec![
            ProposedNode {
                capture: "The before and after timings, in milliseconds".into(),
                ..step("measure", "Measure the regression")
            },
            step("report", "Report"),
        ],
        edges: vec![connection("measure", "report")],
    }
    .into_graph();

    assert_eq!(
        graph
            .node(&"measure".into())
            .map(|node| node.capture.as_str()),
        Some("The before and after timings, in milliseconds")
    );
    assert!(
        graph.steps_without_capture().is_empty(),
        "only the last step lacks a capture, and it hands nothing on"
    );
}

#[test]
fn a_step_that_leads_somewhere_without_saying_what_it_hands_on_is_reported() {
    let graph = ProposedGraph {
        nodes: vec![step("build", "Build"), step("ship", "Ship")],
        edges: vec![connection("build", "ship")],
    }
    .into_graph();

    assert_eq!(
        graph.steps_without_capture(),
        vec!["build".into()],
        "the step feeding another one should be flagged, not the last one"
    );
}

#[test]
fn drawing_a_first_plan_reports_what_it_lacks() {
    let (graph, output) = draft_plan(
        None,
        DraftPlanToolInput {
            nodes: vec![step("a", "A"), step("b", "B")],
            edges: vec![connection("a", "b"), connection("b", "gone")],
        },
    )
    .unwrap();
    assert_eq!(graph.nodes.len(), 2);
    let DraftPlanToolOutput::Success {
        steps,
        connections,
        problems,
        kept_existing_detail,
    } = output
    else {
        panic!("the plan should have been drawn")
    };
    assert_eq!(steps, 2);
    assert_eq!(connections, 2);
    assert_eq!(problems.len(), 3);
    assert!(problems[0].contains("points at a step that does not exist: gone"));
    assert_eq!(
        problems[1],
        "a leads to another step but does not say what it hands on"
    );
    assert!(kept_existing_detail.is_empty());
}

#[test]
fn drawing_over_a_plan_keeps_what_was_settled() {
    let mut existing = ArchitectGraph::default();
    existing.add_node(ArchitectNode {
        intent: "Kept".into(),
        ..ArchitectNode::new("a", "A")
    });
    let (graph, output) = draft_plan(
        Some(&existing),
        DraftPlanToolInput {
            nodes: vec![step("a", "A, renamed")],
            edges: vec![],
        },
    )
    .unwrap();
    assert_eq!(graph.node(&NodeId::from("a")).unwrap().intent, "Kept");
    assert_eq!(graph.node(&NodeId::from("a")).unwrap().title, "A, renamed");
    let DraftPlanToolOutput::Success {
        kept_existing_detail,
        ..
    } = output
    else {
        panic!("the plan should have been drawn")
    };
    assert_eq!(kept_existing_detail, vec!["a"]);
}

#[test]
fn a_drawing_that_discards_a_locked_step_is_refused() {
    let mut existing = ArchitectGraph::default();
    existing.add_node(ArchitectNode {
        locked: true,
        ..ArchitectNode::new("a", "Settled step")
    });
    let refused = draft_plan(
        Some(&existing),
        DraftPlanToolInput {
            nodes: vec![step("b", "B")],
            edges: vec![],
        },
    )
    .unwrap_err();
    let DraftPlanToolOutput::Error { error } = refused else {
        panic!("the drawing should have been refused")
    };
    assert!(error.starts_with(
        "This draft would have discarded steps the user has locked: Settled step. "
    ));
}

#[test]
fn a_plan_without_steps_is_refused() {
    let refused = draft_plan(
        None,
        DraftPlanToolInput {
            nodes: vec![],
            edges: vec![],
        },
    )
    .unwrap_err();
    let DraftPlanToolOutput::Error { error } = refused else {
        panic!("an empty drawing should have been refused")
    };
    assert_eq!(error, "A plan needs at least one step.");
}

#[test]
fn a_drawing_is_named_by_its_size() {
    let one = DraftPlanToolInput {
        nodes: vec![step("a", "A")],
        edges: vec![],
    };
    assert_eq!(draft_title(Some(&one)), "Draft a plan of 1 step");
    let two = DraftPlanToolInput {
        nodes: vec![step("a", "A"), step("b", "B")],
        edges: vec![],
    };
    assert_eq!(draft_title(Some(&two)), "Draft a plan of 2 steps");
}
