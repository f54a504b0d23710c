use architect::{
    compile_spec, ArchitectEdge, ArchitectGraph, ArchitectNode, EdgeCondition, GraphProblem, NodeId,
};

fn locked_graph() -> ArchitectGraph {
    let mut graph = ArchitectGraph::default();
    graph.add_node(ArchitectNode {
        intent: "Decide which files need to change".into(),
        rules: vec!["Do not edit anything yet".into()],
        ..ArchitectNode::new("plan", "Plan the change")
    });
    graph.add_node(ArchitectNode {
        intent: "Apply the change".into(),
        ..ArchitectNode::new("edit", "Make the edit")
    });
    graph.add_node(ArchitectNode::new("test", "Run the tests"));
    graph.connect("plan", "edit");
    graph.connect("edit", "test");
    graph
        .edges
        .push(ArchitectEdge::new("retry", "test", "edit").with_condition(
            EdgeCondition::LlmEvaluated {
                question: "Did the tests fail?".into(),
            },
        ));

    let ids: Vec<NodeId> = graph.nodes.iter().map(|node| node.id.clone()).collect();
    for id in &ids {
        graph.set_locked(id, true);
    }
    graph
}

#[test]
fn compiles_steps_in_dependency_order() {
    let spec = compile_spec(&locked_graph()).unwrap();

    let plan_at = spec.find("Plan the change").unwrap();
    let edit_at = spec.find("Make the edit").unwrap();
    let test_at = spec.find("Run the tests").unwrap();

    assert!(plan_at < edit_at, "plan should come before edit:\n{spec}");
    assert!(edit_at < test_at, "edit should come before test:\n{spec}");
}

#[test]
fn states_intent_and_rules() {
    let spec = compile_spec(&locked_graph()).unwrap();

    assert!(spec.contains("Goal: Decide which files need to change"));
    assert!(spec.contains("- Do not edit anything yet"));
}

#[test]
fn a_loop_is_written_as_a_jump_backwards() {
    let spec = compile_spec(&locked_graph()).unwrap();

    assert!(
        spec.contains("Did the tests fail?"),
        "the loop condition should survive into the spec:\n{spec}"
    );
    assert!(
        spec.contains("go back to step 2"),
        "the loop should read as a jump back:\n{spec}"
    );
}

#[test]
fn the_last_step_says_the_plan_is_done() {
    let mut graph = locked_graph();
    graph.disconnect(&"retry".into());

    let spec = compile_spec(&graph).unwrap();
    assert!(spec.contains("the plan is complete"), "{spec}");
}

#[test]
fn refuses_a_graph_with_an_unlocked_step() {
    let mut graph = locked_graph();
    graph.set_locked(&"edit".into(), false);

    let problems = compile_spec(&graph).unwrap_err();
    assert!(
        problems.contains(&GraphProblem::Unlocked(NodeId("edit".into()))),
        "expected the unlocked step to be reported, got {problems:?}"
    );
}

#[test]
fn refuses_a_structurally_broken_graph() {
    let mut graph = locked_graph();
    graph.connect("test", "missing");

    let problems = compile_spec(&graph).unwrap_err();
    assert!(
        problems
            .iter()
            .any(|problem| matches!(problem, GraphProblem::DanglingEdge { .. })),
        "expected a dangling edge, got {problems:?}"
    );
}

#[test]
fn refuses_an_empty_graph() {
    assert!(compile_spec(&ArchitectGraph::default()).is_err());
}

#[test]
fn a_spec_reads_word_for_word() {
    let mut graph = ArchitectGraph::default();
    graph.add_node(ArchitectNode {
        intent: " Decide ".into(),
        rules: vec!["Do not edit".into()],
        locked: true,
        ..ArchitectNode::new("plan", "Plan")
    });
    graph.add_node(ArchitectNode {
        locked: true,
        ..ArchitectNode::new("ship", "Ship")
    });
    graph.connect("plan", "ship");
    assert_eq!(
        compile_spec(&graph).unwrap(),
        "Follow this plan. Each step states what it must accomplish and the rules it must \
         honour. Work through the steps in order, and take a connection only when its condition \
         holds.\n\n## Step 1: Plan\n\nGoal: Decide\n\nRules:\n- Do not edit\n\nThen:\n- go to \
         step 2 (Ship).\n\n## Step 2: Ship\n\nThis is a final step; when it is done, the plan is \
         complete.\n"
    );
}

#[test]
fn steps_run_in_the_order_of_their_columns() {
    let graph = locked_graph();
    let order: Vec<String> = graph.execution_order().into_iter().map(|id| id.0).collect();
    assert_eq!(order, vec!["plan", "edit", "test"]);
}
