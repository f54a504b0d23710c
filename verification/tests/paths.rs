use architect::mutate::PlannedRoute;
use architect::prompt::find_title;
use architect::{
    ArchitectGraph, ArchitectNode, EdgeCondition, EdgeId, GraphMutationError, GraphProblem, NodeId,
    NodePath, StepResult,
};

fn path(ids: &[&str]) -> NodePath {
    NodePath(ids.iter().map(|id| NodeId::from(*id)).collect())
}

/// Two steps that each contain a step called `inner`, and one that contains nothing.
fn nested() -> ArchitectGraph {
    let mut graph = ArchitectGraph::default();
    for (id, title) in [("left", "Left"), ("right", "Right")] {
        let mut inner = ArchitectGraph::default();
        inner.add_node(ArchitectNode::new("inner", "Inner"));
        inner.add_node(ArchitectNode::new("last", "Last"));
        inner.connect("inner", "last");
        let mut node = ArchitectNode::new(id, title);
        node.subplan = Some(Box::new(inner));
        graph.add_node(node);
    }
    graph.add_node(ArchitectNode::new("plain", "Plain"));
    graph.connect("left", "right");
    graph.connect("right", "plain");
    graph
}

#[test]
fn a_step_is_locked_only_after_what_it_contains() {
    let mut graph = nested();
    assert_eq!(
        graph.set_locked_at(&path(&["left"]), true),
        Err(GraphMutationError::NestedPlanUnlocked {
            path: path(&["left"])
        })
    );
    assert_eq!(graph.set_locked_at(&path(&["left", "inner"]), true), Ok(()));
    assert_eq!(graph.set_locked_at(&path(&["left", "last"]), true), Ok(()));
    assert_eq!(graph.set_locked_at(&path(&["left"]), true), Ok(()));
    assert!(graph.node(&"left".into()).unwrap().locked);
    assert!(!graph.node_at(&path(&["right", "inner"])).unwrap().locked);

    // What lies inside a settled step stays as it is.
    assert_eq!(
        graph.set_locked_at(&path(&["left", "inner"]), false),
        Err(GraphMutationError::Locked {
            path: path(&["left"])
        })
    );
    assert_eq!(
        graph.remove_node_at(&path(&["left", "last"])),
        Err(GraphMutationError::Locked {
            path: path(&["left"])
        })
    );
    assert!(graph.mutate_graph_at(&path(&["left"])).is_err());
    assert_eq!(graph.set_locked_at(&path(&["left"]), false), Ok(()));
    assert_eq!(
        graph.set_locked_at(&path(&["left", "inner"]), false),
        Ok(())
    );
    assert_eq!(
        graph.set_locked_at(&path(&["left", "nowhere"]), true),
        Err(GraphMutationError::NotFound {
            path: path(&["left", "nowhere"])
        })
    );
}

#[test]
fn edits_reach_the_step_at_the_whole_path() {
    let mut graph = nested();
    graph
        .mutate_node_at(&path(&["right", "inner"]))
        .unwrap()
        .intent = "Only here".into();
    assert_eq!(
        graph.node_at(&path(&["right", "inner"])).unwrap().intent,
        "Only here"
    );
    assert_eq!(graph.node_at(&path(&["left", "inner"])).unwrap().intent, "");

    assert_eq!(graph.remove_node_at(&path(&["right", "inner"])), Ok(()));
    assert!(graph.node_at(&path(&["right", "inner"])).is_none());
    assert!(graph.node_at(&path(&["left", "inner"])).is_some());
    assert!(graph.graph_at(&path(&["right"])).unwrap().edges.is_empty());
    assert_eq!(
        graph.remove_node_at(&path(&["right", "inner"])).unwrap_err().to_text(),
        "there is no step at right / inner"
    );
}

#[test]
fn routes_of_a_nested_step_are_replaced_and_removed() {
    let mut graph = nested();
    let unknown = graph
        .replace_outgoing_at(
            &path(&["left", "last"]),
            &vec![
                PlannedRoute {
                    to: "inner".into(),
                    condition: EdgeCondition::LlmEvaluated {
                        question: "Again?".into(),
                    },
                },
                PlannedRoute {
                    to: "plain".into(),
                    condition: EdgeCondition::Always,
                },
            ],
        )
        .unwrap();
    assert_eq!(unknown, vec![NodeId::from("plain")]);
    let inside = graph.graph_at(&path(&["left"])).unwrap();
    assert_eq!(inside.edges_from(&"last".into()).len(), 1);
    assert_eq!(inside.edges_into(&"inner".into())[0].from, NodeId::from("last"));

    let edge = graph
        .connect_from_at(&path(&["right", "last"]), &"inner".into(), EdgeCondition::Always)
        .unwrap();
    assert_eq!(edge, EdgeId("last->inner".into()));
    assert_eq!(graph.graph_at(&path(&["right"])).unwrap().edges.len(), 2);
    assert!(graph
        .connect_from_at(&path(&["right", "last"]), &"plain".into(), EdgeCondition::Always)
        .is_err());
    assert_eq!(graph.disconnect_at(&path(&["right"]), &edge), Ok(()));
    assert_eq!(graph.graph_at(&path(&["right"])).unwrap().edges.len(), 1);
}

#[test]
fn a_settled_step_keeps_its_routes() {
    let mut graph = nested();
    graph.set_locked(&"plain".into(), true);
    assert_eq!(
        graph
            .connect_from_at(&path(&["plain"]), &"left".into(), EdgeCondition::Always)
            .unwrap_err()
            .to_text(),
        "plain is locked, so it can no longer be edited"
    );
    assert!(graph.replace_outgoing_at(&path(&["plain"]), &vec![]).is_err());
    assert_eq!(graph.edges.len(), 2);
}

#[test]
fn plans_are_found_by_path() {
    let mut graph = nested();
    assert_eq!(graph.graph_at(&NodePath::default()).unwrap().nodes.len(), 3);
    assert!(graph.graph_at(&path(&["plain"])).is_none());
    assert!(graph.node_at(&NodePath::default()).is_none());
    assert_eq!(graph.node_index(&"right".into()), Some(1));

    graph
        .subplan_mut(&"plain".into())
        .unwrap()
        .add_node(ArchitectNode::new("new", "New"));
    assert_eq!(graph.graph_at(&path(&["plain"])).unwrap().nodes.len(), 1);
    assert!(graph.subplan_mut(&"nowhere".into()).is_none());
    graph
        .graph_at_mut(&path(&["plain"]))
        .unwrap()
        .remove_node(&"new".into());
    // A plan without steps is no plan to look into, though it can be edited.
    assert!(graph.graph_at(&path(&["plain"])).is_none());
    assert!(graph.graph_at_mut(&path(&["plain"])).is_some());
    graph.node_at_mut(&path(&["left", "inner"])).unwrap().pinned = true;
    graph.node_mut(&"right".into()).unwrap().pinned = true;
    let pinned: Vec<&str> = graph
        .pinned_nodes()
        .iter()
        .map(|node| node.title.as_str())
        .collect();
    assert_eq!(pinned, ["Right"]);
    assert_eq!(find_title(&graph, &"last".into()), Some("Last".to_owned()));
    assert_eq!(find_title(&graph, &"nowhere".into()), None);
}

#[test]
fn everything_open_blocks_a_plan() {
    let mut graph = nested();
    graph.set_locks(true);
    assert!(graph.is_fully_locked_deeply());
    assert_eq!(graph.blocking_problems(), vec![]);
    assert_eq!(graph.step_count_deeply(), 7);
    assert_eq!(graph.locked_count(), 3);

    graph.set_locks(false);
    graph.node_mut(&"right".into()).unwrap().subplan = None;
    graph.set_locked(&"left".into(), true);
    let problems = graph.blocking_problems();
    assert_eq!(problems[0], GraphProblem::Unlocked("right".into()));
    assert_eq!(problems[1], GraphProblem::Unlocked("plain".into()));
    assert_eq!(
        problems[2],
        GraphProblem::InSubplan {
            node: "left".into(),
            problem: Box::new(GraphProblem::Unlocked("inner".into())),
        }
    );
    assert_eq!(problems.len(), 4);
}

#[test]
fn a_new_run_forgets_what_was_reported_at_every_level() {
    let mut graph = nested();
    for place in [path(&["plain"]), path(&["left", "inner"])] {
        graph.node_at_mut(&place).unwrap().result = Some(StepResult {
            summary: "Done.".into(),
            attempt: 1,
        });
    }
    graph.clear_results();
    assert!(graph.node(&"plain".into()).unwrap().result.is_none());
    assert!(graph.node_at(&path(&["left", "inner"])).unwrap().result.is_none());
}

#[test]
fn a_removed_step_leaves_nothing_behind() {
    let mut graph = nested();
    graph.remove_node(&"right".into());
    assert_eq!(graph.edges.len(), 0);
    assert_eq!(graph.nodes.len(), 2);
    assert!(graph.node(&"right".into()).is_none());
}
