use architect::id_map::IdMap;
use architect::layout::layout_positions;
use architect::{ArchitectEdge, ArchitectGraph, ArchitectNode, EdgeCondition, NodeId, Position};

fn graph_with(nodes: &[&str], edges: &[(&str, &str)]) -> ArchitectGraph {
    let mut graph = ArchitectGraph::default();
    for id in nodes {
        graph.add_node(ArchitectNode::new(id, id));
    }
    for (from, to) in edges {
        graph.connect(from, to);
    }
    graph
}

fn x_of(positions: &IdMap<Position>, id: &str) -> i128 {
    positions.get(&NodeId(id.into())).unwrap().x
}

fn y_of(positions: &IdMap<Position>, id: &str) -> i128 {
    positions.get(&NodeId(id.into())).unwrap().y
}

#[test]
fn a_chain_runs_left_to_right() {
    let graph = graph_with(&["a", "b", "c"], &[("a", "b"), ("b", "c")]);
    let positions = layout_positions(&graph);

    assert!(x_of(&positions, "a") < x_of(&positions, "b"));
    assert!(x_of(&positions, "b") < x_of(&positions, "c"));
}

#[test]
fn parallel_branches_share_a_column_without_overlapping() {
    let graph = graph_with(
        &["start", "left", "right", "join"],
        &[
            ("start", "left"),
            ("start", "right"),
            ("left", "join"),
            ("right", "join"),
        ],
    );
    let positions = layout_positions(&graph);

    assert_eq!(x_of(&positions, "left"), x_of(&positions, "right"));
    assert_ne!(y_of(&positions, "left"), y_of(&positions, "right"));
    assert!(x_of(&positions, "join") > x_of(&positions, "left"));
}

#[test]
fn a_step_waits_for_the_longest_path_into_it() {
    // `join` must sit past `slow`, not merely past `fast`.
    let graph = graph_with(
        &["start", "fast", "slow_a", "slow_b", "join"],
        &[
            ("start", "fast"),
            ("start", "slow_a"),
            ("slow_a", "slow_b"),
            ("fast", "join"),
            ("slow_b", "join"),
        ],
    );
    let positions = layout_positions(&graph);

    assert!(x_of(&positions, "join") > x_of(&positions, "slow_b"));
    assert!(x_of(&positions, "join") > x_of(&positions, "fast"));
}

#[test]
fn a_loop_still_lays_out_left_to_right() {
    let mut graph = graph_with(
        &["plan", "edit", "test"],
        &[("plan", "edit"), ("edit", "test")],
    );
    graph
        .edges
        .push(ArchitectEdge::new("retry", "test", "edit").with_condition(
            EdgeCondition::LlmEvaluated {
                question: "Did the tests fail?".into(),
            },
        ));

    let positions = layout_positions(&graph);

    // The loop back to `edit` must not drag it forward past `test`.
    assert!(x_of(&positions, "plan") < x_of(&positions, "edit"));
    assert!(x_of(&positions, "edit") < x_of(&positions, "test"));
}

#[test]
fn a_graph_that_is_entirely_a_cycle_still_gets_positions() {
    let graph = graph_with(&["a", "b", "c"], &[("a", "b"), ("b", "c"), ("c", "a")]);
    let positions = layout_positions(&graph);

    assert_eq!(positions.len(), 3);
    assert!(["a", "b", "c"]
        .iter()
        .all(|id| positions.get(&NodeId(id.to_string())).is_some()));
}

#[test]
fn a_step_that_points_at_itself_does_not_hang() {
    let graph = graph_with(&["a"], &[("a", "a")]);
    let positions = layout_positions(&graph);

    assert_eq!(positions.len(), 1);
}

#[test]
fn an_empty_graph_lays_out_to_nothing() {
    let positions = layout_positions(&ArchitectGraph::default());
    assert!(positions.is_empty());
}

#[test]
fn disconnected_pieces_all_get_placed() {
    let graph = graph_with(&["a", "b", "c", "d"], &[("a", "b"), ("c", "d")]);
    let positions = layout_positions(&graph);

    assert_eq!(positions.len(), 4);
    assert_eq!(x_of(&positions, "a"), x_of(&positions, "c"));
    assert_ne!(y_of(&positions, "a"), y_of(&positions, "c"));
}

#[test]
fn the_same_graph_always_lays_out_the_same_way() {
    let graph = graph_with(
        &["start", "left", "right", "join"],
        &[
            ("start", "left"),
            ("start", "right"),
            ("left", "join"),
            ("right", "join"),
        ],
    );

    let first = layout_positions(&graph);
    for _ in 0..8 {
        let again = layout_positions(&graph);
        assert_eq!(again.len(), first.len());
        for node in &graph.nodes {
            assert_eq!(again.get(&node.id), first.get(&node.id));
        }
    }
}

#[test]
fn steps_are_spaced_by_columns_and_centred_in_them() {
    let graph = graph_with(
        &["start", "left", "right", "join"],
        &[
            ("start", "left"),
            ("start", "right"),
            ("left", "join"),
            ("right", "join"),
        ],
    );
    let positions = layout_positions(&graph);
    assert_eq!(positions.get(&"start".into()), Some(Position { x: 0, y: 0 }));
    assert_eq!(
        positions.get(&"left".into()),
        Some(Position { x: 340, y: -84 })
    );
    assert_eq!(
        positions.get(&"right".into()),
        Some(Position { x: 340, y: 84 })
    );
    assert_eq!(
        positions.get(&"join".into()),
        Some(Position { x: 680, y: 0 })
    );
}

#[test]
fn laying_out_again_moves_steps_that_were_placed() {
    let mut graph = graph_with(&["a", "b"], &[("a", "b")]);
    graph.node_mut(&"a".into()).unwrap().position = Some(Position { x: -900, y: 7 });
    graph.relayout();
    assert_eq!(
        graph.node(&"a".into()).unwrap().position,
        Some(Position { x: 0, y: 0 })
    );
    assert_eq!(
        graph.node(&"b".into()).unwrap().position,
        Some(Position { x: 340, y: 0 })
    );
}
