//! How much of the canvas a plan takes up.
use crate::canvas::{self, Selection, SelectionModel};
use crate::cards::{self, node_size};
use crate::graph::{self, ArchitectGraph, NodeId, Position};
use crate::model::{GraphModel, NodeModel};
use crate::panel::{self, names};
use vstd::prelude::*;

verus! {

/// A rectangle on the canvas.
#[derive(Clone, Copy, Debug, PartialEq, Eq, Structural)]
pub struct Extent {
    pub min_x: i128,
    pub max_x: i128,
    pub min_y: i128,
    pub max_y: i128,
}

/// A number as near as the type can hold it.
pub open spec fn held(n: int) -> int {
    crate::workspace::between(n, i128::MIN as int, i128::MAX as int)
}

/// How wide and high a step is drawn.
pub open spec fn size_of(node: NodeModel, expanded: Seq<Seq<char>>) -> (int, int) {
    if expanded.contains(node.id) && node.nested() is Some {
        (cards::EXPANDED_NODE_WIDTH as int, cards::EXPANDED_NODE_HEIGHT as int)
    } else {
        (cards::NODE_WIDTH as int, cards::NODE_HEIGHT as int)
    }
}

/// The rectangle a step is drawn in: its place is the middle.
pub open spec fn drawn_in(node: NodeModel, position: Position, expanded: Seq<Seq<char>>) -> Extent {
    let (width, height) = size_of(node, expanded);
    Extent {
        min_x: held(position.x - width / 2) as i128,
        max_x: held(position.x + width / 2) as i128,
        min_y: held(position.y - height / 2) as i128,
        max_y: held(position.y + height / 2) as i128,
    }
}

/// The least rectangle that holds two.
pub open spec fn around(a: Extent, b: Extent) -> Extent {
    Extent {
        min_x: if a.min_x <= b.min_x {
            a.min_x
        } else {
            b.min_x
        },
        max_x: if a.max_x >= b.max_x {
            a.max_x
        } else {
            b.max_x
        },
        min_y: if a.min_y <= b.min_y {
            a.min_y
        } else {
            b.min_y
        },
        max_y: if a.max_y >= b.max_y {
            a.max_y
        } else {
            b.max_y
        },
    }
}

/// Whether a rectangle lies within another.
pub open spec fn lies_within(a: Extent, b: Extent) -> bool {
    b.min_x <= a.min_x && a.max_x <= b.max_x && b.min_y <= a.min_y && a.max_y <= b.max_y
}

impl GraphModel {
    /// The rectangle that the first `k` steps are drawn in; steps without a place are
    /// not drawn.
    pub open spec fn extent_to(self, expanded: Seq<Seq<char>>, k: int) -> Option<Extent>
        decreases k,
    {
        if k <= 0 {
            None
        } else {
            let rest = self.extent_to(expanded, k - 1);
            match self.nodes[k - 1].position {
                Some(position) => {
                    let own = drawn_in(self.nodes[k - 1], position, expanded);
                    match rest {
                        Some(found) => Some(around(found, own)),
                        None => Some(own),
                    }
                },
                None => rest,
            }
        }
    }

    /// The rectangle that the plan is drawn in.
    pub open spec fn extent(self, expanded: Seq<Seq<char>>) -> Option<Extent> {
        self.extent_to(expanded, self.nodes.len() as int)
    }
}

fn shifted(n: i128, by: i128) -> (res: i128)
    requires
        -1000 <= by <= 1000,
    ensures
        res == held(n + by),
{
    if by >= 0 {
        if n > i128::MAX - by {
            i128::MAX
        } else {
            n + by
        }
    } else if n < i128::MIN - by {
        i128::MIN
    } else {
        n + by
    }
}

fn least(a: i128, b: i128) -> (res: i128)
    ensures
        res == (if a <= b {
            a
        } else {
            b
        }),
{
    if a <= b {
        a
    } else {
        b
    }
}

fn greatest(a: i128, b: i128) -> (res: i128)
    ensures
        res == (if a >= b {
            a
        } else {
            b
        }),
{
    if a >= b {
        a
    } else {
        b
    }
}

/// The rectangle that a plan is drawn in, in canvas units. `expanded` lists the steps
/// that show the steps inside them.
pub fn plan_extent(graph: &ArchitectGraph, expanded: &Vec<NodeId>) -> (res: Option<Extent>)
    ensures
        res == graph@.extent(graph::ids(expanded@)),
{
    let mut found: Option<Extent> = None;
    proof {
        graph.lemma_view();
    }
    for k in 0..graph.nodes.len()
        invariant
            graph@.nodes.len() == graph.nodes@.len(),
            found == graph@.extent_to(graph::ids(expanded@), k as int),
    {
        let node = &graph.nodes[k];
        proof {
            graph.lemma_view();
            assert(graph@.nodes[k as int] == node@);
        }
        if let Some(position) = node.position {
            let (width, height) = node_size(node, cards::listed(expanded, &node.id));
            let own = Extent {
                min_x: shifted(position.x, -(width / 2)),
                max_x: shifted(position.x, width / 2),
                min_y: shifted(position.y, -(height / 2)),
                max_y: shifted(position.y, height / 2),
            };
            found = Some(
                match found {
                    Some(before) => Extent {
                        min_x: least(before.min_x, own.min_x),
                        max_x: greatest(before.max_x, own.max_x),
                        min_y: least(before.min_y, own.min_y),
                        max_y: greatest(before.max_y, own.max_y),
                    },
                    None => own,
                },
            );
        }
    }
    found
}

/// A plan with a step that has a place takes up room, and every such step is drawn
/// within it.
pub proof fn law_every_placed_step_is_drawn_within_the_plan(
    plan: GraphModel,
    expanded: Seq<Seq<char>>,
    i: int,
)
    requires
        0 <= i < plan.nodes.len(),
        plan.nodes[i].position is Some,
    ensures
        plan.extent(expanded) is Some,
        lies_within(
            drawn_in(plan.nodes[i], plan.nodes[i].position->0, expanded),
            plan.extent(expanded)->0,
        ),
{
    lemma_drawn_within(plan, expanded, i, plan.nodes.len() as int);
}

proof fn lemma_drawn_within(plan: GraphModel, expanded: Seq<Seq<char>>, i: int, k: int)
    requires
        0 <= i < k <= plan.nodes.len(),
        plan.nodes[i].position is Some,
    ensures
        plan.extent_to(expanded, k) is Some,
        lies_within(
            drawn_in(plan.nodes[i], plan.nodes[i].position->0, expanded),
            plan.extent_to(expanded, k)->0,
        ),
    decreases k,
{
    if i < k - 1 {
        lemma_drawn_within(plan, expanded, i, k - 1);
    }
}

/// What the colour of a block on the map says.
#[derive(Clone, Copy, Debug, PartialEq, Eq, Structural)]
pub enum BlockTone {
    Running,
    Selected,
    Plain,
}

/// A step on the map of a plan.
#[derive(Clone, Copy, Debug, PartialEq, Eq, Structural)]
pub struct MapBlock {
    pub position: Position,
    pub tone: BlockTone,
}

impl GraphModel {
    /// The blocks of the first `k` steps on the map.
    pub open spec fn map_blocks(
        self,
        running: Option<NodeId>,
        selection: Option<SelectionModel>,
        k: int,
    ) -> Seq<MapBlock>
        decreases k,
    {
        if k <= 0 {
            Seq::empty()
        } else {
            let rest = self.map_blocks(running, selection, k - 1);
            let node = self.nodes[k - 1];
            match node.position {
                Some(position) => rest.push(
                    MapBlock {
                        position,
                        tone: if panel::is_id(running, node.id) {
                            BlockTone::Running
                        } else if selection == Some(SelectionModel::Node(node.id)) {
                            BlockTone::Selected
                        } else {
                            BlockTone::Plain
                        },
                    },
                ),
                None => rest,
            }
        }
    }
}

/// Works out what the map of a plan shows.
pub fn map_blocks(
    graph: &ArchitectGraph,
    running: &Option<NodeId>,
    selection: &Option<Selection>,
) -> (res: Vec<MapBlock>)
    ensures
        res@ == graph@.map_blocks(
            *running,
            canvas::selection_value(*selection),
            graph@.nodes.len() as int,
        ),
{
    let mut out: Vec<MapBlock> = Vec::new();
    proof {
        graph.lemma_view();
    }
    for k in 0..graph.nodes.len()
        invariant
            graph@.nodes.len() == graph.nodes@.len(),
            out@ == graph@.map_blocks(*running, canvas::selection_value(*selection), k as int),
    {
        let node = &graph.nodes[k];
        proof {
            graph.lemma_view();
            assert(graph@.nodes[k as int] == node@);
        }
        if let Some(position) = node.position {
            let selected = match selection {
                Some(Selection::Node(id)) => id.same(&node.id),
                _ => false,
            };
            let tone = if names(running, &node.id) {
                BlockTone::Running
            } else if selected {
                BlockTone::Selected
            } else {
                BlockTone::Plain
            };
            out.push(MapBlock { position, tone });
        }
    }
    out
}

/// The plan takes up no more room than its steps: each side of it is the side of a step.
pub proof fn law_plans_take_up_no_more_room_than_their_steps(
    plan: GraphModel,
    expanded: Seq<Seq<char>>,
    k: int,
)
    requires
        0 <= k <= plan.nodes.len(),
    ensures
        plan.extent_to(expanded, k) is None <==> forall|i: int|
            0 <= i < k ==> (#[trigger] plan.nodes[i]).position is None,
        plan.extent_to(expanded, k) matches Some(whole) ==> {
            &&& exists|i: int|
                0 <= i < k && (#[trigger] plan.nodes[i]).position is Some && whole.min_x == drawn_in(
                    plan.nodes[i],
                    plan.nodes[i].position->0,
                    expanded,
                ).min_x
            &&& exists|i: int|
                0 <= i < k && (#[trigger] plan.nodes[i]).position is Some && whole.max_x == drawn_in(
                    plan.nodes[i],
                    plan.nodes[i].position->0,
                    expanded,
                ).max_x
            &&& exists|i: int|
                0 <= i < k && (#[trigger] plan.nodes[i]).position is Some && whole.min_y == drawn_in(
                    plan.nodes[i],
                    plan.nodes[i].position->0,
                    expanded,
                ).min_y
            &&& exists|i: int|
                0 <= i < k && (#[trigger] plan.nodes[i]).position is Some && whole.max_y == drawn_in(
                    plan.nodes[i],
                    plan.nodes[i].position->0,
                    expanded,
                ).max_y
        },
    decreases k,
{
    if k > 0 {
        law_plans_take_up_no_more_room_than_their_steps(plan, expanded, k - 1);
        let last = plan.nodes[k - 1];
        if last.position is Some {
            assert(plan.nodes[k - 1].position is Some);
        }
    }
}

} // verus!
