//! What a model proposes when it drafts a plan.
//!
//! Positions, lock state and chats are all owned by the user rather than the
//! model, so they are absent here: asking a model to invent canvas coordinates
//! produces overlapping nodes, and it has no business locking a step the user
//! has not reviewed.
use crate::graph::{
    self, clone_texts, ArchitectEdge, ArchitectGraph, ArchitectNode, EdgeCondition, EdgeId, NodeId,
};
use crate::model::{ConditionModel, EdgeModel, GraphModel, NodeModel};
use crate::text;
use vstd::prelude::*;

verus! {

/// A step a model proposes.
#[derive(Debug)]
pub struct ProposedNode {
    /// A short stable identifier, such as `run-tests`.
    pub id: NodeId,
    /// A short human-readable name for the step.
    pub title: String,
    /// What this step has to accomplish.
    pub intent: String,
    /// Constraints this step must honour.
    pub rules: Vec<String>,
    /// What this step's summary must contain, so the steps that follow it know
    /// what they will be told. Leave out for a step that hands nothing on.
    pub capture: String,
    /// A plan nested inside this step, for work that is one step at this level
    /// but several once you look closely.
    pub steps: Option<Box<ProposedGraph>>,
}

/// A connection a model proposes.
#[derive(Debug)]
pub struct ProposedEdge {
    /// The id of the step this connection leaves.
    pub from: NodeId,
    /// The id of the step this connection enters. Pointing back at an earlier
    /// step forms a loop, which is allowed.
    pub to: NodeId,
    /// When this connection is taken. Defaults to always.
    pub condition: Option<EdgeCondition>,
}

/// A plan a model proposes.
#[derive(Debug)]
pub struct ProposedGraph {
    pub nodes: Vec<ProposedNode>,
    pub edges: Vec<ProposedEdge>,
}

impl ProposedEdge {
    /// The connection this proposes, as the one with number `ix`.
    pub open spec fn edge(&self, ix: int) -> EdgeModel {
        EdgeModel {
            id: self.from@ + "->"@ + self.to@ + "-"@ + text::decimal(ix as nat),
            from: self.from@,
            to: self.to@,
            condition: match self.condition {
                Some(condition) => condition@,
                None => ConditionModel::Always,
            },
        }
    }
}

impl ProposedNode {
    /// The step this proposes; nothing about it is settled.
    pub open spec fn node(&self) -> NodeModel
        decreases self,
    {
        NodeModel {
            intent: self.intent@,
            rules: graph::texts(self.rules@),
            capture: self.capture@,
            subplan: match self.steps {
                Some(steps) => if steps.graph().nodes.len() == 0 {
                    None
                } else {
                    Some(Box::new(steps.graph()))
                },
                None => None,
            },
            ..NodeModel::fresh(self.id@, self.title@)
        }
    }
}

impl ProposedGraph {
    /// The plan of the first `k` proposed steps. A step whose id is taken gets a
    /// new one.
    pub open spec fn steps_to(&self, k: nat) -> GraphModel
        decreases self, k,
    {
        if k == 0 || k > self.nodes@.len() {
            GraphModel::empty()
        } else {
            self.steps_to((k - 1) as nat).with_added(self.nodes@[k - 1].node())
        }
    }

    /// The plan this proposes, laid out.
    pub open spec fn graph(&self) -> GraphModel
        decreases self, self.nodes@.len() + 1,
    {
        GraphModel {
            nodes: self.steps_to(self.nodes@.len()).nodes,
            edges: Seq::new(self.edges@.len(), |ix: int| self.edges@[ix].edge(ix)),
        }.laid_out(false)
    }

    /// Builds a graph from a proposal, laying it out so it is readable the
    /// moment it appears.
    pub fn into_graph(self) -> (res: ArchitectGraph)
        ensures
            res@ == self.graph(),
    {
        self.build()
    }

    fn build(&self) -> (res: ArchitectGraph)
        ensures
            res@ == self.graph(),
        decreases self,
    {
        let mut graph = ArchitectGraph::default();
        for k in 0..self.nodes.len()
            invariant
                graph@ == self.steps_to(k as nat),
        {
            let node = &self.nodes[k];
            let subplan = match &node.steps {
                Some(steps) => {
                    let inner = steps.build();
                    if inner.is_empty() {
                        None
                    } else {
                        Some(Box::new(inner))
                    }
                },
                None => None,
            };
            let added = ArchitectNode {
                id: node.id.clone(),
                title: node.title.clone(),
                intent: node.intent.clone(),
                rules: clone_texts(&node.rules),
                capture: node.capture.clone(),
                pinned: false,
                position: None,
                locked: false,
                chat: None,
                subplan,
                result: None,
            };
            proof {
                assert(added@ =~= node.node());
            }
            graph.add_node(added);
        }
        let ghost steps = graph@;
        proof {
            graph.lemma_view();
            assert(graph@.edges =~= Seq::empty()) by {
                lemma_no_edges(self, self.nodes@.len());
            }
        }
        let ghost wanted = Seq::new(self.edges@.len(), |ix: int| self.edges@[ix].edge(ix));
        for ix in 0..self.edges.len()
            invariant
                wanted == Seq::new(self.edges@.len(), |ix: int| self.edges@[ix].edge(ix)),
                graph@.nodes == steps.nodes,
                graph@.edges == wanted.take(ix as int),
        {
            let edge = &self.edges[ix];
            let mut id = text::cat4(edge.from.0.as_str(), "->", edge.to.0.as_str(), "-");
            id.append(text::number(ix as u128).as_str());
            let condition = match &edge.condition {
                Some(condition) => condition.clone(),
                None => EdgeCondition::Always,
            };
            let ghost before = graph;
            graph.edges.push(
                ArchitectEdge {
                    id: EdgeId(id),
                    from: edge.from.clone(),
                    to: edge.to.clone(),
                    condition,
                },
            );
            proof {
                before.lemma_view();
                graph.lemma_view();
                assert(graph.edges@.last()@ == wanted[ix as int]);
                assert(graph@.nodes =~= before@.nodes);
                assert(graph@.edges =~= before@.edges.push(wanted[ix as int]));
                assert(wanted.take(ix + 1) =~= wanted.take(ix as int).push(wanted[ix as int]));
            }
        }
        proof {
            assert(wanted.take(wanted.len() as int) =~= wanted);
            assert(graph@ == GraphModel { nodes: steps.nodes, edges: wanted });
        }
        graph.place_unpositioned_nodes();
        graph
    }
}

proof fn lemma_no_edges(proposal: &ProposedGraph, k: nat)
    ensures
        proposal.steps_to(k).edges == Seq::<EdgeModel>::empty(),
    decreases k,
{
    if k > 0 && k <= proposal.nodes@.len() {
        lemma_no_edges(proposal, (k - 1) as nat);
    }
}

/// Whatever a model proposes, the steps of the plan have different ids, none of
/// them is locked and each has a place.
pub proof fn law_proposed_steps_are_open_and_distinct(proposal: &ProposedGraph, i: int, j: int)
    requires
        0 <= i < proposal.graph().nodes.len(),
        0 <= j < proposal.graph().nodes.len(),
    ensures
        i != j ==> proposal.graph().nodes[i].id != proposal.graph().nodes[j].id,
        !proposal.graph().nodes[i].locked,
        proposal.graph().nodes[i].position is Some,
        proposal.graph().nodes.len() == proposal.nodes@.len(),
{
    let n = proposal.nodes@.len();
    lemma_steps(proposal, n);
    let plan = GraphModel {
        nodes: proposal.steps_to(n).nodes,
        edges: Seq::new(proposal.edges@.len(), |ix: int| proposal.edges@[ix].edge(ix)),
    };
    crate::layout::law_layout_places_every_step(plan, false, i);
    crate::layout::law_layout_places_every_step(plan, false, j);
}

/// The same holds of the plans a model proposes inside steps: at no depth do two steps
/// of one plan share an id, and at no depth is one locked.
pub proof fn law_proposals_are_open_at_every_depth(proposal: &ProposedGraph)
    ensures
        proposal.graph().distinct_deeply(),
        proposal.graph().open_deeply(),
    decreases proposal,
{
    let n = proposal.nodes@.len();
    lemma_steps(proposal, n);
    let plan = GraphModel {
        nodes: proposal.steps_to(n).nodes,
        edges: Seq::new(proposal.edges@.len(), |ix: int| proposal.edges@[ix].edge(ix)),
    };
    let after = proposal.graph();
    assert forall|i: int, j: int|
        #![trigger after.nodes[i], after.nodes[j]]
        0 <= i < j < after.nodes.len() implies after.nodes[i].id != after.nodes[j].id by {
        law_proposed_steps_are_open_and_distinct(proposal, i, j);
    }
    assert forall|i: int| #![trigger after.nodes[i]] 0 <= i < after.nodes.len() implies {
        &&& !after.nodes[i].locked
        &&& match after.nodes[i].subplan {
            Some(g) => g.distinct_deeply() && g.open_deeply(),
            None => true,
        }
    } by {
        law_proposed_steps_are_open_and_distinct(proposal, i, i);
        crate::layout::law_layout_places_every_step(plan, false, i);
        assert(after.nodes[i].subplan == plan.nodes[i].subplan);
        assert(proposal.steps_to(n).nodes[i].subplan == proposal.nodes@[i].node().subplan);
        if let Some(steps) = proposal.nodes@[i].steps {
            law_proposals_are_open_at_every_depth(&steps);
        }
    }
}

proof fn lemma_steps(proposal: &ProposedGraph, k: nat)
    requires
        k <= proposal.nodes@.len(),
    ensures
        proposal.steps_to(k).nodes.len() == k,
        forall|i: int| 0 <= i < k ==> !(#[trigger] proposal.steps_to(k).nodes[i]).locked,
        forall|i: int|
            0 <= i < k ==> (#[trigger] proposal.steps_to(k).nodes[i]).subplan
                == proposal.nodes@[i].node().subplan,
        forall|i: int, j: int|
            0 <= i < j < k ==> (#[trigger] proposal.steps_to(k).nodes[i]).id != (
            #[trigger] proposal.steps_to(k).nodes[j]).id,
    decreases k,
{
    if k > 0 {
        let before = proposal.steps_to((k - 1) as nat);
        let after = proposal.steps_to(k);
        lemma_steps(proposal, (k - 1) as nat);
        let asked = proposal.nodes@[k - 1].node().id;
        let found = before.lemma_free_number(asked);
        assert(!before.has_node(after.nodes[k - 1].id));
        assert forall|i: int, j: int| 0 <= i < j < k implies (#[trigger] after.nodes[i]).id != (
        #[trigger] after.nodes[j]).id by {
            assert(after.nodes[i] == before.nodes[i]);
            if j < k - 1 {
                assert(after.nodes[j] == before.nodes[j]);
            }
        }
    }
}

proof fn lemma_steps_say(proposal: &ProposedGraph, k: nat, i: int)
    requires
        0 <= i < k <= proposal.nodes@.len(),
    ensures
        proposal.steps_to(k).nodes.len() == k,
        ({
            let proposed = proposal.nodes@[i].node();
            let step = proposal.steps_to(k).nodes[i];
            &&& (NodeModel { id: proposed.id, ..step }) == proposed
            &&& (forall|j: int| 0 <= j < i ==> proposal.steps_to(k).nodes[j].id != proposed.id)
                ==> step.id == proposed.id
        }),
    decreases k,
{
    let before = proposal.steps_to((k - 1) as nat);
    let after = proposal.steps_to(k);
    lemma_steps(proposal, k);
    lemma_steps(proposal, (k - 1) as nat);
    if i < k - 1 {
        lemma_steps_say(proposal, (k - 1) as nat, i);
        assert forall|j: int| 0 <= j <= i implies after.nodes[j] == before.nodes[j] by {
        }
    } else {
        let proposed = proposal.nodes@[i].node();
        assert((NodeModel { id: proposed.id, ..after.nodes[i] }) == proposed);
        if forall|j: int| 0 <= j < i ==> after.nodes[j].id != proposed.id {
            if before.has_node(proposed.id) {
                let j = choose|j: int|
                    0 <= j < before.nodes.len() && (#[trigger] before.nodes[j]).id == proposed.id;
                assert(after.nodes[j].id == proposed.id);
            }
        }
    }
}

/// A proposal is taken at its word: each step says what was proposed for it, and each
/// connection leads from and to the steps proposed, on the terms proposed or always. A
/// plan proposed inside a step is the plan inside it, unless it has no steps. Nothing
/// else is decided about a step.
pub proof fn law_proposals_are_taken_at_their_word(proposal: &ProposedGraph, i: int)
    requires
        0 <= i < proposal.nodes@.len(),
    ensures
        proposal.graph().nodes.len() == proposal.nodes@.len(),
        ({
            let proposed = proposal.nodes@[i];
            let step = proposal.graph().nodes[i];
            &&& step.title == proposed.title@
            &&& step.intent == proposed.intent@
            &&& step.rules.len() == proposed.rules@.len()
            &&& forall|k: int|
                0 <= k < step.rules.len() ==> #[trigger] step.rules[k] == proposed.rules@[k]@
            &&& step.capture == proposed.capture@
            &&& !step.pinned
            &&& !step.locked
            &&& step.chat is None
            &&& step.result is None
            &&& proposed.steps is None ==> step.subplan is None
            &&& proposed.steps matches Some(inner) ==> if inner.nodes@.len() == 0 {
                step.subplan is None
            } else {
                step.subplan is Some && *step.subplan->0 == inner.graph()
            }
            &&& (forall|j: int|
                0 <= j < i ==> (#[trigger] proposal.graph().nodes[j]).id != proposed.id@)
                ==> step.id == proposed.id@
        }),
        proposal.graph().edges.len() == proposal.edges@.len(),
        forall|k: int|
            #![trigger proposal.graph().edges[k]]
            0 <= k < proposal.edges@.len() ==> {
                let edge = proposal.graph().edges[k];
                &&& edge.from == proposal.edges@[k].from@
                &&& edge.to == proposal.edges@[k].to@
                &&& proposal.edges@[k].condition is None ==> edge.condition
                    == ConditionModel::Always
                &&& proposal.edges@[k].condition matches Some(condition) ==> edge.condition
                    == condition@
            },
    decreases proposal,
{
    let n = proposal.nodes@.len();
    lemma_steps(proposal, n);
    lemma_steps_say(proposal, n, i);
    let plan = GraphModel {
        nodes: proposal.steps_to(n).nodes,
        edges: Seq::new(proposal.edges@.len(), |ix: int| proposal.edges@[ix].edge(ix)),
    };
    crate::layout::law_layout_places_every_step(plan, false, i);
    if let Some(inner) = proposal.nodes@[i].steps {
        if inner.nodes@.len() > 0 {
            law_proposals_are_taken_at_their_word(&inner, 0);
        } else {
            assert(inner.graph().nodes.len() == 0);
        }
    }
    let proposed = proposal.nodes@[i].node();
    if forall|j: int| 0 <= j < i ==> (#[trigger] proposal.graph().nodes[j]).id != proposed.id {
        assert forall|j: int| 0 <= j < i implies proposal.steps_to(n).nodes[j].id
            != proposed.id by {
            crate::layout::law_layout_places_every_step(plan, false, j);
            assert(proposal.graph().nodes[j].id != proposed.id);
        }
    }
}

} // verus!
