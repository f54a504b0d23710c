//! Where a step sits among nested plans, and how it is reached.
use crate::graph::{self, clone_ids, ArchitectGraph, ArchitectNode, NodeId};
use crate::model::{GraphModel, NodeModel};
use crate::text;
use vstd::prelude::*;

verus! {

/// Where a step sits, as the ids walked from the top-level plan down to it.
///
/// A bare `NodeId` stops meaning anything once plans nest, because the same id
/// may exist in several sub-plans.
#[derive(Debug, PartialEq, Eq, Hash)]
pub struct NodePath(pub Vec<NodeId>);

impl View for NodePath {
    type V = Seq<Seq<char>>;

    open spec fn view(&self) -> Seq<Seq<char>> {
        graph::ids(self.0@)
    }
}

impl Clone for NodePath {
    fn clone(&self) -> (res: Self)
        ensures
            res@ == self@,
    {
        NodePath(clone_ids(&self.0))
    }
}

impl Default for NodePath {
    fn default() -> (res: Self)
        ensures
            res@ == Seq::<Seq<char>>::empty(),
    {
        let res = NodePath(Vec::new());
        proof {
            assert(res@ =~= Seq::empty());
        }
        res
    }
}

impl vstd::std_specs::convert::FromSpecImpl<Vec<NodeId>> for NodePath {
    open spec fn obeys_from_spec() -> bool {
        true
    }

    open spec fn from_spec(v: Vec<NodeId>) -> Self {
        NodePath(v)
    }
}

impl From<Vec<NodeId>> for NodePath {
    fn from(value: Vec<NodeId>) -> (res: Self) {
        NodePath(value)
    }
}

impl NodePath {
    /// The path of a step in the top-level plan.
    pub fn root(id: NodeId) -> (res: Self)
        ensures
            res@ == seq![id@],
    {
        let mut path: Vec<NodeId> = Vec::new();
        path.push(id);
        let res = NodePath(path);
        proof {
            assert(res@ =~= seq![id@]);
        }
        res
    }

    /// The path of a step in the plan nested inside this one.
    pub fn child(&self, id: NodeId) -> (res: Self)
        ensures
            res@ == self@.push(id@),
    {
        let mut path = clone_ids(&self.0);
        path.push(id);
        let res = NodePath(path);
        proof {
            assert(res@ =~= self@.push(id@));
        }
        res
    }

    /// The path of the step this one is nested in.
    pub fn parent(&self) -> (res: Option<NodePath>)
        ensures
            match res {
                Some(path) => self@.len() > 1 && path@ == self@.drop_last(),
                None => self@.len() <= 1,
            },
    {
        if self.0.len() > 1 {
            let mut path = clone_ids(&self.0);
            path.pop();
            let res = NodePath(path);
            proof {
                assert(res@ =~= self@.drop_last());
            }
            Some(res)
        } else {
            None
        }
    }

    /// The id of the step itself.
    pub fn leaf(&self) -> (res: Option<&NodeId>)
        ensures
            match res {
                Some(id) => self@.len() > 0 && id@ == self@.last(),
                None => self@.len() == 0,
            },
    {
        if self.0.len() > 0 {
            Some(&self.0[self.0.len() - 1])
        } else {
            None
        }
    }

    /// How many ids are walked.
    pub fn depth(&self) -> (res: usize)
        ensures
            res == self@.len(),
    {
        self.0.len()
    }

    /// Whether the path leads nowhere.
    pub fn is_empty(&self) -> (res: bool)
        ensures
            res == (self@.len() == 0),
    {
        self.0.len() == 0
    }

    /// Whether two paths are the same.
    pub fn same(&self, other: &NodePath) -> (res: bool)
        ensures
            res == (self@ == other@),
    {
        if self.0.len() != other.0.len() {
            proof {
                assert(self@.len() == self.0@.len());
                assert(other@.len() == other.0@.len());
            }
            return false;
        }
        for k in 0..self.0.len()
            invariant
                self.0.len() == other.0.len(),
                forall|i: int| 0 <= i < k ==> self@[i] == other@[i],
        {
            if !self.0[k].same(&other.0[k]) {
                proof {
                    assert(self@[k as int] != other@[k as int]);
                }
                return false;
            }
        }
        proof {
            assert(self@ =~= other@);
        }
        true
    }

    /// Whether another path starts with this one.
    pub(crate) fn starts(&self, other: &NodePath) -> (res: bool)
        ensures
            res == self@.is_prefix_of(other@),
    {
        if self.0.len() > other.0.len() {
            return false;
        }
        for k in 0..self.0.len()
            invariant
                self.0.len() <= other.0.len(),
                forall|i: int| 0 <= i < k ==> self@[i] == other@[i],
        {
            if !self.0[k].same(&other.0[k]) {
                proof {
                    assert(self@[k as int] != other@.subrange(0, self@.len() as int)[k as int]);
                }
                return false;
            }
        }
        proof {
            assert(self@ =~= other@.subrange(0, self@.len() as int));
        }
        true
    }

    /// The ids, in the order they are walked, with slashes between them.
    pub fn to_text(&self) -> (res: String)
        ensures
            res@ == text::joined(self@, " / "@),
    {
        let mut parts: Vec<String> = Vec::new();
        for k in 0..self.0.len()
            invariant
                crate::graph::texts(parts@) =~= self@.take(k as int),
        {
            let ghost before = parts@;
            parts.push(self.0[k].0.clone());
            proof {
                assert(crate::graph::texts(parts@) =~= crate::graph::texts(before).push(
                    self@[k as int],
                ));
            }
        }
        proof {
            assert(self@.take(self@.len() as int) =~= self@);
        }
        text::join(&parts, " / ")
    }
}

impl GraphModel {
    /// Walking a path one id at a time leads to the same plan.
    pub proof fn lemma_graph_at_push(self, path: Seq<Seq<char>>)
        requires
            path.len() > 0,
        ensures
            self.graph_at(path) == (match self.graph_at(path.drop_last()) {
                Some(g) => match g.node(path.last()) {
                    Some(node) => node.nested(),
                    None => None,
                },
                None => None,
            }),
        decreases path.len(),
    {
        reveal_with_fuel(GraphModel::graph_at, 2);
        if path.len() == 1 {
            assert(path.skip(1).len() == 0);
        } else if let Some(node) = self.node(path[0]) {
            if let Some(g) = node.nested() {
                g.lemma_graph_at_push(path.skip(1));
                assert(path.skip(1).drop_last() =~= path.drop_last().skip(1));
            }
        }
    }
}

impl ArchitectGraph {
    /// The plan a path addresses: the nested plan inside the addressed step, or
    /// this graph itself for an empty path.
    pub fn graph_at(&self, path: &NodePath) -> (res: Option<&ArchitectGraph>)
        ensures
            match res {
                Some(g) => self@.graph_at(path@) == Some(g@),
                None => self@.graph_at(path@) is None,
            },
    {
        proof {
            assert(path@.take(path@.len() as int) =~= path@);
        }
        self.graph_within(path, path.0.len())
    }

    fn graph_within(&self, path: &NodePath, count: usize) -> (res: Option<&ArchitectGraph>)
        requires
            count <= path@.len(),
        ensures
            match res {
                Some(g) => self@.graph_at(path@.take(count as int)) == Some(g@),
                None => self@.graph_at(path@.take(count as int)) is None,
            },
    {
        let mut graph = self;
        let ghost walk = path@.take(count as int);
        proof {
            assert(walk.skip(0) =~= walk);
        }
        for k in 0..count
            invariant
                count <= path@.len(),
                walk == path@.take(count as int),
                graph@.graph_at(walk.skip(k as int)) == self@.graph_at(walk),
        {
            let id = &path.0[k];
            proof {
                assert(walk.skip(k as int)[0] == id@);
                assert(walk.skip(k as int).skip(1) =~= walk.skip(k + 1));
            }
            match graph.node(id) {
                Some(node) => match node.subplan() {
                    Some(subplan) => {
                        graph = subplan;
                    },
                    None => {
                        return None;
                    },
                },
                None => {
                    return None;
                },
            }
        }
        proof {
            assert(walk.skip(count as int).len() == 0);
        }
        Some(graph)
    }

    /// The step a path addresses, walking down through nested plans.
    pub fn node_at(&self, path: &NodePath) -> (res: Option<&ArchitectNode>)
        ensures
            match res {
                Some(n) => self@.node_at(path@) == Some(n@),
                None => self@.node_at(path@) is None,
            },
    {
        let count: usize = path.0.len();
        if count == 0 {
            return None;
        }
        proof {
            assert(path@.take(count - 1) =~= path@.drop_last());
        }
        match self.graph_within(path, count - 1) {
            Some(graph) => graph.node(&path.0[count - 1]),
            None => None,
        }
    }

    fn plan_at_mut(&mut self, path: &NodePath, from: usize, to: usize) -> (res: Option<
        &mut ArchitectGraph,
    >)
        requires
            from <= to <= path@.len(),
        ensures
            match res {
                Some(g) => {
                    &&& old(self)@.plan_at(path@.subrange(from as int, to as int)) == Some((*g)@)
                    &&& final(self)@ == old(self)@.with_plan_at(
                        path@.subrange(from as int, to as int),
                        (*final(g))@,
                    )
                },
                None => {
                    &&& old(self)@.plan_at(path@.subrange(from as int, to as int)) is None
                    &&& final(self)@ == old(self)@
                },
            },
        decreases to - from,
    {
        let ghost walk = path@.subrange(from as int, to as int);
        if from == to {
            return Some(self);
        }
        proof {
            assert(walk[0] == path@[from as int]);
            assert(walk.skip(1) =~= path@.subrange(from + 1, to as int));
        }
        proof {
            self@.lemma_with_same_step(walk[0]);
            self@.lemma_node(walk[0]);
        }
        match self.node_mut(&path.0[from]) {
            Some(node) => match &mut node.subplan {
                Some(subplan) => subplan.plan_at_mut(path, from + 1, to),
                None => None,
            },
            None => None,
        }
    }

    /// The plan a path addresses, to be changed in place.
    pub fn graph_at_mut(&mut self, path: &NodePath) -> (res: Option<&mut ArchitectGraph>)
        ensures
            match res {
                Some(g) => {
                    &&& old(self)@.plan_at(path@) == Some((*g)@)
                    &&& final(self)@ == old(self)@.with_plan_at(path@, (*final(g))@)
                },
                None => old(self)@.plan_at(path@) is None && final(self)@ == old(self)@,
            },
    {
        proof {
            assert(path@.subrange(0, path@.len() as int) =~= path@);
        }
        self.plan_at_mut(path, 0, path.0.len())
    }

    /// The step a path addresses, to be changed in place.
    pub fn node_at_mut(&mut self, path: &NodePath) -> (res: Option<&mut ArchitectNode>)
        ensures
            match res {
                Some(n) => {
                    &&& old(self)@.step_at(path@) == Some((*n)@)
                    &&& final(self)@ == old(self)@.with_step_at(path@, (*final(n))@)
                },
                None => old(self)@.step_at(path@) is None && final(self)@ == old(self)@,
            },
    {
        let count: usize = path.0.len();
        if count == 0 {
            return None;
        }
        proof {
            assert(path@.subrange(0, count - 1) =~= path@.drop_last());
            old(self)@.lemma_with_same_plan(path@.drop_last());
        }
        match self.plan_at_mut(path, 0, count - 1) {
            Some(graph) => graph.node_mut(&path.0[count - 1]),
            None => None,
        }
    }

    /// Gives a step a plan of its own, or hands back the one it already has.
    pub fn subplan_mut(&mut self, id: &NodeId) -> (res: Option<&mut ArchitectGraph>)
        ensures
            match res {
                Some(g) => {
                    &&& old(self)@.node(id@) matches Some(node) && (*g)@ == (match node.subplan {
                        Some(inner) => *inner,
                        None => GraphModel::empty(),
                    }) && final(self)@ == old(self)@.with_step(
                        id@,
                        NodeModel { subplan: Some(Box::new((*final(g))@)), ..node },
                    )
                },
                None => old(self)@.node(id@) is None && *final(self) == *old(self),
            },
    {
        match self.node_mut(id) {
            Some(node) => {
                if node.subplan.is_none() {
                    node.subplan = Some(Box::new(ArchitectGraph::default()));
                }
                match &mut node.subplan {
                    Some(subplan) => Some(&mut **subplan),
                    None => None,
                }
            },
            None => None,
        }
    }
}

impl GraphModel {
    /// Putting back the step that is there changes nothing.
    pub proof fn lemma_with_same_step(self, id: Seq<char>)
        ensures
            match self.node(id) {
                Some(node) => self.with_step(id, node) == self,
                None => true,
            },
    {
        self.lemma_node(id);
        if let Some(i) = self.node_index(id) {
            assert(self.with_node(i, self.nodes[i]).nodes =~= self.nodes);
        }
    }

    /// Putting back the plan that is there changes nothing.
    pub proof fn lemma_with_same_plan(self, path: Seq<Seq<char>>)
        ensures
            match self.plan_at(path) {
                Some(g) => self.with_plan_at(path, g) == self,
                None => true,
            },
        decreases path.len(),
    {
        if path.len() > 0 {
            self.lemma_node(path[0]);
            if let Some(i) = self.node_index(path[0]) {
                if let Some(g) = self.nodes[i].subplan {
                    g.lemma_with_same_plan(path.skip(1));
                    if let Some(inner) = g.plan_at(path.skip(1)) {
                        assert(self.with_plan_at(path, inner).nodes =~= self.nodes);
                    }
                }
            }
        }
    }

    /// The plan put at a path is found there.
    pub proof fn lemma_plan_put(self, path: Seq<Seq<char>>, plan: GraphModel)
        requires
            self.plan_at(path) is Some,
        ensures
            self.with_plan_at(path, plan).plan_at(path) == Some(plan),
        decreases path.len(),
    {
        if path.len() > 0 {
            self.lemma_node(path[0]);
            let i = self.node_index(path[0])->0;
            let g = self.nodes[i].subplan->0;
            g.lemma_plan_put(path.skip(1), plan);
            let after = self.with_plan_at(path, plan);
            assert(after.is_index(path[0], i));
            after.lemma_index(path[0], i);
        }
    }

    /// The step put at a path is found there.
    pub proof fn lemma_step_put(self, path: Seq<Seq<char>>, node: NodeModel)
        requires
            self.step_at(path) is Some,
            node.id == path.last(),
        ensures
            self.with_step_at(path, node).step_at(path) == Some(node),
    {
        let local = self.plan_at(path.drop_last())->0;
        local.lemma_node(path.last());
        let i = local.node_index(path.last())->0;
        let after = local.with_step(path.last(), node);
        assert(after.is_index(path.last(), i));
        after.lemma_index(path.last(), i);
        self.lemma_plan_put(path.drop_last(), after);
    }
}

} // verus!
