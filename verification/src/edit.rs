//! Adding, removing and connecting steps, and settling them.
use crate::graph::{
    self, ArchitectEdge, ArchitectGraph, ArchitectNode, EdgeCondition, EdgeId, NodeId,
};
use crate::model::{self, EdgeModel, GraphModel, NodeModel};
use crate::text;
use vstd::prelude::*;

verus! {

impl ArchitectGraph {
    /// Adds a node, giving it a unique id if the requested one is taken.
    pub fn add_node(&mut self, node: ArchitectNode) -> (res: NodeId)
        ensures
            final(self)@ == old(self)@.with_added(node@),
            res@ == old(self)@.free_id(node@.id),
            !old(self)@.has_node(res@),
    {
        let mut node = node;
        let ghost asked = node@;
        if self.node(&node.id).is_some() {
            proof {
                self@.lemma_node(node.id@);
            }
            node.id = self.unique_node_id(&node.id);
        } else {
            proof {
                self@.lemma_node(node.id@);
            }
        }
        let id = node.id.clone();
        let ghost before = *self;
        self.nodes.push(node);
        proof {
            self.lemma_view();
            before.lemma_view();
            assert(node@ == NodeModel { id: before@.free_id(asked.id), ..asked });
            assert(self@.nodes =~= before@.with_added(asked).nodes);
            assert(self@.edges =~= before@.edges);
        }
        id
    }

    fn unique_node_id(&self, desired: &NodeId) -> (res: NodeId)
        requires
            self@.has_node(desired@),
        ensures
            res@ == self@.free_id(desired@),
            !self@.has_node(res@),
    {
        let ghost found = self@.lemma_free_number(desired@);
        proof {
            self.lemma_view();
        }
        let count: usize = self.nodes.len();
        let mut suffix: u128 = 2;
        loop
            invariant
                self@.nodes.len() == count,
                self@.is_fresh_number(desired@, found),
                found <= self@.nodes.len() + 2,
                self@.free_id(desired@) == GraphModel::numbered(desired@, found),
                2 <= suffix <= found,
            decreases found - suffix,
        {
            let candidate = NodeId(
                text::cat3(desired.0.as_str(), "-", text::number(suffix).as_str()),
            );
            proof {
                self@.lemma_node(candidate@);
                assert(candidate@ == GraphModel::numbered(desired@, suffix as nat));
            }
            if self.node(&candidate).is_none() {
                return candidate;
            }
            suffix += 1;
        }
    }

    /// Removes a node along with every connection that touched it, so the graph
    /// cannot be left with edges pointing at nothing.
    pub fn remove_node(&mut self, id: &NodeId)
        ensures
            final(self)@ == old(self)@.without_node(id@),
    {
        let ghost before = *self;
        let ghost keeps_node = |n: NodeModel| n.id != id@;
        let ghost keeps_edge = |e: EdgeModel| e.from != id@ && e.to != id@;
        let ghost mut seen: int = 0;
        let mut k: usize = 0;
        proof {
            reveal(Seq::filter);
            before.lemma_view();
            assert(before@.nodes.take(0) =~= Seq::empty());
            assert(before@.edges.take(0) =~= Seq::empty());
        }
        while k < self.nodes.len()
            invariant
                self.edges == before.edges,
                0 <= seen <= before.nodes@.len(),
                before@.nodes.len() == before.nodes@.len(),
                self.nodes@.len() - k == before.nodes@.len() - seen,
                k <= self.nodes@.len(),
                k == before@.nodes.take(seen).filter(keeps_node).len(),
                keeps_node == (|n: NodeModel| n.id != id@),
                forall|i: int|
                    0 <= i < k ==> (#[trigger] self.nodes@[i])@ == before@.nodes.take(seen).filter(
                        keeps_node,
                    )[i],
                forall|i: int|
                    k <= i < self.nodes@.len() ==> #[trigger] self.nodes@[i]
                        == before.nodes@[i - k + seen],
            decreases self.nodes@.len() - k,
        {
            proof {
                model::lemma_filter_take(before@.nodes, keeps_node, seen);
                before.lemma_view();
                assert(self.nodes@[k as int] == before.nodes@[seen]);
                assert(before@.nodes[seen] == before.nodes@[seen]@);
            }
            if self.nodes[k].id.same(id) {
                self.nodes.remove(k);
            } else {
                k += 1;
            }
            proof {
                seen = seen + 1;
            }
        }
        let ghost mid = *self;
        proof {
            before.lemma_view();
            self.lemma_view();
            assert(before@.nodes.take(seen) =~= before@.nodes);
            assert(self@.nodes =~= before@.without_node(id@).nodes);
            seen = 0;
        }
        let mut k: usize = 0;
        while k < self.edges.len()
            invariant
                self.nodes == mid.nodes,
                0 <= seen <= before.edges@.len(),
                before@.edges.len() == before.edges@.len(),
                self.edges@.len() - k == before.edges@.len() - seen,
                k <= self.edges@.len(),
                k == before@.edges.take(seen).filter(keeps_edge).len(),
                keeps_edge == (|e: EdgeModel| e.from != id@ && e.to != id@),
                forall|i: int|
                    0 <= i < k ==> (#[trigger] self.edges@[i])@ == before@.edges.take(seen).filter(
                        keeps_edge,
                    )[i],
                forall|i: int|
                    k <= i < self.edges@.len() ==> #[trigger] self.edges@[i]
                        == before.edges@[i - k + seen],
            decreases self.edges@.len() - k,
        {
            proof {
                model::lemma_filter_take(before@.edges, keeps_edge, seen);
                before.lemma_view();
                assert(self.edges@[k as int] == before.edges@[seen]);
                assert(before@.edges[seen] == before.edges@[seen]@);
            }
            if self.edges[k].from.same(id) || self.edges[k].to.same(id) {
                self.edges.remove(k);
            } else {
                k += 1;
            }
            proof {
                seen = seen + 1;
            }
        }
        proof {
            before.lemma_view();
            mid.lemma_view();
            self.lemma_view();
            assert(before@.edges.take(seen) =~= before@.edges);
            assert(self@.nodes =~= mid@.nodes);
            assert(self@.edges =~= before@.without_node(id@).edges);
        }
    }

    /// Removes the connections of an id.
    pub fn disconnect(&mut self, id: &EdgeId)
        ensures
            final(self)@ == old(self)@.without_edge(id@),
    {
        let ghost before = *self;
        let ghost keeps_edge = |e: EdgeModel| e.id != id@;
        let ghost mut seen: int = 0;
        proof {
            reveal(Seq::filter);
            before.lemma_view();
            assert(before@.edges.take(0) =~= Seq::empty());
        }
        let mut k: usize = 0;
        while k < self.edges.len()
            invariant
                self.nodes == before.nodes,
                0 <= seen <= before.edges@.len(),
                before@.edges.len() == before.edges@.len(),
                self.edges@.len() - k == before.edges@.len() - seen,
                k <= self.edges@.len(),
                k == before@.edges.take(seen).filter(keeps_edge).len(),
                keeps_edge == (|e: EdgeModel| e.id != id@),
                forall|i: int|
                    0 <= i < k ==> (#[trigger] self.edges@[i])@ == before@.edges.take(seen).filter(
                        keeps_edge,
                    )[i],
                forall|i: int|
                    k <= i < self.edges@.len() ==> #[trigger] self.edges@[i]
                        == before.edges@[i - k + seen],
            decreases self.edges@.len() - k,
        {
            proof {
                model::lemma_filter_take(before@.edges, keeps_edge, seen);
                before.lemma_view();
                assert(self.edges@[k as int] == before.edges@[seen]);
                assert(before@.edges[seen] == before.edges@[seen]@);
            }
            if self.edges[k].id.same(id) {
                self.edges.remove(k);
            } else {
                k += 1;
            }
            proof {
                seen = seen + 1;
            }
        }
        proof {
            before.lemma_view();
            self.lemma_view();
            assert(before@.edges.take(seen) =~= before@.edges);
            assert(self@.nodes =~= before@.nodes);
            assert(self@.edges =~= before@.without_edge(id@).edges);
        }
    }

    fn has_edge(&self, id: &EdgeId) -> (res: bool)
        ensures
            res == self@.has_edge(id@),
    {
        for k in 0..self.edges.len()
            invariant
                forall|i: int| 0 <= i < k ==> (#[trigger] self@.edges[i]).id != id@,
        {
            proof {
                self.lemma_view();
                assert(self@.edges[k as int] == self.edges@[k as int]@);
            }
            if self.edges[k].id.same(id) {
                return true;
            }
        }
        proof {
            self.lemma_view();
        }
        false
    }

    /// Connects two steps, always taken, under an id made from theirs.
    pub fn connect(&mut self, from: &str, to: &str) -> (res: EdgeId)
        ensures
            final(self)@ == old(self)@.with_connection(from@, to@),
            res@ == old(self)@.free_edge_id(from@, to@),
    {
        self.connect_on(from, to, EdgeCondition::Always)
    }

    /// Adds a connection on the given terms, under an id made from its steps.
    pub(crate) fn connect_on(&mut self, from: &str, to: &str, condition: EdgeCondition) -> (res:
        EdgeId)
        ensures
            final(self)@ == old(self)@.with_connection_on(from@, to@, condition@),
            res@ == old(self)@.free_edge_id(from@, to@),
    {
        let id = EdgeId(text::cat3(from, "->", to));
        let id = if self.has_edge(&id) {
            let count: usize = self.edges.len();
            EdgeId(text::cat3(id.0.as_str(), "-", text::number(count as u128).as_str()))
        } else {
            id
        };
        let ghost terms = condition@;
        let edge = ArchitectEdge {
            id: id.clone(),
            from: NodeId::from(from),
            to: NodeId::from(to),
            condition,
        };
        let ghost before = *self;
        self.edges.push(edge);
        proof {
            self.lemma_view();
            before.lemma_view();
            assert(self@.nodes =~= before@.nodes);
            assert(self@.edges =~= before@.with_connection_on(from@, to@, terms).edges);
        }
        id
    }

    /// Connects two steps on the given terms.
    pub fn connect_with(&mut self, from: &str, to: &str, condition: EdgeCondition) -> (res: EdgeId)
        ensures
            final(self)@ == old(self)@.with_connection(from@, to@).with_terms(res@, condition@),
            res@ == old(self)@.free_edge_id(from@, to@),
    {
        let ghost start = self@;
        let id = self.connect(from, to);
        let ghost before = *self;
        let mut k: usize = 0;
        proof {
            self.lemma_view();
            assert(before@.edges.last().id == id@);
        }
        while !self.edges[k].id.same(&id)
            invariant
                *self == before,
                self@.edges.len() == self.edges@.len(),
                k < self.edges.len(),
                self@.edges.last().id == id@,
                forall|i: int| 0 <= i < k ==> (#[trigger] self@.edges[i]).id != id@,
            decreases self.edges.len() - k,
        {
            proof {
                self.lemma_view();
                assert(self@.edges[k as int] == self.edges@[k as int]@);
            }
            k += 1;
        }
        proof {
            self.lemma_view();
            assert(self@.edges[k as int] == self.edges@[k as int]@);
            self@.lemma_edge_index(id@, k as int);
        }
        let ghost terms = condition@;
        self.edges[k].condition = condition;
        proof {
            self.lemma_view();
            assert(self@.nodes =~= before@.nodes);
            assert(self@.edges =~= before@.with_terms(id@, terms).edges);
        }
        id
    }

    /// The connections that leave a step.
    pub fn edges_from<'a>(&'a self, id: &NodeId) -> (res: Vec<&'a ArchitectEdge>)
        ensures
            res@.map_values(|e: &ArchitectEdge| e@) == self@.edges_from(id@),
    {
        let mut out: Vec<&'a ArchitectEdge> = Vec::new();
        let ghost p = |e: EdgeModel| e.from == id@;
        proof {
            reveal(Seq::filter);
        }
        for k in 0..self.edges.len()
            invariant
                p == (|e: EdgeModel| e.from == id@),
                out@.map_values(|e: &ArchitectEdge| e@) == self@.edges.take(k as int).filter(p),
        {
            proof {
                self.lemma_view();
                model::lemma_filter_take(self@.edges, p, k as int);
                assert(self@.edges[k as int] == self.edges@[k as int]@);
            }
            let edge = &self.edges[k];
            if edge.from.same(id) {
                let ghost before = out@;
                out.push(edge);
                proof {
                    assert(out@.map_values(|e: &ArchitectEdge| e@) =~= before.map_values(
                        |e: &ArchitectEdge| e@,
                    ).push(edge@));
                }
            }
        }
        proof {
            self.lemma_view();
            assert(self@.edges.take(self@.edges.len() as int) =~= self@.edges);
        }
        out
    }

    /// The connections that enter a step.
    pub fn edges_into<'a>(&'a self, id: &NodeId) -> (res: Vec<&'a ArchitectEdge>)
        ensures
            res@.map_values(|e: &ArchitectEdge| e@) == self@.edges_into(id@),
    {
        let mut out: Vec<&'a ArchitectEdge> = Vec::new();
        let ghost p = |e: EdgeModel| e.to == id@;
        proof {
            reveal(Seq::filter);
        }
        for k in 0..self.edges.len()
            invariant
                p == (|e: EdgeModel| e.to == id@),
                out@.map_values(|e: &ArchitectEdge| e@) == self@.edges.take(k as int).filter(p),
        {
            proof {
                self.lemma_view();
                model::lemma_filter_take(self@.edges, p, k as int);
                assert(self@.edges[k as int] == self.edges@[k as int]@);
            }
            let edge = &self.edges[k];
            if edge.to.same(id) {
                let ghost before = out@;
                out.push(edge);
                proof {
                    assert(out@.map_values(|e: &ArchitectEdge| e@) =~= before.map_values(
                        |e: &ArchitectEdge| e@,
                    ).push(edge@));
                }
            }
        }
        proof {
            self.lemma_view();
            assert(self@.edges.take(self@.edges.len() as int) =~= self@.edges);
        }
        out
    }

    /// Whether there are steps and all of them are locked.
    pub fn is_fully_locked(&self) -> (res: bool)
        ensures
            res == self@.fully_locked(),
    {
        proof {
            self.lemma_view();
        }
        if self.nodes.len() == 0 {
            return false;
        }
        for k in 0..self.nodes.len()
            invariant
                forall|i: int| 0 <= i < k ==> (#[trigger] self@.nodes[i]).locked,
        {
            proof {
                self.lemma_view();
                assert(self@.nodes[k as int] == self.nodes@[k as int]@);
            }
            if !self.nodes[k].locked {
                return false;
            }
        }
        true
    }

    /// Whether every step here and in every nested plan is locked.
    pub fn is_fully_locked_deeply(&self) -> (res: bool)
        ensures
            res == self@.fully_locked_deeply(),
        decreases self,
    {
        proof {
            self.lemma_view();
        }
        if self.nodes.len() == 0 {
            return false;
        }
        for k in 0..self.nodes.len()
            invariant
                forall|i: int|
                    0 <= i < k ==> (#[trigger] self@.nodes[i]).locked
                        && match self@.nodes[i].subplan {
                        Some(g) => g.nodes.len() == 0 || g.fully_locked_deeply(),
                        None => true,
                    },
        {
            proof {
                self.lemma_view();
                assert(self@.nodes[k as int] == self.nodes@[k as int]@);
            }
            if !self.nodes[k].locked {
                return false;
            }
            if let Some(subplan) = &self.nodes[k].subplan {
                proof {
                    subplan.lemma_view();
                }
                if subplan.nodes.len() > 0 && !subplan.is_fully_locked_deeply() {
                    return false;
                }
            }
        }
        true
    }

    /// Locks or unlocks the step of an id.
    pub fn set_locked(&mut self, id: &NodeId, locked: bool)
        ensures
            final(self)@ == (match old(self)@.node(id@) {
                Some(node) => old(self)@.with_step(id@, NodeModel { locked, ..node }),
                None => old(self)@,
            }),
    {
        if let Some(node) = self.node_mut(id) {
            node.locked = locked;
        }
    }

    /// Whether a step may be locked. A step that contains a plan cannot be
    /// settled while any part of that plan is still being argued about.
    pub fn can_lock(&self, id: &NodeId) -> (res: bool)
        ensures
            res == self@.lockable(id@),
    {
        match self.node(id) {
            Some(node) => match node.subplan() {
                Some(subplan) => subplan.is_fully_locked_deeply(),
                None => true,
            },
            None => true,
        }
    }

    /// Steps whose summary every later step is told about, in graph order.
    pub fn pinned_nodes(&self) -> (res: Vec<&ArchitectNode>)
        ensures
            res@.map_values(|n: &ArchitectNode| n@) == self@.pinned(),
    {
        let mut out: Vec<&ArchitectNode> = Vec::new();
        let ghost p = |n: NodeModel| n.pinned;
        proof {
            reveal(Seq::filter);
        }
        for k in 0..self.nodes.len()
            invariant
                p == (|n: NodeModel| n.pinned),
                out@.map_values(|n: &ArchitectNode| n@) == self@.nodes.take(k as int).filter(p),
        {
            proof {
                self.lemma_view();
                model::lemma_filter_take(self@.nodes, p, k as int);
                assert(self@.nodes[k as int] == self.nodes@[k as int]@);
            }
            let node = &self.nodes[k];
            if node.pinned {
                let ghost before = out@;
                out.push(node);
                proof {
                    assert(out@.map_values(|n: &ArchitectNode| n@) =~= before.map_values(
                        |n: &ArchitectNode| n@,
                    ).push(node@));
                }
            }
        }
        proof {
            self.lemma_view();
            assert(self@.nodes.take(self@.nodes.len() as int) =~= self@.nodes);
        }
        out
    }

    /// Steps that lead somewhere but never say what they hand on. Not an error:
    /// plenty of steps have nothing worth passing forward. Worth pointing at,
    /// though, because it is usually an oversight.
    pub fn steps_without_capture(&self) -> (res: Vec<NodeId>)
        ensures
            graph::ids(res@) == self@.without_capture().map_values(|n: NodeModel| n.id),
    {
        let mut out: Vec<NodeId> = Vec::new();
        let ghost p = |n: NodeModel| text::is_blank(n.capture) && self@.edges_from(n.id).len() > 0;
        let ghost id_of = |n: NodeModel| n.id;
        proof {
            reveal(Seq::filter);
        }
        for k in 0..self.nodes.len()
            invariant
                p == (|n: NodeModel| text::is_blank(n.capture) && self@.edges_from(n.id).len() > 0),
                id_of == (|n: NodeModel| n.id),
                graph::ids(out@) == self@.nodes.take(k as int).filter(p).map_values(id_of),
        {
            proof {
                self.lemma_view();
                model::lemma_filter_take(self@.nodes, p, k as int);
                assert(self@.nodes[k as int] == self.nodes@[k as int]@);
            }
            let node = &self.nodes[k];
            let leaves = self.edges_from(&node.id);
            proof {
                assert(leaves@.len() == self@.edges_from(node.id@).len()) by {
                    assert(leaves@.map_values(|e: &ArchitectEdge| e@).len() == leaves@.len());
                }
            }
            if text::blank(node.capture.as_str()) && leaves.len() > 0 {
                let ghost before = out@;
                let ghost passed = self@.nodes.take(k as int).filter(p);
                out.push(node.id.clone());
                proof {
                    assert(graph::ids(out@) =~= graph::ids(before).push(node.id@));
                    assert(passed.push(node@).map_values(id_of) =~= passed.map_values(id_of).push(
                        node.id@,
                    ));
                }
            }
        }
        proof {
            self.lemma_view();
            assert(self@.nodes.take(self@.nodes.len() as int) =~= self@.nodes);
        }
        out
    }
}

} // verus!
