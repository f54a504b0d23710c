//! Editing a plan at any depth, without touching what has been settled.
//!
//! A locked step is read-only, and so is everything inside it: its plan, the
//! steps of that plan and the connections between them. The connections that
//! leave a locked step are settled with it.
use crate::graph::{self, clone_ids, ArchitectGraph, ArchitectNode, EdgeCondition, EdgeId, NodeId};
use crate::model::{ConditionModel, EdgeModel, GraphModel, NodeModel};
use crate::path::NodePath;
use crate::text;
use vstd::prelude::*;

verus! {

/// Why an edit was refused.
#[derive(Debug, PartialEq, Eq)]
pub enum GraphMutationError {
    /// There is no step, or no plan, where the edit was addressed to.
    NotFound { path: NodePath },
    /// The step is settled.
    Locked { path: NodePath },
    /// The step contains a plan that is not settled yet.
    NestedPlanUnlocked { path: NodePath },
}

/// Why an edit was refused.
#[verifier::ext_equal]
pub enum RefusalModel {
    NotFound { path: Seq<Seq<char>> },
    Locked { path: Seq<Seq<char>> },
    NestedPlanUnlocked { path: Seq<Seq<char>> },
}

impl View for GraphMutationError {
    type V = RefusalModel;

    open spec fn view(&self) -> RefusalModel {
        match *self {
            GraphMutationError::NotFound { path } => RefusalModel::NotFound { path: path@ },
            GraphMutationError::Locked { path } => RefusalModel::Locked { path: path@ },
            GraphMutationError::NestedPlanUnlocked { path } => RefusalModel::NestedPlanUnlocked {
                path: path@,
            },
        }
    }
}

impl RefusalModel {
    /// Why an edit was refused, as a sentence.
    pub open spec fn sentence(self) -> Seq<char> {
        match self {
            RefusalModel::NotFound { path } => "there is no step at "@ + text::joined(
                path,
                " / "@,
            ),
            RefusalModel::Locked { path } => text::joined(path, " / "@)
                + " is locked, so it can no longer be edited"@,
            RefusalModel::NestedPlanUnlocked { path } => text::joined(path, " / "@)
                + " contains a plan with steps that are not locked yet"@,
        }
    }
}

impl GraphMutationError {
    /// Why the edit was refused, as a sentence.
    pub fn to_text(&self) -> (res: String)
        ensures
            res@ == self@.sentence(),
    {
        match self {
            GraphMutationError::NotFound { path } => text::cat2(
                "there is no step at ",
                path.to_text().as_str(),
            ),
            GraphMutationError::Locked { path } => text::cat2(
                path.to_text().as_str(),
                " is locked, so it can no longer be edited",
            ),
            GraphMutationError::NestedPlanUnlocked { path } => text::cat2(
                path.to_text().as_str(),
                " contains a plan with steps that are not locked yet",
            ),
        }
    }
}

/// A route out of a step: where it leads and on what terms.
pub struct PlannedRoute {
    pub to: NodeId,
    pub condition: EdgeCondition,
}

/// A route out of a step.
#[verifier::ext_equal]
pub struct PlannedRouteModel {
    pub to: Seq<char>,
    pub condition: ConditionModel,
}

impl View for PlannedRoute {
    type V = PlannedRouteModel;

    open spec fn view(&self) -> PlannedRouteModel {
        PlannedRouteModel { to: self.to@, condition: self.condition@ }
    }
}

/// Some routes as mathematical values.
pub open spec fn route_values(routes: Seq<PlannedRoute>) -> Seq<PlannedRouteModel> {
    routes.map_values(|r: PlannedRoute| r@)
}

impl GraphModel {
    /// The outermost of the first `k` steps on a path that is locked.
    pub open spec fn lock_over(self, path: Seq<Seq<char>>, k: nat) -> Option<Seq<Seq<char>>>
        decreases k,
    {
        if k == 0 {
            None
        } else {
            match self.lock_over(path, (k - 1) as nat) {
                Some(found) => Some(found),
                None => match self.step_at(path.take(k as int)) {
                    Some(node) => if node.locked {
                        Some(path.take(k as int))
                    } else {
                        None
                    },
                    None => None,
                },
            }
        }
    }

    /// Why the step at a path may not be edited: it is not there, or it or a step
    /// it lies inside is locked.
    pub open spec fn step_refusal(self, path: Seq<Seq<char>>) -> Option<RefusalModel> {
        if self.step_at(path) is None {
            Some(RefusalModel::NotFound { path })
        } else {
            match self.lock_over(path, path.len()) {
                Some(locked) => Some(RefusalModel::Locked { path: locked }),
                None => None,
            }
        }
    }

    /// Why the plan at a path may not be edited: it is not there, or a step it
    /// lies inside is locked.
    pub open spec fn plan_refusal(self, path: Seq<Seq<char>>) -> Option<RefusalModel> {
        if self.plan_at(path) is None {
            Some(RefusalModel::NotFound { path })
        } else {
            match self.lock_over(path, path.len()) {
                Some(locked) => Some(RefusalModel::Locked { path: locked }),
                None => None,
            }
        }
    }

    /// Why the lock of the step at a path may not be changed: the step is not
    /// there, a step it lies inside is locked, or it is to be locked over a plan
    /// that is not settled.
    pub open spec fn lock_refusal(self, path: Seq<Seq<char>>, locked: bool) -> Option<
        RefusalModel,
    > {
        match self.step_at(path) {
            None => Some(RefusalModel::NotFound { path }),
            Some(node) => match self.lock_over(path, (path.len() - 1) as nat) {
                Some(over) => Some(RefusalModel::Locked { path: over }),
                None => if locked && !node.may_lock() {
                    Some(RefusalModel::NestedPlanUnlocked { path })
                } else {
                    None
                },
            },
        }
    }

    /// This plan without the connections that leave a step.
    pub open spec fn without_routes(self, id: Seq<char>) -> GraphModel {
        GraphModel { nodes: self.nodes, edges: self.edges.filter(|e: EdgeModel| e.from != id) }
    }

    /// This plan with the first `k` of some routes added to a step; those that
    /// lead to a step that is not there are left out.
    pub open spec fn with_routes(
        self,
        id: Seq<char>,
        routes: Seq<PlannedRouteModel>,
        k: nat,
    ) -> GraphModel
        decreases k,
    {
        if k == 0 || k > routes.len() {
            self
        } else {
            let rest = self.with_routes(id, routes, (k - 1) as nat);
            let route = routes[k - 1];
            if self.has_node(route.to) {
                rest.with_connection_on(id, route.to, route.condition)
            } else {
                rest
            }
        }
    }

    /// The targets of some routes that are not steps of this plan, in order.
    pub open spec fn unknown_targets(self, routes: Seq<PlannedRouteModel>) -> Seq<Seq<char>> {
        routes.filter(|r: PlannedRouteModel| !self.has_node(r.to)).map_values(
            |r: PlannedRouteModel| r.to,
        )
    }

    /// This plan with the routes out of the step at a path replaced.
    pub open spec fn rerouted_at(self, path: Seq<Seq<char>>, routes: Seq<PlannedRouteModel>) -> GraphModel {
        let local = self.plan_at(path.drop_last())->0;
        self.with_plan_at(
            path.drop_last(),
            local.without_routes(path.last()).with_routes(path.last(), routes, routes.len()),
        )
    }
}

impl NodeModel {
    /// Whether what the step contains is settled, so that it may be locked.
    pub open spec fn may_lock(self) -> bool {
        match self.nested() {
            Some(g) => g.fully_locked_deeply(),
            None => true,
        }
    }
}

impl ArchitectGraph {
    fn plan_within(&self, path: &NodePath, count: usize) -> (res: Option<&ArchitectGraph>)
        requires
            count <= path@.len(),
        ensures
            match res {
                Some(g) => self@.plan_at(path@.take(count as int)) == Some(g@),
                None => self@.plan_at(path@.take(count as int)) is None,
            },
    {
        let mut graph = self;
        let ghost walk = path@.take(count as int);
        proof {
            assert(walk.skip(0) =~= walk);
        }
        for k in 0..count
            invariant
                count <= path@.len(),
                walk == path@.take(count as int),
                graph@.plan_at(walk.skip(k as int)) == self@.plan_at(walk),
        {
            let id = &path.0[k];
            proof {
                assert(walk.skip(k as int)[0] == id@);
                assert(walk.skip(k as int).skip(1) =~= walk.skip(k + 1));
            }
            match graph.node(id) {
                Some(node) => match &node.subplan {
                    Some(subplan) => {
                        graph = &**subplan;
                    },
                    None => {
                        return None;
                    },
                },
                None => {
                    return None;
                },
            }
        }
        proof {
            assert(walk.skip(count as int).len() == 0);
        }
        Some(graph)
    }

    pub(crate) fn step_within(&self, path: &NodePath, count: usize) -> (res: Option<&ArchitectNode>)
        requires
            count <= path@.len(),
        ensures
            match res {
                Some(n) => self@.step_at(path@.take(count as int)) == Some(n@),
                None => self@.step_at(path@.take(count as int)) is None,
            },
    {
        if count == 0 {
            return None;
        }
        proof {
            assert(path@.take(count as int).drop_last() =~= path@.take(count - 1));
            assert(path@.take(count as int).last() == path@[count - 1]);
        }
        match self.plan_within(path, count - 1) {
            Some(graph) => graph.node(&path.0[count - 1]),
            None => None,
        }
    }

    fn find_lock(&self, path: &NodePath, count: usize) -> (res: Option<NodePath>)
        requires
            count <= path@.len(),
        ensures
            match res {
                Some(found) => self@.lock_over(path@, count as nat) == Some(found@),
                None => self@.lock_over(path@, count as nat) is None,
            },
        decreases count,
    {
        if count == 0 {
            return None;
        }
        if let Some(found) = self.find_lock(path, count - 1) {
            return Some(found);
        }
        match self.step_within(path, count) {
            Some(node) => if node.locked {
                let mut prefix: Vec<NodeId> = Vec::new();
                for k in 0..count
                    invariant
                        count <= path@.len(),
                        graph::ids(prefix@) =~= path@.take(k as int),
                {
                    let ghost before = prefix@;
                    prefix.push(path.0[k].clone());
                    proof {
                        assert(graph::ids(prefix@) =~= graph::ids(before).push(path@[k as int]));
                    }
                }
                Some(NodePath(prefix))
            } else {
                None
            },
            None => None,
        }
    }

    pub(crate) fn check_step(&self, path: &NodePath) -> (res: Result<(), GraphMutationError>)
        ensures
            match res {
                Ok(_) => self@.step_refusal(path@) is None,
                Err(error) => self@.step_refusal(path@) == Some(error@),
            },
    {
        proof {
            assert(path@.take(path@.len() as int) =~= path@);
        }
        if self.step_within(path, path.0.len()).is_none() {
            return Err(GraphMutationError::NotFound { path: path.clone() });
        }
        match self.find_lock(path, path.0.len()) {
            Some(found) => Err(GraphMutationError::Locked { path: found }),
            None => Ok(()),
        }
    }

    pub(crate) fn check_plan(&self, path: &NodePath) -> (res: Result<(), GraphMutationError>)
        ensures
            match res {
                Ok(_) => self@.plan_refusal(path@) is None,
                Err(error) => self@.plan_refusal(path@) == Some(error@),
            },
    {
        proof {
            assert(path@.take(path@.len() as int) =~= path@);
        }
        if self.plan_within(path, path.0.len()).is_none() {
            return Err(GraphMutationError::NotFound { path: path.clone() });
        }
        match self.find_lock(path, path.0.len()) {
            Some(found) => Err(GraphMutationError::Locked { path: found }),
            None => Ok(()),
        }
    }

    /// The plan at a path, to be edited in place, unless a step it lies inside is
    /// settled.
    pub fn mutate_graph_at(&mut self, path: &NodePath) -> (res: Result<
        &mut ArchitectGraph,
        GraphMutationError,
    >)
        ensures
            match res {
                Ok(g) => {
                    &&& old(self)@.plan_refusal(path@) is None
                    &&& old(self)@.plan_at(path@) == Some((*g)@)
                    &&& final(self)@ == old(self)@.with_plan_at(path@, (*final(g))@)
                },
                Err(error) => old(self)@.plan_refusal(path@) == Some(error@) && final(self)@
                    == old(self)@,
            },
    {
        if let Err(error) = self.check_plan(path) {
            return Err(error);
        }
        match self.graph_at_mut(path) {
            Some(graph) => Ok(graph),
            None => Err(GraphMutationError::NotFound { path: path.clone() }),
        }
    }

    /// The step at a path, to be edited in place, unless it or a step it lies
    /// inside is settled.
    pub fn mutate_node_at(&mut self, path: &NodePath) -> (res: Result<
        &mut ArchitectNode,
        GraphMutationError,
    >)
        ensures
            match res {
                Ok(n) => {
                    &&& old(self)@.step_refusal(path@) is None
                    &&& old(self)@.step_at(path@) == Some((*n)@)
                    &&& final(self)@ == old(self)@.with_step_at(path@, (*final(n))@)
                },
                Err(error) => old(self)@.step_refusal(path@) == Some(error@) && final(self)@
                    == old(self)@,
            },
    {
        if let Err(error) = self.check_step(path) {
            return Err(error);
        }
        match self.node_at_mut(path) {
            Some(node) => Ok(node),
            None => Err(GraphMutationError::NotFound { path: path.clone() }),
        }
    }

    /// Locks or unlocks the step at a path. A step that contains a plan is locked
    /// only once that plan is settled.
    pub fn set_locked_at(&mut self, path: &NodePath, locked: bool) -> (res: Result<
        (),
        GraphMutationError,
    >)
        ensures
            match res {
                Ok(_) => {
                    &&& old(self)@.lock_refusal(path@, locked) is None
                    &&& final(self)@ == old(self)@.with_step_at(
                        path@,
                        NodeModel { locked, ..old(self)@.step_at(path@)->0 },
                    )
                },
                Err(error) => {
                    &&& old(self)@.lock_refusal(path@, locked) == Some(error@)
                    &&& final(self)@ == old(self)@
                },
            },
    {
        let count: usize = path.0.len();
        proof {
            assert(path@.take(path@.len() as int) =~= path@);
        }
        let settled = match self.step_within(path, count) {
            Some(node) => match node.subplan() {
                Some(subplan) => subplan.is_fully_locked_deeply(),
                None => true,
            },
            None => {
                return Err(GraphMutationError::NotFound { path: path.clone() });
            },
        };
        if let Some(found) = self.find_lock(path, count - 1) {
            return Err(GraphMutationError::Locked { path: found });
        }
        if locked && !settled {
            return Err(GraphMutationError::NestedPlanUnlocked { path: path.clone() });
        }
        if let Some(node) = self.node_at_mut(path) {
            node.locked = locked;
        }
        Ok(())
    }

    /// Removes the step at a path, along with every connection that touched it,
    /// unless it is settled.
    pub fn remove_node_at(&mut self, path: &NodePath) -> (res: Result<(), GraphMutationError>)
        ensures
            match res {
                Ok(_) => old(self)@.step_refusal(path@) is None && final(self)@ == old(self)@.with_plan_at(
                    path@.drop_last(),
                    old(self)@.plan_at(path@.drop_last())->0.without_node(path@.last()),
                ),
                Err(error) => old(self)@.step_refusal(path@) == Some(error@) && final(self)@
                    == old(self)@,
            },
    {
        if let Err(error) = self.check_step(path) {
            return Err(error);
        }
        let count: usize = path.0.len();
        let above = parent_path(path);
        if let Some(graph) = self.graph_at_mut(&above) {
            graph.remove_node(&path.0[count - 1]);
        }
        Ok(())
    }

    pub(crate) fn remove_routes(&mut self, id: &NodeId)
        ensures
            final(self)@ == old(self)@.without_routes(id@),
    {
        let ghost before = *self;
        let ghost keeps = |e: EdgeModel| e.from != id@;
        let ghost mut seen: int = 0;
        proof {
            reveal(Seq::filter);
            before.lemma_view();
            assert(before@.edges.take(0) =~= Seq::empty());
        }
        let mut k: usize = 0;
        while k < self.edges.len()
            invariant
                self.nodes == before.nodes,
                0 <= seen <= before.edges@.len(),
                before@.edges.len() == before.edges@.len(),
                self.edges@.len() - k == before.edges@.len() - seen,
                k <= self.edges@.len(),
                k == before@.edges.take(seen).filter(keeps).len(),
                keeps == (|e: EdgeModel| e.from != id@),
                forall|i: int|
                    0 <= i < k ==> (#[trigger] self.edges@[i])@ == before@.edges.take(seen).filter(
                        keeps,
                    )[i],
                forall|i: int|
                    k <= i < self.edges@.len() ==> #[trigger] self.edges@[i]
                        == before.edges@[i - k + seen],
            decreases self.edges@.len() - k,
        {
            proof {
                crate::model::lemma_filter_take(before@.edges, keeps, seen);
                before.lemma_view();
                assert(self.edges@[k as int] == before.edges@[seen]);
                assert(before@.edges[seen] == before.edges@[seen]@);
            }
            if self.edges[k].from.same(id) {
                self.edges.remove(k);
            } else {
                k += 1;
            }
            proof {
                seen = seen + 1;
            }
        }
        proof {
            before.lemma_view();
            self.lemma_view();
            assert(before@.edges.take(seen) =~= before@.edges);
            assert(self@.nodes =~= before@.nodes);
            assert(self@.edges =~= before@.without_routes(id@).edges);
        }
    }

    pub(crate) fn add_routes(&mut self, id: &NodeId, routes: &Vec<PlannedRoute>) -> (unknown: Vec<NodeId>)
        ensures
            final(self)@ == old(self)@.with_routes(id@, route_values(routes@), routes@.len()),
            graph::ids(unknown@) == old(self)@.unknown_targets(route_values(routes@)),
    {
        let ghost start = self@;
        let ghost values = route_values(routes@);
        let ghost p = |r: PlannedRouteModel| !start.has_node(r.to);
        let ghost to_of = |r: PlannedRouteModel| r.to;
        let mut unknown: Vec<NodeId> = Vec::new();
        proof {
            reveal(Seq::filter);
            assert(graph::ids(unknown@) =~= values.take(0).filter(p).map_values(to_of));
        }
        for k in 0..routes.len()
            invariant
                values == route_values(routes@),
                p == (|r: PlannedRouteModel| !start.has_node(r.to)),
                to_of == (|r: PlannedRouteModel| r.to),
                self@ == start.with_routes(id@, values, k as nat),
                self@.nodes == start.nodes,
                graph::ids(unknown@) == values.take(k as int).filter(p).map_values(to_of),
        {
            let route = &routes[k];
            proof {
                assert(values[k as int] == route@);
                crate::model::lemma_filter_take(values, p, k as int);
                self@.lemma_node(route.to@);
                assert(self@.has_node(route.to@) == start.has_node(route.to@));
            }
            if self.node(&route.to).is_some() {
                self.connect_on(id.0.as_str(), route.to.0.as_str(), route.condition.clone());
            } else {
                let ghost before = unknown@;
                let ghost passed = values.take(k as int).filter(p);
                unknown.push(route.to.clone());
                proof {
                    assert(graph::ids(unknown@) =~= graph::ids(before).push(route.to@));
                    assert(passed.push(route@).map_values(to_of) =~= passed.map_values(to_of).push(
                        route.to@,
                    ));
                }
            }
        }
        proof {
            assert(values.take(values.len() as int) =~= values);
        }
        unknown
    }

    /// Replaces the connections that leave the step at a path, unless it is
    /// settled. The targets that are not there are handed back.
    pub fn replace_outgoing_at(&mut self, path: &NodePath, routes: &Vec<PlannedRoute>) -> (res:
        Result<Vec<NodeId>, GraphMutationError>)
        ensures
            match res {
                Ok(unknown) => {
                    &&& old(self)@.step_refusal(path@) is None
                    &&& final(self)@ == old(self)@.rerouted_at(path@, route_values(routes@))
                    &&& graph::ids(unknown@) == old(self)@.plan_at(
                        path@.drop_last(),
                    )->0.unknown_targets(route_values(routes@))
                },
                Err(error) => old(self)@.step_refusal(path@) == Some(error@) && final(self)@
                    == old(self)@,
            },
    {
        if let Err(error) = self.check_step(path) {
            return Err(error);
        }
        let count: usize = path.0.len();
        let above = parent_path(path);
        match self.graph_at_mut(&above) {
            Some(graph) => {
                let ghost local = graph@;
                graph.remove_routes(&path.0[count - 1]);
                let unknown = graph.add_routes(&path.0[count - 1], routes);
                proof {
                    let values = route_values(routes@);
                    assert(local.without_routes(path@.last()).unknown_targets(values)
                        =~= local.unknown_targets(values)) by {
                        let bare = local.without_routes(path@.last());
                        let p = |r: PlannedRouteModel| !bare.has_node(r.to);
                        let q = |r: PlannedRouteModel| !local.has_node(r.to);
                        assert forall|r: PlannedRouteModel| #[trigger] bare.has_node(r.to)
                            == local.has_node(r.to) by {
                            assert(bare.nodes == local.nodes);
                        }
                        assert(p =~= q);
                    }
                }
                Ok(unknown)
            },
            None => Err(GraphMutationError::NotFound { path: path.clone() }),
        }
    }

    /// Connects the step at a path to another step of the same plan, unless it is
    /// settled.
    pub fn connect_from_at(&mut self, from: &NodePath, to: &NodeId, condition: EdgeCondition) -> (res:
        Result<EdgeId, GraphMutationError>)
        ensures
            match res {
                Ok(id) => {
                    let local = old(self)@.plan_at(from@.drop_last())->0;
                    &&& old(self)@.step_refusal(from@) is None
                    &&& local.has_node(to@)
                    &&& id@ == local.free_edge_id(from@.last(), to@)
                    &&& final(self)@ == old(self)@.with_plan_at(
                        from@.drop_last(),
                        local.with_connection_on(from@.last(), to@, condition@),
                    )
                },
                Err(error) => {
                    &&& final(self)@ == old(self)@
                    &&& match old(self)@.step_refusal(from@) {
                        Some(refusal) => error@ == refusal,
                        None => {
                            &&& !old(self)@.plan_at(from@.drop_last())->0.has_node(to@)
                            &&& error@ == RefusalModel::NotFound {
                                path: from@.drop_last().push(to@),
                            }
                        },
                    }
                },
            },
    {
        if let Err(error) = self.check_step(from) {
            return Err(error);
        }
        let count: usize = from.0.len();
        let above = parent_path(from);
        proof {
            self@.lemma_with_same_plan(above@);
        }
        match self.graph_at_mut(&above) {
            Some(graph) => {
                proof {
                    graph@.lemma_node(to@);
                }
                if graph.node(to).is_none() {
                    let path = above.child(to.clone());
                    return Err(GraphMutationError::NotFound { path });
                }
                Ok(graph.connect_on(from.0[count - 1].0.as_str(), to.0.as_str(), condition))
            },
            None => Err(GraphMutationError::NotFound { path: above }),
        }
    }
}

impl GraphModel {
    /// Why the connections of an id may not be removed from the plan at a path:
    /// the plan may not be edited, or one of them leaves a locked step.
    pub open spec fn edge_refusal(self, path: Seq<Seq<char>>, id: Seq<char>) -> Option<
        RefusalModel,
    > {
        match self.plan_refusal(path) {
            Some(refusal) => Some(refusal),
            None => match self.plan_at(path)->0.settled_source(id, self.plan_at(path)->0.edges.len()) {
                Some(from) => Some(RefusalModel::Locked { path: path.push(from) }),
                None => None,
            },
        }
    }

    /// The locked step that the first of the first `k` connections of an id leaves.
    pub open spec fn settled_source(self, id: Seq<char>, k: nat) -> Option<Seq<char>>
        decreases k,
    {
        if k == 0 || k > self.edges.len() {
            None
        } else {
            let edge = self.edges[k - 1];
            match self.settled_source(id, (k - 1) as nat) {
                Some(from) => Some(from),
                None => match self.node(edge.from) {
                    Some(node) => if edge.id == id && node.locked {
                        Some(edge.from)
                    } else {
                        None
                    },
                    None => None,
                },
            }
        }
    }
}

impl ArchitectGraph {
    fn settled_source(&self, id: &EdgeId) -> (res: Option<NodeId>)
        ensures
            match res {
                Some(from) => self@.settled_source(id@, self@.edges.len()) == Some(from@),
                None => self@.settled_source(id@, self@.edges.len()) is None,
            },
    {
        let mut found: Option<NodeId> = None;
        proof {
            self.lemma_view();
        }
        for k in 0..self.edges.len()
            invariant
                self@.edges.len() == self.edges@.len(),
                match found {
                    Some(from) => self@.settled_source(id@, k as nat) == Some(from@),
                    None => self@.settled_source(id@, k as nat) is None,
                },
        {
            let edge = &self.edges[k];
            proof {
                self.lemma_view();
                assert(self@.edges[k as int] == edge@);
            }
            if found.is_none() {
                if let Some(node) = self.node(&edge.from) {
                    if edge.id.same(id) && node.locked {
                        found = Some(edge.from.clone());
                    }
                }
            }
        }
        found
    }

    /// Removes the connections of an id from the plan at a path, unless they are
    /// settled.
    pub fn disconnect_at(&mut self, path: &NodePath, id: &EdgeId) -> (res: Result<
        (),
        GraphMutationError,
    >)
        ensures
            match res {
                Ok(_) => old(self)@.edge_refusal(path@, id@) is None && final(self)@ == old(self)@.with_plan_at(
                    path@,
                    old(self)@.plan_at(path@)->0.without_edge(id@),
                ),
                Err(error) => old(self)@.edge_refusal(path@, id@) == Some(error@) && final(self)@
                    == old(self)@,
            },
    {
        if let Err(error) = self.check_plan(path) {
            return Err(error);
        }
        proof {
            self@.lemma_with_same_plan(path@);
        }
        match self.graph_at_mut(path) {
            Some(graph) => match graph.settled_source(id) {
                Some(from) => Err(GraphMutationError::Locked { path: path.child(from) }),
                None => {
                    graph.disconnect(id);
                    Ok(())
                },
            },
            None => Err(GraphMutationError::NotFound { path: path.clone() }),
        }
    }
}

/// The path of the plan a step is in.
pub(crate) fn parent_path(path: &NodePath) -> (res: NodePath)
    requires
        path@.len() > 0,
    ensures
        res@ == path@.drop_last(),
{
    let mut above = clone_ids(&path.0);
    above.pop();
    let res = NodePath(above);
    proof {
        assert(res@ =~= path@.drop_last());
    }
    res
}

impl GraphModel {
    /// Rerouting a step leaves the steps of its plan as they are.
    pub proof fn lemma_routes_keep_nodes(
        self,
        id: Seq<char>,
        routes: Seq<PlannedRouteModel>,
        k: nat,
    )
        ensures
            self.with_routes(id, routes, k).nodes == self.nodes,
        decreases k,
    {
        if k > 0 && k <= routes.len() {
            self.lemma_routes_keep_nodes(id, routes, (k - 1) as nat);
        }
    }
}

} // verus!
