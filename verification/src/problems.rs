//! Where a plan begins, and what is wrong with it.
use crate::graph::{self, ArchitectGraph, EdgeId, NodeId};
use crate::model::{self, EdgeModel, GraphModel, NodeModel};
use crate::search::{self, depth_first};
use crate::text;
use vstd::prelude::*;

verus! {

/// Something wrong with the graph that the user should see before running it.
#[derive(Debug, PartialEq, Eq)]
pub enum GraphProblem {
    DuplicateNode(NodeId),
    /// An edge referring to a node that is not in the graph.
    DanglingEdge { edge: EdgeId, missing: NodeId },
    /// A node no entry point can reach, so it would never run.
    Unreachable(NodeId),
    /// A step still open for deliberation.
    Unlocked(NodeId),
    /// Something wrong inside a step's nested plan.
    InSubplan { node: NodeId, problem: Box<GraphProblem> },
}

/// Something wrong with a plan.
#[verifier::ext_equal]
pub enum ProblemModel {
    DuplicateNode(Seq<char>),
    DanglingEdge { edge: Seq<char>, missing: Seq<char> },
    Unreachable(Seq<char>),
    Unlocked(Seq<char>),
    InSubplan { node: Seq<char>, problem: Box<ProblemModel> },
}

impl ProblemModel {
    /// The problem as a sentence.
    pub open spec fn sentence(self) -> Seq<char>
        decreases self,
    {
        match self {
            ProblemModel::DuplicateNode(id) => "more than one step uses the id "@ + id,
            ProblemModel::DanglingEdge { edge, missing } => "connection "@ + edge
                + " points at a step that does not exist: "@ + missing,
            ProblemModel::Unreachable(id) => "nothing leads to "@ + id + ", so it would never run"@,
            ProblemModel::Unlocked(id) => id + " is not locked yet"@,
            ProblemModel::InSubplan { node, problem } => "inside "@ + node + ": "@
                + problem.sentence(),
        }
    }
}

impl View for GraphProblem {
    type V = ProblemModel;

    open spec fn view(&self) -> ProblemModel {
        self.model()
    }
}

impl Clone for GraphProblem {
    fn clone(&self) -> (res: Self)
        ensures
            res@ == self@,
    {
        self.copy()
    }
}

impl GraphProblem {
    /// What this problem is, as a mathematical value.
    pub open spec fn model(&self) -> ProblemModel
        decreases self,
    {
        match *self {
            GraphProblem::DuplicateNode(id) => ProblemModel::DuplicateNode(id@),
            GraphProblem::DanglingEdge { edge, missing } => ProblemModel::DanglingEdge {
                edge: edge@,
                missing: missing@,
            },
            GraphProblem::Unreachable(id) => ProblemModel::Unreachable(id@),
            GraphProblem::Unlocked(id) => ProblemModel::Unlocked(id@),
            GraphProblem::InSubplan { node, problem } => ProblemModel::InSubplan {
                node: node@,
                problem: Box::new(problem.model()),
            },
        }
    }

    fn copy(&self) -> (res: Self)
        ensures
            res@ == self@,
        decreases self,
    {
        match self {
            GraphProblem::DuplicateNode(id) => GraphProblem::DuplicateNode(id.clone()),
            GraphProblem::DanglingEdge { edge, missing } => GraphProblem::DanglingEdge {
                edge: edge.clone(),
                missing: missing.clone(),
            },
            GraphProblem::Unreachable(id) => GraphProblem::Unreachable(id.clone()),
            GraphProblem::Unlocked(id) => GraphProblem::Unlocked(id.clone()),
            GraphProblem::InSubplan { node, problem } => GraphProblem::InSubplan {
                node: node.clone(),
                problem: Box::new(problem.copy()),
            },
        }
    }

    /// The problem as a sentence.
    pub fn to_text(&self) -> (res: String)
        ensures
            res@ == self@.sentence(),
        decreases self,
    {
        match self {
            GraphProblem::DuplicateNode(id) => text::cat2(
                "more than one step uses the id ",
                id.0.as_str(),
            ),
            GraphProblem::DanglingEdge { edge, missing } => text::cat4(
                "connection ",
                edge.0.as_str(),
                " points at a step that does not exist: ",
                missing.0.as_str(),
            ),
            GraphProblem::Unreachable(id) => text::cat3(
                "nothing leads to ",
                id.0.as_str(),
                ", so it would never run",
            ),
            GraphProblem::Unlocked(id) => text::cat2(id.0.as_str(), " is not locked yet"),
            GraphProblem::InSubplan { node, problem } => text::cat4(
                "inside ",
                node.0.as_str(),
                ": ",
                problem.to_text().as_str(),
            ),
        }
    }
}

/// A list of problems as mathematical values.
pub open spec fn problem_models(v: Seq<GraphProblem>) -> Seq<ProblemModel> {
    v.map_values(|p: GraphProblem| p@)
}

impl GraphModel {
    /// The ids of the steps nothing leads to, in order.
    pub open spec fn unentered(self) -> Seq<Seq<char>> {
        self.nodes.filter(|n: NodeModel| self.edges_into(n.id).len() == 0).map_values(
            |n: NodeModel| n.id,
        )
    }

    /// Whether something leads to step number `v` without closing a loop.
    pub open spec fn entered(self, v: int) -> bool {
        exists|u: int| #[trigger] search::forward(self.adjacency(), search::searched(self.adjacency()).back, u, v)
    }

    /// The ids of the first `m` steps that only loops lead back to, in order.
    pub open spec fn loop_entries(self, m: int) -> Seq<Seq<char>>
        decreases m,
    {
        if m <= 0 {
            Seq::empty()
        } else if self.entered(m - 1) {
            self.loop_entries(m - 1)
        } else {
            self.loop_entries(m - 1).push(self.nodes[m - 1].id)
        }
    }

    /// Where a run begins: the steps nothing leads to. Where there are none, the
    /// loops are broken at the connections that close them.
    pub open spec fn roots(self) -> Seq<Seq<char>> {
        if self.unentered().len() > 0 {
            self.unentered()
        } else {
            self.loop_entries(self.nodes.len() as int)
        }
    }

    /// Whether a connection leads from one id to another.
    pub open spec fn leads(self, from: Seq<char>, to: Seq<char>) -> bool {
        exists|i: int|
            0 <= i < self.edges.len() && (#[trigger] self.edges[i]).from == from && self.edges[i].to
                == to
    }

    /// A way from a root along connections.
    pub open spec fn is_route(self, way: Seq<Seq<char>>) -> bool {
        &&& way.len() > 0
        &&& self.roots().contains(way[0])
        &&& forall|i: int| 0 < i < way.len() ==> self.leads(way[i - 1], #[trigger] way[i])
    }

    /// Whether some root leads to an id.
    pub open spec fn reachable(self, id: Seq<char>) -> bool {
        exists|way: Seq<Seq<char>>| #[trigger] self.is_route(way) && way.last() == id
    }

    /// The ids of the first `k` steps that an earlier step uses already, in order.
    pub open spec fn duplicates(self, k: int) -> Seq<ProblemModel>
        decreases k,
    {
        if k <= 0 {
            Seq::empty()
        } else {
            let id = self.nodes[k - 1].id;
            if exists|j: int| 0 <= j < k - 1 && (#[trigger] self.nodes[j]).id == id {
                self.duplicates(k - 1).push(ProblemModel::DuplicateNode(id))
            } else {
                self.duplicates(k - 1)
            }
        }
    }

    /// The missing endpoints of one connection.
    pub open spec fn missing_ends(self, edge: EdgeModel) -> Seq<ProblemModel> {
        let none = Seq::<ProblemModel>::empty();
        let from = if self.has_node(edge.from) {
            none
        } else {
            none.push(ProblemModel::DanglingEdge { edge: edge.id, missing: edge.from })
        };
        if self.has_node(edge.to) {
            from
        } else {
            from.push(ProblemModel::DanglingEdge { edge: edge.id, missing: edge.to })
        }
    }

    /// The missing endpoints of the first `k` connections, in order.
    pub open spec fn dangling(self, k: int) -> Seq<ProblemModel>
        decreases k,
    {
        if k <= 0 {
            Seq::empty()
        } else {
            self.dangling(k - 1) + self.missing_ends(self.edges[k - 1])
        }
    }

    /// The steps no root leads to, in order.
    pub open spec fn unreachable(self) -> Seq<Seq<char>> {
        self.nodes.filter(|n: NodeModel| !self.reachable(n.id)).map_values(|n: NodeModel| n.id)
    }

    /// What is wrong with the shape of a plan: repeated ids, then connections
    /// that lead nowhere, then steps nothing leads to.
    pub open spec fn problems(self) -> Seq<ProblemModel> {
        self.duplicates(self.nodes.len() as int) + self.dangling(self.edges.len() as int)
            + self.unreachable().map_values(|id: Seq<char>| ProblemModel::Unreachable(id))
    }

    /// The steps still open for deliberation, in order.
    pub open spec fn unlocked(self) -> Seq<ProblemModel> {
        self.nodes.filter(|n: NodeModel| !n.locked).map_values(
            |n: NodeModel| ProblemModel::Unlocked(n.id),
        )
    }

    /// Everything that has to be fixed before a plan can be run.
    pub open spec fn blocking(self) -> Seq<ProblemModel>
        decreases self, self.nodes.len() + 1,
    {
        self.problems() + self.unlocked() + self.nested_blocking(self.nodes.len())
    }

    /// What has to be fixed inside the first `k` steps.
    pub open spec fn nested_blocking(self, k: nat) -> Seq<ProblemModel>
        decreases self, k,
    {
        if k == 0 || k > self.nodes.len() {
            Seq::empty()
        } else {
            let rest = self.nested_blocking((k - 1) as nat);
            match self.nodes[k - 1].subplan {
                Some(g) => if g.nodes.len() == 0 {
                    rest
                } else {
                    rest + inside(self.nodes[k - 1].id, g.blocking())
                },
                None => rest,
            }
        }
    }

    /// Where nothing is in the way of running a plan, every step of it is locked, at
    /// every depth.
    pub proof fn law_nothing_blocking_means_settled(self)
        requires
            self.nodes.len() > 0,
            self.blocking().len() == 0,
        ensures
            self.fully_locked_deeply(),
        decreases self,
    {
        let open = |n: NodeModel| !n.locked;
        assert(self.unlocked().len() == 0);
        assert(self.unlocked().len() == self.nodes.filter(open).len());
        assert forall|i: int| 0 <= i < self.nodes.len() implies (#[trigger] self.nodes[i]).locked
            && match self.nodes[i].subplan {
            Some(g) => g.nodes.len() == 0 || g.fully_locked_deeply(),
            None => true,
        } by {
            if !self.nodes[i].locked {
                self.nodes.lemma_filter_contains(open, i);
            }
            if let Some(g) = self.nodes[i].subplan {
                if g.nodes.len() > 0 {
                    self.lemma_nothing_nested(self.nodes.len(), i);
                    g.law_nothing_blocking_means_settled();
                }
            }
        }
    }

    proof fn lemma_nothing_nested(self, k: nat, i: int)
        requires
            k <= self.nodes.len(),
            self.nested_blocking(k).len() == 0,
            0 <= i < k,
            self.nodes[i].subplan is Some,
            self.nodes[i].subplan->0.nodes.len() > 0,
        ensures
            self.nodes[i].subplan->0.blocking().len() == 0,
        decreases k,
    {
        if i < k - 1 {
            self.lemma_nothing_nested((k - 1) as nat, i);
        } else {
            let g = self.nodes[i].subplan->0;
            assert(inside(self.nodes[i].id, g.blocking()).len() == g.blocking().len());
        }
    }

    /// A plan with steps always has somewhere to begin.
    pub proof fn law_every_plan_has_a_root(self)
        requires
            self.nodes.len() > 0,
        ensures
            self.roots().len() > 0,
    {
        if self.unentered().len() == 0 {
            let adj = self.adjacency();
            self.lemma_adjacency();
            search::lemma_searched(adj);
            search::lemma_done_len(adj);
            let s = search::searched(adj);
            let last = s.done.last();
            assert(0 <= s.done[s.done.len() - 1] < adj.len());
            assert(!self.entered(last)) by {
                if self.entered(last) {
                    let u = choose|u: int| #[trigger] search::forward(adj, s.back, u, last);
                    let k = choose|k: int| 0 <= k < adj[u].len() && adj[u][k] == last;
                    assert(s.done.contains(u));
                    let i = choose|i: int| 0 <= i < s.done.len() && s.done[i] == u;
                    assert(s.settled_before(adj, i, k));
                }
            }
            self.lemma_loop_entry(last, self.nodes.len() as int);
        }
    }

    proof fn lemma_loop_entry(self, v: int, m: int)
        requires
            0 <= v < m <= self.nodes.len(),
            !self.entered(v),
        ensures
            self.loop_entries(m).len() > 0,
        decreases m,
    {
        if v < m - 1 {
            self.lemma_loop_entry(v, m - 1);
        }
    }

    proof fn lemma_route_on(self, id: Seq<char>, to: Seq<char>)
        requires
            self.reachable(id),
            self.leads(id, to),
        ensures
            self.reachable(to),
    {
        let way = choose|way: Seq<Seq<char>>| #[trigger] self.is_route(way) && way.last() == id;
        let longer = way.push(to);
        assert forall|i: int| 0 < i < longer.len() implies self.leads(
            longer[i - 1],
            #[trigger] longer[i],
        ) by {
            if i < way.len() {
                assert(self.leads(way[i - 1], way[i]));
            }
        }
        assert(self.is_route(longer));
        assert(longer.last() == to);
    }

    proof fn lemma_route_closed(self, set: Set<Seq<char>>, way: Seq<Seq<char>>)
        requires
            self.is_route(way),
            forall|i: int| 0 <= i < self.roots().len() ==> set.contains(#[trigger] self.roots()[i]),
            forall|i: int|
                0 <= i < self.edges.len() && set.contains((#[trigger] self.edges[i]).from)
                    ==> set.contains(self.edges[i].to),
        ensures
            set.contains(way.last()),
        decreases way.len(),
    {
        if way.len() > 1 {
            let shorter = way.drop_last();
            assert forall|i: int| 0 < i < shorter.len() implies self.leads(
                shorter[i - 1],
                #[trigger] shorter[i],
            ) by {
                assert(self.leads(way[i - 1], way[i]));
            }
            self.lemma_route_closed(set, shorter);
            assert(self.leads(way[way.len() - 2], way[way.len() - 1]));
        }
    }
}

/// Problems, as seen from outside the step they are in.
pub open spec fn inside(node: Seq<char>, problems: Seq<ProblemModel>) -> Seq<ProblemModel> {
    problems.map_values(|p: ProblemModel| ProblemModel::InSubplan { node, problem: Box::new(p) })
}

impl ArchitectGraph {
    fn is_entered(&self, id: &NodeId) -> (res: bool)
        ensures
            res == (self@.edges_into(id@).len() > 0),
    {
        self.edges_into(id).len() > 0
    }

    /// Where a run begins.
    ///
    /// Normally these are the steps nothing leads to. A plan whose last step
    /// loops back to an earlier one has no such step at all, so in that case
    /// the loop is broken at the connection that closes it and the entry is
    /// whatever the loop is entered through.
    pub fn roots(&self) -> (res: Vec<NodeId>)
        ensures
            graph::ids(res@) == self@.roots(),
            self@.nodes.len() > 0 ==> res@.len() > 0,
    {
        let mut unentered: Vec<NodeId> = Vec::new();
        let ghost p = |n: NodeModel| self@.edges_into(n.id).len() == 0;
        let ghost id_of = |n: NodeModel| n.id;
        proof {
            reveal(Seq::filter);
            self.lemma_view();
            if self@.nodes.len() > 0 {
                self@.law_every_plan_has_a_root();
            }
        }
        for k in 0..self.nodes.len()
            invariant
                p == (|n: NodeModel| self@.edges_into(n.id).len() == 0),
                id_of == (|n: NodeModel| n.id),
                graph::ids(unentered@) == self@.nodes.take(k as int).filter(p).map_values(id_of),
        {
            proof {
                self.lemma_view();
                model::lemma_filter_take(self@.nodes, p, k as int);
                assert(self@.nodes[k as int] == self.nodes@[k as int]@);
            }
            let node = &self.nodes[k];
            if !self.is_entered(&node.id) {
                let ghost before = unentered@;
                let ghost passed = self@.nodes.take(k as int).filter(p);
                unentered.push(node.id.clone());
                proof {
                    assert(graph::ids(unentered@) =~= graph::ids(before).push(node.id@));
                    assert(passed.push(node@).map_values(id_of) =~= passed.map_values(id_of).push(
                        node.id@,
                    ));
                }
            }
        }
        proof {
            assert(self@.nodes.take(self@.nodes.len() as int) =~= self@.nodes);
            assert(graph::ids(unentered@).len() == unentered@.len());
        }
        if unentered.len() > 0 {
            return unentered;
        }
        let adjacency = self.adjacency();
        let ghost adj = self@.adjacency();
        let traversal = depth_first(&adjacency);
        let mut entered: Vec<bool> = Vec::new();
        for k in 0..self.nodes.len()
            invariant
                entered@.len() == k,
                forall|v: int| 0 <= v < k ==> !entered@[v],
        {
            entered.push(false);
        }
        for from in 0..adjacency.len()
            invariant
                adj == search::lists(adjacency@),
                adj == self@.adjacency(),
                search::in_bounds(adj),
                traversal.of(adj),
                entered@.len() == adj.len(),
                forall|v: int|
                    0 <= v < adj.len() ==> (#[trigger] entered@[v] <==> exists|u: int|
                        u < from && #[trigger] search::forward(adj, search::searched(adj).back, u, v)),
        {
            let count: usize = adjacency[from].len();
            let ghost start = entered@;
            let ghost back = search::searched(adj).back;
            proof {
                assert(adj[from as int].len() == count);
            }
            for k in 0..count
                invariant
                    adj == search::lists(adjacency@),
                    back == search::searched(adj).back,
                    search::in_bounds(adj),
                    traversal.of(adj),
                    from < adjacency@.len(),
                    count == adjacency@[from as int]@.len(),
                    count == adj[from as int].len(),
                    start.len() == adj.len(),
                    entered@.len() == adj.len(),
                    forall|v: int|
                        0 <= v < adj.len() ==> (#[trigger] entered@[v] <==> start[v] || exists|
                            j: int,
                        |
                            0 <= j < k && #[trigger] adj[from as int][j] == v && !back.contains(
                                (from as int, v),
                            )),
            {
                let to: usize = adjacency[from][k];
                let ghost before = entered@;
                proof {
                    assert(adj[from as int][k as int] == to as int);
                }
                if !traversal.closes_loop(from, to) {
                    entered.set(to, true);
                }
                proof {
                    assert forall|v: int| 0 <= v < adj.len() implies (#[trigger] entered@[v]
                        <==> start[v] || exists|j: int|
                        0 <= j < k + 1 && #[trigger] adj[from as int][j] == v && !back.contains(
                            (from as int, v),
                        )) by {
                        assert(before[v] <==> start[v] || exists|j: int|
                            0 <= j < k && #[trigger] adj[from as int][j] == v && !back.contains(
                                (from as int, v),
                            ));
                    }
                }
            }
            proof {
                assert forall|v: int| 0 <= v < adj.len() implies (#[trigger] entered@[v] <==> exists|
                    u: int,
                | u < from + 1 && #[trigger] search::forward(adj, search::searched(adj).back, u, v)) by {
                    if search::forward(adj, back, from as int, v) {
                        let j = choose|j: int|
                            0 <= j < adj[from as int].len() && adj[from as int][j] == v;
                        assert(adj[from as int][j] == v);
                    }
                    if start[v] {
                        let u = choose|u: int|
                            u < from && #[trigger] search::forward(adj, search::searched(adj).back, u, v);
                        assert(u < from + 1 && search::forward(adj, search::searched(adj).back, u, v));
                    } else if entered@[v] {
                        assert(search::forward(adj, search::searched(adj).back, from as int, v));
                    }
                }
            }
        }
        let mut out: Vec<NodeId> = Vec::new();
        proof {
            assert(graph::ids(out@) =~= Seq::empty());
        }
        for k in 0..self.nodes.len()
            invariant
                adj == self@.adjacency(),
                adj.len() == self.nodes@.len(),
                entered@.len() == adj.len(),
                forall|v: int| 0 <= v < adj.len() ==> (#[trigger] entered@[v] <==> self@.entered(v)),
                graph::ids(out@) == self@.loop_entries(k as int),
        {
            proof {
                self.lemma_view();
                assert(self@.nodes[k as int] == self.nodes@[k as int]@);
            }
            if !entered[k] {
                let ghost before = out@;
                out.push(self.nodes[k].id.clone());
                proof {
                    assert(graph::ids(out@) =~= graph::ids(before).push(self.nodes@[k as int].id@));
                }
            }
        }
        proof {
            assert(graph::ids(out@).len() == out@.len());
        }
        out
    }

    fn reaches(list: &Vec<NodeId>, id: &NodeId) -> (res: bool)
        ensures
            res == graph::ids(list@).contains(id@),
    {
        for k in 0..list.len()
            invariant
                forall|i: int| 0 <= i < k ==> graph::ids(list@)[i] != id@,
        {
            if list[k].same(id) {
                proof {
                    assert(graph::ids(list@)[k as int] == id@);
                }
                return true;
            }
        }
        false
    }

    fn reached(&self) -> (res: Vec<NodeId>)
        ensures
            forall|id: Seq<char>| #[trigger] graph::ids(res@).contains(id) <==> self@.reachable(id),
    {
        let mut stack: Vec<NodeId> = self.roots();
        let mut reached: Vec<NodeId> = Vec::new();
        let ghost universe = self@.roots() + self@.edges.map_values(|e: EdgeModel| e.to);
        let ghost roots = self@.roots();
        proof {
            assert forall|i: int| 0 <= i < roots.len() implies self@.reachable(
                #[trigger] roots[i],
            ) by {
                assert(self@.is_route(seq![roots[i]]));
                assert(seq![roots[i]].last() == roots[i]);
            }
            assert forall|i: int| 0 <= i < stack@.len() implies universe.contains(
                #[trigger] graph::ids(stack@)[i],
            ) by {
                assert(universe[i] == graph::ids(stack@)[i]);
            }
            assert forall|i: int| 0 <= i < roots.len() implies graph::ids(stack@).contains(
                #[trigger] roots[i],
            ) by {
                assert(graph::ids(stack@)[i] == roots[i]);
            }
        }
        while stack.len() > 0
            invariant
                roots == self@.roots(),
                universe == roots + self@.edges.map_values(|e: EdgeModel| e.to),
                forall|i: int|
                    0 <= i < stack@.len() ==> self@.reachable(#[trigger] graph::ids(stack@)[i])
                        && universe.contains(graph::ids(stack@)[i]),
                forall|i: int|
                    0 <= i < reached@.len() ==> self@.reachable(#[trigger] graph::ids(reached@)[i]),
                forall|i: int|
                    0 <= i < roots.len() ==> graph::ids(reached@).contains(#[trigger] roots[i]) || graph::ids(
                        stack@,
                    ).contains(roots[i]),
                forall|i: int|
                    0 <= i < self@.edges.len() && graph::ids(reached@).contains(
                        (#[trigger] self@.edges[i]).from,
                    ) ==> graph::ids(reached@).contains(self@.edges[i].to) || graph::ids(stack@).contains(
                        self@.edges[i].to,
                    ),
            decreases outside(universe, graph::ids(reached@)), stack@.len(),
        {
            let ghost before = graph::ids(stack@);
            let last: usize = stack.len() - 1;
            let id = stack[last].clone();
            stack.pop();
            proof {
                assert(graph::ids(stack@) =~= before.drop_last());
                assert(before[last as int] == id@);
                assert forall|i: int| 0 <= i < stack@.len() implies self@.reachable(
                    #[trigger] graph::ids(stack@)[i],
                ) && universe.contains(graph::ids(stack@)[i]) by {
                    assert(graph::ids(stack@)[i] == before[i]);
                }
                assert forall|x: Seq<char>| before.contains(x) implies x == id@ || #[trigger] graph::ids(
                    stack@,
                ).contains(x) by {
                    let i = choose|i: int| 0 <= i < before.len() && before[i] == x;
                    if i < last {
                        assert(graph::ids(stack@)[i] == x);
                    }
                }
            }
            let known = Self::reaches(&reached, &id);
            if !known {
                let ghost was = graph::ids(reached@);
                reached.push(id.clone());
                proof {
                    assert(graph::ids(reached@) =~= was.push(id@));
                    lemma_outside(universe, was, id@);
                    assert forall|x: Seq<char>| #[trigger] graph::ids(reached@).contains(x) <==> was.contains(
                        x,
                    ) || x == id@ by {
                        if was.contains(x) {
                            let i = choose|i: int| 0 <= i < was.len() && was[i] == x;
                            assert(graph::ids(reached@)[i] == x);
                        }
                        assert(graph::ids(reached@)[was.len() as int] == id@);
                    }
                    assert forall|i: int| 0 <= i < reached@.len() implies self@.reachable(
                        #[trigger] graph::ids(reached@)[i],
                    ) by {
                        if i < was.len() {
                            assert(graph::ids(reached@)[i] == was[i]);
                        }
                    }
                }
                for k in 0..self.edges.len()
                    invariant
                        roots == self@.roots(),
                        universe == roots + self@.edges.map_values(|e: EdgeModel| e.to),
                        self@.reachable(id@),
                        graph::ids(reached@).contains(id@),
                        forall|i: int|
                            0 <= i < stack@.len() ==> self@.reachable(#[trigger] graph::ids(stack@)[i])
                                && universe.contains(graph::ids(stack@)[i]),
                        forall|i: int|
                            0 <= i < roots.len() ==> graph::ids(reached@).contains(#[trigger] roots[i])
                                || graph::ids(stack@).contains(roots[i]),
                        forall|i: int|
                            0 <= i < self@.edges.len() && graph::ids(reached@).contains(
                                (#[trigger] self@.edges[i]).from,
                            ) && (i < k || self@.edges[i].from != id@) ==> graph::ids(reached@).contains(
                                self@.edges[i].to,
                            ) || graph::ids(stack@).contains(self@.edges[i].to),
                {
                    let edge = &self.edges[k];
                    proof {
                        self.lemma_view();
                        assert(self@.edges[k as int] == edge@);
                    }
                    if edge.from.same(&id) && !Self::reaches(&reached, &edge.to) {
                        let ghost earlier = graph::ids(stack@);
                        stack.push(edge.to.clone());
                        proof {
                            assert(graph::ids(stack@) =~= earlier.push(edge.to@));
                            assert(self@.leads(id@, edge.to@));
                            self@.lemma_route_on(id@, edge.to@);
                            assert(universe[roots.len() + k] == edge.to@);
                            assert forall|x: Seq<char>|
                                earlier.contains(x) implies #[trigger] graph::ids(stack@).contains(x) by {
                                let i = choose|i: int| 0 <= i < earlier.len() && earlier[i] == x;
                                assert(graph::ids(stack@)[i] == x);
                            }
                            assert(graph::ids(stack@)[earlier.len() as int] == edge.to@);
                            assert forall|i: int| 0 <= i < stack@.len() implies self@.reachable(
                                #[trigger] graph::ids(stack@)[i],
                            ) && universe.contains(graph::ids(stack@)[i]) by {
                                if i < earlier.len() {
                                    assert(graph::ids(stack@)[i] == earlier[i]);
                                }
                            }
                        }
                    }
                }
                proof {
                    self.lemma_view();
                }
            }
        }
        proof {
            let set = graph::ids(reached@).to_set();
            assert(graph::ids(stack@) =~= Seq::empty());
            assert forall|id: Seq<char>| #[trigger] graph::ids(reached@).contains(id) <==> self@.reachable(
                id,
            ) by {
                if self@.reachable(id) {
                    let way = choose|way: Seq<Seq<char>>| #[trigger]
                        self@.is_route(way) && way.last() == id;
                    self@.lemma_route_closed(set, way);
                }
            }
        }
        reached
    }

    /// Steps no entry point leads to, such as a branch left over from an
    /// earlier draft. They would never run.
    fn unreachable_nodes(&self) -> (res: Vec<NodeId>)
        ensures
            graph::ids(res@) == self@.unreachable(),
    {
        let reached = self.reached();
        let mut out: Vec<NodeId> = Vec::new();
        let ghost p = |n: NodeModel| !self@.reachable(n.id);
        let ghost id_of = |n: NodeModel| n.id;
        proof {
            reveal(Seq::filter);
        }
        for k in 0..self.nodes.len()
            invariant
                p == (|n: NodeModel| !self@.reachable(n.id)),
                id_of == (|n: NodeModel| n.id),
                forall|id: Seq<char>| #[trigger] graph::ids(reached@).contains(id) <==> self@.reachable(id),
                graph::ids(out@) == self@.nodes.take(k as int).filter(p).map_values(id_of),
        {
            proof {
                self.lemma_view();
                model::lemma_filter_take(self@.nodes, p, k as int);
                assert(self@.nodes[k as int] == self.nodes@[k as int]@);
            }
            let node = &self.nodes[k];
            if !Self::reaches(&reached, &node.id) {
                let ghost before = out@;
                let ghost passed = self@.nodes.take(k as int).filter(p);
                out.push(node.id.clone());
                proof {
                    assert(graph::ids(out@) =~= graph::ids(before).push(node.id@));
                    assert(passed.push(node@).map_values(id_of) =~= passed.map_values(id_of).push(
                        node.id@,
                    ));
                }
            }
        }
        proof {
            self.lemma_view();
            assert(self@.nodes.take(self@.nodes.len() as int) =~= self@.nodes);
        }
        out
    }

    /// Every problem worth surfacing, in a stable order.
    pub fn problems(&self) -> (res: Vec<GraphProblem>)
        ensures
            problem_models(res@) == self@.problems(),
    {
        let mut problems: Vec<GraphProblem> = Vec::new();
        proof {
            self.lemma_view();
            assert(problem_models(problems@) =~= Seq::empty());
        }
        for k in 0..self.nodes.len()
            invariant
                problem_models(problems@) == self@.duplicates(k as int),
        {
            let id = &self.nodes[k].id;
            proof {
                self.lemma_view();
                assert(self@.nodes[k as int] == self.nodes@[k as int]@);
            }
            let mut seen = false;
            for j in 0..k
                invariant
                    k < self.nodes@.len(),
                    *id == self.nodes@[k as int].id,
                    seen <==> exists|i: int| 0 <= i < j && (#[trigger] self@.nodes[i]).id == id@,
            {
                proof {
                    self.lemma_view();
                    assert(self@.nodes[j as int] == self.nodes@[j as int]@);
                }
                if self.nodes[j].id.same(id) {
                    seen = true;
                }
            }
            if seen {
                let ghost before = problems@;
                problems.push(GraphProblem::DuplicateNode(id.clone()));
                proof {
                    assert(problem_models(problems@) =~= problem_models(before).push(
                        ProblemModel::DuplicateNode(id@),
                    ));
                }
            }
        }
        let ghost repeated = self@.duplicates(self@.nodes.len() as int);
        proof {
            assert(repeated + self@.dangling(0) =~= repeated);
        }
        for k in 0..self.edges.len()
            invariant
                problem_models(problems@) == repeated + self@.dangling(k as int),
        {
            let edge = &self.edges[k];
            proof {
                self.lemma_view();
                assert(self@.edges[k as int] == self.edges@[k as int]@);
                self@.lemma_node(edge.from@);
                self@.lemma_node(edge.to@);
            }
            let ghost before = problem_models(problems@);
            if self.node(&edge.from).is_none() {
                let ghost was = problems@;
                problems.push(
                    GraphProblem::DanglingEdge {
                        edge: edge.id.clone(),
                        missing: edge.from.clone(),
                    },
                );
                proof {
                    assert(problem_models(problems@) =~= problem_models(was).push(
                        ProblemModel::DanglingEdge { edge: edge.id@, missing: edge.from@ },
                    ));
                }
            }
            if self.node(&edge.to).is_none() {
                let ghost was = problems@;
                problems.push(
                    GraphProblem::DanglingEdge { edge: edge.id.clone(), missing: edge.to.clone() },
                );
                proof {
                    assert(problem_models(problems@) =~= problem_models(was).push(
                        ProblemModel::DanglingEdge { edge: edge.id@, missing: edge.to@ },
                    ));
                }
            }
            proof {
                assert(problem_models(problems@) =~= before + self@.missing_ends(edge@));
                assert(repeated + self@.dangling(k + 1) =~= before + self@.missing_ends(edge@));
            }
        }
        let unreachable = self.unreachable_nodes();
        let ghost shape = repeated + self@.dangling(self@.edges.len() as int);
        let ghost named = self@.unreachable().map_values(
            |id: Seq<char>| ProblemModel::Unreachable(id),
        );
        proof {
            assert(named.take(0) =~= Seq::empty());
            assert(shape + named.take(0) =~= shape);
            assert(graph::ids(unreachable@).len() == unreachable@.len());
        }
        for k in 0..unreachable.len()
            invariant
                named == self@.unreachable().map_values(
                    |id: Seq<char>| ProblemModel::Unreachable(id),
                ),
                graph::ids(unreachable@) == self@.unreachable(),
                named.len() == unreachable@.len(),
                problem_models(problems@) == shape + named.take(k as int),
        {
            let ghost before = problems@;
            problems.push(GraphProblem::Unreachable(unreachable[k].clone()));
            proof {
                assert(graph::ids(unreachable@)[k as int] == unreachable@[k as int]@);
                assert(named[k as int] == ProblemModel::Unreachable(unreachable@[k as int]@));
                assert(problem_models(problems@) =~= problem_models(before).push(named[k as int]));
                assert(named.take(k + 1) =~= named.take(k as int).push(named[k as int]));
                assert(shape + named.take(k + 1) =~= (shape + named.take(k as int)).push(
                    named[k as int],
                ));
            }
        }
        proof {
            assert(named.take(named.len() as int) =~= named);
        }
        problems
    }

    /// Everything that has to be fixed before a plan can be run.
    ///
    /// This is the structural problems plus the steps still open for
    /// deliberation: running a half-argued plan is how a plan stops being worth
    /// making. Compiling a spec and driving a run both gate on this, so the two
    /// can never disagree about what "ready" means.
    pub fn blocking_problems(&self) -> (res: Vec<GraphProblem>)
        ensures
            problem_models(res@) == self@.blocking(),
        decreases self,
    {
        let mut problems = self.problems();
        let ghost shape = self@.problems();
        let ghost p = |n: NodeModel| !n.locked;
        let ghost wrap = |n: NodeModel| ProblemModel::Unlocked(n.id);
        proof {
            reveal(Seq::filter);
            self.lemma_view();
            assert(self@.nodes.take(0).filter(p).map_values(wrap) =~= Seq::empty());
            assert(shape + Seq::<ProblemModel>::empty() =~= shape);
        }
        for k in 0..self.nodes.len()
            invariant
                p == (|n: NodeModel| !n.locked),
                wrap == (|n: NodeModel| ProblemModel::Unlocked(n.id)),
                problem_models(problems@) == shape + self@.nodes.take(k as int).filter(
                    p,
                ).map_values(wrap),
        {
            proof {
                self.lemma_view();
                model::lemma_filter_take(self@.nodes, p, k as int);
                assert(self@.nodes[k as int] == self.nodes@[k as int]@);
            }
            let node = &self.nodes[k];
            if !node.locked {
                let ghost before = problems@;
                let ghost passed = self@.nodes.take(k as int).filter(p);
                problems.push(GraphProblem::Unlocked(node.id.clone()));
                proof {
                    assert(problem_models(problems@) =~= problem_models(before).push(
                        ProblemModel::Unlocked(node.id@),
                    ));
                    assert(passed.push(node@).map_values(wrap) =~= passed.map_values(wrap).push(
                        ProblemModel::Unlocked(node.id@),
                    ));
                    assert(shape + passed.map_values(wrap).push(ProblemModel::Unlocked(node.id@))
                        =~= (shape + passed.map_values(wrap)).push(
                        ProblemModel::Unlocked(node.id@),
                    ));
                }
            }
        }
        let ghost own = shape + self@.unlocked();
        proof {
            assert(self@.nodes.take(self@.nodes.len() as int) =~= self@.nodes);
            assert(own + self@.nested_blocking(0) =~= own);
        }
        for k in 0..self.nodes.len()
            invariant
                self@.nodes.len() == self.nodes@.len(),
                problem_models(problems@) == own + self@.nested_blocking(k as nat),
        {
            let node = &self.nodes[k];
            proof {
                self.lemma_view();
                assert(self@.nodes[k as int] == self.nodes@[k as int]@);
            }
            if let Some(subplan) = &node.subplan {
                proof {
                    subplan.lemma_view();
                }
                if subplan.nodes.len() > 0 {
                    let mut found = subplan.blocking_problems();
                    let mut wrapped = in_subplan(&node.id, found);
                    let ghost before = problems@;
                    let ghost added = wrapped@;
                    problems.append(&mut wrapped);
                    proof {
                        assert(problem_models(problems@) =~= problem_models(before)
                            + problem_models(added));
                        assert(own + self@.nested_blocking((k + 1) as nat) =~= problem_models(before)
                            + problem_models(added));
                    }
                }
            }
        }
        problems
    }
}

fn in_subplan(node: &NodeId, found: Vec<GraphProblem>) -> (res: Vec<GraphProblem>)
    ensures
        problem_models(res@) == inside(node@, problem_models(found@)),
{
    let mut out: Vec<GraphProblem> = Vec::new();
    let ghost all = problem_models(found@);
    for k in 0..found.len()
        invariant
            all == problem_models(found@),
            problem_models(out@) =~= inside(node@, all.take(k as int)),
    {
        let ghost before = out@;
        out.push(
            GraphProblem::InSubplan { node: node.clone(), problem: Box::new(found[k].clone()) },
        );
        proof {
            assert(problem_models(out@) =~= problem_models(before).push(
                ProblemModel::InSubplan { node: node@, problem: Box::new(all[k as int]) },
            ));
            assert(all.take(k + 1) =~= all.take(k as int).push(all[k as int]));
        }
    }
    proof {
        assert(all.take(all.len() as int) =~= all);
    }
    out
}

/// How many places of `universe` hold something that is not in `known`.
spec fn outside(universe: Seq<Seq<char>>, known: Seq<Seq<char>>) -> nat
    decreases universe.len(),
{
    if universe.len() == 0 {
        0
    } else {
        outside(universe.drop_last(), known) + (if known.contains(universe.last()) {
            0nat
        } else {
            1nat
        })
    }
}

proof fn lemma_outside(universe: Seq<Seq<char>>, known: Seq<Seq<char>>, id: Seq<char>)
    ensures
        outside(universe, known.push(id)) <= outside(universe, known),
        universe.contains(id) && !known.contains(id) ==> outside(universe, known.push(id))
            < outside(universe, known),
    decreases universe.len(),
{
    if universe.len() > 0 {
        let init = universe.drop_last();
        let last = universe.last();
        lemma_outside(init, known, id);
        if known.contains(last) {
            let i = choose|i: int| 0 <= i < known.len() && known[i] == last;
            assert(known.push(id)[i] == last);
        }
        if universe.contains(id) && !known.contains(id) {
            let i = choose|i: int| 0 <= i < universe.len() && universe[i] == id;
            if i < init.len() {
                assert(init[i] == id);
                assert(init.contains(id));
            } else {
                assert(known.push(id)[known.len() as int] == id);
            }
        }
    }
}

/// A problem is put into a sentence that names what it is about.
pub proof fn law_sentences_name_what_is_wrong(problem: ProblemModel)
    ensures
        match problem {
            ProblemModel::DuplicateNode(id) => text::part_of(id, problem.sentence()),
            ProblemModel::DanglingEdge { edge, missing } => text::part_of(edge, problem.sentence())
                && text::part_of(missing, problem.sentence()),
            ProblemModel::Unreachable(id) => text::part_of(id, problem.sentence()),
            ProblemModel::Unlocked(id) => text::part_of(id, problem.sentence()),
            ProblemModel::InSubplan { node, problem: inner } => text::part_of(
                node,
                problem.sentence(),
            ) && text::part_of(inner.sentence(), problem.sentence()),
        },
{
    match problem {
        ProblemModel::DuplicateNode(id) => {
            text::lemma_part_last("more than one step uses the id "@, id);
        },
        ProblemModel::DanglingEdge { edge, missing } => {
            let middle = " points at a step that does not exist: "@;
            text::lemma_part_last("connection "@, edge);
            text::lemma_part_first("connection "@ + edge, middle);
            text::lemma_part_within(edge, "connection "@ + edge, "connection "@ + edge + middle);
            text::lemma_part_first("connection "@ + edge + middle, missing);
            text::lemma_part_within(edge, "connection "@ + edge + middle, problem.sentence());
            text::lemma_part_last("connection "@ + edge + middle, missing);
        },
        ProblemModel::Unreachable(id) => {
            text::lemma_part("nothing leads to "@, id, ", so it would never run"@);
        },
        ProblemModel::Unlocked(id) => {
            text::lemma_part_first(id, " is not locked yet"@);
        },
        ProblemModel::InSubplan { node, problem: inner } => {
            text::lemma_part_last("inside "@, node);
            text::lemma_part_first("inside "@ + node, ": "@);
            text::lemma_part_within(node, "inside "@ + node, "inside "@ + node + ": "@);
            text::lemma_part_first("inside "@ + node + ": "@, inner.sentence());
            text::lemma_part_within(node, "inside "@ + node + ": "@, problem.sentence());
            text::lemma_part_last("inside "@ + node + ": "@, inner.sentence());
        },
    }
}

} // verus!
