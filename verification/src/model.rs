//! What plans are, as mathematical values: text is a sequence of characters,
//! and a plan is a sequence of steps beside a sequence of connections.
use crate::graph::Position;
use vstd::prelude::*;

verus! {

/// The terms on which one step leads to another.
#[verifier::ext_equal]
pub enum ConditionModel {
    Always,
    Deterministic { expression: Seq<char> },
    LlmEvaluated { question: Seq<char> },
}

impl ConditionModel {
    /// The text of a condition, where it has one.
    pub open spec fn label(self) -> Option<Seq<char>> {
        match self {
            ConditionModel::Always => None,
            ConditionModel::Deterministic { expression } => Some(expression),
            ConditionModel::LlmEvaluated { question } => Some(question),
        }
    }
}

/// What a step reported.
#[verifier::ext_equal]
pub struct ResultModel {
    pub summary: Seq<char>,
    pub attempt: nat,
}

/// A step of a plan.
#[verifier::ext_equal]
pub struct NodeModel {
    pub id: Seq<char>,
    pub title: Seq<char>,
    pub intent: Seq<char>,
    pub rules: Seq<Seq<char>>,
    pub capture: Seq<char>,
    pub pinned: bool,
    pub position: Option<Position>,
    pub locked: bool,
    pub chat: Option<Seq<char>>,
    pub subplan: Option<Box<GraphModel>>,
    pub result: Option<ResultModel>,
}

/// A connection between two steps.
#[verifier::ext_equal]
pub struct EdgeModel {
    pub id: Seq<char>,
    pub from: Seq<char>,
    pub to: Seq<char>,
    pub condition: ConditionModel,
}

/// A plan.
#[verifier::ext_equal]
pub struct GraphModel {
    pub nodes: Seq<NodeModel>,
    pub edges: Seq<EdgeModel>,
}

impl NodeModel {
    /// A step nothing has been decided about yet.
    pub open spec fn fresh(id: Seq<char>, title: Seq<char>) -> NodeModel {
        NodeModel {
            id,
            title,
            intent: Seq::empty(),
            rules: Seq::empty(),
            capture: Seq::empty(),
            pinned: false,
            position: None,
            locked: false,
            chat: None,
            subplan: None,
            result: None,
        }
    }

    /// The nested plan, where there is one with steps in it.
    pub open spec fn nested(self) -> Option<GraphModel> {
        match self.subplan {
            Some(g) => if g.nodes.len() == 0 {
                None
            } else {
                Some(*g)
            },
            None => None,
        }
    }
}

impl GraphModel {
    /// A plan without steps.
    pub open spec fn empty() -> GraphModel {
        GraphModel { nodes: Seq::empty(), edges: Seq::empty() }
    }

    /// Whether a step carries this id.
    pub open spec fn has_node(self, id: Seq<char>) -> bool {
        exists|i: int| 0 <= i < self.nodes.len() && (#[trigger] self.nodes[i]).id == id
    }

    /// Whether `i` is where the first step with this id stands.
    pub open spec fn is_index(self, id: Seq<char>, i: int) -> bool {
        &&& 0 <= i < self.nodes.len()
        &&& self.nodes[i].id == id
        &&& forall|j: int| 0 <= j < i ==> (#[trigger] self.nodes[j]).id != id
    }

    /// Where the first step with this id stands.
    pub open spec fn node_index(self, id: Seq<char>) -> Option<int> {
        if self.has_node(id) {
            Some(choose|i: int| self.is_index(id, i))
        } else {
            None
        }
    }

    /// The first step with this id.
    pub open spec fn node(self, id: Seq<char>) -> Option<NodeModel> {
        match self.node_index(id) {
            Some(i) => Some(self.nodes[i]),
            None => None,
        }
    }

    /// The connections that leave a step, in order.
    pub open spec fn edges_from(self, id: Seq<char>) -> Seq<EdgeModel> {
        self.edges.filter(|e: EdgeModel| e.from == id)
    }

    /// The connections that enter a step, in order.
    pub open spec fn edges_into(self, id: Seq<char>) -> Seq<EdgeModel> {
        self.edges.filter(|e: EdgeModel| e.to == id)
    }

    /// Whether some connection carries this id.
    pub open spec fn has_edge(self, id: Seq<char>) -> bool {
        exists|i: int| 0 <= i < self.edges.len() && (#[trigger] self.edges[i]).id == id
    }

    /// The plan with the step at `i` replaced.
    pub open spec fn with_node(self, i: int, node: NodeModel) -> GraphModel {
        GraphModel { nodes: self.nodes.update(i, node), edges: self.edges }
    }

    /// The plan a path leads to, going down through nested plans with steps.
    pub open spec fn graph_at(self, path: Seq<Seq<char>>) -> Option<GraphModel>
        decreases path.len(),
    {
        if path.len() == 0 {
            Some(self)
        } else {
            match self.node(path[0]) {
                Some(node) => match node.nested() {
                    Some(g) => g.graph_at(path.skip(1)),
                    None => None,
                },
                None => None,
            }
        }
    }

    /// The step a path leads to.
    pub open spec fn node_at(self, path: Seq<Seq<char>>) -> Option<NodeModel> {
        if path.len() == 0 {
            None
        } else {
            match self.graph_at(path.drop_last()) {
                Some(g) => g.node(path.last()),
                None => None,
            }
        }
    }

    /// The plan a path leads to, where a nested plan without steps counts too.
    pub open spec fn plan_at(self, path: Seq<Seq<char>>) -> Option<GraphModel>
        decreases path.len(),
    {
        if path.len() == 0 {
            Some(self)
        } else {
            match self.node(path[0]) {
                Some(node) => match node.subplan {
                    Some(g) => g.plan_at(path.skip(1)),
                    None => None,
                },
                None => None,
            }
        }
    }

    /// The step a path leads to, where nested plans without steps count too.
    pub open spec fn step_at(self, path: Seq<Seq<char>>) -> Option<NodeModel> {
        if path.len() == 0 {
            None
        } else {
            match self.plan_at(path.drop_last()) {
                Some(g) => g.node(path.last()),
                None => None,
            }
        }
    }

    /// This plan with the plan at a path replaced.
    pub open spec fn with_plan_at(self, path: Seq<Seq<char>>, plan: GraphModel) -> GraphModel
        decreases path.len(),
    {
        if path.len() == 0 {
            plan
        } else {
            match self.node_index(path[0]) {
                Some(i) => match self.nodes[i].subplan {
                    Some(g) => self.with_node(
                        i,
                        NodeModel {
                            subplan: Some(Box::new(g.with_plan_at(path.skip(1), plan))),
                            ..self.nodes[i]
                        },
                    ),
                    None => self,
                },
                None => self,
            }
        }
    }

    /// This plan with the first step of an id replaced.
    pub open spec fn with_step(self, id: Seq<char>, node: NodeModel) -> GraphModel {
        match self.node_index(id) {
            Some(i) => self.with_node(i, node),
            None => self,
        }
    }

    /// This plan with the step at a path replaced.
    pub open spec fn with_step_at(self, path: Seq<Seq<char>>, node: NodeModel) -> GraphModel {
        match self.plan_at(path.drop_last()) {
            Some(g) => self.with_plan_at(path.drop_last(), g.with_step(path.last(), node)),
            None => self,
        }
    }

    /// Whether there are steps and every one of them is locked.
    pub open spec fn fully_locked(self) -> bool {
        self.nodes.len() > 0 && forall|i: int|
            0 <= i < self.nodes.len() ==> (#[trigger] self.nodes[i]).locked
    }

    /// Whether no two steps of a plan have the same id, here and in every nested plan.
    pub open spec fn distinct_deeply(self) -> bool
        decreases self,
    {
        &&& forall|i: int, j: int|
            #![trigger self.nodes[i], self.nodes[j]]
            0 <= i < j < self.nodes.len() ==> self.nodes[i].id != self.nodes[j].id
        &&& forall|i: int|
            #![trigger self.nodes[i]]
            0 <= i < self.nodes.len() ==> match self.nodes[i].subplan {
                Some(g) => g.distinct_deeply(),
                None => true,
            }
    }

    /// Whether no step is locked, here and in every nested plan.
    pub open spec fn open_deeply(self) -> bool
        decreases self,
    {
        forall|i: int|
            #![trigger self.nodes[i]]
            0 <= i < self.nodes.len() ==> !self.nodes[i].locked && match self.nodes[i].subplan {
                Some(g) => g.open_deeply(),
                None => true,
            }
    }

    /// Whether every step here and in every nested plan is locked.
    pub open spec fn fully_locked_deeply(self) -> bool
        decreases self,
    {
        self.nodes.len() > 0 && forall|i: int|
            0 <= i < self.nodes.len() ==> (#[trigger] self.nodes[i]).locked && match self.nodes[i].subplan {
                Some(g) => g.nodes.len() == 0 || g.fully_locked_deeply(),
                None => true,
            }
    }

    /// An id made out of another one by numbering it.
    pub open spec fn numbered(desired: Seq<char>, k: nat) -> Seq<char> {
        desired + "-"@ + crate::text::decimal(k)
    }

    /// Whether `k` is the least number from 2 on that makes an id nobody has.
    pub open spec fn is_fresh_number(self, desired: Seq<char>, k: nat) -> bool {
        &&& k >= 2
        &&& !self.has_node(GraphModel::numbered(desired, k))
        &&& forall|j: nat| 2 <= j < k ==> self.has_node(#[trigger] GraphModel::numbered(desired, j))
    }

    /// The id a new step gets: the one asked for, or the first free numbered one.
    pub open spec fn free_id(self, desired: Seq<char>) -> Seq<char> {
        if self.has_node(desired) {
            GraphModel::numbered(desired, choose|k: nat| self.is_fresh_number(desired, k))
        } else {
            desired
        }
    }

    /// The plan with a step added.
    pub open spec fn with_added(self, node: NodeModel) -> GraphModel {
        GraphModel {
            nodes: self.nodes.push(NodeModel { id: self.free_id(node.id), ..node }),
            edges: self.edges,
        }
    }

    /// The plan without the steps of an id, nor the connections that touched them.
    pub open spec fn without_node(self, id: Seq<char>) -> GraphModel {
        GraphModel {
            nodes: self.nodes.filter(|n: NodeModel| n.id != id),
            edges: self.edges.filter(|e: EdgeModel| e.from != id && e.to != id),
        }
    }

    /// The plan without the connections of an id.
    pub open spec fn without_edge(self, id: Seq<char>) -> GraphModel {
        GraphModel { nodes: self.nodes, edges: self.edges.filter(|e: EdgeModel| e.id != id) }
    }

    /// The id a new connection gets.
    pub open spec fn free_edge_id(self, from: Seq<char>, to: Seq<char>) -> Seq<char> {
        let id = from + "->"@ + to;
        if self.has_edge(id) {
            id + "-"@ + crate::text::decimal(self.edges.len())
        } else {
            id
        }
    }

    /// The plan with a connection added that is always taken.
    pub open spec fn with_connection(self, from: Seq<char>, to: Seq<char>) -> GraphModel {
        GraphModel {
            nodes: self.nodes,
            edges: self.edges.push(
                EdgeModel {
                    id: self.free_edge_id(from, to),
                    from,
                    to,
                    condition: ConditionModel::Always,
                },
            ),
        }
    }

    /// The plan with a connection added that is taken on the given terms.
    pub open spec fn with_connection_on(
        self,
        from: Seq<char>,
        to: Seq<char>,
        condition: ConditionModel,
    ) -> GraphModel {
        GraphModel {
            nodes: self.nodes,
            edges: self.edges.push(
                EdgeModel { id: self.free_edge_id(from, to), from, to, condition },
            ),
        }
    }

    /// Whether `i` is where the first connection with this id stands.
    pub open spec fn is_edge_index(self, id: Seq<char>, i: int) -> bool {
        &&& 0 <= i < self.edges.len()
        &&& self.edges[i].id == id
        &&& forall|j: int| 0 <= j < i ==> (#[trigger] self.edges[j]).id != id
    }

    /// The plan with other terms on the first connection of an id.
    pub open spec fn with_terms(self, id: Seq<char>, condition: ConditionModel) -> GraphModel {
        let i = choose|i: int| self.is_edge_index(id, i);
        GraphModel {
            nodes: self.nodes,
            edges: self.edges.update(i, EdgeModel { condition, ..self.edges[i] }),
        }
    }

    /// Steps whose summary every later step is told, in order.
    pub open spec fn pinned(self) -> Seq<NodeModel> {
        self.nodes.filter(|n: NodeModel| n.pinned)
    }

    /// Steps that lead somewhere but never say what they hand on, in order.
    pub open spec fn without_capture(self) -> Seq<NodeModel> {
        self.nodes.filter(
            |n: NodeModel| crate::text::is_blank(n.capture) && self.edges_from(n.id).len() > 0,
        )
    }

    /// Whether a step may be locked: what it contains has to be settled first.
    pub open spec fn lockable(self, id: Seq<char>) -> bool {
        match self.node(id) {
            Some(node) => match node.nested() {
                Some(g) => g.fully_locked_deeply(),
                None => true,
            },
            None => true,
        }
    }

    /// Numbering from 2 on finds a free id, within as many numbers as there are steps.
    pub proof fn lemma_free_number(self, desired: Seq<char>) -> (k: nat)
        ensures
            self.is_fresh_number(desired, k),
            k <= self.nodes.len() + 2,
            self.has_node(desired) ==> self.free_id(desired) == GraphModel::numbered(desired, k),
    {
        let n = self.nodes.len() + 1;
        if forall|j: nat| 2 <= j < n + 2 ==> self.has_node(#[trigger] GraphModel::numbered(desired, j)) {
            let at = Seq::new(
                n,
                |j: int| self.node_index(GraphModel::numbered(desired, (j + 2) as nat))->0,
            );
            assert forall|j: int| 0 <= j < n implies self.is_index(
                GraphModel::numbered(desired, (j + 2) as nat),
                #[trigger] at[j],
            ) by {
                self.lemma_node(GraphModel::numbered(desired, (j + 2) as nat));
            }
            assert forall|i: int, j: int| 0 <= i < n && 0 <= j < n && i != j implies at[i] != at[j] by {
                if at[i] == at[j] {
                    let a = (i + 2) as nat;
                    let b = (j + 2) as nat;
                    assert(GraphModel::numbered(desired, a) == GraphModel::numbered(desired, b));
                    crate::text::lemma_same_prefix(
                        desired + "-"@,
                        crate::text::decimal(a),
                        crate::text::decimal(b),
                    );
                    crate::text::lemma_decimal_injective(a, b);
                }
            }
            at.unique_seq_to_set();
            let range = vstd::set_lib::set_int_range(0, self.nodes.len() as int);
            vstd::set_lib::lemma_int_range(0, self.nodes.len() as int);
            assert(at.to_set().subset_of(range)) by {
                assert forall|x: int| at.to_set().contains(x) implies range.contains(x) by {
                    let j = choose|j: int| 0 <= j < at.len() && at[j] == x;
                    assert(self.is_index(GraphModel::numbered(desired, (j + 2) as nat), at[j]));
                }
            }
            vstd::set_lib::lemma_len_subset(at.to_set(), range);
            assert(false);
        }
        let taken = choose|j: nat|
            2 <= j < n + 2 && !self.has_node(#[trigger] GraphModel::numbered(desired, j));
        let k = self.least_free(desired, taken);
        let c = choose|k: nat| self.is_fresh_number(desired, k);
        assert(self.is_fresh_number(desired, c));
        assert(GraphModel::numbered(desired, c) == GraphModel::numbered(desired, c));
        assert(GraphModel::numbered(desired, k) == GraphModel::numbered(desired, k));
        assert(c == k);
        k
    }

    proof fn least_free(self, desired: Seq<char>, free: nat) -> (k: nat)
        requires
            free >= 2,
            !self.has_node(GraphModel::numbered(desired, free)),
        ensures
            self.is_fresh_number(desired, k),
            k <= free,
        decreases free,
    {
        if forall|j: nat| 2 <= j < free ==> self.has_node(#[trigger] GraphModel::numbered(desired, j)) {
            free
        } else {
            let j = choose|j: nat|
                2 <= j < free && !self.has_node(#[trigger] GraphModel::numbered(desired, j));
            self.least_free(desired, j)
        }
    }

    /// The first connection of an id is found where it first stands.
    pub proof fn lemma_edge_index(self, id: Seq<char>, i: int)
        requires
            self.is_edge_index(id, i),
        ensures
            i == choose|j: int| self.is_edge_index(id, j),
    {
        let j = choose|j: int| self.is_edge_index(id, j);
        assert(self.is_edge_index(id, j));
        if j < i {
            assert(self.edges[j].id != id);
        }
        if i < j {
            assert(self.edges[i].id != id);
        }
    }

    /// The first step with an id is found where it first stands.
    pub proof fn lemma_index(self, id: Seq<char>, i: int)
        requires
            self.is_index(id, i),
        ensures
            self.node_index(id) == Some(i),
            self.node(id) == Some(self.nodes[i]),
    {
        assert(self.nodes[i].id == id);
        let j = choose|j: int| self.is_index(id, j);
        assert(self.is_index(id, j));
        if j < i {
            assert(self.nodes[j].id != id);
        }
        if i < j {
            assert(self.nodes[i].id != id);
        }
    }

    /// A step is found exactly when its id occurs, and it carries that id.
    pub proof fn lemma_node(self, id: Seq<char>)
        ensures
            self.has_node(id) <==> self.node(id) is Some,
            self.has_node(id) <==> self.node_index(id) is Some,
            self.has_node(id) ==> self.is_index(id, self.node_index(id)->0) && self.node(id)
                == Some(self.nodes[self.node_index(id)->0]),
    {
        if self.has_node(id) {
            let k = choose|k: int| 0 <= k < self.nodes.len() && (#[trigger] self.nodes[k]).id == id;
            let i = self.least_index(id, k);
            self.lemma_index(id, i);
        }
    }

    proof fn least_index(self, id: Seq<char>, k: int) -> (i: int)
        requires
            0 <= k < self.nodes.len(),
            self.nodes[k].id == id,
        ensures
            self.is_index(id, i),
        decreases k,
    {
        if forall|j: int| 0 <= j < k ==> (#[trigger] self.nodes[j]).id != id {
            k
        } else {
            let j = choose|j: int| 0 <= j < k && (#[trigger] self.nodes[j]).id == id;
            self.least_index(id, j)
        }
    }
}

/// Filtering one element more keeps it exactly when it passes.
pub proof fn lemma_filter_take<A>(s: Seq<A>, p: spec_fn(A) -> bool, k: int)
    requires
        0 <= k < s.len(),
    ensures
        s.take(k + 1).filter(p) == (if p(s[k]) {
            s.take(k).filter(p).push(s[k])
        } else {
            s.take(k).filter(p)
        }),
{
    reveal(Seq::filter);
    assert(s.take(k + 1).drop_last() =~= s.take(k));
}

/// What passes a filter was there before, and passes.
pub proof fn lemma_filter_source<A>(s: Seq<A>, p: spec_fn(A) -> bool, i: int) -> (j: int)
    requires
        0 <= i < s.filter(p).len(),
    ensures
        0 <= j < s.len(),
        s[j] == s.filter(p)[i],
        p(s[j]),
    decreases s.len(),
{
    reveal(Seq::filter);
    let rest = s.drop_last().filter(p);
    if i < rest.len() {
        lemma_filter_source(s.drop_last(), p, i)
    } else {
        s.len() - 1
    }
}

/// Adding an element that passes a filter adds it to what passes.
pub proof fn lemma_filter_push<A>(s: Seq<A>, p: spec_fn(A) -> bool, a: A)
    ensures
        s.push(a).filter(p) == (if p(a) {
            s.filter(p).push(a)
        } else {
            s.filter(p)
        }),
{
    reveal(Seq::filter);
    assert(s.push(a).drop_last() =~= s);
}

} // verus!
