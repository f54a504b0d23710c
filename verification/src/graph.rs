//! Plans: steps, the connections between them, and the elementary operations.
use crate::model::{ConditionModel, EdgeModel, GraphModel, NodeModel, ResultModel};
use crate::text;
use vstd::prelude::*;

verus! {

/// What a step is known by within one plan.
#[derive(Debug, PartialEq, Eq, Hash, PartialOrd, Ord)]
pub struct NodeId(pub String);

impl View for NodeId {
    type V = Seq<char>;

    open spec fn view(&self) -> Seq<char> {
        self.0@
    }
}

impl Clone for NodeId {
    fn clone(&self) -> (res: Self)
        ensures
            res == *self,
    {
        NodeId(self.0.clone())
    }
}

impl vstd::std_specs::convert::FromSpecImpl<&str> for NodeId {
    open spec fn obeys_from_spec() -> bool {
        false
    }

    open spec fn from_spec(v: &str) -> Self {
        arbitrary()
    }
}

impl From<&str> for NodeId {
    fn from(value: &str) -> (res: Self)
        ensures
            res@ == value@,
    {
        NodeId(value.to_owned())
    }
}

impl vstd::std_specs::convert::FromSpecImpl<String> for NodeId {
    open spec fn obeys_from_spec() -> bool {
        true
    }

    open spec fn from_spec(v: String) -> Self {
        NodeId(v)
    }
}

impl From<String> for NodeId {
    fn from(value: String) -> (res: Self) {
        NodeId(value)
    }
}

impl NodeId {
    /// Whether two ids are the same text.
    pub fn same(&self, other: &NodeId) -> (res: bool)
        ensures
            res == (self@ == other@),
    {
        self.0 == other.0
    }
}

/// What a connection is known by within one plan.
#[derive(Debug, PartialEq, Eq, Hash, PartialOrd, Ord)]
pub struct EdgeId(pub String);

impl View for EdgeId {
    type V = Seq<char>;

    open spec fn view(&self) -> Seq<char> {
        self.0@
    }
}

impl Clone for EdgeId {
    fn clone(&self) -> (res: Self)
        ensures
            res == *self,
    {
        EdgeId(self.0.clone())
    }
}

impl vstd::std_specs::convert::FromSpecImpl<&str> for EdgeId {
    open spec fn obeys_from_spec() -> bool {
        false
    }

    open spec fn from_spec(v: &str) -> Self {
        arbitrary()
    }
}

impl From<&str> for EdgeId {
    fn from(value: &str) -> (res: Self)
        ensures
            res@ == value@,
    {
        EdgeId(value.to_owned())
    }
}

impl EdgeId {
    /// Whether two ids are the same text.
    pub fn same(&self, other: &EdgeId) -> (res: bool)
        ensures
            res == (self@ == other@),
    {
        self.0 == other.0
    }
}

/// The conversation a step is argued out in.
#[derive(Debug, PartialEq, Eq, Hash)]
pub struct SessionId(pub String);

impl View for SessionId {
    type V = Seq<char>;

    open spec fn view(&self) -> Seq<char> {
        self.0@
    }
}

impl Clone for SessionId {
    fn clone(&self) -> (res: Self)
        ensures
            res == *self,
    {
        SessionId(self.0.clone())
    }
}

/// A place on the canvas, in whole canvas units.
#[derive(Clone, Copy, Debug, PartialEq, Eq, Structural)]
pub struct Position {
    pub x: i128,
    pub y: i128,
}

/// When one step leads to another.
#[derive(Debug, PartialEq, Eq)]
pub enum EdgeCondition {
    /// The step always follows.
    Always,
    /// A condition that can be checked without asking a model, such as a
    /// command's exit status or whether a file exists.
    Deterministic { expression: String },
    /// A judgement the model has to make, phrased as a yes-or-no question.
    LlmEvaluated { question: String },
}

impl View for EdgeCondition {
    type V = ConditionModel;

    open spec fn view(&self) -> ConditionModel {
        match *self {
            EdgeCondition::Always => ConditionModel::Always,
            EdgeCondition::Deterministic { expression } => ConditionModel::Deterministic {
                expression: expression@,
            },
            EdgeCondition::LlmEvaluated { question } => ConditionModel::LlmEvaluated {
                question: question@,
            },
        }
    }
}

impl Clone for EdgeCondition {
    fn clone(&self) -> (res: Self)
        ensures
            res == *self,
    {
        match self {
            EdgeCondition::Always => EdgeCondition::Always,
            EdgeCondition::Deterministic { expression } => EdgeCondition::Deterministic {
                expression: expression.clone(),
            },
            EdgeCondition::LlmEvaluated { question } => EdgeCondition::LlmEvaluated {
                question: question.clone(),
            },
        }
    }
}

impl EdgeCondition {
    /// The text of the condition; a connection that is always taken has none.
    pub fn label(&self) -> (res: Option<&str>)
        ensures
            match res {
                Some(text) => self@.label() == Some(text@),
                None => self@.label() is None,
            },
    {
        match self {
            EdgeCondition::Always => None,
            EdgeCondition::Deterministic { expression } => Some(expression.as_str()),
            EdgeCondition::LlmEvaluated { question } => Some(question.as_str()),
        }
    }

    /// Whether the connection is always taken.
    pub fn is_always(&self) -> (res: bool)
        ensures
            res == (self@ == ConditionModel::Always),
    {
        matches!(self, EdgeCondition::Always)
    }

    /// Whether two conditions are of one kind and hold the same text.
    pub fn same(&self, other: &EdgeCondition) -> (res: bool)
        ensures
            res == (self@ == other@),
    {
        match (self, other) {
            (EdgeCondition::Always, EdgeCondition::Always) => true,
            (
                EdgeCondition::Deterministic { expression: a },
                EdgeCondition::Deterministic { expression: b },
            ) => *a == *b,
            (
                EdgeCondition::LlmEvaluated { question: a },
                EdgeCondition::LlmEvaluated { question: b },
            ) => *a == *b,
            _ => false,
        }
    }
}

/// What a step reported when it finished.
///
/// This is what travels along an edge to the steps that follow, and what the
/// step itself is reminded of when a loop brings it round again.
#[derive(Debug, PartialEq, Eq)]
pub struct StepResult {
    /// The step's own account of what it did, answering its `capture`.
    pub summary: String,
    /// Which attempt produced this, counting from 1. A step reached twice by a
    /// loop is on attempt 2.
    pub attempt: usize,
}

impl View for StepResult {
    type V = ResultModel;

    open spec fn view(&self) -> ResultModel {
        ResultModel { summary: self.summary@, attempt: self.attempt as nat }
    }
}

impl Clone for StepResult {
    fn clone(&self) -> (res: Self)
        ensures
            res == *self,
    {
        StepResult { summary: self.summary.clone(), attempt: self.attempt }
    }
}

/// A single step in the plan.
#[derive(Debug, PartialEq)]
pub struct ArchitectNode {
    pub id: NodeId,
    pub title: String,
    /// What this step has to accomplish.
    pub intent: String,
    /// Constraints this step must honour, refined in the node's own chat.
    pub rules: Vec<String>,
    /// What the step's summary has to contain, in the author's words. This is
    /// the contract between one step and the steps that follow it: whatever is
    /// named here is what they will be told.
    pub capture: String,
    /// Forces this step's summary into every later step, not just the ones it
    /// leads to directly.
    pub pinned: bool,
    /// Where the node sits on the canvas. `None` until it has been laid out.
    pub position: Option<Position>,
    /// A locked node is finished being deliberated and can no longer be edited.
    pub locked: bool,
    /// The thread used to deliberate this step, created on first use.
    pub chat: Option<SessionId>,
    /// A plan nested inside this step. Running the step runs this plan, and the
    /// step is done when the plan is.
    pub subplan: Option<Box<ArchitectGraph>>,
    /// What the step reported the last time it ran.
    pub result: Option<StepResult>,
}

/// A connection between two steps.
#[derive(Debug, PartialEq)]
pub struct ArchitectEdge {
    pub id: EdgeId,
    pub from: NodeId,
    pub to: NodeId,
    pub condition: EdgeCondition,
}

/// A plan: each node is a step, and each edge is the condition under which one
/// step leads to another.
#[derive(Debug, PartialEq)]
pub struct ArchitectGraph {
    pub nodes: Vec<ArchitectNode>,
    pub edges: Vec<ArchitectEdge>,
}

/// The texts of a sequence of strings.
pub open spec fn texts(s: Seq<String>) -> Seq<Seq<char>> {
    s.map_values(|t: String| t@)
}

/// The texts of a sequence of ids.
pub open spec fn ids(s: Seq<NodeId>) -> Seq<Seq<char>> {
    s.map_values(|t: NodeId| t@)
}

impl View for ArchitectEdge {
    type V = EdgeModel;

    open spec fn view(&self) -> EdgeModel {
        EdgeModel { id: self.id@, from: self.from@, to: self.to@, condition: self.condition@ }
    }
}

impl View for ArchitectNode {
    type V = NodeModel;

    open spec fn view(&self) -> NodeModel {
        self.model()
    }
}

impl View for ArchitectGraph {
    type V = GraphModel;

    open spec fn view(&self) -> GraphModel {
        self.model()
    }
}

impl Clone for ArchitectEdge {
    fn clone(&self) -> (res: Self)
        ensures
            res == *self,
    {
        ArchitectEdge {
            id: self.id.clone(),
            from: self.from.clone(),
            to: self.to.clone(),
            condition: self.condition.clone(),
        }
    }
}

impl ArchitectEdge {
    /// Whether two connections are the same in every respect.
    pub fn same(&self, other: &ArchitectEdge) -> (res: bool)
        ensures
            res == (self@ == other@),
    {
        self.id.same(&other.id) && self.from.same(&other.from) && self.to.same(&other.to)
            && self.condition.same(&other.condition)
    }

    /// A connection that is always taken.
    pub fn new(id: &str, from: &str, to: &str) -> (res: Self)
        ensures
            res@ == (EdgeModel {
                id: id@,
                from: from@,
                to: to@,
                condition: ConditionModel::Always,
            }),
    {
        ArchitectEdge {
            id: EdgeId::from(id),
            from: NodeId::from(from),
            to: NodeId::from(to),
            condition: EdgeCondition::Always,
        }
    }

    /// The same connection, on other terms.
    pub fn with_condition(self, condition: EdgeCondition) -> (res: Self)
        ensures
            res@ == (EdgeModel { condition: condition@, ..self@ }),
    {
        ArchitectEdge { id: self.id, from: self.from, to: self.to, condition }
    }
}

/// Copies a list of strings.
pub fn clone_texts(v: &Vec<String>) -> (res: Vec<String>)
    ensures
        res@ == v@,
{
    let mut out: Vec<String> = Vec::new();
    for k in 0..v.len()
        invariant
            out@ =~= v@.take(k as int),
    {
        out.push(v[k].clone());
    }
    assert(v@.take(v@.len() as int) =~= v@);
    out
}

/// Copies a list of ids.
pub fn clone_ids(v: &Vec<NodeId>) -> (res: Vec<NodeId>)
    ensures
        res@ == v@,
{
    let mut out: Vec<NodeId> = Vec::new();
    for k in 0..v.len()
        invariant
            out@ =~= v@.take(k as int),
    {
        out.push(v[k].clone());
    }
    assert(v@.take(v@.len() as int) =~= v@);
    out
}

/// The texts of ids.
pub fn id_texts(v: &Vec<NodeId>) -> (res: Vec<String>)
    ensures
        texts(res@) == ids(v@),
{
    let mut out: Vec<String> = Vec::new();
    for k in 0..v.len()
        invariant
            texts(out@) =~= ids(v@).take(k as int),
    {
        let ghost before = out@;
        out.push(v[k].0.clone());
        proof {
            assert(texts(out@) =~= texts(before).push(ids(v@)[k as int]));
        }
    }
    proof {
        assert(ids(v@).take(v@.len() as int) =~= ids(v@));
    }
    out
}

/// A plan or none, as a mathematical value.
pub open spec fn plan_value(shown: Option<&ArchitectGraph>) -> Option<GraphModel> {
    match shown {
        Some(plan) => Some(plan@),
        None => None,
    }
}

/// Copies an optional conversation.
pub fn clone_chat(chat: &Option<SessionId>) -> (res: Option<SessionId>)
    ensures
        res == *chat,
{
    match chat {
        Some(id) => Some(id.clone()),
        None => None,
    }
}

/// Copies an optional result.
pub fn clone_result(result: &Option<StepResult>) -> (res: Option<StepResult>)
    ensures
        res == *result,
{
    match result {
        Some(r) => Some(r.clone()),
        None => None,
    }
}

impl Clone for ArchitectNode {
    fn clone(&self) -> (res: Self)
        ensures
            res@ == self@,
        decreases self,
    {
        let subplan = match &self.subplan {
            Some(g) => Some(Box::new(g.copy())),
            None => None,
        };
        self.copy_with(subplan)
    }
}

impl ArchitectNode {
    /// What this step is, as a mathematical value.
    pub open spec fn model(&self) -> NodeModel
        decreases self,
    {
        NodeModel {
            id: self.id@,
            title: self.title@,
            intent: self.intent@,
            rules: texts(self.rules@),
            capture: self.capture@,
            pinned: self.pinned,
            position: self.position,
            locked: self.locked,
            chat: match self.chat {
                Some(id) => Some(id@),
                None => None,
            },
            subplan: match self.subplan {
                Some(g) => Some(Box::new(g.model())),
                None => None,
            },
            result: match self.result {
                Some(r) => Some(r@),
                None => None,
            },
        }
    }

    fn copy_with(&self, subplan: Option<Box<ArchitectGraph>>) -> (res: Self)
        ensures
            res@ == (NodeModel {
                subplan: match subplan {
                    Some(g) => Some(Box::new(g@)),
                    None => None,
                },
                ..self@
            }),
    {
        ArchitectNode {
            id: self.id.clone(),
            title: self.title.clone(),
            intent: self.intent.clone(),
            rules: clone_texts(&self.rules),
            capture: self.capture.clone(),
            pinned: self.pinned,
            position: self.position,
            locked: self.locked,
            chat: clone_chat(&self.chat),
            subplan,
            result: clone_result(&self.result),
        }
    }

    /// A step nothing has been decided about yet.
    pub fn new(id: &str, title: &str) -> (res: Self)
        ensures
            res@ == NodeModel::fresh(id@, title@),
    {
        let res = ArchitectNode {
            id: NodeId::from(id),
            title: title.to_owned(),
            intent: String::new(),
            rules: Vec::new(),
            capture: String::new(),
            pinned: false,
            position: None,
            locked: false,
            chat: None,
            subplan: None,
            result: None,
        };
        proof {
            assert(res@ =~= NodeModel::fresh(id@, title@));
        }
        res
    }

    /// Whether two steps are the same in every respect.
    pub fn same(&self, other: &ArchitectNode) -> (res: bool)
        ensures
            res == (self@ == other@),
        decreases self,
    {
        let inside = match (&self.subplan, &other.subplan) {
            (Some(a), Some(b)) => a.same(b),
            (None, None) => true,
            _ => false,
        };
        let chat = match (&self.chat, &other.chat) {
            (Some(a), Some(b)) => a.0 == b.0,
            (None, None) => true,
            _ => false,
        };
        let result = match (&self.result, &other.result) {
            (Some(a), Some(b)) => a.summary == b.summary && a.attempt == b.attempt,
            (None, None) => true,
            _ => false,
        };
        let position = match (self.position, other.position) {
            (Some(a), Some(b)) => a == b,
            (None, None) => true,
            _ => false,
        };
        inside && chat && result && position && self.id.same(&other.id) && self.title
            == other.title && self.intent == other.intent && text::same_texts(
            &self.rules,
            &other.rules,
        ) && self.capture == other.capture && self.pinned == other.pinned && self.locked
            == other.locked
    }

    /// The nested plan, if this step has one worth running.
    pub fn subplan(&self) -> (res: Option<&ArchitectGraph>)
        ensures
            match res {
                Some(g) => self@.nested() == Some(g@) && self.subplan is Some && *g
                    == *self.subplan->0,
                None => self@.nested() is None,
            },
    {
        match &self.subplan {
            Some(g) => {
                proof {
                    g.lemma_view();
                }
                if g.nodes.len() == 0 {
                    None
                } else {
                    Some(&**g)
                }
            },
            None => None,
        }
    }

    /// Whether this step contains a plan with steps in it.
    pub fn has_subplan(&self) -> (res: bool)
        ensures
            res == (self@.nested() is Some),
    {
        self.subplan().is_some()
    }
}

impl vstd::std_specs::convert::FromSpecImpl<&str> for ArchitectNode {
    open spec fn obeys_from_spec() -> bool {
        false
    }

    open spec fn from_spec(v: &str) -> Self {
        arbitrary()
    }
}

impl From<&str> for ArchitectNode {
    fn from(value: &str) -> (res: Self)
        ensures
            res@ == NodeModel::fresh(value@, value@),
    {
        ArchitectNode::new(value, value)
    }
}

impl Clone for ArchitectGraph {
    fn clone(&self) -> (res: Self)
        ensures
            res@ == self@,
    {
        self.copy()
    }
}

impl Default for ArchitectGraph {
    fn default() -> (res: Self)
        ensures
            res@ == GraphModel::empty(),
    {
        let res = ArchitectGraph { nodes: Vec::new(), edges: Vec::new() };
        proof {
            assert(res@.nodes =~= Seq::empty());
            assert(res@.edges =~= Seq::empty());
        }
        res
    }
}

impl ArchitectGraph {
    /// What this plan is, as a mathematical value.
    pub open spec fn model(&self) -> GraphModel
        decreases self,
    {
        GraphModel {
            nodes: Seq::new(
                self.nodes@.len(),
                |i: int|
                    if 0 <= i < self.nodes@.len() {
                        self.nodes@[i].model()
                    } else {
                        arbitrary()
                    },
            ),
            edges: self.edges@.map_values(|e: ArchitectEdge| e@),
        }
    }

    /// Whether two plans are the same in every respect, nested plans included.
    pub fn same(&self, other: &ArchitectGraph) -> (res: bool)
        ensures
            res == (self@ == other@),
        decreases self,
    {
        proof {
            self.lemma_view();
            other.lemma_view();
        }
        if self.nodes.len() != other.nodes.len() || self.edges.len() != other.edges.len() {
            return false;
        }
        for k in 0..self.edges.len()
            invariant
                self.edges@.len() == other.edges@.len(),
                forall|i: int| 0 <= i < k ==> self@.edges[i] == other@.edges[i],
        {
            proof {
                self.lemma_view();
                other.lemma_view();
                assert(self@.edges[k as int] == self.edges@[k as int]@);
                assert(other@.edges[k as int] == other.edges@[k as int]@);
            }
            if !self.edges[k].same(&other.edges[k]) {
                return false;
            }
        }
        for k in 0..self.nodes.len()
            invariant
                self.nodes@.len() == other.nodes@.len(),
                forall|i: int| 0 <= i < k ==> self@.nodes[i] == other@.nodes[i],
        {
            let node = &self.nodes[k];
            proof {
                self.lemma_view();
                other.lemma_view();
                assert(self@.nodes[k as int] == node@);
                assert(other@.nodes[k as int] == other.nodes@[k as int]@);
            }
            if !node.same(&other.nodes[k]) {
                return false;
            }
        }
        proof {
            assert(self@.nodes =~= other@.nodes);
            assert(self@.edges =~= other@.edges);
        }
        true
    }

    /// A plan's value holds the values of its steps and connections, in order.
    pub proof fn lemma_view(&self)
        ensures
            self@.nodes.len() == self.nodes@.len(),
            self@.edges.len() == self.edges@.len(),
            forall|i: int|
                0 <= i < self.nodes@.len() ==> #[trigger] self@.nodes[i] == self.nodes@[i]@,
            forall|i: int|
                0 <= i < self.nodes@.len() ==> (#[trigger] self.nodes@[i])@ == self@.nodes[i],
            forall|i: int|
                0 <= i < self.edges@.len() ==> #[trigger] self@.edges[i] == self.edges@[i]@,
            forall|i: int|
                0 <= i < self.edges@.len() ==> (#[trigger] self.edges@[i])@ == self@.edges[i],
    {
    }

    /// Replacing a step of a plan replaces it in the plan's value.
    pub proof fn lemma_replaced(&self, i: int)
        requires
            0 <= i < self.nodes@.len(),
        ensures
            forall|g: ArchitectGraph, n: ArchitectNode|
                g.nodes@ == self.nodes@.update(i, n) && g.edges@ == self.edges@ ==> #[trigger] g.model()
                    == self@.with_node(i, #[trigger] n.model()),
    {
        assert forall|g: ArchitectGraph, n: ArchitectNode|
            g.nodes@ == self.nodes@.update(i, n) && g.edges@
                == self.edges@ implies #[trigger] g.model() == self@.with_node(
            i,
            #[trigger] n.model(),
        ) by {
            let m = self@.with_node(i, n@);
            g.lemma_view();
            self.lemma_view();
            assert forall|j: int| 0 <= j < g.nodes@.len() implies g@.nodes[j] == m.nodes[j] by {
                assert(g@.nodes[j] == g.nodes@[j]@);
                if j != i {
                    assert(g.nodes@[j] == self.nodes@[j]);
                    assert(self@.nodes[j] == self.nodes@[j]@);
                }
            }
            assert(g@.nodes =~= m.nodes);
            assert(g@.edges =~= m.edges);
        }
    }

    fn copy(&self) -> (res: Self)
        ensures
            res@ == self@,
        decreases self,
    {
        let mut nodes: Vec<ArchitectNode> = Vec::new();
        for k in 0..self.nodes.len()
            invariant
                nodes@.len() == k,
                forall|i: int| 0 <= i < k ==> (#[trigger] nodes@[i])@ == self.nodes@[i]@,
        {
            let node = &self.nodes[k];
            let subplan = match &node.subplan {
                Some(g) => Some(Box::new(g.copy())),
                None => None,
            };
            nodes.push(node.copy_with(subplan));
        }
        let mut edges: Vec<ArchitectEdge> = Vec::new();
        for k in 0..self.edges.len()
            invariant
                edges@ =~= self.edges@.take(k as int),
        {
            edges.push(self.edges[k].clone());
        }
        let res = ArchitectGraph { nodes, edges };
        proof {
            assert(res@.nodes =~= self@.nodes);
            assert(res@.edges =~= self@.edges);
        }
        res
    }

    /// Whether the plan has no steps.
    pub fn is_empty(&self) -> (res: bool)
        ensures
            res == (self@.nodes.len() == 0),
    {
        self.nodes.len() == 0
    }

    /// Where the first step with an id stands.
    pub fn node_index(&self, id: &NodeId) -> (res: Option<usize>)
        ensures
            match res {
                Some(i) => self@.node_index(id@) == Some(i as int) && self@.is_index(id@, i as int),
                None => self@.node_index(id@) is None && !self@.has_node(id@),
            },
    {
        let mut k: usize = 0;
        while k < self.nodes.len()
            invariant
                k <= self.nodes.len(),
                forall|i: int| 0 <= i < k ==> (#[trigger] self@.nodes[i]).id != id@,
            decreases self.nodes.len() - k,
        {
            proof {
                self.lemma_view();
                assert(self@.nodes[k as int] == self.nodes@[k as int]@);
            }
            if self.nodes[k].id.same(id) {
                proof {
                    self@.lemma_index(id@, k as int);
                }
                return Some(k);
            }
            k += 1;
        }
        proof {
            self.lemma_view();
        }
        None
    }

    /// The first step with an id.
    pub fn node(&self, id: &NodeId) -> (res: Option<&ArchitectNode>)
        ensures
            match res {
                Some(n) => self@.node(id@) == Some(n@) && (exists|i: int|
                    self@.is_index(id@, i) && *n == self.nodes@[i]),
                None => self@.node(id@) is None,
            },
    {
        match self.node_index(id) {
            Some(i) => {
                proof {
                    self.lemma_view();
                }
                Some(&self.nodes[i])
            },
            None => None,
        }
    }

    /// The first step with an id, to be changed in place.
    pub fn node_mut(&mut self, id: &NodeId) -> (res: Option<&mut ArchitectNode>)
        ensures
            match res {
                Some(n) => {
                    &&& old(self)@.node(id@) == Some((*n)@)
                    &&& final(self)@ == old(self)@.with_step(id@, (*final(n))@)
                },
                None => old(self)@.node(id@) is None && *final(self) == *old(self),
            },
    {
        match self.node_index(id) {
            Some(i) => {
                proof {
                    self.lemma_view();
                    self.lemma_replaced(i as int);
                }
                let node = &mut self.nodes[i];
                Some(node)
            },
            None => None,
        }
    }
}

} // verus!
