//! Laying a fresh draft over a plan, keeping what a draft cannot know.
//!
//! Structure is the draft's business: which steps exist and what leads where.
//! Everything that was decided about a step, rather than proposed, is the plan's
//! business and is carried across. The same holds of the plans inside steps, where
//! the draft has one of its own.
use crate::graph::{
    self, clone_chat, clone_result, clone_texts, ArchitectGraph, ArchitectNode, EdgeCondition,
    NodeId,
};
use crate::model::{self, ConditionModel, EdgeModel, GraphModel, NodeModel};
use crate::text;
use vstd::prelude::*;

verus! {

/// Locked steps a new draft would have discarded.
///
/// Locking is the user's declaration that a step is settled, so a draft that
/// drops or rewrites one is throwing away work they explicitly finished. That is
/// refused rather than merged.
#[derive(Debug, PartialEq, Eq)]
pub struct LockedStepsWouldChange {
    /// The steps, named as the user knows them.
    pub steps: Vec<String>,
}

/// A draft, merged over the plan it replaces.
#[derive(Debug)]
pub struct MergedDraft {
    pub graph: ArchitectGraph,
    /// Steps that kept something the draft did not carry: settled detail, their
    /// own conversation, what they reported when they ran, or a plan inside.
    pub preserved: Vec<NodeId>,
}

/// Where a step leads, and on what terms.
#[verifier::ext_equal]
pub struct RouteModel {
    pub to: Seq<char>,
    pub condition: ConditionModel,
}

impl RouteModel {
    /// The text of the terms, empty where there is none.
    pub open spec fn words(self) -> Seq<char> {
        match self.condition.label() {
            Some(label) => label,
            None => Seq::empty(),
        }
    }

    /// What kind of terms these are, as a number to order them by.
    pub open spec fn kind(self) -> nat {
        match self.condition {
            ConditionModel::Always => 0,
            ConditionModel::Deterministic { .. } => 1,
            ConditionModel::LlmEvaluated { .. } => 2,
        }
    }

    /// Whether this route is listed before another: by where it leads, then by
    /// the text of its terms, then by their kind.
    pub open spec fn before(self, other: RouteModel) -> bool {
        ||| text::comes_before(self.to, other.to)
        ||| self.to == other.to && text::comes_before(self.words(), other.words())
        ||| self.to == other.to && self.words() == other.words() && self.kind() < other.kind()
    }

    proof fn lemma_before_total(self, other: RouteModel)
        ensures
            !(self.before(other) && other.before(self)),
            self.before(other) || other.before(self) || self == other,
            self == other ==> !self.before(other),
    {
        text::lemma_before_total(self.to, other.to);
        text::lemma_before_total(self.words(), other.words());
    }

    proof fn lemma_before_transitive(self, next: RouteModel, last: RouteModel)
        requires
            self.before(next),
            next.before(last),
        ensures
            self.before(last),
    {
        if text::comes_before(self.to, next.to) && text::comes_before(next.to, last.to) {
            text::lemma_before_transitive(self.to, next.to, last.to);
        }
        if text::comes_before(self.words(), next.words()) && text::comes_before(
            next.words(),
            last.words(),
        ) {
            text::lemma_before_transitive(self.words(), next.words(), last.words());
        }
    }
}

/// A list of routes in order with one more, behind those not listed after it.
pub open spec fn with_route(routes: Seq<RouteModel>, route: RouteModel) -> Seq<RouteModel>
    decreases routes.len(),
{
    if routes.len() > 0 && route.before(routes.last()) {
        with_route(routes.drop_last(), route).push(routes.last())
    } else {
        routes.push(route)
    }
}

/// Routes in order.
pub open spec fn routes_sorted(routes: Seq<RouteModel>) -> Seq<RouteModel>
    decreases routes.len(),
{
    if routes.len() == 0 {
        routes
    } else {
        with_route(routes_sorted(routes.drop_last()), routes.last())
    }
}

impl GraphModel {
    /// Where a step leads, and on what terms, in a form two plans can be compared
    /// by. Ordered, so the same routing written in a different order still
    /// matches.
    pub open spec fn routes_from(self, id: Seq<char>) -> Seq<RouteModel> {
        routes_sorted(self.routes(id))
    }

    /// Where a step leads, and on what terms, in the order of its connections.
    pub open spec fn routes(self, id: Seq<char>) -> Seq<RouteModel> {
        self.edges_from(id).map_values(
            |e: EdgeModel| RouteModel { to: e.to, condition: e.condition },
        )
    }

    /// Whether a draft drops or rewrites a step of this plan, or the plan inside the
    /// step.
    pub open spec fn rewritten(self, draft: GraphModel, settled: NodeModel) -> bool
        decreases settled,
    {
        match draft.node(settled.id) {
            None => true,
            Some(drafted) => {
                ||| drafted.title != settled.title
                ||| text::trimmed(drafted.intent) != text::trimmed(settled.intent)
                ||| drafted.rules != settled.rules
                ||| text::trimmed(drafted.capture) != text::trimmed(settled.capture)
                ||| draft.routes_from(settled.id) != self.routes_from(settled.id)
                ||| match drafted.subplan {
                    Some(inner) => match settled.subplan {
                        Some(g) => *inner != *g && !g.restated(*inner),
                        None => inner.nodes.len() > 0,
                    },
                    None => false,
                }
            },
        }
    }

    /// Whether a draft has just the steps of this plan, and rewrites none of them.
    pub open spec fn restated(self, draft: GraphModel) -> bool
        decreases self,
    {
        &&& forall|i: int|
            0 <= i < draft.nodes.len() ==> self.has_node((#[trigger] draft.nodes[i]).id)
        &&& forall|i: int|
            #![trigger self.nodes[i]]
            0 <= i < self.nodes.len() ==> !self.rewritten(draft, self.nodes[i])
    }

    /// The titles of the locked steps that a draft would change, at any depth, in
    /// order. Of a step and those inside it the outermost stands for all.
    pub open spec fn refused(self, draft: GraphModel) -> Seq<Seq<char>>
        decreases self, self.nodes.len() + 1,
    {
        self.refused_among(draft, self.nodes.len())
    }

    /// The titles of those among the first `k` steps, or inside them.
    pub open spec fn refused_among(self, draft: GraphModel, k: nat) -> Seq<Seq<char>>
        decreases self, k,
    {
        if k == 0 || k > self.nodes.len() {
            Seq::empty()
        } else {
            let node = self.nodes[k - 1];
            self.refused_among(draft, (k - 1) as nat) + if node.locked && self.rewritten(
                draft,
                node,
            ) {
                seq![node.title]
            } else {
                node.refused_inside(draft.node(node.id))
            }
        }
    }

    /// The draft with everything this plan had decided.
    pub open spec fn merged(self, draft: GraphModel) -> GraphModel
        decreases draft,
    {
        GraphModel {
            nodes: Seq::new(
                draft.nodes.len(),
                |i: int|
                    if 0 <= i < draft.nodes.len() {
                        match self.node(draft.nodes[i].id) {
                            Some(existing) => carried(existing, draft.nodes[i]),
                            None => draft.nodes[i],
                        }
                    } else {
                        arbitrary()
                    },
            ),
            edges: draft.edges,
        }
    }

    /// Whether a drafted step keeps something the draft did not carry.
    pub open spec fn keeps(self, drafted: NodeModel) -> bool {
        match self.node(drafted.id) {
            Some(existing) => keeps_something(existing, drafted),
            None => false,
        }
    }

    /// The ids of the drafted steps that keep something the draft did not carry.
    pub open spec fn preserved(self, draft: GraphModel) -> Seq<Seq<char>> {
        draft.nodes.filter(|n: NodeModel| self.keeps(n)).map_values(|n: NodeModel| n.id)
    }
}

impl NodeModel {
    /// The titles of the locked steps inside this one that a draft of it would
    /// change. A draft without a plan inside leaves the one that is there, and so does
    /// one with the same plan.
    pub open spec fn refused_inside(self, drafted: Option<NodeModel>) -> Seq<Seq<char>>
        decreases self,
    {
        match self.subplan {
            Some(g) => match drafted {
                Some(step) => match step.subplan {
                    Some(inner) => if *inner == *g {
                        Seq::empty()
                    } else {
                        g.refused(*inner)
                    },
                    None => Seq::empty(),
                },
                None => g.refused(GraphModel::empty()),
            },
            None => Seq::empty(),
        }
    }
}

/// Whether a draft leaves out text that is there.
pub open spec fn left_out(existing: Seq<char>, drafted: Seq<char>) -> bool {
    text::is_blank(drafted) && !text::is_blank(existing)
}

/// A drafted step with what was decided about the step it replaces. Detail a
/// draft leaves blank is detail it did not mean to remove.
pub open spec fn carried(existing: NodeModel, drafted: NodeModel) -> NodeModel
    decreases drafted,
{
    NodeModel {
        id: drafted.id,
        title: drafted.title,
        intent: if left_out(existing.intent, drafted.intent) {
            existing.intent
        } else {
            drafted.intent
        },
        rules: if drafted.rules.len() == 0 {
            existing.rules
        } else {
            drafted.rules
        },
        capture: if left_out(existing.capture, drafted.capture) {
            existing.capture
        } else {
            drafted.capture
        },
        pinned: existing.pinned,
        position: existing.position,
        locked: existing.locked,
        chat: existing.chat,
        subplan: match drafted.subplan {
            Some(inner) => match existing.subplan {
                Some(g) => if *inner == *g {
                    drafted.subplan
                } else {
                    Some(Box::new(g.merged(*inner)))
                },
                None => drafted.subplan,
            },
            None => existing.subplan,
        },
        result: existing.result,
    }
}

/// Whether a drafted step keeps something the draft did not carry: detail it left blank,
/// a conversation of its own, a result, or a plan inside that it left out.
pub open spec fn keeps_something(existing: NodeModel, drafted: NodeModel) -> bool {
    ||| left_out(existing.intent, drafted.intent)
    ||| drafted.rules.len() == 0 && existing.rules.len() > 0
    ||| left_out(existing.capture, drafted.capture)
    ||| existing.chat is Some
    ||| existing.result is Some
    ||| drafted.subplan is None && existing.nested() is Some
}

struct Route {
    to: String,
    condition: EdgeCondition,
}

impl Route {
    spec fn model(&self) -> RouteModel {
        RouteModel { to: self.to@, condition: self.condition@ }
    }

    fn before(&self, other: &Route) -> (res: bool)
        ensures
            res == self.model().before(other.model()),
    {
        let mine = match self.condition.label() {
            Some(label) => label.to_owned(),
            None => String::new(),
        };
        let theirs = match other.condition.label() {
            Some(label) => label.to_owned(),
            None => String::new(),
        };
        proof {
            text::lemma_before_total(self.to@, other.to@);
            text::lemma_before_total(mine@, theirs@);
            assert(mine@ =~= self.model().words());
            assert(theirs@ =~= other.model().words());
        }
        if self.to != other.to {
            text::less(self.to.as_str(), other.to.as_str())
        } else if mine != theirs {
            text::less(mine.as_str(), theirs.as_str())
        } else {
            self.kind() < other.kind()
        }
    }

    fn kind(&self) -> (res: u8)
        ensures
            res == self.model().kind(),
    {
        match &self.condition {
            EdgeCondition::Always => 0,
            EdgeCondition::Deterministic { .. } => 1,
            EdgeCondition::LlmEvaluated { .. } => 2,
        }
    }
}

proof fn lemma_with_route(routes: Seq<RouteModel>, route: RouteModel, p: int)
    requires
        0 <= p <= routes.len(),
        forall|i: int| p <= i < routes.len() ==> route.before(#[trigger] routes[i]),
        p > 0 ==> !route.before(routes[p - 1]),
    ensures
        with_route(routes, route) == routes.insert(p, route),
    decreases routes.len(),
{
    if p == routes.len() {
        assert(routes.insert(p, route) =~= routes.push(route));
    } else {
        assert(routes.last() == routes[routes.len() - 1]);
        lemma_with_route(routes.drop_last(), route, p);
        assert(routes.insert(p, route) =~= routes.drop_last().insert(p, route).push(routes.last()));
    }
}

spec fn route_models(routes: Seq<Route>) -> Seq<RouteModel> {
    routes.map_values(|r: Route| r.model())
}

fn routes_from(graph: &ArchitectGraph, id: &NodeId) -> (res: Vec<Route>)
    ensures
        route_models(res@) == graph@.routes_from(id@),
{
    let edges = graph.edges_from(id);
    let ghost all = graph@.edges_from(id@);
    let ghost f = |e: EdgeModel| RouteModel { to: e.to, condition: e.condition };
    let ghost given = all.map_values(f);
    let mut out: Vec<Route> = Vec::new();
    proof {
        assert(edges@.map_values(|e: &crate::graph::ArchitectEdge| e@).len() == edges@.len());
        assert(route_models(out@) =~= given.take(0));
    }
    for k in 0..edges.len()
        invariant
            all == edges@.map_values(|e: &crate::graph::ArchitectEdge| e@),
            f == (|e: EdgeModel| RouteModel { to: e.to, condition: e.condition }),
            given == all.map_values(f),
            route_models(out@) == routes_sorted(given.take(k as int)),
    {
        let edge = edges[k];
        let route = Route { to: edge.to.0.clone(), condition: edge.condition.clone() };
        let ghost model = route.model();
        let mut p: usize = out.len();
        while p > 0 && route.before(&out[p - 1])
            invariant
                p <= out@.len(),
                model == route.model(),
                forall|i: int|
                    p <= i < out@.len() ==> model.before(#[trigger] route_models(out@)[i]),
            ensures
                p > 0 ==> !model.before(route_models(out@)[p - 1]),
            decreases p,
        {
            p -= 1;
        }
        let ghost before = out@;
        out.insert(p, route);
        proof {
            lemma_with_route(route_models(before), model, p as int);
            assert(route_models(out@) =~= route_models(before).insert(p as int, model));
            assert(given.take(k + 1).drop_last() =~= given.take(k as int));
            assert(all[k as int] == edge@);
            assert(given.take(k + 1).last() == model);
        }
    }
    proof {
        assert(given.take(given.len() as int) =~= given);
    }
    out
}

fn same_routes(a: &Vec<Route>, b: &Vec<Route>) -> (res: bool)
    ensures
        res == (route_models(a@) == route_models(b@)),
{
    let ghost x = route_models(a@);
    let ghost y = route_models(b@);
    proof {
        assert(x.len() == a@.len());
        assert(y.len() == b@.len());
    }
    if a.len() != b.len() {
        return false;
    }
    for k in 0..a.len()
        invariant
            x == route_models(a@),
            y == route_models(b@),
            a@.len() == b@.len(),
            forall|i: int| 0 <= i < k ==> x[i] == y[i],
    {
        proof {
            assert(x[k as int] == a@[k as int].model());
            assert(y[k as int] == b@[k as int].model());
        }
        if a[k].to != b[k].to || !a[k].condition.same(&b[k].condition) {
            proof {
                assert(x[k as int] != y[k as int]);
            }
            return false;
        }
    }
    proof {
        assert(x =~= y);
    }
    true
}

/// Carries what was decided about a step over to a draft of it, and tells whether
/// the draft kept something it did not carry.
fn carry_over(existing: &ArchitectNode, node: &mut ArchitectNode) -> (kept: bool)
    ensures
        final(node)@ == carried(existing@, old(node)@),
        kept == keeps_something(existing@, old(node)@),
    decreases *old(node),
{
    let ghost before = *node;
    proof {
        assert(graph::texts(existing.rules@).len() == existing.rules@.len());
        assert(graph::texts(before.rules@).len() == before.rules@.len());
    }
    // None of this can be re-derived from a draft: whether the user settled the
    // step, where they put it, the conversation they settled it in, what it
    // reported when it ran, and the plan inside it.
    node.locked = existing.locked;
    node.pinned = existing.pinned;
    node.position = existing.position;
    node.chat = clone_chat(&existing.chat);
    node.result = clone_result(&existing.result);
    let mut kept = existing.chat.is_some() || existing.result.is_some();
    if node.subplan.is_none() {
        kept = kept || existing.has_subplan();
        node.subplan = match &existing.subplan {
            Some(g) => Some(Box::new((**g).clone())),
            None => None,
        };
    } else if let Some(g) = &existing.subplan {
        if let Some(inner) = &mut node.subplan {
            if !inner.same(g) {
                let _ = g.merge_over(inner);
            }
        }
    }
    // Detail a draft leaves blank is detail it did not mean to remove. A redraw
    // that only changes the shape of the plan should not empty out the steps it
    // keeps.
    if text::blank(node.intent.as_str()) && !text::blank(existing.intent.as_str()) {
        node.intent = existing.intent.clone();
        kept = true;
    }
    if node.rules.len() == 0 && existing.rules.len() > 0 {
        node.rules = clone_texts(&existing.rules);
        kept = true;
    }
    if text::blank(node.capture.as_str()) && !text::blank(existing.capture.as_str()) {
        node.capture = existing.capture.clone();
        kept = true;
    }
    proof {
        assert(node@.rules =~= carried(existing@, before@).rules);
        assert(node@ =~= carried(existing@, before@));
    }
    kept
}

impl ArchitectGraph {
    fn is_rewritten(&self, draft: &ArchitectGraph, settled: &ArchitectNode) -> (res: bool)
        ensures
            res == self@.rewritten(draft@, settled@),
        decreases settled,
    {
        match draft.node(&settled.id) {
            None => true,
            Some(drafted) => {
                let title = drafted.title != settled.title;
                let intent = !text::same(
                    text::trim(drafted.intent.as_str()),
                    text::trim(settled.intent.as_str()),
                );
                let rules = !text::same_texts(&drafted.rules, &settled.rules);
                let capture = !text::same(
                    text::trim(drafted.capture.as_str()),
                    text::trim(settled.capture.as_str()),
                );
                let routes = !same_routes(
                    &routes_from(draft, &settled.id),
                    &routes_from(self, &settled.id),
                );
                let inside = match &drafted.subplan {
                    Some(inner) => match &settled.subplan {
                        Some(g) => !inner.same(g) && !g.is_restated(inner),
                        None => {
                            proof {
                                inner.lemma_view();
                            }
                            inner.nodes.len() > 0
                        },
                    },
                    None => false,
                };
                title || intent || rules || capture || routes || inside
            },
        }
    }

    fn is_restated(&self, draft: &ArchitectGraph) -> (res: bool)
        ensures
            res == self@.restated(draft@),
        decreases self,
    {
        proof {
            self.lemma_view();
            draft.lemma_view();
        }
        for k in 0..draft.nodes.len()
            invariant
                draft@.nodes.len() == draft.nodes@.len(),
                forall|i: int| 0 <= i < k ==> self@.has_node((#[trigger] draft@.nodes[i]).id),
        {
            proof {
                draft.lemma_view();
                assert(draft@.nodes[k as int] == draft.nodes@[k as int]@);
                self@.lemma_node(draft.nodes@[k as int].id@);
            }
            if self.node(&draft.nodes[k].id).is_none() {
                return false;
            }
        }
        for k in 0..self.nodes.len()
            invariant
                self@.nodes.len() == self.nodes@.len(),
                forall|i: int|
                    #![trigger self@.nodes[i]]
                    0 <= i < k ==> !self@.rewritten(draft@, self@.nodes[i]),
        {
            let node = &self.nodes[k];
            proof {
                self.lemma_view();
                assert(self@.nodes[k as int] == node@);
            }
            if self.is_rewritten(draft, node) {
                return false;
            }
        }
        true
    }

    /// Adds the titles of the locked steps that a draft would change.
    fn refuse_steps(&self, draft: &ArchitectGraph, out: &mut Vec<String>)
        ensures
            graph::texts(final(out)@) == graph::texts(old(out)@) + self@.refused(draft@),
        decreases self,
    {
        let ghost start = graph::texts(out@);
        proof {
            self.lemma_view();
            assert(start + self@.refused_among(draft@, 0) =~= start);
        }
        for k in 0..self.nodes.len()
            invariant
                self@.nodes.len() == self.nodes@.len(),
                graph::texts(out@) == start + self@.refused_among(draft@, k as nat),
        {
            let node = &self.nodes[k];
            let ghost before = graph::texts(out@);
            proof {
                self.lemma_view();
                assert(self@.nodes[k as int] == node@);
            }
            if node.locked && self.is_rewritten(draft, node) {
                out.push(node.title.clone());
                proof {
                    assert(graph::texts(out@) =~= before + seq![node.title@]);
                }
            } else if let Some(inside) = &node.subplan {
                match draft.node(&node.id) {
                    Some(drafted) => {
                        if let Some(inner) = &drafted.subplan {
                            if !inner.same(inside) {
                                inside.refuse_steps(inner, out);
                            }
                        }
                    },
                    None => {
                        let nothing = ArchitectGraph::default();
                        proof {
                            nothing.lemma_view();
                            assert(nothing@ =~= GraphModel::empty());
                        }
                        inside.refuse_steps(&nothing, out);
                    },
                }
            }
            proof {
                let added = if node@.locked && self@.rewritten(draft@, node@) {
                    seq![node@.title]
                } else {
                    node@.refused_inside(draft@.node(node@.id))
                };
                assert(graph::texts(out@) =~= before + added);
                assert(before + added =~= start + self@.refused_among(draft@, (k + 1) as nat));
            }
        }
    }

    /// Carries what was decided about the steps of this plan over to a draft, and
    /// hands back the drafted steps that kept something.
    fn merge_over(&self, draft: &mut ArchitectGraph) -> (preserved: Vec<NodeId>)
        ensures
            final(draft)@ == self@.merged(old(draft)@),
            graph::ids(preserved@) == self@.preserved(old(draft)@),
        decreases *old(draft),
    {
        let ghost given = *draft;
        let mut preserved: Vec<NodeId> = Vec::new();
        let ghost p = |n: NodeModel| self@.keeps(n);
        let ghost id_of = |n: NodeModel| n.id;
        proof {
            reveal(Seq::filter);
            given.lemma_view();
            assert(graph::ids(preserved@) =~= given@.nodes.take(0).filter(p).map_values(id_of));
        }
        let mut k: usize = 0;
        while k < draft.nodes.len()
            invariant
                given == *old(draft),
                k <= draft.nodes@.len(),
                draft.nodes@.len() == given.nodes@.len(),
                given@.nodes.len() == given.nodes@.len(),
                draft.edges == given.edges,
                p == (|n: NodeModel| self@.keeps(n)),
                id_of == (|n: NodeModel| n.id),
                forall|i: int|
                    0 <= i < k ==> (#[trigger] draft.nodes@[i])@ == self@.merged(given@).nodes[i],
                forall|i: int|
                    k <= i < draft.nodes@.len() ==> #[trigger] draft.nodes@[i] == given.nodes@[i],
                graph::ids(preserved@) == given@.nodes.take(k as int).filter(p).map_values(id_of),
            decreases draft.nodes@.len() - k,
        {
            let ghost node = given@.nodes[k as int];
            proof {
                given.lemma_view();
                assert(given@.nodes[k as int] == given.nodes@[k as int]@);
                model::lemma_filter_take(given@.nodes, p, k as int);
            }
            if let Some(existing) = self.node(&draft.nodes[k].id) {
                let kept = carry_over(existing, &mut draft.nodes[k]);
                if kept {
                    let ghost before = preserved@;
                    let ghost passed = given@.nodes.take(k as int).filter(p);
                    let id = draft.nodes[k].id.clone();
                    preserved.push(id);
                    proof {
                        assert(graph::ids(preserved@) =~= graph::ids(before).push(node.id));
                        assert(passed.push(node).map_values(id_of) =~= passed.map_values(
                            id_of,
                        ).push(node.id));
                    }
                }
            }
            k += 1;
        }
        proof {
            draft.lemma_view();
            given.lemma_view();
            assert(given@.nodes.take(given@.nodes.len() as int) =~= given@.nodes);
            assert(draft@.nodes =~= self@.merged(given@).nodes);
            assert(draft@.edges =~= given@.edges);
        }
        preserved
    }

    /// Lays a fresh draft over this plan, keeping what a draft cannot know.
    ///
    /// Structure is the draft's business: which steps exist and what leads where.
    /// Everything that was decided about a step, rather than proposed, is this
    /// plan's business and is carried across.
    pub fn merge_draft(&self, draft: ArchitectGraph) -> (res: Result<
        MergedDraft,
        LockedStepsWouldChange,
    >)
        ensures
            match res {
                Ok(merge) => self@.refused(draft@).len() == 0 && merge.graph@ == self@.merged(
                    draft@,
                ) && graph::ids(merge.preserved@) == self@.preserved(draft@),
                Err(refusal) => self@.refused(draft@).len() > 0 && graph::texts(refusal.steps@)
                    == self@.refused(draft@),
            },
    {
        let mut refused: Vec<String> = Vec::new();
        proof {
            assert(graph::texts(refused@) =~= Seq::empty());
        }
        self.refuse_steps(&draft, &mut refused);
        proof {
            assert(Seq::<Seq<char>>::empty() + self@.refused(draft@) =~= self@.refused(draft@));
            assert(graph::texts(refused@).len() == refused@.len());
        }
        if refused.len() > 0 {
            return Err(LockedStepsWouldChange { steps: refused });
        }
        let mut draft = draft;
        let preserved = self.merge_over(&mut draft);
        Ok(MergedDraft { graph: draft, preserved })
    }
}

/// Whether routes are in order.
pub open spec fn in_order(routes: Seq<RouteModel>) -> bool {
    forall|i: int, j: int|
        #![trigger routes[i], routes[j]]
        0 <= i < j < routes.len() ==> !routes[j].before(routes[i])
}

proof fn lemma_with_route_in_order(routes: Seq<RouteModel>, route: RouteModel)
    requires
        in_order(routes),
    ensures
        in_order(with_route(routes, route)),
        with_route(routes, route).to_multiset() == routes.to_multiset().insert(route),
        forall|i: int|
            0 <= i < with_route(routes, route).len() ==> #[trigger] with_route(routes, route)[i]
                == route || routes.contains(with_route(routes, route)[i]),
    decreases routes.len(),
{
    let after = with_route(routes, route);
    if routes.len() > 0 && route.before(routes.last()) {
        let init = routes.drop_last();
        let last = routes.last();
        lemma_with_route_in_order(init, route);
        let rest = with_route(init, route);
        vstd::seq_lib::to_multiset_build(rest, last);
        vstd::seq_lib::to_multiset_build(init, last);
        assert(init.push(last) =~= routes);
        assert(after.to_multiset() =~= routes.to_multiset().insert(route));
        assert forall|i: int| 0 <= i < after.len() implies #[trigger] after[i] == route
            || routes.contains(after[i]) by {
            if i < rest.len() {
                assert(after[i] == rest[i]);
                if rest[i] != route {
                    let k = choose|k: int| 0 <= k < init.len() && init[k] == rest[i];
                    assert(routes[k] == after[i]);
                }
            } else {
                assert(routes[routes.len() - 1] == after[i]);
            }
        }
        assert forall|i: int, j: int|
            #![trigger after[i], after[j]]
            0 <= i < j < after.len() implies !after[j].before(after[i]) by {
            if j < rest.len() {
                assert(after[i] == rest[i] && after[j] == rest[j]);
            } else {
                assert(after[i] == rest[i]);
                if rest[i] == route {
                    route.lemma_before_total(last);
                } else {
                    let k = choose|k: int| 0 <= k < init.len() && init[k] == rest[i];
                    assert(routes[k] == rest[i]);
                    assert(!routes[routes.len() - 1].before(routes[k]));
                }
            }
        }
    } else {
        vstd::seq_lib::to_multiset_build(routes, route);
        assert forall|i: int| 0 <= i < after.len() implies #[trigger] after[i] == route
            || routes.contains(after[i]) by {
            if i < routes.len() {
                assert(routes[i] == after[i]);
            }
        }
        assert forall|i: int, j: int|
            #![trigger after[i], after[j]]
            0 <= i < j < after.len() implies !after[j].before(after[i]) by {
            if j < routes.len() {
                assert(after[i] == routes[i] && after[j] == routes[j]);
            } else {
                let last = routes.last();
                assert(routes[routes.len() - 1] == last);
                if i < routes.len() - 1 {
                    assert(!last.before(routes[i]));
                    if route.before(routes[i]) {
                        route.lemma_before_total(last);
                        if last != route {
                            last.lemma_before_transitive(route, routes[i]);
                        }
                    }
                }
            }
        }
    }
}

proof fn lemma_routes_sorted(routes: Seq<RouteModel>)
    ensures
        in_order(routes_sorted(routes)),
        routes_sorted(routes).to_multiset() == routes.to_multiset(),
    decreases routes.len(),
{
    if routes.len() > 0 {
        let init = routes.drop_last();
        lemma_routes_sorted(init);
        lemma_with_route_in_order(routes_sorted(init), routes.last());
        vstd::seq_lib::to_multiset_build(init, routes.last());
        assert(init.push(routes.last()) =~= routes);
    }
}

/// The routing of a step is listed in order of where it leads, and holds just what its
/// connections say.
pub proof fn law_routes_are_listed_in_order(plan: GraphModel, id: Seq<char>)
    ensures
        plan.routes_from(id).to_multiset() == plan.routes(id).to_multiset(),
        forall|i: int, j: int|
            #![trigger plan.routes_from(id)[i], plan.routes_from(id)[j]]
            0 <= i < j < plan.routes_from(id).len() ==> !text::comes_before(
                plan.routes_from(id)[j].to,
                plan.routes_from(id)[i].to,
            ),
        in_order(plan.routes_from(id)),
{
    lemma_routes_sorted(plan.routes(id));
}

/// The same routing written in a different order still matches: two plans in which a
/// step leads to the same places on the same terms list the same routes for it.
pub proof fn law_routing_ignores_order(plan: GraphModel, other: GraphModel, id: Seq<char>)
    requires
        plan.routes(id).to_multiset() == other.routes(id).to_multiset(),
    ensures
        plan.routes_from(id) == other.routes_from(id),
{
    let leq = |a: RouteModel, b: RouteModel| !b.before(a);
    let x = plan.routes_from(id);
    let y = other.routes_from(id);
    lemma_routes_sorted(plan.routes(id));
    lemma_routes_sorted(other.routes(id));
    assert forall|a: RouteModel, b: RouteModel| #[trigger] leq(a, b) && #[trigger]
        leq(b, a) implies a == b by {
        a.lemma_before_total(b);
    }
    assert forall|a: RouteModel| #[trigger] leq(a, a) by {
        a.lemma_before_total(a);
    }
    assert forall|a: RouteModel, b: RouteModel| #[trigger] leq(a, b) || #[trigger] leq(b, a) by {
        a.lemma_before_total(b);
    }
    assert forall|a: RouteModel, b: RouteModel, c: RouteModel| #[trigger] leq(a, b) && #[trigger]
        leq(b, c) implies leq(a, c) by {
        a.lemma_before_total(b);
        b.lemma_before_total(c);
        if c.before(a) {
            if a != b {
                c.lemma_before_transitive(a, b);
            }
        }
    }
    assert(vstd::relations::sorted_by(x, leq));
    assert(vstd::relations::sorted_by(y, leq));
    vstd::seq_lib::lemma_sorted_unique(x, y, leq);
}

proof fn lemma_refused_grows(plan: GraphModel, draft: GraphModel, k: nat, n: nat)
    requires
        k <= n <= plan.nodes.len(),
    ensures
        plan.refused_among(draft, k).len() <= plan.refused_among(draft, n).len(),
    decreases n,
{
    if k < n {
        lemma_refused_grows(plan, draft, k, (n - 1) as nat);
    }
}

/// What a draft that is not refused leaves of one step of a plan.
pub proof fn lemma_not_refused(plan: GraphModel, draft: GraphModel, i: int)
    requires
        plan.refused(draft).len() == 0,
        0 <= i < plan.nodes.len(),
    ensures
        plan.nodes[i].locked ==> !plan.rewritten(draft, plan.nodes[i]),
        plan.nodes[i].refused_inside(draft.node(plan.nodes[i].id)).len() == 0,
{
    lemma_refused_grows(plan, draft, (i + 1) as nat, plan.nodes.len());
    let rest = plan.refused_among(draft, i as nat);
    assert(plan.refused_among(draft, (i + 1) as nat).len() >= rest.len());
}

/// Where a drafted step stands in the merged plan.
proof fn lemma_merged_node(plan: GraphModel, draft: GraphModel, id: Seq<char>)
    requires
        plan.node(id) is Some,
    ensures
        plan.merged(draft).node(id) == (match draft.node(id) {
            Some(drafted) => Some(carried(plan.node(id)->0, drafted)),
            None => None,
        }),
{
    let merged = plan.merged(draft);
    draft.lemma_node(id);
    merged.lemma_node(id);
    match draft.node_index(id) {
        Some(j) => {
            assert(merged.nodes[j].id == id);
            assert forall|k: int| 0 <= k < j implies (#[trigger] merged.nodes[k]).id != id by {
                assert(draft.nodes[k].id != id);
            }
            merged.lemma_index(id, j);
        },
        None => {
            if let Some(k) = merged.node_index(id) {
                assert(draft.nodes[k].id == id);
            }
        },
    }
}

/// A draft that is merged leaves every locked step as it was settled, in the plan and
/// in the plans nested inside it: it is still there, still locked, says the same and
/// leads to the same places on the same terms.
pub proof fn law_merged_draft_keeps_locked_steps(
    plan: GraphModel,
    draft: GraphModel,
    path: Seq<Seq<char>>,
)
    requires
        plan.refused(draft).len() == 0,
        plan.node_at(path) is Some,
        plan.node_at(path)->0.locked,
    ensures
        plan.merged(draft).node_at(path) matches Some(kept) && {
            let settled = plan.node_at(path)->0;
            let before = plan.graph_at(path.drop_last())->0;
            let after = plan.merged(draft).graph_at(path.drop_last())->0;
            &&& kept.locked
            &&& kept.title == settled.title
            &&& text::trimmed(kept.intent) == text::trimmed(settled.intent)
            &&& kept.rules == settled.rules
            &&& text::trimmed(kept.capture) == text::trimmed(settled.capture)
            &&& after.routes_from(path.last()) == before.routes_from(path.last())
        },
    decreases path.len(),
{
    let merged = plan.merged(draft);
    let id = path[0];
    if path.len() > 1 {
        assert(path.drop_last()[0] == id);
    } else {
        assert(path.drop_last() =~= Seq::empty());
    }
    plan.lemma_node(id);
    let i = plan.node_index(id)->0;
    let node = plan.nodes[i];
    lemma_not_refused(plan, draft, i);
    lemma_merged_node(plan, draft, id);
    if path.len() == 1 {
        assert(merged.edges_from(id) == draft.edges_from(id));
        assert(merged.routes(id) == draft.routes(id));
    } else {
        let tail = path.skip(1);
        assert(path.drop_last().skip(1) =~= tail.drop_last());
        assert(path.last() == tail.last());
        let g = *node.subplan->0;
        assert(g.node_at(tail) == plan.node_at(path));
        match draft.node(id) {
            None => {
                law_merged_draft_keeps_locked_steps(g, GraphModel::empty(), tail);
                let nothing = g.merged(GraphModel::empty());
                assert(nothing.nodes.len() == 0);
                if tail.len() == 1 {
                    assert(tail.drop_last() =~= Seq::empty());
                    nothing.lemma_node(tail[0]);
                } else {
                    nothing.lemma_node(tail.drop_last()[0]);
                }
                assert(false);
            },
            Some(drafted) => {
                let kept = merged.node(id)->0;
                if drafted.subplan is Some && *drafted.subplan->0 != g {
                    let inner = drafted.subplan->0;
                    law_merged_draft_keeps_locked_steps(g, *inner, tail);
                    let within = g.merged(*inner);
                    if within.nodes.len() == 0 {
                        if tail.len() == 1 {
                            assert(tail.drop_last() =~= Seq::empty());
                            within.lemma_node(tail[0]);
                        } else {
                            within.lemma_node(tail.drop_last()[0]);
                        }
                    }
                    assert(kept.nested() == Some(within));
                    assert(merged.graph_at(path.drop_last()) == within.graph_at(tail.drop_last()));
                } else {
                    assert(kept.nested() == Some(g));
                    assert(merged.graph_at(path.drop_last()) == g.graph_at(tail.drop_last()));
                }
            },
        }
    }
}

/// Restating a plan exactly is never refused and changes nothing, whatever is locked and
/// whatever its nested plans are.
pub proof fn law_restating_a_plan_changes_nothing(plan: GraphModel)
    requires
        forall|i: int, j: int|
            0 <= i < j < plan.nodes.len() ==> plan.nodes[i].id != plan.nodes[j].id,
    ensures
        plan.refused(plan).len() == 0,
        plan.merged(plan) == plan,
{
    assert forall|i: int| 0 <= i < plan.nodes.len() implies plan.node(
        (#[trigger] plan.nodes[i]).id,
    ) == Some(plan.nodes[i]) by {
        assert(plan.is_index(plan.nodes[i].id, i));
        plan.lemma_index(plan.nodes[i].id, i);
    }
    lemma_restated_refuses_nothing(plan, plan.nodes.len());
    assert(plan.merged(plan).nodes =~= plan.nodes) by {
        assert forall|i: int| 0 <= i < plan.nodes.len() implies plan.merged(plan).nodes[i]
            == plan.nodes[i] by {
            let node = plan.nodes[i];
            assert(plan.node(node.id) == Some(node));
            assert(carried(node, node) =~= node);
        }
    }
}

proof fn lemma_restated_refuses_nothing(plan: GraphModel, k: nat)
    requires
        k <= plan.nodes.len(),
        forall|i: int|
            0 <= i < plan.nodes.len() ==> plan.node((#[trigger] plan.nodes[i]).id) == Some(
                plan.nodes[i],
            ),
    ensures
        plan.refused_among(plan, k).len() == 0,
    decreases k,
{
    if k > 0 {
        lemma_restated_refuses_nothing(plan, (k - 1) as nat);
        let node = plan.nodes[k - 1];
        assert(plan.node(node.id) == Some(node));
        assert(!plan.rewritten(plan, node));
        assert(node.refused_inside(plan.node(node.id)).len() == 0);
    }
}

/// Merging a draft never changes what only the user or a run decides about a step:
/// whether it is locked or pinned, where it stands, its conversation, its result. The
/// plan inside it stays where the draft has none or the same; where the draft has another,
/// it is merged with the one that is there, so the same holds of its steps.
pub proof fn law_merge_keeps_what_was_decided(plan: GraphModel, draft: GraphModel, i: int)
    requires
        0 <= i < draft.nodes.len(),
        plan.node(draft.nodes[i].id) is Some,
    ensures
        ({
            let before = plan.node(draft.nodes[i].id)->0;
            let after = plan.merged(draft).nodes[i];
            &&& after.locked == before.locked
            &&& after.pinned == before.pinned
            &&& after.position == before.position
            &&& after.chat == before.chat
            &&& after.result == before.result
            &&& before.subplan is Some ==> after.subplan is Some
            &&& draft.nodes[i].subplan is None ==> after.subplan == before.subplan
            &&& draft.nodes[i].subplan is Some && before.subplan is Some && draft.nodes[i].subplan
                != before.subplan ==> *after.subplan->0 == before.subplan->0.merged(
                *draft.nodes[i].subplan->0,
            )
            &&& draft.nodes[i].subplan == before.subplan ==> after.subplan == before.subplan
            &&& !text::is_blank(before.intent) ==> !text::is_blank(after.intent)
            &&& before.rules.len() > 0 ==> after.rules.len() > 0
            &&& !text::is_blank(before.capture) ==> !text::is_blank(after.capture)
        }),
{
}

/// How many connections of a plan lead from one step to another on given terms.
pub open spec fn connections(
    plan: GraphModel,
    from: Seq<char>,
    to: Seq<char>,
    condition: ConditionModel,
) -> nat {
    plan.edges.filter(
        |e: EdgeModel| e.from == from && e.to == to && e.condition == condition,
    ).len()
}

proof fn lemma_routes_count(
    edges: Seq<EdgeModel>,
    from: Seq<char>,
    to: Seq<char>,
    condition: ConditionModel,
)
    ensures
        edges.filter(|e: EdgeModel| e.from == from).map_values(
            |e: EdgeModel| RouteModel { to: e.to, condition: e.condition },
        ).to_multiset().count(RouteModel { to, condition }) == edges.filter(
            |e: EdgeModel| e.from == from && e.to == to && e.condition == condition,
        ).len(),
    decreases edges.len(),
{
    reveal(Seq::filter);
    let leaves = |e: EdgeModel| e.from == from;
    let matches = |e: EdgeModel| e.from == from && e.to == to && e.condition == condition;
    let f = |e: EdgeModel| RouteModel { to: e.to, condition: e.condition };
    let route = RouteModel { to, condition };
    if edges.len() == 0 {
        assert(edges.filter(leaves).map_values(f) =~= Seq::empty());
        edges.filter(leaves).map_values(f).to_multiset_ensures();
    } else {
        let rest = edges.drop_last();
        let last = edges.last();
        lemma_routes_count(rest, from, to, condition);
        if leaves(last) {
            let before = rest.filter(leaves).map_values(f);
            assert(edges.filter(leaves).map_values(f) =~= before.push(f(last)));
            vstd::seq_lib::to_multiset_build(before, f(last));
        }
    }
}

/// A draft that drops a locked step, says anything else of it, or has it lead anywhere
/// else or on other terms, is refused, and the refusal names the step.
pub proof fn law_changes_to_locked_steps_are_refused(
    plan: GraphModel,
    draft: GraphModel,
    i: int,
    to: Seq<char>,
    condition: ConditionModel,
)
    requires
        0 <= i < plan.nodes.len(),
        plan.nodes[i].locked,
        ({
            let settled = plan.nodes[i];
            ||| !draft.has_node(settled.id)
            ||| draft.node(settled.id) matches Some(drafted) && {
                ||| drafted.title != settled.title
                ||| text::trimmed(drafted.intent) != text::trimmed(settled.intent)
                ||| drafted.rules != settled.rules
                ||| text::trimmed(drafted.capture) != text::trimmed(settled.capture)
                ||| connections(draft, settled.id, to, condition) != connections(
                    plan,
                    settled.id,
                    to,
                    condition,
                )
            }
        }),
    ensures
        plan.refused(draft).contains(plan.nodes[i].title),
{
    let settled = plan.nodes[i];
    draft.lemma_node(settled.id);
    lemma_routes_sorted(plan.routes(settled.id));
    lemma_routes_sorted(draft.routes(settled.id));
    lemma_routes_count(plan.edges, settled.id, to, condition);
    lemma_routes_count(draft.edges, settled.id, to, condition);
    assert(plan.rewritten(draft, settled));
    lemma_refused_listed(plan, draft, plan.nodes.len(), i);
}

proof fn lemma_refused_listed(plan: GraphModel, draft: GraphModel, k: nat, i: int)
    requires
        0 <= i < k <= plan.nodes.len(),
        plan.nodes[i].locked,
        plan.rewritten(draft, plan.nodes[i]),
    ensures
        plan.refused_among(draft, k).contains(plan.nodes[i].title),
    decreases k,
{
    let all = plan.refused_among(draft, k);
    let rest = plan.refused_among(draft, (k - 1) as nat);
    if i == k - 1 {
        assert(all[rest.len() as int] == plan.nodes[i].title);
    } else {
        lemma_refused_listed(plan, draft, (k - 1) as nat, i);
        let j = choose|j: int| 0 <= j < rest.len() && rest[j] == plan.nodes[i].title;
        assert(all[j] == plan.nodes[i].title);
    }
}

/// A draft that states every locked step as it is, connections included in whatever
/// order, and leaves nested plans as they are, is not refused, whatever else it changes.
pub proof fn law_drafts_that_keep_locked_steps_are_taken(plan: GraphModel, draft: GraphModel)
    requires
        forall|i: int|
            #![trigger plan.nodes[i]]
            0 <= i < plan.nodes.len() && plan.nodes[i].locked ==> {
                let settled = plan.nodes[i];
                &&& draft.node(settled.id) matches Some(drafted) && {
                    &&& drafted.title == settled.title
                    &&& text::trimmed(drafted.intent) == text::trimmed(settled.intent)
                    &&& drafted.rules == settled.rules
                    &&& text::trimmed(drafted.capture) == text::trimmed(settled.capture)
                }
                &&& forall|to: Seq<char>, condition: ConditionModel| #[trigger]
                    connections(draft, settled.id, to, condition) == connections(
                        plan,
                        settled.id,
                        to,
                        condition,
                    )
            },
        forall|i: int|
            #![trigger draft.nodes[i]]
            0 <= i < draft.nodes.len() ==> draft.nodes[i].subplan is None,
        forall|i: int|
            #![trigger plan.nodes[i]]
            0 <= i < plan.nodes.len() && !draft.has_node(plan.nodes[i].id)
                ==> plan.nodes[i].subplan is None,
    ensures
        plan.refused(draft).len() == 0,
{
    lemma_none_refused(plan, draft, plan.nodes.len());
}

proof fn lemma_none_refused(plan: GraphModel, draft: GraphModel, k: nat)
    requires
        k <= plan.nodes.len(),
        forall|i: int|
            #![trigger plan.nodes[i]]
            0 <= i < plan.nodes.len() && plan.nodes[i].locked ==> {
                let settled = plan.nodes[i];
                &&& draft.node(settled.id) matches Some(drafted) && {
                    &&& drafted.title == settled.title
                    &&& text::trimmed(drafted.intent) == text::trimmed(settled.intent)
                    &&& drafted.rules == settled.rules
                    &&& text::trimmed(drafted.capture) == text::trimmed(settled.capture)
                }
                &&& forall|to: Seq<char>, condition: ConditionModel| #[trigger]
                    connections(draft, settled.id, to, condition) == connections(
                        plan,
                        settled.id,
                        to,
                        condition,
                    )
            },
        forall|i: int|
            #![trigger draft.nodes[i]]
            0 <= i < draft.nodes.len() ==> draft.nodes[i].subplan is None,
        forall|i: int|
            #![trigger plan.nodes[i]]
            0 <= i < plan.nodes.len() && !draft.has_node(plan.nodes[i].id)
                ==> plan.nodes[i].subplan is None,
    ensures
        plan.refused_among(draft, k).len() == 0,
    decreases k,
{
    if k > 0 {
        lemma_none_refused(plan, draft, (k - 1) as nat);
        let node = plan.nodes[k - 1];
        draft.lemma_node(node.id);
        if node.locked {
            let x = plan.routes(node.id).to_multiset();
            let y = draft.routes(node.id).to_multiset();
            assert(x =~= y) by {
                assert forall|route: RouteModel| x.count(route) == y.count(route) by {
                    lemma_routes_count(plan.edges, node.id, route.to, route.condition);
                    lemma_routes_count(draft.edges, node.id, route.to, route.condition);
                    assert(connections(draft, node.id, route.to, route.condition) == connections(
                        plan,
                        node.id,
                        route.to,
                        route.condition,
                    ));
                }
            }
            law_routing_ignores_order(plan, draft, node.id);
            let j = draft.node_index(node.id)->0;
            assert(draft.nodes[j].subplan is None);
            assert(!plan.rewritten(draft, node));
        }
        if draft.has_node(node.id) {
            let j = draft.node_index(node.id)->0;
            assert(draft.nodes[j].subplan is None);
        }
        assert(node.refused_inside(draft.node(node.id)).len() == 0);
    }
}

/// An accepted draft is taken at its word: its steps and connections are those of the
/// merged plan, in order, and a step's title, and whatever else the draft states of the
/// step, is what the draft says. What it leaves blank is what was there; a step that was
/// not there is as the draft has it.
pub proof fn law_merging_takes_what_the_draft_states(plan: GraphModel, draft: GraphModel, i: int)
    requires
        0 <= i < draft.nodes.len(),
    ensures
        plan.merged(draft).nodes.len() == draft.nodes.len(),
        plan.merged(draft).edges == draft.edges,
        ({
            let drafted = draft.nodes[i];
            let after = plan.merged(draft).nodes[i];
            &&& after.id == drafted.id
            &&& after.title == drafted.title
            &&& drafted.rules.len() > 0 ==> after.rules == drafted.rules
            &&& !text::is_blank(drafted.intent) ==> after.intent == drafted.intent
            &&& !text::is_blank(drafted.capture) ==> after.capture == drafted.capture
            &&& !plan.has_node(drafted.id) ==> after == drafted
            &&& plan.node(drafted.id) matches Some(before) ==> {
                &&& drafted.rules.len() == 0 ==> after.rules == before.rules
                &&& text::is_blank(drafted.intent) && !text::is_blank(before.intent) ==> after.intent
                    == before.intent
                &&& text::is_blank(drafted.capture) && !text::is_blank(before.capture)
                    ==> after.capture == before.capture
                &&& drafted.subplan is Some && before.subplan is None ==> after.subplan
                    == drafted.subplan
            }
        }),
{
    plan.lemma_node(draft.nodes[i].id);
}

/// The steps reported as preserved are those that kept something the draft did not
/// carry, each once for each time it is drafted and in the order of the draft.
pub proof fn law_preserved_steps_kept_something(plan: GraphModel, draft: GraphModel, i: int)
    requires
        0 <= i < draft.nodes.len(),
        forall|j: int, k: int|
            #![trigger draft.nodes[j], draft.nodes[k]]
            0 <= j < k < draft.nodes.len() ==> draft.nodes[j].id != draft.nodes[k].id,
    ensures
        plan.preserved(draft).contains(draft.nodes[i].id) <==> {
            let drafted = draft.nodes[i];
            &&& plan.node(drafted.id) matches Some(before) && {
                ||| text::is_blank(drafted.intent) && !text::is_blank(before.intent)
                ||| drafted.rules.len() == 0 && before.rules.len() > 0
                ||| text::is_blank(drafted.capture) && !text::is_blank(before.capture)
                ||| before.chat is Some
                ||| before.result is Some
                ||| drafted.subplan is None && before.nested() is Some
            }
        },
{
    let p = |n: NodeModel| plan.keeps(n);
    let id_of = |n: NodeModel| n.id;
    let kept = draft.nodes.filter(p);
    let ids = plan.preserved(draft);
    assert(ids =~= kept.map_values(id_of));
    if p(draft.nodes[i]) {
        draft.nodes.lemma_filter_contains(p, i);
        let j = choose|j: int| 0 <= j < kept.len() && kept[j] == draft.nodes[i];
        assert(ids[j] == draft.nodes[i].id);
    }
    if ids.contains(draft.nodes[i].id) {
        let j = choose|j: int| 0 <= j < ids.len() && ids[j] == draft.nodes[i].id;
        let k = model::lemma_filter_source(draft.nodes, p, j);
        assert(draft.nodes[k].id == draft.nodes[i].id);
        assert(k == i);
    }
}

} // verus!
