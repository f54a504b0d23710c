//! What edits of a plan are sure to do, and when they are refused.
use crate::model::{self, ConditionModel, EdgeModel, GraphModel, NodeModel};
use crate::mutate::{PlannedRouteModel, RefusalModel};
use crate::refine_step::{RefineStepToolInput, RouteCondition};
use crate::text;
use vstd::prelude::*;

verus! {

/// A refinement writes down what it is given and keeps what it is not: the goal, the
/// rules and the capture of the step. It may settle the step and never opens it, and
/// nothing else of the step changes.
pub proof fn law_refinement_writes_what_is_given(
    input: &RefineStepToolInput,
    local: GraphModel,
    id: Seq<char>,
)
    requires
        local.node(id) is Some,
    ensures
        ({
            let before = local.node(id)->0;
            let after = input.refined_local(local, id).nodes[local.node_index(id)->0];
            &&& input.goal matches Some(goal) ==> after.intent == goal@
            &&& input.goal is None ==> after.intent == before.intent
            &&& input.rules matches Some(rules) ==> after.rules.len() == rules@.len() && forall|
                k: int,
            |
                0 <= k < rules@.len() ==> #[trigger] after.rules[k] == rules@[k]@
            &&& input.rules is None ==> after.rules == before.rules
            &&& input.capture matches Some(capture) ==> after.capture == capture@
            &&& input.capture is None ==> after.capture == before.capture
            &&& input.lock ==> after.locked
            &&& !input.lock ==> after.locked == before.locked
            &&& after.id == before.id
            &&& after.title == before.title
            &&& after.pinned == before.pinned
            &&& after.position == before.position
            &&& after.chat == before.chat
            &&& after.subplan == before.subplan
            &&& after.result == before.result
        }),
        input.routing is None ==> input.refined_local(local, id).edges == local.edges,
{
    local.lemma_node(id);
    let i = local.node_index(id)->0;
    if let Some(routes) = input.routes() {
        let bare = local.without_routes(id);
        let routed = bare.with_routes(id, routes, routes.len());
        bare.lemma_routes_keep_nodes(id, routes, routes.len());
        assert(routed.is_index(id, i));
        routed.lemma_index(id, i);
    }
}

/// The terms that a route asks for, in the words of a plan.
pub open spec fn asked(condition: Option<RouteCondition>) -> ConditionModel {
    match condition {
        None => ConditionModel::Always,
        Some(RouteCondition::Objective { statement }) => ConditionModel::Deterministic {
            expression: statement@,
        },
        Some(RouteCondition::LlmEvaluated { question }) => ConditionModel::LlmEvaluated {
            question: question@,
        },
    }
}

proof fn lemma_routed(
    plan: GraphModel,
    id: Seq<char>,
    routes: Seq<PlannedRouteModel>,
    k: nat,
)
    requires
        plan.edges_from(id).len() == 0,
        k <= routes.len(),
    ensures
        plan.with_routes(id, routes, k).edges_from(id).map_values(
            |e: EdgeModel| PlannedRouteModel { to: e.to, condition: e.condition },
        ) == routes.take(k as int).filter(|r: PlannedRouteModel| plan.has_node(r.to)),
    decreases k,
{
    reveal(Seq::filter);
    let leaves = |e: EdgeModel| e.from == id;
    let there = |r: PlannedRouteModel| plan.has_node(r.to);
    let f = |e: EdgeModel| PlannedRouteModel { to: e.to, condition: e.condition };
    if k == 0 {
        assert(plan.edges_from(id).map_values(f) =~= Seq::empty());
        assert(routes.take(0).filter(there) =~= Seq::empty());
    } else {
        lemma_routed(plan, id, routes, (k - 1) as nat);
        let rest = plan.with_routes(id, routes, (k - 1) as nat);
        let route = routes[k - 1];
        model::lemma_filter_take(routes, there, k - 1);
        if plan.has_node(route.to) {
            let added = EdgeModel {
                id: rest.free_edge_id(id, route.to),
                from: id,
                to: route.to,
                condition: route.condition,
            };
            model::lemma_filter_push(rest.edges, leaves, added);
            let kept = rest.edges.filter(leaves);
            assert(kept.push(added).map_values(f) =~= kept.map_values(f).push(f(added)));
            assert(f(added) == route);
        }
    }
}

/// A refinement with a routing replaces where the step leads: one connection for each
/// route it asks for, in order and on its terms, but for those to steps that are not
/// there, which are reported instead.
pub proof fn law_refinement_replaces_the_routing(
    input: &RefineStepToolInput,
    local: GraphModel,
    id: Seq<char>,
)
    requires
        local.node(id) is Some,
        input.routing is Some,
    ensures
        ({
            let wanted = Seq::new(
                input.routing->0@.len(),
                |k: int|
                    PlannedRouteModel {
                        to: input.routing->0@[k].to@,
                        condition: asked(input.routing->0@[k].condition),
                    },
            );
            let there = |r: PlannedRouteModel| local.has_node(r.to);
            input.refined_local(local, id).edges_from(id).map_values(
                |e: EdgeModel| PlannedRouteModel { to: e.to, condition: e.condition },
            ) == wanted.filter(there)
        }),
{
    let routes = input.routes()->0;
    let wanted = Seq::new(
        input.routing->0@.len(),
        |k: int|
            PlannedRouteModel {
                to: input.routing->0@[k].to@,
                condition: asked(input.routing->0@[k].condition),
            },
    );
    assert(routes =~= wanted);
    let bare = local.without_routes(id);
    let leaves = |e: EdgeModel| e.from == id;
    if bare.edges.filter(leaves).len() > 0 {
        let j = model::lemma_filter_source(bare.edges, leaves, 0);
        let m = model::lemma_filter_source(local.edges, |e: EdgeModel| e.from != id, j);
    }
    lemma_routed(bare, id, routes, routes.len());
    assert(routes.take(routes.len() as int) =~= routes);
    let there = |r: PlannedRouteModel| local.has_node(r.to);
    let here = |r: PlannedRouteModel| bare.has_node(r.to);
    assert forall|r: PlannedRouteModel| #[trigger] there(r) == here(r) by {
        assert(bare.nodes == local.nodes);
    }
    lemma_same_kept(routes, there, here);
    let routed = bare.with_routes(id, routes, routes.len());
    assert(input.refined_local(local, id).edges == routed.edges) by {
        routed.lemma_node(id);
    }
}

proof fn lemma_same_kept<A>(s: Seq<A>, p: spec_fn(A) -> bool, q: spec_fn(A) -> bool)
    requires
        forall|a: A| #[trigger] p(a) == q(a),
    ensures
        s.filter(p) == s.filter(q),
    decreases s.len(),
{
    reveal(Seq::filter);
    if s.len() > 0 {
        lemma_same_kept(s.drop_last(), p, q);
        assert(p(s.last()) == q(s.last()));
    }
}

/// Adding a step puts it behind the others, as it is, under an id that no other step has:
/// its own where that is free, and otherwise its own with a number.
pub proof fn law_added_steps_get_an_id_of_their_own(plan: GraphModel, node: NodeModel)
    ensures
        ({
            let after = plan.with_added(node);
            let added = after.nodes.last();
            &&& after.edges == plan.edges
            &&& after.nodes.len() == plan.nodes.len() + 1
            &&& forall|i: int|
                0 <= i < plan.nodes.len() ==> #[trigger] after.nodes[i] == plan.nodes[i]
            &&& forall|i: int|
                0 <= i < plan.nodes.len() ==> (#[trigger] plan.nodes[i]).id != added.id
            &&& (NodeModel { id: node.id, ..added }) == node
            &&& (forall|i: int| 0 <= i < plan.nodes.len() ==> (#[trigger] plan.nodes[i]).id
                != node.id) ==> added.id == node.id
            &&& (node.id).is_prefix_of(added.id)
        }),
{
    let found = plan.lemma_free_number(node.id);
    let after = plan.with_added(node);
    let added = after.nodes.last();
    if plan.has_node(node.id) {
        let k = choose|k: nat| plan.is_fresh_number(node.id, k);
        assert(plan.is_fresh_number(node.id, k));
        assert(added.id == GraphModel::numbered(node.id, k));
    }
    assert(!plan.has_node(added.id));
    assert(node.id =~= added.id.subrange(0, node.id.len() as int));
    assert((NodeModel { id: node.id, ..added }) == node);
}

/// Connecting two steps adds one connection between them, behind the others, that is
/// always taken.
pub proof fn law_connecting_adds_one_connection(
    plan: GraphModel,
    from: Seq<char>,
    to: Seq<char>,
    condition: ConditionModel,
)
    ensures
        ({
            let after = plan.with_connection(from, to);
            &&& after.nodes == plan.nodes
            &&& after.edges.drop_last() == plan.edges
            &&& after.edges.last().from == from
            &&& after.edges.last().to == to
            &&& after.edges.last().condition == ConditionModel::Always
            &&& !plan.has_edge(from + "->"@ + to) ==> after.edges.last().id == from + "->"@ + to
            &&& (from + "->"@ + to).is_prefix_of(after.edges.last().id)
        }),
        !plan.has_edge(plan.free_edge_id(from, to)) ==> {
            let after = plan.with_connection(from, to).with_terms(
                plan.free_edge_id(from, to),
                condition,
            );
            &&& after.nodes == plan.nodes
            &&& after.edges.len() == plan.edges.len() + 1
            &&& forall|i: int|
                0 <= i < plan.edges.len() ==> #[trigger] after.edges[i] == plan.edges[i]
            &&& after.edges.last().from == from
            &&& after.edges.last().to == to
            &&& after.edges.last().condition == condition
        },
{
    let after = plan.with_connection(from, to);
    let id = plan.free_edge_id(from, to);
    assert(after.edges.drop_last() =~= plan.edges);
    let start = from + "->"@ + to;
    assert(start =~= id.subrange(0, start.len() as int));
    if !plan.has_edge(id) {
        let n = plan.edges.len() as int;
        assert forall|j: int| 0 <= j < n implies (#[trigger] after.edges[j]).id != id by {
            assert(plan.edges[j].id != id);
        }
        assert(after.is_edge_index(id, n));
        let i = choose|i: int| after.is_edge_index(id, i);
        assert(after.is_edge_index(id, i));
        if i < n {
            assert(after.edges[i].id != id);
        }
    }
}

/// Disconnecting removes the connections of an id and nothing else.
pub proof fn law_disconnecting_removes_that_connection(plan: GraphModel, id: Seq<char>)
    ensures
        !plan.without_edge(id).has_edge(id),
        plan.without_edge(id).nodes == plan.nodes,
        forall|k: int|
            0 <= k < plan.edges.len() && (#[trigger] plan.edges[k]).id != id
                ==> plan.without_edge(id).edges.contains(plan.edges[k]),
        forall|k: int|
            0 <= k < plan.without_edge(id).edges.len() ==> plan.edges.contains(
                #[trigger] plan.without_edge(id).edges[k],
            ),
{
    let p = |e: EdgeModel| e.id != id;
    let after = plan.without_edge(id);
    assert forall|k: int| 0 <= k < plan.edges.len() && (#[trigger] plan.edges[k]).id
        != id implies after.edges.contains(plan.edges[k]) by {
        plan.edges.lemma_filter_contains(p, k);
    }
    assert forall|k: int| 0 <= k < after.edges.len() implies plan.edges.contains(
        #[trigger] after.edges[k],
    ) && after.edges[k].id != id by {
        let j = model::lemma_filter_source(plan.edges, p, k);
        assert(plan.edges[j] == after.edges[k]);
    }
}

proof fn lemma_lock_over(plan: GraphModel, path: Seq<Seq<char>>, k: nat)
    requires
        k <= path.len(),
    ensures
        match plan.lock_over(path, k) {
            None => forall|j: int|
                #![trigger path.take(j)]
                1 <= j <= k ==> (plan.step_at(path.take(j)) matches Some(node) ==> !node.locked),
            Some(found) => exists|j: int|
                1 <= j <= k && found == #[trigger] path.take(j) && plan.step_at(path.take(j)) is Some
                    && plan.step_at(path.take(j))->0.locked && forall|i: int|
                    #![trigger path.take(i)]
                    1 <= i < j ==> (plan.step_at(path.take(i)) matches Some(node) ==> !node.locked),
        },
    decreases k,
{
    if k > 0 {
        lemma_lock_over(plan, path, (k - 1) as nat);
        if plan.lock_over(path, (k - 1) as nat) is None {
            if let Some(found) = plan.lock_over(path, k) {
                assert(found == path.take(k as int));
            }
        }
    }
}

/// An edit of a step is refused just where the step is not there, or it or a step around
/// it is locked; then the refusal names the outermost one that is.
pub proof fn law_edits_are_refused_over_locks_only(plan: GraphModel, path: Seq<Seq<char>>)
    ensures
        plan.step_refusal(path) is None <==> plan.step_at(path) is Some && forall|j: int|
            #![trigger path.take(j)]
            1 <= j <= path.len() ==> (plan.step_at(path.take(j)) matches Some(node)
                ==> !node.locked),
        plan.step_refusal(path) matches Some(RefusalModel::NotFound { .. }) <==> plan.step_at(
            path,
        ) is None,
        plan.step_refusal(path) matches Some(RefusalModel::Locked { path: over }) ==> exists|
            j: int,
        |
            1 <= j <= path.len() && over == #[trigger] path.take(j) && plan.step_at(
                path.take(j),
            )->0.locked && forall|i: int|
                #![trigger path.take(i)]
                1 <= i < j ==> (plan.step_at(path.take(i)) matches Some(node) ==> !node.locked),
{
    lemma_lock_over(plan, path, path.len());
}

proof fn lemma_locked_inside(plan: GraphModel, path: Seq<Seq<char>>)
    requires
        plan.fully_locked_deeply(),
        plan.node_at(path) is Some,
    ensures
        plan.node_at(path)->0.locked,
    decreases path.len(),
{
    let id = path[0];
    if path.len() > 1 {
        assert(path.drop_last()[0] == id);
        plan.lemma_node(id);
        let i = plan.node_index(id)->0;
        let g = plan.nodes[i].nested()->0;
        let tail = path.skip(1);
        assert(path.drop_last().skip(1) =~= tail.drop_last());
        assert(path.last() == tail.last());
        assert(plan.nodes[i].locked);
        lemma_locked_inside(g, tail);
    } else {
        assert(path.drop_last() =~= Seq::empty());
        plan.lemma_node(path.last());
    }
}

proof fn lemma_all_locked(plan: GraphModel)
    requires
        plan.nodes.len() > 0,
        plan.distinct_deeply(),
        forall|path: Seq<Seq<char>>| #[trigger]
            plan.node_at(path) matches Some(node) ==> node.locked,
    ensures
        plan.fully_locked_deeply(),
    decreases plan,
{
    assert forall|i: int| 0 <= i < plan.nodes.len() implies (#[trigger] plan.nodes[i]).locked
        && match plan.nodes[i].subplan {
        Some(g) => g.nodes.len() == 0 || g.fully_locked_deeply(),
        None => true,
    } by {
        let id = plan.nodes[i].id;
        assert forall|j: int| 0 <= j < i implies (#[trigger] plan.nodes[j]).id != id by {
            assert(plan.nodes[j].id != plan.nodes[i].id);
        }
        assert(plan.is_index(id, i));
        plan.lemma_index(id, i);
        let here = seq![id];
        assert(here.drop_last() =~= Seq::empty());
        assert(plan.node_at(here) == Some(plan.nodes[i]));
        if let Some(g) = plan.nodes[i].subplan {
            if g.nodes.len() > 0 {
                assert forall|path: Seq<Seq<char>>| #[trigger]
                    g.node_at(path) is Some implies g.node_at(path)->0.locked by {
                    let longer = here + path;
                    assert(longer.drop_last()[0] == id);
                    assert(longer.drop_last().skip(1) =~= path.drop_last());
                    assert(longer.last() == path.last());
                    assert(plan.node_at(longer) == g.node_at(path));
                }
                lemma_all_locked(*g);
            }
        }
    }
}

/// A step may be locked just where every step inside it is, at every depth.
pub proof fn law_steps_are_locked_after_what_they_contain(node: NodeModel)
    requires
        node.nested() is Some,
        node.nested()->0.distinct_deeply(),
    ensures
        node.may_lock() <==> forall|path: Seq<Seq<char>>| #[trigger]
            node.nested()->0.node_at(path) matches Some(inner) ==> inner.locked,
{
    let g = node.nested()->0;
    if node.may_lock() {
        assert forall|path: Seq<Seq<char>>| #[trigger] g.node_at(path) is Some implies g.node_at(
            path,
        )->0.locked by {
            lemma_locked_inside(g, path);
        }
    }
    if forall|path: Seq<Seq<char>>| #[trigger] g.node_at(path) matches Some(inner) ==> inner.locked {
        lemma_all_locked(g);
    }
}

/// The steps pointed at for handing nothing on are those with a connection out of them
/// and no capture.
pub proof fn law_steps_without_capture_lead_somewhere(plan: GraphModel, i: int)
    requires
        0 <= i < plan.nodes.len(),
    ensures
        plan.without_capture().contains(plan.nodes[i]) <==> text::is_blank(plan.nodes[i].capture)
            && exists|k: int|
            0 <= k < plan.edges.len() && (#[trigger] plan.edges[k]).from == plan.nodes[i].id,
        plan.pinned().contains(plan.nodes[i]) <==> plan.nodes[i].pinned,
{
    let p = |n: NodeModel| text::is_blank(n.capture) && plan.edges_from(n.id).len() > 0;
    let node = plan.nodes[i];
    let q = |e: EdgeModel| e.from == node.id;
    if plan.edges.filter(q).len() > 0 {
        let k = model::lemma_filter_source(plan.edges, q, 0);
        assert(plan.edges[k].from == node.id);
    }
    if exists|k: int| 0 <= k < plan.edges.len() && (#[trigger] plan.edges[k]).from == node.id {
        let k = choose|k: int|
            0 <= k < plan.edges.len() && (#[trigger] plan.edges[k]).from == node.id;
        plan.edges.lemma_filter_contains(q, k);
        assert(plan.edges.filter(q).contains(plan.edges[k]));
    }
    if p(node) {
        plan.nodes.lemma_filter_contains(p, i);
    }
    if plan.without_capture().contains(node) {
        let m = choose|m: int|
            0 <= m < plan.without_capture().len() && plan.without_capture()[m] == node;
        let j = model::lemma_filter_source(plan.nodes, p, m);
    }
    let r = |n: NodeModel| n.pinned;
    if r(node) {
        plan.nodes.lemma_filter_contains(r, i);
    }
    if plan.pinned().contains(node) {
        let m = choose|m: int| 0 <= m < plan.pinned().len() && plan.pinned()[m] == node;
        let j = model::lemma_filter_source(plan.nodes, r, m);
    }
}

/// An edit of the plan at a path reaches nothing else: steps elsewhere stay as they are,
/// and of the steps around it only the plan inside them changes. Two steps that share an
/// id in different plans are different steps.
pub proof fn law_edits_reach_only_their_path(
    plan: GraphModel,
    path: Seq<Seq<char>>,
    new: GraphModel,
    other: Seq<Seq<char>>,
)
    requires
        plan.plan_at(path) is Some,
        other.len() > 0,
        !path.is_prefix_of(other.drop_last()),
    ensures
        ({
            let after = plan.with_plan_at(path, new);
            match plan.step_at(other) {
                None => after.step_at(other) is None,
                Some(before) => {
                    &&& after.step_at(other) is Some
                    &&& (NodeModel { subplan: before.subplan, ..after.step_at(other)->0 })
                        == before
                    &&& !other.is_prefix_of(path) ==> after.step_at(other) == Some(before)
                },
            }
        }),
        plan.with_plan_at(path, new).plan_at(path) == Some(new),
    decreases path.len(),
{
    plan.lemma_plan_put(path, new);
    let after = plan.with_plan_at(path, new);
    if path.len() == 0 {
        assert(path =~= other.drop_last().subrange(0, 0));
        assert(false);
    }
    let id = path[0];
    plan.lemma_node(id);
    let i = plan.node_index(id)->0;
    let g = *plan.nodes[i].subplan->0;
    assert(after.is_index(id, i)) by {
        assert forall|j: int| 0 <= j < i implies (#[trigger] after.nodes[j]).id != id by {
            assert(plan.nodes[j].id != id);
        }
    }
    after.lemma_index(id, i);
    let first = other[0];
    if first != id {
        lemma_other_step(plan, i, after.nodes[i], first);
        if other.len() > 1 {
            assert(other.drop_last()[0] == first);
        } else {
            assert(other.drop_last() =~= Seq::empty());
        }
        assert(after == plan.with_node(i, after.nodes[i]));
    } else if other.len() == 1 {
        assert(other.drop_last() =~= Seq::empty());
        assert(other =~= path.subrange(0, 1));
    } else {
        let rest = path.skip(1);
        let tail = other.skip(1);
        assert(other.drop_last()[0] == id);
        assert(other.drop_last().skip(1) =~= tail.drop_last());
        assert(other.last() == tail.last());
        if rest.is_prefix_of(tail.drop_last()) {
            assert(path =~= other.drop_last().subrange(0, path.len() as int)) by {
                assert forall|k: int| 0 <= k < path.len() implies path[k] == other.drop_last()[k] by {
                    if k > 0 {
                        assert(rest[k - 1] == tail.drop_last().subrange(0, rest.len() as int)[k
                            - 1]);
                    }
                }
            }
        }
        law_edits_reach_only_their_path(g, rest, new, tail);
        if tail.is_prefix_of(rest) {
            assert(other =~= path.subrange(0, other.len() as int)) by {
                assert forall|k: int| 0 <= k < other.len() implies other[k] == path[k] by {
                    if k > 0 {
                        assert(tail[k - 1] == rest.subrange(0, tail.len() as int)[k - 1]);
                    }
                }
            }
        }
        assert(plan.step_at(other) == g.step_at(tail));
        assert(after.step_at(other) == g.with_plan_at(rest, new).step_at(tail));
    }
}

proof fn lemma_other_step(plan: GraphModel, i: int, changed: NodeModel, id: Seq<char>)
    requires
        0 <= i < plan.nodes.len(),
        changed.id == plan.nodes[i].id,
        id != changed.id,
    ensures
        plan.with_node(i, changed).node(id) == plan.node(id),
{
    let after = plan.with_node(i, changed);
    plan.lemma_node(id);
    after.lemma_node(id);
    if let Some(k) = plan.node_index(id) {
        assert(after.is_index(id, k)) by {
            assert forall|j: int| 0 <= j < k implies (#[trigger] after.nodes[j]).id != id by {
                assert(plan.nodes[j].id != id);
            }
        }
        after.lemma_index(id, k);
    } else if let Some(k) = after.node_index(id) {
        assert(plan.nodes[k].id == id);
    }
}

/// Whether a step of a plan may be locked is a matter of what it contains: one that is not
/// there, or contains nothing, may be.
pub proof fn law_only_what_is_inside_keeps_a_step_open(plan: GraphModel, id: Seq<char>)
    ensures
        plan.node(id) is None ==> plan.lockable(id),
        plan.node(id) matches Some(node) ==> (node.nested() is None ==> plan.lockable(id)),
        plan.node(id) matches Some(node) ==> plan.lockable(id) == node.may_lock(),
        plan.node(id) matches Some(node) ==> (node.nested() matches Some(inner) ==> forall|i: int|
            0 <= i < inner.nodes.len() && !(#[trigger] inner.nodes[i]).locked ==> !plan.lockable(
                id,
            )),
{
}

} // verus!
