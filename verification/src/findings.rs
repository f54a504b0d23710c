//! What a look over a plan is sure to find: where it begins, what is wrong with it, and
//! what stands in the way of running it.
use crate::model::{self, EdgeModel, GraphModel, NodeModel};
use crate::problems::{self, ProblemModel};
use crate::search;
use vstd::prelude::*;

verus! {

/// Whether a connection leads from one id to another.
pub open spec fn connected(plan: GraphModel, from: Seq<char>, to: Seq<char>) -> bool {
    exists|k: int|
        0 <= k < plan.edges.len() && (#[trigger] plan.edges[k]).from == from && plan.edges[k].to
            == to
}

/// A walk along the connections of a plan, from one of its roots.
pub open spec fn walk(plan: GraphModel, way: Seq<Seq<char>>) -> bool {
    &&& way.len() > 0
    &&& plan.roots().contains(way[0])
    &&& forall|i: int| 0 < i < way.len() ==> connected(plan, way[i - 1], #[trigger] way[i])
}

proof fn lemma_walk(plan: GraphModel, way: Seq<Seq<char>>)
    ensures
        walk(plan, way) <==> plan.is_route(way),
{
    assert forall|a: Seq<char>, b: Seq<char>| #[trigger]
        connected(plan, a, b) == #[trigger] plan.leads(a, b) by {
        if connected(plan, a, b) {
            let k = choose|k: int|
                0 <= k < plan.edges.len() && (#[trigger] plan.edges[k]).from == a
                    && plan.edges[k].to == b;
            assert(plan.edges[k].from == a);
        }
        if plan.leads(a, b) {
            let k = choose|k: int|
                0 <= k < plan.edges.len() && (#[trigger] plan.edges[k]).from == a
                    && plan.edges[k].to == b;
            assert(plan.edges[k].from == a);
        }
    }
    if plan.is_route(way) {
        assert forall|i: int| 0 < i < way.len() implies connected(
            plan,
            way[i - 1],
            #[trigger] way[i],
        ) by {
            assert(plan.leads(way[i - 1], way[i]));
        }
    }
    if walk(plan, way) {
        assert forall|i: int| 0 < i < way.len() implies plan.leads(
            way[i - 1],
            #[trigger] way[i],
        ) by {
            assert(connected(plan, way[i - 1], way[i]));
        }
    }
}

proof fn lemma_duplicates(plan: GraphModel, k: int, problem: ProblemModel)
    requires
        0 <= k <= plan.nodes.len(),
    ensures
        plan.duplicates(k).contains(problem) <==> (problem is DuplicateNode && exists|i: int, j: int|
            #![trigger plan.nodes[i], plan.nodes[j]]
            0 <= i < j < k && plan.nodes[i].id == problem->DuplicateNode_0 && plan.nodes[j].id
                == problem->DuplicateNode_0),
    decreases k,
{
    if k > 0 {
        lemma_duplicates(plan, k - 1, problem);
        let rest = plan.duplicates(k - 1);
        let all = plan.duplicates(k);
        let id = plan.nodes[k - 1].id;
        if rest.contains(problem) {
            let m = choose|m: int| 0 <= m < rest.len() && rest[m] == problem;
            assert(all[m] == problem);
        }
        if all.contains(problem) {
            let m = choose|m: int| 0 <= m < all.len() && all[m] == problem;
            if m < rest.len() {
                assert(rest[m] == problem);
            } else {
                let j = choose|j: int| 0 <= j < k - 1 && (#[trigger] plan.nodes[j]).id == id;
                assert(plan.nodes[j].id == plan.nodes[k - 1].id);
            }
        }
        if problem is DuplicateNode && exists|i: int, j: int|
            #![trigger plan.nodes[i], plan.nodes[j]]
            0 <= i < j < k && plan.nodes[i].id == problem->DuplicateNode_0 && plan.nodes[j].id
                == problem->DuplicateNode_0 {
            let (i, j) = choose|i: int, j: int|
                #![trigger plan.nodes[i], plan.nodes[j]]
                0 <= i < j < k && plan.nodes[i].id == problem->DuplicateNode_0 && plan.nodes[j].id
                    == problem->DuplicateNode_0;
            if j == k - 1 {
                assert(plan.nodes[i].id == id);
                assert(all.last() == problem);
            }
        }
    } else {
        assert(plan.duplicates(k) =~= Seq::empty());
    }
}

proof fn lemma_dangling(plan: GraphModel, k: int, problem: ProblemModel)
    requires
        0 <= k <= plan.edges.len(),
    ensures
        plan.dangling(k).contains(problem) <==> (problem matches ProblemModel::DanglingEdge {
            edge,
            missing,
        } && !plan.has_node(missing) && exists|i: int|
            0 <= i < k && (#[trigger] plan.edges[i]).id == edge && (plan.edges[i].from == missing
                || plan.edges[i].to == missing)),
    decreases k,
{
    if k > 0 {
        lemma_dangling(plan, k - 1, problem);
        let rest = plan.dangling(k - 1);
        let edge = plan.edges[k - 1];
        let more = plan.missing_ends(edge);
        let all = plan.dangling(k);
        let from = ProblemModel::DanglingEdge { edge: edge.id, missing: edge.from };
        let to = ProblemModel::DanglingEdge { edge: edge.id, missing: edge.to };
        if rest.contains(problem) {
            let m = choose|m: int| 0 <= m < rest.len() && rest[m] == problem;
            assert(all[m] == problem);
        }
        if !plan.has_node(edge.from) {
            assert(more[0] == from);
            assert(all[rest.len() as int] == from);
        }
        if !plan.has_node(edge.to) {
            assert(more.last() == to);
            assert(all[all.len() - 1] == to);
        }
        if all.contains(problem) {
            let m = choose|m: int| 0 <= m < all.len() && all[m] == problem;
            if m < rest.len() {
                assert(rest[m] == problem);
            } else {
                assert(more[m - rest.len()] == problem);
                assert(problem == from || problem == to);
                assert(plan.edges[k - 1].id == edge.id);
            }
        }
    } else {
        assert(plan.dangling(k) =~= Seq::empty());
    }
}

proof fn lemma_unreachable(plan: GraphModel, problem: ProblemModel)
    ensures
        plan.unreachable().map_values(
            |id: Seq<char>| ProblemModel::Unreachable(id),
        ).contains(problem) <==> (problem matches ProblemModel::Unreachable(id) && plan.has_node(id)
            && !plan.reachable(id)),
{
    let p = |n: NodeModel| !plan.reachable(n.id);
    let f = |id: Seq<char>| ProblemModel::Unreachable(id);
    let kept = plan.nodes.filter(p);
    let ids = plan.unreachable();
    let all = ids.map_values(f);
    assert(ids =~= kept.map_values(|n: NodeModel| n.id));
    if all.contains(problem) {
        let m = choose|m: int| 0 <= m < all.len() && all[m] == problem;
        let j = model::lemma_filter_source(plan.nodes, p, m);
        assert(plan.nodes[j].id == ids[m]);
        assert(problem == ProblemModel::Unreachable(ids[m]));
    }
    if let ProblemModel::Unreachable(id) = problem {
        if plan.has_node(id) && !plan.reachable(id) {
            let j = choose|j: int| 0 <= j < plan.nodes.len() && (#[trigger] plan.nodes[j]).id == id;
            plan.nodes.lemma_filter_contains(p, j);
            let m = choose|m: int| 0 <= m < kept.len() && kept[m] == plan.nodes[j];
            assert(ids[m] == id);
            assert(all[m] == problem);
        }
    }
}

/// The problems of a plan are just these: an id that two steps share; an end of a
/// connection where there is no step; and a step that no walk from a root comes to.
pub proof fn law_problems_are_just_these(plan: GraphModel, problem: ProblemModel)
    ensures
        plan.problems().contains(problem) <==> match problem {
            ProblemModel::DuplicateNode(id) => exists|i: int, j: int|
                #![trigger plan.nodes[i], plan.nodes[j]]
                0 <= i < j < plan.nodes.len() && plan.nodes[i].id == id && plan.nodes[j].id == id,
            ProblemModel::DanglingEdge { edge, missing } => {
                &&& forall|i: int|
                    0 <= i < plan.nodes.len() ==> (#[trigger] plan.nodes[i]).id != missing
                &&& exists|i: int|
                    0 <= i < plan.edges.len() && (#[trigger] plan.edges[i]).id == edge && (
                    plan.edges[i].from == missing || plan.edges[i].to == missing)
            },
            ProblemModel::Unreachable(id) => {
                &&& exists|i: int| 0 <= i < plan.nodes.len() && (#[trigger] plan.nodes[i]).id == id
                &&& forall|way: Seq<Seq<char>>| #[trigger] walk(plan, way) ==> way.last() != id
            },
            _ => false,
        },
{
    let a = plan.duplicates(plan.nodes.len() as int);
    let b = plan.dangling(plan.edges.len() as int);
    let c = plan.unreachable().map_values(|id: Seq<char>| ProblemModel::Unreachable(id));
    let all = plan.problems();
    lemma_duplicates(plan, plan.nodes.len() as int, problem);
    lemma_dangling(plan, plan.edges.len() as int, problem);
    lemma_unreachable(plan, problem);
    lemma_in_three(a, b, c, problem);
    assert(all == a + b + c);
    if let ProblemModel::Unreachable(id) = problem {
        if plan.reachable(id) {
            let way = choose|way: Seq<Seq<char>>| #[trigger] plan.is_route(way) && way.last() == id;
            lemma_walk(plan, way);
        } else {
            assert forall|way: Seq<Seq<char>>| #[trigger] walk(plan, way) implies way.last()
                != id by {
                lemma_walk(plan, way);
            }
        }
    }
}

proof fn lemma_in_three(
    a: Seq<ProblemModel>,
    b: Seq<ProblemModel>,
    c: Seq<ProblemModel>,
    problem: ProblemModel,
)
    ensures
        (a + b + c).contains(problem) <==> a.contains(problem) || b.contains(problem)
            || c.contains(problem),
{
    let all = a + b + c;
    if all.contains(problem) {
        let m = choose|m: int| 0 <= m < all.len() && all[m] == problem;
        if m < a.len() {
            assert(a[m] == problem);
        } else if m < a.len() + b.len() {
            assert(b[m - a.len()] == problem);
        } else {
            assert(c[m - a.len() - b.len()] == problem);
        }
    }
    if a.contains(problem) {
        let m = choose|m: int| 0 <= m < a.len() && a[m] == problem;
        assert(all[m] == problem);
    }
    if b.contains(problem) {
        let m = choose|m: int| 0 <= m < b.len() && b[m] == problem;
        assert(all[a.len() + m] == problem);
    }
    if c.contains(problem) {
        let m = choose|m: int| 0 <= m < c.len() && c[m] == problem;
        assert(all[a.len() + b.len() + m] == problem);
    }
}

proof fn lemma_nested_blocking(plan: GraphModel, k: nat, problem: ProblemModel)
    requires
        k <= plan.nodes.len(),
    ensures
        plan.nested_blocking(k).contains(problem) <==> (problem matches ProblemModel::InSubplan {
            node,
            problem: inner,
        } && exists|i: int|
            0 <= i < k && (#[trigger] plan.nodes[i]).id == node && plan.nodes[i].nested() is Some
                && plan.nodes[i].nested()->0.blocking().contains(*inner)),
    decreases k,
{
    let all = plan.nested_blocking(k);
    if k > 0 {
        lemma_nested_blocking(plan, (k - 1) as nat, problem);
        let rest = plan.nested_blocking((k - 1) as nat);
        let node = plan.nodes[k - 1];
        if let Some(g) = node.nested() {
            let found = g.blocking();
            let more = problems::inside(node.id, found);
            assert(all == rest + more);
            if rest.contains(problem) {
                let m = choose|m: int| 0 <= m < rest.len() && rest[m] == problem;
                assert(all[m] == problem);
            }
            if all.contains(problem) {
                let m = choose|m: int| 0 <= m < all.len() && all[m] == problem;
                if m < rest.len() {
                    assert(rest[m] == problem);
                } else {
                    assert(more[m - rest.len()] == problem);
                    assert(found.contains(found[m - rest.len()]));
                    assert(plan.nodes[k - 1].id == node.id);
                }
            }
            if let ProblemModel::InSubplan { node: id, problem: inner } = problem {
                if id == node.id && found.contains(*inner) {
                    let m = choose|m: int| 0 <= m < found.len() && found[m] == *inner;
                    assert(more[m] == problem);
                    assert(all[rest.len() + m] == problem);
                }
            }
        }
    } else {
        assert(all =~= Seq::empty());
    }
}

/// What stands in the way of running a plan is just this: the problems of its shape, a
/// step that is not locked, and whatever stands in the way inside a step.
pub proof fn law_blocking_is_just_this(plan: GraphModel, problem: ProblemModel)
    ensures
        plan.blocking().contains(problem) <==> match problem {
            ProblemModel::Unlocked(id) => exists|i: int|
                0 <= i < plan.nodes.len() && (#[trigger] plan.nodes[i]).id == id
                    && !plan.nodes[i].locked,
            ProblemModel::InSubplan { node, problem: inner } => exists|i: int|
                0 <= i < plan.nodes.len() && (#[trigger] plan.nodes[i]).id == node
                    && plan.nodes[i].nested() is Some
                    && plan.nodes[i].nested()->0.blocking().contains(*inner),
            _ => plan.problems().contains(problem),
        },
{
    let a = plan.problems();
    let b = plan.unlocked();
    let c = plan.nested_blocking(plan.nodes.len());
    lemma_in_three(a, b, c, problem);
    assert(plan.blocking() == a + b + c);
    law_problems_are_just_these(plan, problem);
    lemma_nested_blocking(plan, plan.nodes.len(), problem);
    let p = |n: NodeModel| !n.locked;
    let f = |n: NodeModel| ProblemModel::Unlocked(n.id);
    let kept = plan.nodes.filter(p);
    assert(b =~= kept.map_values(f));
    if b.contains(problem) {
        let m = choose|m: int| 0 <= m < b.len() && b[m] == problem;
        let j = model::lemma_filter_source(plan.nodes, p, m);
        assert(problem == ProblemModel::Unlocked(plan.nodes[j].id));
    }
    if let ProblemModel::Unlocked(id) = problem {
        if exists|i: int|
            0 <= i < plan.nodes.len() && (#[trigger] plan.nodes[i]).id == id
                && !plan.nodes[i].locked {
            let i = choose|i: int|
                0 <= i < plan.nodes.len() && (#[trigger] plan.nodes[i]).id == id
                    && !plan.nodes[i].locked;
            plan.nodes.lemma_filter_contains(p, i);
            let m = choose|m: int| 0 <= m < kept.len() && kept[m] == plan.nodes[i];
            assert(b[m] == problem);
        }
    }
}

/// Problems are listed in a fixed order of kinds: repeated ids, connections that lead
/// nowhere, steps that are not reached, open steps, and what is wrong inside steps.
pub open spec fn kind(problem: ProblemModel) -> int {
    match problem {
        ProblemModel::DuplicateNode(_) => 0,
        ProblemModel::DanglingEdge { .. } => 1,
        ProblemModel::Unreachable(_) => 2,
        ProblemModel::Unlocked(_) => 3,
        ProblemModel::InSubplan { .. } => 4,
    }
}

/// What stands in the way is listed kind by kind.
pub proof fn law_problems_are_listed_by_kind(plan: GraphModel, i: int, j: int)
    requires
        0 <= i < j < plan.blocking().len(),
    ensures
        kind(plan.blocking()[i]) <= kind(plan.blocking()[j]),
{
    let d = plan.duplicates(plan.nodes.len() as int);
    let e = plan.dangling(plan.edges.len() as int);
    let u = plan.unreachable().map_values(|id: Seq<char>| ProblemModel::Unreachable(id));
    let o = plan.unlocked();
    let n = plan.nested_blocking(plan.nodes.len());
    let all = plan.blocking();
    assert(all =~= d + e + u + o + n);
    assert forall|x: int| 0 <= x < all.len() implies kind(#[trigger] all[x]) == (if x < d.len() {
        0int
    } else if x < d.len() + e.len() {
        1
    } else if x < d.len() + e.len() + u.len() {
        2
    } else if x < d.len() + e.len() + u.len() + o.len() {
        3
    } else {
        4
    }) by {
        if x < d.len() {
            assert(d.contains(d[x]));
            lemma_duplicates(plan, plan.nodes.len() as int, d[x]);
        } else if x < d.len() + e.len() {
            let y = x - d.len();
            assert(e.contains(e[y]));
            lemma_dangling(plan, plan.edges.len() as int, e[y]);
        } else if x < d.len() + e.len() + u.len() {
            let y = x - d.len() - e.len();
            assert(all[x] == u[y]);
        } else if x < d.len() + e.len() + u.len() + o.len() {
            let y = x - d.len() - e.len() - u.len();
            assert(all[x] == o[y]);
        } else {
            let y = x - d.len() - e.len() - u.len() - o.len();
            assert(n.contains(n[y]));
            lemma_nested_blocking(plan, plan.nodes.len(), n[y]);
        }
    }
}

/// A plan begins at the steps that no connection leads to, in the order of the plan.
/// Where there is no such step, it begins at those that only connections closing a loop
/// lead to.
pub proof fn law_roots_are_what_nothing_leads_to(plan: GraphModel)
    ensures
        ({
            let begins = |n: NodeModel|
                forall|k: int|
                    0 <= k < plan.edges.len() ==> (#[trigger] plan.edges[k]).to != n.id;
            let first = plan.nodes.filter(begins).map_values(|n: NodeModel| n.id);
            &&& first.len() > 0 ==> plan.roots() == first
            &&& first.len() == 0 ==> forall|id: Seq<char>| #[trigger]
                plan.roots().contains(id) <==> exists|v: int|
                    0 <= v < plan.nodes.len() && (#[trigger] plan.nodes[v]).id == id
                        && !plan.entered(v)
        }),
{
    let begins = |n: NodeModel|
        forall|k: int| 0 <= k < plan.edges.len() ==> (#[trigger] plan.edges[k]).to != n.id;
    let p = |n: NodeModel| plan.edges_into(n.id).len() == 0;
    assert forall|n: NodeModel| #[trigger] begins(n) <==> p(n) by {
        let q = |e: EdgeModel| e.to == n.id;
        if plan.edges.filter(q).len() > 0 {
            let k = model::lemma_filter_source(plan.edges, q, 0);
            assert(plan.edges[k].to == n.id);
        }
        if !begins(n) {
            let k = choose|k: int|
                0 <= k < plan.edges.len() && (#[trigger] plan.edges[k]).to == n.id;
            plan.edges.lemma_filter_contains(q, k);
            assert(plan.edges.filter(q).contains(plan.edges[k]));
        }
    }
    lemma_same_filter(plan.nodes, begins, p);
    assert forall|id: Seq<char>| #[trigger]
        plan.loop_entries(plan.nodes.len() as int).contains(id) <==> exists|v: int|
            0 <= v < plan.nodes.len() && (#[trigger] plan.nodes[v]).id == id && !plan.entered(
                v,
            ) by {
        lemma_loop_entries(plan, plan.nodes.len() as int, id);
    }
}

proof fn lemma_same_filter(
    nodes: Seq<NodeModel>,
    p: spec_fn(NodeModel) -> bool,
    q: spec_fn(NodeModel) -> bool,
)
    requires
        forall|n: NodeModel| #[trigger] p(n) <==> q(n),
    ensures
        nodes.filter(p) == nodes.filter(q),
    decreases nodes.len(),
{
    reveal(Seq::filter);
    if nodes.len() > 0 {
        lemma_same_filter(nodes.drop_last(), p, q);
        assert(p(nodes.last()) <==> q(nodes.last()));
    }
}

proof fn lemma_loop_entries(plan: GraphModel, m: int, id: Seq<char>)
    requires
        0 <= m <= plan.nodes.len(),
    ensures
        plan.loop_entries(m).contains(id) <==> exists|v: int|
            0 <= v < m && (#[trigger] plan.nodes[v]).id == id && !plan.entered(v),
    decreases m,
{
    let all = plan.loop_entries(m);
    if m > 0 {
        lemma_loop_entries(plan, m - 1, id);
        let rest = plan.loop_entries(m - 1);
        if rest.contains(id) {
            let k = choose|k: int| 0 <= k < rest.len() && rest[k] == id;
            assert(all[k] == id);
        }
        if !plan.entered(m - 1) {
            assert(all[rest.len() as int] == plan.nodes[m - 1].id);
        }
        if all.contains(id) {
            let k = choose|k: int| 0 <= k < all.len() && all[k] == id;
            if k < rest.len() {
                assert(rest[k] == id);
            } else {
                assert(plan.nodes[m - 1].id == id);
            }
        }
    } else {
        assert(all =~= Seq::empty());
    }
}

/// Connections are set aside only where they close a loop, and what is left has none:
/// something can be counted up along every connection that is not set aside.
pub proof fn law_only_loops_are_broken(adj: Seq<Seq<int>>) -> (height: Seq<int>)
    requires
        search::in_bounds(adj),
    ensures
        forall|u: int, v: int| #[trigger]
            search::searched(adj).back.contains((u, v)) ==> 0 <= u < adj.len() && adj[u].contains(v)
                && exists|way: Seq<int>| #[trigger]
                search::is_way(adj, way) && way[0] == v && way.last() == u,
        forall|u: int, v: int|
            #![trigger adj[u].contains(v), search::searched(adj).back.contains((u, v))]
            0 <= u < adj.len() && adj[u].contains(v) && !search::searched(adj).back.contains((u, v))
                ==> height[u] < height[v],
{
    search::lemma_searched(adj);
    search::lemma_columns(adj);
    assert forall|u: int, v: int| #[trigger]
        search::searched(adj).back.contains((u, v)) implies 0 <= u < adj.len() && adj[u].contains(v)
        && exists|way: Seq<int>| #[trigger]
        search::is_way(adj, way) && way[0] == v && way.last() == u by {
        assert(search::leads_to(adj, v, u));
    }
    assert forall|u: int, v: int|
        #![trigger adj[u].contains(v), search::searched(adj).back.contains((u, v))]
        0 <= u < adj.len() && adj[u].contains(v) && !search::searched(adj).back.contains(
            (u, v),
        ) implies search::columns(adj)[u] < search::columns(adj)[v] by {
        assert(search::forward(adj, search::searched(adj).back, u, v));
    }
    search::columns(adj)
}

proof fn lemma_targets(plan: GraphModel, edges: Seq<EdgeModel>, u: int, v: int)
    requires
        0 <= u < plan.nodes.len(),
        0 <= v < plan.nodes.len(),
        plan.last_index(plan.nodes[u].id) == Some(u),
        plan.last_index(plan.nodes[v].id) == Some(v),
    ensures
        plan.targets(edges, u).contains(v) <==> exists|k: int|
            0 <= k < edges.len() && (#[trigger] edges[k]).from == plan.nodes[u].id && edges[k].to
                == plan.nodes[v].id,
    decreases edges.len(),
{
    let all = plan.targets(edges, u);
    if edges.len() > 0 {
        let rest = plan.targets(edges.drop_last(), u);
        let edge = edges.last();
        lemma_targets(plan, edges.drop_last(), u, v);
        plan.lemma_has_last(edge.from);
        plan.lemma_has_last(edge.to);
        if rest.contains(v) {
            let k = choose|k: int| 0 <= k < rest.len() && rest[k] == v;
            assert(all[k] == v);
            let m = choose|m: int|
                0 <= m < edges.drop_last().len() && (#[trigger] edges.drop_last()[m]).from
                    == plan.nodes[u].id && edges.drop_last()[m].to == plan.nodes[v].id;
            assert(edges[m] == edges.drop_last()[m]);
        }
        if all.contains(v) {
            let k = choose|k: int| 0 <= k < all.len() && all[k] == v;
            if k < rest.len() {
                assert(rest[k] == v);
            } else {
                assert(edges[edges.len() - 1].from == plan.nodes[u].id);
            }
        }
        if exists|k: int|
            0 <= k < edges.len() && (#[trigger] edges[k]).from == plan.nodes[u].id && edges[k].to
                == plan.nodes[v].id {
            let k = choose|k: int|
                0 <= k < edges.len() && (#[trigger] edges[k]).from == plan.nodes[u].id
                    && edges[k].to == plan.nodes[v].id;
            if k < edges.len() - 1 {
                assert(edges.drop_last()[k] == edges[k]);
            } else {
                assert(plan.last_index(edge.from) == Some(u));
                assert(all.last() == v);
            }
        }
    } else {
        assert(all =~= Seq::empty());
    }
}

/// By number, one step leads to another just where a connection leads from the one's id
/// to the other's.
pub proof fn law_steps_lead_where_connections_do(plan: GraphModel, u: int, v: int)
    requires
        forall|i: int, j: int|
            #![trigger plan.nodes[i], plan.nodes[j]]
            0 <= i < j < plan.nodes.len() ==> plan.nodes[i].id != plan.nodes[j].id,
        0 <= u < plan.nodes.len(),
        0 <= v < plan.nodes.len(),
    ensures
        plan.adjacency()[u].contains(v) <==> exists|k: int|
            0 <= k < plan.edges.len() && (#[trigger] plan.edges[k]).from == plan.nodes[u].id
                && plan.edges[k].to == plan.nodes[v].id,
{
    assert(plan.is_last_index(plan.nodes[u].id, u));
    assert(plan.is_last_index(plan.nodes[v].id, v));
    plan.lemma_last_index(plan.nodes[u].id, u);
    plan.lemma_last_index(plan.nodes[v].id, v);
    lemma_targets(plan, plan.edges, u, v);
}

} // verus!
