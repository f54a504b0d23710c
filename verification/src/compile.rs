//! Turning a finished graph into instructions the agent can follow.
//!
//! The order is the order the graph implies, and every condition is stated in
//! full, including the ones that loop, so the agent never has to infer control
//! flow from the shape of something it cannot see.
use crate::graph::{self, ArchitectEdge, ArchitectGraph, EdgeCondition, NodeId};
use crate::layout;
use crate::model::{ConditionModel, EdgeModel, GraphModel};
use crate::problems::{self, GraphProblem};
use crate::search::{self, assign_columns, depth_first};
use crate::text;
use vstd::prelude::*;

verus! {

/// The steps of the columns before `c`, column by column, in graph order within
/// each.
pub open spec fn steps_before(cols: Seq<int>, c: int) -> Seq<int>
    decreases c,
{
    if c <= 0 {
        Seq::empty()
    } else {
        steps_before(cols, c - 1) + layout::group(cols, c - 1, cols.len() as int)
    }
}

impl GraphModel {
    /// The order the steps run in, by step number: by column, then by place in
    /// the plan.
    pub open spec fn order(self) -> Seq<int> {
        let cols = search::columns(self.adjacency());
        steps_before(cols, layout::highest(cols) + 1)
    }

    /// Whether the `p`th step to run is the first one with this id.
    pub open spec fn runs_at(self, id: Seq<char>, p: int) -> bool {
        &&& 0 <= p < self.order().len()
        &&& self.nodes[self.order()[p]].id == id
        &&& forall|q: int| 0 <= q < p ==> self.nodes[#[trigger] self.order()[q]].id != id
    }

    /// The number of the step of an id, counting from one.
    pub open spec fn step_number(self, id: Seq<char>) -> Option<nat> {
        if exists|p: int| self.runs_at(id, p) {
            Some(((choose|p: int| self.runs_at(id, p)) + 1) as nat)
        } else {
            None
        }
    }

    /// Where a connection leads, as told to a reader at step `number`.
    pub open spec fn destination(self, to: Seq<char>, number: nat) -> Seq<char> {
        let title = match self.node(to) {
            Some(node) => node.title,
            None => to,
        };
        match self.step_number(to) {
            Some(target) => if target <= number {
                "go back to step "@ + text::decimal(target) + " ("@ + title + ")"@
            } else {
                "go to step "@ + text::decimal(target) + " ("@ + title + ")"@
            },
            None => "go to "@ + title,
        }
    }

    /// One way out of a step, as a line.
    pub open spec fn way_line(self, edge: EdgeModel, number: nat) -> Seq<char> {
        let destination = self.destination(edge.to, number);
        match edge.condition {
            ConditionModel::Always => "- "@ + destination + ".\n"@,
            ConditionModel::Deterministic { expression } => "- If "@ + expression + ", "@
                + destination + ".\n"@,
            ConditionModel::LlmEvaluated { question } =>
                "- Judge for yourself: if the answer to \""@ + question + "\" is yes, "@
                + destination + ".\n"@,
        }
    }

    /// What comes after a step.
    pub open spec fn ways_part(self, id: Seq<char>, number: nat) -> Seq<char> {
        let edges = self.edges_from(id);
        if edges.len() == 0 {
            "\nThis is a final step; when it is done, the plan is complete.\n"@
        } else {
            "\nThen:\n"@ + text::flat(edges.map_values(|e: EdgeModel| self.way_line(e, number)))
        }
    }

    /// What the spec says of the `p`th step to run.
    pub open spec fn section(self, p: int) -> Seq<char> {
        let node = self.nodes[self.order()[p]];
        let number = (p + 1) as nat;
        "\n## Step "@ + text::decimal(number) + ": "@ + node.title + "\n"@ + goal_part(node.intent)
            + rules_part("\nRules:\n"@, node.rules) + self.ways_part(node.id, number)
    }

    /// The spec of a plan.
    pub open spec fn spec_text(self) -> Seq<char> {
        opening() + text::flat(Seq::new(self.order().len(), |p: int| self.section(p)))
    }
}

/// How every spec begins.
pub open spec fn opening() -> Seq<char> {
    "Follow this plan. Each step states what it must accomplish and the rules it must honour. Work through the steps in order, and take a connection only when its condition holds.\n"@
}

/// What a step has to accomplish, where it says so.
pub open spec fn goal_part(intent: Seq<char>) -> Seq<char> {
    if text::is_blank(intent) {
        Seq::empty()
    } else {
        "\nGoal: "@ + text::trimmed(intent) + "\n"@
    }
}

/// The rules of a step under a heading, where it has any.
pub open spec fn rules_part(heading: Seq<char>, rules: Seq<Seq<char>>) -> Seq<char> {
    if rules.len() == 0 {
        Seq::empty()
    } else {
        heading + text::bulleted(rules)
    }
}

/// Writes what a step has to accomplish.
pub fn goal_text(intent: &str) -> (res: String)
    ensures
        res@ == goal_part(intent@),
{
    if text::blank(intent) {
        let res = String::new();
        proof {
            assert(res@ =~= Seq::empty());
        }
        res
    } else {
        text::cat3("\nGoal: ", text::trim(intent), "\n")
    }
}

/// Writes the rules of a step.
pub fn rules_text(heading: &str, rules: &Vec<String>) -> (res: String)
    ensures
        res@ == rules_part(heading@, graph::texts(rules@)),
{
    if rules.len() == 0 {
        let res = String::new();
        proof {
            assert(res@ =~= Seq::empty());
        }
        res
    } else {
        text::cat2(heading, text::bullets(rules).as_str())
    }
}

proof fn lemma_steps_before(cols: Seq<int>, c: int)
    requires
        0 <= c,
    ensures
        forall|p: int|
            0 <= p < steps_before(cols, c).len() ==> 0 <= #[trigger] steps_before(cols, c)[p]
                < cols.len() && 0 <= cols[steps_before(cols, c)[p]] < c,
        forall|p: int, q: int|
            0 <= p < q < steps_before(cols, c).len() ==> cols[#[trigger] steps_before(cols, c)[p]]
                < cols[#[trigger] steps_before(cols, c)[q]] || (cols[steps_before(cols, c)[p]]
                == cols[steps_before(cols, c)[q]] && steps_before(cols, c)[p] < steps_before(
                cols,
                c,
            )[q]),
        forall|v: int|
            0 <= v < cols.len() && 0 <= cols[v] < c ==> #[trigger] steps_before(cols, c).contains(v),
    decreases c,
{
    if c > 0 {
        lemma_steps_before(cols, c - 1);
        lemma_group_increasing(cols, c - 1, cols.len() as int);
        let rest = steps_before(cols, c - 1);
        let last = layout::group(cols, c - 1, cols.len() as int);
        let all = steps_before(cols, c);
        assert forall|p: int| 0 <= p < all.len() implies 0 <= #[trigger] all[p] < cols.len() && 0
            <= cols[all[p]] < c by {
            if p < rest.len() {
                assert(all[p] == rest[p]);
            } else {
                assert(all[p] == last[p - rest.len()]);
            }
        }
        assert forall|p: int, q: int| 0 <= p < q < all.len() implies cols[#[trigger] all[p]]
            < cols[#[trigger] all[q]] || (cols[all[p]] == cols[all[q]] && all[p] < all[q]) by {
            if p < rest.len() {
                assert(all[p] == rest[p]);
            } else {
                assert(all[p] == last[p - rest.len()]);
            }
            if q < rest.len() {
                assert(all[q] == rest[q]);
            } else {
                assert(all[q] == last[q - rest.len()]);
            }
        }
        assert forall|v: int| 0 <= v < cols.len() && 0 <= cols[v] < c implies #[trigger] all.contains(
            v,
        ) by {
            if cols[v] < c - 1 {
                assert(rest.contains(v));
                let p = choose|p: int| 0 <= p < rest.len() && rest[p] == v;
                assert(all[p] == v);
            } else {
                assert(last.contains(v));
                let p = choose|p: int| 0 <= p < last.len() && last[p] == v;
                assert(all[rest.len() + p] == v);
            }
        }
    }
}

proof fn lemma_group_increasing(cols: Seq<int>, c: int, m: int)
    requires
        0 <= m <= cols.len(),
    ensures
        forall|p: int|
            0 <= p < layout::group(cols, c, m).len() ==> 0 <= #[trigger] layout::group(cols, c, m)[p] < m
                && cols[layout::group(cols, c, m)[p]] == c,
        forall|p: int, q: int|
            0 <= p < q < layout::group(cols, c, m).len() ==> #[trigger] layout::group(cols, c, m)[p]
                < #[trigger] layout::group(cols, c, m)[q],
        forall|v: int| 0 <= v < m && cols[v] == c ==> #[trigger] layout::group(cols, c, m).contains(v),
    decreases m,
{
    if m > 0 {
        lemma_group_increasing(cols, c, m - 1);
        let rest = layout::group(cols, c, m - 1);
        let all = layout::group(cols, c, m);
        assert forall|p: int| 0 <= p < all.len() implies 0 <= #[trigger] all[p] < m && cols[all[p]]
            == c by {
            if p < rest.len() {
                assert(all[p] == rest[p]);
            }
        }
        assert forall|p: int, q: int| 0 <= p < q < all.len() implies #[trigger] all[p]
            < #[trigger] all[q] by {
            assert(all[p] == rest[p]);
            if q < rest.len() {
                assert(all[q] == rest[q]);
            }
        }
        assert forall|v: int| 0 <= v < m && cols[v] == c implies #[trigger] all.contains(v) by {
            if v < m - 1 {
                assert(rest.contains(v));
                let p = choose|p: int| 0 <= p < rest.len() && rest[p] == v;
                assert(all[p] == v);
            } else {
                assert(all[rest.len() as int] == v);
            }
        }
    }
}

/// The order holds every step once, and a step comes after every step that leads
/// to it by a connection that closes no loop.
pub proof fn law_order_follows_connections(plan: GraphModel)
    ensures
        plan.order().no_duplicates(),
        forall|v: int| 0 <= v < plan.nodes.len() ==> #[trigger] plan.order().contains(v),
        forall|p: int|
            0 <= p < plan.order().len() ==> 0 <= #[trigger] plan.order()[p] < plan.nodes.len(),
        forall|p: int, q: int|
            #![trigger plan.order()[p], plan.order()[q]]
            0 <= p < plan.order().len() && 0 <= q < plan.order().len() && search::forward(
                plan.adjacency(),
                search::searched(plan.adjacency()).back,
                plan.order()[p],
                plan.order()[q],
            ) ==> p < q,
{
    plan.lemma_adjacency();
    let adj = plan.adjacency();
    search::lemma_columns(adj);
    let cols = search::columns(adj);
    crate::layout::lemma_highest(cols);
    lemma_steps_before(cols, layout::highest(cols) + 1);
    let order = plan.order();
    assert forall|v: int| 0 <= v < plan.nodes.len() implies #[trigger] order.contains(v) by {
        assert(0 <= cols[v] <= layout::highest(cols));
    }
    assert forall|p: int, q: int|
        #![trigger order[p], order[q]]
        0 <= p < order.len() && 0 <= q < order.len() && search::forward(
            adj,
            search::searched(adj).back,
            order[p],
            order[q],
        ) implies p < q by {
        assert(cols[order[p]] < cols[order[q]]);
    }
}

/// The order the steps run in: every step comes after the steps that lead into
/// it. Edges that close a loop are excluded from the ordering, since a loop by
/// definition cannot be honoured by a linear sequence; they are reported in the
/// spec as jumps instead.
pub fn execution_order(graph: &ArchitectGraph) -> (res: Vec<usize>)
    ensures
        search::numbers(res@) == graph@.order(),
        forall|p: int| 0 <= p < res@.len() ==> #[trigger] res@[p] < graph.nodes@.len(),
{
    let adjacency = graph.adjacency();
    let traversal = depth_first(&adjacency);
    let columns = assign_columns(&adjacency, &traversal);
    let ghost cols = search::numbers(columns@);
    let mut order: Vec<usize> = Vec::new();
    let n: usize = graph.nodes.len();
    proof {
        graph.lemma_view();
        graph@.lemma_adjacency();
        search::lemma_columns(graph@.adjacency());
        assert(cols.len() == n);
        assert(search::numbers(order@) =~= Seq::empty());
        crate::layout::lemma_highest(cols);
    }
    if n == 0 {
        proof {
            assert(cols =~= Seq::empty());
            reveal_with_fuel(steps_before, 2);
            assert(layout::group(cols, 0, 0) =~= Seq::empty());
            assert(graph@.order() =~= Seq::empty());
        }
        return order;
    }
    let top: usize = crate::layout::highest_column(&columns);
    let mut c: usize = 0;
    proof {
        if layout::highest(cols) > 0 {
            let v = choose|v: int| 0 <= v < cols.len() && #[trigger] cols[v] == layout::highest(cols);
            assert(cols[v] < n);
        }
    }
    while c < top + 1
        invariant
            top < n,
            c <= top + 1,
            n == graph.nodes@.len(),
            n == columns@.len(),
            cols == search::numbers(columns@),
            search::numbers(order@) == steps_before(cols, c as int),
            forall|p: int| 0 <= p < order@.len() ==> #[trigger] order@[p] < n,
        decreases top + 1 - c,
    {
        let ghost before = search::numbers(order@);
        proof {
            assert(before + layout::group(cols, c as int, 0) =~= before);
        }
        for v in 0..n
            invariant
                n == columns@.len(),
                cols == search::numbers(columns@),
                search::numbers(order@) == before + layout::group(cols, c as int, v as int),
                forall|p: int| 0 <= p < order@.len() ==> #[trigger] order@[p] < n,
        {
            proof {
                assert(cols[v as int] == columns@[v as int] as int);
            }
            if columns[v] == c {
                let ghost was = order@;
                order.push(v);
                proof {
                    assert(search::numbers(order@) =~= search::numbers(was).push(v as int));
                    assert(before + layout::group(cols, c as int, v + 1) =~= (before + layout::group(
                        cols,
                        c as int,
                        v as int,
                    )).push(v as int));
                }
            }
        }
        c += 1;
    }
    order
}

fn step_number_of(graph: &ArchitectGraph, order: &Vec<usize>, id: &NodeId) -> (res: Option<u128>)
    requires
        search::numbers(order@) == graph@.order(),
        forall|p: int| 0 <= p < order@.len() ==> #[trigger] order@[p] < graph.nodes@.len(),
    ensures
        match res {
            Some(number) => graph@.step_number(id@) == Some(number as nat),
            None => graph@.step_number(id@) is None,
        },
{
    proof {
        graph.lemma_view();
    }
    for p in 0..order.len()
        invariant
            search::numbers(order@) == graph@.order(),
            graph@.nodes.len() == graph.nodes@.len(),
            forall|q: int| 0 <= q < order@.len() ==> #[trigger] order@[q] < graph.nodes@.len(),
            forall|q: int| 0 <= q < p ==> graph@.nodes[#[trigger] graph@.order()[q]].id != id@,
    {
        proof {
            graph.lemma_view();
            assert(graph@.order()[p as int] == order@[p as int] as int);
            assert(graph@.nodes[order@[p as int] as int] == graph.nodes@[order@[p as int] as int]@);
        }
        if graph.nodes[order[p]].id.same(id) {
            proof {
                assert(graph@.runs_at(id@, p as int));
                let c = choose|c: int| graph@.runs_at(id@, c);
                assert(graph@.runs_at(id@, c));
                if c < p {
                    assert(graph@.nodes[graph@.order()[c]].id != id@);
                }
                if p < c {
                    assert(graph@.nodes[graph@.order()[p as int]].id != id@);
                }
            }
            return Some(p as u128 + 1);
        }
    }
    proof {
        if exists|p: int| graph@.runs_at(id@, p) {
            let p = choose|p: int| graph@.runs_at(id@, p);
            assert(graph@.nodes[graph@.order()[p]].id != id@);
        }
    }
    None
}

fn way_text(graph: &ArchitectGraph, order: &Vec<usize>, edge: &ArchitectEdge, number: u128) -> (res:
    String)
    requires
        search::numbers(order@) == graph@.order(),
        forall|p: int| 0 <= p < order@.len() ==> #[trigger] order@[p] < graph.nodes@.len(),
    ensures
        res@ == graph@.way_line(edge@, number as nat),
{
    let title = match graph.node(&edge.to) {
        Some(node) => node.title.as_str(),
        None => edge.to.0.as_str(),
    };
    let destination = match step_number_of(graph, order, &edge.to) {
        Some(target) => if target <= number {
            text::cat5("go back to step ", text::number(target).as_str(), " (", title, ")")
        } else {
            text::cat5("go to step ", text::number(target).as_str(), " (", title, ")")
        },
        None => text::cat2("go to ", title),
    };
    let destination = destination.as_str();
    match &edge.condition {
        EdgeCondition::Always => text::cat3("- ", destination, ".\n"),
        EdgeCondition::Deterministic { expression } => text::cat5(
            "- If ",
            expression.as_str(),
            ", ",
            destination,
            ".\n",
        ),
        EdgeCondition::LlmEvaluated { question } => text::cat5(
            "- Judge for yourself: if the answer to \"",
            question.as_str(),
            "\" is yes, ",
            destination,
            ".\n",
        ),
    }
}

fn ways_text(graph: &ArchitectGraph, order: &Vec<usize>, id: &NodeId, number: u128) -> (res: String)
    requires
        search::numbers(order@) == graph@.order(),
        forall|p: int| 0 <= p < order@.len() ==> #[trigger] order@[p] < graph.nodes@.len(),
    ensures
        res@ == graph@.ways_part(id@, number as nat),
{
    let edges = graph.edges_from(id);
    let ghost all = graph@.edges_from(id@);
    let ghost f = |e: EdgeModel| graph@.way_line(e, number as nat);
    let ghost lines = all.map_values(f);
    proof {
        assert(edges@.map_values(|e: &ArchitectEdge| e@).len() == edges@.len());
    }
    if edges.len() == 0 {
        return "\nThis is a final step; when it is done, the plan is complete.\n".to_owned();
    }
    let mut out = String::new();
    proof {
        assert(lines.take(0) =~= Seq::empty());
    }
    for k in 0..edges.len()
        invariant
            search::numbers(order@) == graph@.order(),
            forall|p: int| 0 <= p < order@.len() ==> #[trigger] order@[p] < graph.nodes@.len(),
            all == edges@.map_values(|e: &ArchitectEdge| e@),
            f == (|e: EdgeModel| graph@.way_line(e, number as nat)),
            lines == all.map_values(f),
            lines.len() == edges@.len(),
            out@ == text::flat(lines.take(k as int)),
    {
        let line = way_text(graph, order, edges[k], number);
        out.append(line.as_str());
        proof {
            assert(all[k as int] == edges@[k as int]@);
            assert(lines.take(k + 1) =~= lines.take(k as int).push(line@));
            text::lemma_flat_push(lines.take(k as int), line@);
        }
    }
    proof {
        assert(lines.take(lines.len() as int) =~= lines);
    }
    text::cat2("\nThen:\n", out.as_str())
}

fn section_text(graph: &ArchitectGraph, order: &Vec<usize>, p: usize) -> (res: String)
    requires
        search::numbers(order@) == graph@.order(),
        forall|q: int| 0 <= q < order@.len() ==> #[trigger] order@[q] < graph.nodes@.len(),
        p < order@.len(),
    ensures
        res@ == graph@.section(p as int),
{
    let node = &graph.nodes[order[p]];
    let number: u128 = p as u128 + 1;
    proof {
        graph.lemma_view();
        assert(graph@.order()[p as int] == order@[p as int] as int);
        assert(graph@.nodes[order@[p as int] as int] == node@);
    }
    let mut out = text::cat5(
        "\n## Step ",
        text::number(number).as_str(),
        ": ",
        node.title.as_str(),
        "\n",
    );
    out.append(goal_text(node.intent.as_str()).as_str());
    out.append(rules_text("\nRules:\n", &node.rules).as_str());
    out.append(ways_text(graph, order, &node.id, number).as_str());
    out
}

/// Compiles a graph into an ordered spec, or reports why it is not ready.
///
/// Every step has to be locked first: an unlocked step is one the user is still
/// deliberating, and running a half-argued plan is how a plan stops being worth
/// making.
pub fn compile_spec(graph: &ArchitectGraph) -> (res: Result<String, Vec<GraphProblem>>)
    ensures
        match res {
            Ok(spec_text) => graph@.nodes.len() > 0 && graph@.blocking().len() == 0 && spec_text@
                == graph@.spec_text(),
            Err(problems) => problems::problem_models(problems@) == graph@.blocking() && (
            graph@.blocking().len() > 0 || graph@.nodes.len() == 0),
        },
{
    let problems = graph.blocking_problems();
    proof {
        assert(problems::problem_models(problems@).len() == problems@.len());
    }
    if problems.len() > 0 || graph.is_empty() {
        return Err(problems);
    }
    let order = execution_order(graph);
    let ghost sections = Seq::new(graph@.order().len(), |p: int| graph@.section(p));
    let mut body = String::new();
    proof {
        assert(search::numbers(order@).len() == order@.len());
        assert(sections.take(0) =~= Seq::empty());
    }
    for p in 0..order.len()
        invariant
            search::numbers(order@) == graph@.order(),
            forall|q: int| 0 <= q < order@.len() ==> #[trigger] order@[q] < graph.nodes@.len(),
            sections == Seq::new(graph@.order().len(), |p: int| graph@.section(p)),
            sections.len() == order@.len(),
            body@ == text::flat(sections.take(p as int)),
    {
        let section = section_text(graph, &order, p);
        body.append(section.as_str());
        proof {
            assert(sections.take(p + 1) =~= sections.take(p as int).push(section@));
            text::lemma_flat_push(sections.take(p as int), section@);
        }
    }
    proof {
        assert(sections.take(sections.len() as int) =~= sections);
    }
    Ok(
        text::cat2(
            "Follow this plan. Each step states what it must accomplish and the rules it must honour. Work through the steps in order, and take a connection only when its condition holds.\n",
            body.as_str(),
        ),
    )
}

spec fn way_said(condition: ConditionModel, destination: Seq<char>) -> Seq<char> {
    match condition {
        ConditionModel::Always => "- "@ + destination + ".\n"@,
        ConditionModel::Deterministic { expression } => "- If "@ + (expression + (", "@
            + destination + ".\n"@)),
        ConditionModel::LlmEvaluated { question } =>
            "- Judge for yourself: if the answer to \""@ + (question + ("\" is yes, "@ + destination
            + ".\n"@)),
    }
}

proof fn lemma_runs_at(plan: GraphModel, q: int)
    requires
        forall|i: int, j: int|
            #![trigger plan.nodes[i], plan.nodes[j]]
            0 <= i < j < plan.nodes.len() ==> plan.nodes[i].id != plan.nodes[j].id,
        0 <= q < plan.order().len(),
    ensures
        0 <= plan.order()[q] < plan.nodes.len(),
        plan.step_number(plan.nodes[plan.order()[q]].id) == Some((q + 1) as nat),
        plan.node(plan.nodes[plan.order()[q]].id) == Some(plan.nodes[plan.order()[q]]),
{
    law_order_follows_connections(plan);
    let order = plan.order();
    let t = order[q];
    let id = plan.nodes[t].id;
    assert forall|k: int| 0 <= k < q implies plan.nodes[#[trigger] order[k]].id != id by {
        assert(order[k] != t);
        assert(plan.nodes[order[k]].id != plan.nodes[t].id);
    }
    assert(plan.runs_at(id, q));
    let r = choose|r: int| plan.runs_at(id, r);
    assert(plan.runs_at(id, r));
    if r < q {
        assert(plan.nodes[order[r]].id != id);
    }
    if q < r {
        assert(plan.nodes[order[q]].id != id);
    }
    assert(plan.is_index(id, t));
    plan.lemma_index(id, t);
}

proof fn lemma_way_said(plan: GraphModel, edge: EdgeModel, number: nat)
    ensures
        plan.way_line(edge, number) == way_said(
            edge.condition,
            plan.destination(edge.to, number),
        ),
{
    let d = plan.destination(edge.to, number);
    match edge.condition {
        ConditionModel::Always => {},
        ConditionModel::Deterministic { expression } => {
            assert("- If "@ + expression + ", "@ + d + ".\n"@ =~= "- If "@ + (expression + (", "@ + d
                + ".\n"@)));
        },
        ConditionModel::LlmEvaluated { question } => {
            assert("- Judge for yourself: if the answer to \""@ + question + "\" is yes, "@ + d
                + ".\n"@ =~= "- Judge for yourself: if the answer to \""@ + (question + (
            "\" is yes, "@ + d + ".\n"@)));
        },
    }
}

/// A spec is its opening and one section for each step, in the order they run. A section
/// starts with the number and title of its step, says its goal and each of its rules, and
/// ends with the ways out of it in order, each with its condition in full and with the
/// number and title of the step it leads to.
pub proof fn law_spec_states_every_step_and_condition(plan: GraphModel) -> (sections: Seq<Seq<char>>)
    requires
        forall|i: int, j: int|
            #![trigger plan.nodes[i], plan.nodes[j]]
            0 <= i < j < plan.nodes.len() ==> plan.nodes[i].id != plan.nodes[j].id,
    ensures
        sections.len() == plan.order().len(),
        plan.spec_text()
            == "Follow this plan. Each step states what it must accomplish and the rules it must honour. Work through the steps in order, and take a connection only when its condition holds.\n"@
            + sections.flatten(),
        forall|p: int|
            #![trigger sections[p]]
            0 <= p < sections.len() ==> {
                let node = plan.nodes[plan.order()[p]];
                let out = plan.edges.filter(|e: EdgeModel| e.from == node.id);
                &&& ("\n## Step "@ + text::decimal((p + 1) as nat) + ": "@ + node.title
                    + "\n"@).is_prefix_of(sections[p])
                &&& !text::is_blank(node.intent) ==> text::part_of(
                    "\nGoal: "@ + text::trimmed(node.intent) + "\n"@,
                    sections[p],
                )
                &&& node.rules.len() > 0 ==> text::part_of(
                    "\nRules:\n"@ + Seq::new(
                        node.rules.len(),
                        |i: int| "- "@ + node.rules[i] + "\n"@,
                    ).flatten(),
                    sections[p],
                )
                &&& out.len() == 0
                    ==> "\nThis is a final step; when it is done, the plan is complete.\n"@.is_suffix_of(
                    sections[p],
                )
                &&& out.len() > 0 ==> ("\nThen:\n"@ + Seq::new(
                    out.len(),
                    |k: int| plan.way_line(out[k], (p + 1) as nat),
                ).flatten()).is_suffix_of(sections[p])
            },
        forall|p: int, q: int|
            #![trigger plan.order()[p], plan.order()[q]]
            0 <= p < plan.order().len() && 0 <= q < plan.order().len() ==> {
                let target = plan.nodes[plan.order()[q]];
                plan.destination(target.id, (p + 1) as nat) == (if q <= p {
                    "go back to step "@
                } else {
                    "go to step "@
                }) + text::decimal((q + 1) as nat) + " ("@ + target.title + ")"@
            },
{
    let sections = Seq::new(plan.order().len(), |p: int| plan.section(p));
    text::law_flat_is_flattened(sections);
    assert forall|p: int| #![trigger sections[p]] 0 <= p < sections.len() implies {
        let node = plan.nodes[plan.order()[p]];
        let out = plan.edges.filter(|e: EdgeModel| e.from == node.id);
        &&& ("\n## Step "@ + text::decimal((p + 1) as nat) + ": "@ + node.title
            + "\n"@).is_prefix_of(sections[p])
        &&& !text::is_blank(node.intent) ==> text::part_of(
            "\nGoal: "@ + text::trimmed(node.intent) + "\n"@,
            sections[p],
        )
        &&& node.rules.len() > 0 ==> text::part_of(
            "\nRules:\n"@ + Seq::new(
                node.rules.len(),
                |i: int| "- "@ + node.rules[i] + "\n"@,
            ).flatten(),
            sections[p],
        )
        &&& out.len() == 0
            ==> "\nThis is a final step; when it is done, the plan is complete.\n"@.is_suffix_of(
            sections[p],
        )
        &&& out.len() > 0 ==> ("\nThen:\n"@ + Seq::new(
            out.len(),
            |k: int| plan.way_line(out[k], (p + 1) as nat),
        ).flatten()).is_suffix_of(sections[p])
    } by {
        lemma_section(plan, p);
    }
    assert forall|p: int, q: int|
        #![trigger plan.order()[p], plan.order()[q]]
        0 <= p < plan.order().len() && 0 <= q < plan.order().len() implies {
        let target = plan.nodes[plan.order()[q]];
        plan.destination(target.id, (p + 1) as nat) == (if q <= p {
                    "go back to step "@
                } else {
                    "go to step "@
                }) + text::decimal((q + 1) as nat) + " ("@ + target.title + ")"@
    } by {
        lemma_runs_at(plan, q);
    }
    sections
}

proof fn lemma_section(plan: GraphModel, p: int)
    requires
        0 <= p < plan.order().len(),
    ensures
        ({
            let section = plan.section(p);
            let node = plan.nodes[plan.order()[p]];
            let out = plan.edges.filter(|e: EdgeModel| e.from == node.id);
            &&& ("\n## Step "@ + text::decimal((p + 1) as nat) + ": "@ + node.title
                + "\n"@).is_prefix_of(section)
            &&& !text::is_blank(node.intent) ==> text::part_of(
                "\nGoal: "@ + text::trimmed(node.intent) + "\n"@,
                section,
            )
            &&& node.rules.len() > 0 ==> text::part_of(
                "\nRules:\n"@ + Seq::new(
                    node.rules.len(),
                    |i: int| "- "@ + node.rules[i] + "\n"@,
                ).flatten(),
                section,
            )
            &&& out.len() == 0
                ==> "\nThis is a final step; when it is done, the plan is complete.\n"@.is_suffix_of(
                section,
            )
            &&& out.len() > 0 ==> ("\nThen:\n"@ + Seq::new(
                out.len(),
                |k: int| plan.way_line(out[k], (p + 1) as nat),
            ).flatten()).is_suffix_of(section)
        }),
{
    let section = plan.section(p);
    let number = (p + 1) as nat;
    let node = plan.nodes[plan.order()[p]];
    let out = plan.edges.filter(|e: EdgeModel| e.from == node.id);
    let heading = "\n## Step "@ + text::decimal(number) + ": "@ + node.title + "\n"@;
    let goal = goal_part(node.intent);
    let rules = rules_part("\nRules:\n"@, node.rules);
    let ways = plan.ways_part(node.id, number);
    lemma_four_parts(heading, goal, rules, ways);
    assert(section == heading + goal + rules + ways);
    if node.rules.len() > 0 {
        let lines = Seq::new(node.rules.len(), |i: int| "- "@ + node.rules[i] + "\n"@);
        assert(node.rules.map_values(|item: Seq<char>| "- "@ + item + "\n"@) =~= lines);
        text::law_flat_is_flattened(lines);
    }
    if out.len() > 0 {
        let lines = Seq::new(
            out.len(),
            |k: int| plan.way_line(out[k], number),
        );
        let written = plan.edges_from(node.id).map_values(|e: EdgeModel| plan.way_line(e, number));
        assert(written =~= lines);
        text::law_flat_is_flattened(lines);
    }
}

proof fn lemma_four_parts(a: Seq<char>, b: Seq<char>, c: Seq<char>, d: Seq<char>)
    ensures
        a.is_prefix_of(a + b + c + d),
        text::part_of(b, a + b + c + d),
        text::part_of(c, a + b + c + d),
        d.is_suffix_of(a + b + c + d),
{
    let whole = a + b + c + d;
    assert(a =~= whole.subrange(0, a.len() as int));
    text::lemma_part(a, b, c + d);
    assert(a + b + (c + d) =~= whole);
    text::lemma_part(a + b, c, d);
    assert(d =~= whole.subrange(whole.len() - d.len(), whole.len() as int));
}

/// The line of a way out of a step states its condition in full, word for word, and then
/// where it leads; only a way that is always taken states none.
pub proof fn law_conditions_are_stated_in_full(plan: GraphModel, edge: EdgeModel, number: nat)
    ensures
        ({
            let line = plan.way_line(edge, number);
            let end = plan.destination(edge.to, number) + ".\n"@;
            &&& end.is_suffix_of(line)
            &&& edge.condition matches ConditionModel::Deterministic { expression } ==> line
                == "- If "@ + expression + ", "@ + plan.destination(edge.to, number) + ".\n"@
                && text::part_of(expression, line)
            &&& edge.condition matches ConditionModel::LlmEvaluated { question } ==> line
                == "- Judge for yourself: if the answer to \""@ + question + "\" is yes, "@
                + plan.destination(edge.to, number) + ".\n"@ && text::part_of(question, line)
            &&& edge.condition == ConditionModel::Always ==> line == "- "@ + plan.destination(
                edge.to,
                number,
            ) + ".\n"@
        }),
{
    let line = plan.way_line(edge, number);
    let d = plan.destination(edge.to, number);
    let end = d + ".\n"@;
    lemma_way_said(plan, edge, number);
    match edge.condition {
        ConditionModel::Always => {
            assert(end =~= line.subrange(line.len() - end.len(), line.len() as int));
        },
        ConditionModel::Deterministic { expression } => {
            let after = ", "@ + d + ".\n"@;
            text::lemma_part("- If "@, expression, after);
            assert("- If "@ + expression + after =~= line);
            assert(end =~= line.subrange(line.len() - end.len(), line.len() as int));
        },
        ConditionModel::LlmEvaluated { question } => {
            let before = "- Judge for yourself: if the answer to \""@;
            let after = "\" is yes, "@ + d + ".\n"@;
            text::lemma_part(before, question, after);
            assert(before + question + after =~= line);
            assert(end =~= line.subrange(line.len() - end.len(), line.len() as int));
        },
    }
}

/// Ways out of a step to the same place on different terms are told apart.
pub proof fn law_different_conditions_read_differently(
    plan: GraphModel,
    a: EdgeModel,
    b: EdgeModel,
    number: nat,
)
    requires
        a.to == b.to,
        a.condition != b.condition,
    ensures
        plan.way_line(a, number) != plan.way_line(b, number),
{
    let destination = plan.destination(a.to, number);
    lemma_way_said(plan, a, number);
    lemma_way_said(plan, b, number);
    reveal_strlit("- ");
    reveal_strlit("- If ");
    reveal_strlit("- Judge for yourself: if the answer to \"");
    reveal_strlit("go back to step ");
    reveal_strlit("go to step ");
    reveal_strlit("go to ");
    assert(destination.len() > 0 && destination[0] == 'g');
    let x = plan.way_line(a, number);
    let y = plan.way_line(b, number);
    if x == y {
        assert(x[2] == y[2]);
        match (a.condition, b.condition) {
            (
                ConditionModel::Deterministic { expression: m },
                ConditionModel::Deterministic { expression: n },
            ) => {
                let end = ", "@ + destination + ".\n"@;
                lemma_middle("- If "@, m, n, end);
            },
            (
                ConditionModel::LlmEvaluated { question: m },
                ConditionModel::LlmEvaluated { question: n },
            ) => {
                let end = "\" is yes, "@ + destination + ".\n"@;
                lemma_middle("- Judge for yourself: if the answer to \""@, m, n, end);
            },
            _ => {},
        }
    }
}

proof fn lemma_middle(front: Seq<char>, a: Seq<char>, b: Seq<char>, back: Seq<char>)
    requires
        front + (a + back) == front + (b + back),
    ensures
        a == b,
{
    let x = front + (a + back);
    let y = front + (b + back);
    assert(x.len() == y.len());
    assert(a =~= x.subrange(front.len() as int, (front.len() + a.len()) as int));
    assert(b =~= y.subrange(front.len() as int, (front.len() + b.len()) as int));
}

/// Steps are ordered by how far along they stand, and in the order of the plan where they
/// stand equally far.
pub proof fn law_order_goes_by_column(plan: GraphModel, p: int, q: int)
    requires
        0 <= p < q < plan.order().len(),
    ensures
        ({
            let cols = search::columns(plan.adjacency());
            let a = plan.order()[p];
            let b = plan.order()[q];
            cols[a] < cols[b] || (cols[a] == cols[b] && a < b)
        }),
{
    plan.lemma_adjacency();
    let adj = plan.adjacency();
    search::lemma_columns(adj);
    let cols = search::columns(adj);
    crate::layout::lemma_highest(cols);
    lemma_steps_before(cols, layout::highest(cols) + 1);
}

} // verus!
