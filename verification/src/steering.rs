//! Where a run is sure to go: which questions it asks, which connection it follows, and
//! where it begins.
use crate::model::{self, ConditionModel, EdgeModel, GraphModel};
use crate::run::{
    self, BranchModel, DecisionModel, FrameModel, OutcomeModel, PhaseModel, RunModel,
};
use vstd::prelude::*;

verus! {

/// Keeping what passes one test, then what passes another, keeps what passes both.
proof fn lemma_filter_both<A>(
    s: Seq<A>,
    p: spec_fn(A) -> bool,
    q: spec_fn(A) -> bool,
    both: spec_fn(A) -> bool,
)
    requires
        forall|a: A| #[trigger] both(a) <==> p(a) && q(a),
    ensures
        s.filter(p).filter(q) == s.filter(both),
    decreases s.len(),
{
    reveal(Seq::filter);
    if s.len() > 0 {
        lemma_filter_both(s.drop_last(), p, q, both);
        let last = s.last();
        assert(both(last) <==> p(last) && q(last));
        if p(last) {
            model::lemma_filter_push(s.drop_last().filter(p), q, last);
        }
    }
}

/// The first that passes a test comes first among those that do.
proof fn lemma_filter_first<A>(s: Seq<A>, p: spec_fn(A) -> bool, i: int)
    requires
        0 <= i < s.len(),
        p(s[i]),
        forall|j: int| 0 <= j < i ==> !p(#[trigger] s[j]),
    ensures
        s.filter(p).len() > 0,
        s.filter(p)[0] == s[i],
    decreases s.len(),
{
    reveal(Seq::filter);
    let rest = s.drop_last();
    if i < rest.len() {
        lemma_filter_first(rest, p, i);
    } else if rest.filter(p).len() > 0 {
        let j = model::lemma_filter_source(rest, p, 0);
        assert(!p(s[j]));
    }
}

proof fn lemma_filter_none<A>(s: Seq<A>, p: spec_fn(A) -> bool)
    requires
        forall|j: int| 0 <= j < s.len() ==> !p(#[trigger] s[j]),
    ensures
        s.filter(p).len() == 0,
{
    if s.filter(p).len() > 0 {
        let j = model::lemma_filter_source(s, p, 0);
        assert(!p(s[j]));
    }
}

/// The conditional connections out of a step to steps that are there, in order.
pub open spec fn conditional(local: GraphModel, id: Seq<char>) -> Seq<EdgeModel> {
    local.edges.filter(
        |e: EdgeModel|
            e.from == id && local.has_node(e.to) && e.condition != ConditionModel::Always,
    )
}

/// Whether a connection is plain, out of a step and to a step that is there.
pub open spec fn plain(local: GraphModel, id: Seq<char>, e: int) -> bool {
    &&& 0 <= e < local.edges.len()
    &&& local.edges[e].from == id
    &&& local.edges[e].condition == ConditionModel::Always
    &&& local.has_node(local.edges[e].to)
}

/// A run once the current step has been carried out and so many questions about the way
/// on have been answered with no.
pub open spec fn declined(run: RunModel, plan: GraphModel, k: nat) -> RunModel
    decreases k,
{
    if k == 0 {
        run.step_finished(plan)
    } else {
        declined(run, plan, (k - 1) as nat).answered(plan, false)
    }
}

/// The run is carrying out a step of a plan that is there.
pub open spec fn at_work(run: RunModel, plan: GraphModel) -> bool {
    &&& run.valid()
    &&& run.outcome is None
    &&& run.decision() is Run
    &&& plan.graph_at(run.top().parents) is Some
}

proof fn lemma_ways(local: GraphModel, id: Seq<char>)
    ensures
        local.conditional_ways(id) == conditional(local, id).map_values(
            |e: EdgeModel| BranchModel { edge: e.id, to: e.to, condition: e.condition },
        ),
{
    let leaves = |e: EdgeModel| e.from == id;
    let there = |e: EdgeModel| local.has_node(e.to);
    let asked = |e: EdgeModel| e.condition != ConditionModel::Always;
    let open = |e: EdgeModel| e.from == id && local.has_node(e.to);
    let all = |e: EdgeModel|
        e.from == id && local.has_node(e.to) && e.condition != ConditionModel::Always;
    lemma_filter_both(local.edges, leaves, there, open);
    lemma_filter_both(local.edges, open, asked, all);
}

proof fn lemma_plain_way(local: GraphModel, id: Seq<char>, e: int)
    ensures
        plain(local, id, e) && (forall|j: int| 0 <= j < e ==> !#[trigger] plain(local, id, j))
            ==> local.plain_way(id) == Some(local.edges[e].to),
        (forall|j: int| !#[trigger] plain(local, id, j)) ==> local.plain_way(id) is None,
{
    let leaves = |e: EdgeModel| e.from == id;
    let there = |e: EdgeModel| local.has_node(e.to);
    let always = |e: EdgeModel| e.condition == ConditionModel::Always;
    let open = |e: EdgeModel| e.from == id && local.has_node(e.to);
    let all = |e: EdgeModel|
        e.from == id && local.has_node(e.to) && e.condition == ConditionModel::Always;
    lemma_filter_both(local.edges, leaves, there, open);
    lemma_filter_both(local.edges, open, always, all);
    if plain(local, id, e) && (forall|j: int| 0 <= j < e ==> !#[trigger] plain(local, id, j)) {
        assert forall|j: int| 0 <= j < e implies !all(#[trigger] local.edges[j]) by {
            assert(!plain(local, id, j));
        }
        lemma_filter_first(local.edges, all, e);
    }
    if forall|j: int| !#[trigger] plain(local, id, j) {
        assert forall|j: int| 0 <= j < local.edges.len() implies !all(
            #[trigger] local.edges[j],
        ) by {
            assert(!plain(local, id, j));
        }
        lemma_filter_none(local.edges, all);
    }
}

/// The run with its current step done and some ways on left to ask about.
spec fn deciding(run: RunModel, local: GraphModel, k: int) -> RunModel {
    run.with_top(
        FrameModel {
            phase: PhaseModel::Deciding {
                remaining: local.conditional_ways(run.top().current).skip(k),
                fallback: local.plain_way(run.top().current),
            },
            ..run.top()
        },
    )
}

proof fn lemma_declined(run: RunModel, plan: GraphModel, k: nat)
    requires
        at_work(run, plan),
        ({
            let local = plan.graph_at(run.top().parents)->0;
            k <= local.conditional_ways(run.top().current).len()
        }),
    ensures
        ({
            let local = plan.graph_at(run.top().parents)->0;
            &&& k < local.conditional_ways(run.top().current).len() ==> declined(run, plan, k)
                == deciding(run, local, k as int)
            &&& k == local.conditional_ways(run.top().current).len() ==> declined(run, plan, k)
                == deciding(run, local, k as int).moved_on(plan)
        }),
    decreases k,
{
    let local = plan.graph_at(run.top().parents)->0;
    let ways = local.conditional_ways(run.top().current);
    if k == 0 {
        assert(ways.skip(0) =~= ways);
    } else {
        lemma_declined(run, plan, (k - 1) as nat);
        let before = deciding(run, local, k - 1);
        let after = deciding(run, local, k as int);
        assert(ways.skip(k - 1).skip(1) =~= ways.skip(k as int));
        assert(before.top().phase == (PhaseModel::Deciding {
            remaining: ways.skip(k - 1),
            fallback: local.plain_way(run.top().current),
        }));
        let next = before.with_top(
            FrameModel {
                phase: PhaseModel::Deciding {
                    remaining: ways.skip(k - 1).skip(1),
                    fallback: local.plain_way(run.top().current),
                },
                ..before.top()
            },
        );
        assert(next.stack =~= after.stack);
        assert(next == after);
    }
}

proof fn lemma_entered(run: RunModel, id: Seq<char>, plan: GraphModel)
    requires
        run.sound(),
        run.stack.len() > 0,
        run.outcome is None,
    ensures
        ({
            let after = run.entered(id, plan);
            let path = run.top().parents.push(id);
            &&& run.history.len() >= 200 ==> after == run.ended(
                OutcomeModel::StepLimit { steps: run.history.len() },
            )
            &&& run.history.len() < 200 && run.visits(path) >= 25 ==> after == run.ended(
                OutcomeModel::NodeLimit { node: id, visits: (run.visits(path) + 1) as nat },
            )
            &&& run.history.len() < 200 && run.visits(path) < 25 ==> run.history.push(
                path,
            ).is_prefix_of(after.history)
        }),
{
    let path = run.top().parents.push(id);
    if run.history.len() < 200 && run.visits(path) < 25 {
        run.lemma_entered_sound(id);
        let next = FrameModel { current: id, phase: PhaseModel::Working, ..run.top() };
        let moved = RunModel { history: run.history.push(next.path()), ..run.with_top(next) };
        moved.lemma_descended(plan);
    }
}

/// What happens where a run is to enter a step of the plan it is in: it goes there, unless
/// it has taken too many steps or has been there too often.
pub open spec fn goes_to(run: RunModel, id: Seq<char>, after: RunModel) -> bool {
    let path = run.top().parents.push(id);
    if run.history.len() >= 200 {
        after.outcome == Some(OutcomeModel::StepLimit { steps: run.history.len() })
            && after.history == run.history
    } else if run.visits(path) >= 25 {
        after.outcome == Some(
            OutcomeModel::NodeLimit { node: id, visits: (run.visits(path) + 1) as nat },
        ) && after.history == run.history
    } else {
        run.history.push(path).is_prefix_of(after.history)
    }
}

/// Once a step is done, the conditional connections out of it are asked about one by one,
/// in the order of the plan, and nothing else happens meanwhile. A yes is followed to
/// where that connection leads.
pub proof fn law_conditions_are_asked_in_order(run: RunModel, plan: GraphModel, k: nat)
    requires
        at_work(run, plan),
        ({
            let local = plan.graph_at(run.top().parents)->0;
            k < conditional(local, run.top().current).len()
        }),
    ensures
        ({
            let local = plan.graph_at(run.top().parents)->0;
            let edge = conditional(local, run.top().current)[k as int];
            let asking = declined(run, plan, k);
            &&& asking.decision() == DecisionModel::Ask(
                BranchModel { edge: edge.id, to: edge.to, condition: edge.condition },
            )
            &&& asking.history == run.history
            &&& goes_to(run, edge.to, asking.answered(plan, true))
        }),
{
    let local = plan.graph_at(run.top().parents)->0;
    let id = run.top().current;
    lemma_ways(local, id);
    lemma_declined(run, plan, k);
    let ways = local.conditional_ways(id);
    let asking = deciding(run, local, k as int);
    assert(ways.skip(k as int)[0] == ways[k as int]);
    assert(asking.outcome is None);
    let frame = FrameModel {
        phase: PhaseModel::Deciding {
            remaining: ways.skip(k as int).skip(1),
            fallback: local.plain_way(id),
        },
        ..asking.top()
    };
    run.lemma_with_top(asking.top());
    asking.lemma_with_top(frame);
    lemma_entered(asking.with_top(frame), ways[k as int].to, plan);
}

/// Where every condition has been answered with no, or there is none, the first plain
/// connection out of the step is followed, whatever stands before or after it.
pub proof fn law_first_plain_connection_is_taken_otherwise(
    run: RunModel,
    plan: GraphModel,
    e: int,
)
    requires
        at_work(run, plan),
        ({
            let local = plan.graph_at(run.top().parents)->0;
            let id = run.top().current;
            &&& plain(local, id, e)
            &&& forall|j: int| 0 <= j < e ==> !#[trigger] plain(local, id, j)
        }),
    ensures
        ({
            let local = plan.graph_at(run.top().parents)->0;
            let asked = conditional(local, run.top().current).len();
            goes_to(run, local.edges[e].to, declined(run, plan, asked))
        }),
{
    let local = plan.graph_at(run.top().parents)->0;
    let id = run.top().current;
    let asked = conditional(local, id).len();
    lemma_ways(local, id);
    lemma_plain_way(local, id, e);
    lemma_declined(run, plan, asked);
    let done = deciding(run, local, asked as int);
    run.lemma_with_top(done.top());
    lemma_entered(done, local.edges[e].to, plan);
}

proof fn lemma_next_root(
    roots: Seq<Seq<char>>,
    parents: Seq<Seq<char>>,
    entered: Seq<Seq<Seq<char>>>,
    i: int,
)
    requires
        0 <= i <= roots.len(),
        forall|j: int| 0 <= j < i ==> entered.contains(parents.push(#[trigger] roots[j])),
        i < roots.len() ==> !entered.contains(parents.push(roots[i])),
    ensures
        i < roots.len() ==> run::first_unvisited(roots, parents, entered) == Some(roots[i]),
        i == roots.len() ==> run::first_unvisited(roots, parents, entered) is None,
    decreases roots.len(),
{
    if roots.len() > 0 && i > 0 {
        let rest = roots.skip(1);
        assert(entered.contains(parents.push(roots[0])));
        assert forall|j: int| 0 <= j < i - 1 implies entered.contains(
            parents.push(#[trigger] rest[j]),
        ) by {
            assert(rest[j] == roots[j + 1]);
        }
        if i < roots.len() {
            assert(rest[i - 1] == roots[i]);
        }
        lemma_next_root(rest, parents, entered, i - 1);
    }
}

/// A plan is left only where no plain connection out of the step leads anywhere and every
/// condition was answered with no. Then the first root of the plan that the run has not
/// entered since it came into the plan is next. Where there is none, the whole run is
/// complete, or the step that contains the plan is done.
pub proof fn law_plans_are_left_root_by_root(run: RunModel, plan: GraphModel, i: int)
    requires
        at_work(run, plan),
        ({
            let local = plan.graph_at(run.top().parents)->0;
            let entered = run.history.skip(run.top().since as int);
            &&& forall|j: int| !#[trigger] plain(local, run.top().current, j)
            &&& 0 <= i <= local.roots().len()
            &&& forall|j: int|
                0 <= j < i ==> entered.contains(
                    run.top().parents.push(#[trigger] local.roots()[j]),
                )
            &&& i < local.roots().len() ==> !entered.contains(
                run.top().parents.push(local.roots()[i]),
            )
        }),
    ensures
        ({
            let local = plan.graph_at(run.top().parents)->0;
            let after = declined(run, plan, conditional(local, run.top().current).len());
            &&& i < local.roots().len() ==> goes_to(run, local.roots()[i], after)
            &&& i == local.roots().len() && run.stack.len() == 1 ==> after.outcome == Some(
                OutcomeModel::Completed,
            ) && after.history == run.history
            &&& i == local.roots().len() && run.stack.len() > 1 ==> after == (RunModel {
                stack: run.stack.drop_last(),
                ..run
            }).step_finished(plan)
        }),
{
    let local = plan.graph_at(run.top().parents)->0;
    let id = run.top().current;
    let asked = conditional(local, id).len();
    let entered = run.history.skip(run.top().since as int);
    lemma_ways(local, id);
    lemma_plain_way(local, id, 0);
    lemma_declined(run, plan, asked);
    let done = deciding(run, local, asked as int);
    run.lemma_with_top(done.top());
    lemma_next_root(local.roots(), run.top().parents, entered, i);
    assert(done.next_root(plan) == run::first_unvisited(
        local.roots(),
        run.top().parents,
        entered,
    ));
    if i < local.roots().len() {
        lemma_entered(done, local.roots()[i], plan);
    } else {
        assert(done.stack.drop_last() =~= run.stack.drop_last());
    }
}

proof fn lemma_earliest(plan: GraphModel, k: int)
    requires
        1 <= k <= plan.roots().len(),
    ensures
        exists|i: int| 0 <= i < k && plan.earliest_root(k) == #[trigger] plan.roots()[i],
        forall|i: int|
            0 <= i < k ==> plan.node_index(plan.earliest_root(k))->0 <= plan.node_index(
                #[trigger] plan.roots()[i],
            )->0,
    decreases k,
{
    if k > 1 {
        lemma_earliest(plan, k - 1);
        let best = plan.earliest_root(k - 1);
        let j = choose|i: int| 0 <= i < k - 1 && best == #[trigger] plan.roots()[i];
        let next = plan.roots()[k - 1];
        if plan.earliest_root(k) == best {
            assert(plan.roots()[j] == best);
        } else {
            assert(plan.roots()[k - 1] == next);
        }
    } else {
        assert(plan.roots()[0] == plan.earliest_root(1));
    }
}

/// A plan begins at the root that comes first among its steps.
pub proof fn law_plans_begin_at_their_first_root(plan: GraphModel)
    requires
        plan.nodes.len() > 0,
    ensures
        plan.entry() is Some,
        plan.roots().contains(plan.entry()->0),
        forall|i: int|
            0 <= i < plan.roots().len() ==> plan.node_index(plan.entry()->0)->0 <= plan.node_index(
                #[trigger] plan.roots()[i],
            )->0,
{
    plan.law_every_plan_has_a_root();
    lemma_earliest(plan, plan.roots().len() as int);
}

/// A run begins with the first root of its plan.
pub proof fn law_runs_begin_at_the_first_root(plan: GraphModel)
    requires
        plan.nodes.len() > 0,
    ensures
        RunModel::begun(plan).history.len() > 0,
        RunModel::begun(plan).history[0] == seq![plan.entry()->0],
{
    let first = RunModel::blank().with_frame(Seq::empty(), plan.entry()->0);
    assert(run::times(RunModel::blank().history, Seq::<Seq<char>>::empty().push(
        plan.entry()->0,
    )) == 0);
    RunModel::blank().lemma_with_frame(Seq::empty(), plan.entry()->0);
    first.lemma_descended(plan);
    let after = RunModel::begun(plan);
    assert(first.history =~= seq![seq![plan.entry()->0]]);
    assert(after.history.subrange(0, 1)[0] == after.history[0]);
    assert(first.history[0] == seq![plan.entry()->0]);
}

/// A step that contains a plan is not carried out itself: on the way into it the run goes
/// on to the first root of that plan, and ends where plans nest too deep. A step that
/// contains none is where the run stays.
pub proof fn law_nested_plans_are_entered(run: RunModel, plan: GraphModel)
    requires
        run.sound(),
        run.outcome is None,
        run.stack.len() > 0,
        run.top().phase == PhaseModel::Working,
        plan.node_at(run.top().path()) is Some,
    ensures
        ({
            let node = plan.node_at(run.top().path())->0;
            let after = run.descended(plan);
            match node.nested() {
                None => after == run,
                Some(inner) => {
                    let first = run.top().path().push(inner.entry()->0);
                    &&& run.stack.len() >= 5 ==> after.outcome == Some(
                        OutcomeModel::DepthLimit { node: node.id },
                    )
                    &&& run.stack.len() < 5 && run.history.len() >= 200 ==> after.outcome == Some(
                        OutcomeModel::StepLimit { steps: run.history.len() },
                    )
                    &&& run.stack.len() < 5 && run.history.len() < 200 && run.visits(first) < 25
                        ==> run.history.push(first).is_prefix_of(after.history)
                    &&& run.stack.len() < 5 && run.history.len() < 200 && run.visits(first) >= 25
                        ==> after.outcome is Some && after.history == run.history
                },
            }
        }),
{
    let node = plan.node_at(run.top().path())->0;
    if let Some(inner) = node.nested() {
        law_plans_begin_at_their_first_root(inner);
        let entry = inner.entry()->0;
        let path = run.top().path();
        if run.stack.len() < 5 && run.history.len() < 200 && run.visits(path.push(entry)) < 25 {
            run.lemma_with_frame(path, entry);
            run.with_frame(path, entry).lemma_descended(plan);
        }
    }
}

/// What a run is told to carry out once it has gone down into a step contains no plan.
pub proof fn law_only_leaves_are_carried_out(run: RunModel, plan: GraphModel)
    requires
        run.sound(),
        run.outcome is None,
        run.stack.len() > 0,
        run.top().phase == PhaseModel::Working,
    ensures
        ({
            let after = run.descended(plan);
            after.outcome is None ==> match plan.node_at(after.top().path()) {
                Some(node) => node.nested() is None,
                None => true,
            }
        }),
    decreases run::MAX_PLAN_DEPTH - run.stack.len(),
{
    if let Some(node) = plan.node_at(run.top().path()) {
        if let Some(inner) = node.nested() {
            law_plans_begin_at_their_first_root(inner);
            let entry = inner.entry()->0;
            let path = run.top().path();
            if run.stack.len() < 5 && run.history.len() < 200 && run.visits(path.push(entry)) < 25 {
                run.lemma_with_frame(path, entry);
                law_only_leaves_are_carried_out(run.with_frame(path, entry), plan);
            }
        }
    }
}

} // verus!
