//! What locks promise: that a settled step contains nothing unsettled, and that
//! what is settled stays as it is.
use crate::canvas;
use crate::merge;
use crate::model::{self, EdgeModel, GraphModel, NodeModel};
use vstd::prelude::*;

verus! {

impl GraphModel {
    /// Whether no locked step, here or in a nested plan, contains a step that is not
    /// locked.
    pub open spec fn locks_nest(self) -> bool
        decreases self,
    {
        forall|i: int|
            #![trigger self.nodes[i]]
            0 <= i < self.nodes.len() ==> {
                &&& self.nodes[i].locked ==> self.nodes[i].may_lock()
                &&& match self.nodes[i].subplan {
                    Some(g) => g.locks_nest(),
                    None => true,
                }
            }
    }

    /// Whether no step along a path is locked.
    pub open spec fn unlocked_along(self, path: Seq<Seq<char>>) -> bool {
        forall|j: int|
            #![trigger path.take(j)]
            1 <= j <= path.len() ==> match self.step_at(path.take(j)) {
                Some(node) => !node.locked,
                None => true,
            }
    }

    proof fn lemma_lock_over(self, path: Seq<Seq<char>>, k: nat, j: int)
        requires
            1 <= j <= k <= path.len(),
            self.lock_over(path, k) is None,
        ensures
            match self.step_at(path.take(j)) {
                Some(node) => !node.locked,
                None => true,
            },
        decreases k,
    {
        if j < k {
            self.lemma_lock_over(path, (k - 1) as nat, j);
        }
    }

    proof fn lemma_unlocked_along(self, path: Seq<Seq<char>>, k: nat)
        requires
            k <= path.len(),
            self.lock_over(path, k) is None,
        ensures
            self.unlocked_along(path.take(k as int)),
    {
        let way = path.take(k as int);
        assert forall|j: int| #![trigger way.take(j)] 1 <= j <= way.len() implies match self.step_at(
            way.take(j),
        ) {
            Some(node) => !node.locked,
            None => true,
        } by {
            assert(way.take(j) =~= path.take(j));
            self.lemma_lock_over(path, k, j);
        }
    }

    proof fn lemma_step_inside(self, path: Seq<Seq<char>>, j: int)
        requires
            2 <= j <= path.len(),
        ensures
            self.step_at(path.take(j)) == (match self.node(path[0]) {
                Some(node) => match node.subplan {
                    Some(g) => g.step_at(path.skip(1).take(j - 1)),
                    None => None,
                },
                None => None,
            }),
    {
        let way = path.take(j);
        let inner = path.skip(1).take(j - 1);
        assert(way.drop_last()[0] == path[0]);
        assert(way.drop_last().skip(1) =~= inner.drop_last());
        assert(way.last() == inner.last());
    }

    proof fn lemma_plan_inside(self, path: Seq<Seq<char>>)
        requires
            self.locks_nest(),
        ensures
            match self.plan_at(path) {
                Some(g) => g.locks_nest(),
                None => true,
            },
        decreases path.len(),
    {
        if path.len() > 0 {
            self.lemma_node(path[0]);
            if let Some(i) = self.node_index(path[0]) {
                if let Some(g) = self.nodes[i].subplan {
                    g.lemma_plan_inside(path.skip(1));
                }
            }
        }
    }

    proof fn lemma_plan_replaced(self, path: Seq<Seq<char>>, plan: GraphModel)
        requires
            self.locks_nest(),
            plan.locks_nest(),
            self.unlocked_along(path),
        ensures
            self.with_plan_at(path, plan).locks_nest(),
        decreases path.len(),
    {
        if path.len() > 0 {
            self.lemma_node(path[0]);
            if let Some(i) = self.node_index(path[0]) {
                if let Some(g) = self.nodes[i].subplan {
                    let rest = path.skip(1);
                    assert(g.unlocked_along(rest)) by {
                        assert forall|j: int|
                            #![trigger rest.take(j)]
                            1 <= j <= rest.len() implies match g.step_at(rest.take(j)) {
                            Some(node) => !node.locked,
                            None => true,
                        } by {
                            self.lemma_step_inside(path, j + 1);
                            assert(path.take(j + 1).len() == j + 1);
                        }
                    }
                    g.lemma_plan_replaced(rest, plan);
                    assert(!self.nodes[i].locked) by {
                        let first = path.take(1);
                        assert(first.drop_last().len() == 0);
                        assert(first.last() == path[0]);
                        assert(self.step_at(first) == Some(self.nodes[i]));
                    }
                    let after = self.with_plan_at(path, plan);
                    assert forall|m: int| #![trigger after.nodes[m]] 0 <= m < after.nodes.len() implies {
                        &&& after.nodes[m].locked ==> after.nodes[m].may_lock()
                        &&& match after.nodes[m].subplan {
                            Some(g) => g.locks_nest(),
                            None => true,
                        }
                    } by {
                        if m != i {
                            assert(after.nodes[m] == self.nodes[m]);
                        }
                    }
                }
            }
        }
    }
}

/// A lock is only changed so that no locked step contains one that is not: locking
/// waits for what is inside, and what is inside a locked step cannot be unlocked.
pub proof fn law_changing_a_lock_keeps_locks_nested(
    plan: GraphModel,
    path: Seq<Seq<char>>,
    locked: bool,
)
    requires
        plan.locks_nest(),
        plan.lock_refusal(path, locked) is None,
    ensures
        plan.with_step_at(
            path,
            (NodeModel { locked, ..plan.step_at(path)->0 }),
        ).locks_nest(),
{
    let above = path.drop_last();
    let node = plan.step_at(path)->0;
    let local = plan.plan_at(above)->0;
    plan.lemma_plan_inside(above);
    local.lemma_node(path.last());
    let i = local.node_index(path.last())->0;
    let changed = NodeModel { locked, ..node };
    let after = local.with_step(path.last(), changed);
    assert(changed.nested() == node.nested());
    assert(after.locks_nest()) by {
        assert forall|m: int| #![trigger after.nodes[m]] 0 <= m < after.nodes.len() implies {
            &&& after.nodes[m].locked ==> after.nodes[m].may_lock()
            &&& match after.nodes[m].subplan {
                Some(g) => g.locks_nest(),
                None => true,
            }
        } by {
            if m != i {
                assert(after.nodes[m] == local.nodes[m]);
            } else {
                assert(local.nodes[i] == node);
            }
        }
    }
    plan.lemma_unlocked_along(path, above.len());
    assert(path.take(above.len() as int) =~= above);
    plan.lemma_plan_replaced(above, after);
}

/// Removing a step keeps every locked step free of steps that are not locked.
pub proof fn law_removing_a_step_keeps_locks_nested(plan: GraphModel, path: Seq<Seq<char>>)
    requires
        plan.locks_nest(),
        plan.step_refusal(path) is None,
    ensures
        plan.with_plan_at(
            path.drop_last(),
            plan.plan_at(path.drop_last())->0.without_node(path.last()),
        ).locks_nest(),
{
    let above = path.drop_last();
    let local = plan.plan_at(above)->0;
    plan.lemma_plan_inside(above);
    let after = local.without_node(path.last());
    assert(after.locks_nest()) by {
        let p = |n: NodeModel| n.id != path.last();
        assert forall|m: int| #![trigger after.nodes[m]] 0 <= m < after.nodes.len() implies {
            &&& after.nodes[m].locked ==> after.nodes[m].may_lock()
            &&& match after.nodes[m].subplan {
                Some(g) => g.locks_nest(),
                None => true,
            }
        } by {
            let j = model::lemma_filter_source(local.nodes, p, m);
            assert(after.nodes[m] == local.nodes[j]);
        }
    }
    assert forall|j: int| #![trigger above.take(j)] 1 <= j <= above.len() implies match plan.step_at(
        above.take(j),
    ) {
        Some(node) => !node.locked,
        None => true,
    } by {
        assert(above.take(j) =~= path.take(j));
        plan.lemma_lock_over(path, path.len(), j);
    }
    plan.lemma_plan_replaced(above, after);
}

/// Locking or unlocking everything leaves no locked step with one inside that is not.
pub proof fn law_changing_every_lock_keeps_locks_nested(plan: GraphModel, locked: bool)
    ensures
        plan.with_locks(locked).locks_nest(),
    decreases plan,
{
    let after = plan.with_locks(locked);
    assert forall|m: int| #![trigger after.nodes[m]] 0 <= m < after.nodes.len() implies {
        &&& after.nodes[m].locked ==> after.nodes[m].may_lock()
        &&& match after.nodes[m].subplan {
            Some(g) => g.locks_nest(),
            None => true,
        }
    } by {
        if let Some(g) = plan.nodes[m].subplan {
            law_changing_every_lock_keeps_locks_nested(*g, locked);
            if locked && g.nodes.len() > 0 {
                canvas::law_locking_everything_settles_a_plan(*g);
            }
        }
    }
}

/// A step that is locked, or lies inside one that is, takes no edit.
pub proof fn law_settled_steps_refuse_edits(plan: GraphModel, path: Seq<Seq<char>>, k: int)
    requires
        1 <= k <= path.len(),
        plan.step_at(path) is Some,
        plan.step_at(path.take(k)) matches Some(node) && node.locked,
    ensures
        plan.step_refusal(path) is Some,
        plan.step_refusal(path)->0 is Locked,
        k < path.len() ==> plan.lock_refusal(path, false) is Some && plan.lock_refusal(
            path,
            true,
        ) is Some,
{
    if plan.lock_over(path, path.len()) is None {
        plan.lemma_lock_over(path, path.len(), k);
    }
    if k < path.len() && plan.lock_over(path, (path.len() - 1) as nat) is None {
        plan.lemma_lock_over(path, (path.len() - 1) as nat, k);
    }
}

/// Once a step is removed, nothing carries its id and no connection touches it; every
/// other step and connection is as it was, in order.
pub proof fn law_removed_steps_leave_nothing_behind(plan: GraphModel, id: Seq<char>)
    ensures
        !plan.without_node(id).has_node(id),
        plan.without_node(id).edges_from(id).len() == 0,
        plan.without_node(id).edges_into(id).len() == 0,
        plan.without_node(id).nodes == plan.nodes.filter(|n: NodeModel| n.id != id),
        plan.without_node(id).edges == plan.edges.filter(
            |e: EdgeModel| e.from != id && e.to != id,
        ),
{
    let after = plan.without_node(id);
    let p = |n: NodeModel| n.id != id;
    let q = |e: EdgeModel| e.from != id && e.to != id;
    assert forall|i: int| 0 <= i < after.nodes.len() implies (#[trigger] after.nodes[i]).id != id by {
        let j = model::lemma_filter_source(plan.nodes, p, i);
    }
    if after.edges_from(id).len() > 0 {
        let i = model::lemma_filter_source(after.edges, |e: EdgeModel| e.from == id, 0);
        let j = model::lemma_filter_source(plan.edges, q, i);
    }
    if after.edges_into(id).len() > 0 {
        let i = model::lemma_filter_source(after.edges, |e: EdgeModel| e.to == id, 0);
        let j = model::lemma_filter_source(plan.edges, q, i);
    }
}

proof fn lemma_restated_stays_locked(plan: GraphModel, draft: GraphModel)
    requires
        plan.nodes.len() == 0 || plan.fully_locked_deeply(),
        plan.restated(draft),
        draft.distinct_deeply(),
    ensures
        plan.merged(draft).nodes.len() == 0 || plan.merged(draft).fully_locked_deeply(),
    decreases draft,
{
    let after = plan.merged(draft);
    assert forall|i: int| 0 <= i < after.nodes.len() implies (#[trigger] after.nodes[i]).locked
        && match after.nodes[i].subplan {
        Some(g) => g.nodes.len() == 0 || g.fully_locked_deeply(),
        None => true,
    } by {
        let drafted = draft.nodes[i];
        assert(plan.has_node(drafted.id));
        plan.lemma_node(drafted.id);
        let k = plan.node_index(drafted.id)->0;
        let existing = plan.nodes[k];
        assert(existing.locked);
        assert(!plan.rewritten(draft, existing));
        draft.lemma_node(existing.id);
        let j = draft.node_index(existing.id)->0;
        assert(draft.nodes[j].id == draft.nodes[i].id);
        assert(i == j);
        if let Some(inner) = drafted.subplan {
            if let Some(g) = existing.subplan {
                if *inner != *g {
                    lemma_restated_stays_locked(*g, *inner);
                }
            }
        }
    }
}

/// Laying a draft over a plan keeps locks nested, at any depth, whatever plans the draft
/// has for the steps it keeps.
pub proof fn law_merging_keeps_locks_nested(plan: GraphModel, draft: GraphModel)
    requires
        plan.locks_nest(),
        draft.locks_nest(),
        draft.distinct_deeply(),
        plan.refused(draft).len() == 0,
    ensures
        plan.merged(draft).locks_nest(),
    decreases draft,
{
    let after = plan.merged(draft);
    assert forall|i: int| #![trigger after.nodes[i]] 0 <= i < after.nodes.len() implies {
        &&& after.nodes[i].locked ==> after.nodes[i].may_lock()
        &&& match after.nodes[i].subplan {
            Some(g) => g.locks_nest(),
            None => true,
        }
    } by {
        let drafted = draft.nodes[i];
        plan.lemma_node(drafted.id);
        if let Some(k) = plan.node_index(drafted.id) {
            let existing = plan.nodes[k];
            assert(existing.locked ==> existing.may_lock());
            merge::lemma_not_refused(plan, draft, k);
            draft.lemma_node(existing.id);
            if let Some(j) = draft.node_index(existing.id) {
                assert(draft.nodes[j].id == draft.nodes[i].id);
            }
            assert(draft.node(existing.id) == Some(drafted));
            if let Some(inner) = drafted.subplan {
                if let Some(g) = existing.subplan {
                    if *inner != *g {
                        law_merging_keeps_locks_nested(*g, *inner);
                        if existing.locked {
                            lemma_restated_stays_locked(*g, *inner);
                        }
                    }
                }
            }
        }
    }
}

} // verus!
