//! The shape of a plan by step number: what leads where, which connections
//! close a loop, and how far along each step stands.
use crate::graph::{ArchitectGraph, NodeId};
use crate::model::{EdgeModel, GraphModel};
use vstd::prelude::*;

verus! {

/// How far a depth-first search has come with a step.
#[derive(Clone, Copy, PartialEq, Eq, Structural)]
pub enum Mark {
    Unvisited,
    Exploring,
    Done,
}

/// A depth-first search under way: the mark of each step, the connections
/// found to close a loop, and the finished steps in the order they finished.
#[verifier::ext_equal]
pub struct SearchModel {
    pub marks: Seq<Mark>,
    pub back: Set<(int, int)>,
    pub done: Seq<int>,
}

/// Lists of step numbers as mathematical values.
pub open spec fn lists(v: Seq<Vec<usize>>) -> Seq<Seq<int>> {
    v.map_values(|l: Vec<usize>| numbers(l@))
}

/// A list of step numbers as a mathematical value.
pub open spec fn numbers(v: Seq<usize>) -> Seq<int> {
    v.map_values(|x: usize| x as int)
}

/// Every connection leads to a step that is there.
pub open spec fn in_bounds(adj: Seq<Seq<int>>) -> bool {
    forall|u: int, k: int|
        0 <= u < adj.len() && 0 <= k < adj[u].len() ==> 0 <= #[trigger] adj[u][k] < adj.len()
}

/// How many steps the search has not come to yet.
pub open spec fn unvisited(marks: Seq<Mark>) -> nat
    decreases marks.len(),
{
    if marks.len() == 0 {
        0
    } else {
        unvisited(marks.drop_last()) + (if marks.last() == Mark::Unvisited {
            1nat
        } else {
            0nat
        })
    }
}

proof fn lemma_unvisited_update(marks: Seq<Mark>, v: int, mark: Mark)
    requires
        0 <= v < marks.len(),
    ensures
        marks[v] == Mark::Unvisited && mark != Mark::Unvisited ==> unvisited(marks.update(v, mark))
            == unvisited(marks) - 1,
        marks[v] != Mark::Unvisited && mark != Mark::Unvisited ==> unvisited(marks.update(v, mark))
            == unvisited(marks),
    decreases marks.len(),
{
    let next = marks.update(v, mark);
    if v == marks.len() - 1 {
        assert(next.drop_last() =~= marks.drop_last());
    } else {
        lemma_unvisited_update(marks.drop_last(), v, mark);
        assert(next.drop_last() =~= marks.drop_last().update(v, mark));
    }
}

impl SearchModel {
    /// A search that has not started.
    pub open spec fn initial(n: nat) -> SearchModel {
        SearchModel {
            marks: Seq::new(n, |i: int| Mark::Unvisited),
            back: Set::empty(),
            done: Seq::empty(),
        }
    }

    /// The search with a step marked.
    pub open spec fn marked(self, v: int, mark: Mark) -> SearchModel {
        SearchModel { marks: self.marks.update(v, mark), ..self }
    }

    /// The search with a step finished.
    pub open spec fn finished(self, v: int) -> SearchModel {
        SearchModel {
            marks: self.marks.update(v, Mark::Done),
            back: self.back,
            done: self.done.push(v),
        }
    }

    /// The search with a connection set aside.
    pub open spec fn set_aside(self, u: int, v: int) -> SearchModel {
        SearchModel { back: self.back.insert((u, v)), ..self }
    }

    /// The search after everything from the `k`th connection of `u` on has been
    /// explored. A connection into a step still being explored closes a loop and
    /// is set aside; one to a step not yet visited is followed first.
    pub open spec fn explored(self, adj: Seq<Seq<int>>, u: int, k: int) -> SearchModel
        decreases unvisited(self.marks), adj[u].len() - k,
        via Self::explored_decreases
    {
        if k < 0 || k >= adj[u].len() {
            self.finished(u)
        } else {
            let v = adj[u][k];
            if 0 <= v < self.marks.len() && self.marks[v] == Mark::Exploring {
                self.set_aside(u, v).explored(adj, u, k + 1)
            } else if 0 <= v < self.marks.len() && self.marks[v] == Mark::Unvisited {
                let inner = self.marked(v, Mark::Exploring).explored(adj, v, 0);
                if unvisited(inner.marks) <= unvisited(self.marks) {
                    inner.explored(adj, u, k + 1)
                } else {
                    inner
                }
            } else {
                self.explored(adj, u, k + 1)
            }
        }
    }

    #[via_fn]
    proof fn explored_decreases(self, adj: Seq<Seq<int>>, u: int, k: int) {
        if 0 <= k < adj[u].len() {
            let v = adj[u][k];
            if 0 <= v < self.marks.len() && self.marks[v] == Mark::Unvisited {
                lemma_unvisited_update(self.marks, v, Mark::Exploring);
            }
        }
    }

    /// The search after every step from `start` on has been tried as a start.
    pub open spec fn explored_from(self, adj: Seq<Seq<int>>, start: int) -> SearchModel
        decreases adj.len() - start,
    {
        if start < 0 || start >= adj.len() {
            self
        } else if self.marks[start] == Mark::Unvisited {
            self.marked(start, Mark::Exploring).explored(adj, start, 0).explored_from(
                adj,
                start + 1,
            )
        } else {
            self.explored_from(adj, start + 1)
        }
    }

    /// The search after a stack of steps being explored has been worked off.
    pub open spec fn worked_off(self, adj: Seq<Seq<int>>, stack: Seq<(int, int)>) -> SearchModel
        decreases stack.len(),
    {
        if stack.len() == 0 {
            self
        } else {
            self.explored(adj, stack.last().0, stack.last().1).worked_off(adj, stack.drop_last())
        }
    }

    /// What holds of a search at every moment.
    pub open spec fn valid(self, adj: Seq<Seq<int>>) -> bool {
        &&& self.marks.len() == adj.len()
        &&& self.done.no_duplicates()
        &&& forall|i: int|
            0 <= i < self.done.len() ==> 0 <= #[trigger] self.done[i] < adj.len()
                && self.marks[self.done[i]] == Mark::Done
        &&& forall|v: int|
            0 <= v < adj.len() && #[trigger] self.marks[v] == Mark::Done ==> self.done.contains(v)
        &&& forall|i: int, k: int|
            0 <= i < self.done.len() && 0 <= k < adj[self.done[i]].len()
                ==> #[trigger] self.settled_before(adj, i, k)
        &&& forall|u: int, v: int| #[trigger]
            self.back.contains((u, v)) ==> 0 <= u < adj.len() && 0 <= v < adj.len() && adj[u].contains(v)
                && leads_to(adj, v, u)
    }

    /// The `k`th connection of the `i`th finished step was set aside, or leads to
    /// a step that finished earlier.
    pub open spec fn settled_before(self, adj: Seq<Seq<int>>, i: int, k: int) -> bool {
        let u = self.done[i];
        let v = adj[u][k];
        self.back.contains((u, v)) || exists|j: int| 0 <= j < i && self.done[j] == v
    }

    /// The marks of `later` continue those of this search: finished steps stay
    /// finished, steps being explored stay so, and none is left half explored.
    pub open spec fn continued_by(self, later: SearchModel) -> bool {
        &&& later.marks.len() == self.marks.len()
        &&& unvisited(later.marks) <= unvisited(self.marks)
        &&& forall|v: int|
            0 <= v < self.marks.len() ==> match self.marks[v] {
                Mark::Done => later.marks[v] == Mark::Done,
                Mark::Exploring => #[trigger] later.marks[v] == Mark::Exploring,
                Mark::Unvisited => later.marks[v] != Mark::Exploring,
            }
        &&& forall|u: int, v: int|
            self.back.contains((u, v)) ==> #[trigger] later.back.contains((u, v))
    }
}

/// A way along connections: each step of it leads to the next.
pub open spec fn is_way(adj: Seq<Seq<int>>, way: Seq<int>) -> bool {
    &&& way.len() > 0
    &&& forall|i: int| 0 <= i < way.len() ==> 0 <= #[trigger] way[i] < adj.len()
    &&& forall|i: int| 0 < i < way.len() ==> adj[way[i - 1]].contains(#[trigger] way[i])
}

/// One step leads to another along connections, or is that step.
pub open spec fn leads_to(adj: Seq<Seq<int>>, u: int, v: int) -> bool {
    exists|way: Seq<int>| #[trigger] is_way(adj, way) && way[0] == u && way.last() == v
}

proof fn lemma_leads_on(adj: Seq<Seq<int>>, x: int, u: int, v: int)
    requires
        leads_to(adj, x, u),
        0 <= v < adj.len(),
        adj[u].contains(v),
    ensures
        leads_to(adj, x, v),
{
    let way = choose|way: Seq<int>| #[trigger] is_way(adj, way) && way[0] == x && way.last() == u;
    let longer = way.push(v);
    assert forall|i: int| 0 < i < longer.len() implies adj[longer[i - 1]].contains(
        #[trigger] longer[i],
    ) by {
        if i < way.len() {
            assert(adj[way[i - 1]].contains(way[i]));
        }
    }
    assert(is_way(adj, longer));
    assert(longer[0] == x && longer.last() == v);
}

/// The search of a whole plan.
pub open spec fn searched(adj: Seq<Seq<int>>) -> SearchModel {
    SearchModel::initial(adj.len()).explored_from(adj, 0)
}

/// A connection that was not set aside leads from `u` to `v`.
pub open spec fn forward(adj: Seq<Seq<int>>, back: Set<(int, int)>, u: int, v: int) -> bool {
    0 <= u < adj.len() && adj[u].contains(v) && !back.contains((u, v))
}

impl SearchModel {
    proof fn lemma_explored(self, adj: Seq<Seq<int>>, u: int, k: int)
        requires
            in_bounds(adj),
            self.valid(adj),
            0 <= u < adj.len(),
            0 <= k <= adj[u].len(),
            self.marks[u] == Mark::Exploring,
            forall|j: int|
                0 <= j < k ==> self.back.contains((u, #[trigger] adj[u][j]))
                    || self.marks[adj[u][j]] == Mark::Done,
            forall|x: int|
                0 <= x < adj.len() && #[trigger] self.marks[x] == Mark::Exploring ==> leads_to(
                    adj,
                    x,
                    u,
                ),
        ensures
            self.explored(adj, u, k).valid(adj),
            self.explored(adj, u, k).marks[u] == Mark::Done,
            self.marked(u, Mark::Done).continued_by(self.explored(adj, u, k)),
        decreases unvisited(self.marks), adj[u].len() - k,
    {
        let res = self.explored(adj, u, k);
        lemma_unvisited_update(self.marks, u, Mark::Done);
        if k == adj[u].len() {
            let n = self.done.len();
            assert(!self.done.contains(u)) by {
                if self.done.contains(u) {
                    let i = choose|i: int| 0 <= i < self.done.len() && self.done[i] == u;
                    assert(self.marks[self.done[i]] == Mark::Done);
                }
            }
            assert forall|v: int|
                0 <= v < adj.len() && #[trigger] res.marks[v] == Mark::Done implies res.done.contains(
                v,
            ) by {
                if v == u {
                    assert(res.done[n as int] == u);
                } else {
                    assert(self.done.contains(v));
                    let i = choose|i: int| 0 <= i < self.done.len() && self.done[i] == v;
                    assert(res.done[i] == v);
                }
            }
            assert forall|i: int, j: int|
                0 <= i < res.done.len() && 0 <= j
                    < adj[res.done[i]].len() implies #[trigger] res.settled_before(adj, i, j) by {
                if i < n {
                    assert(self.settled_before(adj, i, j));
                    let w = adj[res.done[i]][j];
                    if !self.back.contains((self.done[i], w)) {
                        let p = choose|p: int| 0 <= p < i && self.done[p] == w;
                        assert(res.done[p] == w);
                    }
                } else {
                    let w = adj[u][j];
                    if !self.back.contains((u, w)) {
                        assert(self.done.contains(w));
                        let p = choose|p: int| 0 <= p < self.done.len() && self.done[p] == w;
                        assert(res.done[p] == w);
                    }
                }
            }
            assert forall|i: int| 0 <= i < res.done.len() implies 0 <= #[trigger] res.done[i]
                < adj.len() && res.marks[res.done[i]] == Mark::Done by {
                if i < n {
                    assert(self.marks[self.done[i]] == Mark::Done);
                }
            }
            assert(res.done.no_duplicates());
        } else {
            let v = adj[u][k];
            assert(adj[u].contains(v));
            if self.marks[v] == Mark::Exploring {
                let next = self.set_aside(u, v);
                assert forall|i: int, j: int|
                    0 <= i < next.done.len() && 0 <= j
                        < adj[next.done[i]].len() implies #[trigger] next.settled_before(
                    adj,
                    i,
                    j,
                ) by {
                    assert(self.settled_before(adj, i, j));
                }
                assert(next.valid(adj));
                next.lemma_explored(adj, u, k + 1);
                assert(self.marked(u, Mark::Done).marks == next.marked(u, Mark::Done).marks);
            } else if self.marks[v] == Mark::Unvisited {
                lemma_unvisited_update(self.marks, v, Mark::Exploring);
                let entered = self.marked(v, Mark::Exploring);
                assert(entered.valid(adj)) by {
                    assert forall|i: int, j: int|
                        0 <= i < entered.done.len() && 0 <= j
                            < adj[entered.done[i]].len() implies #[trigger] entered.settled_before(
                        adj,
                        i,
                        j,
                    ) by {
                        assert(self.settled_before(adj, i, j));
                    }
                    assert forall|i: int| 0 <= i < entered.done.len() implies 0
                        <= #[trigger] entered.done[i] < adj.len()
                        && entered.marks[entered.done[i]] == Mark::Done by {
                        assert(self.marks[self.done[i]] == Mark::Done);
                    }
                    assert forall|w: int|
                        0 <= w < adj.len() && #[trigger] entered.marks[w]
                            == Mark::Done implies entered.done.contains(w) by {
                        assert(self.marks[w] == Mark::Done);
                    }
                }
                assert forall|x: int|
                    0 <= x < adj.len() && #[trigger] entered.marks[x]
                        == Mark::Exploring implies leads_to(adj, x, v) by {
                    if x == v {
                        assert(is_way(adj, seq![v]));
                        assert(seq![v][0] == v && seq![v].last() == v);
                    } else {
                        assert(self.marks[x] == Mark::Exploring);
                        lemma_leads_on(adj, x, u, v);
                    }
                }
                entered.lemma_explored(adj, v, 0);
                let inner = entered.explored(adj, v, 0);
                lemma_unvisited_update(entered.marks, v, Mark::Done);
                assert(entered.marked(v, Mark::Done).continued_by(inner));
                assert(inner.marks[u] == Mark::Exploring);
                assert forall|x: int|
                    0 <= x < adj.len() && #[trigger] inner.marks[x]
                        == Mark::Exploring implies leads_to(adj, x, u) by {
                    assert(entered.marked(v, Mark::Done).marks[x] == Mark::Exploring);
                    assert(self.marks[x] == Mark::Exploring);
                }
                assert forall|j: int| 0 <= j < k + 1 implies inner.back.contains(
                    (u, #[trigger] adj[u][j]),
                ) || inner.marks[adj[u][j]] == Mark::Done by {
                    if j < k {
                        assert(0 <= adj[u][j] < adj.len());
                        assert(self.back.contains((u, adj[u][j])) || self.marks[adj[u][j]]
                            == Mark::Done);
                        if self.marks[adj[u][j]] == Mark::Done {
                            assert(entered.marked(v, Mark::Done).marks[adj[u][j]] == Mark::Done);
                        }
                    }
                }
                inner.lemma_explored(adj, u, k + 1);
                assert(inner.marked(u, Mark::Done).continued_by(res));
                lemma_unvisited_update(inner.marks, u, Mark::Done);
                assert forall|w: int| 0 <= w < self.marks.len() implies match self.marked(
                    u,
                    Mark::Done,
                ).marks[w] {
                    Mark::Done => res.marks[w] == Mark::Done,
                    Mark::Exploring => #[trigger] res.marks[w] == Mark::Exploring,
                    Mark::Unvisited => res.marks[w] != Mark::Exploring,
                } by {
                    let a = entered.marked(v, Mark::Done).marks[w];
                    let b = inner.marked(u, Mark::Done).marks[w];
                    assert(inner.marks[w] == inner.marks[w]);
                }
            } else {
                self.lemma_explored(adj, u, k + 1);
            }
        }
    }

    proof fn lemma_explored_from(self, adj: Seq<Seq<int>>, start: int)
        requires
            in_bounds(adj),
            self.valid(adj),
            0 <= start <= adj.len(),
            forall|v: int| 0 <= v < adj.len() ==> #[trigger] self.marks[v] != Mark::Exploring,
            forall|v: int| 0 <= v < start ==> #[trigger] self.marks[v] == Mark::Done,
        ensures
            self.explored_from(adj, start).valid(adj),
            forall|v: int|
                0 <= v < adj.len() ==> #[trigger] self.explored_from(adj, start).marks[v]
                    == Mark::Done,
        decreases adj.len() - start,
    {
        if start < adj.len() {
            if self.marks[start] == Mark::Unvisited {
                let entered = self.marked(start, Mark::Exploring);
                assert forall|i: int, j: int|
                    0 <= i < entered.done.len() && 0 <= j
                        < adj[entered.done[i]].len() implies #[trigger] entered.settled_before(
                    adj,
                    i,
                    j,
                ) by {
                    assert(self.settled_before(adj, i, j));
                }
                assert forall|i: int| 0 <= i < entered.done.len() implies 0
                    <= #[trigger] entered.done[i] < adj.len() && entered.marks[entered.done[i]]
                    == Mark::Done by {
                    assert(self.marks[self.done[i]] == Mark::Done);
                }
                assert forall|w: int|
                    0 <= w < adj.len() && #[trigger] entered.marks[w]
                        == Mark::Done implies entered.done.contains(w) by {
                    assert(self.marks[w] == Mark::Done);
                }
                assert forall|x: int|
                    0 <= x < adj.len() && #[trigger] entered.marks[x]
                        == Mark::Exploring implies leads_to(adj, x, start) by {
                    if x != start {
                        assert(self.marks[x] != Mark::Exploring);
                    }
                    assert(is_way(adj, seq![start]));
                    assert(seq![start][0] == start && seq![start].last() == start);
                }
                assert(entered.valid(adj));
                entered.lemma_explored(adj, start, 0);
                let next = entered.explored(adj, start, 0);
                assert forall|v: int| 0 <= v < adj.len() implies #[trigger] next.marks[v]
                    != Mark::Exploring by {
                    let a = entered.marked(start, Mark::Done).marks[v];
                    if v != start {
                        assert(self.marks[v] != Mark::Exploring);
                    }
                }
                assert forall|v: int| 0 <= v < start + 1 implies #[trigger] next.marks[v]
                    == Mark::Done by {
                    let a = entered.marked(start, Mark::Done).marks[v];
                    if v != start {
                        assert(self.marks[v] == Mark::Done);
                    }
                }
                next.lemma_explored_from(adj, start + 1);
            } else {
                self.lemma_explored_from(adj, start + 1);
            }
        }
    }
}

/// The search finishes every step, each connection it does not set aside leads
/// to a step that finished earlier, and each one that it sets aside closes a
/// loop: its target leads back to its source.
pub proof fn lemma_searched(adj: Seq<Seq<int>>)
    requires
        in_bounds(adj),
    ensures
        searched(adj).valid(adj),
        forall|v: int| 0 <= v < adj.len() ==> #[trigger] searched(adj).done.contains(v),
{
    let start = SearchModel::initial(adj.len());
    assert(start.valid(adj));
    start.lemma_explored_from(adj, 0);
    assert forall|v: int| 0 <= v < adj.len() implies #[trigger] searched(adj).done.contains(v) by {
        assert(searched(adj).marks[v] == Mark::Done);
    }
}

/// The marks of steps, worked off a stack of steps being explored, come to an end.
spec fn work(adj: Seq<Seq<int>>, stack: Seq<(int, int)>) -> int
    decreases stack.len(),
{
    if stack.len() == 0 {
        0
    } else {
        work(adj, stack.drop_last()) + adj[stack.last().0].len() - stack.last().1 + 1
    }
}

proof fn lemma_work(adj: Seq<Seq<int>>, stack: Seq<(int, int)>)
    requires
        forall|i: int|
            0 <= i < stack.len() ==> 0 <= (#[trigger] stack[i]).1 <= adj[stack[i].0].len(),
    ensures
        work(adj, stack) >= stack.len(),
    decreases stack.len(),
{
    if stack.len() > 0 {
        lemma_work(adj, stack.drop_last());
        assert(stack.last() == stack[stack.len() - 1]);
    }
}

/// Connections by the numbers of their steps.
pub open spec fn pairs(v: Seq<(usize, usize)>) -> Set<(int, int)> {
    Set::new(
        |p: (int, int)|
            exists|i: int|
                0 <= i < v.len() && (#[trigger] v[i]).0 as int == p.0 && v[i].1 as int == p.1,
    )
}

/// A stack of steps being explored.
pub open spec fn frames(v: Seq<(usize, usize)>) -> Seq<(int, int)> {
    v.map_values(|f: (usize, usize)| (f.0 as int, f.1 as int))
}

/// What a search of a plan found: the connections that close a loop, and the
/// steps in the order they finished.
pub struct Traversal {
    pub back: Vec<(usize, usize)>,
    pub finished: Vec<usize>,
}

impl Traversal {
    /// Whether this is what the search of a plan finds.
    pub open spec fn of(&self, adj: Seq<Seq<int>>) -> bool {
        &&& pairs(self.back@) == searched(adj).back
        &&& numbers(self.finished@) == searched(adj).done
    }

    /// Whether a connection closes a loop.
    pub fn closes_loop(&self, from: usize, to: usize) -> (res: bool)
        ensures
            res == pairs(self.back@).contains((from as int, to as int)),
    {
        for k in 0..self.back.len()
            invariant
                forall|i: int|
                    0 <= i < k ==> !((#[trigger] self.back@[i]).0 == from && self.back@[i].1 == to),
        {
            if self.back[k].0 == from && self.back[k].1 == to {
                return true;
            }
        }
        false
    }
}

/// Searches a plan depth first, from each step in order: an edge into a node
/// still being explored is an edge back into the path that led there.
pub fn depth_first(adjacency: &Vec<Vec<usize>>) -> (res: Traversal)
    requires
        in_bounds(lists(adjacency@)),
    ensures
        res.of(lists(adjacency@)),
{
    let ghost adj = lists(adjacency@);
    let mut marks: Vec<Mark> = Vec::new();
    for k in 0..adjacency.len()
        invariant
            marks@.len() == k,
            forall|i: int| 0 <= i < k ==> marks@[i] == Mark::Unvisited,
    {
        marks.push(Mark::Unvisited);
    }
    let mut back: Vec<(usize, usize)> = Vec::new();
    let mut finished: Vec<usize> = Vec::new();
    let ghost mut now = SearchModel::initial(adj.len());
    proof {
        assert(marks@ =~= now.marks);
        assert(pairs(back@) =~= now.back);
        assert(numbers(finished@) =~= now.done);
    }
    for start in 0..adjacency.len()
        invariant
            adj == lists(adjacency@),
            in_bounds(adj),
            now.marks == marks@,
            now.back == pairs(back@),
            now.done == numbers(finished@),
            marks@.len() == adj.len(),
            now.explored_from(adj, start as int) == searched(adj),
    {
        if marks[start] == Mark::Unvisited {
            marks.set(start, Mark::Exploring);
            let ghost goal = now.marked(start as int, Mark::Exploring).explored(adj, start as int, 0);
            let mut stack: Vec<(usize, usize)> = Vec::new();
            stack.push((start, 0));
            proof {
                now = now.marked(start as int, Mark::Exploring);
                assert(frames(stack@).drop_last() =~= Seq::empty());
                assert(frames(stack@).last() == (start as int, 0int));
                reveal_with_fuel(SearchModel::worked_off, 2);
            }
            while stack.len() > 0
                invariant
                    adj == lists(adjacency@),
                    in_bounds(adj),
                    now.marks == marks@,
                    now.back == pairs(back@),
                    now.done == numbers(finished@),
                    marks@.len() == adj.len(),
                    now.worked_off(adj, frames(stack@)) == goal,
                    forall|i: int|
                        0 <= i < stack@.len() ==> 0 <= (#[trigger] stack@[i]).0 < adj.len()
                            && stack@[i].1 <= adj[stack@[i].0 as int].len(),
                decreases unvisited(now.marks), work(adj, frames(stack@)),
            {
                let ghost before = stack@;
                let ghost was = now;
                let top: (usize, usize) = stack[stack.len() - 1];
                let node: usize = top.0;
                let edge_ix: usize = top.1;
                stack.pop();
                proof {
                    assert(frames(before).drop_last() =~= frames(stack@));
                    assert(frames(before).last() == (node as int, edge_ix as int));
                    assert(before[before.len() - 1] == top);
                    assert forall|i: int| 0 <= i < frames(stack@).len() implies 0 <= (
                    #[trigger] frames(stack@)[i]).1 <= adj[frames(stack@)[i].0].len() by {
                        assert(stack@[i] == before[i]);
                    }
                    lemma_work(adj, frames(stack@));
                    assert(now.worked_off(adj, frames(before)) == now.explored(
                        adj,
                        node as int,
                        edge_ix as int,
                    ).worked_off(adj, frames(stack@)));
                    assert(adjacency@[node as int]@.len() == adj[node as int].len());
                }
                if edge_ix >= adjacency[node].len() {
                    marks.set(node, Mark::Done);
                    finished.push(node);
                    proof {
                        lemma_unvisited_update(was.marks, node as int, Mark::Done);
                        now = now.finished(node as int);
                        assert(numbers(finished@) =~= now.done);
                        assert(work(adj, frames(before)) > work(adj, frames(stack@)));
                        if was.marks[node as int] == Mark::Unvisited {
                        }
                    }
                    continue;
                }
                let next: usize = adjacency[node][edge_ix];
                let ghost rest = stack@;
                stack.push((node, edge_ix + 1));
                proof {
                    assert(adj[node as int][edge_ix as int] == next as int);
                    assert(frames(stack@).drop_last() =~= frames(rest));
                    assert(frames(stack@).last() == (node as int, edge_ix + 1));
                    assert(work(adj, frames(before)) > work(adj, frames(stack@)));
                }
                let mark = marks[next];
                if mark == Mark::Exploring {
                    let ghost earlier = back@;
                    back.push((node, next));
                    proof {
                        now = now.set_aside(node as int, next as int);
                        assert(pairs(back@) =~= now.back) by {
                            assert forall|p: (int, int)| pairs(back@).contains(p) == now.back.contains(
                                p,
                            ) by {
                                if p == (node as int, next as int) {
                                    assert(back@[earlier.len() as int] == (node, next));
                                } else if pairs(earlier).contains(p) {
                                    let i = choose|i: int|
                                        0 <= i < earlier.len() && (#[trigger] earlier[i]).0 as int == p.0
                                            && earlier[i].1 as int == p.1;
                                    assert(back@[i] == earlier[i]);
                                } else if pairs(back@).contains(p) {
                                    let i = choose|i: int|
                                        0 <= i < back@.len() && (#[trigger] back@[i]).0 as int == p.0
                                            && back@[i].1 as int == p.1;
                                    if i < earlier.len() {
                                        assert(earlier[i] == back@[i]);
                                    }
                                }
                            }
                        }
                    }
                } else if mark == Mark::Unvisited {
                    marks.set(next, Mark::Exploring);
                    let ghost pushed = stack@;
                    stack.push((next, 0));
                    proof {
                        lemma_unvisited_update(was.marks, next as int, Mark::Exploring);
                        now = now.marked(next as int, Mark::Exploring);
                        assert(frames(stack@).drop_last() =~= frames(pushed));
                        assert(frames(stack@).last() == (next as int, 0int));
                        let inner = now.explored(adj, next as int, 0);
                        assert(now.worked_off(adj, frames(stack@)) == inner.worked_off(
                            adj,
                            frames(pushed),
                        ));
                        lemma_unvisited_shrinks(now, adj, next as int, 0);
                    }
                }
            }
            proof {
                assert(frames(stack@) =~= Seq::empty());
                assert(now == goal);
            }
        }
    }
    Traversal { back, finished }
}

/// Exploring never makes a visited step unvisited.
proof fn lemma_unvisited_shrinks(s: SearchModel, adj: Seq<Seq<int>>, u: int, k: int)
    requires
        in_bounds(adj),
        s.marks.len() == adj.len(),
        0 <= u < adj.len(),
        0 <= k,
    ensures
        s.explored(adj, u, k).marks.len() == adj.len(),
        unvisited(s.explored(adj, u, k).marks) <= unvisited(s.marks),
    decreases unvisited(s.marks), adj[u].len() - k,
{
    if k >= adj[u].len() {
        lemma_unvisited_update(s.marks, u, Mark::Done);
    } else {
        let v = adj[u][k];
        if s.marks[v] == Mark::Exploring {
            lemma_unvisited_shrinks(s.set_aside(u, v), adj, u, k + 1);
        } else if s.marks[v] == Mark::Unvisited {
            lemma_unvisited_update(s.marks, v, Mark::Exploring);
            lemma_unvisited_shrinks(s.marked(v, Mark::Exploring), adj, v, 0);
            let inner = s.marked(v, Mark::Exploring).explored(adj, v, 0);
            lemma_unvisited_shrinks(inner, adj, u, k + 1);
        } else {
            lemma_unvisited_shrinks(s, adj, u, k + 1);
        }
    }
}

impl GraphModel {
    /// Whether `i` is where the last step with this id stands.
    pub open spec fn is_last_index(self, id: Seq<char>, i: int) -> bool {
        &&& 0 <= i < self.nodes.len()
        &&& self.nodes[i].id == id
        &&& forall|j: int| i < j < self.nodes.len() ==> (#[trigger] self.nodes[j]).id != id
    }

    /// Where the last step with this id stands.
    pub open spec fn last_index(self, id: Seq<char>) -> Option<int> {
        if self.has_node(id) {
            Some(choose|i: int| self.is_last_index(id, i))
        } else {
            None
        }
    }

    /// The numbers of the steps that connections lead to from step `u`, in order.
    pub open spec fn targets(self, edges: Seq<EdgeModel>, u: int) -> Seq<int>
        decreases edges.len(),
    {
        if edges.len() == 0 {
            Seq::empty()
        } else {
            let rest = self.targets(edges.drop_last(), u);
            let edge = edges.last();
            if self.last_index(edge.from) == Some(u) {
                match self.last_index(edge.to) {
                    Some(v) => rest.push(v),
                    None => rest,
                }
            } else {
                rest
            }
        }
    }

    /// What leads where, by step number.
    pub open spec fn adjacency(self) -> Seq<Seq<int>> {
        Seq::new(self.nodes.len(), |u: int| self.targets(self.edges, u))
    }

    /// The last step with an id is found where it last stands.
    pub proof fn lemma_last_index(self, id: Seq<char>, i: int)
        requires
            self.is_last_index(id, i),
        ensures
            self.last_index(id) == Some(i),
    {
        assert(self.nodes[i].id == id);
        let j = choose|j: int| self.is_last_index(id, j);
        assert(self.is_last_index(id, j));
        if j < i {
            assert(self.nodes[i].id != id);
        }
        if i < j {
            assert(self.nodes[j].id != id);
        }
    }

    /// An id that occurs has a last place.
    pub proof fn lemma_has_last(self, id: Seq<char>)
        ensures
            self.has_node(id) <==> self.last_index(id) is Some,
            self.has_node(id) ==> self.is_last_index(id, self.last_index(id)->0),
    {
        if self.has_node(id) {
            let k = choose|k: int| 0 <= k < self.nodes.len() && (#[trigger] self.nodes[k]).id == id;
            let i = self.greatest_index(id, k);
            self.lemma_last_index(id, i);
        }
    }

    proof fn greatest_index(self, id: Seq<char>, k: int) -> (i: int)
        requires
            0 <= k < self.nodes.len(),
            self.nodes[k].id == id,
        ensures
            self.is_last_index(id, i),
        decreases self.nodes.len() - k,
    {
        if forall|j: int| k < j < self.nodes.len() ==> (#[trigger] self.nodes[j]).id != id {
            k
        } else {
            let j = choose|j: int|
                k < j < self.nodes.len() && (#[trigger] self.nodes[j]).id == id;
            self.greatest_index(id, j)
        }
    }

    proof fn lemma_targets_in_bounds(self, edges: Seq<EdgeModel>, u: int)
        ensures
            forall|k: int|
                0 <= k < self.targets(edges, u).len() ==> 0 <= #[trigger] self.targets(edges, u)[k]
                    < self.nodes.len(),
        decreases edges.len(),
    {
        if edges.len() > 0 {
            self.lemma_targets_in_bounds(edges.drop_last(), u);
            self.lemma_has_last(edges.last().to);
            let rest = self.targets(edges.drop_last(), u);
            let all = self.targets(edges, u);
            assert forall|k: int| 0 <= k < all.len() implies 0 <= #[trigger] all[k]
                < self.nodes.len() by {
                if k < rest.len() {
                    assert(all[k] == rest[k]);
                }
            }
        }
    }

    /// Connections by step number lead to steps that are there.
    pub proof fn lemma_adjacency(self)
        ensures
            self.adjacency().len() == self.nodes.len(),
            in_bounds(self.adjacency()),
    {
        let adj = self.adjacency();
        assert forall|u: int, k: int| 0 <= u < adj.len() && 0 <= k < adj[u].len() implies 0
            <= #[trigger] adj[u][k] < adj.len() by {
            self.lemma_targets_in_bounds(self.edges, u);
            assert(adj[u] == self.targets(self.edges, u));
        }
    }
}

impl ArchitectGraph {
    fn last_index(&self, id: &NodeId) -> (res: Option<usize>)
        ensures
            match res {
                Some(i) => self@.last_index(id@) == Some(i as int) && i < self.nodes@.len(),
                None => self@.last_index(id@) is None,
            },
    {
        let mut k: usize = self.nodes.len();
        proof {
            self.lemma_view();
        }
        while k > 0
            invariant
                k <= self.nodes.len(),
                self@.nodes.len() == self.nodes@.len(),
                forall|i: int| k <= i < self@.nodes.len() ==> (#[trigger] self@.nodes[i]).id != id@,
            decreases k,
        {
            proof {
                self.lemma_view();
                assert(self@.nodes[k - 1] == self.nodes@[k - 1]@);
            }
            if self.nodes[k - 1].id.same(id) {
                proof {
                    self@.lemma_last_index(id@, k - 1);
                }
                return Some(k - 1);
            }
            k -= 1;
        }
        None
    }

    /// The adjacency of the graph in node order, which keeps every derived
    /// computation deterministic.
    pub fn adjacency(&self) -> (res: Vec<Vec<usize>>)
        ensures
            lists(res@) == self@.adjacency(),
            in_bounds(lists(res@)),
            res@.len() == self.nodes@.len(),
    {
        let mut out: Vec<Vec<usize>> = Vec::new();
        for k in 0..self.nodes.len()
            invariant
                out@.len() == k,
                forall|u: int| 0 <= u < k ==> (#[trigger] out@[u])@.len() == 0,
        {
            out.push(Vec::new());
        }
        proof {
            self.lemma_view();
            assert forall|u: int| 0 <= u < out@.len() implies numbers((#[trigger] out@[u])@)
                == self@.targets(self@.edges.take(0), u) by {
                assert(numbers(out@[u]@) =~= Seq::empty());
            }
        }
        for k in 0..self.edges.len()
            invariant
                out@.len() == self.nodes@.len(),
                self@.edges.len() == self.edges@.len(),
                forall|u: int|
                    0 <= u < out@.len() ==> numbers((#[trigger] out@[u])@) == self@.targets(
                        self@.edges.take(k as int),
                        u,
                    ),
        {
            let edge = &self.edges[k];
            let ghost before = out@;
            let ghost upto = self@.edges.take(k + 1);
            proof {
                self.lemma_view();
                assert(upto.drop_last() =~= self@.edges.take(k as int));
                assert(upto.last() == edge@);
            }
            if let Some(from) = self.last_index(&edge.from) {
                if let Some(to) = self.last_index(&edge.to) {
                    out[from].push(to);
                    proof {
                        assert(numbers(out@[from as int]@) =~= numbers(before[from as int]@).push(
                            to as int,
                        ));
                    }
                }
            }
            proof {
                assert forall|u: int| 0 <= u < out@.len() implies numbers((#[trigger] out@[u])@)
                    == self@.targets(upto, u) by {
                    assert(numbers(before[u]@) == self@.targets(self@.edges.take(k as int), u));
                }
            }
        }
        proof {
            self.lemma_view();
            self@.lemma_adjacency();
            assert(self@.edges.take(self@.edges.len() as int) =~= self@.edges);
            assert(lists(out@) =~= self@.adjacency());
        }
        out
    }
}

impl SearchModel {
    /// How late a step finished: the last one to finish comes first.
    pub open spec fn rank(self, v: int) -> int {
        self.done.len() - self.done.index_of(v)
    }

    /// The column of a step: the first one where nothing leads to it but
    /// connections set aside, and one past the furthest step leading to it
    /// otherwise.
    pub open spec fn column(self, adj: Seq<Seq<int>>, v: int) -> int
        decreases self.rank(v), adj.len() + 1,
    {
        self.past_furthest(adj, v, adj.len() as int)
    }

    /// The least column past all steps before number `u` that lead to `v`.
    pub open spec fn past_furthest(self, adj: Seq<Seq<int>>, v: int, u: int) -> int
        decreases self.rank(v), u,
    {
        if u <= 0 || u > adj.len() {
            0
        } else {
            let rest = self.past_furthest(adj, v, u - 1);
            if forward(adj, self.back, u - 1, v) && 0 <= self.rank(u - 1) < self.rank(v) {
                let past = self.column(adj, u - 1) + 1;
                if past > rest {
                    past
                } else {
                    rest
                }
            } else {
                rest
            }
        }
    }

    proof fn lemma_rank(self, adj: Seq<Seq<int>>, u: int, v: int)
        requires
            in_bounds(adj),
            self.valid(adj),
            forall|x: int| 0 <= x < adj.len() ==> #[trigger] self.done.contains(x),
            forward(adj, self.back, u, v),
        ensures
            0 <= v < adj.len(),
            0 < self.rank(u) < self.rank(v) <= self.done.len(),
    {
        let k = choose|k: int| 0 <= k < adj[u].len() && adj[u][k] == v;
        assert(0 <= adj[u][k] < adj.len());
        assert(self.done.contains(u));
        assert(self.done.contains(v));
        let i = self.done.index_of(u);
        assert(self.done[i] == u);
        assert(self.settled_before(adj, i, k));
        let j = choose|j: int| 0 <= j < i && self.done[j] == v;
        assert(self.done[self.done.index_of(v)] == v);
        assert(self.done.index_of(v) == j);
    }

    proof fn lemma_past_furthest(self, adj: Seq<Seq<int>>, v: int, u: int)
        requires
            in_bounds(adj),
            self.valid(adj),
            forall|x: int| 0 <= x < adj.len() ==> #[trigger] self.done.contains(x),
            0 <= v < adj.len(),
            0 <= u <= adj.len(),
        ensures
            forall|w: int|
                0 <= w < u && #[trigger] forward(adj, self.back, w, v) ==> self.past_furthest(
                    adj,
                    v,
                    u,
                ) >= self.column(adj, w) + 1,
            self.past_furthest(adj, v, u) == 0 || exists|w: int|
                0 <= w < u && #[trigger] forward(adj, self.back, w, v) && self.past_furthest(
                    adj,
                    v,
                    u,
                ) == self.column(adj, w) + 1,
            0 <= self.past_furthest(adj, v, u) < self.rank(v),
        decreases self.rank(v), u,
    {
        assert(self.done.contains(v));
        assert(self.done[self.done.index_of(v)] == v);
        if u > 0 {
            self.lemma_past_furthest(adj, v, u - 1);
            if forward(adj, self.back, u - 1, v) {
                self.lemma_rank(adj, u - 1, v);
                self.lemma_past_furthest(adj, u - 1, adj.len() as int);
            }
        }
    }
}

/// The columns of a plan's steps.
pub open spec fn columns(adj: Seq<Seq<int>>) -> Seq<int> {
    Seq::new(adj.len(), |v: int| searched(adj).column(adj, v))
}

/// Each step stands one column past the furthest step that leads to it by a
/// connection that closes no loop, and in the first column where there is none.
/// So such a connection always points forward.
pub proof fn lemma_columns(adj: Seq<Seq<int>>)
    requires
        in_bounds(adj),
    ensures
        columns(adj).len() == adj.len(),
        forall|v: int| 0 <= v < adj.len() ==> 0 <= #[trigger] columns(adj)[v] < adj.len(),
        forall|u: int, v: int| #[trigger]
            forward(adj, searched(adj).back, u, v) ==> columns(adj)[u] < columns(adj)[v],
        forall|v: int|
            0 <= v < adj.len() && #[trigger] columns(adj)[v] > 0 ==> exists|u: int| #[trigger]
                forward(adj, searched(adj).back, u, v) && columns(adj)[v] == columns(adj)[u] + 1,
{
    lemma_searched(adj);
    let s = searched(adj);
    lemma_done_len(adj);
    assert forall|v: int| 0 <= v < adj.len() implies 0 <= #[trigger] columns(adj)[v] < adj.len() by {
        s.lemma_past_furthest(adj, v, adj.len() as int);
        assert(s.done.contains(v));
        assert(s.done[s.done.index_of(v)] == v);
    }
    assert forall|u: int, v: int| #[trigger] forward(adj, s.back, u, v) implies columns(adj)[u]
        < columns(adj)[v] by {
        s.lemma_rank(adj, u, v);
        s.lemma_past_furthest(adj, v, adj.len() as int);
    }
    assert forall|v: int| 0 <= v < adj.len() && #[trigger] columns(adj)[v] > 0 implies exists|
        u: int,
    | #[trigger] forward(adj, s.back, u, v) && columns(adj)[v] == columns(adj)[u] + 1 by {
        s.lemma_past_furthest(adj, v, adj.len() as int);
        let w = choose|w: int|
            0 <= w < adj.len() && #[trigger] forward(adj, s.back, w, v) && s.past_furthest(
                adj,
                v,
                adj.len() as int,
            ) == s.column(adj, w) + 1;
        assert(columns(adj)[w] == s.column(adj, w));
    }
}

/// The search finishes each step once.
pub proof fn lemma_done_len(adj: Seq<Seq<int>>)
    requires
        in_bounds(adj),
    ensures
        searched(adj).done.len() == adj.len(),
{
    lemma_searched(adj);
    let done = searched(adj).done;
    done.unique_seq_to_set();
    let range = vstd::set_lib::set_int_range(0, adj.len() as int);
    vstd::set_lib::lemma_int_range(0, adj.len() as int);
    assert(done.to_set() =~= range) by {
        assert forall|x: int| done.to_set().contains(x) implies range.contains(x) by {
            let i = choose|i: int| 0 <= i < done.len() && done[i] == x;
            assert(0 <= done[i] < adj.len());
        }
        assert forall|x: int| range.contains(x) implies done.to_set().contains(x) by {
            assert(done.contains(x));
        }
    }
}

/// Places each step one column past the furthest step leading into it, so a
/// connection always points forward.
pub fn assign_columns(adjacency: &Vec<Vec<usize>>, traversal: &Traversal) -> (res: Vec<usize>)
    requires
        in_bounds(lists(adjacency@)),
        traversal.of(lists(adjacency@)),
    ensures
        numbers(res@) == columns(lists(adjacency@)),
{
    let ghost adj = lists(adjacency@);
    let ghost s = searched(adj);
    let n: usize = adjacency.len();
    let mut column: Vec<usize> = Vec::new();
    for k in 0..n
        invariant
            column@.len() == k,
            forall|i: int| 0 <= i < k ==> column@[i] == 0,
    {
        column.push(0);
    }
    proof {
        lemma_searched(adj);
        lemma_columns(adj);
        lemma_done_len(adj);
        assert(numbers(traversal.finished@).len() == traversal.finished@.len());
        assert forall|u: int, v: int| !#[trigger] counted(adj, s, n as int, -1, 0, u, v) by {
            if forward(adj, s.back, u, v) {
                assert(s.done.contains(u));
                assert(s.done[s.done.index_of(u)] == u);
            }
        }
    }
    let mut left: usize = traversal.finished.len();
    while left > 0
        invariant
            adj == lists(adjacency@),
            n == adjacency@.len(),
            n == adj.len(),
            s == searched(adj),
            in_bounds(adj),
            s.valid(adj),
            traversal.of(adj),
            left <= traversal.finished@.len(),
            traversal.finished@.len() == n,
            s.done.len() == n,
            forall|x: int| 0 <= x < adj.len() ==> #[trigger] s.done.contains(x),
            column@.len() == n,
            past_counted(adj, s, column@, left as int, -1, 0),
            forall|i: int|
                left <= i < n ==> column@[#[trigger] s.done[i]] == columns(adj)[s.done[i]],
        decreases left,
    {
        left -= 1;
        let node: usize = traversal.finished[left];
        proof {
            assert(s.done[left as int] == numbers(traversal.finished@)[left as int]);
            assert(0 <= s.done[left as int] < adj.len());
            lemma_column_known(adj, column@, left as int);
            lemma_columns(adj);
            lemma_past_none(adj, s, column@, left + 1, node as int);
            assert(adjacency@[node as int]@.len() == adj[node as int].len());
            assert forall|i: int| left <= i < n implies column@[#[trigger] s.done[i]] == columns(
                adj,
            )[s.done[i]] by {
            }
        }
        let count: usize = adjacency[node].len();
        for k in 0..count
            invariant
                count == adj[node as int].len(),
                adj == lists(adjacency@),
                n == adjacency@.len(),
                n == adj.len(),
                s == searched(adj),
                in_bounds(adj),
                s.valid(adj),
                traversal.of(adj),
                left < n,
                node < n,
                s.done.len() == n,
                s.done[left as int] == node,
                columns(adj)[node as int] < n,
                forall|x: int| 0 <= x < adj.len() ==> #[trigger] s.done.contains(x),
                adjacency@[node as int]@.len() == adj[node as int].len(),
                column@.len() == n,
                past_counted(adj, s, column@, left + 1, node as int, k as int),
                forall|i: int|
                    left <= i < n ==> column@[#[trigger] s.done[i]] == columns(adj)[s.done[i]],
        {
            let to: usize = adjacency[node][k];
            let ghost before = column@;
            proof {
                assert(adj[node as int][k as int] == to as int);
                assert(column@[s.done[left as int]] == columns(adj)[node as int]);
                assert(adj[node as int].contains(to as int));
            }
            if !traversal.closes_loop(node, to) {
                proof {
                    assert(forward(adj, s.back, node as int, to as int));
                    s.lemma_rank(adj, node as int, to as int);
                }
                let past: usize = column[node] + 1;
                if past > column[to] {
                    column.set(to, past);
                }
                proof {
                    assert forall|i: int| left <= i < n implies column@[#[trigger] s.done[i]]
                        == columns(adj)[s.done[i]] by {
                        assert(s.done.contains(to as int));
                        assert(s.done[s.done.index_of(to as int)] == to as int);
                    }
                }
            }
            proof {
                lemma_past_step(adj, s, before, column@, left + 1, node as int, k as int);
            }
        }
        proof {
            lemma_past_all(adj, s, column@, left as int, node as int);
        }
    }
    proof {
        lemma_columns(adj);
        assert forall|v: int| 0 <= v < n implies #[trigger] column@[v] == columns(adj)[v] by {
            assert(s.done.contains(v));
            let i = s.done.index_of(v);
            assert(s.done[i] == v);
        }
        assert(numbers(column@) =~= columns(adj));
    }
    column
}

/// A connection is counted once its source has been dealt with: the sources
/// that finished at place `from` or later, and `node` up to connection `k`.
spec fn counted(
    adj: Seq<Seq<int>>,
    s: SearchModel,
    from: int,
    node: int,
    k: int,
    u: int,
    v: int,
) -> bool {
    &&& forward(adj, s.back, u, v)
    &&& s.done.index_of(u) >= from || (u == node && exists|j: int| 0 <= j < k && adj[u][j] == v)
}

/// Each step stands past the sources of its counted connections, and no further.
spec fn past_counted(
    adj: Seq<Seq<int>>,
    s: SearchModel,
    column: Seq<usize>,
    from: int,
    node: int,
    k: int,
) -> bool {
    &&& forall|u: int, v: int| #[trigger]
        counted(adj, s, from, node, k, u, v) ==> column[v] >= columns(adj)[u] + 1
    &&& forall|v: int|
        0 <= v < adj.len() && #[trigger] column[v] > 0 ==> exists|u: int| #[trigger]
            counted(adj, s, from, node, k, u, v) && column[v] == columns(adj)[u] + 1
}

proof fn lemma_column_known(adj: Seq<Seq<int>>, column: Seq<usize>, at: int)
    requires
        in_bounds(adj),
        column.len() == adj.len(),
        0 <= at < searched(adj).done.len(),
        past_counted(adj, searched(adj), column, at + 1, -1, 0),
    ensures
        column[searched(adj).done[at]] == columns(adj)[searched(adj).done[at]],
{
    let s = searched(adj);
    lemma_searched(adj);
    lemma_columns(adj);
    let v = s.done[at];
    assert(0 <= s.done[at] < adj.len());
    assert(s.done.contains(v));
    assert(s.done[s.done.index_of(v)] == v);
    if columns(adj)[v] > 0 {
        let u = choose|u: int| #[trigger]
            forward(adj, s.back, u, v) && columns(adj)[v] == columns(adj)[u] + 1;
        s.lemma_rank(adj, u, v);
        assert(counted(adj, s, at + 1, -1, 0, u, v));
        assert(column[v] >= columns(adj)[v]);
    }
    if column[v] > 0 {
        let u = choose|u: int| #[trigger]
            counted(adj, s, at + 1, -1, 0, u, v) && column[v] == columns(adj)[u] + 1;
        assert(forward(adj, s.back, u, v));
        assert(columns(adj)[u] < columns(adj)[v]);
    }
}

proof fn lemma_past_none(
    adj: Seq<Seq<int>>,
    s: SearchModel,
    column: Seq<usize>,
    from: int,
    node: int,
)
    requires
        past_counted(adj, s, column, from, -1, 0),
    ensures
        past_counted(adj, s, column, from, node, 0),
{
    assert forall|u: int, v: int| #[trigger]
        counted(adj, s, from, node, 0, u, v) implies column[v] >= columns(adj)[u] + 1 by {
        assert(counted(adj, s, from, -1, 0, u, v));
    }
    assert forall|v: int| 0 <= v < adj.len() && #[trigger] column[v] > 0 implies exists|u: int|
        #[trigger]
        counted(adj, s, from, node, 0, u, v) && column[v] == columns(adj)[u] + 1 by {
        let u = choose|u: int| #[trigger]
            counted(adj, s, from, -1, 0, u, v) && column[v] == columns(adj)[u] + 1;
        assert(counted(adj, s, from, node, 0, u, v));
    }
}

proof fn lemma_past_step(
    adj: Seq<Seq<int>>,
    s: SearchModel,
    before: Seq<usize>,
    after: Seq<usize>,
    from: int,
    node: int,
    k: int,
)
    requires
        in_bounds(adj),
        0 <= node < adj.len(),
        0 <= k < adj[node].len(),
        before.len() == adj.len(),
        past_counted(adj, s, before, from, node, k),
        !forward(adj, s.back, node, adj[node][k]) ==> after == before,
        forward(adj, s.back, node, adj[node][k]) ==> after == (if columns(adj)[node] + 1
            > before[adj[node][k]] {
            before.update(adj[node][k], (columns(adj)[node] + 1) as usize)
        } else {
            before
        }),
        0 <= columns(adj)[node] < usize::MAX,
    ensures
        past_counted(adj, s, after, from, node, k + 1),
{
    let to = adj[node][k];
    assert forall|u: int, v: int| #[trigger]
        counted(adj, s, from, node, k + 1, u, v) implies after[v] >= columns(adj)[u] + 1 by {
        let j = choose|j: int| 0 <= j < adj[u].len() && adj[u][j] == v;
        assert(0 <= adj[u][j] < adj.len());
        assert(0 <= adj[node][k] < adj.len());
        if counted(adj, s, from, node, k, u, v) {
            assert(before[v] >= columns(adj)[u] + 1);
        } else {
            assert(u == node && v == to);
        }
    }
    assert forall|v: int| 0 <= v < adj.len() && #[trigger] after[v] > 0 implies exists|u: int|
        #[trigger]
        counted(adj, s, from, node, k + 1, u, v) && after[v] == columns(adj)[u] + 1 by {
        if after[v] == before[v] {
            let u = choose|u: int| #[trigger]
                counted(adj, s, from, node, k, u, v) && before[v] == columns(adj)[u] + 1;
            assert(counted(adj, s, from, node, k + 1, u, v));
        } else {
            assert(v == to);
            assert(adj[node][k] == v);
            assert(counted(adj, s, from, node, k + 1, node, v));
        }
    }
}

proof fn lemma_past_all(
    adj: Seq<Seq<int>>,
    s: SearchModel,
    column: Seq<usize>,
    at: int,
    node: int,
)
    requires
        0 <= at < s.done.len(),
        s.done[at] == node,
        s.done.no_duplicates(),
        0 <= node < adj.len(),
        past_counted(adj, s, column, at + 1, node, adj[node].len() as int),
        forall|x: int| 0 <= x < adj.len() ==> #[trigger] s.done.contains(x),
    ensures
        past_counted(adj, s, column, at, -1, 0),
{
    let k = adj[node].len() as int;
    assert forall|u: int, v: int| #[trigger]
        counted(adj, s, at, -1, 0, u, v) == counted(
        adj,
        s,
        at + 1,
        node,
        k,
        u,
        v,
    ) by {
        if forward(adj, s.back, u, v) {
            assert(s.done.contains(u));
            assert(s.done[s.done.index_of(u)] == u);
            if u == node {
                let j = choose|j: int| 0 <= j < adj[u].len() && adj[u][j] == v;
                assert(0 <= j < k && adj[u][j] == v);
            }
        }
    }
    assert forall|u: int, v: int| #[trigger]
        counted(adj, s, at, -1, 0, u, v) implies column[v] >= columns(adj)[u] + 1 by {
        assert(counted(adj, s, at + 1, node, k, u, v));
    }
    assert forall|v: int| 0 <= v < adj.len() && #[trigger] column[v] > 0 implies exists|u: int|
        #[trigger]
        counted(adj, s, at, -1, 0, u, v) && column[v] == columns(adj)[u] + 1 by {
        let u = choose|u: int| #[trigger]
            counted(adj, s, at + 1, node, k, u, v) && column[v] == columns(adj)[u] + 1;
        assert(counted(adj, s, at, -1, 0, u, v));
    }
}

/// Whether every way from one step to another goes through a third.
pub open spec fn passes(adj: Seq<Seq<int>>, from: int, through: int, to: int) -> bool {
    forall|way: Seq<int>| #[trigger]
        is_way(adj, way) && way[0] == from && way.last() == to ==> way.contains(through)
}

impl SearchModel {
    /// Every connection of a step back to one that all ways to it go through is set aside.
    spec fn broken(self, adj: Seq<Seq<int>>, from: int, x: int) -> bool {
        forall|v: int| #[trigger]
            adj[x].contains(v) && passes(adj, from, v, x) ==> self.back.contains((x, v))
    }

    /// Nothing that is set aside leads to a step the search has not come to.
    spec fn back_is_known(self) -> bool {
        forall|x: int, v: int| #[trigger]
            self.back.contains((x, v)) ==> self.marks[v] != Mark::Unvisited
    }

    proof fn lemma_back_grows(self, adj: Seq<Seq<int>>, u: int, k: int)
        ensures
            forall|x: int, v: int| #[trigger]
                self.back.contains((x, v)) ==> self.explored(adj, u, k).back.contains((x, v)),
        decreases unvisited(self.marks), adj[u].len() - k,
    {
        if 0 <= k < adj[u].len() {
            let v = adj[u][k];
            if 0 <= v < self.marks.len() && self.marks[v] == Mark::Exploring {
                self.set_aside(u, v).lemma_back_grows(adj, u, k + 1);
                assert forall|x: int, w: int| #[trigger]
                    self.back.contains((x, w)) implies self.explored(adj, u, k).back.contains(
                    (x, w),
                ) by {
                    assert(self.set_aside(u, v).back.contains((x, w)));
                }
            } else if 0 <= v < self.marks.len() && self.marks[v] == Mark::Unvisited {
                lemma_unvisited_update(self.marks, v, Mark::Exploring);
                let entered = self.marked(v, Mark::Exploring);
                entered.lemma_back_grows(adj, v, 0);
                let inner = entered.explored(adj, v, 0);
                if unvisited(inner.marks) <= unvisited(self.marks) {
                    inner.lemma_back_grows(adj, u, k + 1);
                }
                assert forall|x: int, w: int| #[trigger]
                    self.back.contains((x, w)) implies self.explored(adj, u, k).back.contains(
                    (x, w),
                ) by {
                    assert(entered.back.contains((x, w)));
                    assert(inner.back.contains((x, w)));
                }
            } else {
                self.lemma_back_grows(adj, u, k + 1);
            }
        }
    }

    proof fn lemma_back_grows_from(self, adj: Seq<Seq<int>>, start: int)
        ensures
            forall|x: int, v: int| #[trigger]
                self.back.contains((x, v)) ==> self.explored_from(adj, start).back.contains((x, v)),
        decreases adj.len() - start,
    {
        if 0 <= start < adj.len() {
            if self.marks[start] == Mark::Unvisited {
                let entered = self.marked(start, Mark::Exploring);
                entered.lemma_back_grows(adj, start, 0);
                let next = entered.explored(adj, start, 0);
                next.lemma_back_grows_from(adj, start + 1);
                assert forall|x: int, v: int| #[trigger]
                    self.back.contains((x, v)) implies self.explored_from(
                    adj,
                    start,
                ).back.contains((x, v)) by {
                    assert(entered.back.contains((x, v)));
                    assert(next.back.contains((x, v)));
                }
            } else {
                self.lemma_back_grows_from(adj, start + 1);
            }
        }
    }

    proof fn lemma_entries(self, adj: Seq<Seq<int>>, from: int, u: int, k: int, way: Seq<int>)
        requires
            in_bounds(adj),
            self.valid(adj),
            0 <= u < adj.len(),
            0 <= k <= adj[u].len(),
            self.marks[u] == Mark::Exploring,
            forall|j: int|
                0 <= j < k ==> self.back.contains((u, #[trigger] adj[u][j]))
                    || self.marks[adj[u][j]] == Mark::Done,
            forall|x: int|
                0 <= x < adj.len() && #[trigger] self.marks[x] == Mark::Exploring ==> leads_to(
                    adj,
                    x,
                    u,
                ),
            is_way(adj, way),
            way[0] == from,
            way.last() == u,
            forall|i: int| 0 <= i < way.len() ==> self.marks[#[trigger] way[i]] == Mark::Exploring,
            forall|j: int|
                #![trigger adj[u][j]]
                0 <= j < k && passes(adj, from, adj[u][j], u) ==> self.back.contains(
                    (u, adj[u][j]),
                ),
            self.back_is_known(),
            forall|x: int|
                0 <= x < adj.len() && #[trigger] self.marks[x] == Mark::Done ==> self.broken(
                    adj,
                    from,
                    x,
                ),
        ensures
            self.explored(adj, u, k).back_is_known(),
            forall|x: int|
                0 <= x < adj.len() && #[trigger] self.explored(adj, u, k).marks[x] == Mark::Done
                    ==> self.explored(adj, u, k).broken(adj, from, x),
        decreases unvisited(self.marks), adj[u].len() - k,
    {
        let res = self.explored(adj, u, k);
        if k == adj[u].len() {
            assert forall|x: int| 0 <= x < adj.len() && #[trigger] res.marks[x]
                == Mark::Done implies res.broken(adj, from, x) by {
                if x == u {
                    assert forall|v: int| #[trigger]
                        adj[u].contains(v) && passes(adj, from, v, u) implies res.back.contains(
                        (u, v),
                    ) by {
                        let j = choose|j: int| 0 <= j < adj[u].len() && adj[u][j] == v;
                        assert(adj[u][j] == v);
                    }
                } else {
                    assert(self.marks[x] == Mark::Done);
                    assert(self.broken(adj, from, x));
                }
            }
        } else {
            let v = adj[u][k];
            assert(adj[u].contains(v));
            assert(0 <= v < adj.len());
            if passes(adj, from, v, u) {
                assert(way.contains(v));
                let i = choose|i: int| 0 <= i < way.len() && way[i] == v;
                assert(self.marks[way[i]] == Mark::Exploring);
            }
            if self.marks[v] == Mark::Exploring {
                let next = self.set_aside(u, v);
                assert forall|i: int, j: int|
                    0 <= i < next.done.len() && 0 <= j
                        < adj[next.done[i]].len() implies #[trigger] next.settled_before(
                    adj,
                    i,
                    j,
                ) by {
                    assert(self.settled_before(adj, i, j));
                }
                assert(next.valid(adj));
                assert forall|x: int| 0 <= x < adj.len() && #[trigger] next.marks[x]
                    == Mark::Done implies next.broken(adj, from, x) by {
                    assert(self.marks[x] == Mark::Done);
                    assert(self.broken(adj, from, x));
                }
                assert(next.back_is_known()) by {
                    assert forall|x: int, w: int| #[trigger]
                        next.back.contains((x, w)) implies next.marks[w] != Mark::Unvisited by {
                        if (x, w) != (u, v) {
                            assert(self.back.contains((x, w)));
                        }
                    }
                }
                next.lemma_entries(adj, from, u, k + 1, way);
            } else if self.marks[v] == Mark::Unvisited {
                lemma_unvisited_update(self.marks, v, Mark::Exploring);
                let entered = self.marked(v, Mark::Exploring);
                assert(entered.valid(adj)) by {
                    assert forall|i: int, j: int|
                        0 <= i < entered.done.len() && 0 <= j
                            < adj[entered.done[i]].len() implies #[trigger] entered.settled_before(
                        adj,
                        i,
                        j,
                    ) by {
                        assert(self.settled_before(adj, i, j));
                    }
                    assert forall|i: int| 0 <= i < entered.done.len() implies 0
                        <= #[trigger] entered.done[i] < adj.len()
                        && entered.marks[entered.done[i]] == Mark::Done by {
                        assert(self.marks[self.done[i]] == Mark::Done);
                    }
                    assert forall|w: int|
                        0 <= w < adj.len() && #[trigger] entered.marks[w]
                            == Mark::Done implies entered.done.contains(w) by {
                        assert(self.marks[w] == Mark::Done);
                    }
                }
                assert forall|x: int|
                    0 <= x < adj.len() && #[trigger] entered.marks[x]
                        == Mark::Exploring implies leads_to(adj, x, v) by {
                    if x == v {
                        assert(is_way(adj, seq![v]));
                        assert(seq![v][0] == v && seq![v].last() == v);
                    } else {
                        assert(self.marks[x] == Mark::Exploring);
                        lemma_leads_on(adj, x, u, v);
                    }
                }
                let longer = way.push(v);
                assert(is_way(adj, longer)) by {
                    assert forall|i: int| 0 < i < longer.len() implies adj[longer[i - 1]].contains(
                        #[trigger] longer[i],
                    ) by {
                        if i < way.len() {
                            assert(adj[way[i - 1]].contains(way[i]));
                        }
                    }
                }
                assert forall|i: int| 0 <= i < longer.len() implies entered.marks[
                #[trigger] longer[i]] == Mark::Exploring by {
                    if i < way.len() {
                        assert(self.marks[way[i]] == Mark::Exploring);
                    }
                }
                assert forall|x: int| 0 <= x < adj.len() && #[trigger] entered.marks[x]
                    == Mark::Done implies entered.broken(adj, from, x) by {
                    assert(self.marks[x] == Mark::Done);
                    assert(self.broken(adj, from, x));
                }
                assert(entered.back_is_known()) by {
                    assert forall|x: int, w: int| #[trigger]
                        entered.back.contains((x, w)) implies entered.marks[w]
                        != Mark::Unvisited by {
                        assert(self.back.contains((x, w)));
                    }
                }
                entered.lemma_explored(adj, v, 0);
                entered.lemma_entries(adj, from, v, 0, longer);
                let inner = entered.explored(adj, v, 0);
                lemma_unvisited_update(entered.marks, v, Mark::Done);
                assert(entered.marked(v, Mark::Done).continued_by(inner));
                assert(inner.marks[u] == Mark::Exploring);
                assert forall|x: int|
                    0 <= x < adj.len() && #[trigger] inner.marks[x]
                        == Mark::Exploring implies leads_to(adj, x, u) by {
                    assert(entered.marked(v, Mark::Done).marks[x] == Mark::Exploring);
                    assert(self.marks[x] == Mark::Exploring);
                }
                assert forall|j: int| 0 <= j < k + 1 implies inner.back.contains(
                    (u, #[trigger] adj[u][j]),
                ) || inner.marks[adj[u][j]] == Mark::Done by {
                    if j < k {
                        assert(0 <= adj[u][j] < adj.len());
                        assert(self.back.contains((u, adj[u][j])) || self.marks[adj[u][j]]
                            == Mark::Done);
                        if self.marks[adj[u][j]] == Mark::Done {
                            assert(entered.marked(v, Mark::Done).marks[adj[u][j]] == Mark::Done);
                        }
                    }
                }
                assert forall|i: int| 0 <= i < way.len() implies inner.marks[#[trigger] way[i]]
                    == Mark::Exploring by {
                    assert(self.marks[way[i]] == Mark::Exploring);
                    assert(entered.marked(v, Mark::Done).marks[way[i]] == Mark::Exploring);
                }
                assert forall|j: int|
                    #![trigger adj[u][j]]
                    0 <= j < k + 1 && passes(adj, from, adj[u][j], u) implies inner.back.contains(
                    (u, adj[u][j]),
                ) by {
                    assert(j < k);
                    assert(self.back.contains((u, adj[u][j])));
                    assert(entered.marked(v, Mark::Done).back.contains((u, adj[u][j])));
                }
                inner.lemma_entries(adj, from, u, k + 1, way);
            } else {
                self.lemma_entries(adj, from, u, k + 1, way);
            }
        }
    }
}

/// A loop is broken where it is entered: where every way from the first step of a plan to
/// a step goes through another one, a connection from the step back to that one is set
/// aside.
pub proof fn law_loops_are_broken_where_they_are_entered(adj: Seq<Seq<int>>, u: int, v: int)
    requires
        in_bounds(adj),
        0 <= u < adj.len(),
        adj[u].contains(v),
        leads_to(adj, 0, u),
        passes(adj, 0, v, u),
    ensures
        searched(adj).back.contains((u, v)),
{
    let n = adj.len();
    let start = SearchModel::initial(n);
    let entered = start.marked(0, Mark::Exploring);
    assert(start.valid(adj));
    assert(entered.valid(adj)) by {
        assert forall|w: int| 0 <= w < adj.len() && #[trigger] entered.marks[w]
            == Mark::Done implies entered.done.contains(w) by {
        }
    }
    let way = seq![0int];
    assert(is_way(adj, way));
    assert(way[0] == 0 && way.last() == 0);
    assert forall|x: int| 0 <= x < adj.len() && #[trigger] entered.marks[x]
        == Mark::Exploring implies leads_to(adj, x, 0) by {
        assert(x == 0);
    }
    entered.lemma_explored(adj, 0, 0);
    entered.lemma_entries(adj, 0, 0, 0, way);
    let first = entered.explored(adj, 0, 0);
    assert forall|x: int| 0 <= x < adj.len() implies #[trigger] first.marks[x]
        != Mark::Exploring by {
        let m = entered.marked(0, Mark::Done).marks[x];
    }
    let route = choose|route: Seq<int>| #[trigger]
        is_way(adj, route) && route[0] == 0 && route.last() == u;
    lemma_way_is_searched(first, adj, route, route.len() as int - 1);
    assert(first.marks[u] == Mark::Done);
    assert(first.broken(adj, 0, u));
    assert(first.back.contains((u, v)));
    first.lemma_back_grows_from(adj, 1);
    assert(searched(adj) == first.explored_from(adj, 1));
}

proof fn lemma_way_is_searched(found: SearchModel, adj: Seq<Seq<int>>, way: Seq<int>, i: int)
    requires
        in_bounds(adj),
        found.valid(adj),
        found.back_is_known(),
        forall|x: int| 0 <= x < adj.len() ==> #[trigger] found.marks[x] != Mark::Exploring,
        is_way(adj, way),
        found.marks[way[0]] == Mark::Done,
        0 <= i < way.len(),
    ensures
        found.marks[way[i]] == Mark::Done,
    decreases i,
{
    if i > 0 {
        lemma_way_is_searched(found, adj, way, i - 1);
        let x = way[i - 1];
        let t = way[i];
        assert(found.done.contains(x));
        let a = choose|a: int| 0 <= a < found.done.len() && found.done[a] == x;
        assert(adj[way[i - 1]].contains(way[i]));
        let k = choose|k: int| 0 <= k < adj[x].len() && adj[x][k] == t;
        assert(found.settled_before(adj, a, k));
        if found.back.contains((x, t)) {
            assert(found.marks[t] != Mark::Unvisited);
        } else {
            let b = choose|b: int| 0 <= b < a && found.done[b] == t;
            assert(found.marks[found.done[b]] == Mark::Done);
        }
    }
}

} // verus!
