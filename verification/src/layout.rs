//! Turning a graph into readable positions.
//!
//! The approach is the classic layered one: put each step in a column one past
//! the furthest step that leads to it, then order steps within a column to keep
//! the connections between columns from crossing. Loops are ordinary in a plan,
//! so the edges that close a cycle are set aside while columns are assigned and
//! drawn as connections back through the layout.
use crate::graph::{ArchitectGraph, Position};
use crate::id_map::IdMap;
use crate::model::{GraphModel, NodeModel};
use crate::search::{self, assign_columns, depth_first, Traversal};
use vstd::prelude::*;

verus! {

/// Horizontal distance between columns, wide enough for an edge label to sit on
/// the connection without touching either node.
pub const COLUMN_SPACING: i128 = 340;

/// Vertical distance between steps sharing a column.
pub const ROW_SPACING: i128 = 168;

/// The number of reordering passes. Each pass pulls a step toward the average
/// position of the steps that lead to it; a handful of passes is enough to
/// settle the graphs a plan produces, and it is bounded work either way.
const ORDERING_PASSES: usize = 4;

impl Position {
    /// Where both coordinates are zero.
    pub fn zero() -> (res: Self)
        ensures
            res == (Position { x: 0, y: 0 }),
    {
        Position { x: 0, y: 0 }
    }
}

/// The steps before number `u`, and step `u` by its first `k` connections, that
/// lead to `v` without closing a loop, once for each connection.
pub open spec fn leading(
    adj: Seq<Seq<int>>,
    back: Set<(int, int)>,
    v: int,
    u: int,
    k: int,
) -> Seq<int>
    decreases u, k,
{
    if k > 0 {
        let rest = leading(adj, back, v, u, k - 1);
        if adj[u][k - 1] == v && !back.contains((u, v)) {
            rest.push(u)
        } else {
            rest
        }
    } else if u > 0 {
        leading(adj, back, v, u - 1, adj[u - 1].len() as int)
    } else {
        Seq::empty()
    }
}

/// The steps that lead to each step without closing a loop.
pub open spec fn predecessors(adj: Seq<Seq<int>>) -> Seq<Seq<int>> {
    Seq::new(adj.len(), |v: int| leading(adj, search::searched(adj).back, v, adj.len() as int, 0))
}

/// The sum of the rows of some steps.
pub open spec fn row_sum(steps: Seq<int>, row: Seq<int>) -> int
    decreases steps.len(),
{
    if steps.len() == 0 {
        0
    } else {
        row_sum(steps.drop_last(), row) + row[steps.last()]
    }
}

/// Where a step is pulled to, as a fraction: the average row of the steps that
/// lead to it, or its own row where nothing does.
pub open spec fn pull(preds: Seq<Seq<int>>, row: Seq<int>, v: int) -> (int, int) {
    if preds[v].len() == 0 {
        (row[v], 1)
    } else {
        (row_sum(preds[v], row), preds[v].len() as int)
    }
}

/// Whether `a` is pulled to a smaller row than `b`.
pub open spec fn above(preds: Seq<Seq<int>>, row: Seq<int>, a: int, b: int) -> bool {
    let p = pull(preds, row, a);
    let q = pull(preds, row, b);
    p.0 * q.1 < q.0 * p.1
}

/// A sorted group with one more step, behind those pulled no further than it.
pub open spec fn group_with(
    preds: Seq<Seq<int>>,
    row: Seq<int>,
    group: Seq<int>,
    v: int,
) -> Seq<int>
    decreases group.len(),
{
    if group.len() > 0 && above(preds, row, v, group.last()) {
        group_with(preds, row, group.drop_last(), v).push(group.last())
    } else {
        group.push(v)
    }
}

/// A group in the order its steps are pulled to; equals keep their order.
pub open spec fn group_sorted(preds: Seq<Seq<int>>, row: Seq<int>, group: Seq<int>) -> Seq<int>
    decreases group.len(),
{
    if group.len() == 0 {
        group
    } else {
        group_with(preds, row, group_sorted(preds, row, group.drop_last()), group.last())
    }
}

/// The steps before number `m` that stand in a column, in order.
pub open spec fn group(cols: Seq<int>, column: int, m: int) -> Seq<int>
    decreases m,
{
    if m <= 0 {
        Seq::empty()
    } else if cols[m - 1] == column {
        group(cols, column, m - 1).push(m - 1)
    } else {
        group(cols, column, m - 1)
    }
}

/// The highest column in use.
pub open spec fn highest(cols: Seq<int>) -> int
    decreases cols.len(),
{
    if cols.len() == 0 {
        0
    } else {
        let rest = highest(cols.drop_last());
        if cols.last() > rest {
            cols.last()
        } else {
            rest
        }
    }
}

/// The rows with the first `k` steps of a group put where they stand in it.
pub open spec fn placed(row: Seq<int>, group: Seq<int>, k: int) -> Seq<int>
    decreases k,
{
    if k <= 0 {
        row
    } else {
        placed(row, group, k - 1).update(group[k - 1], k - 1)
    }
}

/// The steps of each column in order, and the row of each step.
#[verifier::ext_equal]
pub struct RowsModel {
    pub grouped: Seq<Seq<int>>,
    pub row: Seq<int>,
}

impl RowsModel {
    /// Every column in the order of the plan.
    pub open spec fn initial(cols: Seq<int>) -> RowsModel {
        RowsModel {
            grouped: Seq::new(
                (highest(cols) + 1) as nat,
                |c: int| group(cols, c, cols.len() as int),
            ),
            row: Seq::new(cols.len(), |v: int| group(cols, cols[v], v).len() as int),
        }
    }

    /// One column put in order.
    pub open spec fn settled(self, preds: Seq<Seq<int>>, column: int) -> RowsModel {
        let sorted = group_sorted(preds, self.row, self.grouped[column]);
        RowsModel {
            grouped: self.grouped.update(column, sorted),
            row: placed(self.row, sorted, sorted.len() as int),
        }
    }

    /// The columns from the second one up to before `column` put in order.
    pub open spec fn settled_to(self, preds: Seq<Seq<int>>, column: int) -> RowsModel
        decreases column,
    {
        if column <= 1 {
            self
        } else {
            self.settled_to(preds, column - 1).settled(preds, column - 1)
        }
    }

    /// All columns put in order, a number of times.
    pub open spec fn settled_times(self, preds: Seq<Seq<int>>, times: int) -> RowsModel
        decreases times,
    {
        if times <= 0 {
            self
        } else {
            let before = self.settled_times(preds, times - 1);
            before.settled_to(preds, self.grouped.len() as int)
        }
    }

    /// The columns hold each step once, and the rows say where.
    pub open spec fn valid(self, cols: Seq<int>) -> bool {
        &&& self.row.len() == cols.len()
        &&& self.grouped.len() == highest(cols) + 1
        &&& forall|v: int| 0 <= v < cols.len() ==> 0 <= #[trigger] cols[v] < self.grouped.len()
        &&& forall|v: int|
            0 <= v < cols.len() ==> 0 <= #[trigger] self.row[v] < self.grouped[cols[v]].len()
                && self.grouped[cols[v]][self.row[v]] == v
        &&& forall|c: int, k: int|
            0 <= c < self.grouped.len() && 0 <= k < self.grouped[c].len() ==> 0
                <= #[trigger] self.grouped[c][k] < cols.len() && cols[self.grouped[c][k]] == c
                && self.row[self.grouped[c][k]] == k
    }
}

/// The row of each step within its column.
pub open spec fn rows(adj: Seq<Seq<int>>) -> Seq<int> {
    RowsModel::initial(search::columns(adj)).settled_times(predecessors(adj), 4).row
}

/// The place of a row in a column of some height: columns go to the right, and
/// the rows of a column are spread evenly about the middle.
pub open spec fn spot(column: int, row: int, height: int) -> Position {
    Position { x: (column * 340) as i128, y: ((2 * row - (height - 1)) * 84) as i128 }
}

/// Where a step is put.
pub open spec fn place(adj: Seq<Seq<int>>, v: int) -> Position {
    let cols = search::columns(adj);
    spot(cols[v], rows(adj)[v], group(cols, cols[v], cols.len() as int).len() as int)
}

proof fn lemma_spots(a: int, b: int, p: int, q: int, h: int, n: int)
    requires
        0 <= a < n,
        0 <= b < n,
        0 <= p < n,
        0 <= q < n,
        0 <= h <= n,
        n <= 0xffff_ffff_ffff_ffff,
    ensures
        a < b ==> forall|h1: int, h2: int| #[trigger]
            spot(a, p, h1).x < (#[trigger] spot(b, q, h2)).x,
        p != q ==> spot(a, p, h) != spot(a, q, h),
{
}

/// Whether one fraction is less than another.
fn fraction_less(a: u128, b: u128, c: u128, d: u128) -> (res: bool)
    requires
        b > 0,
        d > 0,
    ensures
        res == (a * d < c * b),
    decreases b + d,
{
    let p: u128 = a / b;
    let q: u128 = c / d;
    let r: u128 = a % b;
    let s: u128 = c % d;
    proof {
        lemma_fractions(a as int, b as int, c as int, d as int);
    }
    if p != q {
        p < q
    } else if s == 0 {
        assert(r * d >= s * b) by (nonlinear_arith)
            requires
                s == 0,
                r >= 0,
                d > 0,
        ;
        false
    } else if r == 0 {
        assert(r * d < s * b) by (nonlinear_arith)
            requires
                r == 0,
                s > 0,
                b > 0,
        ;
        true
    } else {
        assert(r * d == d * r && s * b == b * s) by (nonlinear_arith);
        fraction_less(d, s, b, r)
    }
}

proof fn lemma_fractions(a: int, b: int, c: int, d: int)
    requires
        a >= 0,
        b > 0,
        c >= 0,
        d > 0,
    ensures
        a / b < c / d ==> a * d < c * b,
        a / b > c / d ==> a * d >= c * b,
        a / b == c / d ==> (a * d < c * b <==> (a % b) * d < (c % d) * b),
{
    let p = a / b;
    let q = c / d;
    let r = a % b;
    let s = c % d;
    vstd::arithmetic::div_mod::lemma_fundamental_div_mod(a, b);
    vstd::arithmetic::div_mod::lemma_fundamental_div_mod(c, d);
    assert(a * d == p * (b * d) + r * d) by (nonlinear_arith)
        requires
            a == b * p + r,
    ;
    assert(c * b == q * (b * d) + s * b) by (nonlinear_arith)
        requires
            c == d * q + s,
    ;
    assert(0 <= r * d < b * d) by (nonlinear_arith)
        requires
            0 <= r < b,
            d > 0,
    ;
    assert(0 <= s * b < b * d) by (nonlinear_arith)
        requires
            0 <= s < d,
            b > 0,
    ;
    if p < q {
        assert((p + 1) * (b * d) <= q * (b * d)) by (nonlinear_arith)
            requires
                p + 1 <= q,
                b * d > 0,
        ;
        assert((p + 1) * (b * d) == p * (b * d) + b * d) by (nonlinear_arith);
    }
    if p > q {
        assert((q + 1) * (b * d) <= p * (b * d)) by (nonlinear_arith)
            requires
                q + 1 <= p,
                b * d > 0,
        ;
        assert((q + 1) * (b * d) == q * (b * d) + b * d) by (nonlinear_arith);
    }
}

/// The average row of some steps, as a fraction, or a step's own row.
fn average_row(steps: &Vec<usize>, row: &Vec<usize>, own: usize) -> (res: (u128, u128))
    requires
        forall|i: int| 0 <= i < steps@.len() ==> #[trigger] steps@[i] < row@.len(),
        own < row@.len(),
    ensures
        res.1 > 0,
        steps@.len() == 0 ==> res.0 == row@[own as int] && res.1 == 1,
        steps@.len() > 0 ==> res.0 == row_sum(search::numbers(steps@), search::numbers(row@)) && res.1
            == steps@.len(),
{
    if steps.len() == 0 {
        return (row[own] as u128, 1);
    }
    let mut total: u128 = 0;
    for k in 0..steps.len()
        invariant
            forall|i: int| 0 <= i < steps@.len() ==> #[trigger] steps@[i] < row@.len(),
            total == row_sum(search::numbers(steps@).take(k as int), search::numbers(row@)),
            total <= k * usize::MAX,
    {
        let one: usize = row[steps[k]];
        proof {
            let s = search::numbers(steps@);
            assert(s.take(k + 1).drop_last() =~= s.take(k as int));
            assert(s.take(k + 1).last() == steps@[k as int] as int);
            assert(search::numbers(row@)[steps@[k as int] as int] == one as int);
            assert(total + one <= (k + 1) * usize::MAX) by (nonlinear_arith)
                requires
                    total <= k * usize::MAX,
                    one <= usize::MAX,
            ;
            assert((k + 1) * usize::MAX <= u128::MAX) by (nonlinear_arith)
                requires
                    k + 1 <= usize::MAX,
                    usize::MAX <= 0xffff_ffff_ffff_ffff,
            ;
        }
        total = total + one as u128;
    }
    proof {
        assert(search::numbers(steps@).take(steps@.len() as int) =~= search::numbers(steps@));
    }
    (total, steps.len() as u128)
}

/// Every list names steps that are there.
pub open spec fn within(preds: Seq<Seq<int>>, n: int) -> bool {
    &&& preds.len() == n
    &&& forall|v: int, k: int|
        0 <= v < preds.len() && 0 <= k < preds[v].len() ==> 0 <= #[trigger] preds[v][k] < n
}

fn pulled_above(preds: &Vec<Vec<usize>>, row: &Vec<usize>, a: usize, b: usize) -> (res: bool)
    requires
        within(search::lists(preds@), row@.len() as int),
        a < row@.len(),
        b < row@.len(),
    ensures
        res == above(search::lists(preds@), search::numbers(row@), a as int, b as int),
{
    proof {
        let l = search::lists(preds@);
        assert forall|i: int| 0 <= i < preds@[a as int]@.len() implies #[trigger] preds@[a as int]@[i]
            < row@.len() by {
            assert(l[a as int][i] == preds@[a as int]@[i] as int);
        }
        assert forall|i: int| 0 <= i < preds@[b as int]@.len() implies #[trigger] preds@[b as int]@[i]
            < row@.len() by {
            assert(l[b as int][i] == preds@[b as int]@[i] as int);
        }
    }
    let p = average_row(&preds[a], row, a);
    let q = average_row(&preds[b], row, b);
    fraction_less(p.0, p.1, q.0, q.1)
}

proof fn lemma_group_with(
    preds: Seq<Seq<int>>,
    row: Seq<int>,
    group: Seq<int>,
    v: int,
    p: int,
)
    requires
        0 <= p <= group.len(),
        forall|i: int| p <= i < group.len() ==> above(preds, row, v, #[trigger] group[i]),
        p > 0 ==> !above(preds, row, v, group[p - 1]),
    ensures
        group_with(preds, row, group, v) == group.insert(p, v),
    decreases group.len(),
{
    if p == group.len() {
        assert(group.insert(p, v) =~= group.push(v));
    } else {
        assert(group.last() == group[group.len() - 1]);
        lemma_group_with(preds, row, group.drop_last(), v, p);
        assert(group.insert(p, v) =~= group.drop_last().insert(p, v).push(group.last()));
    }
}

fn sort_group(preds: &Vec<Vec<usize>>, row: &Vec<usize>, group: &Vec<usize>) -> (res: Vec<usize>)
    requires
        within(search::lists(preds@), row@.len() as int),
        forall|i: int| 0 <= i < group@.len() ==> #[trigger] group@[i] < row@.len(),
    ensures
        search::numbers(res@) == group_sorted(search::lists(preds@), search::numbers(row@), search::numbers(group@)),
        res@.len() == group@.len(),
        forall|i: int| 0 <= i < res@.len() ==> #[trigger] res@[i] < row@.len(),
{
    let ghost l = search::lists(preds@);
    let ghost r = search::numbers(row@);
    let ghost g = search::numbers(group@);
    let mut out: Vec<usize> = Vec::new();
    proof {
        assert(search::numbers(out@) =~= g.take(0));
    }
    for k in 0..group.len()
        invariant
            l == search::lists(preds@),
            r == search::numbers(row@),
            g == search::numbers(group@),
            within(l, row@.len() as int),
            forall|i: int| 0 <= i < group@.len() ==> #[trigger] group@[i] < row@.len(),
            search::numbers(out@) == group_sorted(l, r, g.take(k as int)),
            out@.len() == k,
            forall|i: int| 0 <= i < out@.len() ==> #[trigger] out@[i] < row@.len(),
    {
        let v: usize = group[k];
        let mut p: usize = out.len();
        while p > 0 && pulled_above(preds, row, v, out[p - 1])
            invariant
                l == search::lists(preds@),
                r == search::numbers(row@),
                within(l, row@.len() as int),
                v < row@.len(),
                p <= out@.len(),
                forall|i: int| 0 <= i < out@.len() ==> #[trigger] out@[i] < row@.len(),
                forall|i: int|
                    p <= i < out@.len() ==> above(l, r, v as int, #[trigger] search::numbers(out@)[i]),
            ensures
                p > 0 ==> !above(l, r, v as int, search::numbers(out@)[p - 1]),
            decreases p,
        {
            p -= 1;
        }
        let ghost before = out@;
        out.insert(p, v);
        proof {
            lemma_group_with(l, r, search::numbers(before), v as int, p as int);
            assert(search::numbers(out@) =~= search::numbers(before).insert(p as int, v as int));
            assert(g.take(k + 1).drop_last() =~= g.take(k as int));
            assert(g.take(k + 1).last() == v as int);
        }
    }
    proof {
        assert(g.take(group@.len() as int) =~= g);
    }
    out
}

proof fn lemma_leading_within(
    adj: Seq<Seq<int>>,
    back: Set<(int, int)>,
    v: int,
    u: int,
    k: int,
)
    requires
        0 <= u <= adj.len(),
        u == adj.len() ==> k <= 0,
    ensures
        forall|i: int|
            0 <= i < leading(adj, back, v, u, k).len() ==> 0 <= #[trigger] leading(
                adj,
                back,
                v,
                u,
                k,
            )[i] < adj.len(),
    decreases u, k,
{
    let all = leading(adj, back, v, u, k);
    if k > 0 {
        lemma_leading_within(adj, back, v, u, k - 1);
        let rest = leading(adj, back, v, u, k - 1);
        assert forall|i: int| 0 <= i < all.len() implies 0 <= #[trigger] all[i] < adj.len() by {
            if i < rest.len() {
                assert(all[i] == rest[i]);
            }
        }
    } else if u > 0 {
        lemma_leading_within(adj, back, v, u - 1, adj[u - 1].len() as int);
        assert(all == leading(adj, back, v, u - 1, adj[u - 1].len() as int));
    }
}

fn find_predecessors(adjacency: &Vec<Vec<usize>>, traversal: &Traversal) -> (res: Vec<Vec<usize>>)
    requires
        search::in_bounds(search::lists(adjacency@)),
        traversal.of(search::lists(adjacency@)),
    ensures
        search::lists(res@) == predecessors(search::lists(adjacency@)),
        within(search::lists(res@), adjacency@.len() as int),
{
    let ghost adj = search::lists(adjacency@);
    let ghost back = search::searched(adj).back;
    let mut out: Vec<Vec<usize>> = Vec::new();
    for k in 0..adjacency.len()
        invariant
            out@.len() == k,
            forall|v: int| 0 <= v < k ==> (#[trigger] out@[v])@.len() == 0,
    {
        out.push(Vec::new());
    }
    proof {
        assert forall|v: int| 0 <= v < out@.len() implies search::numbers((#[trigger] out@[v])@) == leading(
            adj,
            back,
            v,
            0,
            0,
        ) by {
            assert(search::numbers(out@[v]@) =~= Seq::empty());
        }
    }
    for from in 0..adjacency.len()
        invariant
            adj == search::lists(adjacency@),
            back == search::searched(adj).back,
            search::in_bounds(adj),
            traversal.of(adj),
            out@.len() == adj.len(),
            forall|v: int|
                0 <= v < out@.len() ==> search::numbers((#[trigger] out@[v])@) == leading(
                    adj,
                    back,
                    v,
                    from as int,
                    0,
                ),
    {
        let count: usize = adjacency[from].len();
        proof {
            assert(adj[from as int].len() == count);
        }
        for k in 0..count
            invariant
                adj == search::lists(adjacency@),
                back == search::searched(adj).back,
                search::in_bounds(adj),
                traversal.of(adj),
                out@.len() == adj.len(),
                from < adjacency@.len(),
                count == adjacency@[from as int]@.len(),
                count == adj[from as int].len(),
                forall|v: int|
                    0 <= v < out@.len() ==> search::numbers((#[trigger] out@[v])@) == leading(
                        adj,
                        back,
                        v,
                        from as int,
                        k as int,
                    ),
        {
            let to: usize = adjacency[from][k];
            let ghost before = out@;
            proof {
                assert(adj[from as int][k as int] == to as int);
            }
            if !traversal.closes_loop(from, to) {
                out[to].push(from);
                proof {
                    assert(search::numbers(out@[to as int]@) =~= search::numbers(before[to as int]@).push(
                        from as int,
                    ));
                }
            }
            proof {
                assert forall|v: int| 0 <= v < out@.len() implies search::numbers((#[trigger] out@[v])@)
                    == leading(adj, back, v, from as int, k + 1) by {
                    assert(search::numbers(before[v]@) == leading(adj, back, v, from as int, k as int));
                }
            }
        }
        proof {
            assert forall|v: int| 0 <= v < out@.len() implies search::numbers((#[trigger] out@[v])@)
                == leading(adj, back, v, from + 1, 0) by {
            }
        }
    }
    proof {
        assert(search::lists(out@) =~= predecessors(adj));
        assert forall|v: int, k: int| 0 <= v < out@.len() && 0 <= k < search::lists(out@)[v].len() implies 0
            <= #[trigger] search::lists(out@)[v][k] < adj.len() by {
            lemma_leading_within(adj, back, v, adj.len() as int, 0);
        }
    }
    out
}

pub proof fn lemma_highest(cols: Seq<int>)
    requires
        forall|v: int| 0 <= v < cols.len() ==> 0 <= #[trigger] cols[v],
    ensures
        highest(cols) >= 0,
        forall|v: int| 0 <= v < cols.len() ==> #[trigger] cols[v] <= highest(cols),
        highest(cols) > 0 ==> exists|v: int| 0 <= v < cols.len() && #[trigger] cols[v] == highest(cols),
    decreases cols.len(),
{
    if cols.len() > 0 {
        let rest = cols.drop_last();
        assert forall|v: int| 0 <= v < rest.len() implies 0 <= #[trigger] rest[v] by {
            assert(rest[v] == cols[v]);
        }
        lemma_highest(rest);
        assert forall|v: int| 0 <= v < cols.len() implies #[trigger] cols[v] <= highest(cols) by {
            if v < rest.len() {
                assert(rest[v] == cols[v]);
            }
        }
        if highest(cols) > 0 {
            if highest(cols) == cols.last() {
                assert(cols[cols.len() - 1] == highest(cols));
            } else {
                let v = choose|v: int| 0 <= v < rest.len() && #[trigger] rest[v] == highest(rest);
                assert(cols[v] == highest(cols));
            }
        }
    }
}

pub fn highest_column(columns: &Vec<usize>) -> (res: usize)
    ensures
        res == highest(search::numbers(columns@)),
{
    let mut best: usize = 0;
    let ghost cols = search::numbers(columns@);
    for k in 0..columns.len()
        invariant
            cols == search::numbers(columns@),
            best == highest(cols.take(k as int)),
    {
        proof {
            assert(cols.take(k + 1).drop_last() =~= cols.take(k as int));
            assert(cols.take(k + 1).last() == columns@[k as int] as int);
        }
        if columns[k] > best {
            best = columns[k];
        }
    }
    proof {
        assert(cols.take(cols.len() as int) =~= cols);
    }
    best
}

proof fn lemma_group(cols: Seq<int>, column: int, m: int)
    requires
        0 <= m <= cols.len(),
    ensures
        group(cols, column, m).len() <= m,
        forall|k: int|
            0 <= k < group(cols, column, m).len() ==> 0 <= #[trigger] group(cols, column, m)[k] < m
                && cols[group(cols, column, m)[k]] == column && group(
                cols,
                column,
                group(cols, column, m)[k],
            ).len() == k,
        forall|v: int|
            0 <= v < m && #[trigger] cols[v] == column ==> group(cols, column, v).len() < group(
                cols,
                column,
                m,
            ).len() && group(cols, column, m)[group(cols, column, v).len() as int] == v,
    decreases m,
{
    if m > 0 {
        lemma_group(cols, column, m - 1);
        let rest = group(cols, column, m - 1);
        let all = group(cols, column, m);
        assert forall|k: int| 0 <= k < all.len() implies 0 <= #[trigger] all[k] < m
            && cols[all[k]] == column && group(cols, column, all[k]).len() == k by {
            if k < rest.len() {
                assert(all[k] == rest[k]);
            }
        }
        assert forall|v: int| 0 <= v < m && #[trigger] cols[v] == column implies group(
            cols,
            column,
            v,
        ).len() < all.len() && all[group(cols, column, v).len() as int] == v by {
            if v < m - 1 {
                assert(all[group(cols, column, v).len() as int] == rest[group(
                    cols,
                    column,
                    v,
                ).len() as int]);
            }
        }
    }
}

proof fn lemma_initial_valid(cols: Seq<int>)
    requires
        forall|v: int| 0 <= v < cols.len() ==> 0 <= #[trigger] cols[v],
    ensures
        RowsModel::initial(cols).valid(cols),
{
    lemma_highest(cols);
    let st = RowsModel::initial(cols);
    assert forall|v: int| 0 <= v < cols.len() implies 0 <= #[trigger] st.row[v]
        < st.grouped[cols[v]].len() && st.grouped[cols[v]][st.row[v]] == v by {
        lemma_group(cols, cols[v], cols.len() as int);
    }
    assert forall|c: int, k: int| 0 <= c < st.grouped.len() && 0 <= k < st.grouped[c].len() implies 0
        <= #[trigger] st.grouped[c][k] < cols.len() && cols[st.grouped[c][k]] == c
        && st.row[st.grouped[c][k]] == k by {
        lemma_group(cols, c, cols.len() as int);
    }
}

/// Adding a step to a sorted group puts it somewhere and moves nothing else.
proof fn lemma_group_with_place(
    preds: Seq<Seq<int>>,
    row: Seq<int>,
    group: Seq<int>,
    v: int,
) -> (p: int)
    ensures
        0 <= p <= group.len(),
        group_with(preds, row, group, v) == group.insert(p, v),
    decreases group.len(),
{
    if group.len() > 0 && above(preds, row, v, group.last()) {
        let p = lemma_group_with_place(preds, row, group.drop_last(), v);
        assert(group.insert(p, v) =~= group.drop_last().insert(p, v).push(group.last()));
        p
    } else {
        assert(group.insert(group.len() as int, v) =~= group.push(v));
        group.len() as int
    }
}

/// Sorting a group keeps its steps.
proof fn lemma_group_sorted(preds: Seq<Seq<int>>, row: Seq<int>, group: Seq<int>)
    requires
        group.no_duplicates(),
    ensures
        group_sorted(preds, row, group).len() == group.len(),
        group_sorted(preds, row, group).no_duplicates(),
        forall|v: int|
            group_sorted(preds, row, group).contains(v) <==> #[trigger] group.contains(v),
    decreases group.len(),
{
    if group.len() > 0 {
        let init = group.drop_last();
        let v = group.last();
        lemma_group_sorted(preds, row, init);
        let rest = group_sorted(preds, row, init);
        let p = lemma_group_with_place(preds, row, rest, v);
        let all = rest.insert(p, v);
        assert(!init.contains(v)) by {
            if init.contains(v) {
                let i = choose|i: int| 0 <= i < init.len() && init[i] == v;
                assert(group[i] == group[group.len() - 1]);
            }
        }
        assert(!rest.contains(v));
        assert forall|i: int, j: int| 0 <= i < all.len() && 0 <= j < all.len() && i != j implies all[i]
            != all[j] by {
            let a = if i < p {
                i
            } else {
                i - 1
            };
            let b = if j < p {
                j
            } else {
                j - 1
            };
            if i != p {
                assert(all[i] == rest[a]);
                assert(rest.contains(all[i]));
            }
            if j != p {
                assert(all[j] == rest[b]);
                assert(rest.contains(all[j]));
            }
        }
        assert forall|w: int| all.contains(w) <==> #[trigger] group.contains(w) by {
            if group.contains(w) {
                let i = choose|i: int| 0 <= i < group.len() && group[i] == w;
                if i < init.len() {
                    assert(init[i] == w);
                    assert(init.contains(w));
                    assert(rest.contains(w));
                    let j = choose|j: int| 0 <= j < rest.len() && rest[j] == w;
                    if j < p {
                        assert(all[j] == w);
                    } else {
                        assert(all[j + 1] == w);
                    }
                } else {
                    assert(all[p] == w);
                }
            }
            if all.contains(w) {
                let j = choose|j: int| 0 <= j < all.len() && all[j] == w;
                if j == p {
                    assert(group[group.len() - 1] == w);
                } else {
                    let b = if j < p {
                        j
                    } else {
                        j - 1
                    };
                    assert(rest[b] == w);
                    assert(rest.contains(w));
                    assert(init.contains(w));
                    let i = choose|i: int| 0 <= i < init.len() && init[i] == w;
                    assert(group[i] == w);
                }
            }
        }
    }
}

proof fn lemma_placed(row: Seq<int>, group: Seq<int>, k: int)
    requires
        0 <= k <= group.len(),
        group.no_duplicates(),
        forall|i: int| 0 <= i < group.len() ==> 0 <= #[trigger] group[i] < row.len(),
    ensures
        placed(row, group, k).len() == row.len(),
        forall|i: int| 0 <= i < k ==> placed(row, group, k)[#[trigger] group[i]] == i,
        forall|v: int|
            0 <= v < row.len() && !group.contains(v) ==> #[trigger] placed(row, group, k)[v]
                == row[v],
    decreases k,
{
    if k > 0 {
        lemma_placed(row, group, k - 1);
        assert(group.contains(group[k - 1]));
    }
}

impl RowsModel {
    proof fn lemma_settled(self, preds: Seq<Seq<int>>, cols: Seq<int>, column: int)
        requires
            self.valid(cols),
            0 <= column < self.grouped.len(),
        ensures
            self.settled(preds, column).valid(cols),
    {
        let group = self.grouped[column];
        let next = self.settled(preds, column);
        let sorted = group_sorted(preds, self.row, group);
        assert forall|i: int, j: int| 0 <= i < group.len() && 0 <= j < group.len() && i
            != j implies group[i] != group[j] by {
            assert(self.row[self.grouped[column][i]] == i);
            assert(self.row[self.grouped[column][j]] == j);
        }
        lemma_group_sorted(preds, self.row, group);
        assert forall|i: int| 0 <= i < sorted.len() implies 0 <= #[trigger] sorted[i]
            < self.row.len() && cols[sorted[i]] == column by {
            assert(sorted.contains(sorted[i]));
            assert(group.contains(sorted[i]));
            let j = choose|j: int| 0 <= j < group.len() && group[j] == sorted[i];
            assert(0 <= self.grouped[column][j] < cols.len());
        }
        lemma_placed(self.row, sorted, sorted.len() as int);
        assert forall|v: int| 0 <= v < cols.len() implies 0 <= #[trigger] next.row[v]
            < next.grouped[cols[v]].len() && next.grouped[cols[v]][next.row[v]] == v by {
            assert(0 <= self.row[v]);
            if cols[v] == column {
                assert(group[self.row[v]] == v);
                assert(group.contains(v));
                assert(sorted.contains(v));
                let i = choose|i: int| 0 <= i < sorted.len() && sorted[i] == v;
                assert(next.row[sorted[i]] == i);
            } else {
                if sorted.contains(v) {
                    let i = choose|i: int| 0 <= i < sorted.len() && sorted[i] == v;
                    assert(cols[sorted[i]] == column);
                }
            }
        }
        assert forall|c: int, k: int|
            0 <= c < next.grouped.len() && 0 <= k < next.grouped[c].len() implies 0
            <= #[trigger] next.grouped[c][k] < cols.len() && cols[next.grouped[c][k]] == c
            && next.row[next.grouped[c][k]] == k by {
            if c == column {
                assert(next.row[sorted[k]] == k);
            } else {
                let v = self.grouped[c][k];
                assert(0 <= v < cols.len() && cols[v] == c && self.row[v] == k);
                if sorted.contains(v) {
                    let i = choose|i: int| 0 <= i < sorted.len() && sorted[i] == v;
                    assert(cols[sorted[i]] == column);
                }
            }
        }
    }

    proof fn lemma_settled_to(self, preds: Seq<Seq<int>>, cols: Seq<int>, column: int)
        requires
            self.valid(cols),
            column <= self.grouped.len(),
        ensures
            self.settled_to(preds, column).valid(cols),
        decreases column,
    {
        if column > 1 {
            self.lemma_settled_to(preds, cols, column - 1);
            self.settled_to(preds, column - 1).lemma_settled(preds, cols, column - 1);
        }
    }

    proof fn lemma_settled_times(self, preds: Seq<Seq<int>>, cols: Seq<int>, times: int)
        requires
            self.valid(cols),
        ensures
            self.settled_times(preds, times).valid(cols),
        decreases times,
    {
        if times > 0 {
            self.lemma_settled_times(preds, cols, times - 1);
            self.settled_times(preds, times - 1).lemma_settled_to(
                preds,
                cols,
                self.grouped.len() as int,
            );
        }
    }
}

/// Orders the steps inside each column so connections between columns cross as
/// little as possible, by repeatedly moving each step toward the average
/// position of the steps that lead into it.
fn order_within_columns(
    adjacency: &Vec<Vec<usize>>,
    traversal: &Traversal,
    columns: &Vec<usize>,
) -> (res: Vec<usize>)
    requires
        search::in_bounds(search::lists(adjacency@)),
        traversal.of(search::lists(adjacency@)),
        search::numbers(columns@) == crate::search::columns(search::lists(adjacency@)),
        adjacency@.len() > 0,
    ensures
        search::numbers(res@) == rows(search::lists(adjacency@)),
{
    let ghost adj = search::lists(adjacency@);
    let ghost cols = search::numbers(columns@);
    let ghost start = RowsModel::initial(cols);
    let preds = find_predecessors(adjacency, traversal);
    let ghost p = predecessors(adj);
    let n: usize = columns.len();
    proof {
        search::lemma_columns(adj);
        assert(cols.len() == n);
        assert forall|v: int| 0 <= v < n implies 0 <= #[trigger] cols[v] < n by {
        }
        lemma_highest(cols);
        lemma_initial_valid(cols);
    }
    let top: usize = highest_column(columns);
    proof {
        assert(top < n);
    }
    let column_count: usize = top + 1;
    let mut grouped: Vec<Vec<usize>> = Vec::new();
    for k in 0..column_count
        invariant
            grouped@.len() == k,
            forall|c: int| 0 <= c < k ==> (#[trigger] grouped@[c])@.len() == 0,
    {
        grouped.push(Vec::new());
    }
    let mut row: Vec<usize> = Vec::new();
    proof {
        assert forall|c: int| 0 <= c < column_count implies search::numbers((#[trigger] grouped@[c])@)
            == group(cols, c, 0) by {
            assert(search::numbers(grouped@[c]@) =~= Seq::empty());
        }
    }
    for v in 0..n
        invariant
            cols == search::numbers(columns@),
            n == columns@.len(),
            row@.len() == v,
            grouped@.len() == column_count,
            column_count == highest(cols) + 1,
            forall|u: int| 0 <= u < n ==> 0 <= #[trigger] cols[u] <= highest(cols),
            forall|c: int|
                0 <= c < column_count ==> search::numbers((#[trigger] grouped@[c])@) == group(
                    cols,
                    c,
                    v as int,
                ),
            forall|u: int|
                0 <= u < v ==> #[trigger] row@[u] as int == group(cols, cols[u], u).len(),
    {
        let column: usize = columns[v];
        let ghost before = grouped@;
        proof {
            assert(cols[v as int] == column as int);
            assert(search::numbers(grouped@[column as int]@) == group(cols, column as int, v as int));
        }
        row.push(grouped[column].len());
        grouped[column].push(v);
        proof {
            assert(search::numbers(grouped@[column as int]@) =~= search::numbers(before[column as int]@).push(
                v as int,
            ));
            assert forall|c: int| 0 <= c < column_count implies search::numbers((#[trigger] grouped@[c])@)
                == group(cols, c, v + 1) by {
                assert(search::numbers(before[c]@) == group(cols, c, v as int));
            }
        }
    }
    proof {
        assert(search::lists(grouped@) =~= start.grouped);
        assert(search::numbers(row@) =~= start.row);
    }
    for pass in 0..ORDERING_PASSES
        invariant
            cols == search::numbers(columns@),
            n == cols.len(),
            p == search::lists(preds@),
            within(p, n as int),
            start == RowsModel::initial(cols),
            start.valid(cols),
            column_count == start.grouped.len(),
            row@.len() == n,
            search::lists(grouped@) == start.settled_times(p, pass as int).grouped,
            search::numbers(row@) == start.settled_times(p, pass as int).row,
    {
        let ghost begun = start.settled_times(p, pass as int);
        proof {
            start.lemma_settled_times(p, cols, pass as int);
        }
        for column in 1..column_count
            invariant
                cols == search::numbers(columns@),
                n == cols.len(),
                p == search::lists(preds@),
                within(p, n as int),
                begun.valid(cols),
                column_count == begun.grouped.len(),
                row@.len() == n,
                search::lists(grouped@) == begun.settled_to(p, column as int).grouped,
                search::numbers(row@) == begun.settled_to(p, column as int).row,
        {
            let ghost st = begun.settled_to(p, column as int);
            proof {
                begun.lemma_settled_to(p, cols, column as int);
                assert(search::lists(grouped@).len() == grouped@.len());
                assert(st.grouped[column as int] == search::numbers(grouped@[column as int]@));
                assert forall|i: int| 0 <= i < grouped@[column as int]@.len() implies
                    #[trigger] grouped@[column as int]@[i] < row@.len() by {
                    assert(st.grouped[column as int][i] == grouped@[column as int]@[i] as int);
                }
            }
            let sorted = sort_group(&preds, &row, &grouped[column]);
            let ghost rows_before = search::numbers(row@);
            let ghost g = search::numbers(sorted@);
            for k in 0..sorted.len()
                invariant
                    g == search::numbers(sorted@),
                    row@.len() == n,
                    forall|i: int| 0 <= i < sorted@.len() ==> #[trigger] sorted@[i] < n,
                    search::numbers(row@) == placed(rows_before, g, k as int),
            {
                let ghost before = row@;
                row.set(sorted[k], k);
                proof {
                    assert(g[k as int] == sorted@[k as int] as int);
                    assert(search::numbers(row@) =~= search::numbers(before).update(
                        sorted@[k as int] as int,
                        k as int,
                    ));
                }
            }
            let ghost before = grouped@;
            grouped.set(column, sorted);
            proof {
                assert(search::lists(grouped@) =~= search::lists(before).update(column as int, g));
            }
        }
    }
    row
}

/// The sum of some heights.
pub open spec fn total(heights: Seq<usize>) -> int
    decreases heights.len(),
{
    if heights.len() == 0 {
        0
    } else {
        total(heights.drop_last()) + heights.last()
    }
}

proof fn lemma_total_update(heights: Seq<usize>, c: int, height: usize)
    requires
        0 <= c < heights.len(),
    ensures
        total(heights.update(c, height)) == total(heights) - heights[c] + height,
    decreases heights.len(),
{
    let after = heights.update(c, height);
    if c == heights.len() - 1 {
        assert(after.drop_last() =~= heights.drop_last());
    } else {
        lemma_total_update(heights.drop_last(), c, height);
        assert(after.drop_last() =~= heights.drop_last().update(c, height));
    }
}

/// How many of the first `node_count` steps stand in each column.
fn column_heights(columns: &Vec<usize>, node_count: usize) -> (res: Vec<usize>)
    requires
        forall|v: int| 0 <= v < columns@.len() ==> #[trigger] columns@[v] < usize::MAX,
    ensures
        res@.len() == highest(search::numbers(columns@)) + 1,
        ({
            let counted = if node_count < columns@.len() {
                node_count as int
            } else {
                columns@.len() as int
            };
            &&& forall|c: int|
                0 <= c < res@.len() ==> #[trigger] res@[c] as int == group(
                    search::numbers(columns@),
                    c,
                    counted,
                ).len()
            &&& total(res@) == counted
        }),
{
    let ghost cols = search::numbers(columns@);
    proof {
        assert forall|v: int| 0 <= v < cols.len() implies 0 <= #[trigger] cols[v]
            < usize::MAX by {
            assert(cols[v] == columns@[v] as int);
        }
        lemma_highest(cols);
    }
    let column_count: usize = highest_column(columns) + 1;
    let mut heights: Vec<usize> = Vec::new();
    for k in 0..column_count
        invariant
            heights@.len() == k,
            forall|c: int| 0 <= c < k ==> heights@[c] == 0,
            total(heights@) == 0,
    {
        let ghost before = heights@;
        heights.push(0);
        proof {
            assert(heights@.drop_last() =~= before);
        }
    }
    let counted: usize = if node_count < columns.len() {
        node_count
    } else {
        columns.len()
    };
    for v in 0..counted
        invariant
            counted <= columns@.len(),
            cols == search::numbers(columns@),
            heights@.len() == highest(cols) + 1,
            forall|u: int| 0 <= u < cols.len() ==> 0 <= #[trigger] cols[u] <= highest(cols),
            forall|c: int|
                0 <= c < heights@.len() ==> #[trigger] heights@[c] as int == group(
                    cols,
                    c,
                    v as int,
                ).len(),
            total(heights@) == v,
    {
        let column: usize = columns[v];
        proof {
            assert(cols[v as int] == column as int);
            lemma_group(cols, column as int, v as int);
            assert(heights@[column as int] as int == group(cols, column as int, v as int).len());
        }
        let height: usize = heights[column];
        proof {
            lemma_total_update(heights@, column as int, (height + 1) as usize);
        }
        heights.set(column, height + 1);
    }
    heights
}

impl GraphModel {
    /// Where the layout puts the step of an id; of several, the last one counts.
    pub open spec fn place_of(self, id: Seq<char>) -> Option<Position> {
        match self.last_index(id) {
            Some(i) => Some(place(self.adjacency(), i)),
            None => None,
        }
    }
}

/// Where every step of a graph belongs on the canvas.
pub fn layout_positions(graph: &ArchitectGraph) -> (res: IdMap<Position>)
    ensures
        forall|id: Seq<char>| #[trigger]
            res@.contains_key(id) <==> graph@.has_node(id),
        forall|id: Seq<char>| #[trigger]
            res@.contains_key(id) ==> Some(res@[id]) == graph@.place_of(id),
{
    let mut positions: IdMap<Position> = IdMap::new();
    proof {
        graph.lemma_view();
    }
    if graph.nodes.len() == 0 {
        return positions;
    }
    let adjacency = graph.adjacency();
    let ghost adj = graph@.adjacency();
    let traversal = depth_first(&adjacency);
    let columns = assign_columns(&adjacency, &traversal);
    let ghost cols = search::numbers(columns@);
    proof {
        search::lemma_columns(adj);
        assert(cols.len() == adj.len());
        assert forall|v: int| 0 <= v < columns@.len() implies #[trigger] columns@[v] < columns@.len() by {
            assert(cols[v] == columns@[v] as int);
        }
        assert forall|v: int| 0 <= v < cols.len() implies 0 <= #[trigger] cols[v] by {
        }
        lemma_highest(cols);
    }
    let rows = order_within_columns(&adjacency, &traversal, &columns);
    let heights = column_heights(&columns, graph.nodes.len());
    let ghost n = graph.nodes@.len();
    proof {
        lemma_rows_bounded(adj);
        assert(search::numbers(rows@).len() == rows@.len());
    }
    for ix in 0..graph.nodes.len()
        invariant
            n == graph.nodes@.len(),
            graph@.nodes.len() == n,
            adj == graph@.adjacency(),
            adj.len() == n,
            cols == search::numbers(columns@),
            cols == crate::search::columns(adj),
            columns@.len() == n,
            rows@.len() == n,
            search::numbers(rows@) == crate::layout::rows(adj),
            heights@.len() == highest(cols) + 1,
            forall|v: int| 0 <= v < cols.len() ==> 0 <= #[trigger] cols[v] <= highest(cols),
            forall|c: int|
                0 <= c < heights@.len() ==> #[trigger] heights@[c] as int == group(
                    cols,
                    c,
                    n as int,
                ).len(),
            forall|id: Seq<char>| #[trigger]
                positions@.contains_key(id) <==> exists|i: int|
                    0 <= i < ix && (#[trigger] graph@.nodes[i]).id == id,
            forall|id: Seq<char>| #[trigger]
                positions@.contains_key(id) ==> exists|i: int|
                    0 <= i < ix && (#[trigger] graph@.nodes[i]).id == id && positions@[id] == place(
                        adj,
                        i,
                    ) && forall|j: int| i < j < ix ==> (#[trigger] graph@.nodes[j]).id != id,
    {
        let node = &graph.nodes[ix];
        let column: usize = columns[ix];
        proof {
            graph.lemma_view();
            assert(graph@.nodes[ix as int] == node@);
            assert(cols[ix as int] == column as int);
        }
        let height: usize = heights[column];
        let row: usize = rows[ix];
        proof {
            assert(height as int == group(cols, column as int, n as int).len());
            assert(search::numbers(rows@)[ix as int] == row as int);
        }
        let x: i128 = column as i128 * COLUMN_SPACING;
        let y: i128 = (2 * (row as i128) - (height as i128 - 1)) * (ROW_SPACING / 2);
        let position = Position { x, y };
        proof {
            assert(position == place(adj, ix as int));
            lemma_group(cols, column as int, n as int);
        }
        let ghost before = positions@;
        let id = node.id.clone();
        positions.insert(id, position);
        proof {
            assert forall|id: Seq<char>| #[trigger] positions@.contains_key(id) <==> exists|i: int|
                0 <= i < ix + 1 && (#[trigger] graph@.nodes[i]).id == id by {
                if id != node.id@ && before.contains_key(id) {
                    let i = choose|i: int|
                        0 <= i < ix && (#[trigger] graph@.nodes[i]).id == id;
                    assert(graph@.nodes[i].id == id);
                }
                if id == node.id@ {
                    assert(graph@.nodes[ix as int].id == id);
                }
            }
            assert forall|id: Seq<char>| #[trigger] positions@.contains_key(id) implies exists|i: int|
                0 <= i < ix + 1 && (#[trigger] graph@.nodes[i]).id == id && positions@[id] == place(
                    adj,
                    i,
                ) && forall|j: int| i < j < ix + 1 ==> (#[trigger] graph@.nodes[j]).id != id by {
                if id == node.id@ {
                    assert(graph@.nodes[ix as int].id == id);
                } else {
                    let i = choose|i: int|
                        0 <= i < ix && (#[trigger] graph@.nodes[i]).id == id && before[id] == place(
                            adj,
                            i,
                        ) && forall|j: int| i < j < ix ==> (#[trigger] graph@.nodes[j]).id != id;
                    assert(graph@.nodes[i].id == id);
                }
            }
        }
    }
    proof {
        assert forall|id: Seq<char>| #[trigger] positions@.contains_key(id) implies Some(
            positions@[id],
        ) == graph@.place_of(id) by {
            let i = choose|i: int|
                0 <= i < n && (#[trigger] graph@.nodes[i]).id == id && positions@[id] == place(adj, i)
                    && forall|j: int| i < j < n ==> (#[trigger] graph@.nodes[j]).id != id;
            assert(graph@.is_last_index(id, i));
            graph@.lemma_last_index(id, i);
        }
    }
    positions
}

proof fn lemma_rows_bounded(adj: Seq<Seq<int>>)
    requires
        search::in_bounds(adj),
    ensures
        rows(adj).len() == adj.len(),
        RowsModel::initial(search::columns(adj)).settled_times(predecessors(adj), 4).valid(search::columns(adj)),
{
    search::lemma_columns(adj);
    let cols = search::columns(adj);
    assert forall|v: int| 0 <= v < cols.len() implies 0 <= #[trigger] cols[v] by {
    }
    lemma_initial_valid(cols);
    RowsModel::initial(cols).lemma_settled_times(predecessors(adj), cols, 4);
}

/// The layout never puts two steps in the same place.
pub proof fn law_places_are_distinct(adj: Seq<Seq<int>>, a: int, b: int)
    requires
        search::in_bounds(adj),
        0 <= a < adj.len(),
        0 <= b < adj.len(),
        a != b,
        adj.len() <= usize::MAX,
    ensures
        place(adj, a) != place(adj, b),
{
    search::lemma_columns(adj);
    lemma_rows_bounded(adj);
    let cols = search::columns(adj);
    let st = RowsModel::initial(cols).settled_times(predecessors(adj), 4);
    let n = adj.len() as int;
    lemma_row_below(st, cols, a);
    lemma_row_below(st, cols, b);
    lemma_group(cols, cols[a], n);
    let h = group(cols, cols[a], n).len() as int;
    lemma_spots(cols[a], cols[b], st.row[a], st.row[b], h, n);
    lemma_spots(cols[b], cols[a], st.row[b], st.row[a], h, n);
    if cols[a] == cols[b] {
        assert(st.grouped[cols[a]][st.row[a]] == a);
        assert(st.grouped[cols[b]][st.row[b]] == b);
    }
}

proof fn lemma_row_below(st: RowsModel, cols: Seq<int>, v: int)
    requires
        st.valid(cols),
        0 <= v < cols.len(),
    ensures
        0 <= st.row[v] < cols.len(),
{
    let group = st.grouped[cols[v]];
    assert(0 <= st.row[v] < group.len());
    assert(group.no_duplicates()) by {
        assert forall|i: int, j: int| 0 <= i < group.len() && 0 <= j < group.len() && i
            != j implies group[i] != group[j] by {
            assert(st.row[st.grouped[cols[v]][i]] == i);
            assert(st.row[st.grouped[cols[v]][j]] == j);
        }
    }
    group.unique_seq_to_set();
    let range = vstd::set_lib::set_int_range(0, cols.len() as int);
    vstd::set_lib::lemma_int_range(0, cols.len() as int);
    assert(group.to_set().subset_of(range)) by {
        assert forall|x: int| group.to_set().contains(x) implies range.contains(x) by {
            let i = choose|i: int| 0 <= i < group.len() && group[i] == x;
            assert(0 <= st.grouped[cols[v]][i] < cols.len());
        }
    }
    vstd::set_lib::lemma_len_subset(group.to_set(), range);
}

/// A connection that closes no loop points to the right.
pub proof fn law_connections_point_right(adj: Seq<Seq<int>>, u: int, v: int)
    requires
        search::in_bounds(adj),
        crate::search::forward(adj, search::searched(adj).back, u, v),
        adj.len() <= usize::MAX,
    ensures
        place(adj, u).x < place(adj, v).x,
{
    search::lemma_columns(adj);
    let k = choose|k: int| 0 <= k < adj[u].len() && adj[u][k] == v;
    assert(0 <= adj[u][k] < adj.len());
    let n = adj.len() as int;
    lemma_spots(search::columns(adj)[u], search::columns(adj)[v], 0, 0, 0, n);
    assert(place(adj, u).x == spot(search::columns(adj)[u], 0, 0).x);
    assert(place(adj, v).x == spot(search::columns(adj)[v], 0, 0).x);
}

impl GraphModel {
    /// The plan with every step put where the layout puts it; unless `anew`,
    /// steps that have a place keep it.
    pub open spec fn laid_out(self, anew: bool) -> GraphModel {
        GraphModel {
            nodes: Seq::new(
                self.nodes.len(),
                |i: int|
                    if anew || self.nodes[i].position is None {
                        NodeModel { position: self.place_of(self.nodes[i].id), ..self.nodes[i] }
                    } else {
                        self.nodes[i]
                    },
            ),
            edges: self.edges,
        }
    }
}

impl ArchitectGraph {
    fn lay_out(&mut self, anew: bool)
        ensures
            final(self)@ == old(self)@.laid_out(anew),
    {
        let ghost before = *self;
        let positions = layout_positions(self);
        proof {
            before.lemma_view();
        }
        let mut k: usize = 0;
        while k < self.nodes.len()
            invariant
                k <= self.nodes@.len(),
                self.nodes@.len() == before.nodes@.len(),
                self.edges == before.edges,
                before@.nodes.len() == before.nodes@.len(),
                forall|id: Seq<char>| #[trigger]
                    positions@.contains_key(id) <==> before@.has_node(id),
                forall|id: Seq<char>| #[trigger]
                    positions@.contains_key(id) ==> Some(positions@[id]) == before@.place_of(id),
                forall|i: int|
                    0 <= i < k ==> (#[trigger] self.nodes@[i])@ == before@.laid_out(anew).nodes[i],
                forall|i: int|
                    k <= i < self.nodes@.len() ==> #[trigger] self.nodes@[i] == before.nodes@[i],
            decreases self.nodes@.len() - k,
        {
            proof {
                before.lemma_view();
                assert(before@.nodes[k as int] == before.nodes@[k as int]@);
                assert(before@.has_node(before.nodes@[k as int].id@));
                assert(positions@.contains_key(before.nodes@[k as int].id@));
            }
            if anew || self.nodes[k].position.is_none() {
                let position = positions.get(&self.nodes[k].id);
                self.nodes[k].position = position;
            }
            k += 1;
        }
        proof {
            self.lemma_view();
            assert(self@.nodes =~= before@.laid_out(anew).nodes);
            assert(self@.edges =~= before@.edges);
        }
    }

    /// Gives a position to every node that does not have one yet, leaving nodes
    /// the user has already placed exactly where they are.
    pub fn place_unpositioned_nodes(&mut self)
        ensures
            final(self)@ == old(self)@.laid_out(false),
    {
        let mut all_placed = true;
        for k in 0..self.nodes.len()
            invariant
                all_placed ==> forall|i: int|
                    0 <= i < k ==> (#[trigger] self.nodes@[i]).position is Some,
                *self == *old(self),
        {
            if self.nodes[k].position.is_none() {
                all_placed = false;
            }
        }
        if all_placed {
            proof {
                self.lemma_view();
                assert forall|i: int| 0 <= i < self@.nodes.len() implies self@.laid_out(
                    false,
                ).nodes[i] == self@.nodes[i] by {
                    assert(self.nodes@[i].position is Some);
                }
                assert(self@.laid_out(false).nodes =~= self@.nodes);
            }
            return;
        }
        self.lay_out(false);
    }

    /// Re-runs the layout over the whole graph, discarding manual placement.
    pub fn relayout(&mut self)
        ensures
            final(self)@ == old(self)@.laid_out(true),
    {
        self.lay_out(true);
    }
}

/// After the layout every step has a place, and a step that had one keeps it
/// unless the layout is done anew. Nothing but places changes.
pub proof fn law_layout_places_every_step(plan: GraphModel, anew: bool, i: int)
    requires
        0 <= i < plan.nodes.len(),
    ensures
        plan.laid_out(anew).nodes.len() == plan.nodes.len(),
        plan.laid_out(anew).nodes[i].position is Some,
        !anew && plan.nodes[i].position is Some ==> plan.laid_out(anew).nodes[i] == plan.nodes[i],
        (NodeModel { position: plan.nodes[i].position, ..plan.laid_out(anew).nodes[i] })
            == plan.nodes[i],
        plan.laid_out(anew).edges == plan.edges,
{
    assert(plan.has_node(plan.nodes[i].id));
    plan.lemma_has_last(plan.nodes[i].id);
}

/// Whether a step is a given one.
pub open spec fn equals(v: int) -> spec_fn(int) -> bool {
    |x: int| x == v
}

/// How many of some steps are a given one.
pub open spec fn occurrences(steps: Seq<int>, v: int) -> nat {
    steps.filter(equals(v)).len()
}

/// How many connections that close no loop lead from one step to another.
pub open spec fn pulls(adj: Seq<Seq<int>>, u: int, v: int) -> nat {
    if search::searched(adj).back.contains((u, v)) {
        0
    } else {
        occurrences(adj[u], v)
    }
}

/// How many connections that close no loop lead to a step from the steps before number
/// `m`.
pub open spec fn pull_count(adj: Seq<Seq<int>>, v: int, m: int) -> int
    decreases m,
{
    if m <= 0 {
        0
    } else {
        pull_count(adj, v, m - 1) + pulls(adj, m - 1, v)
    }
}

/// The sum of the rows that those connections come from.
pub open spec fn pull_total(adj: Seq<Seq<int>>, row: Seq<int>, v: int, m: int) -> int
    decreases m,
{
    if m <= 0 {
        0
    } else {
        pull_total(adj, row, v, m - 1) + row[m - 1] * pulls(adj, m - 1, v)
    }
}

proof fn lemma_leading_counted(adj: Seq<Seq<int>>, row: Seq<int>, v: int, u: int, k: int)
    requires
        0 <= u <= adj.len(),
        u == adj.len() ==> k <= 0,
        u < adj.len() ==> k <= adj[u].len(),
    ensures
        ({
            let back = search::searched(adj).back;
            let some = if k > 0 && !back.contains((u, v)) {
                occurrences(adj[u].take(k), v)
            } else {
                0
            };
            &&& leading(adj, back, v, u, k).len() == pull_count(adj, v, u) + some
            &&& row_sum(leading(adj, back, v, u, k), row) == pull_total(adj, row, v, u) + (if some
                == 0 {
                0
            } else {
                row[u] * some
            })
        }),
    decreases u, k,
{
    let back = search::searched(adj).back;
    let all = leading(adj, back, v, u, k);
    if k > 0 {
        lemma_leading_counted(adj, row, v, u, k - 1);
        let rest = leading(adj, back, v, u, k - 1);
        assert(adj[u].take(k).drop_last() =~= adj[u].take(k - 1));
        reveal(Seq::filter);
        assert(adj[u].take(k).last() == adj[u][k - 1]);
        let before = occurrences(adj[u].take(k - 1), v);
        assert(k == 1 ==> before == 0) by {
            if k == 1 {
                assert(adj[u].take(0) =~= Seq::empty());
            }
        }
        if adj[u][k - 1] == v && !back.contains((u, v)) {
            assert(all.drop_last() =~= rest);
            assert(occurrences(adj[u].take(k), v) == before + 1);
            assert(row[u] * (before + 1) == row[u] * before + row[u]) by (nonlinear_arith);
            assert(row[u] * 0 == 0);
        }
    } else if u > 0 {
        let w = u - 1;
        lemma_leading_counted(adj, row, v, w, adj[w].len() as int);
        assert(adj[w].take(adj[w].len() as int) =~= adj[w]);
        if adj[w].len() == 0 {
            reveal(Seq::filter);
        }
        assert(row[w] * 0 == 0);
    }
}

proof fn lemma_pull_counted(adj: Seq<Seq<int>>, row: Seq<int>, v: int)
    requires
        0 <= v < adj.len(),
    ensures
        predecessors(adj)[v].len() == pull_count(adj, v, adj.len() as int),
        row_sum(predecessors(adj)[v], row) == pull_total(adj, row, v, adj.len() as int),
{
    lemma_leading_counted(adj, row, v, adj.len() as int, 0);
}

proof fn lemma_leading_forward(adj: Seq<Seq<int>>, v: int, u: int, k: int)
    requires
        0 <= u <= adj.len(),
        u == adj.len() ==> k <= 0,
        u < adj.len() ==> k <= adj[u].len(),
    ensures
        ({
            let back = search::searched(adj).back;
            forall|i: int|
                0 <= i < leading(adj, back, v, u, k).len() ==> search::forward(
                    adj,
                    back,
                    #[trigger] leading(adj, back, v, u, k)[i],
                    v,
                )
        }),
    decreases u, k,
{
    let back = search::searched(adj).back;
    let all = leading(adj, back, v, u, k);
    if k > 0 {
        lemma_leading_forward(adj, v, u, k - 1);
        let rest = leading(adj, back, v, u, k - 1);
        assert forall|i: int| 0 <= i < all.len() implies search::forward(
            adj,
            back,
            #[trigger] all[i],
            v,
        ) by {
            if i < rest.len() {
                assert(all[i] == rest[i]);
            } else {
                assert(adj[u][k - 1] == v);
            }
        }
    } else if u > 0 {
        lemma_leading_forward(adj, v, u - 1, adj[u - 1].len() as int);
        assert(all == leading(adj, back, v, u - 1, adj[u - 1].len() as int));
    }
}

proof fn lemma_pulls_some(adj: Seq<Seq<int>>, u: int, v: int)
    requires
        search::forward(adj, search::searched(adj).back, u, v),
    ensures
        pulls(adj, u, v) > 0,
{
    let k = choose|k: int| 0 <= k < adj[u].len() && adj[u][k] == v;
    let p = equals(v);
    adj[u].lemma_filter_contains(p, k);
    assert(adj[u].filter(p).contains(v));
    assert(adj[u].filter(p).len() > 0);
    assert(occurrences(adj[u], v) == adj[u].filter(p).len());
}

proof fn lemma_pull_count_some(adj: Seq<Seq<int>>, u: int, v: int, m: int)
    requires
        search::forward(adj, search::searched(adj).back, u, v),
        0 <= m,
    ensures
        pull_count(adj, v, m) >= 0,
        u < m ==> pull_count(adj, v, m) > 0,
    decreases m,
{
    if m > 0 {
        lemma_pull_count_some(adj, u, v, m - 1);
        lemma_pulls_some(adj, u, v);
    }
}

/// Whether the steps of a group stand in the order they are pulled to, equals in the
/// order of the plan.
spec fn in_place(preds: Seq<Seq<int>>, row: Seq<int>, group: Seq<int>) -> bool {
    forall|i: int, j: int|
        #![trigger group[i], group[j]]
        0 <= i < j < group.len() ==> !above(preds, row, group[j], group[i]) && (above(
            preds,
            row,
            group[i],
            group[j],
        ) || group[i] < group[j])
}

proof fn lemma_not_above(preds: Seq<Seq<int>>, row: Seq<int>, a: int, b: int, c: int)
    requires
        !above(preds, row, b, a),
        !above(preds, row, c, b),
    ensures
        !above(preds, row, c, a),
{
    let p = pull(preds, row, a);
    let q = pull(preds, row, b);
    let r = pull(preds, row, c);
    assert(r.0 * p.1 >= p.0 * r.1) by (nonlinear_arith)
        requires
            q.0 * p.1 >= p.0 * q.1,
            r.0 * q.1 >= q.0 * r.1,
            p.1 > 0,
            q.1 > 0,
            r.1 > 0,
    {
        assert((q.0 * p.1) * r.1 >= (p.0 * q.1) * r.1) by (nonlinear_arith)
            requires
                q.0 * p.1 >= p.0 * q.1,
                r.1 > 0,
        ;
        assert((r.0 * q.1) * p.1 >= (q.0 * r.1) * p.1) by (nonlinear_arith)
            requires
                r.0 * q.1 >= q.0 * r.1,
                p.1 > 0,
        ;
        assert((q.0 * p.1) * r.1 == (q.0 * r.1) * p.1) by (nonlinear_arith);
        assert((r.0 * q.1) * p.1 == (r.0 * p.1) * q.1) by (nonlinear_arith);
        assert((p.0 * q.1) * r.1 == (p.0 * r.1) * q.1) by (nonlinear_arith);
        assert((r.0 * p.1) * q.1 >= (p.0 * r.1) * q.1);
        if r.0 * p.1 < p.0 * r.1 {
            assert((r.0 * p.1) * q.1 < (p.0 * r.1) * q.1) by (nonlinear_arith)
                requires
                    r.0 * p.1 < p.0 * r.1,
                    q.1 > 0,
            ;
        }
    }
}

proof fn lemma_above_once(preds: Seq<Seq<int>>, row: Seq<int>, a: int, b: int)
    ensures
        !(above(preds, row, a, b) && above(preds, row, b, a)),
        !above(preds, row, a, a),
{
}

proof fn lemma_group_with_in_place(
    preds: Seq<Seq<int>>,
    row: Seq<int>,
    group: Seq<int>,
    v: int,
)
    requires
        in_place(preds, row, group),
        forall|i: int| 0 <= i < group.len() ==> #[trigger] group[i] < v,
    ensures
        in_place(preds, row, group_with(preds, row, group, v)),
        forall|i: int|
            0 <= i < group_with(preds, row, group, v).len() ==> #[trigger] group_with(
                preds,
                row,
                group,
                v,
            )[i] == v || group.contains(group_with(preds, row, group, v)[i]),
    decreases group.len(),
{
    let after = group_with(preds, row, group, v);
    if group.len() > 0 && above(preds, row, v, group.last()) {
        let init = group.drop_last();
        let last = group.last();
        let rest = group_with(preds, row, init, v);
        lemma_group_with_in_place(preds, row, init, v);
        assert forall|i: int| 0 <= i < after.len() implies #[trigger] after[i] == v
            || group.contains(after[i]) by {
            if i < rest.len() {
                assert(after[i] == rest[i]);
                if rest[i] != v {
                    let k = choose|k: int| 0 <= k < init.len() && init[k] == rest[i];
                    assert(group[k] == rest[i]);
                }
            } else {
                assert(group[group.len() - 1] == after[i]);
            }
        }
        assert forall|i: int, j: int|
            #![trigger after[i], after[j]]
            0 <= i < j < after.len() implies !above(preds, row, after[j], after[i]) && (above(
            preds,
            row,
            after[i],
            after[j],
        ) || after[i] < after[j]) by {
            assert(after[i] == rest[i]);
            if j < rest.len() {
                assert(after[j] == rest[j]);
            } else if rest[i] == v {
                lemma_above_once(preds, row, v, last);
            } else {
                let k = choose|k: int| 0 <= k < init.len() && init[k] == rest[i];
                assert(group[k] == rest[i]);
                assert(group[group.len() - 1] == last);
            }
        }
    } else {
        assert forall|i: int| 0 <= i < after.len() implies #[trigger] after[i] == v
            || group.contains(after[i]) by {
            if i < group.len() {
                assert(group[i] == after[i]);
            }
        }
        assert forall|i: int, j: int|
            #![trigger after[i], after[j]]
            0 <= i < j < after.len() implies !above(preds, row, after[j], after[i]) && (above(
            preds,
            row,
            after[i],
            after[j],
        ) || after[i] < after[j]) by {
            assert(after[i] == group[i]);
            if j < group.len() {
                assert(after[j] == group[j]);
            } else if i < group.len() - 1 {
                assert(group[group.len() - 1] == group.last());
                lemma_not_above(preds, row, group[i], group.last(), v);
            }
        }
    }
}

proof fn lemma_group_sorted_in_place(preds: Seq<Seq<int>>, row: Seq<int>, group: Seq<int>)
    requires
        forall|i: int, j: int|
            #![trigger group[i], group[j]]
            0 <= i < j < group.len() ==> group[i] < group[j],
    ensures
        in_place(preds, row, group_sorted(preds, row, group)),
        forall|i: int|
            0 <= i < group_sorted(preds, row, group).len() ==> group.contains(
                #[trigger] group_sorted(preds, row, group)[i],
            ),
    decreases group.len(),
{
    if group.len() > 0 {
        let init = group.drop_last();
        let v = group.last();
        lemma_group_sorted_in_place(preds, row, init);
        let rest = group_sorted(preds, row, init);
        assert forall|i: int| 0 <= i < rest.len() implies #[trigger] rest[i] < v by {
            assert(init.contains(rest[i]));
            let k = choose|k: int| 0 <= k < init.len() && init[k] == rest[i];
            assert(group[k] < group[group.len() - 1]);
        }
        lemma_group_with_in_place(preds, row, rest, v);
        let after = group_sorted(preds, row, group);
        assert forall|i: int| 0 <= i < after.len() implies group.contains(#[trigger] after[i]) by {
            if after[i] == v {
                assert(group[group.len() - 1] == v);
            } else {
                let j = choose|j: int| 0 <= j < rest.len() && rest[j] == after[i];
                assert(init.contains(rest[j]));
                let k = choose|k: int| 0 <= k < init.len() && init[k] == rest[j];
                assert(group[k] == after[i]);
            }
        }
    }
}

proof fn lemma_sorted_stays(preds: Seq<Seq<int>>, row: Seq<int>, group: Seq<int>)
    requires
        in_place(preds, row, group),
    ensures
        group_sorted(preds, row, group) == group,
    decreases group.len(),
{
    if group.len() > 0 {
        let init = group.drop_last();
        lemma_sorted_stays(preds, row, init);
        if init.len() > 0 {
            assert(init.last() == group[group.len() - 2]);
            assert(group.last() == group[group.len() - 1]);
        }
        assert(init.push(group.last()) =~= group);
    } else {
        assert(group_sorted(preds, row, group) =~= group);
    }
}

/// Whether every step of a column but the first is pulled by steps of earlier columns
/// only, and by at least one.
spec fn pulled_rightwards(preds: Seq<Seq<int>>, cols: Seq<int>) -> bool {
    &&& preds.len() == cols.len()
    &&& forall|v: int|
        #![trigger preds[v]]
        0 <= v < cols.len() && cols[v] > 0 ==> preds[v].len() > 0
    &&& forall|v: int, i: int|
        0 <= v < cols.len() && 0 <= i < preds[v].len() ==> 0 <= #[trigger] preds[v][i] < cols.len()
            && cols[preds[v][i]] < cols[v]
}

proof fn lemma_same_sum(steps: Seq<int>, row: Seq<int>, other: Seq<int>)
    requires
        forall|i: int| 0 <= i < steps.len() ==> row[#[trigger] steps[i]] == other[steps[i]],
    ensures
        row_sum(steps, row) == row_sum(steps, other),
    decreases steps.len(),
{
    if steps.len() > 0 {
        assert(steps.last() == steps[steps.len() - 1]);
        lemma_same_sum(steps.drop_last(), row, other);
    }
}

proof fn lemma_same_pull(
    preds: Seq<Seq<int>>,
    cols: Seq<int>,
    row: Seq<int>,
    other: Seq<int>,
    v: int,
)
    requires
        pulled_rightwards(preds, cols),
        0 <= v < cols.len(),
        cols[v] > 0,
        forall|w: int|
            0 <= w < cols.len() && #[trigger] cols[w] < cols[v] ==> row[w] == other[w],
    ensures
        pull(preds, row, v) == pull(preds, other, v),
{
    assert(preds[v].len() > 0);
    assert forall|i: int| 0 <= i < preds[v].len() implies row[#[trigger] preds[v][i]]
        == other[preds[v][i]] by {
        assert(cols[preds[v][i]] < cols[v]);
    }
    lemma_same_sum(preds[v], row, other);
}

impl RowsModel {
    /// The first columns are in place, and the others as the plan has them.
    spec fn in_place_to(self, preds: Seq<Seq<int>>, cols: Seq<int>, column: int) -> bool {
        &&& self.valid(cols)
        &&& forall|c: int|
            #![trigger self.grouped[c]]
            1 <= c < column && c < self.grouped.len() ==> in_place(
                preds,
                self.row,
                self.grouped[c],
            )
        &&& forall|c: int|
            #![trigger self.grouped[c]]
            0 <= c < self.grouped.len() && (c == 0 || c >= column) ==> self.grouped[c] == group(
                cols,
                c,
                cols.len() as int,
            )
    }

    proof fn lemma_column_in_place(self, preds: Seq<Seq<int>>, cols: Seq<int>, column: int)
        requires
            pulled_rightwards(preds, cols),
            1 <= column < self.grouped.len(),
            self.in_place_to(preds, cols, column),
        ensures
            self.settled(preds, column).in_place_to(preds, cols, column + 1),
    {
        let next = self.settled(preds, column);
        let given = self.grouped[column];
        let sorted = group_sorted(preds, self.row, given);
        self.lemma_settled(preds, cols, column);
        lemma_group_rising(cols, column, cols.len() as int);
        lemma_group_sorted_in_place(preds, self.row, given);
        assert forall|i: int| 0 <= i < sorted.len() implies 0 <= #[trigger] sorted[i]
            < self.row.len() && cols[sorted[i]] == column by {
            assert(given.contains(sorted[i]));
            let j = choose|j: int| 0 <= j < given.len() && given[j] == sorted[i];
            assert(0 <= self.grouped[column][j] < cols.len());
        }
        assert forall|i: int, j: int| 0 <= i < sorted.len() && 0 <= j < sorted.len() && i
            != j implies sorted[i] != sorted[j] by {
            assert(next.grouped[column] == sorted);
            assert(next.row[next.grouped[column][i]] == i);
            assert(next.row[next.grouped[column][j]] == j);
        }
        lemma_placed(self.row, sorted, sorted.len() as int);
        assert forall|w: int| 0 <= w < cols.len() && #[trigger] cols[w] != column implies
            next.row[w] == self.row[w] by {
            if sorted.contains(w) {
                let i = choose|i: int| 0 <= i < sorted.len() && sorted[i] == w;
                assert(cols[sorted[i]] == column);
            }
        }
        assert forall|c: int|
            #![trigger next.grouped[c]]
            1 <= c < column + 1 && c < next.grouped.len() implies in_place(
            preds,
            next.row,
            next.grouped[c],
        ) by {
            let g = next.grouped[c];
            assert(c < column ==> g == self.grouped[c]);
            assert(in_place(preds, self.row, g));
            assert forall|i: int, j: int|
                #![trigger g[i], g[j]]
                0 <= i < j < g.len() implies !above(preds, next.row, g[j], g[i]) && (above(
                preds,
                next.row,
                g[i],
                g[j],
            ) || g[i] < g[j]) by {
                assert(cols[next.grouped[c][i]] == c);
                assert(cols[next.grouped[c][j]] == c);
                lemma_same_pull(preds, cols, self.row, next.row, g[i]);
                lemma_same_pull(preds, cols, self.row, next.row, g[j]);
            }
        }
    }

    proof fn lemma_in_place_to(self, preds: Seq<Seq<int>>, cols: Seq<int>, column: int)
        requires
            pulled_rightwards(preds, cols),
            1 <= column <= self.grouped.len(),
            self.in_place_to(preds, cols, 1),
        ensures
            self.settled_to(preds, column).in_place_to(preds, cols, column),
        decreases column,
    {
        if column > 1 {
            self.lemma_in_place_to(preds, cols, column - 1);
            self.settled_to(preds, column - 1).lemma_column_in_place(preds, cols, column - 1);
        }
    }

    proof fn lemma_stays(self, preds: Seq<Seq<int>>, cols: Seq<int>, column: int)
        requires
            column <= self.grouped.len(),
            self.in_place_to(preds, cols, self.grouped.len() as int),
        ensures
            self.settled_to(preds, column) == self,
        decreases column,
    {
        if column > 1 {
            self.lemma_stays(preds, cols, column - 1);
            let g = self.grouped[column - 1];
            lemma_sorted_stays(preds, self.row, g);
            assert forall|i: int| 0 <= i < g.len() implies 0 <= #[trigger] g[i] < self.row.len()
                && self.row[g[i]] == i by {
                assert(self.row[self.grouped[column - 1][i]] == i);
            }
            lemma_placed(self.row, g, g.len() as int);
            let next = self.settled(preds, column - 1);
            assert(next.grouped =~= self.grouped);
            assert(next.row =~= self.row) by {
                assert forall|v: int| 0 <= v < self.row.len() implies next.row[v]
                    == self.row[v] by {
                    if g.contains(v) {
                        let i = choose|i: int| 0 <= i < g.len() && g[i] == v;
                        assert(placed(self.row, g, g.len() as int)[g[i]] == i);
                    }
                }
            }
        }
    }

    proof fn lemma_times_in_place(self, preds: Seq<Seq<int>>, cols: Seq<int>, times: int)
        requires
            pulled_rightwards(preds, cols),
            1 <= times,
            self.grouped.len() >= 1,
            self.in_place_to(preds, cols, 1),
        ensures
            self.settled_times(preds, times).in_place_to(preds, cols, self.grouped.len() as int),
            self.settled_times(preds, times).grouped.len() == self.grouped.len(),
        decreases times,
    {
        let n = self.grouped.len() as int;
        if times == 1 {
            assert(self.settled_times(preds, 0) == self);
            self.lemma_in_place_to(preds, cols, n);
        } else {
            self.lemma_times_in_place(preds, cols, times - 1);
            self.settled_times(preds, times - 1).lemma_stays(preds, cols, n);
        }
    }
}

proof fn lemma_group_rising(cols: Seq<int>, c: int, m: int)
    requires
        0 <= m <= cols.len(),
    ensures
        forall|i: int, j: int|
            #![trigger group(cols, c, m)[i], group(cols, c, m)[j]]
            0 <= i < j < group(cols, c, m).len() ==> group(cols, c, m)[i] < group(cols, c, m)[j],
        forall|i: int|
            0 <= i < group(cols, c, m).len() ==> 0 <= #[trigger] group(cols, c, m)[i] < m,
    decreases m,
{
    if m > 0 {
        lemma_group_rising(cols, c, m - 1);
        let rest = group(cols, c, m - 1);
        let all = group(cols, c, m);
        assert forall|i: int| 0 <= i < all.len() implies 0 <= #[trigger] all[i] < m by {
            if i < rest.len() {
                assert(all[i] == rest[i]);
            }
        }
        assert forall|i: int, j: int|
            #![trigger all[i], all[j]]
            0 <= i < j < all.len() implies all[i] < all[j] by {
            assert(all[i] == rest[i]);
            if j < rest.len() {
                assert(all[j] == rest[j]);
            }
        }
    }
}

proof fn lemma_rows_in_place(adj: Seq<Seq<int>>)
    requires
        search::in_bounds(adj),
        adj.len() > 0,
    ensures
        ({
            let cols = search::columns(adj);
            let st = RowsModel::initial(cols).settled_times(predecessors(adj), 4);
            &&& pulled_rightwards(predecessors(adj), cols)
            &&& st.in_place_to(predecessors(adj), cols, st.grouped.len() as int)
        }),
{
    search::lemma_columns(adj);
    let cols = search::columns(adj);
    let preds = predecessors(adj);
    let back = search::searched(adj).back;
    assert forall|v: int| 0 <= v < cols.len() implies 0 <= #[trigger] cols[v] by {
    }
    lemma_highest(cols);
    lemma_initial_valid(cols);
    assert forall|v: int|
        #![trigger preds[v]]
        0 <= v < cols.len() && cols[v] > 0 implies preds[v].len() > 0 by {
        let u = choose|u: int| #[trigger]
            search::forward(adj, back, u, v) && cols[v] == cols[u] + 1;
        lemma_pull_count_some(adj, u, v, adj.len() as int);
        lemma_pull_counted(adj, Seq::empty(), v);
    }
    assert forall|v: int, i: int| 0 <= v < cols.len() && 0 <= i < preds[v].len() implies 0
        <= #[trigger] preds[v][i] < cols.len() && cols[preds[v][i]] < cols[v] by {
        lemma_leading_forward(adj, v, adj.len() as int, 0);
        assert(search::forward(adj, back, preds[v][i], v));
    }
    let start = RowsModel::initial(cols);
    assert(start.in_place_to(preds, cols, 1));
    start.lemma_times_in_place(preds, cols, 4);
}

/// The rows of a column follow the steps that lead into it, so that connections cross
/// as little as they can: of two steps in one column the one whose connections come, on
/// average, from smaller rows stands above the other, and where neither does they stand
/// in the order of the plan, as the steps of the first column do.
pub proof fn law_rows_follow_what_leads_in(adj: Seq<Seq<int>>, u: int, v: int)
    requires
        search::in_bounds(adj),
        0 <= u < adj.len(),
        0 <= v < adj.len(),
        search::columns(adj)[u] == search::columns(adj)[v],
    ensures
        search::columns(adj)[u] == 0 ==> (rows(adj)[u] < rows(adj)[v] <==> u < v),
        search::columns(adj)[u] > 0 ==> {
            let n = adj.len() as int;
            let mine = pull_total(adj, rows(adj), u, n) * pull_count(adj, v, n);
            let other = pull_total(adj, rows(adj), v, n) * pull_count(adj, u, n);
            &&& pull_count(adj, u, n) > 0
            &&& pull_count(adj, v, n) > 0
            &&& rows(adj)[u] < rows(adj)[v] <==> mine < other || (mine == other && u < v)
        },
{
    search::lemma_columns(adj);
    lemma_rows_in_place(adj);
    lemma_rows_bounded(adj);
    let cols = search::columns(adj);
    let preds = predecessors(adj);
    let st = RowsModel::initial(cols).settled_times(preds, 4);
    let c = cols[u];
    let g = st.grouped[c];
    let a = st.row[u];
    let b = st.row[v];
    assert(g[a] == u && g[b] == v);
    lemma_pull_counted(adj, rows(adj), u);
    lemma_pull_counted(adj, rows(adj), v);
    if c == 0 {
        assert(g == group(cols, 0, cols.len() as int));
        lemma_group_rising(cols, 0, cols.len() as int);
    } else {
        assert(preds[u].len() > 0);
        assert(preds[v].len() > 0);
        assert(in_place(preds, st.row, g));
        if a < b {
            assert(!above(preds, st.row, g[b], g[a]) && (above(preds, st.row, g[a], g[b]) || g[a]
                < g[b]));
        } else if b < a {
            assert(!above(preds, st.row, g[a], g[b]) && (above(preds, st.row, g[b], g[a]) || g[b]
                < g[a]));
        }
    }
}

proof fn lemma_one_pull(adj: Seq<Seq<int>>, row: Seq<int>, a: int, c: int, m: int)
    requires
        0 <= m <= adj.len(),
        0 <= a,
        forall|w: int|
            0 <= w < adj.len() && w != a ==> !search::forward(
                adj,
                search::searched(adj).back,
                w,
                c,
            ),
    ensures
        pull_total(adj, row, c, m) == row[a] * pull_count(adj, c, m),
    decreases m,
{
    if m > 0 {
        lemma_one_pull(adj, row, a, c, m - 1);
        let w = m - 1;
        let rest = pull_count(adj, c, w);
        let more = pulls(adj, w, c) as int;
        if w != a {
            if more > 0 {
                let p = equals(c);
                assert(occurrences(adj[w], c) == adj[w].filter(p).len());
                let j = crate::model::lemma_filter_source(adj[w], p, 0);
                assert(adj[w].contains(c));
                assert(search::forward(adj, search::searched(adj).back, w, c));
            }
            assert(row[w] * 0 == 0);
        }
        assert(row[a] * (rest + more) == row[a] * rest + row[a] * more) by (nonlinear_arith);
    } else {
        assert(row[a] * 0 == 0);
    }
}

/// Connections side by side do not cross: where each of two steps of one column is led
/// to from one step only, and those two stand in one column, they stand in the same
/// order as the steps that lead to them.
pub proof fn law_parallel_connections_do_not_cross(
    adj: Seq<Seq<int>>,
    a: int,
    b: int,
    c: int,
    d: int,
)
    requires
        search::in_bounds(adj),
        adj.len() <= usize::MAX,
        search::forward(adj, search::searched(adj).back, a, c),
        search::forward(adj, search::searched(adj).back, b, d),
        forall|w: int|
            0 <= w < adj.len() && w != a ==> !search::forward(
                adj,
                search::searched(adj).back,
                w,
                c,
            ),
        forall|w: int|
            0 <= w < adj.len() && w != b ==> !search::forward(
                adj,
                search::searched(adj).back,
                w,
                d,
            ),
        place(adj, a).x == place(adj, b).x,
        place(adj, c).x == place(adj, d).x,
    ensures
        place(adj, a).y < place(adj, b).y ==> place(adj, c).y < place(adj, d).y,
{
    let n = adj.len() as int;
    let row = rows(adj);
    search::lemma_columns(adj);
    let cols = search::columns(adj);
    assert(0 <= c < n && 0 <= d < n) by {
        let i = choose|i: int| 0 <= i < adj[a].len() && adj[a][i] == c;
        assert(0 <= adj[a][i] < adj.len());
        let j = choose|j: int| 0 <= j < adj[b].len() && adj[b][j] == d;
        assert(0 <= adj[b][j] < adj.len());
    }
    law_places_are_spread_evenly(adj, a, b);
    law_places_are_spread_evenly(adj, c, d);
    law_rows_follow_what_leads_in(adj, c, d);
    lemma_one_pull(adj, row, a, c, n);
    lemma_one_pull(adj, row, b, d, n);
    lemma_pull_count_some(adj, a, c, n);
    lemma_pull_count_some(adj, b, d, n);
    if row[a] < row[b] {
        let k = pull_count(adj, c, n);
        let m = pull_count(adj, d, n);
        assert((row[a] * k) * m < (row[b] * m) * k) by (nonlinear_arith)
            requires
                row[a] < row[b],
                k > 0,
                m > 0,
        ;
    }
}

/// Columns stand side by side, the same distance apart, and so do the rows of a column,
/// which is centred: the places of its first and its last step mirror each other.
pub proof fn law_places_are_spread_evenly(adj: Seq<Seq<int>>, u: int, v: int)
    requires
        search::in_bounds(adj),
        adj.len() <= usize::MAX,
        0 <= u < adj.len(),
        0 <= v < adj.len(),
    ensures
        place(adj, u).x == 340 * search::columns(adj)[u],
        place(adj, u).x == place(adj, v).x <==> search::columns(adj)[u] == search::columns(adj)[v],
        place(adj, u).x == place(adj, v).x ==> place(adj, v).y - place(adj, u).y == 168 * (rows(
            adj,
        )[v] - rows(adj)[u]),
        place(adj, u).x == place(adj, v).x && rows(adj)[u] == 0 && (forall|w: int|
            0 <= w < adj.len() && #[trigger] search::columns(adj)[w] == search::columns(adj)[v]
                ==> rows(adj)[w] <= rows(adj)[v]) ==> place(adj, u).y == -place(adj, v).y,
{
    search::lemma_columns(adj);
    lemma_rows_bounded(adj);
    let cols = search::columns(adj);
    let n = adj.len() as int;
    let st = RowsModel::initial(cols).settled_times(predecessors(adj), 4);
    lemma_row_below(st, cols, u);
    lemma_row_below(st, cols, v);
    lemma_group(cols, cols[u], n);
    lemma_group(cols, cols[v], n);
    let h = group(cols, cols[v], n).len() as int;
    if cols[u] == cols[v] && st.row[u] == 0 && (forall|w: int|
        0 <= w < adj.len() && #[trigger] cols[w] == cols[v] ==> st.row[w] <= st.row[v]) {
        lemma_rows_in_place(adj);
        let g = st.grouped[cols[v]];
        lemma_heights_kept(adj);
        assert(g.len() == h);
        let w = g[h - 1];
        assert(st.row[st.grouped[cols[v]][h - 1]] == h - 1);
        assert(cols[w] == cols[v]);
    }
}

proof fn lemma_heights_kept(adj: Seq<Seq<int>>)
    requires
        search::in_bounds(adj),
    ensures
        ({
            let cols = search::columns(adj);
            let st = RowsModel::initial(cols).settled_times(predecessors(adj), 4);
            forall|c: int|
                0 <= c < st.grouped.len() ==> (#[trigger] st.grouped[c]).len() == group(
                    cols,
                    c,
                    cols.len() as int,
                ).len()
        }),
{
    search::lemma_columns(adj);
    let cols = search::columns(adj);
    assert forall|v: int| 0 <= v < cols.len() implies 0 <= #[trigger] cols[v] by {
    }
    lemma_highest(cols);
    lemma_initial_valid(cols);
    let start = RowsModel::initial(cols);
    lemma_rows_bounded(adj);
    let st = start.settled_times(predecessors(adj), 4);
    assert forall|c: int| 0 <= c < st.grouped.len() implies (#[trigger] st.grouped[c]).len()
        == group(cols, c, cols.len() as int).len() by {
        lemma_same_column(start, st, cols, c);
        lemma_same_column(st, start, cols, c);
        assert(start.grouped[c] == group(cols, c, cols.len() as int));
    }
}

proof fn lemma_same_column(a: RowsModel, b: RowsModel, cols: Seq<int>, c: int)
    requires
        a.valid(cols),
        b.valid(cols),
        0 <= c < a.grouped.len(),
    ensures
        a.grouped[c].len() <= b.grouped[c].len(),
{
    let g = a.grouped[c];
    let h = b.grouped[c];
    assert(g.no_duplicates()) by {
        assert forall|i: int, j: int| 0 <= i < g.len() && 0 <= j < g.len() && i != j implies g[i]
            != g[j] by {
            assert(a.row[a.grouped[c][i]] == i);
            assert(a.row[a.grouped[c][j]] == j);
        }
    }
    assert(h.no_duplicates()) by {
        assert forall|i: int, j: int| 0 <= i < h.len() && 0 <= j < h.len() && i != j implies h[i]
            != h[j] by {
            assert(b.row[b.grouped[c][i]] == i);
            assert(b.row[b.grouped[c][j]] == j);
        }
    }
    g.unique_seq_to_set();
    h.unique_seq_to_set();
    assert(g.to_set().subset_of(h.to_set())) by {
        assert forall|x: int| g.to_set().contains(x) implies h.to_set().contains(x) by {
            let i = choose|i: int| 0 <= i < g.len() && g[i] == x;
            assert(cols[a.grouped[c][i]] == c);
            assert(0 <= b.row[x] < b.grouped[cols[x]].len());
            assert(h[b.row[x]] == x);
        }
    }
    vstd::set_lib::lemma_len_subset(g.to_set(), h.to_set());
}

/// A step that nothing leads to, but for connections that close a loop, stands in the
/// first column; any other stands one column past the furthest step that leads to it.
pub proof fn law_steps_stand_past_what_leads_in(adj: Seq<Seq<int>>, v: int)
    requires
        search::in_bounds(adj),
        adj.len() <= usize::MAX,
        0 <= v < adj.len(),
    ensures
        (forall|u: int| !#[trigger] search::forward(adj, search::searched(adj).back, u, v))
            ==> place(adj, v).x == 0,
        forall|u: int| #[trigger]
            search::forward(adj, search::searched(adj).back, u, v) ==> place(adj, u).x + 340
                <= place(adj, v).x,
        (exists|u: int| #[trigger] search::forward(adj, search::searched(adj).back, u, v))
            ==> exists|u: int| #[trigger]
            search::forward(adj, search::searched(adj).back, u, v) && place(adj, u).x + 340
                == place(adj, v).x,
{
    search::lemma_columns(adj);
    let back = search::searched(adj).back;
    let cols = search::columns(adj);
    law_places_are_spread_evenly(adj, v, v);
    assert(0 <= cols[v]);
    if cols[v] > 0 {
        let u = choose|u: int| #[trigger]
            search::forward(adj, back, u, v) && cols[v] == cols[u] + 1;
        law_places_are_spread_evenly(adj, u, v);
        assert(place(adj, u).x + 340 == place(adj, v).x);
    }
    assert forall|u: int| #[trigger] search::forward(adj, back, u, v) implies place(adj, u).x + 340
        <= place(adj, v).x by {
        law_places_are_spread_evenly(adj, u, v);
        assert(cols[u] < cols[v]);
    }
}

/// Laying a plan out puts each step where it belongs by what leads where.
pub proof fn law_steps_get_their_own_places(plan: GraphModel, i: int)
    requires
        forall|j: int, k: int|
            #![trigger plan.nodes[j], plan.nodes[k]]
            0 <= j < k < plan.nodes.len() ==> plan.nodes[j].id != plan.nodes[k].id,
        0 <= i < plan.nodes.len(),
    ensures
        plan.laid_out(true).nodes[i].position == Some(place(plan.adjacency(), i)),
        plan.nodes[i].position is None ==> plan.laid_out(false).nodes[i].position == Some(
            place(plan.adjacency(), i),
        ),
{
    let id = plan.nodes[i].id;
    assert(plan.is_last_index(id, i));
    plan.lemma_last_index(id, i);
}

} // verus!
