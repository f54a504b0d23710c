//! What the panels around the canvas have in common.
use crate::graph::{self, ArchitectGraph, ArchitectNode, NodeId};
use crate::model::{GraphModel, NodeModel};
use crate::text;
use vstd::prelude::*;

verus! {

/// How something is coloured.
#[derive(Clone, Copy, Debug, PartialEq, Eq, Structural)]
pub enum Tone {
    Default,
    Muted,
    Accent,
    Info,
    Success,
    Warning,
    Error,
}

/// The small picture beside a text.
#[derive(Clone, Copy, Debug, PartialEq, Eq, Structural)]
pub enum Glyph {
    Play,
    Check,
    Warning,
    Sparkle,
    Lock,
    Pencil,
    Plus,
    Star,
    StarFilled,
    ChevronUp,
    ChevronDown,
}

/// A text that has to fit into a number of characters, with an ellipsis in place
/// of what does not.
pub open spec fn shortened(s: Seq<char>, limit: nat) -> Seq<char> {
    if s.len() <= limit {
        s
    } else if limit == 0 {
        seq!['…']
    } else {
        s.take(limit - 1).push('…')
    }
}

/// Shortens a text to a number of characters.
pub fn truncate(s: &str, limit: usize) -> (res: String)
    ensures
        res@ == shortened(s@, limit as nat),
{
    let count: usize = s.unicode_len();
    if count <= limit {
        return s.to_owned();
    }
    let keep: usize = if limit == 0 {
        0
    } else {
        limit - 1
    };
    let mut out = s.substring_char(0, keep).to_owned();
    out.push('…');
    proof {
        assert(s@.subrange(0, keep as int) =~= s@.take(keep as int));
        assert(out@ =~= shortened(s@, limit as nat));
    }
    out
}

/// A number with at least two digits.
pub open spec fn two_digits(n: nat) -> Seq<char> {
    if n < 10 {
        "0"@ + text::decimal(n)
    } else {
        text::decimal(n)
    }
}

/// Writes a number with at least two digits.
pub fn padded(n: u128) -> (res: String)
    ensures
        res@ == two_digits(n as nat),
{
    let digits = text::number(n);
    if n < 10 {
        text::cat2("0", digits.as_str())
    } else {
        digits
    }
}

/// A text in lower case.
pub uninterp spec fn lowercased(s: Seq<char>) -> Seq<char>;

/// Puts a text in lower case with `str::to_lowercase`, which goes by the Unicode
/// derived core property. The result is a function of the text; the mapping is not
/// stated here.
#[verifier::external_body]
pub(crate) fn to_lower(s: &str) -> (res: String)
    ensures
        res@ == lowercased(s@),
{
    s.to_lowercase()
}

/// Whether a text stands at a place in another.
pub open spec fn stands_at(s: Seq<char>, part: Seq<char>, i: int) -> bool {
    0 <= i && i + part.len() <= s.len() && s.subrange(i, i + part.len()) == part
}

/// Whether a text occurs in another.
pub open spec fn occurs(s: Seq<char>, part: Seq<char>) -> bool {
    exists|i: int| stands_at(s, part, i)
}

/// Tells whether a text occurs in another.
pub fn contains(s: &str, part: &str) -> (res: bool)
    ensures
        res == occurs(s@, part@),
{
    let a = text::chars_of(s);
    let b = text::chars_of(part);
    if b.len() > a.len() {
        return false;
    }
    let n: usize = a.len();
    let last: usize = n - b.len();
    let mut i: usize = 0;
    loop
        invariant
            n == a@.len(),
            a@ == s@,
            b@ == part@,
            b@.len() <= a@.len(),
            last == a@.len() - b@.len(),
            i <= last,
            forall|j: int| 0 <= j < i ==> !stands_at(s@, part@, j),
        decreases last - i,
    {
        let mut k: usize = 0;
        while k < b.len() && a[i + k] == b[k]
            invariant
                n == a@.len(),
                a@ == s@,
                b@ == part@,
                i + b@.len() <= n,
                k <= b@.len(),
                forall|j: int| 0 <= j < k ==> a@[i + j] == b@[j],
            ensures
                k < b@.len() ==> a@[i + k] != b@[k as int],
            decreases b@.len() - k,
        {
            k += 1;
        }
        if k == b.len() {
            proof {
                assert(s@.subrange(i as int, i + part@.len()) =~= part@);
                assert(stands_at(s@, part@, i as int));
            }
            return true;
        }
        proof {
            assert(s@.subrange(i as int, i + part@.len())[k as int] != part@[k as int]);
            assert(!stands_at(s@, part@, i as int));
        }
        if i == last {
            proof {
                assert forall|j: int| !stands_at(s@, part@, j) by {
                }
            }
            return false;
        }
        i += 1;
    }
}

/// Whether a step has reported something.
pub open spec fn has_report(node: NodeModel) -> bool {
    node.result matches Some(result) && !text::is_blank(result.summary)
}

/// Tells whether a step has reported something.
pub fn reported(node: &ArchitectNode) -> (res: bool)
    ensures
        res == has_report(node@),
{
    match &node.result {
        Some(result) => !text::blank(result.summary.as_str()),
        None => false,
    }
}

/// Whether an optional id is this one.
pub open spec fn is_id(id: Option<NodeId>, other: Seq<char>) -> bool {
    id matches Some(one) && one@ == other
}

/// Tells whether an optional id is this one.
pub fn names(id: &Option<NodeId>, other: &NodeId) -> (res: bool)
    ensures
        res == is_id(*id, other@),
{
    match id {
        Some(one) => one.same(other),
        None => false,
    }
}

impl GraphModel {
    /// How many steps there are here and in every nested plan.
    pub open spec fn steps_deeply(self, k: nat) -> nat
        decreases self, k,
    {
        if k == 0 || k > self.nodes.len() {
            0
        } else {
            let rest = self.steps_deeply((k - 1) as nat);
            match self.nodes[k - 1].subplan {
                Some(g) => rest + 1 + g.steps_deeply(g.nodes.len()),
                None => rest + 1,
            }
        }
    }

    /// The ids of the steps in the order they run.
    pub open spec fn order_ids(self) -> Seq<Seq<char>> {
        self.order().map_values(|i: int| self.nodes[i].id)
    }

    /// How many steps are locked.
    pub open spec fn locked_count(self) -> nat {
        self.nodes.filter(|n: NodeModel| n.locked).len()
    }
}

impl ArchitectGraph {
    /// How many steps there are here and in every nested plan, as far as the type
    /// can count.
    pub fn step_count_deeply(&self) -> (res: usize)
        ensures
            res as nat == capped(self@.steps_deeply(self@.nodes.len())),
        decreases self,
    {
        let mut count: usize = 0;
        proof {
            self.lemma_view();
        }
        for k in 0..self.nodes.len()
            invariant
                self@.nodes.len() == self.nodes@.len(),
                count as nat == capped(self@.steps_deeply(k as nat)),
        {
            proof {
                self.lemma_view();
                assert(self@.nodes[k as int] == self.nodes@[k as int]@);
            }
            let inside: usize = match &self.nodes[k].subplan {
                Some(subplan) => subplan.step_count_deeply(),
                None => 0,
            };
            count = count.saturating_add(1).saturating_add(inside);
        }
        count
    }

    /// The steps in the order they run.
    pub fn execution_order(&self) -> (res: Vec<NodeId>)
        ensures
            graph::ids(res@) == self@.order_ids(),
    {
        let order = crate::compile::execution_order(self);
        let ghost places = self@.order();
        let ghost f = |i: int| self@.nodes[i].id;
        let ghost all = places.map_values(f);
        let mut out: Vec<NodeId> = Vec::new();
        proof {
            self.lemma_view();
            assert(crate::search::numbers(order@).len() == order@.len());
            assert(graph::ids(out@) =~= all.take(0));
        }
        for k in 0..order.len()
            invariant
                places == crate::search::numbers(order@),
                places.len() == order@.len(),
                f == (|i: int| self@.nodes[i].id),
                all == places.map_values(f),
                self@.nodes.len() == self.nodes@.len(),
                forall|p: int| 0 <= p < order@.len() ==> #[trigger] order@[p] < self.nodes@.len(),
                graph::ids(out@) == all.take(k as int),
        {
            let ghost before = out@;
            proof {
                self.lemma_view();
                assert(places[k as int] == order@[k as int] as int);
                assert(self@.nodes[order@[k as int] as int] == self.nodes@[order@[k as int] as int]@);
            }
            out.push(self.nodes[order[k]].id.clone());
            proof {
                assert(graph::ids(out@) =~= graph::ids(before).push(all[k as int]));
                assert(all.take(k + 1) =~= all.take(k as int).push(all[k as int]));
            }
        }
        proof {
            assert(all.take(all.len() as int) =~= all);
        }
        out
    }

    /// How many steps are locked.
    pub fn locked_count(&self) -> (res: usize)
        ensures
            res == self@.locked_count(),
            res <= self@.nodes.len(),
    {
        let mut count: usize = 0;
        let ghost p = |n: NodeModel| n.locked;
        proof {
            reveal(Seq::filter);
        }
        for k in 0..self.nodes.len()
            invariant
                p == (|n: NodeModel| n.locked),
                count <= k,
                count == self@.nodes.take(k as int).filter(p).len(),
        {
            proof {
                self.lemma_view();
                crate::model::lemma_filter_take(self@.nodes, p, k as int);
                assert(self@.nodes[k as int] == self.nodes@[k as int]@);
            }
            if self.nodes[k].locked {
                count += 1;
            }
        }
        proof {
            self.lemma_view();
            assert(self@.nodes.take(self@.nodes.len() as int) =~= self@.nodes);
        }
        count
    }
}

/// A number as far as the type can count.
pub open spec fn capped(n: nat) -> nat {
    if n <= usize::MAX {
        n
    } else {
        usize::MAX as nat
    }
}

} // verus!
