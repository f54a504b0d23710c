//! The plan as the model should read it before redrawing it.
//!
//! Without this the model drafts blind: it cannot preserve a goal it has never
//! seen, and it cannot match a step it does not know the id of. Ids and lock
//! state are the load-bearing parts, so a redraw is an edit rather than an
//! invention.
use crate::graph::{self, ArchitectEdge, ArchitectGraph, ArchitectNode, EdgeCondition};
use crate::model::{ConditionModel, EdgeModel, GraphModel, NodeModel};
use crate::text;
use vstd::prelude::*;

verus! {

/// The terms of a connection, in words.
pub open spec fn terms(condition: ConditionModel) -> Seq<char> {
    match condition {
        ConditionModel::Always => "always"@,
        ConditionModel::Deterministic { expression } => "if "@ + expression,
        ConditionModel::LlmEvaluated { question } => "model decides: "@ + question,
    }
}

/// One line of detail about a step.
pub open spec fn detail(pad: Seq<char>, label: Seq<char>, what: Seq<char>) -> Seq<char> {
    pad + label + what + "\n"@
}

/// A line of detail that is left out where there is nothing to say.
pub open spec fn detail_unless_blank(pad: Seq<char>, label: Seq<char>, what: Seq<char>) -> Seq<
    char,
> {
    if text::is_blank(what) {
        Seq::empty()
    } else {
        detail(pad, label, text::trimmed(what))
    }
}

/// A line of detail that is there or not.
pub open spec fn remark(pad: Seq<char>, present: bool, what: Seq<char>) -> Seq<char> {
    if present {
        pad + what + "\n"@
    } else {
        Seq::empty()
    }
}

/// The line that names a step.
pub open spec fn naming(pad: Seq<char>, node: NodeModel) -> Seq<char> {
    let settled = if node.locked {
        " [locked: settled, do not rewrite]"@
    } else {
        ""@
    };
    pad + "- "@ + node.id + " — \""@ + node.title + "\""@ + settled + "\n"@
}

/// What a step reported, where it did.
pub open spec fn reported(pad: Seq<char>, node: NodeModel) -> Seq<char> {
    match node.result {
        Some(result) => pad + "  reported on attempt "@ + text::decimal(
            at_least_one(result.attempt),
        ) + ": "@ + text::trimmed(result.summary) + "\n"@,
        None => Seq::empty(),
    }
}

/// An attempt number, where the first attempt may be recorded as zero.
pub open spec fn at_least_one(attempt: nat) -> nat {
    if attempt == 0 {
        1
    } else {
        attempt
    }
}

impl GraphModel {
    /// Everything the outline says of a step itself.
    pub open spec fn step_outline(self, pad: Seq<char>, node: NodeModel) -> Seq<char> {
        naming(pad, node) + detail_unless_blank(pad, "  goal: "@, node.intent) + text::flat(
            node.rules.map_values(|rule: Seq<char>| detail(pad, "  rule: "@, rule)),
        ) + detail_unless_blank(pad, "  capture: "@, node.capture) + remark(
            pad,
            node.pinned,
            "  told to every later step"@,
        ) + text::flat(
            self.edges_from(node.id).map_values(
                |e: EdgeModel|
                    pad + "  leads to "@ + e.to + " ("@ + terms(e.condition) + ")\n"@,
            ),
        ) + reported(pad, node) + remark(
            pad,
            node.chat is Some,
            "  has its own conversation, where this step was argued out"@,
        )
    }

    /// The outline of the first `k` steps.
    pub open spec fn outline_to(self, pad: Seq<char>, k: nat) -> Seq<char>
        decreases self, k,
    {
        if k == 0 || k > self.nodes.len() {
            Seq::empty()
        } else {
            let node = self.nodes[k - 1];
            let upto = self.outline_to(pad, (k - 1) as nat) + self.step_outline(pad, node);
            match node.subplan {
                Some(g) => if g.nodes.len() == 0 {
                    upto
                } else {
                    upto + pad + "  contains a plan:\n"@ + g.outline_to(
                        pad + "    "@,
                        g.nodes.len(),
                    )
                },
                None => upto,
            }
        }
    }

    /// The outline of a plan.
    pub open spec fn outline(self) -> Seq<char> {
        self.outline_to(Seq::empty(), self.nodes.len())
    }
}

fn detail_text(pad: &str, label: &str, what: &str) -> (res: String)
    ensures
        res@ == detail_unless_blank(pad@, label@, what@),
{
    if text::blank(what) {
        text::none()
    } else {
        text::cat4(pad, label, text::trim(what), "\n")
    }
}

fn remark_text(pad: &str, present: bool, what: &str) -> (res: String)
    ensures
        res@ == remark(pad@, present, what@),
{
    if present {
        text::cat3(pad, what, "\n")
    } else {
        text::none()
    }
}

fn naming_text(pad: &str, node: &ArchitectNode) -> (res: String)
    ensures
        res@ == naming(pad@, node@),
{
    let mut out = text::cat5(pad, "- ", node.id.0.as_str(), " — \"", node.title.as_str());
    out.append("\"");
    out.append(
        if node.locked {
            " [locked: settled, do not rewrite]"
        } else {
            ""
        },
    );
    out.append("\n");
    out
}

fn reported_text(pad: &str, node: &ArchitectNode) -> (res: String)
    ensures
        res@ == reported(pad@, node@),
{
    match &node.result {
        Some(result) => {
            let attempt: usize = if result.attempt == 0 {
                1
            } else {
                result.attempt
            };
            let mut out = text::cat5(
                pad,
                "  reported on attempt ",
                text::number(attempt as u128).as_str(),
                ": ",
                text::trim(result.summary.as_str()),
            );
            out.append("\n");
            out
        },
        None => text::none(),
    }
}

fn rule_details(pad: &str, rules: &Vec<String>) -> (res: String)
    ensures
        res@ == text::flat(
            graph::texts(rules@).map_values(|rule: Seq<char>| detail(pad@, "  rule: "@, rule)),
        ),
{
    let mut out = String::new();
    let ghost f = |rule: Seq<char>| detail(pad@, "  rule: "@, rule);
    let ghost lines = graph::texts(rules@).map_values(f);
    proof {
        assert(lines.take(0) =~= Seq::empty());
    }
    for k in 0..rules.len()
        invariant
            f == (|rule: Seq<char>| detail(pad@, "  rule: "@, rule)),
            lines == graph::texts(rules@).map_values(f),
            out@ == text::flat(lines.take(k as int)),
    {
        let line = text::cat4(pad, "  rule: ", rules[k].as_str(), "\n");
        out.append(line.as_str());
        proof {
            assert(lines[k as int] == line@);
            assert(lines.take(k + 1) =~= lines.take(k as int).push(line@));
            text::lemma_flat_push(lines.take(k as int), line@);
        }
    }
    proof {
        assert(lines.take(lines.len() as int) =~= lines);
    }
    out
}

fn terms_text(condition: &EdgeCondition) -> (res: String)
    ensures
        res@ == terms(condition@),
{
    match condition {
        EdgeCondition::Always => "always".to_owned(),
        EdgeCondition::Deterministic { expression } => text::cat2("if ", expression.as_str()),
        EdgeCondition::LlmEvaluated { question } => text::cat2(
            "model decides: ",
            question.as_str(),
        ),
    }
}

fn leads_text(pad: &str, edges: &Vec<&ArchitectEdge>) -> (res: String)
    ensures
        res@ == text::flat(
            edges@.map_values(|e: &ArchitectEdge| e@).map_values(
                |e: EdgeModel|
                    pad@ + "  leads to "@ + e.to + " ("@ + terms(e.condition) + ")\n"@,
            ),
        ),
{
    let mut out = String::new();
    let ghost f = |e: EdgeModel|
        pad@ + "  leads to "@ + e.to + " ("@ + terms(e.condition) + ")\n"@;
    let ghost lines = edges@.map_values(|e: &ArchitectEdge| e@).map_values(f);
    proof {
        assert(lines.take(0) =~= Seq::empty());
    }
    for k in 0..edges.len()
        invariant
            f == (|e: EdgeModel|
                pad@ + "  leads to "@ + e.to + " ("@ + terms(e.condition) + ")\n"@),
            lines == edges@.map_values(|e: &ArchitectEdge| e@).map_values(f),
            out@ == text::flat(lines.take(k as int)),
    {
        let edge = edges[k];
        let mut line = text::cat5(
            pad,
            "  leads to ",
            edge.to.0.as_str(),
            " (",
            terms_text(&edge.condition).as_str(),
        );
        line.append(")\n");
        out.append(line.as_str());
        proof {
            assert(lines[k as int] == line@);
            assert(lines.take(k + 1) =~= lines.take(k as int).push(line@));
            text::lemma_flat_push(lines.take(k as int), line@);
        }
    }
    proof {
        assert(lines.take(lines.len() as int) =~= lines);
    }
    out
}

impl ArchitectGraph {
    /// The plan as the model should read it before redrawing it.
    pub fn outline(&self) -> (res: String)
        ensures
            res@ == self@.outline(),
    {
        self.outline_under(text::none().as_str())
    }

    fn step_outline(&self, pad: &str, node: &ArchitectNode) -> (res: String)
        ensures
            res@ == self@.step_outline(pad@, node@),
    {
        let mut out = naming_text(pad, node);
        out.append(detail_text(pad, "  goal: ", node.intent.as_str()).as_str());
        out.append(rule_details(pad, &node.rules).as_str());
        out.append(detail_text(pad, "  capture: ", node.capture.as_str()).as_str());
        out.append(remark_text(pad, node.pinned, "  told to every later step").as_str());
        let edges = self.edges_from(&node.id);
        out.append(leads_text(pad, &edges).as_str());
        out.append(reported_text(pad, node).as_str());
        out.append(
            remark_text(
                pad,
                node.chat.is_some(),
                "  has its own conversation, where this step was argued out",
            ).as_str(),
        );
        out
    }

    fn outline_under(&self, pad: &str) -> (res: String)
        ensures
            res@ == self@.outline_to(pad@, self@.nodes.len()),
        decreases self,
    {
        let mut out = text::none();
        proof {
            self.lemma_view();
        }
        for k in 0..self.nodes.len()
            invariant
                self@.nodes.len() == self.nodes@.len(),
                out@ == self@.outline_to(pad@, k as nat),
        {
            let node = &self.nodes[k];
            proof {
                self.lemma_view();
                assert(self@.nodes[k as int] == node@);
            }
            out.append(self.step_outline(pad, node).as_str());
            if let Some(subplan) = &node.subplan {
                proof {
                    subplan.lemma_view();
                }
                if subplan.nodes.len() > 0 {
                    out.append(pad);
                    out.append("  contains a plan:\n");
                    let deeper = text::cat2(pad, "    ");
                    out.append(subplan.outline_under(deeper.as_str()).as_str());
                }
            }
        }
        out
    }
}

/// The outline says of every step what a redraw has to know: its id, its title and
/// whether it is settled, its goal, its rules, its capture, whether it is pinned, where it
/// leads and on what terms, what it reported, whether it has a conversation, and the plan
/// inside it, indented.
pub proof fn law_outline_says_everything(plan: GraphModel, pad: Seq<char>, i: int)
    requires
        0 <= i < plan.nodes.len(),
    ensures
        ({
            let node = plan.nodes[i];
            let whole = plan.outline_to(pad, plan.nodes.len());
            let out = plan.edges.filter(|e: EdgeModel| e.from == node.id);
            &&& node.locked ==> text::part_of(
                pad + "- "@ + node.id + " — \""@ + node.title + "\""@
                    + " [locked: settled, do not rewrite]"@ + "\n"@,
                whole,
            )
            &&& !node.locked ==> text::part_of(
                pad + "- "@ + node.id + " — \""@ + node.title + "\""@ + "\n"@,
                whole,
            )
            &&& !text::is_blank(node.intent) ==> text::part_of(
                pad + "  goal: "@ + text::trimmed(node.intent) + "\n"@,
                whole,
            )
            &&& forall|k: int|
                #![trigger node.rules[k]]
                0 <= k < node.rules.len() ==> text::part_of(
                    pad + "  rule: "@ + node.rules[k] + "\n"@,
                    whole,
                )
            &&& !text::is_blank(node.capture) ==> text::part_of(
                pad + "  capture: "@ + text::trimmed(node.capture) + "\n"@,
                whole,
            )
            &&& node.pinned ==> text::part_of(pad + "  told to every later step"@ + "\n"@, whole)
            &&& forall|k: int|
                #![trigger out[k]]
                0 <= k < out.len() ==> text::part_of(
                    pad + "  leads to "@ + out[k].to + " ("@ + (match out[k].condition {
                        ConditionModel::Always => "always"@,
                        ConditionModel::Deterministic { expression } => "if "@ + expression,
                        ConditionModel::LlmEvaluated { question } => "model decides: "@ + question,
                    }) + ")\n"@,
                    whole,
                )
            &&& node.result matches Some(result) ==> text::part_of(
                pad + "  reported on attempt "@ + text::decimal(
                    if result.attempt == 0 {
                        1
                    } else {
                        result.attempt
                    },
                ) + ": "@ + text::trimmed(result.summary) + "\n"@,
                whole,
            )
            &&& node.chat is Some ==> text::part_of(
                pad + "  has its own conversation, where this step was argued out"@ + "\n"@,
                whole,
            )
            &&& node.nested() matches Some(inner) ==> text::part_of(
                pad + "  contains a plan:\n"@ + inner.outline_to(
                    pad + "    "@,
                    inner.nodes.len(),
                ),
                whole,
            )
        }),
{
    reveal_strlit("");
    let node = plan.nodes[i];
    let whole = plan.outline_to(pad, plan.nodes.len());
    let out = plan.edges.filter(|e: EdgeModel| e.from == node.id);
    let own = plan.step_outline(pad, node);
    lemma_outline_part(plan, pad, plan.nodes.len(), i);
    let named = naming(pad, node);
    let goal = detail_unless_blank(pad, "  goal: "@, node.intent);
    let rules = node.rules.map_values(|rule: Seq<char>| detail(pad, "  rule: "@, rule));
    let capture = detail_unless_blank(pad, "  capture: "@, node.capture);
    let told = remark(pad, node.pinned, "  told to every later step"@);
    let ways = plan.edges_from(node.id).map_values(
        |e: EdgeModel| pad + "  leads to "@ + e.to + " ("@ + terms(e.condition) + ")\n"@,
    );
    let report = reported(pad, node);
    let talk = remark(
        pad,
        node.chat is Some,
        "  has its own conversation, where this step was argued out"@,
    );
    let parts = seq![named, goal, text::flat(rules), capture, told, text::flat(ways), report, talk];
    lemma_flat_eight(named, goal, text::flat(rules), capture, told, text::flat(ways), report, talk);
    assert(own == text::flat(parts));
    assert forall|m: int| 0 <= m < 8 implies text::part_of(#[trigger] parts[m], whole) by {
        text::lemma_part_of_flat(parts, m);
        text::lemma_part_within(parts[m], own, whole);
    }
    assert(text::part_of(parts[0], whole) && text::part_of(parts[1], whole) && text::part_of(
        parts[2],
        whole,
    ) && text::part_of(parts[3], whole) && text::part_of(parts[4], whole) && text::part_of(
        parts[5],
        whole,
    ) && text::part_of(parts[6], whole) && text::part_of(parts[7], whole));
    if !node.locked {
        assert(named =~= pad + "- "@ + node.id + " — \""@ + node.title + "\""@ + "\n"@);
    }
    assert forall|k: int|
        #![trigger node.rules[k]]
        0 <= k < node.rules.len() implies text::part_of(
        pad + "  rule: "@ + node.rules[k] + "\n"@,
        whole,
    ) by {
        text::lemma_part_of_flat(rules, k);
        text::lemma_part_within(rules[k], text::flat(rules), whole);
    }
    assert forall|k: int|
        #![trigger out[k]]
        0 <= k < out.len() implies text::part_of(
        pad + "  leads to "@ + out[k].to + " ("@ + (match out[k].condition {
            ConditionModel::Always => "always"@,
            ConditionModel::Deterministic { expression } => "if "@ + expression,
            ConditionModel::LlmEvaluated { question } => "model decides: "@ + question,
        }) + ")\n"@,
        whole,
    ) by {
        text::lemma_part_of_flat(ways, k);
        text::lemma_part_within(ways[k], text::flat(ways), whole);
    }
}

proof fn lemma_flat_eight(
    a: Seq<char>,
    b: Seq<char>,
    c: Seq<char>,
    d: Seq<char>,
    e: Seq<char>,
    f: Seq<char>,
    g: Seq<char>,
    h: Seq<char>,
)
    ensures
        text::flat(seq![a, b, c, d, e, f, g, h]) == a + b + c + d + e + f + g + h,
{
    let none = Seq::<Seq<char>>::empty();
    text::lemma_flat_push(none, a);
    assert(text::flat(none) + a =~= a);
    let s1 = none.push(a);
    text::lemma_flat_push(s1, b);
    let s2 = s1.push(b);
    text::lemma_flat_push(s2, c);
    let s3 = s2.push(c);
    text::lemma_flat_push(s3, d);
    let s4 = s3.push(d);
    text::lemma_flat_push(s4, e);
    let s5 = s4.push(e);
    text::lemma_flat_push(s5, f);
    let s6 = s5.push(f);
    text::lemma_flat_push(s6, g);
    let s7 = s6.push(g);
    text::lemma_flat_push(s7, h);
    assert(s7.push(h) =~= seq![a, b, c, d, e, f, g, h]);
}

proof fn lemma_outline_part(plan: GraphModel, pad: Seq<char>, k: nat, i: int)
    requires
        0 <= i < k <= plan.nodes.len(),
    ensures
        text::part_of(plan.step_outline(pad, plan.nodes[i]), plan.outline_to(pad, k)),
        plan.nodes[i].nested() matches Some(inner) ==> text::part_of(
            pad + "  contains a plan:\n"@ + inner.outline_to(pad + "    "@, inner.nodes.len()),
            plan.outline_to(pad, k),
        ),
    decreases k,
{
    let whole = plan.outline_to(pad, k);
    let rest = plan.outline_to(pad, (k - 1) as nat);
    let node = plan.nodes[k - 1];
    let own = plan.step_outline(pad, node);
    let nothing = Seq::<char>::empty();
    let more = match node.nested() {
        Some(g) => pad + "  contains a plan:\n"@ + g.outline_to(pad + "    "@, g.nodes.len()),
        None => nothing,
    };
    assert(whole =~= rest + own + more);
    if i == k - 1 {
        text::lemma_part(rest, own, more);
        text::lemma_part(rest + own, more, nothing);
        assert(rest + own + more + nothing =~= whole);
    } else {
        lemma_outline_part(plan, pad, (k - 1) as nat, i);
        text::lemma_part(nothing, rest, own + more);
        assert(nothing + rest + (own + more) =~= whole);
        let mine = plan.step_outline(pad, plan.nodes[i]);
        text::lemma_part_within(mine, rest, whole);
        if let Some(inner) = plan.nodes[i].nested() {
            text::lemma_part_within(
                pad + "  contains a plan:\n"@ + inner.outline_to(pad + "    "@, inner.nodes.len()),
                rest,
                whole,
            );
        }
    }
}

} // verus!
