//! The panel beside the canvas where a single step is settled.
use crate::canvas;
use crate::cards;
use crate::graph::{
    self, ArchitectEdge, ArchitectGraph, ArchitectNode, EdgeCondition, NodeId, SessionId,
};
use crate::model::{EdgeModel, GraphModel, NodeModel};
use crate::outline;
use crate::panel::{self, truncate, Glyph, Tone};
use crate::path::NodePath;
use crate::text;
use vstd::prelude::*;
use vstd::string::StringExecFns;

verus! {

/// The fields that a step is edited in.
pub struct StepFields {
    pub title: String,
    pub goal: String,
    pub capture: String,
    /// Whether the step is settled, so that nothing can be typed.
    pub read_only: bool,
    pub goal_hint: String,
    pub capture_hint: String,
    pub rule_hint: String,
}

/// Works out the fields that a step is edited in.
pub fn step_fields(node: &ArchitectNode) -> (res: StepFields)
    ensures
        res.title@ == node@.title,
        res.goal@ == node@.intent,
        res.capture@ == node@.capture,
        res.read_only == node@.locked,
        res.goal_hint@ == "What does this step have to accomplish?"@,
        res.capture_hint@ == "What must this step's summary contain, for the steps after it?"@,
        res.rule_hint@ == "Add a rule and press enter"@,
{
    StepFields {
        title: node.title.clone(),
        goal: node.intent.clone(),
        capture: node.capture.clone(),
        read_only: node.locked,
        goal_hint: "What does this step have to accomplish?".to_owned(),
        capture_hint: "What must this step's summary contain, for the steps after it?".to_owned(),
        rule_hint: "Add a rule and press enter".to_owned(),
    }
}

/// Where a step hands off to, and on what terms.
pub struct Lead {
    pub target: String,
    pub label: String,
    pub condition: String,
    /// Whether the model decides.
    pub judged: bool,
}

/// Where a step hands off to, and on what terms.
#[verifier::ext_equal]
pub struct LeadModel {
    pub target: Seq<char>,
    pub label: Seq<char>,
    pub condition: Seq<char>,
    pub judged: bool,
}

impl View for Lead {
    type V = LeadModel;

    open spec fn view(&self) -> LeadModel {
        LeadModel {
            target: self.target@,
            label: self.label@,
            condition: self.condition@,
            judged: self.judged,
        }
    }
}

/// A step inside a step, and whether it is settled.
pub struct InnerStep {
    pub title: String,
    pub locked: bool,
}

impl View for InnerStep {
    type V = (Seq<char>, bool);

    open spec fn view(&self) -> (Seq<char>, bool) {
        (self.title@, self.locked)
    }
}

impl GraphModel {
    /// Where a connection hands off to: the title of its target, or the id where
    /// there is no such step.
    pub open spec fn lead(self, edge: EdgeModel) -> LeadModel {
        let condition = match edge.condition.label() {
            Some(label) => label,
            None => "always"@,
        };
        LeadModel {
            target: match self.node(edge.to) {
                Some(target) => target.title,
                None => edge.to,
            },
            label: panel::shortened(condition, 18),
            condition,
            judged: edge.condition is LlmEvaluated,
        }
    }

    /// Whether a step leads somewhere.
    pub open spec fn hands_on(self, id: Seq<char>) -> bool {
        self.edges_from(id).len() > 0
    }
}

/// What the inspector says of the steps inside.
pub open spec fn inside_label(node: NodeModel) -> Seq<char> {
    match node.nested() {
        None => "none yet"@,
        Some(plan) => if plan.locked_count() == plan.nodes.len() {
            text::decimal(plan.nodes.len()) + " steps · all locked"@
        } else {
            text::decimal(plan.nodes.len()) + " steps · "@ + text::decimal(
                (plan.nodes.len() - plan.locked_count()) as nat,
            ) + " still open"@
        },
    }
}

/// What the button says that opens the plan inside.
pub open spec fn open_label(count: nat) -> Seq<char> {
    if count == 0 {
        "Break Into Steps"@
    } else if count == 1 {
        "Open Sub-plan (1 step)"@
    } else {
        "Open Sub-plan ("@ + text::decimal(count) + " steps)"@
    }
}

/// What the inspector says about the reach of a summary.
pub open spec fn reach_label(plan: GraphModel, node: NodeModel) -> Seq<char> {
    if node.pinned {
        "told to every later step"@
    } else if plan.hands_on(node.id) {
        "feeds the next step"@
    } else {
        "nothing follows this step"@
    }
}

/// What the inspector shows of a step.
pub struct StepInspector {
    pub title: String,
    pub locked: bool,
    pub lock_glyph: Glyph,
    pub lock_tone: Tone,
    pub lock_hint: String,
    pub chat_glyph: Glyph,
    pub subplan_hint: String,
    pub rules: Vec<String>,
    /// What is said where there are no rules.
    pub no_rules: Option<String>,
    pub reach: String,
    pub pin_glyph: Glyph,
    pub pin_tone: Tone,
    pub pin_enabled: bool,
    pub pin_hint: String,
    /// What is said where the step leads somewhere without saying what it hands on.
    pub missing_capture: Option<String>,
    /// The attempt and what it reported.
    pub last_result: Option<(String, String)>,
    pub inside: String,
    pub inner_steps: Vec<InnerStep>,
    pub open: String,
    pub open_enabled: bool,
    pub inside_note: String,
    pub leads_to: Vec<Lead>,
    /// What is said where nothing follows.
    pub nothing_follows: Option<String>,
    pub footer: String,
    pub footer_hint: String,
}

/// Whether an inspector shows the lock of a step.
pub open spec fn shows_lock(shown: StepInspector, node: NodeModel) -> bool {
    &&& shown.title@ == node.title
    &&& shown.locked == node.locked
    &&& shown.lock_glyph == (if node.locked {
        Glyph::Lock
    } else {
        Glyph::Pencil
    })
    &&& shown.lock_tone == (if node.locked {
        Tone::Accent
    } else {
        Tone::Muted
    })
    &&& shown.lock_hint@ == (if node.locked {
        "Locked. Click to reopen for changes"@
    } else {
        "Draft. Click to lock"@
    })
    &&& shown.footer@ == (if node.locked {
        "Locked — unlock to edit"@
    } else {
        "Lock this step"@
    })
    &&& shown.footer_hint@ == (if node.locked {
        "A locked step is settled, and the plan can only run once every step is"@
    } else {
        "Says this step is settled. Every step has to be locked before the plan can run."@
    })
}

/// Whether an inspector shows what a step is held to and what it hands on.
pub open spec fn shows_details(shown: StepInspector, plan: GraphModel, node: NodeModel) -> bool {
    &&& shown.chat_glyph == (if node.chat is Some {
        Glyph::Sparkle
    } else {
        Glyph::Plus
    })
    &&& graph::texts(shown.rules@) == node.rules
    &&& canvas::notice_value(shown.no_rules) == (if node.rules.len() == 0 {
        Some("No rules yet."@)
    } else {
        None
    })
    &&& shown.reach@ == reach_label(plan, node)
    &&& shown.pin_glyph == (if node.pinned {
        Glyph::StarFilled
    } else {
        Glyph::Star
    })
    &&& shown.pin_tone == (if node.pinned {
        Tone::Accent
    } else {
        Tone::Muted
    })
    &&& shown.pin_enabled == !node.locked
    &&& shown.pin_hint@ == (if node.pinned {
        "Every later step is told this summary. Click to tell only the next ones."@
    } else {
        "Only the steps this one leads to are told its summary. Click to tell every later step."@
    })
    &&& canvas::notice_value(shown.missing_capture) == (if plan.hands_on(node.id)
        && text::is_blank(node.capture) {
        Some(
            "This step leads somewhere but says nothing about what it hands on. The steps after it see only this summary."@,
        )
    } else {
        None
    })
    &&& cards::pair_value(shown.last_result) == (match node.result {
        Some(result) => Some(
            (
                "attempt "@ + text::decimal(outline::at_least_one(result.attempt)),
                result.summary,
            ),
        ),
        None => None,
    })
}

/// Whether an inspector shows the plan inside a step and where the step leads.
pub open spec fn shows_places(shown: StepInspector, plan: GraphModel, node: NodeModel) -> bool {
    let count = cards::inside_count(node);
    &&& shown.subplan_hint@ == (if count > 0 {
        "The plan inside this step, and where it leads"@
    } else {
        "Break this step into its own plan, or see where it leads"@
    })
    &&& shown.inside@ == inside_label(node)
    &&& shown.inner_steps@.map_values(|s: InnerStep| s@) == (match node.nested() {
        Some(inner) => inner.nodes.map_values(|n: NodeModel| (n.title, n.locked)),
        None => Seq::empty(),
    })
    &&& shown.open@ == open_label(count)
    &&& shown.open_enabled == !(node.locked && count == 0)
    &&& shown.inside_note@ == (if count > 0 {
        "This step is carried out by running the plan inside it. It cannot be locked until every step in there is."@
    } else {
        "For work that is one step here but several up close. The plan inside runs in place of this step."@
    })
    &&& shown.leads_to@.map_values(|l: Lead| l@) == plan.edges_from(node.id).map_values(
        |e: EdgeModel| plan.lead(e),
    )
    &&& canvas::notice_value(shown.nothing_follows) == (if plan.hands_on(node.id) {
        None
    } else {
        Some("Nothing follows this step. It is where a branch of the plan ends."@)
    })
}

fn leads(graph: &ArchitectGraph, id: &NodeId) -> (res: Vec<Lead>)
    ensures
        res@.map_values(|l: Lead| l@) == graph@.edges_from(id@).map_values(
            |e: EdgeModel| graph@.lead(e),
        ),
        res@.len() == graph@.edges_from(id@).len(),
{
    let edges = graph.edges_from(id);
    let ghost f = |e: EdgeModel| graph@.lead(e);
    let ghost models = edges@.map_values(|e: &ArchitectEdge| e@);
    let ghost all = models.map_values(f);
    let mut out: Vec<Lead> = Vec::new();
    proof {
        assert(models.len() == edges@.len());
        assert(out@.map_values(|l: Lead| l@) =~= all.take(0));
    }
    for k in 0..edges.len()
        invariant
            f == (|e: EdgeModel| graph@.lead(e)),
            models == edges@.map_values(|e: &ArchitectEdge| e@),
            models.len() == edges@.len(),
            all == models.map_values(f),
            out@.len() == k,
            out@.map_values(|l: Lead| l@) == all.take(k as int),
    {
        let edge = edges[k];
        proof {
            assert(models[k as int] == edge@);
        }
        let target = match graph.node(&edge.to) {
            Some(node) => node.title.clone(),
            None => edge.to.0.clone(),
        };
        let condition = match edge.condition.label() {
            Some(label) => label.to_owned(),
            None => "always".to_owned(),
        };
        let lead = Lead {
            target,
            label: truncate(condition.as_str(), 18),
            condition,
            judged: matches!(&edge.condition, EdgeCondition::LlmEvaluated { .. }),
        };
        let ghost added = lead@;
        let ghost before = out@;
        out.push(lead);
        proof {
            assert(added == all[k as int]);
            assert(out@.map_values(|l: Lead| l@) =~= before.map_values(|l: Lead| l@).push(added));
            assert(all.take(k + 1) =~= all.take(k as int).push(added));
        }
    }
    proof {
        assert(all.take(all.len() as int) =~= all);
    }
    out
}

fn inner_steps(plan: &ArchitectGraph) -> (res: Vec<InnerStep>)
    ensures
        res@.map_values(|s: InnerStep| s@) == plan@.nodes.map_values(
            |n: NodeModel| (n.title, n.locked),
        ),
{
    let ghost f = |n: NodeModel| (n.title, n.locked);
    let ghost all = plan@.nodes.map_values(f);
    let mut out: Vec<InnerStep> = Vec::new();
    proof {
        plan.lemma_view();
        assert(out@.map_values(|s: InnerStep| s@) =~= all.take(0));
    }
    for k in 0..plan.nodes.len()
        invariant
            f == (|n: NodeModel| (n.title, n.locked)),
            all == plan@.nodes.map_values(f),
            plan@.nodes.len() == plan.nodes@.len(),
            out@.map_values(|s: InnerStep| s@) == all.take(k as int),
    {
        proof {
            plan.lemma_view();
            assert(plan@.nodes[k as int] == plan.nodes@[k as int]@);
        }
        let step = InnerStep {
            title: plan.nodes[k].title.clone(),
            locked: plan.nodes[k].locked,
        };
        let ghost added = step@;
        let ghost before = out@;
        out.push(step);
        proof {
            assert(added == all[k as int]);
            assert(out@.map_values(|s: InnerStep| s@) =~= before.map_values(
                |s: InnerStep| s@,
            ).push(added));
            assert(all.take(k + 1) =~= all.take(k as int).push(added));
        }
    }
    proof {
        assert(all.take(all.len() as int) =~= all);
    }
    out
}

fn inside_text(node: &ArchitectNode) -> (res: String)
    ensures
        res@ == inside_label(node@),
{
    match node.subplan() {
        None => "none yet".to_owned(),
        Some(plan) => {
            let count: usize = plan.nodes.len();
            let settled: usize = plan.locked_count();
            proof {
                plan.lemma_view();
            }
            if settled == count {
                text::cat2(text::number(count as u128).as_str(), " steps · all locked")
            } else {
                text::cat4(
                    text::number(count as u128).as_str(),
                    " steps · ",
                    text::number((count - settled) as u128).as_str(),
                    " still open",
                )
            }
        },
    }
}

/// Works out what the inspector shows of a step of a plan.
pub fn inspect_step(graph: &ArchitectGraph, node: &ArchitectNode) -> (res: StepInspector)
    ensures
        shows_lock(res, node@),
        shows_details(res, graph@, node@),
        shows_places(res, graph@, node@),
{
    let locked = node.locked;
    let leads_to = leads(graph, &node.id);
    let hands_on = leads_to.len() > 0;
    let (count, inner) = match node.subplan() {
        Some(plan) => {
            proof {
                plan.lemma_view();
            }
            (plan.nodes.len(), inner_steps(plan))
        },
        None => {
            let none: Vec<InnerStep> = Vec::new();
            proof {
                assert(none@.map_values(|s: InnerStep| s@) =~= Seq::empty());
            }
            (0, none)
        },
    };
    let rules = graph::clone_texts(&node.rules);
    let last_result = match &node.result {
        Some(result) => {
            let attempt: u128 = if result.attempt > 1 {
                result.attempt as u128
            } else {
                1
            };
            Some((text::cat2("attempt ", text::number(attempt).as_str()), result.summary.clone()))
        },
        None => None,
    };
    StepInspector {
        title: node.title.clone(),
        locked,
        lock_glyph: if locked {
            Glyph::Lock
        } else {
            Glyph::Pencil
        },
        lock_tone: if locked {
            Tone::Accent
        } else {
            Tone::Muted
        },
        lock_hint: if locked {
            "Locked. Click to reopen for changes".to_owned()
        } else {
            "Draft. Click to lock".to_owned()
        },
        chat_glyph: if node.chat.is_some() {
            Glyph::Sparkle
        } else {
            Glyph::Plus
        },
        subplan_hint: if count > 0 {
            "The plan inside this step, and where it leads".to_owned()
        } else {
            "Break this step into its own plan, or see where it leads".to_owned()
        },
        rules,
        no_rules: if node.rules.len() == 0 {
            Some("No rules yet.".to_owned())
        } else {
            None
        },
        reach: if node.pinned {
            "told to every later step".to_owned()
        } else if hands_on {
            "feeds the next step".to_owned()
        } else {
            "nothing follows this step".to_owned()
        },
        pin_glyph: if node.pinned {
            Glyph::StarFilled
        } else {
            Glyph::Star
        },
        pin_tone: if node.pinned {
            Tone::Accent
        } else {
            Tone::Muted
        },
        pin_enabled: !locked,
        pin_hint: if node.pinned {
            "Every later step is told this summary. Click to tell only the next ones.".to_owned()
        } else {
            "Only the steps this one leads to are told its summary. Click to tell every later step.".to_owned()
        },
        missing_capture: if hands_on && text::blank(node.capture.as_str()) {
            Some(
                "This step leads somewhere but says nothing about what it hands on. The steps after it see only this summary.".to_owned(),
            )
        } else {
            None
        },
        last_result,
        inside: inside_text(node),
        inner_steps: inner,
        open: if count == 0 {
            "Break Into Steps".to_owned()
        } else if count == 1 {
            "Open Sub-plan (1 step)".to_owned()
        } else {
            text::cat3("Open Sub-plan (", text::number(count as u128).as_str(), " steps)")
        },
        open_enabled: !(locked && count == 0),
        inside_note: if count > 0 {
            "This step is carried out by running the plan inside it. It cannot be locked until every step in there is.".to_owned()
        } else {
            "For work that is one step here but several up close. The plan inside runs in place of this step.".to_owned()
        },
        leads_to,
        nothing_follows: if hands_on {
            None
        } else {
            Some("Nothing follows this step. It is where a branch of the plan ends.".to_owned())
        },
        footer: if locked {
            "Locked — unlock to edit".to_owned()
        } else {
            "Lock this step".to_owned()
        },
        footer_hint: if locked {
            "A locked step is settled, and the plan can only run once every step is".to_owned()
        } else {
            "Says this step is settled. Every step has to be locked before the plan can run.".to_owned()
        },
    }
}

impl GraphModel {
    /// The step a connection leads to, as a line; nothing where there is no such
    /// step.
    pub open spec fn follower_line(self, edge: EdgeModel) -> Seq<char> {
        match self.node(edge.to) {
            Some(target) => "- "@ + target.title + " (id: "@ + target.id + ")\n"@,
            None => Seq::empty(),
        }
    }

    /// The steps that follow a step, one to a line.
    pub open spec fn followers(self, id: Seq<char>) -> Seq<char> {
        text::flat(self.edges_from(id).map_values(|e: EdgeModel| self.follower_line(e)))
    }

    /// What the conversation about a step opens with.
    pub open spec fn opening_brief(self, node: NodeModel) -> Seq<char> {
        "We are settling one step of the plan: \""@ + node.title + "\".\n\n## Goal so far\n"@ + (
        if text::is_blank(node.intent) {
            "Not decided yet; that is what this conversation is for."@
        } else {
            text::trimmed(node.intent)
        }) + "\n\n## Rules so far\n"@ + (if node.rules.len() == 0 {
            "None yet.\n"@
        } else {
            text::bulleted(node.rules)
        }) + "\n## What follows this step\n"@ + (if self.followers(node.id).len() == 0 {
            "Nothing follows this step; it is where the plan ends.\n"@
        } else {
            self.followers(node.id)
        })
            + "\nHelp me pin this down. Ask about anything ambiguous instead of guessing, and question the goal if it is vague or wrong. When we agree, record it with refine_step, including the routing to the steps above once we have settled when each one is taken.\n\nYou are not building anything here, and no other step is yours to change; that is the main conversation's job."@
    }
}

fn follower_lines(graph: &ArchitectGraph, id: &NodeId) -> (res: String)
    ensures
        res@ == graph@.followers(id@),
{
    let edges = graph.edges_from(id);
    let ghost f = |e: EdgeModel| graph@.follower_line(e);
    let ghost models = edges@.map_values(|e: &ArchitectEdge| e@);
    let ghost lines = models.map_values(f);
    let mut out = String::new();
    proof {
        assert(models.len() == edges@.len());
        assert(lines.take(0) =~= Seq::empty());
    }
    for k in 0..edges.len()
        invariant
            f == (|e: EdgeModel| graph@.follower_line(e)),
            models == edges@.map_values(|e: &ArchitectEdge| e@),
            models.len() == edges@.len(),
            lines == models.map_values(f),
            out@ == text::flat(lines.take(k as int)),
    {
        let edge = edges[k];
        let ghost before = out@;
        if let Some(target) = graph.node(&edge.to) {
            out.append(
                text::cat5("- ", target.title.as_str(), " (id: ", target.id.0.as_str(), ")\n").as_str(),
            );
        }
        proof {
            assert(lines[k as int] == graph@.follower_line(edge@));
            text::lemma_flat_push(lines.take(k as int), lines[k as int]);
            assert(lines.take(k + 1) =~= lines.take(k as int).push(lines[k as int]));
            assert(out@ =~= before + lines[k as int]);
        }
    }
    proof {
        assert(lines.take(lines.len() as int) =~= lines);
    }
    out
}

/// Writes the brief that a conversation about a step opens with.
pub fn step_brief(graph: &ArchitectGraph, node: &ArchitectNode) -> (res: String)
    ensures
        res@ == graph@.opening_brief(node@),
{
    let mut out = text::cat3(
        "We are settling one step of the plan: \"",
        node.title.as_str(),
        "\".\n\n## Goal so far\n",
    );
    if text::blank(node.intent.as_str()) {
        out.append("Not decided yet; that is what this conversation is for.");
    } else {
        out.append(text::trim(node.intent.as_str()));
    }
    out.append("\n\n## Rules so far\n");
    if node.rules.len() == 0 {
        out.append("None yet.\n");
    } else {
        out.append(text::bullets(&node.rules).as_str());
    }
    out.append("\n## What follows this step\n");
    let next = follower_lines(graph, &node.id);
    if next.as_str().unicode_len() == 0 {
        out.append("Nothing follows this step; it is where the plan ends.\n");
    } else {
        out.append(next.as_str());
    }
    out.append(
        "\nHelp me pin this down. Ask about anything ambiguous instead of guessing, and question the goal if it is vague or wrong. When we agree, record it with refine_step, including the routing to the steps above once we have settled when each one is taken.\n\nYou are not building anything here, and no other step is yours to change; that is the main conversation's job.",
    );
    out
}

/// Remembers the conversation about a step. Which conversation a step has is no
/// part of what was settled, so a locked step takes it too. Says whether the step
/// had none before, which is when the conversation is given its brief.
pub fn adopt_chat(root: &mut ArchitectGraph, path: &NodePath, session: SessionId) -> (res: Option<
    bool,
>)
    ensures
        match res {
            Some(first) => {
                &&& old(root)@.step_at(path@) matches Some(node)
                &&& first == (node.chat is None)
                &&& final(root)@ == old(root)@.with_step_at(
                    path@,
                    (NodeModel { chat: Some(session@), ..node }),
                )
            },
            None => old(root)@.step_at(path@) is None && final(root)@ == old(root)@,
        },
{
    match root.node_at_mut(path) {
        Some(node) => {
            let first = node.chat.is_none();
            node.chat = Some(session);
            Some(first)
        },
        None => None,
    }
}

} // verus!
