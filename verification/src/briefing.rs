//! What briefs, questions and endings are sure to say.
use crate::model::{ConditionModel, GraphModel, NodeModel};
use crate::prompt;
use crate::run::{BranchModel, OutcomeModel};
use crate::text;
use vstd::prelude::*;

verus! {

spec fn rule_lines(rules: Seq<Seq<char>>) -> Seq<Seq<char>> {
    Seq::new(rules.len(), |i: int| "- "@ + rules[i] + "\n"@)
}

proof fn lemma_rules(heading: Seq<char>, rules: Seq<Seq<char>>)
    requires
        rules.len() > 0,
    ensures
        crate::compile::rules_part(heading, rules) == heading + rule_lines(rules).flatten(),
{
    let f = |item: Seq<char>| "- "@ + item + "\n"@;
    assert(rules.map_values(f) =~= rule_lines(rules));
    text::law_flat_is_flattened(rule_lines(rules));
}

/// A brief ends with all that the step itself says, in full and in order: its goal, each
/// of its rules on a line of its own, and what its summary has to contain. What the step
/// leaves blank is left out.
pub proof fn law_brief_says_all_the_step_says(
    plan: GraphModel,
    path: Seq<Seq<char>>,
    number: nat,
    attempt: nat,
)
    requires
        plan.node_at(path) is Some,
    ensures
        ({
            let node = plan.node_at(path)->0;
            let brief = prompt::brief(plan, path, number, attempt);
            let goal = if text::is_blank(node.intent) {
                ""@
            } else {
                "\nGoal: "@ + text::trimmed(node.intent) + "\n"@
            };
            let rules = if node.rules.len() == 0 {
                ""@
            } else {
                "\nRules, which hold however you carry this out:\n"@ + Seq::new(
                    node.rules.len(),
                    |i: int| "- "@ + node.rules[i] + "\n"@,
                ).flatten()
            };
            let capture = if text::is_blank(node.capture) {
                ""@
            } else {
                "\nCapture in your summary: "@ + text::trimmed(node.capture) + "\n"@
            };
            let closing =
                "\nCarry out this step now, and only this step. Do not start any later step: what happens next is decided once this one is done. When it is finished, report what you did as your summary.\n"@;
            (goal + rules + capture + closing).is_suffix_of(brief)
        }),
{
    reveal_strlit("");
    let node = plan.node_at(path)->0;
    let brief = prompt::brief(plan, path, number, attempt);
    if node.rules.len() > 0 {
        lemma_rules("\nRules, which hold however you carry this out:\n"@, node.rules);
    }
    let goal = if text::is_blank(node.intent) {
        ""@
    } else {
        "\nGoal: "@ + text::trimmed(node.intent) + "\n"@
    };
    let rules = if node.rules.len() == 0 {
        ""@
    } else {
        "\nRules, which hold however you carry this out:\n"@ + rule_lines(node.rules).flatten()
    };
    let capture = if text::is_blank(node.capture) {
        ""@
    } else {
        "\nCapture in your summary: "@ + text::trimmed(node.capture) + "\n"@
    };
    assert(crate::compile::goal_part(node.intent) =~= goal);
    assert(crate::compile::rules_part(
        "\nRules, which hold however you carry this out:\n"@,
        node.rules,
    ) =~= rules);
    assert(prompt::capture_part(node.capture) =~= capture);
    assert(rule_lines(node.rules) =~= Seq::new(
        node.rules.len(),
        |i: int| "- "@ + node.rules[i] + "\n"@,
    ));
    let end = goal + rules + capture + prompt::closing();
    let front = prompt::inside_part(plan, path) + ("## Step "@ + text::decimal(number) + ": "@
        + node.title + "\n"@) + prompt::reports_part(plan.told(path)) + prompt::again_part(
        node,
        attempt,
    );
    assert(brief =~= front + end);
    assert(end =~= brief.subrange((brief.len() - end.len()) as int, brief.len() as int));
}

/// Every rule of a step stands in its brief, on a line of its own.
pub proof fn law_brief_says_every_rule(
    plan: GraphModel,
    path: Seq<Seq<char>>,
    number: nat,
    attempt: nat,
    i: int,
)
    requires
        plan.node_at(path) is Some,
        0 <= i < plan.node_at(path)->0.rules.len(),
    ensures
        text::part_of(
            "- "@ + plan.node_at(path)->0.rules[i] + "\n"@,
            prompt::brief(plan, path, number, attempt),
        ),
{
    let node = plan.node_at(path)->0;
    let brief = prompt::brief(plan, path, number, attempt);
    let heading = "\nRules, which hold however you carry this out:\n"@;
    let lines = rule_lines(node.rules);
    lemma_rules(heading, node.rules);
    text::law_flat_is_flattened(lines);
    text::lemma_part_of_flat(lines, i);
    let front = prompt::inside_part(plan, path) + ("## Step "@ + text::decimal(number) + ": "@
        + node.title + "\n"@) + prompt::reports_part(plan.told(path)) + prompt::again_part(
        node,
        attempt,
    ) + crate::compile::goal_part(node.intent) + heading;
    let back = prompt::capture_part(node.capture) + prompt::closing();
    text::lemma_part(front, lines.flatten(), back);
    assert(brief =~= front + lines.flatten() + back);
    text::lemma_part_within(lines[i], lines.flatten(), brief);
}

/// A brief starts with where the step is and what it is called: the steps around it by
/// their titles, from the outermost in, then its number and its title.
pub proof fn law_brief_says_where_the_step_is(
    plan: GraphModel,
    path: Seq<Seq<char>>,
    number: nat,
    attempt: nat,
    titles: Seq<Seq<char>>,
)
    requires
        plan.node_at(path) is Some,
        titles.len() == path.len() - 1,
        forall|j: int|
            #![trigger titles[j]]
            0 <= j < titles.len() ==> plan.node_at(path.take(j + 1)) is Some && titles[j]
                == plan.node_at(path.take(j + 1))->0.title,
    ensures
        ({
            let node = plan.node_at(path)->0;
            let heading = "## Step "@ + text::decimal(number) + ": "@ + node.title + "\n"@;
            (if path.len() == 1 {
                heading
            } else {
                "You are inside: "@ + text::joined(titles, " › "@) + ".\n\n"@ + heading
            }).is_prefix_of(prompt::brief(plan, path, number, attempt))
        }),
{
    let node = plan.node_at(path)->0;
    let brief = prompt::brief(plan, path, number, attempt);
    let heading = "## Step "@ + text::decimal(number) + ": "@ + node.title + "\n"@;
    if path.len() > 1 {
        let named = Seq::new((path.len() - 1) as nat, |j: int| plan.step_title(path.take(j + 1)));
        assert(named =~= titles);
    }
    let start = if path.len() == 1 {
        heading
    } else {
        "You are inside: "@ + text::joined(titles, " › "@) + ".\n\n"@ + heading
    };
    assert(start =~= brief.subrange(0, start.len() as int));
}

/// Everything a step is told of earlier steps stands in its brief, each on a line of its
/// own under its title, in the order it is told.
pub proof fn law_brief_says_what_is_told(
    plan: GraphModel,
    path: Seq<Seq<char>>,
    number: nat,
    attempt: nat,
)
    requires
        plan.node_at(path) is Some,
    ensures
        ({
            let told = plan.told(path);
            let lines = Seq::new(
                told.len(),
                |i: int| "- "@ + told[i].title + ": "@ + told[i].summary + "\n"@,
            );
            let brief = prompt::brief(plan, path, number, attempt);
            &&& told.len() > 0 ==> text::part_of(
                "\nWhat earlier steps reported:\n"@ + lines.flatten(),
                brief,
            )
            &&& forall|i: int|
                #![trigger told[i]]
                0 <= i < told.len() ==> text::part_of(
                    "- "@ + told[i].title + ": "@ + told[i].summary + "\n"@,
                    brief,
                )
        }),
{
    let node = plan.node_at(path)->0;
    let told = plan.told(path);
    let lines = Seq::new(
        told.len(),
        |i: int| "- "@ + told[i].title + ": "@ + told[i].summary + "\n"@,
    );
    let brief = prompt::brief(plan, path, number, attempt);
    if told.len() > 0 {
        let f = |t: prompt::ToldModel| "- "@ + t.title + ": "@ + t.summary + "\n"@;
        assert(told.map_values(f) =~= lines);
        text::law_flat_is_flattened(lines);
        let block = "\nWhat earlier steps reported:\n"@ + lines.flatten();
        assert(prompt::reports_part(told) =~= block);
        let front = prompt::inside_part(plan, path) + ("## Step "@ + text::decimal(number) + ": "@
            + node.title + "\n"@);
        let back = prompt::again_part(node, attempt) + crate::compile::goal_part(node.intent)
            + crate::compile::rules_part(
            "\nRules, which hold however you carry this out:\n"@,
            node.rules,
        ) + prompt::capture_part(node.capture) + prompt::closing();
        assert(brief =~= front + block + back);
        text::lemma_part(front, block, back);
        assert forall|i: int|
            #![trigger told[i]]
            0 <= i < told.len() implies text::part_of(
            "- "@ + told[i].title + ": "@ + told[i].summary + "\n"@,
            brief,
        ) by {
            text::lemma_part_of_flat(lines, i);
            let nothing = Seq::<char>::empty();
            text::lemma_part("\nWhat earlier steps reported:\n"@, lines.flatten(), nothing);
            assert("\nWhat earlier steps reported:\n"@ + lines.flatten() + nothing =~= block);
            text::lemma_part_within(lines[i], lines.flatten(), block);
            text::lemma_part_within(lines[i], block, brief);
        }
    }
}

/// A step that a loop brings round again is reminded of what it reported and on which
/// attempt; on its first attempt a step is told nothing of what it reported before.
pub proof fn law_brief_reminds_on_later_attempts_only(
    plan: GraphModel,
    path: Seq<Seq<char>>,
    number: nat,
    attempt: nat,
)
    requires
        plan.node_at(path) is Some,
    ensures
        ({
            let node = plan.node_at(path)->0;
            let brief = prompt::brief(plan, path, number, attempt);
            attempt > 1 && node.result is Some ==> text::part_of(
                "\nYou have been here before. On attempt "@ + text::decimal(
                    if node.result->0.attempt == 0 {
                        1
                    } else {
                        node.result->0.attempt
                    },
                ) + ", you reported:\n"@ + text::trimmed(node.result->0.summary),
                brief,
            )
        }),
        attempt <= 1 ==> prompt::again_part(plan.node_at(path)->0, attempt).len() == 0,
{
    let node = plan.node_at(path)->0;
    let brief = prompt::brief(plan, path, number, attempt);
    if attempt > 1 && node.result is Some {
        let said = "\nYou have been here before. On attempt "@ + text::decimal(
            if node.result->0.attempt == 0 {
                1
            } else {
                node.result->0.attempt
            },
        ) + ", you reported:\n"@ + text::trimmed(node.result->0.summary);
        let front = prompt::inside_part(plan, path) + ("## Step "@ + text::decimal(number) + ": "@
            + node.title + "\n"@) + prompt::reports_part(plan.told(path));
        let back =
            "\n\nThat did not settle it, which is why you are back. Do not repeat what you already tried.\n"@
            + crate::compile::goal_part(node.intent) + crate::compile::rules_part(
            "\nRules, which hold however you carry this out:\n"@,
            node.rules,
        ) + prompt::capture_part(node.capture) + prompt::closing();
        assert(brief =~= front + said + back);
        text::lemma_part(front, said, back);
    }
}

/// A step hands on what it reported, trimmed. One that reported nothing hands on what the
/// steps of the plan inside it hand on, each under its title; where there is neither, it
/// hands on nothing.
pub proof fn law_steps_hand_on_what_they_reported(node: NodeModel)
    ensures
        node.result is Some && !text::is_blank(node.result->0.summary) ==> node.handoff() == Some(
            text::trimmed(node.result->0.summary),
        ),
        (node.result is None || text::is_blank(node.result->0.summary)) && node.nested() is None
            ==> node.handoff() is None,
        (node.result is None || text::is_blank(node.result->0.summary)) && node.nested() is Some
            ==> forall|i: int|
            #![trigger node.nested()->0.nodes[i]]
            0 <= i < node.nested()->0.nodes.len() && node.nested()->0.nodes[i].handoff() is Some
                ==> node.handoff() is Some && text::part_of(
                node.nested()->0.nodes[i].title + ": "@
                    + node.nested()->0.nodes[i].handoff()->0,
                node.handoff()->0,
            ),
{
    if node.result is None || text::is_blank(node.result->0.summary) {
        if let Some(g) = node.subplan {
            if g.nodes.len() > 0 {
                assert forall|i: int|
                    #![trigger g.nodes[i]]
                    0 <= i < g.nodes.len() && g.nodes[i].handoff() is Some implies node.handoff() is Some
                    && text::part_of(
                    g.nodes[i].title + ": "@ + g.nodes[i].handoff()->0,
                    node.handoff()->0,
                ) by {
                    let parts = g.handed_on(g.nodes.len());
                    let j = lemma_handed_on(*g, g.nodes.len(), i);
                    lemma_part_of_joined(parts, "; "@, j);
                }
            }
        }
    }
}

proof fn lemma_handed_on(plan: GraphModel, k: nat, i: int) -> (j: int)
    requires
        0 <= i < k <= plan.nodes.len(),
        plan.nodes[i].handoff() is Some,
    ensures
        0 <= j < plan.handed_on(k).len(),
        plan.handed_on(k)[j] == plan.nodes[i].title + ": "@ + plan.nodes[i].handoff()->0,
    decreases k,
{
    if i == k - 1 {
        plan.handed_on((k - 1) as nat).len() as int
    } else {
        lemma_handed_on(plan, (k - 1) as nat, i)
    }
}

proof fn lemma_part_of_joined(parts: Seq<Seq<char>>, sep: Seq<char>, i: int)
    requires
        0 <= i < parts.len(),
    ensures
        text::part_of(parts[i], text::joined(parts, sep)),
    decreases parts.len(),
{
    let nothing = Seq::<char>::empty();
    let whole = text::joined(parts, sep);
    if parts.len() == 1 {
        text::lemma_part(nothing, parts[0], nothing);
        assert(nothing + parts[0] + nothing =~= whole);
    } else if i == parts.len() - 1 {
        text::lemma_part(text::joined(parts.drop_last(), sep) + sep, parts[i], nothing);
        assert(text::joined(parts.drop_last(), sep) + sep + parts[i] + nothing =~= whole);
    } else {
        let rest = text::joined(parts.drop_last(), sep);
        lemma_part_of_joined(parts.drop_last(), sep, i);
        text::lemma_part(nothing, rest, sep + parts.last());
        assert(nothing + rest + (sep + parts.last()) =~= whole);
        text::lemma_part_within(parts[i], rest, whole);
    }
}

/// A question puts the condition in full, names the step that a yes leads to, and asks
/// for a verdict first. A condition that can be checked is to be checked.
pub proof fn law_questions_put_the_condition(plan: GraphModel, branch: BranchModel)
    ensures
        ({
            let question = prompt::question(plan, branch);
            let title = match plan.node(branch.to) {
                Some(node) => node.title,
                None => plan.called(branch.to),
            };
            &&& text::part_of(
                "\n\nAnswering YES means the plan moves on to \""@ + title
                    + "\". Reply with YES or NO on the first line by itself, then one sentence saying why.\n"@,
                question,
            )
            &&& branch.condition matches ConditionModel::Deterministic { expression }
                ==> ("Check whether this is true right now: "@ + expression).is_prefix_of(question)
            &&& branch.condition matches ConditionModel::LlmEvaluated { question: asked } ==> (
            "Answer this question: "@ + asked).is_prefix_of(question)
        }),
{
    let question = prompt::question(plan, branch);
    let title = plan.called(branch.to);
    let asked = match branch.condition {
        ConditionModel::Always => "Should the plan continue?"@,
        ConditionModel::Deterministic { expression } => "Check whether this is true right now: "@
            + expression + "\n\nCheck it, rather than recalling what was true earlier."@,
        ConditionModel::LlmEvaluated { question } => "Answer this question: "@ + question,
    };
    let told = "\n\nAnswering YES means the plan moves on to \""@ + title
        + "\". Reply with YES or NO on the first line by itself, then one sentence saying why.\n"@;
    lemma_question(
        asked,
        "\n\nAnswering YES means the plan moves on to \""@,
        title,
        "\". Reply with YES or NO on the first line by itself, then one sentence saying why.\n"@,
    );
    match branch.condition {
        ConditionModel::Deterministic { expression } => {
            let start = "Check whether this is true right now: "@ + expression;
            let rest = "\n\nCheck it, rather than recalling what was true earlier."@;
            lemma_starts(start, rest, told);
        },
        ConditionModel::LlmEvaluated { question: put } => {
            lemma_starts(asked, Seq::empty(), told);
            assert(asked + Seq::<char>::empty() =~= asked);
        },
        ConditionModel::Always => {},
    }
}

proof fn lemma_question(a: Seq<char>, b: Seq<char>, c: Seq<char>, d: Seq<char>)
    ensures
        a + b + c + d == a + (b + c + d),
        text::part_of(b + c + d, a + (b + c + d)),
{
    lemma_ends(a, b + c + d);
    lemma_regrouped(a, b, c);
    lemma_regrouped(a, b + c, d);
}

proof fn lemma_regrouped(a: Seq<char>, b: Seq<char>, c: Seq<char>)
    ensures
        a + b + c == a + (b + c),
{
    assert(a + b + c =~= a + (b + c));
}

proof fn lemma_ends(a: Seq<char>, b: Seq<char>)
    ensures
        text::part_of(b, a + b),
{
    text::lemma_part(a, b, Seq::empty());
    assert(a + b + Seq::<char>::empty() =~= a + b);
}

proof fn lemma_starts(a: Seq<char>, b: Seq<char>, c: Seq<char>)
    ensures
        a.is_prefix_of(a + b + c),
{
    assert(a =~= (a + b + c).subrange(0, a.len() as int));
}

/// An ending names what stopped the run: how many steps were taken, or the step by its
/// title and how often it was entered.
pub proof fn law_endings_name_what_stopped_the_run(plan: GraphModel, outcome: OutcomeModel)
    ensures
        ({
            let ending = prompt::ending(plan, outcome);
            &&& outcome matches OutcomeModel::StepLimit { steps } ==> text::part_of(
                "stopped after "@ + text::decimal(steps) + " steps"@,
                ending,
            )
            &&& outcome matches OutcomeModel::NodeLimit { node, visits } ==> plan.node(node) is Some
                ==> text::part_of(
                "because \""@ + plan.node(node)->0.title + "\" was entered "@ + text::decimal(visits)
                    + " times"@,
                ending,
            )
            &&& outcome matches OutcomeModel::DepthLimit { node } ==> plan.node(node) is Some
                ==> text::part_of("\""@ + plan.node(node)->0.title + "\""@, ending)
        }),
{
    let ending = prompt::ending(plan, outcome);
    match outcome {
        OutcomeModel::StepLimit { steps } => {
            reveal_strlit("The run was stopped after ");
            reveal_strlit("The run was ");
            reveal_strlit("stopped after ");
            reveal_strlit(
                " steps, which means the plan is looping without ever reaching an end. Do not carry on; say which step kept repeating and what would have to change for it to finish.",
            );
            reveal_strlit(" steps");
            reveal_strlit(
                ", which means the plan is looping without ever reaching an end. Do not carry on; say which step kept repeating and what would have to change for it to finish.",
            );
            assert("The run was stopped after "@ =~= "The run was "@ + "stopped after "@);
            let tail =
                ", which means the plan is looping without ever reaching an end. Do not carry on; say which step kept repeating and what would have to change for it to finish."@;
            assert(" steps, which means the plan is looping without ever reaching an end. Do not carry on; say which step kept repeating and what would have to change for it to finish."@
                =~= " steps"@ + tail);
            let said = "stopped after "@ + text::decimal(steps) + " steps"@;
            text::lemma_part("The run was "@, said, tail);
            assert(ending =~= "The run was "@ + said + tail);
        },
        OutcomeModel::NodeLimit { node, visits } => {
            if plan.node(node) is Some {
                let title = plan.node(node)->0.title;
                assert(plan.called(node) == title);
                reveal_strlit("The run was stopped because \"");
                reveal_strlit("The run was stopped ");
                reveal_strlit("because \"");
                reveal_strlit(
                    " times without its exit condition ever being met. Do not carry on; say what kept failing and what would have to change for it to pass.",
                );
                reveal_strlit(" times");
                reveal_strlit(
                    " without its exit condition ever being met. Do not carry on; say what kept failing and what would have to change for it to pass.",
                );
                assert("The run was stopped because \""@ =~= "The run was stopped "@
                    + "because \""@);
                let tail =
                    " without its exit condition ever being met. Do not carry on; say what kept failing and what would have to change for it to pass."@;
                assert(" times without its exit condition ever being met. Do not carry on; say what kept failing and what would have to change for it to pass."@
                    =~= " times"@ + tail);
                let said = "because \""@ + title + "\" was entered "@ + text::decimal(visits)
                    + " times"@;
                text::lemma_part("The run was stopped "@, said, tail);
                assert(ending =~= "The run was stopped "@ + said + tail);
            }
        },
        OutcomeModel::DepthLimit { node } => {
            if plan.node(node) is Some {
                let title = plan.node(node)->0.title;
                assert(plan.called(node) == title);
                reveal_strlit(" deep at \"");
                reveal_strlit(" deep at ");
                reveal_strlit("\"");
                reveal_strlit("\". Flatten that part of the plan before running it again.");
                reveal_strlit(". Flatten that part of the plan before running it again.");
                assert(" deep at \""@ =~= " deep at "@ + "\""@);
                let tail = ". Flatten that part of the plan before running it again."@;
                assert("\". Flatten that part of the plan before running it again."@ =~= "\""@
                    + tail);
                let front = "The run was stopped because plans nested more than "@ + text::decimal(
                    crate::run::MAX_PLAN_DEPTH as nat,
                ) + " deep at "@;
                let said = "\""@ + title + "\""@;
                text::lemma_part(front, said, tail);
                assert(ending =~= front + said + tail);
            }
        },
        _ => {},
    }
}

} // verus!
