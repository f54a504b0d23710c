use architect::complete_step::{complete_step, CompleteStepToolInput};
use architect::runner::{
    last_assistant_text, step_title, ArchitectRun, ArchitectRunStartError, ConversationEntry,
    MessageChunk, RunAction,
};
use architect::{
    ArchitectGraph, ArchitectNode, EdgeCondition, NodePath, RunOutcome, RunRefusal, StepResult,
};

fn plan() -> ArchitectGraph {
    let mut graph = ArchitectGraph::default();
    for id in ["edit", "test"] {
        graph.add_node(ArchitectNode {
            locked: true,
            result: Some(StepResult {
                summary: "stale".into(),
                attempt: 4,
            }),
            ..ArchitectNode::new(id, id)
        });
    }
    graph.connect("edit", "test");
    graph.connect_with(
        "test",
        "edit",
        EdgeCondition::LlmEvaluated {
            question: "Did it fail?".into(),
        },
    );
    graph
}

#[test]
fn a_run_starts_without_the_summaries_of_an_earlier_one() {
    let run = ArchitectRun::start(plan(), false).ok().unwrap();
    assert!(run.graph().nodes.iter().all(|node| node.result.is_none()));
    assert_eq!(run.current(), NodePath::root("edit".into()));
}

#[test]
fn a_run_is_refused_while_another_is_in_progress_or_the_plan_is_not_ready() {
    let Err(error) = ArchitectRun::start(plan(), true) else {
        panic!("a second run must not start")
    };
    assert_eq!(error.to_text(), "An Architect run is already in progress.");
    let Err(error) = ArchitectRun::start(ArchitectGraph::default(), false) else {
        panic!("there is nothing to run")
    };
    assert_eq!(error.to_text(), "There is no plan to run yet.");
    let mut open = plan();
    open.nodes[0].locked = false;
    let Err(error) = ArchitectRun::start(open, false) else {
        panic!("an open plan must not run")
    };
    assert_eq!(
        error.to_text(),
        "This plan is not ready to run: edit is not locked yet"
    );
    assert!(matches!(
        error,
        ArchitectRunStartError::Refused(RunRefusal::NotReady(_))
    ));
}

#[test]
fn a_run_goes_step_by_step_and_decides_branches_itself() {
    let mut run = ArchitectRun::start(plan(), false).ok().unwrap();
    let RunAction::CarryOut {
        path,
        step_number,
        attempt,
        prompt,
        ..
    } = run.next_action()
    else {
        panic!("the first step has to be carried out")
    };
    assert_eq!(path, NodePath::root("edit".into()));
    assert_eq!((step_number, attempt), (1, 1));
    assert!(!prompt.contains("stale"));
    let (summary, _) = run.step_carried_out(
        Some(&StepResult {
            summary: "Changed it".into(),
            attempt: 1,
        }),
        "All done.",
    );
    assert_eq!(summary, "Changed it");

    let RunAction::CarryOut { prompt, .. } = run.next_action() else {
        panic!("the second step has to be carried out")
    };
    assert!(prompt.contains("edit: Changed it"), "{prompt}");
    let (summary, _) = run.step_carried_out(None, "Ran the tests.");
    assert_eq!(summary, "Ran the tests.");

    let RunAction::Ask { prompt, .. } = run.next_action() else {
        panic!("the branch has to be asked about")
    };
    assert!(prompt.starts_with("Answer this question: Did it fail?"));
    assert!(run.question_answered("NO. It passed."));
    let RunAction::Finish { outcome, report } = run.next_action() else {
        panic!("the plan is complete")
    };
    assert_eq!(outcome, RunOutcome::Completed);
    assert_eq!(report, None);
}

#[test]
fn a_reply_without_a_verdict_counts_as_no() {
    let mut run = ArchitectRun::start(plan(), false).ok().unwrap();
    run.step_carried_out(None, "");
    run.step_carried_out(None, "");
    assert!(!run.question_answered("Perhaps."));
    assert!(matches!(
        run.next_action(),
        RunAction::Finish {
            outcome: RunOutcome::Completed,
            ..
        }
    ));
}

#[test]
fn an_interrupted_run_ends() {
    let mut run = ArchitectRun::start(plan(), false).ok().unwrap();
    run.interrupt();
    assert!(matches!(
        run.next_action(),
        RunAction::Finish {
            outcome: RunOutcome::Cancelled,
            ..
        }
    ));
}

#[test]
fn a_step_that_is_gone_is_called_by_its_id() {
    assert_eq!(step_title(&plan(), &NodePath::root("edit".into())), "edit");
    assert_eq!(step_title(&plan(), &NodePath::root("gone".into())), "gone");
    assert_eq!(step_title(&plan(), &NodePath::default()), "Step");
}

#[test]
fn the_last_words_of_the_assistant_are_found() {
    let entries = vec![
        ConversationEntry::Assistant(vec![MessageChunk::Message("First".into())]),
        ConversationEntry::Assistant(vec![
            MessageChunk::Thought,
            MessageChunk::Message("Second".into()),
        ]),
        ConversationEntry::Other,
    ];
    assert_eq!(last_assistant_text(&entries), "Second");
    assert_eq!(last_assistant_text(&vec![]), "");
}

#[test]
fn the_last_report_of_an_attempt_is_what_is_handed_on() {
    let mut live = plan();
    live.clear_results();
    let mut run = ArchitectRun::start(plan(), false).ok().unwrap();
    let running = Some(run.current());
    for summary in ["Half of it", "All of it"] {
        let input = CompleteStepToolInput {
            summary: summary.into(),
        };
        assert!(complete_step(&mut live, &running, &input).is_ok());
    }
    let reported = live.nodes[0].result.as_ref();
    assert_eq!(reported.unwrap().attempt, 2);
    let (summary, from_closing) = run.step_carried_out(reported, "Bye.");
    assert_eq!((summary.as_str(), from_closing), ("All of it", false));
    assert_eq!(run.graph().nodes[0].result.as_ref().unwrap().attempt, 1);

    // The next time round, a report of the first attempt is an old one.
    run.step_carried_out(None, "Ran the tests.");
    assert!(run.question_answered("YES"));
    let old = run.graph().nodes[0].result.as_ref().map(|result| StepResult {
        summary: result.summary.clone(),
        attempt: result.attempt,
    });
    let (summary, from_closing) = run.step_carried_out(old.as_ref(), "Bye again.");
    assert_eq!((summary.as_str(), from_closing), ("Bye again.", true));
}

/// A plan in which an inner step shares its id with an outer one.
fn plan_with_a_shared_id() -> ArchitectGraph {
    let mut inner = ArchitectGraph::default();
    inner.add_node(ArchitectNode::new("b", "Inner B"));
    inner.connect_with(
        "b",
        "b",
        EdgeCondition::LlmEvaluated {
            question: "Again?".into(),
        },
    );
    let mut outer = ArchitectNode::new("a", "A");
    outer.subplan = Some(Box::new(inner));
    let mut graph = ArchitectGraph::default();
    graph.add_node(outer);
    graph.add_node(ArchitectNode::new("b", "Outer B"));
    graph.set_locks(true);
    graph
}

#[test]
fn questions_and_endings_name_the_steps_of_the_plan_the_run_is_in() {
    let mut run = ArchitectRun::start(plan_with_a_shared_id(), false).ok().unwrap();
    loop {
        match run.next_action() {
            RunAction::CarryOut { .. } => {
                run.step_carried_out(None, "Tried.");
            }
            RunAction::Ask { prompt, .. } => {
                assert!(prompt.contains("moves on to \"Inner B\""), "{prompt}");
                run.question_answered("YES");
            }
            RunAction::Finish { outcome, report } => {
                assert!(matches!(outcome, RunOutcome::NodeLimit { .. }));
                let report = report.unwrap();
                assert!(report.contains("because \"Inner B\" was entered 26 times"), "{report}");
                break;
            }
        }
    }
}

#[test]
fn a_nested_step_reached_again_from_outside_is_reminded_of_what_it_tried() {
    let mut inner = ArchitectGraph::default();
    inner.add_node(ArchitectNode::new("work", "Work"));
    let mut outer = ArchitectNode::new("outer", "Outer");
    outer.subplan = Some(Box::new(inner));
    let mut graph = ArchitectGraph::default();
    graph.add_node(outer);
    graph.connect_with(
        "outer",
        "outer",
        EdgeCondition::LlmEvaluated {
            question: "Again?".into(),
        },
    );
    graph.set_locks(true);
    let mut run = ArchitectRun::start(graph, false).ok().unwrap();
    run.step_carried_out(None, "Tried the first way.");
    assert!(run.question_answered("YES"));
    let RunAction::CarryOut {
        attempt, prompt, ..
    } = run.next_action()
    else {
        panic!("the step has to be carried out again")
    };
    assert_eq!(attempt, 2);
    assert!(prompt.contains("On attempt 1, you reported:\nTried the first way."), "{prompt}");
}
