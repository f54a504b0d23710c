use agent_client_protocol::v1::schema as acp;
use architect::ask_question::{
    answer_field, answer_form, card_text, card_title, is_failure, response_output, validate_input,
    AnswerForm, AskQuestionAnswer, AskQuestionOption, AskQuestionToolInput, AskQuestionToolOutput,
    FormResponse, SubmittedField, SubmittedValue,
};
use architect::form::elicitation_schema;

fn schema_of(input: &AskQuestionToolInput) -> acp::ElicitationSchema {
    serde_json::from_str(&elicitation_schema(input).unwrap()).unwrap()
}

fn assert_answer_is_required(schema: &acp::ElicitationSchema) {
    assert!(
        schema
            .required
            .as_deref()
            .is_some_and(|required| required == [answer_field()]),
        "the answer field must be required: {:?}",
        schema.required
    );
}

fn option(value: &str, label: &str) -> AskQuestionOption {
    AskQuestionOption {
        value: value.into(),
        label: label.into(),
        description: None,
    }
}

fn input(options: Vec<AskQuestionOption>, allow_multiple: bool) -> AskQuestionToolInput {
    AskQuestionToolInput {
        question: "Which database should the service use?".into(),
        options,
        allow_multiple,
    }
}

fn accepted(value: SubmittedValue) -> FormResponse {
    FormResponse::Accepted(Some(vec![SubmittedField {
        name: answer_field().into(),
        value,
    }]))
}

#[test]
fn empty_options_create_a_free_text_field() {
    let input = validate_input(&input(Vec::new(), false)).unwrap();
    let schema = schema_of(&input);
    assert_answer_is_required(&schema);

    let Some(acp::ElicitationPropertySchema::String(answer)) =
        schema.properties.get(answer_field())
    else {
        panic!("free text must use a string property")
    };
    assert!(answer.enum_values.is_none());
    assert!(answer.one_of.is_none());
}

#[test]
fn options_create_a_titled_single_select() {
    let mut production = option("production", "Production");
    production.description = Some("Use live data".into());
    let input = validate_input(&input(
        vec![production, option("staging", "Staging")],
        false,
    ))
    .unwrap();
    let schema = schema_of(&input);
    assert_answer_is_required(&schema);

    let Some(acp::ElicitationPropertySchema::String(answer)) =
        schema.properties.get(answer_field())
    else {
        panic!("single select must use a string property")
    };
    let options = answer.one_of.as_deref().expect("single select needs oneOf");
    assert_eq!(options.len(), 2);
    assert_eq!(options[0].value, "production");
    assert_eq!(options[0].title, "Production");
    assert_eq!(options[0].description.as_deref(), Some("Use live data"));
}

#[test]
fn multiple_options_create_a_required_multi_select() {
    let input = validate_input(&input(
        vec![option("api", "API"), option("worker", "Worker")],
        true,
    ))
    .unwrap();
    let schema = schema_of(&input);
    assert_answer_is_required(&schema);

    let Some(acp::ElicitationPropertySchema::Array(answer)) =
        schema.properties.get(answer_field())
    else {
        panic!("multi-select must use an array property")
    };
    assert_eq!(answer.min_items, Some(1));
    let acp::MultiSelectItems::Titled(items) = &answer.items else {
        panic!("multi-select options must preserve their labels")
    };
    assert_eq!(items.options.len(), 2);
    assert_eq!(items.options[1].value, "worker");
    assert_eq!(items.options[1].title, "Worker");
}

#[test]
fn a_form_says_what_there_is_to_choose() {
    let free = validate_input(&input(Vec::new(), false)).unwrap();
    assert!(matches!(answer_form(&free), AnswerForm::FreeText { title } if title == "Your answer"));
    let one = validate_input(&input(vec![option("a", "A")], false)).unwrap();
    assert!(matches!(
        answer_form(&one),
        AnswerForm::ChooseOne { title, options } if title == "Choose one" && options.len() == 1
    ));
    let several = validate_input(&input(vec![option("a", "A")], true)).unwrap();
    assert!(matches!(
        answer_form(&several),
        AnswerForm::ChooseSeveral { least: 1, .. }
    ));
}

#[test]
fn invalid_option_values_are_rejected() {
    let empty = validate_input(&input(vec![option("  ", "Empty")], false))
        .expect_err("empty values must be rejected");
    assert!(empty.contains("cannot be empty"));

    let duplicate = validate_input(&input(
        vec![option("same", "First"), option(" same ", "Second")],
        false,
    ))
    .expect_err("duplicate values must be rejected after normalization");
    assert!(duplicate.contains("must be unique"));
}

#[test]
fn multiple_free_text_answers_are_rejected() {
    let error = validate_input(&input(Vec::new(), true))
        .expect_err("multi-select requires selectable options");
    assert!(error.contains("requires at least one option"));
}

#[test]
fn responses_distinguish_answer_decline_and_cancel() {
    let text_input = validate_input(&input(Vec::new(), false)).unwrap();
    assert_eq!(
        response_output(
            &text_input,
            accepted(SubmittedValue::Text("PostgreSQL".into()))
        ),
        AskQuestionToolOutput::Answered {
            answer: AskQuestionAnswer::Text("PostgreSQL".into())
        }
    );
    assert_eq!(
        response_output(&text_input, FormResponse::Declined),
        AskQuestionToolOutput::Declined
    );
    assert_eq!(
        response_output(&text_input, FormResponse::Canceled),
        AskQuestionToolOutput::Canceled
    );
}

#[test]
fn an_empty_question_is_rejected() {
    let mut asked = input(Vec::new(), false);
    asked.question = " \n".into();
    assert_eq!(
        validate_input(&asked).unwrap_err(),
        "The question cannot be empty."
    );
}

#[test]
fn texts_are_trimmed_before_they_are_shown() {
    let mut asked = input(vec![option(" a ", " A ")], false);
    asked.question = "  Which? ".into();
    asked.options[0].description = Some("   ".into());
    let tidy = validate_input(&asked).unwrap();
    assert_eq!(tidy.question, "Which?");
    assert_eq!(tidy.options[0].value, "a");
    assert_eq!(tidy.options[0].label, "A");
    assert_eq!(tidy.options[0].description, None);
}

#[test]
fn only_offered_options_are_answers() {
    let asked =
        validate_input(&input(vec![option("a", "A"), option("b", "B")], true)).unwrap();
    assert_eq!(
        response_output(
            &asked,
            accepted(SubmittedValue::Texts(vec!["b".into(), "a".into()]))
        ),
        AskQuestionToolOutput::Answered {
            answer: AskQuestionAnswer::Multiple(vec!["b".into(), "a".into()])
        }
    );
    for wrong in [vec!["c".to_string()], vec!["a".into(), "a".into()], vec![]] {
        assert!(is_failure(&response_output(
            &asked,
            accepted(SubmittedValue::Texts(wrong))
        )));
    }
}

#[test]
fn a_response_without_an_answer_is_an_error() {
    let asked = validate_input(&input(Vec::new(), false)).unwrap();
    let missing = "The submitted response did not contain an answer.".to_string();
    assert_eq!(
        response_output(&asked, FormResponse::Accepted(None)),
        AskQuestionToolOutput::Error {
            error: missing.clone()
        }
    );
    assert_eq!(
        response_output(
            &asked,
            FormResponse::Accepted(Some(vec![SubmittedField {
                name: "other".into(),
                value: SubmittedValue::Text("x".into()),
            }]))
        ),
        AskQuestionToolOutput::Error { error: missing }
    );
    assert_eq!(
        response_output(&asked, FormResponse::Unsupported),
        AskQuestionToolOutput::Error {
            error: "The user returned an unsupported response.".into()
        }
    );
    assert!(is_failure(&response_output(
        &asked,
        accepted(SubmittedValue::Other)
    )));
}

#[test]
fn the_card_repeats_the_question_and_the_answer() {
    let asked = validate_input(&input(Vec::new(), false)).unwrap();
    let output = response_output(
        &asked,
        accepted(SubmittedValue::Text("PostgreSQL".into())),
    );
    assert_eq!(card_title(&output), "User answered the question");
    let text = card_text(&asked, &output);
    assert!(text.contains("Which database should the service use?"));
    assert!(text.contains("PostgreSQL"));
}
