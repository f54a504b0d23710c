//! The forms that questions are asked with, as the Agent Client Protocol writes them.
use crate::ask_question::{
    self, answer_field, answer_form, AnswerForm, AskQuestionOption, AskQuestionToolInput,
    OptionModel,
};
use agent_client_protocol::v1::schema as acp;
use vstd::prelude::*;

verus! {

/// A form with one field for free text.
pub uninterp spec fn free_text_form(
    field: Seq<char>,
    title: Seq<char>,
    required: bool,
) -> Option<Seq<char>>;

/// Writes a form with one field for free text: an `acp::ElicitationSchema` with an
/// `acp::StringPropertySchema`, as JSON. The result is a function of the two texts and of
/// whether the field has to be filled in; how the protocol writes it is not stated here.
#[verifier::external_body]
fn write_free_text(field: &str, title: &str, required: bool) -> (res: Option<String>)
    ensures
        match res {
            Some(form) => free_text_form(field@, title@, required) == Some(form@),
            None => free_text_form(field@, title@, required) is None,
        },
{
    let answer = acp::StringPropertySchema::new().title(title.to_owned());
    serde_json::to_string(&acp::ElicitationSchema::new().property(field, answer, required)).ok()
}

/// A form with one field for one of some options.
pub uninterp spec fn single_choice_form(
    field: Seq<char>,
    title: Seq<char>,
    options: Seq<OptionModel>,
    required: bool,
) -> Option<Seq<char>>;

/// Writes a form with one field for one of some options: an
/// `acp::ElicitationSchema` with an `acp::StringPropertySchema` that lists an
/// `acp::EnumOption` for each, as JSON. The result is a function of the two texts, the
/// options and whether the field has to be filled in; how the protocol writes it is not
/// stated here.
#[verifier::external_body]
fn write_single_choice(
    field: &str,
    title: &str,
    options: &Vec<AskQuestionOption>,
    required: bool,
) -> (res: Option<String>)
    ensures
        match res {
            Some(form) => single_choice_form(
                field@,
                title@,
                ask_question::option_models(options@),
                required,
            ) == Some(form@),
            None => single_choice_form(
                field@,
                title@,
                ask_question::option_models(options@),
                required,
            ) is None,
        },
{
    let choices: Vec<acp::EnumOption> = options
        .iter()
        .map(|o| acp::EnumOption::new(&o.value, &o.label).description(o.description.clone()))
        .collect();
    let answer = acp::StringPropertySchema::new().title(title.to_owned()).one_of(choices);
    serde_json::to_string(&acp::ElicitationSchema::new().property(field, answer, required)).ok()
}

/// A form with one field for several of some options.
pub uninterp spec fn multiple_choice_form(
    field: Seq<char>,
    title: Seq<char>,
    options: Seq<OptionModel>,
    least: u64,
    required: bool,
) -> Option<Seq<char>>;

/// Writes a form with one field for at least so many of some options: an
/// `acp::ElicitationSchema` with an `acp::MultiSelectPropertySchema` that lists an
/// `acp::EnumOption` for each, as JSON. The result is a function of the two texts, the
/// options, the number and whether the field has to be filled in; how the protocol writes
/// it is not stated here.
#[verifier::external_body]
fn write_multiple_choice(
    field: &str,
    title: &str,
    options: &Vec<AskQuestionOption>,
    least: u64,
    required: bool,
) -> (res: Option<String>)
    ensures
        match res {
            Some(form) => multiple_choice_form(
                field@,
                title@,
                ask_question::option_models(options@),
                least,
                required,
            ) == Some(form@),
            None => multiple_choice_form(
                field@,
                title@,
                ask_question::option_models(options@),
                least,
                required,
            ) is None,
        },
{
    let choices: Vec<acp::EnumOption> = options
        .iter()
        .map(|o| acp::EnumOption::new(&o.value, &o.label).description(o.description.clone()))
        .collect();
    let answer = acp::MultiSelectPropertySchema::titled(choices).title(title.to_owned());
    let answer = answer.min_items(least);
    serde_json::to_string(&acp::ElicitationSchema::new().property(field, answer, required)).ok()
}

/// A form or none, as a mathematical value.
pub open spec fn form_value(form: Option<String>) -> Option<Seq<char>> {
    match form {
        Some(text) => Some(text@),
        None => None,
    }
}

/// Writes the form that a question is asked with.
pub fn elicitation_schema(input: &AskQuestionToolInput) -> (res: Option<String>)
    ensures
        form_value(res) == (if input.options@.len() == 0 {
            free_text_form("answer"@, "Your answer"@, true)
        } else if input.allow_multiple {
            multiple_choice_form(
                "answer"@,
                "Choose one or more"@,
                ask_question::option_models(input.options@),
                1,
                true,
            )
        } else {
            single_choice_form(
                "answer"@,
                "Choose one"@,
                ask_question::option_models(input.options@),
                true,
            )
        }),
{
    match answer_form(input) {
        AnswerForm::FreeText { title } => write_free_text(answer_field(), title.as_str(), true),
        AnswerForm::ChooseOne { title, options } => write_single_choice(
            answer_field(),
            title.as_str(),
            &options,
            true,
        ),
        AnswerForm::ChooseSeveral { title, options, least } => write_multiple_choice(
            answer_field(),
            title.as_str(),
            &options,
            least,
            true,
        ),
    }
}

} // verus!
