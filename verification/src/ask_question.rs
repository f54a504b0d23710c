//! Asking the user a question, and reading the answer.
use crate::text;
use vstd::prelude::*;

verus! {

/// The name of the field the answer is given in.
pub fn answer_field() -> (res: &'static str)
    ensures
        res@ == "answer"@,
{
    "answer"
}

/// A question for the user.
#[derive(Debug)]
pub struct AskQuestionToolInput {
    /// What to ask.
    pub question: String,
    /// What to choose from. Without any, the answer is free text.
    pub options: Vec<AskQuestionOption>,
    /// Whether more than one option may be chosen.
    pub allow_multiple: bool,
}

/// One option to choose.
#[derive(Debug)]
pub struct AskQuestionOption {
    /// What choosing it answers.
    pub value: String,
    /// What it is called.
    pub label: String,
    /// What it means, where that needs saying.
    pub description: Option<String>,
}

/// An answer: free text or the one option chosen, or the options chosen.
#[derive(Debug, PartialEq, Eq)]
pub enum AskQuestionAnswer {
    Text(String),
    Multiple(Vec<String>),
}

/// What came of a question.
#[derive(Debug, PartialEq, Eq)]
pub enum AskQuestionToolOutput {
    Answered { answer: AskQuestionAnswer },
    Declined,
    Canceled,
    Error { error: String },
}

/// What the user submitted in a field of a form.
pub enum SubmittedValue {
    Text(String),
    Texts(Vec<String>),
    /// A number or a truth value.
    Other,
}

/// A field of a form as the user submitted it.
pub struct SubmittedField {
    pub name: String,
    pub value: SubmittedValue,
}

/// How the user responded to a form.
pub enum FormResponse {
    /// The form was submitted, with the fields that were filled in, if any.
    Accepted(Option<Vec<SubmittedField>>),
    Declined,
    Canceled,
    Unsupported,
}

/// What the user is to fill in. The answer is required.
pub enum AnswerForm {
    FreeText { title: String },
    /// One of the options.
    ChooseOne { title: String, options: Vec<AskQuestionOption> },
    /// At least `least` of the options.
    ChooseSeveral { title: String, options: Vec<AskQuestionOption>, least: u64 },
}

/// One option to choose.
#[verifier::ext_equal]
pub struct OptionModel {
    pub value: Seq<char>,
    pub label: Seq<char>,
    pub description: Option<Seq<char>>,
}

impl View for AskQuestionOption {
    type V = OptionModel;

    open spec fn view(&self) -> OptionModel {
        OptionModel {
            value: self.value@,
            label: self.label@,
            description: match self.description {
                Some(said) => Some(said@),
                None => None,
            },
        }
    }
}

impl Clone for AskQuestionOption {
    fn clone(&self) -> (res: Self)
        ensures
            res@ == self@,
    {
        AskQuestionOption {
            value: self.value.clone(),
            label: self.label.clone(),
            description: match &self.description {
                Some(said) => Some(said.clone()),
                None => None,
            },
        }
    }
}

/// Some options as mathematical values.
pub open spec fn option_models(options: Seq<AskQuestionOption>) -> Seq<OptionModel> {
    options.map_values(|o: AskQuestionOption| o@)
}

impl OptionModel {
    /// The option without the space around its texts; a blank description is none.
    pub open spec fn tidied(self) -> OptionModel {
        OptionModel {
            value: text::trimmed(self.value),
            label: text::trimmed(self.label),
            description: match self.description {
                Some(said) => if text::is_blank(said) {
                    None
                } else {
                    Some(text::trimmed(said))
                },
                None => None,
            },
        }
    }
}

/// Some options, tidied.
pub open spec fn options_tidied(options: Seq<OptionModel>) -> Seq<OptionModel> {
    options.map_values(|o: OptionModel| o.tidied())
}

/// Whether one of some options has this value.
pub open spec fn has_value(options: Seq<OptionModel>, value: Seq<char>) -> bool {
    exists|i: int| 0 <= i < options.len() && (#[trigger] options[i]).value == value
}

/// What is wrong with an option that comes after others.
pub open spec fn option_fault(before: Seq<OptionModel>, option: OptionModel) -> Option<Seq<char>> {
    if option.value.len() == 0 {
        Some("Option values cannot be empty."@)
    } else if option.label.len() == 0 {
        Some("The option `"@ + option.value + "` needs a label."@)
    } else if has_value(before, option.value) {
        Some(
            "Option values must be unique; `"@ + option.value + "` was provided more than once."@,
        )
    } else {
        None
    }
}

/// What is wrong with the first faulty one of some options.
pub open spec fn options_fault(options: Seq<OptionModel>) -> Option<Seq<char>>
    decreases options.len(),
{
    if options.len() == 0 {
        None
    } else {
        match options_fault(options.drop_last()) {
            Some(fault) => Some(fault),
            None => option_fault(options.drop_last(), options.last()),
        }
    }
}

impl AskQuestionToolInput {
    /// What is wrong with a question.
    pub open spec fn fault(&self) -> Option<Seq<char>> {
        if text::is_blank(self.question@) {
            Some("The question cannot be empty."@)
        } else if self.options@.len() == 0 && self.allow_multiple {
            Some("allow_multiple requires at least one option."@)
        } else {
            options_fault(options_tidied(option_models(self.options@)))
        }
    }
}

fn tidy_option(option: &AskQuestionOption) -> (res: AskQuestionOption)
    ensures
        res@ == option@.tidied(),
{
    AskQuestionOption {
        value: text::trim(option.value.as_str()).to_owned(),
        label: text::trim(option.label.as_str()).to_owned(),
        description: match &option.description {
            Some(said) => if text::blank(said.as_str()) {
                None
            } else {
                Some(text::trim(said.as_str()).to_owned())
            },
            None => None,
        },
    }
}

fn offers(options: &Vec<AskQuestionOption>, value: &String) -> (res: bool)
    ensures
        res == has_value(option_models(options@), value@),
{
    for k in 0..options.len()
        invariant
            forall|i: int|
                0 <= i < k ==> (#[trigger] option_models(options@)[i]).value != value@,
    {
        proof {
            assert(option_models(options@)[k as int] == options@[k as int]@);
        }
        if options[k].value == *value {
            return true;
        }
    }
    false
}

/// Tidies a question, or says what is wrong with it.
pub fn validate_input(input: &AskQuestionToolInput) -> (res: Result<AskQuestionToolInput, String>)
    ensures
        match res {
            Ok(tidy) => {
                &&& input.fault() is None
                &&& tidy.question@ == text::trimmed(input.question@)
                &&& option_models(tidy.options@) == options_tidied(option_models(input.options@))
                &&& tidy.allow_multiple == input.allow_multiple
            },
            Err(error) => input.fault() == Some(error@),
        },
{
    if text::blank(input.question.as_str()) {
        return Err("The question cannot be empty.".to_owned());
    }
    if input.options.len() == 0 && input.allow_multiple {
        return Err("allow_multiple requires at least one option.".to_owned());
    }
    let ghost all = options_tidied(option_models(input.options@));
    let mut options: Vec<AskQuestionOption> = Vec::new();
    proof {
        assert(all.take(0) =~= Seq::empty());
        assert(option_models(options@) =~= Seq::empty());
    }
    for k in 0..input.options.len()
        invariant
            all == options_tidied(option_models(input.options@)),
            option_models(options@) == all.take(k as int),
            options_fault(all.take(k as int)) is None,
            !text::is_blank(input.question@),
            !(input.options@.len() == 0 && input.allow_multiple),
    {
        let option = tidy_option(&input.options[k]);
        proof {
            assert(option_models(input.options@)[k as int] == input.options@[k as int]@);
            assert(all[k as int] == option@);
            assert(all.take(k + 1).drop_last() =~= all.take(k as int));
            assert(all.take(k + 1).last() == option@);
            lemma_fault_stays(all, k + 1);
        }
        if option.value.as_str().is_empty() {
            return Err("Option values cannot be empty.".to_owned());
        }
        if option.label.as_str().is_empty() {
            return Err(text::cat3("The option `", option.value.as_str(), "` needs a label."));
        }
        if offers(&options, &option.value) {
            return Err(
                text::cat3(
                    "Option values must be unique; `",
                    option.value.as_str(),
                    "` was provided more than once.",
                ),
            );
        }
        let ghost before = options@;
        options.push(option);
        proof {
            assert(option_models(options@) =~= option_models(before).push(option@));
            assert(all.take(k + 1) =~= all.take(k as int).push(option@));
        }
    }
    proof {
        assert(all.take(all.len() as int) =~= all);
    }
    Ok(
        AskQuestionToolInput {
            question: text::trim(input.question.as_str()).to_owned(),
            options,
            allow_multiple: input.allow_multiple,
        },
    )
}

/// The first fault found is the fault of the whole list.
proof fn lemma_fault_stays(options: Seq<OptionModel>, k: int)
    requires
        0 <= k <= options.len(),
    ensures
        options_fault(options.take(k)) is Some ==> options_fault(options) == options_fault(
            options.take(k),
        ),
    decreases options.len(),
{
    if k < options.len() {
        lemma_fault_stays(options.drop_last(), k);
        assert(options.drop_last().take(k) =~= options.take(k));
    } else {
        assert(options.take(k) =~= options);
    }
}

fn copy_options(options: &Vec<AskQuestionOption>) -> (res: Vec<AskQuestionOption>)
    ensures
        option_models(res@) == option_models(options@),
{
    let mut out: Vec<AskQuestionOption> = Vec::new();
    let ghost all = option_models(options@);
    for k in 0..options.len()
        invariant
            all == option_models(options@),
            option_models(out@) =~= all.take(k as int),
    {
        let ghost before = out@;
        let one = options[k].clone();
        out.push(one);
        proof {
            assert(option_models(out@) =~= option_models(before).push(all[k as int]));
        }
    }
    proof {
        assert(all.take(all.len() as int) =~= all);
    }
    out
}

/// What the user is to fill in for a question.
pub fn answer_form(input: &AskQuestionToolInput) -> (res: AnswerForm)
    ensures
        if input.options@.len() == 0 {
            res matches AnswerForm::FreeText { title } && title@ == "Your answer"@
        } else if input.allow_multiple {
            res matches AnswerForm::ChooseSeveral { title, options, least } && title@
                == "Choose one or more"@ && option_models(options@) == option_models(
                input.options@,
            ) && least == 1
        } else {
            res matches AnswerForm::ChooseOne { title, options } && title@ == "Choose one"@
                && option_models(options@) == option_models(input.options@)
        },
{
    if input.options.len() == 0 {
        AnswerForm::FreeText { title: "Your answer".to_owned() }
    } else if input.allow_multiple {
        AnswerForm::ChooseSeveral {
            title: "Choose one or more".to_owned(),
            options: copy_options(&input.options),
            least: 1,
        }
    } else {
        AnswerForm::ChooseOne {
            title: "Choose one".to_owned(),
            options: copy_options(&input.options),
        }
    }
}

/// An answer as a mathematical value.
#[verifier::ext_equal]
pub enum AnswerModel {
    Text(Seq<char>),
    Multiple(Seq<Seq<char>>),
}

/// What came of a question, as a mathematical value.
#[verifier::ext_equal]
pub enum AskedModel {
    Answered(AnswerModel),
    Declined,
    Canceled,
    Error(Seq<char>),
}

impl View for AskQuestionToolOutput {
    type V = AskedModel;

    open spec fn view(&self) -> AskedModel {
        match *self {
            AskQuestionToolOutput::Answered { answer: AskQuestionAnswer::Text(answer) } =>
                AskedModel::Answered(AnswerModel::Text(answer@)),
            AskQuestionToolOutput::Answered { answer: AskQuestionAnswer::Multiple(answers) } =>
                AskedModel::Answered(AnswerModel::Multiple(crate::graph::texts(answers@))),
            AskQuestionToolOutput::Declined => AskedModel::Declined,
            AskQuestionToolOutput::Canceled => AskedModel::Canceled,
            AskQuestionToolOutput::Error { error } => AskedModel::Error(error@),
        }
    }
}

/// Whether a field of this name was filled in at `i`, and none before it.
pub open spec fn is_field(fields: Seq<SubmittedField>, name: Seq<char>, i: int) -> bool {
    &&& 0 <= i < fields.len()
    &&& fields[i].name@ == name
    &&& forall|j: int| 0 <= j < i ==> (#[trigger] fields[j]).name@ != name
}

/// What was filled in under a name.
pub open spec fn field_value(fields: Seq<SubmittedField>, name: Seq<char>) -> Option<SubmittedValue> {
    if exists|i: int| is_field(fields, name, i) {
        Some(fields[choose|i: int| is_field(fields, name, i)].value)
    } else {
        None
    }
}

/// Whether every one of some answers is an option, and none is given twice.
pub open spec fn valid_choices(options: Seq<OptionModel>, answers: Seq<Seq<char>>) -> bool {
    &&& answers.no_duplicates()
    &&& forall|i: int| 0 <= i < answers.len() ==> has_value(options, #[trigger] answers[i])
}

/// What a submitted value answers.
pub open spec fn read_value(input: &AskQuestionToolInput, value: SubmittedValue) -> AskedModel {
    let options = option_models(input.options@);
    match value {
        SubmittedValue::Text(answer) => if input.allow_multiple {
            AskedModel::Error("The submitted answer had an unexpected type."@)
        } else if answer@.len() == 0 {
            AskedModel::Error("The submitted answer was empty."@)
        } else if options.len() > 0 && !has_value(options, answer@) {
            AskedModel::Error("The submitted answer was not one of the provided options."@)
        } else {
            AskedModel::Answered(AnswerModel::Text(answer@))
        },
        SubmittedValue::Texts(answers) => if !input.allow_multiple {
            AskedModel::Error("The submitted answer had an unexpected type."@)
        } else if answers@.len() == 0 {
            AskedModel::Error("The submitted answer did not select any options."@)
        } else if !valid_choices(options, crate::graph::texts(answers@)) {
            AskedModel::Error("The submitted answer contained an invalid option."@)
        } else {
            AskedModel::Answered(AnswerModel::Multiple(crate::graph::texts(answers@)))
        },
        SubmittedValue::Other => AskedModel::Error(
            "The submitted answer had an unexpected type."@,
        ),
    }
}

/// What a response to a question means.
pub open spec fn read_response(input: &AskQuestionToolInput, response: FormResponse) -> AskedModel {
    match response {
        FormResponse::Accepted(Some(fields)) => match field_value(fields@, "answer"@) {
            Some(value) => read_value(input, value),
            None => AskedModel::Error("The submitted response did not contain an answer."@),
        },
        FormResponse::Accepted(None) => AskedModel::Error(
            "The submitted response did not contain an answer."@,
        ),
        FormResponse::Declined => AskedModel::Declined,
        FormResponse::Canceled => AskedModel::Canceled,
        FormResponse::Unsupported => AskedModel::Error(
            "The user returned an unsupported response."@,
        ),
    }
}

fn failure(error: &str) -> (res: AskQuestionToolOutput)
    ensures
        res@ == AskedModel::Error(error@),
{
    AskQuestionToolOutput::Error { error: error.to_owned() }
}

fn choices_are_valid(options: &Vec<AskQuestionOption>, answers: &Vec<String>) -> (res: bool)
    ensures
        res == valid_choices(option_models(options@), crate::graph::texts(answers@)),
{
    let ghost all = crate::graph::texts(answers@);
    for k in 0..answers.len()
        invariant
            all == crate::graph::texts(answers@),
            forall|i: int| 0 <= i < k ==> has_value(option_models(options@), #[trigger] all[i]),
            forall|i: int, j: int| 0 <= i < j < k ==> all[i] != all[j],
    {
        proof {
            assert(all[k as int] == answers@[k as int]@);
        }
        for j in 0..k
            invariant
                k < answers@.len(),
                all == crate::graph::texts(answers@),
                forall|i: int| 0 <= i < j ==> all[i] != all[k as int],
        {
            proof {
                assert(all[j as int] == answers@[j as int]@);
                assert(all[k as int] == answers@[k as int]@);
            }
            if answers[j] == answers[k] {
                proof {
                    assert(!all.no_duplicates());
                }
                return false;
            }
        }
        if !offers(options, &answers[k]) {
            return false;
        }
    }
    proof {
        assert(all.no_duplicates());
    }
    true
}

fn value_output(input: &AskQuestionToolInput, value: SubmittedValue) -> (res: AskQuestionToolOutput)
    ensures
        res@ == read_value(input, value),
{
    proof {
        assert(option_models(input.options@).len() == input.options@.len());
    }
    match value {
        SubmittedValue::Text(answer) => if input.allow_multiple {
            failure("The submitted answer had an unexpected type.")
        } else if answer.as_str().is_empty() {
            failure("The submitted answer was empty.")
        } else if input.options.len() > 0 && !offers(&input.options, &answer) {
            failure("The submitted answer was not one of the provided options.")
        } else {
            AskQuestionToolOutput::Answered { answer: AskQuestionAnswer::Text(answer) }
        },
        SubmittedValue::Texts(answers) => if !input.allow_multiple {
            failure("The submitted answer had an unexpected type.")
        } else if answers.len() == 0 {
            failure("The submitted answer did not select any options.")
        } else if !choices_are_valid(&input.options, &answers) {
            failure("The submitted answer contained an invalid option.")
        } else {
            AskQuestionToolOutput::Answered { answer: AskQuestionAnswer::Multiple(answers) }
        },
        SubmittedValue::Other => failure("The submitted answer had an unexpected type."),
    }
}

/// Reads what the user responded to a question.
pub fn response_output(input: &AskQuestionToolInput, response: FormResponse) -> (res:
    AskQuestionToolOutput)
    ensures
        res@ == read_response(input, response),
{
    match response {
        FormResponse::Accepted(Some(fields)) => {
            let mut fields = fields;
            let mut k: usize = 0;
            let ghost all = fields@;
            while k < fields.len() && !text::same(fields[k].name.as_str(), "answer")
                invariant
                    all == fields@,
                    k <= fields@.len(),
                    forall|i: int| 0 <= i < k ==> (#[trigger] fields@[i]).name@ != "answer"@,
                ensures
                    k < fields@.len() ==> fields@[k as int].name@ == "answer"@,
                decreases fields@.len() - k,
            {
                k += 1;
            }
            if k == fields.len() {
                return failure("The submitted response did not contain an answer.");
            }
            proof {
                assert(is_field(all, "answer"@, k as int));
                let c = choose|i: int| is_field(all, "answer"@, i);
                assert(is_field(all, "answer"@, c));
                if c < k {
                    assert(all[c].name@ != "answer"@);
                }
                if k < c {
                    assert(all[k as int].name@ != "answer"@);
                }
            }
            let field = fields.remove(k);
            value_output(input, field.value)
        },
        FormResponse::Accepted(None) => failure("The submitted response did not contain an answer."),
        FormResponse::Declined => AskQuestionToolOutput::Declined,
        FormResponse::Canceled => AskQuestionToolOutput::Canceled,
        FormResponse::Unsupported => failure("The user returned an unsupported response."),
    }
}

/// What an answer is shown as: the label of the first option with its value, or
/// the answer itself.
pub open spec fn shown_value(options: Seq<OptionModel>, value: Seq<char>) -> Seq<char>
    decreases options.len(),
{
    if options.len() == 0 {
        value
    } else if options[0].value == value {
        options[0].label
    } else {
        shown_value(options.skip(1), value)
    }
}

/// What an answer is shown as.
fn display_value<'a>(input: &'a AskQuestionToolInput, value: &'a String) -> (res: &'a str)
    ensures
        res@ == shown_value(option_models(input.options@), value@),
{
    let ghost all = option_models(input.options@);
    proof {
        assert(all.skip(0) =~= all);
    }
    for k in 0..input.options.len()
        invariant
            all == option_models(input.options@),
            shown_value(all, value@) == shown_value(all.skip(k as int), value@),
    {
        proof {
            assert(all.skip(k as int)[0] == input.options@[k as int]@);
            assert(all.skip(k as int).skip(1) =~= all.skip(k + 1));
        }
        if input.options[k].value == *value {
            return input.options[k].label.as_str();
        }
    }
    proof {
        assert(all.skip(all.len() as int).len() == 0);
    }
    value.as_str()
}

/// The title of the card that shows what came of a question.
pub open spec fn card_heading(output: AskedModel) -> Seq<char> {
    match output {
        AskedModel::Answered(_) => "User answered the question"@,
        AskedModel::Declined => "User declined the question"@,
        AskedModel::Canceled => "Question canceled"@,
        AskedModel::Error(_) => "Could not ask the question"@,
    }
}

/// What the card says that shows what came of a question.
pub open spec fn card_says(input: &AskQuestionToolInput, output: AskedModel) -> Seq<char> {
    let options = option_models(input.options@);
    match output {
        AskedModel::Answered(AnswerModel::Text(answer)) => "**Question:** "@ + input.question@
            + "\n\n**Answer:** "@ + shown_value(options, answer),
        AskedModel::Answered(AnswerModel::Multiple(answers)) => "**Question:** "@ + input.question@
            + "\n\n**Answer:**\n"@ + text::joined(
            answers.map_values(|a: Seq<char>| "- "@ + shown_value(options, a)),
            "\n"@,
        ),
        AskedModel::Declined => "The user declined to answer: "@ + input.question@,
        AskedModel::Canceled => "The question was canceled: "@ + input.question@,
        AskedModel::Error(error) => "Could not ask `"@ + input.question@ + "`: "@ + error,
    }
}

/// The title of the card that shows what came of a question.
pub fn card_title(output: &AskQuestionToolOutput) -> (res: &'static str)
    ensures
        res@ == card_heading(output@),
{
    match output {
        AskQuestionToolOutput::Answered { answer: AskQuestionAnswer::Text(_) } =>
            "User answered the question",
        AskQuestionToolOutput::Answered { answer: AskQuestionAnswer::Multiple(_) } =>
            "User answered the question",
        AskQuestionToolOutput::Declined => "User declined the question",
        AskQuestionToolOutput::Canceled => "Question canceled",
        AskQuestionToolOutput::Error { .. } => "Could not ask the question",
    }
}

/// What the card says that shows what came of a question.
pub fn card_text(input: &AskQuestionToolInput, output: &AskQuestionToolOutput) -> (res: String)
    ensures
        res@ == card_says(input, output@),
{
    match output {
        AskQuestionToolOutput::Answered { answer: AskQuestionAnswer::Text(answer) } => text::cat4(
            "**Question:** ",
            input.question.as_str(),
            "\n\n**Answer:** ",
            display_value(input, answer),
        ),
        AskQuestionToolOutput::Answered { answer: AskQuestionAnswer::Multiple(answers) } => {
            let mut lines: Vec<String> = Vec::new();
            let ghost options = option_models(input.options@);
            let ghost f = |a: Seq<char>| "- "@ + shown_value(options, a);
            let ghost all = crate::graph::texts(answers@).map_values(f);
            proof {
                assert(crate::graph::texts(lines@) =~= all.take(0));
            }
            for k in 0..answers.len()
                invariant
                    options == option_models(input.options@),
                    f == (|a: Seq<char>| "- "@ + shown_value(options, a)),
                    all == crate::graph::texts(answers@).map_values(f),
                    crate::graph::texts(lines@) == all.take(k as int),
            {
                let line = text::cat2("- ", display_value(input, &answers[k]));
                let ghost before = lines@;
                lines.push(line);
                proof {
                    assert(all[k as int] == line@);
                    assert(crate::graph::texts(lines@) =~= crate::graph::texts(before).push(line@));
                    assert(all.take(k + 1) =~= all.take(k as int).push(line@));
                }
            }
            proof {
                assert(all.take(all.len() as int) =~= all);
            }
            text::cat4(
                "**Question:** ",
                input.question.as_str(),
                "\n\n**Answer:**\n",
                text::join(&lines, "\n").as_str(),
            )
        },
        AskQuestionToolOutput::Declined => text::cat2(
            "The user declined to answer: ",
            input.question.as_str(),
        ),
        AskQuestionToolOutput::Canceled => text::cat2(
            "The question was canceled: ",
            input.question.as_str(),
        ),
        AskQuestionToolOutput::Error { error } => text::cat4(
            "Could not ask `",
            input.question.as_str(),
            "`: ",
            error.as_str(),
        ),
    }
}

/// Whether what came of a question counts as a failure of the tool.
pub fn is_failure(output: &AskQuestionToolOutput) -> (res: bool)
    ensures
        res == (output@ is Error),
{
    matches!(output, AskQuestionToolOutput::Error { .. })
}

/// Only an option that was offered is ever taken for an answer to a question with
/// options.
pub proof fn law_only_offered_options_are_answers(
    input: &AskQuestionToolInput,
    response: FormResponse,
)
    requires
        input.options@.len() > 0,
    ensures
        match read_response(input, response) {
            AskedModel::Answered(AnswerModel::Text(answer)) => !input.allow_multiple && has_value(
                option_models(input.options@),
                answer,
            ),
            AskedModel::Answered(AnswerModel::Multiple(answers)) => input.allow_multiple
                && answers.len() > 0 && valid_choices(option_models(input.options@), answers),
            _ => true,
        },
{
    assert(option_models(input.options@).len() == input.options@.len());
}

/// A question passes just where it is not blank, where several answers are allowed only
/// of options, and where every option has a value of its own and a label.
pub proof fn law_sound_questions_pass(input: &AskQuestionToolInput)
    ensures
        input.fault() is None <==> {
            &&& !text::is_blank(input.question@)
            &&& input.options@.len() > 0 || !input.allow_multiple
            &&& forall|i: int|
                #![trigger input.options@[i]]
                0 <= i < input.options@.len() ==> !text::is_blank(input.options@[i].value@)
                    && !text::is_blank(input.options@[i].label@)
            &&& forall|i: int, j: int|
                #![trigger input.options@[i], input.options@[j]]
                0 <= i < j < input.options@.len() ==> text::trimmed(input.options@[i].value@)
                    != text::trimmed(input.options@[j].value@)
        },
{
    let all = options_tidied(option_models(input.options@));
    lemma_options_sound(all);
    assert forall|i: int| #![trigger input.options@[i]] 0 <= i < input.options@.len() implies {
        &&& all[i].value == text::trimmed(input.options@[i].value@)
        &&& all[i].label == text::trimmed(input.options@[i].label@)
        &&& (all[i].value.len() == 0 <==> text::is_blank(input.options@[i].value@))
        &&& (all[i].label.len() == 0 <==> text::is_blank(input.options@[i].label@))
    } by {
        assert(option_models(input.options@)[i] == input.options@[i]@);
        text::lemma_trimmed_empty(input.options@[i].value@);
        text::lemma_trimmed_empty(input.options@[i].label@);
    }
    if options_fault(all) is None {
        assert forall|i: int, j: int|
            #![trigger input.options@[i], input.options@[j]]
            0 <= i < j < input.options@.len() implies text::trimmed(input.options@[i].value@)
            != text::trimmed(input.options@[j].value@) by {
            assert(all[i].value != all[j].value);
        }
        assert forall|i: int|
            #![trigger input.options@[i]]
            0 <= i < input.options@.len() implies !text::is_blank(input.options@[i].value@)
            && !text::is_blank(input.options@[i].label@) by {
            assert(all[i].value.len() > 0 && all[i].label.len() > 0);
        }
    }
    if (forall|i: int|
        #![trigger input.options@[i]]
        0 <= i < input.options@.len() ==> !text::is_blank(input.options@[i].value@)
            && !text::is_blank(input.options@[i].label@)) && (forall|i: int, j: int|
        #![trigger input.options@[i], input.options@[j]]
        0 <= i < j < input.options@.len() ==> text::trimmed(input.options@[i].value@)
            != text::trimmed(input.options@[j].value@)) {
        assert forall|i: int| 0 <= i < all.len() implies (#[trigger] all[i]).value.len() > 0
            && all[i].label.len() > 0 by {
            assert(!text::is_blank(input.options@[i].value@));
        }
        assert forall|i: int, j: int|
            #![trigger all[i], all[j]]
            0 <= i < j < all.len() implies all[i].value != all[j].value by {
            assert(text::trimmed(input.options@[i].value@) != text::trimmed(
                input.options@[j].value@,
            ));
        }
    }
}

proof fn lemma_options_sound(options: Seq<OptionModel>)
    ensures
        options_fault(options) is None <==> {
            &&& forall|i: int|
                0 <= i < options.len() ==> (#[trigger] options[i]).value.len() > 0
                    && options[i].label.len() > 0
            &&& forall|i: int, j: int|
                #![trigger options[i], options[j]]
                0 <= i < j < options.len() ==> options[i].value != options[j].value
        },
    decreases options.len(),
{
    if options.len() > 0 {
        let rest = options.drop_last();
        let last = options.last();
        lemma_options_sound(rest);
        if options_fault(options) is None {
            assert forall|i: int, j: int|
                #![trigger options[i], options[j]]
                0 <= i < j < options.len() implies options[i].value != options[j].value by {
                assert(rest[i] == options[i]);
                if j < rest.len() {
                    assert(rest[j] == options[j]);
                } else if rest[i].value == last.value {
                    assert(has_value(rest, last.value));
                }
            }
            assert forall|i: int| 0 <= i < options.len() implies (
            #[trigger] options[i]).value.len() > 0 && options[i].label.len() > 0 by {
                if i < rest.len() {
                    assert(rest[i].value.len() > 0);
                }
            }
        } else if (forall|i: int|
            0 <= i < options.len() ==> (#[trigger] options[i]).value.len() > 0
                && options[i].label.len() > 0) && (forall|i: int, j: int|
            #![trigger options[i], options[j]]
            0 <= i < j < options.len() ==> options[i].value != options[j].value) {
            assert forall|i: int, j: int|
                #![trigger rest[i], rest[j]]
                0 <= i < j < rest.len() implies rest[i].value != rest[j].value by {
                assert(options[i].value != options[j].value);
            }
            assert forall|i: int| 0 <= i < rest.len() implies (#[trigger] rest[i]).value.len() > 0
                && rest[i].label.len() > 0 by {
                assert(options[i].value.len() > 0);
            }
            assert(options[options.len() - 1] == last);
            if has_value(rest, last.value) {
                let i = choose|i: int| 0 <= i < rest.len() && (#[trigger] rest[i]).value
                    == last.value;
                assert(options[i].value != options[options.len() - 1].value);
            }
            assert(false);
        }
    }
}

/// Whether one of the options of a question has a value.
pub open spec fn offered(input: &AskQuestionToolInput, value: Seq<char>) -> bool {
    exists|k: int|
        0 <= k < input.options@.len() && (#[trigger] input.options@[k]).value@ == value
}

/// What the user submits is what is answered: any text that is not empty where no options
/// were offered, one of the options where one is to be chosen, and a selection of them,
/// none twice, where several may be. A refusal is told as one.
pub proof fn law_answers_are_taken_as_given(
    input: &AskQuestionToolInput,
    fields: Vec<SubmittedField>,
    i: int,
)
    requires
        0 <= i < fields@.len(),
        fields@[i].name@ == "answer"@,
        forall|j: int| 0 <= j < i ==> (#[trigger] fields@[j]).name@ != "answer"@,
    ensures
        fields@[i].value matches SubmittedValue::Text(answer) ==> {
            if !input.allow_multiple && answer@.len() > 0 && (input.options@.len() == 0 || offered(
                input,
                answer@,
            )) {
                read_response(input, FormResponse::Accepted(Some(fields))) == AskedModel::Answered(
                    AnswerModel::Text(answer@),
                )
            } else {
                read_response(input, FormResponse::Accepted(Some(fields))) is Error
            }
        },
        fields@[i].value matches SubmittedValue::Texts(answers) ==> {
            let chosen = Seq::new(answers@.len(), |k: int| answers@[k]@);
            let known = forall|m: int|
                0 <= m < chosen.len() ==> offered(input, #[trigger] chosen[m]);
            if input.allow_multiple && answers@.len() > 0 && known && chosen.no_duplicates() {
                read_response(input, FormResponse::Accepted(Some(fields))) == AskedModel::Answered(
                    AnswerModel::Multiple(chosen),
                )
            } else {
                read_response(input, FormResponse::Accepted(Some(fields))) is Error
            }
        },
        fields@[i].value is Other ==> read_response(
            input,
            FormResponse::Accepted(Some(fields)),
        ) is Error,
        read_response(input, FormResponse::Declined) == AskedModel::Declined,
        read_response(input, FormResponse::Canceled) == AskedModel::Canceled,
        read_response(input, FormResponse::Accepted(None)) is Error,
{
    let options = option_models(input.options@);
    assert(is_field(fields@, "answer"@, i));
    let j = choose|j: int| is_field(fields@, "answer"@, j);
    assert(is_field(fields@, "answer"@, j));
    if j < i {
        assert(fields@[j].name@ != "answer"@);
    }
    if i < j {
        assert(fields@[i].name@ != "answer"@);
    }
    assert(field_value(fields@, "answer"@) == Some(fields@[i].value));
    assert forall|value: Seq<char>| #[trigger] has_value(options, value) == #[trigger] offered(
        input,
        value,
    ) by {
        if has_value(options, value) {
            let k = choose|k: int| 0 <= k < options.len() && (#[trigger] options[k]).value == value;
            assert(input.options@[k].value@ == value);
        }
        if offered(input, value) {
            let k = choose|k: int|
                0 <= k < input.options@.len() && (#[trigger] input.options@[k]).value@ == value;
            assert(options[k].value == value);
        }
    }
    assert(options.len() == input.options@.len());
    if let SubmittedValue::Texts(answers) = fields@[i].value {
        let chosen = Seq::new(answers@.len(), |k: int| answers@[k]@);
        assert(crate::graph::texts(answers@) =~= chosen);
        if valid_choices(options, chosen) {
            assert forall|m: int| 0 <= m < chosen.len() implies offered(
                input,
                #[trigger] chosen[m],
            ) by {
                assert(has_value(options, chosen[m]));
            }
        }
        if forall|m: int| 0 <= m < chosen.len() ==> offered(input, #[trigger] chosen[m]) {
            assert forall|m: int| 0 <= m < chosen.len() implies has_value(
                options,
                #[trigger] chosen[m],
            ) by {
                assert(offered(input, chosen[m]));
            }
        }
    }
}

/// An answer is shown by the label of the option it chose, and as it is where it chose
/// none.
pub proof fn law_answers_are_shown_by_their_labels(
    options: Seq<OptionModel>,
    value: Seq<char>,
    k: int,
)
    requires
        0 <= k <= options.len(),
        forall|j: int| 0 <= j < k ==> (#[trigger] options[j]).value != value,
        k < options.len() ==> options[k].value == value,
    ensures
        k < options.len() ==> shown_value(options, value) == options[k].label,
        k == options.len() ==> shown_value(options, value) == value,
    decreases options.len(),
{
    if k > 0 {
        let rest = options.skip(1);
        assert(options[0].value != value);
        assert forall|j: int| 0 <= j < k - 1 implies (#[trigger] rest[j]).value != value by {
            assert(rest[j] == options[j + 1]);
        }
        if k < options.len() {
            assert(rest[k - 1] == options[k]);
        }
        law_answers_are_shown_by_their_labels(rest, value, k - 1);
    }
}

} // verus!
