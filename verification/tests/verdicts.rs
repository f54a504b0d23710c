use architect::verdict::parse_verdict;

#[test]
fn a_verdict_is_read_from_the_first_word_of_the_reply() {
    assert_eq!(parse_verdict("YES\nThe tests failed."), Some(true));
    assert_eq!(parse_verdict("no, everything passed"), Some(false));
    assert_eq!(parse_verdict("**YES** - it failed"), Some(true));
}

#[test]
fn a_no_that_goes_on_to_mention_yes_is_still_a_no() {
    assert_eq!(
        parse_verdict("NO\nIf they had failed the answer would be yes."),
        Some(false)
    );
}

#[test]
fn a_reply_that_does_not_start_with_a_verdict_is_not_guessed_at() {
    assert_eq!(parse_verdict("I think the tests failed, so yes"), None);
    assert_eq!(parse_verdict(""), None);
}
