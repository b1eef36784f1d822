use vanadis::init::answer::{answer, Answer, AnswerError};

fn paths(text: &str) -> Vec<String> {
    match answer(text) {
        Ok(Answer::Tokens(tokens)) => tokens.iter().map(|path| path.as_str().to_owned()).collect(),
        other => panic!("expected tokens, got {other:?}"),
    }
}

#[test]
fn reads_a_bare_name_as_a_role() {
    assert_eq!(paths("bg"), vec!["role.bg"]);
}

#[test]
fn reads_a_qualified_name_as_written() {
    assert_eq!(paths("colors.paper"), vec!["colors.paper"]);
}

#[test]
fn reads_a_nested_namespace() {
    assert_eq!(paths("role.git.added"), vec!["role.git.added"]);
}

#[test]
fn reads_two_names_as_two_tokens() {
    assert_eq!(paths("comment inactive"), vec!["role.comment", "role.inactive"]);
}

#[test]
fn reads_a_hyphenated_role() {
    assert_eq!(paths("accent-alt"), vec!["role.accent-alt"]);
}

#[test]
fn reads_nothing_typed_as_the_default() {
    assert_eq!(answer(""), Ok(Answer::Default));
}

#[test]
fn reads_whitespace_as_the_default() {
    assert_eq!(answer("  \t "), Ok(Answer::Default));
}

#[test]
fn reads_a_hyphen_as_a_skip() {
    assert_eq!(answer("-"), Ok(Answer::Skip));
}

#[test]
fn reports_a_name_that_is_not_a_segment() {
    assert_eq!(answer("added_bg"), Err(AnswerError { text: "added_bg".to_owned() }));
}

#[test]
fn reports_the_word_that_is_wrong_rather_than_the_whole_line() {
    assert_eq!(
        answer("comment Inactive"),
        Err(AnswerError { text: "Inactive".to_owned() })
    );
}

#[test]
fn reads_a_hyphen_among_names_as_a_wrong_name() {
    assert_eq!(answer("bg -"), Err(AnswerError { text: "-".to_owned() }));
}
