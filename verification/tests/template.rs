use vanadis::template::{Template, TemplateError, UndefinedToken};
use vanadis::token::{TokenPath, Tokens};

fn tokens(pairs: &[(&str, &str)]) -> Tokens {
    Tokens::from_pairs(
        pairs
            .iter()
            .map(|(path, value)| (TokenPath::parse(path).unwrap(), (*value).to_owned()))
            .collect(),
    )
}

fn render(source: &str) -> String {
    Template::new("t.in", source)
        .render(&tokens(&[("role.bg", "#eeeeee"), ("ansi.0", "#000000")]))
        .unwrap()
}

fn undefined(source: &str) -> Vec<UndefinedToken> {
    match Template::new("t.in", source).render(&Tokens::new()) {
        Err(TemplateError::UndefinedTokens { occurrences, .. }) => occurrences,
        Ok(output) => panic!("expected undefined tokens, rendered {output:?}"),
    }
}

#[test]
fn substitutes_a_defined_token() {
    assert_eq!(render("bg = \"{{role.bg}}\""), "bg = \"#eeeeee\"");
}

#[test]
fn substitutes_every_occurrence() {
    assert_eq!(render("{{role.bg}}{{role.bg}}"), "#eeeeee#eeeeee");
}

#[test]
fn passes_a_single_brace_through() {
    assert_eq!(render("{workspace} {tab}"), "{workspace} {tab}");
}

#[test]
fn passes_a_spaced_name_through() {
    assert_eq!(render("content = \" {{ title }}\""), "content = \" {{ title }}\"");
}

#[test]
fn passes_a_wildcard_through() {
    assert_eq!(render("{{role.*}} / {{ansi.*}}"), "{{role.*}} / {{ansi.*}}");
}

#[test]
fn passes_an_unterminated_marker_through() {
    assert_eq!(render("{{role.bg"), "{{role.bg");
}

#[test]
fn unescapes_doubled_braces() {
    assert_eq!(render("{{{{columns}}}}"), "{{columns}}");
}

#[test]
fn template_leaves_multibyte_text_intact() {
    assert_eq!(render("# 配色は {{role.bg}} を参照する"), "# 配色は #eeeeee を参照する");
}

#[test]
fn reports_an_undefined_token() {
    assert_eq!(
        undefined("{{role.acent}}"),
        vec![UndefinedToken { token: TokenPath::parse("role.acent").unwrap(), line: 1 }]
    );
}

#[test]
fn reports_every_undefined_token_not_only_the_first() {
    let occurrences = undefined("{{role.a}}\n\n{{role.b}} {{role.c}}\n");
    let reported: Vec<_> = occurrences.iter().map(|found| (found.token.as_str(), found.line)).collect();
    assert_eq!(reported, [("role.a", 1), ("role.b", 3), ("role.c", 3)]);
}

#[test]
fn counts_lines_across_a_passed_through_marker() {
    let occurrences = undefined("{{ title }}\n{{role.a}}");
    assert_eq!(occurrences[0].line, 2);
}

#[test]
fn names_the_template_in_the_error_message() {
    let error = Template::new("templates/rio/config.toml.in", "{{role.acent}}").render(&Tokens::new()).unwrap_err();
    assert_eq!(error.message(), "templates/rio/config.toml.in: undefined tokens\n  line 1: role.acent");
}

#[test]
fn renders_a_template_with_no_markers_unchanged() {
    assert_eq!(render("plain = true\n"), "plain = true\n");
}

#[test]
fn lists_each_undefined_token_on_a_line_of_its_own() {
    let error = Template::new("t.in", "{{role.a}}\n{{role.b}}").render(&Tokens::new()).unwrap_err();
    assert_eq!(error.message(), "t.in: undefined tokens\n  line 1: role.a\n  line 2: role.b");
}
