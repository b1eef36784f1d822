use vanadis::init::scan::scan;
use vanadis::init::weave::{weave, Binding};
use vanadis::template::Template;
use vanadis::token::{TokenPath, Tokens};

fn path(text: &str) -> TokenPath {
    TokenPath::parse(text).unwrap()
}

/// Binds every occurrence of every value to `role.c<n>`, numbered by value.
fn everything(source: &str) -> Vec<Binding> {
    let found = scan(source);
    let mut bindings = Vec::new();
    for (index, colour) in found.colours().iter().enumerate() {
        for occurrence in colour.occurrences() {
            bindings.push(Binding::new(occurrence, path(&format!("role.c{index}"))));
        }
    }
    bindings
}

fn woven(source: &str) -> String {
    weave(source, &everything(source))
}

/// Renders `template` with whatever `source` said each token was worth.
fn rendered(source: &str, template: &str) -> String {
    let mut tokens = Tokens::new();
    for (index, colour) in scan(source).colours().iter().enumerate() {
        tokens.insert(path(&format!("role.c{index}")), colour.value().to_owned());
    }
    Template::new("t.in", template).render(&tokens).unwrap()
}

#[test]
fn substitutes_a_bound_occurrence() {
    assert_eq!(woven("bg = \"#eeeeee\""), "bg = \"{{role.c0}}\"");
}

#[test]
fn substitutes_every_occurrence_of_one_value() {
    assert_eq!(woven("#eeeeee #eeeeee"), "{{role.c0}} {{role.c0}}");
}

#[test]
fn keeps_an_occurrence_nothing_binds() {
    assert_eq!(weave("bg = \"#eeeeee\"", &[]), "bg = \"#eeeeee\"");
}

#[test]
fn binds_two_occurrences_of_one_value_to_different_tokens() {
    let source = "a = \"#878787\"\nb = \"#878787\"";
    let colours = scan(source);
    let occurrences = colours.colours()[0].occurrences();
    let bindings = [
        Binding::new(&occurrences[0], path("role.comment")),
        Binding::new(&occurrences[1], path("role.inactive")),
    ];
    assert_eq!(weave(source, &bindings), "a = \"{{role.comment}}\"\nb = \"{{role.inactive}}\"");
}

#[test]
fn escapes_a_marker_the_renderer_would_substitute() {
    assert_eq!(woven("title = \"{{columns}}\""), "title = \"{{{{columns}}}}\"");
}

#[test]
fn escapes_doubled_braces() {
    assert_eq!(woven("{{{{a}}}}"), "{{{{{{{{a}}}}}}}}");
}

#[test]
fn escapes_a_marker_the_renderer_would_have_passed_through() {
    assert_eq!(woven("{{ title }} {{role.*}}"), "{{{{ title }}}} {{{{role.*}}}}");
}

#[test]
fn escapes_a_doubled_brace_a_substitution_would_otherwise_run_into() {
    assert_eq!(woven("{{#eeeeee"), "{{{{{{role.c0}}");
}

#[test]
fn leaves_a_single_brace_alone() {
    assert_eq!(woven("{workspace} {-}"), "{workspace} {-}");
}

#[test]
fn weave_leaves_multibyte_text_intact() {
    assert_eq!(woven("# 配色は #eeeeee を参照"), "# 配色は {{role.c0}} を参照");
}

#[test]
fn renders_a_woven_template_back_to_the_source() {
    let source = "bg = \"#eeeeee\"\nfg = \"#444444\"\ntitle = \"{{columns}}\"\n";
    assert_eq!(rendered(source, &woven(source)), source);
}

#[test]
fn renders_an_unbound_source_back_to_itself() {
    let source = "{{{{a}}}} {{ title }} {} }} {{role.*}} #eeeeee\n";
    assert_eq!(rendered(source, &weave(source, &[])), source);
}

/// Every text of up to three pieces drawn from these, escaped and rendered, is itself.
#[test]
fn renders_every_short_escaped_source_back_to_itself() {
    let pieces = ["{", "}", "{{", "}}", "role.bg", " title ", "配", "a.*", ""];
    for a in pieces {
        for b in pieces {
            for c in pieces {
                let source = format!("{a}{b}{c}");
                assert_eq!(rendered(&source, &weave(&source, &[])), source, "{source:?}");
            }
        }
    }
}

/// The same holds when colours are substituted at the same time.
#[test]
fn renders_every_short_woven_source_back_to_itself() {
    let pieces = ["{{", "}}", "#eeeeee", "#444444", "role.bg", " x.", ""];
    for a in pieces {
        for b in pieces {
            for c in pieces {
                let source = format!("{a}{b}{c}");
                assert_eq!(rendered(&source, &woven(&source)), source, "{source:?}");
            }
        }
    }
}
