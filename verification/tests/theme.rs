use vanadis::theme::problem::Problem;
use vanadis::theme::{rgb, Theme, ThemeError, Variant};
use vanadis::token::TokenPath;

const META: &str = "[meta]\nformat = 1\nname = \"Paper\"\nvariant = \"light\"\n";

fn parse(source: &str) -> Result<Theme, ThemeError> {
    Theme::parse("themes/papercolor-light.toml", source)
}

fn path(text: &str) -> TokenPath {
    TokenPath::parse(text).unwrap()
}

fn problems(source: &str) -> Vec<Problem> {
    match parse(source) {
        Err(ThemeError::Invalid { problems, .. }) => problems,
        other => panic!("expected problems, got {other:?}"),
    }
}

fn value(source: &str, path: &str) -> String {
    let theme = parse(source).unwrap();
    theme
        .tokens()
        .get(&TokenPath::parse(path).unwrap())
        .unwrap_or_else(|| panic!("{path} is not defined"))
        .to_owned()
}

#[test]
fn resolves_a_literal() {
    let source = format!("{META}[colors]\npaper = \"#eeeeee\"\n");
    assert_eq!(value(&source, "colors.paper"), "#eeeeee");
}

#[test]
fn resolves_a_reference() {
    let source = format!("{META}[colors]\npaper = \"#eeeeee\"\n[role]\nbg = \"{{{{colors.paper}}}}\"\n");
    assert_eq!(value(&source, "role.bg"), "#eeeeee");
}

#[test]
fn resolves_a_chain() {
    let source = format!(
        "{META}[colors]\ngray = \"#878787\"\n[role]\ncomment = \"{{{{colors.gray}}}}\"\ninactive = \"{{{{role.comment}}}}\"\n"
    );
    assert_eq!(value(&source, "role.inactive"), "#878787");
}

#[test]
fn stores_hex_in_lowercase() {
    let source = format!("{META}[colors]\npaper = \"#EEEEEE\"\n");
    assert_eq!(value(&source, "colors.paper"), "#eeeeee");
}

#[test]
fn takes_the_id_from_the_filename() {
    assert_eq!(parse(META).unwrap().id().as_str(), "papercolor-light");
}

#[test]
fn exposes_the_id_as_a_token() {
    assert_eq!(value(META, "meta.id"), "papercolor-light");
}

#[test]
fn exposes_metadata_as_tokens() {
    assert_eq!(value(META, "meta.name"), "Paper");
}

#[test]
fn exposes_the_format_as_a_token() {
    assert_eq!(value(META, "meta.format"), "1");
}

#[test]
fn keeps_text_values_opaque() {
    let source = format!("{META}[text]\ndelta-syntax-theme = \"gruvbox-light\"\n");
    assert_eq!(value(&source, "text.delta-syntax-theme"), "gruvbox-light");
}

#[test]
fn resolves_a_nested_namespace() {
    let source = format!("{META}[role.git]\nadded = \"#008700\"\n");
    assert_eq!(value(&source, "role.git.added"), "#008700");
}

#[test]
fn reports_an_undefined_reference() {
    let source = format!("{META}[role]\nbg = \"{{{{colors.papper}}}}\"\n");
    assert_eq!(
        problems(&source),
        vec![Problem::Undefined { path: path("role.bg"), line: 6, target: path("colors.papper") }]
    );
}

#[test]
fn reports_every_undefined_reference_in_one_pass() {
    let source = format!("{META}[role]\nbg = \"{{{{colors.papper}}}}\"\nfg = \"{{{{colors.inc}}}}\"\n");
    assert_eq!(problems(&source).len(), 2);
}

#[test]
fn reports_a_reference_to_a_namespace() {
    let source = format!("{META}[colors]\npaper = \"#eeeeee\"\n[role]\nbg = \"{{{{colors}}}}\"\n");
    assert_eq!(
        problems(&source),
        vec![Problem::Namespace { path: path("role.bg"), line: 8, target: path("colors") }]
    );
}

#[test]
fn reports_a_direct_cycle() {
    let source = format!("{META}[role]\nbg = \"{{{{role.bg}}}}\"\n");
    assert_eq!(problems(&source), vec![Problem::Cycle { members: vec![path("role.bg")], line: 6 }]);
}

#[test]
fn reports_an_indirect_cycle() {
    let source = format!("{META}[role]\nbg = \"{{{{role.fg}}}}\"\nfg = \"{{{{role.bg}}}}\"\n");
    assert_eq!(
        problems(&source),
        vec![Problem::Cycle { members: vec![path("role.bg"), path("role.fg")], line: 6 }]
    );
}

#[test]
fn reports_a_cycle_once_rather_than_once_per_member() {
    let source = format!("{META}[role]\na = \"{{{{role.b}}}}\"\nb = \"{{{{role.c}}}}\"\nc = \"{{{{role.a}}}}\"\n");
    assert_eq!(problems(&source).len(), 1);
}

#[test]
fn reports_both_of_two_separate_cycles() {
    let source = format!(
        "{META}[role]\na = \"{{{{role.b}}}}\"\nb = \"{{{{role.a}}}}\"\nc = \"{{{{role.d}}}}\"\nd = \"{{{{role.c}}}}\"\n"
    );
    assert_eq!(problems(&source).len(), 2);
}

#[test]
fn names_the_cycle_in_the_message() {
    let source = format!("{META}[role]\nbg = \"{{{{role.fg}}}}\"\nfg = \"{{{{role.bg}}}}\"\n");
    let message = problems(&source)[0].message();
    assert!(message.contains("role.bg -> role.fg -> role.bg"), "{message}");
}

#[test]
fn rejects_a_key_that_is_not_a_segment() {
    let source = format!("{META}[role]\nadded_bg = \"#d7ffd7\"\n");
    assert_eq!(problems(&source), vec![Problem::Key { key: "added_bg".to_owned(), line: 6 }]);
}

#[test]
fn theme_rejects_a_value_that_is_not_a_string() {
    let source = format!("{META}[colors]\npaper = 0xeeeeee\n");
    assert_eq!(
        problems(&source),
        vec![Problem::Type { path: path("colors.paper"), line: 6, found: "integer".to_owned() }]
    );
}

#[test]
fn rejects_malformed_hex() {
    let source = format!("{META}[colors]\npaper = \"#eee\"\n");
    assert_eq!(
        problems(&source),
        vec![Problem::Hex { path: path("colors.paper"), line: 6, value: "#eee".to_owned() }]
    );
}

#[test]
fn rejects_a_reference_that_is_not_the_whole_value() {
    let source = format!("{META}[role]\nbg = \"rgb({{{{colors.ink}}}})\"\n");
    assert_eq!(
        problems(&source),
        vec![Problem::Reference { path: path("role.bg"), line: 6, value: "rgb({{colors.ink}})".to_owned() }]
    );
}

#[test]
fn rejects_an_ansi_key_outside_the_sixteen_slots() {
    let source = format!("{META}[ansi]\n16 = \"#eeeeee\"\n");
    assert_eq!(problems(&source), vec![Problem::AnsiSlot { key: "16".to_owned(), line: 6 }]);
}

#[test]
fn rejects_an_ansi_key_with_a_leading_zero() {
    let source = format!("{META}[ansi]\n01 = \"#eeeeee\"\n");
    assert_eq!(problems(&source), vec![Problem::AnsiSlot { key: "01".to_owned(), line: 6 }]);
}

#[test]
fn rejects_a_sub_table_under_ansi() {
    let source = format!("{META}[ansi]\n1.0 = \"#eeeeee\"\n");
    assert_eq!(problems(&source), vec![Problem::AnsiSlot { key: "1".to_owned(), line: 6 }]);
}

#[test]
fn accepts_the_sixteen_ansi_slots() {
    let mut slots = String::new();
    for slot in 0..16 {
        slots.push_str(&format!("{slot} = \"#eeeeee\"\n"));
    }
    let source = format!("{META}[ansi]\n{slots}");
    assert_eq!(value(&source, "ansi.15"), "#eeeeee");
}

#[test]
fn reports_a_missing_name() {
    let source = "[meta]\nformat = 1\nvariant = \"light\"\n";
    assert_eq!(problems(source), vec![Problem::MetaMissing { key: "name".to_owned() }]);
}

#[test]
fn reports_every_missing_metadata_key() {
    assert_eq!(problems("[colors]\npaper = \"#eeeeee\"\n").len(), 3);
}

#[test]
fn rejects_an_unknown_metadata_key() {
    let source = format!("{META}varient = \"dark\"\n");
    assert_eq!(problems(&source), vec![Problem::MetaUnknown { key: "varient".to_owned(), line: 5 }]);
}

#[test]
fn rejects_a_variant_that_is_neither_dark_nor_light() {
    let source = "[meta]\nformat = 1\nname = \"Paper\"\nvariant = \"pale\"\n";
    assert_eq!(problems(source), vec![Problem::MetaVariant { line: 4, value: "pale".to_owned() }]);
}

#[test]
fn rejects_a_format_version_it_does_not_know() {
    let source = "[meta]\nformat = 2\nname = \"Paper\"\nvariant = \"light\"\n";
    assert_eq!(problems(source), vec![Problem::MetaFormat { line: 2, found: "2".to_owned() }]);
}

#[test]
fn rejects_a_format_that_is_not_a_number() {
    let source = "[meta]\nformat = \"1\"\nname = \"Paper\"\nvariant = \"light\"\n";
    assert_eq!(problems(source), vec![Problem::MetaFormat { line: 2, found: "string".to_owned() }]);
}

#[test]
fn accepts_an_optional_author() {
    let source = format!("{META}author = \"torabit\"\n");
    assert_eq!(value(&source, "meta.author"), "torabit");
}

#[test]
fn theme_reports_every_problem_in_one_pass() {
    let source = format!(
        "{META}[colors]\npaper = \"#eee\"\n[role]\nadded_bg = \"#d7ffd7\"\nbg = \"{{{{colors.papper}}}}\"\n"
    );
    assert_eq!(problems(&source).len(), 3);
}

#[test]
fn theme_reports_problems_in_source_order() {
    let source = format!("{META}[colors]\npaper = \"#eee\"\nink = \"#44\"\n");
    let lines: Vec<usize> = problems(&source).iter().map(Problem::line).collect();
    assert_eq!(lines, vec![6, 7]);
}

#[test]
fn rejects_a_filename_that_is_not_a_segment() {
    let error = Theme::parse("PaperColor Light.toml", META).unwrap_err();
    assert!(matches!(error, ThemeError::Id { ref id, .. } if id == "PaperColor Light"), "{error:?}");
}

#[test]
fn reports_a_cycle_at_the_line_it_starts_on() {
    let source = format!("{META}[role]\nfg = \"{{{{role.comment}}}}\"\ncomment = \"{{{{role.fg}}}}\"\n");
    assert_eq!(
        problems(&source),
        vec![Problem::Cycle { members: vec![path("role.fg"), path("role.comment")], line: 6 }]
    );
}

#[test]
fn reads_the_variant() {
    assert_eq!(parse(META).unwrap().variant(), Variant::Light);
}

#[test]
fn reads_the_display_name() {
    assert_eq!(parse(META).unwrap().name(), "Paper");
}

#[test]
fn writes_a_variant_the_way_a_theme_file_spells_it() {
    assert_eq!(Variant::Dark.to_text(), "dark");
}

#[test]
fn theme_reads_the_three_channels_of_a_hex_literal() {
    assert_eq!(rgb("#1d2021"), Some([0x1d, 0x20, 0x21]));
}

#[test]
fn reads_a_hex_literal_written_in_either_case() {
    assert_eq!(rgb("#EEEEEE"), rgb("#eeeeee"));
}

#[test]
fn rejects_a_literal_without_a_hash() {
    assert_eq!(rgb("1d2021"), None);
}

#[test]
fn theme_rejects_three_digit_shorthand() {
    assert_eq!(rgb("#eee"), None);
}

#[test]
fn rejects_eight_digits() {
    assert_eq!(rgb("#eeeeeeff"), None);
}

#[test]
fn rejects_a_signed_digit_that_from_str_radix_would_take() {
    assert_eq!(rgb("#+f+f+f"), None);
}

#[test]
fn reports_a_file_that_is_not_toml() {
    assert!(matches!(parse("[meta"), Err(ThemeError::Syntax { .. })));
}

#[test]
fn names_the_file_and_lists_every_problem_in_the_message() {
    let error = parse("[meta]\nformat = 1\nvariant = \"light\"\n").unwrap_err();
    assert_eq!(error.message(), "themes/papercolor-light.toml: invalid theme\n  [meta] is missing `name`");
}

#[test]
fn resolves_a_token_written_after_the_one_that_references_it() {
    let source = format!("{META}[role]\nbg = \"{{{{colors.paper}}}}\"\n[colors]\npaper = \"#eeeeee\"\n");
    assert_eq!(value(&source, "role.bg"), "#eeeeee");
}
