use vanadis::config::TargetName;
use vanadis::init::plan::{plan, Draft, InitError, Plan};
use vanadis::init::scan::scan;
use vanadis::init::weave::Binding;
use vanadis::path_map::PathMap;
use vanadis::theme::{ThemeId, Variant};
use vanadis::token::TokenPath;

const CONFIG: &str = "/home/ada/.config/coloris";
const OUTPUT: &str = "/home/ada/.config/nvim/lua/palette.lua";

fn path(text: &str) -> TokenPath {
    TokenPath::parse(text).unwrap()
}

fn tokens(pairs: &[(&str, &str)]) -> PathMap<String> {
    let mut map = PathMap::new();
    for (key, value) in pairs {
        map.insert(path(key), (*value).to_owned());
    }
    map
}

/// Binds every occurrence of the first value to `role.bg`.
fn bound(source: &str) -> (Vec<Binding>, PathMap<String>) {
    let found = scan(source);
    let Some(colour) = found.colours().first() else {
        return (Vec::new(), PathMap::new());
    };
    let bindings = colour
        .occurrences()
        .iter()
        .map(|occurrence| Binding::new(occurrence, path("role.bg")))
        .collect();
    (bindings, tokens(&[("role.bg", colour.value())]))
}

fn run(source: &str, bindings: &[Binding], tokens: &PathMap<String>, output: &str, name: &str) -> Result<Plan, InitError> {
    let name = TargetName::parse(name).unwrap();
    let id = ThemeId::parse("papercolor-light").unwrap();
    plan(&Draft {
        directory: CONFIG,
        home: Some("/home/ada"),
        name: &name,
        output,
        source,
        id: &id,
        variant: Variant::Light,
        existing: None,
        config: "",
        bindings,
        tokens,
    })
}

fn planned(source: &str) -> Result<Plan, InitError> {
    let (bindings, tokens) = bound(source);
    run(source, &bindings, &tokens, OUTPUT, "nvim")
}

#[test]
fn puts_the_template_under_the_config_directory() {
    let plan = planned("bg = \"#eeeeee\"\n").unwrap();
    assert_eq!(plan.template().path(), "/home/ada/.config/coloris/templates/nvim/palette.lua.in");
}

#[test]
fn substitutes_the_bound_colour_in_the_template() {
    let plan = planned("bg = \"#eeeeee\"\n").unwrap();
    assert_eq!(plan.template().contents(), "bg = \"{{role.bg}}\"\n");
}

#[test]
fn names_the_theme_file_after_the_identifier() {
    let plan = planned("bg = \"#eeeeee\"\n").unwrap();
    assert_eq!(plan.theme().path(), "/home/ada/.config/coloris/themes/papercolor-light.toml");
}

#[test]
fn writes_the_bound_value_into_the_theme() {
    let plan = planned("bg = \"#eeeeee\"\n").unwrap();
    assert!(plan.theme().contents().contains("bg = \"#eeeeee\""), "{}", plan.theme().contents());
}

#[test]
fn writes_the_output_path_with_the_home_directory_contracted() {
    let plan = planned("bg = \"#eeeeee\"\n").unwrap();
    assert!(
        plan.config().contents().contains("output = \"~/.config/nvim/lua/palette.lua\""),
        "{}",
        plan.config().contents()
    );
}

#[test]
fn writes_the_template_path_relative_to_the_config_directory() {
    let plan = planned("bg = \"#eeeeee\"\n").unwrap();
    assert!(
        plan.config().contents().contains("template = \"templates/nvim/palette.lua.in\""),
        "{}",
        plan.config().contents()
    );
}

#[test]
fn plan_names_the_core_tokens_the_theme_still_lacks() {
    let plan = planned("bg = \"#eeeeee\"\n").unwrap();
    assert_eq!(plan.missing().len(), 32);
    assert!(!plan.missing().contains(&path("role.bg")));
}

#[test]
fn reproduces_a_file_whose_colours_are_all_bound() {
    assert!(planned("bg = \"#eeeeee\"\nfg = \"#eeeeee\"\n").is_ok());
}

#[test]
fn reproduces_a_file_that_carries_template_syntax_of_its_own() {
    assert!(planned("title = \"{{columns}}\"\nbg = \"#eeeeee\"\n").is_ok());
}

#[test]
fn reproduces_a_file_with_a_colour_nothing_binds() {
    let source = "bg = \"#eeeeee\"\nnote = \"#444444\"\n";
    let plan = planned(source).unwrap();
    assert!(plan.template().contents().contains("#444444"));
}

#[test]
fn adds_to_a_theme_that_already_exists_rather_than_replacing_it() {
    let source = "fg = \"#444444\"\n";
    let existing = "[meta]\nformat = 1\nname = \"Paper\"\nvariant = \"light\"\n\n[colors]\nink = \"#111111\"\n";
    let found = scan(source);
    let bindings: Vec<Binding> = found.colours()[0]
        .occurrences()
        .iter()
        .map(|occurrence| Binding::new(occurrence, path("role.fg")))
        .collect();
    let tokens = tokens(&[("role.fg", "#444444")]);
    let name = TargetName::parse("nvim").unwrap();
    let id = ThemeId::parse("papercolor-light").unwrap();
    let plan = plan(&Draft {
        directory: CONFIG,
        home: Some("/home/ada"),
        name: &name,
        output: OUTPUT,
        source,
        id: &id,
        variant: Variant::Light,
        existing: Some(existing),
        config: "",
        bindings: &bindings,
        tokens: &tokens,
    })
    .unwrap();
    assert!(plan.theme().contents().contains("ink = \"#111111\""));
    assert!(plan.theme().contents().contains("fg = \"#444444\""));
}

#[test]
fn refuses_a_theme_that_would_not_load() {
    let (bindings, _) = bound("bg = \"#eeeeee\"\n");
    let tokens = tokens(&[("role.bg", "not a colour")]);
    let error = run("bg = \"#eeeeee\"\n", &bindings, &tokens, OUTPUT, "nvim").unwrap_err();
    assert!(matches!(error, InitError::Theme(_)), "{error:?}");
}

#[test]
fn refuses_a_binding_that_would_not_reproduce_the_file() {
    let source = "bg = \"#eeeeee\"\n";
    let (bindings, _) = bound(source);
    let tokens = tokens(&[("role.bg", "#444444")]);
    let error = run(source, &bindings, &tokens, OUTPUT, "nvim").unwrap_err();
    assert!(matches!(error, InitError::Mismatch { .. }), "{error:?}");
}

#[test]
fn shows_what_would_change_when_it_refuses() {
    let source = "bg = \"#eeeeee\"\n";
    let (bindings, _) = bound(source);
    let tokens = tokens(&[("role.bg", "#444444")]);
    let error = run(source, &bindings, &tokens, OUTPUT, "nvim").unwrap_err();
    assert!(error.message().contains("#444444"), "{}", error.message());
}

#[test]
fn writes_an_absolute_output_path_that_is_not_under_the_home_directory() {
    let source = "bg = \"#eeeeee\"\n";
    let (bindings, tokens) = bound(source);
    let plan = run(source, &bindings, &tokens, "/etc/rio/config.toml", "rio").unwrap();
    assert!(
        plan.config().contents().contains("output = \"/etc/rio/config.toml\""),
        "{}",
        plan.config().contents()
    );
}

#[test]
fn does_not_contract_a_path_that_only_shares_a_prefix_with_home() {
    let source = "bg = \"#eeeeee\"\n";
    let (bindings, tokens) = bound(source);
    let plan = run(source, &bindings, &tokens, "/home/adam/x.conf", "x").unwrap();
    assert!(plan.config().contents().contains("output = \"/home/adam/x.conf\""), "{}", plan.config().contents());
}

#[test]
fn refuses_a_token_the_existing_theme_already_writes() {
    let source = "fg = \"#444444\"\n";
    let existing = "[meta]\nformat = 1\nname = \"Paper\"\nvariant = \"light\"\n\n[role]\nfg = \"#444444\"\n";
    let found = scan(source);
    let bindings: Vec<Binding> =
        found.colours()[0].occurrences().iter().map(|occurrence| Binding::new(occurrence, path("role.fg"))).collect();
    let tokens = tokens(&[("role.fg", "#444444")]);
    let name = TargetName::parse("nvim").unwrap();
    let id = ThemeId::parse("papercolor-light").unwrap();
    let error = plan(&Draft {
        directory: CONFIG,
        home: Some("/home/ada"),
        name: &name,
        output: OUTPUT,
        source,
        id: &id,
        variant: Variant::Light,
        existing: Some(existing),
        config: "",
        bindings: &bindings,
        tokens: &tokens,
    })
    .unwrap_err();
    assert_eq!(error.message(), "the theme already writes `role.fg`");
}
