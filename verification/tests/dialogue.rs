use vanadis::config::{Config, TargetName};
use vanadis::init::dialogue::{claim, name_taken, offered, output_owner, pick};
use vanadis::path_map::PathMap;
use vanadis::token::{TokenPath, Tokens};

fn path(text: &str) -> TokenPath {
    TokenPath::parse(text).unwrap()
}

fn tokens(pairs: &[(&str, &str)]) -> Tokens {
    Tokens::from_pairs(pairs.iter().map(|(p, v)| (path(p), (*v).to_owned())).collect())
}

#[test]
fn offers_a_role_token_before_any_other() {
    let known = tokens(&[("colors.bg", "#111111"), ("role.bg", "#111111"), ("ansi.black", "#111111")]);
    assert_eq!(offered(&known, "#111111").unwrap().as_str(), "role.bg");
}

#[test]
fn offers_the_first_token_in_path_order_when_no_role_resolves_to_the_value() {
    let known = tokens(&[("colors.bg", "#111111"), ("ansi.black", "#111111"), ("role.fg", "#eeeeee")]);
    assert_eq!(offered(&known, "#111111").unwrap().as_str(), "ansi.black");
}

#[test]
fn offers_nothing_for_a_value_no_token_resolves_to() {
    let known = tokens(&[("colors.bg", "#111111")]);
    assert!(offered(&known, "#222222").is_none());
}

#[test]
fn offers_by_the_value_a_token_ends_up_with() {
    let known = tokens(&[("role.bg", "#111111"), ("role.bg", "#222222"), ("colors.bg", "#111111")]);
    assert_eq!(offered(&known, "#111111").unwrap().as_str(), "colors.bg");
}

#[test]
fn takes_a_role_namespace_only_at_the_root() {
    let known = tokens(&[("roles.bg", "#111111"), ("ansi.bg", "#111111")]);
    assert_eq!(offered(&known, "#111111").unwrap().as_str(), "ansi.bg");
}

#[test]
fn binds_a_new_token_to_the_colour() {
    let known = Tokens::new();
    let mut bound = PathMap::new();
    claim(&known, &mut bound, &path("role.bg"), "#111111").unwrap();
    assert_eq!(bound.get(&path("role.bg")).unwrap(), "#111111");
}

#[test]
fn refuses_a_token_the_theme_binds_to_another_colour() {
    let known = tokens(&[("role.bg", "#222222")]);
    let mut bound = PathMap::new();
    let clash = claim(&known, &mut bound, &path("role.bg"), "#111111").unwrap_err();
    assert_eq!(clash.message(), "`role.bg` is already #222222, so it cannot also be #111111");
    assert_eq!(bound.len(), 0);
}

#[test]
fn refuses_a_token_an_earlier_answer_bound_to_another_colour() {
    let known = Tokens::new();
    let mut bound = PathMap::new();
    claim(&known, &mut bound, &path("role.bg"), "#222222").unwrap();
    assert!(claim(&known, &mut bound, &path("role.bg"), "#111111").is_err());
    assert!(claim(&known, &mut bound, &path("role.bg"), "#222222").is_ok());
}

#[test]
fn writes_no_token_the_theme_already_defines() {
    let known = tokens(&[("role.bg", "#111111")]);
    let mut bound = PathMap::new();
    claim(&known, &mut bound, &path("role.bg"), "#111111").unwrap();
    assert_eq!(bound.len(), 0);
}

#[test]
fn picks_a_name_by_its_last_segment_or_in_full() {
    let names = vec![path("role.bg"), path("colors.bg"), path("role.fg")];
    assert_eq!(pick(&names, "fg"), Some(2));
    assert_eq!(pick(&names, "bg"), Some(0));
    assert_eq!(pick(&names, "colors.bg"), Some(1));
    assert_eq!(pick(&names, "accent"), None);
}

const TARGETS: &str = "[[targets]]\nname = \"bat\"\ntemplate = \"t.in\"\noutput = \"~/bat/theme\"\n\n[[targets]]\nname = \"nvim\"\ntemplate = \"n.in\"\noutput = \"~/nvim/palette.lua\"\n";

fn targets() -> Config {
    Config::parse("/cfg/config.toml", TARGETS, "/cfg", Some("/home/ada")).unwrap()
}

#[test]
fn finds_the_target_that_already_writes_a_file() {
    let config = targets();
    let written = config.targets()[1].output().to_owned();
    assert_eq!(output_owner(&config, &written), Some(1));
    assert_eq!(output_owner(&config, "/home/ada/elsewhere.lua"), None);
}

#[test]
fn knows_which_target_names_are_taken() {
    let config = targets();
    assert!(name_taken(&config, &TargetName::parse("nvim").unwrap()));
    assert!(!name_taken(&config, &TargetName::parse("kitty").unwrap()));
}
