use vanadis::token::{TokenPath, Tokens};
use vanadis::vocabulary::{core_tokens, missing};

fn tokens(paths: &[&str]) -> Tokens {
    Tokens::from_pairs(paths.iter().map(|path| (TokenPath::parse(path).unwrap(), "#eeeeee".to_owned())).collect())
}

#[test]
fn counts_thirty_three_core_tokens() {
    assert_eq!(core_tokens().len(), 33);
}

#[test]
fn starts_at_the_first_role() {
    assert_eq!(core_tokens()[0].as_str(), "role.bg");
}

#[test]
fn ends_at_the_last_ansi_slot() {
    assert_eq!(core_tokens()[32].as_str(), "ansi.15");
}

#[test]
fn spells_a_hyphenated_role() {
    assert!(core_tokens().iter().any(|path| path.as_str() == "role.accent-alt"));
}

#[test]
fn calls_every_core_token_missing_from_an_empty_theme() {
    assert_eq!(missing(&Tokens::new()).len(), 33);
}

#[test]
fn leaves_a_defined_token_out_of_the_missing_list() {
    let missing = missing(&tokens(&["role.bg"]));
    assert!(!missing.iter().any(|path| path.as_str() == "role.bg"));
    assert_eq!(missing.len(), 32);
}

#[test]
fn ignores_a_token_outside_the_core() {
    assert_eq!(missing(&tokens(&["colors.paper"])).len(), 33);
}

#[test]
fn lists_the_ansi_slots_after_the_roles_in_slot_order() {
    let core = core_tokens();
    assert_eq!(core[16].as_str(), "role.hover-bg");
    assert_eq!(core[17].as_str(), "ansi.0");
    assert_eq!(core[27].as_str(), "ansi.10");
}
