use vanadis::token::{TokenPath, Tokens};

fn parses(text: &str) -> bool {
    TokenPath::parse(text).is_some()
}

#[test]
fn parses_a_two_segment_path() {
    assert_eq!(TokenPath::parse("role.bg").unwrap().as_str(), "role.bg");
}

#[test]
fn parses_a_single_segment() {
    assert!(parses("bg"));
}

#[test]
fn parses_digits_as_a_segment() {
    assert!(parses("ansi.15"));
}

#[test]
fn parses_an_internal_hyphen() {
    assert!(parses("role.accent-alt"));
}

#[test]
fn rejects_the_empty_string() {
    assert!(!parses(""));
}

#[test]
fn rejects_surrounding_space() {
    assert!(!parses(" title "));
}

#[test]
fn rejects_a_wildcard() {
    assert!(!parses("role.*"));
}

#[test]
fn rejects_uppercase() {
    assert!(!parses("Role.bg"));
}

#[test]
fn rejects_an_underscore() {
    assert!(!parses("role.added_bg"));
}

#[test]
fn rejects_an_empty_segment() {
    assert!(!parses("role."));
}

#[test]
fn rejects_a_leading_hyphen() {
    assert!(!parses("role.-bg"));
}

#[test]
fn rejects_a_trailing_hyphen() {
    assert!(!parses("role.bg-"));
}

#[test]
fn looks_up_a_defined_token() {
    let tokens = Tokens::from_pairs(vec![(TokenPath::parse("role.bg").unwrap(), "#eeeeee".to_owned())]);
    assert_eq!(tokens.get(&TokenPath::parse("role.bg").unwrap()), Some("#eeeeee"));
}

#[test]
fn returns_none_for_an_undefined_token() {
    let tokens = Tokens::new();
    assert_eq!(tokens.get(&TokenPath::parse("role.bg").unwrap()), None);
}

#[test]
fn names_the_root_segment_of_a_path() {
    assert_eq!(TokenPath::parse("role.git.added").unwrap().root(), "role");
    assert_eq!(TokenPath::parse("bg").unwrap().root(), "bg");
}

#[test]
fn splits_a_path_into_its_segments() {
    let segments = TokenPath::parse("role.git.added").unwrap().segments();
    assert_eq!(segments, vec!["role", "git", "added"]);
}

#[test]
fn joins_a_child_segment() {
    let path = TokenPath::parse("role").unwrap();
    assert_eq!(path.child("bg").unwrap().as_str(), "role.bg");
    assert!(path.child("Bg").is_none());
}

#[test]
fn lets_a_later_pair_replace_an_earlier_one() {
    let path = TokenPath::parse("role.bg").unwrap();
    let mut tokens = Tokens::new();
    tokens.insert(path.clone(), "#000000".to_owned());
    tokens.insert(path.clone(), "#ffffff".to_owned());
    assert_eq!(tokens.get(&path), Some("#ffffff"));
}
