use vanadis::config::TargetName;
use vanadis::state::{State, StateError};
use vanadis::theme::ThemeId;

fn parse(source: &str) -> Result<State, StateError> {
    State::parse("state.toml", source)
}

fn id(text: &str) -> ThemeId {
    ThemeId::parse(text).unwrap()
}

fn name(text: &str) -> TargetName {
    TargetName::parse(text).unwrap()
}

fn targets(state: &State) -> Vec<(String, String)> {
    state
        .targets()
        .iter()
        .map(|(name, theme)| (name.as_str().to_owned(), theme.as_str().to_owned()))
        .collect()
}

fn same(left: &State, right: &State) -> bool {
    left.theme() == right.theme() && targets(left) == targets(right)
}

#[test]
fn reads_the_theme_it_records() {
    let state = parse("theme = \"papercolor-light\"\n").unwrap();
    assert_eq!(state.theme().as_str(), "papercolor-light");
}

#[test]
fn reports_a_state_file_that_names_no_theme() {
    assert!(matches!(parse("\n"), Err(StateError::Missing { .. })));
}

#[test]
fn reports_a_theme_that_is_not_an_identifier() {
    let error = parse("theme = \"PaperColor Light\"\n").unwrap_err();
    assert!(
        matches!(error, StateError::Id { ref theme, .. } if theme == "PaperColor Light"),
        "{error:?}"
    );
}

#[test]
fn reports_a_state_file_that_is_not_toml() {
    assert!(matches!(parse("theme ="), Err(StateError::Syntax { .. })));
}

#[test]
fn reads_back_what_it_writes() {
    let state = State::new(id("gruvbox-dark"));
    assert!(same(&parse(&state.to_toml()).unwrap(), &state));
}

#[test]
fn reads_a_target_applied_on_its_own() {
    let state = parse("theme = \"paper\"\n[targets]\nnvim = \"nord\"\n").unwrap();
    assert_eq!(state.theme_for(&name("nvim")), &id("nord"));
    assert_eq!(targets(&state), vec![("nvim".to_owned(), "nord".to_owned())]);
}

#[test]
fn leaves_targets_empty_when_the_file_names_none() {
    assert!(parse("theme = \"paper\"\n").unwrap().targets().is_empty());
}

#[test]
fn records_a_target_that_diverges_from_the_theme() {
    let mut state = State::new(id("paper"));
    state.record(name("nvim"), id("nord"));
    assert_eq!(state.targets().len(), 1);
}

#[test]
fn drops_a_target_brought_back_to_the_theme() {
    let mut state = State::new(id("paper"));
    let nvim = name("nvim");
    state.record(nvim.clone(), id("nord"));
    state.record(nvim, id("paper"));
    assert!(state.targets().is_empty());
}

#[test]
fn reads_back_the_targets_it_writes() {
    let mut state = State::new(id("paper"));
    state.record(name("nvim"), id("nord"));
    assert!(same(&parse(&state.to_toml()).unwrap(), &state));
}

#[test]
fn reports_a_target_name_that_is_not_an_identifier() {
    let source = "theme = \"paper\"\n[targets]\n\"Nvim Editor\" = \"nord\"\n";
    assert!(matches!(parse(source), Err(StateError::Target { .. })));
}

#[test]
fn reports_a_target_theme_that_is_not_an_identifier() {
    let source = "theme = \"paper\"\n[targets]\nnvim = \"Nord\"\n";
    assert!(matches!(parse(source), Err(StateError::Id { .. })));
}

#[test]
fn answers_the_applied_theme_for_a_target_not_recorded() {
    let mut state = State::new(id("paper"));
    state.record(name("nvim"), id("nord"));
    assert_eq!(state.theme_for(&name("bat")), &id("paper"));
    assert_eq!(state.theme_for(&name("nvim")), &id("nord"));
}

#[test]
fn keeps_other_targets_when_one_is_recorded() {
    let mut state = State::new(id("paper"));
    state.record(name("nvim"), id("nord"));
    state.record(name("bat"), id("ink"));
    assert_eq!(
        targets(&state),
        vec![("bat".to_owned(), "ink".to_owned()), ("nvim".to_owned(), "nord".to_owned())]
    );
}
