use vanadis::apply::{advance, pin, render, select, ApplyError};
use vanadis::catalog::Catalog;
use vanadis::check::{check, CheckError, FileRead, Finding, Reads};
use vanadis::config::{Config, TargetName};
use vanadis::state::State;
use vanadis::theme::{Theme, ThemeId, Variant};

const CONFIG: &str = "[[targets]]\nname = \"bat\"\ntemplate = \"t.in\"\noutput = \"o\"\n\n[[targets]]\nname = \"nvim\"\ntemplate = \"n.in\"\noutput = \"n\"\nthemes = { dark = \"ink\" }\n";

fn config() -> Config {
    Config::parse("/cfg/config.toml", CONFIG, "/cfg", Some("/home/ada")).unwrap()
}

fn theme(id: &str, variant: &str, bg: &str) -> Theme {
    let source = format!("[meta]\nformat = 1\nname = \"{id}\"\nvariant = \"{variant}\"\n[role]\nbg = \"{bg}\"\n");
    Theme::parse(&format!("themes/{id}.toml"), &source).unwrap()
}

fn catalog() -> Catalog {
    Catalog::new(vec![theme("ink", "dark", "#000000"), theme("paper", "light", "#eeeeee")], Vec::new())
}

fn id(text: &str) -> ThemeId {
    ThemeId::parse(text).unwrap()
}

fn name(text: &str) -> TargetName {
    TargetName::parse(text).unwrap()
}

#[test]
fn selects_every_target_when_none_is_named() {
    assert_eq!(select(&config(), &[]).unwrap(), vec![0, 1]);
}

#[test]
fn selects_the_named_targets_once_each_in_the_order_named() {
    assert_eq!(select(&config(), &[name("nvim"), name("bat"), name("nvim")]).unwrap(), vec![1, 0]);
}

#[test]
fn reports_the_first_name_the_config_does_not_have() {
    assert_eq!(select(&config(), &[name("bat"), name("fish")]).unwrap_err().as_str(), "fish");
}

#[test]
fn takes_the_theme_a_target_pins_for_the_mode() {
    let config = config();
    assert_eq!(pin(&config.targets()[1], &id("paper"), Variant::Dark).unwrap(), id("ink"));
    assert_eq!(pin(&config.targets()[0], &id("paper"), Variant::Dark).unwrap(), id("paper"));
}

#[test]
fn reports_a_target_that_pins_no_theme_for_the_mode() {
    let config = config();
    assert!(matches!(
        pin(&config.targets()[1], &id("paper"), Variant::Light),
        Err(ApplyError::NoTheme { variant: Variant::Light, .. })
    ));
}

#[test]
fn replaces_the_state_on_a_whole_apply() {
    let mut before = State::new(id("paper"));
    before.record(name("nvim"), id("ink"));
    let after = advance(Some(before), &id("ink"), &vec![name("bat")], true).unwrap();
    assert_eq!(after.theme(), &id("ink"));
    assert!(after.targets().is_empty());
}

#[test]
fn moves_only_the_named_targets_on_a_partial_apply() {
    let before = State::new(id("paper"));
    let after = advance(Some(before), &id("ink"), &vec![name("nvim")], false).unwrap();
    assert_eq!(after.theme_for(&name("nvim")), &id("ink"));
    assert_eq!(after.theme_for(&name("bat")), &id("paper"));
}

#[test]
fn refuses_a_partial_apply_before_any_whole_one() {
    assert!(matches!(advance(None, &id("ink"), &vec![name("nvim")], false), Err(ApplyError::NoWholeApply)));
}

#[test]
fn renders_a_target_against_the_theme() {
    let config = config();
    let rendered = render(&catalog(), &config.targets()[0], &id("paper"), "bg={{role.bg}}\n").unwrap();
    assert_eq!(rendered.contents(), "bg=#eeeeee\n");
    assert_eq!(rendered.output(), "/cfg/o");
}

#[test]
fn reports_a_theme_the_catalogue_does_not_hold() {
    let config = config();
    let error = render(&catalog(), &config.targets()[0], &id("nord"), "bg={{role.bg}}\n").unwrap_err();
    assert_eq!(error.message(), "themes/ holds no theme named `nord`");
}

#[test]
fn finds_a_theme_by_its_identifier() {
    assert_eq!(catalog().get(&id("ink")).unwrap().variant(), Variant::Dark);
    assert!(catalog().get(&id("nord")).is_none());
}

fn reads(files: &[(&str, Option<&str>)]) -> Reads {
    Reads::new(
        files
            .iter()
            .map(|(path, text)| {
                let read = match text {
                    Some(text) => FileRead::Text((*text).to_owned()),
                    None => FileRead::Absent("not found".to_owned()),
                };
                ((*path).to_owned(), read)
            })
            .collect(),
    )
}

#[test]
fn finds_nothing_wrong_with_an_output_that_matches() {
    let files = reads(&[("/cfg/t.in", Some("bg={{role.bg}}\n")), ("/cfg/o", Some("bg=#eeeeee\n"))]);
    let report = check(&config(), &catalog(), Some(&id("paper")), None, &[name("bat")], &files).unwrap();
    assert_eq!(report.checked(), 1);
    assert!(report.findings().is_empty());
}

#[test]
fn reports_an_output_that_has_drifted() {
    let files = reads(&[("/cfg/t.in", Some("bg={{role.bg}}\n")), ("/cfg/o", Some("bg=#000000\n"))]);
    let report = check(&config(), &catalog(), Some(&id("paper")), None, &[name("bat")], &files).unwrap();
    assert!(matches!(report.findings()[0], Finding::Drift { .. }));
}

#[test]
fn reports_an_output_that_is_not_there() {
    let files = reads(&[("/cfg/t.in", Some("bg={{role.bg}}\n")), ("/cfg/o", None)]);
    let report = check(&config(), &catalog(), Some(&id("paper")), None, &[name("bat")], &files).unwrap();
    assert!(matches!(report.findings()[0], Finding::Missing { .. }));
}

#[test]
fn reports_a_template_that_cannot_be_read_as_a_target_that_does_not_render() {
    let files = reads(&[("/cfg/o", Some("bg=#eeeeee\n"))]);
    let report = check(&config(), &catalog(), Some(&id("paper")), None, &[name("bat")], &files).unwrap();
    assert!(matches!(report.findings()[0], Finding::Unrenderable { source: ApplyError::Template { .. }, .. }));
}

#[test]
fn checks_against_what_the_state_records_when_no_theme_is_named() {
    let mut state = State::new(id("paper"));
    state.record(name("bat"), id("ink"));
    let files = reads(&[("/cfg/t.in", Some("bg={{role.bg}}\n")), ("/cfg/o", Some("bg=#000000\n"))]);
    let report = check(&config(), &catalog(), None, Some(&state), &[name("bat")], &files).unwrap();
    assert!(report.findings().is_empty());
}

#[test]
fn refuses_to_check_when_nothing_names_a_theme() {
    assert!(matches!(check(&config(), &catalog(), None, None, &[], &reads(&[])), Err(CheckError::Unapplied)));
}

#[test]
fn refuses_to_check_a_target_the_config_does_not_have() {
    assert!(matches!(
        check(&config(), &catalog(), Some(&id("paper")), None, &[name("fish")], &reads(&[])),
        Err(CheckError::UnknownTarget { .. })
    ));
}

fn template_reads() -> Reads {
    let config = config();
    let targets = config.targets();
    Reads::new(vec![
        (targets[0].template().to_owned(), FileRead::Text("bg={{role.bg}}\n".to_owned())),
        (targets[1].template().to_owned(), FileRead::Text("let bg = '{{role.bg}}'\n".to_owned())),
    ])
}

#[test]
fn plans_every_target_of_a_whole_apply_on_its_own_theme() {
    let plan = vanadis::apply::plan(&config(), &catalog(), &id("ink"), &[], None, &template_reads()).unwrap();
    let contents: Vec<&str> = plan.renders().iter().map(|r| r.contents()).collect();
    assert_eq!(contents, vec!["bg=#000000\n", "let bg = '#000000'\n"]);
    assert_eq!(plan.state().theme(), &id("ink"));
    assert!(plan.state().targets().is_empty());
    assert_eq!(plan.chosen(), &vec![0, 1]);
}

#[test]
fn stops_at_a_target_that_pins_no_theme_for_the_mode() {
    let plan = vanadis::apply::plan(&config(), &catalog(), &id("paper"), &[], None, &template_reads());
    assert!(matches!(plan, Err(ApplyError::NoTheme { variant: Variant::Light, .. })));
}

#[test]
fn plans_only_the_named_targets_and_moves_them_in_the_state() {
    let previous = State::new(id("ink"));
    let plan =
        vanadis::apply::plan(&config(), &catalog(), &id("paper"), &[name("bat")], Some(previous), &template_reads())
            .unwrap();
    assert_eq!(plan.renders().len(), 1);
    assert_eq!(plan.renders()[0].contents(), "bg=#eeeeee\n");
    assert_eq!(plan.state().theme(), &id("ink"));
    assert_eq!(plan.state().theme_for(&name("bat")), &id("paper"));
    assert_eq!(plan.chosen(), &vec![0]);
}

#[test]
fn plans_no_partial_apply_before_a_whole_one() {
    let plan = vanadis::apply::plan(&config(), &catalog(), &id("paper"), &[name("bat")], None, &template_reads());
    assert!(matches!(plan, Err(ApplyError::NoWholeApply)));
}

#[test]
fn plans_nothing_for_a_theme_the_catalogue_does_not_hold() {
    let plan = vanadis::apply::plan(&config(), &catalog(), &id("nord"), &[], None, &template_reads());
    assert!(matches!(plan, Err(ApplyError::UnknownTheme { ref theme }) if theme.as_str() == "nord"));
}

#[test]
fn plans_nothing_when_a_template_cannot_be_read() {
    let config = config();
    let reads = Reads::new(vec![(config.targets()[0].template().to_owned(), FileRead::Failed("denied".to_owned()))]);
    let plan = vanadis::apply::plan(&config, &catalog(), &id("ink"), &[], None, &reads);
    assert!(matches!(plan, Err(ApplyError::Template { ref message, .. }) if message == "denied"));
}

#[test]
fn says_why_a_check_cannot_run() {
    assert_eq!(CheckError::Unapplied.message(), "no theme has been applied yet, so name a theme");
    assert_eq!(
        CheckError::UnknownTarget { name: name("fish") }.message(),
        "config.toml has no target named `fish`"
    );
}
