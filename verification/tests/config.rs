use vanadis::config::{Config, ConfigError, Cycle, Problem, Shell, Target};
use vanadis::theme::{ThemeId, Variant};

const TARGET: &str = "[[targets]]\nname = \"bat\"\ntemplate = \"t.in\"\noutput = \"o\"\n";

fn parse(source: &str) -> Result<Config, ConfigError> {
    Config::parse("/cfg/config.toml", source, "/cfg", Some("/home/ada"))
}

fn problems(source: &str) -> Vec<Problem> {
    match parse(source) {
        Err(ConfigError::Invalid { problems, .. }) => problems,
        other => panic!("expected problems, got {other:?}"),
    }
}

fn with_target<R>(source: &str, read: impl FnOnce(&Target) -> R) -> R {
    let config = parse(source).unwrap();
    read(&config.targets()[0])
}

fn theme(text: &str) -> ThemeId {
    ThemeId::parse(text).unwrap()
}

#[test]
fn reads_a_target_name() {
    assert_eq!(with_target(TARGET, |t| t.name().as_str().to_owned()), "bat");
}

#[test]
fn resolves_a_relative_path_against_the_config_directory() {
    assert_eq!(with_target(TARGET, |t| t.template().to_owned()), "/cfg/t.in");
}

#[test]
fn expands_a_leading_tilde_to_the_home_directory() {
    let source = "[[targets]]\nname = \"bat\"\ntemplate = \"t.in\"\noutput = \"~/.config/o\"\n";
    assert_eq!(with_target(source, |t| t.output().to_owned()), "/home/ada/.config/o");
}

#[test]
fn keeps_an_absolute_path() {
    let source = "[[targets]]\nname = \"bat\"\ntemplate = \"/t.in\"\noutput = \"o\"\n";
    assert_eq!(with_target(source, |t| t.template().to_owned()), "/t.in");
}

#[test]
fn reads_reload_as_an_argument_vector() {
    let source = format!("{TARGET}reload = [\"bat\", \"cache\", \"--build\"]\n");
    assert_eq!(with_target(&source, |t| t.reload().clone()), ["bat", "cache", "--build"]);
}

#[test]
fn leaves_reload_empty_when_a_target_has_none() {
    assert!(with_target(TARGET, |t| t.reload().is_empty()));
}

#[test]
fn reads_the_shell_whose_hook_sources_a_target() {
    let source = format!("{TARGET}shell = \"fish\"\n");
    assert_eq!(with_target(&source, |t| t.shell()), Some(Shell::Fish));
}

#[test]
fn leaves_a_target_no_shell_sources_unmarked() {
    assert_eq!(with_target(TARGET, |t| t.shell()), None);
}

#[test]
fn reports_a_shell_hook_does_not_emit_for() {
    let source = format!("{TARGET}shell = \"nu\"\n");
    assert_eq!(problems(&source), vec![Problem::Shell { value: "nu".to_owned(), line: 5 }]);
}

#[test]
fn reads_the_per_target_theme_override() {
    let source =
        format!("{TARGET}themes = {{ light = \"gruvbox-light\", dark = \"gruvbox-dark\" }}\n");
    let dark = with_target(&source, |t| t.themes().unwrap().theme(Variant::Dark).cloned());
    assert_eq!(dark, Some(theme("gruvbox-dark")));
}

#[test]
fn leaves_a_target_without_an_override_unpinned() {
    assert!(with_target(TARGET, |t| t.themes().is_none()));
}

#[test]
fn reads_the_auto_table() {
    let source = format!("[auto]\nlight = \"paper\"\ndark = \"ink\"\n{TARGET}");
    let config = parse(&source).unwrap();
    assert_eq!(config.auto().unwrap().theme(Variant::Light), &theme("paper"));
    assert_eq!(config.auto().unwrap().theme(Variant::Dark), &theme("ink"));
}

#[test]
fn allows_a_config_with_no_auto_table() {
    assert!(parse(TARGET).unwrap().auto().is_none());
}

#[test]
fn reports_a_target_with_no_output() {
    let source = "[[targets]]\nname = \"bat\"\ntemplate = \"t.in\"\n";
    assert_eq!(
        problems(source),
        vec![Problem::Missing { key: "targets.output".to_owned(), line: 1 }]
    );
}

#[test]
fn reports_every_key_a_target_is_missing() {
    assert_eq!(problems("[[targets]]\nname = \"bat\"\n").len(), 2);
}

#[test]
fn rejects_a_key_the_format_does_not_define() {
    let source = format!("{TARGET}enabled = false\n");
    assert_eq!(
        problems(&source),
        vec![Problem::Unknown { key: "targets.enabled".to_owned(), line: 5 }]
    );
}

#[test]
fn rejects_a_target_name_that_is_not_an_identifier() {
    let source = "[[targets]]\nname = \"Bat Theme\"\ntemplate = \"t.in\"\noutput = \"o\"\n";
    assert_eq!(
        problems(source),
        vec![Problem::Name { name: "Bat Theme".to_owned(), line: 2 }]
    );
}

#[test]
fn rejects_two_targets_sharing_a_name() {
    let source = format!("{TARGET}{TARGET}");
    assert_eq!(
        problems(&source),
        vec![Problem::Duplicate { name: "bat".to_owned(), line: 6 }]
    );
}

#[test]
fn rejects_an_auto_table_missing_a_mode() {
    let source = format!("[auto]\nlight = \"paper\"\n{TARGET}");
    assert_eq!(
        problems(&source),
        vec![Problem::Missing { key: "auto.dark".to_owned(), line: 1 }]
    );
}

#[test]
fn rejects_a_theme_name_that_is_not_an_identifier() {
    let source = format!("[auto]\nlight = \"Paper\"\ndark = \"ink\"\n{TARGET}");
    assert_eq!(
        problems(&source),
        vec![Problem::Theme {
            key: "auto.light".to_owned(),
            line: 2,
            value: "Paper".to_owned(),
        }]
    );
}

#[test]
fn config_rejects_a_value_that_is_not_a_string() {
    let source = "[[targets]]\nname = \"bat\"\ntemplate = 1\noutput = \"o\"\n";
    assert_eq!(
        problems(source),
        vec![Problem::Type {
            key: "targets.template".to_owned(),
            line: 3,
            found: "integer".to_owned(),
        }]
    );
}

#[test]
fn rejects_a_reload_entry_that_is_not_a_string() {
    let source = format!("{TARGET}reload = [1]\n");
    assert_eq!(
        problems(&source),
        vec![Problem::Type {
            key: "targets.reload".to_owned(),
            line: 5,
            found: "integer".to_owned(),
        }]
    );
}

#[test]
fn reports_a_tilde_it_cannot_expand() {
    let source = "[[targets]]\nname = \"bat\"\ntemplate = \"~/t.in\"\noutput = \"o\"\n";
    let error = Config::parse("/cfg/config.toml", source, "/cfg", None);
    assert!(
        matches!(&error, Err(ConfigError::Invalid { problems, .. })
            if problems == &[Problem::Home { key: "targets.template".to_owned(), line: 3 }]),
        "{error:?}"
    );
}

#[test]
fn config_reports_every_problem_in_one_pass() {
    let source = "[[targets]]\nname = \"Bat\"\ntemplate = 1\n";
    assert_eq!(problems(source).len(), 3);
}

#[test]
fn config_reports_problems_in_source_order() {
    let source = "[[targets]]\nname = \"Bat\"\ntemplate = 1\n";
    let lines: Vec<usize> = problems(source).iter().map(Problem::line).collect();
    assert_eq!(lines, vec![1, 2, 3]);
}

#[test]
fn reports_a_config_that_is_not_toml() {
    assert!(matches!(parse("[[targets]\n"), Err(ConfigError::Syntax { .. })));
}

const CYCLE: &str = "[cycle]\nthemes = [\"papercolor-light\", \"nord\", \"gruvbox-dark\"]\n";

fn with_cycle<R>(source: &str, read: impl FnOnce(&Cycle) -> R) -> R {
    let config = parse(&format!("{source}{TARGET}")).unwrap();
    read(config.cycle().unwrap())
}

#[test]
fn reads_no_cycle_from_a_file_that_writes_none() {
    assert!(parse(TARGET).unwrap().cycle().is_none());
}

#[test]
fn steps_to_the_theme_after_the_one_in_use() {
    assert_eq!(with_cycle(CYCLE, |c| c.next(Some(&theme("nord")))), theme("gruvbox-dark"));
}

#[test]
fn wraps_from_the_last_theme_to_the_first() {
    assert_eq!(
        with_cycle(CYCLE, |c| c.next(Some(&theme("gruvbox-dark")))),
        theme("papercolor-light")
    );
}

#[test]
fn starts_at_the_first_theme_when_nothing_is_applied() {
    assert_eq!(with_cycle(CYCLE, |c| c.next(None)), theme("papercolor-light"));
}

#[test]
fn starts_at_the_first_theme_when_the_cycle_does_not_name_the_one_in_use() {
    assert_eq!(
        with_cycle(CYCLE, |c| c.next(Some(&theme("solarized")))),
        theme("papercolor-light")
    );
}

#[test]
fn steps_through_a_cycle_of_two() {
    with_cycle("[cycle]\nthemes = [\"a\", \"b\"]\n", |cycle| {
        assert_eq!(cycle.next(Some(&theme("a"))), theme("b"));
        assert_eq!(cycle.next(Some(&theme("b"))), theme("a"));
    });
}

#[test]
fn lists_the_themes_of_a_cycle_in_order() {
    let themes = with_cycle(CYCLE, |c| {
        c.themes().iter().map(|t| t.as_str().to_owned()).collect::<Vec<_>>()
    });
    assert_eq!(themes, vec!["papercolor-light", "nord", "gruvbox-dark"]);
}

#[test]
fn reports_a_theme_the_cycle_writes_twice() {
    let problems = problems(&format!("[cycle]\nthemes = [\"a\", \"b\", \"a\"]\n{TARGET}"));
    assert!(
        problems
            .iter()
            .any(|problem| matches!(problem, Problem::Repeated { theme, .. } if theme == "a")),
        "{problems:?}"
    );
}

#[test]
fn reports_a_cycle_of_one_theme() {
    let problems = problems(&format!("[cycle]\nthemes = [\"a\"]\n{TARGET}"));
    assert!(
        problems.iter().any(|problem| matches!(problem, Problem::Short { .. })),
        "{problems:?}"
    );
}

#[test]
fn reports_a_cycle_of_no_themes() {
    let problems = problems(&format!("[cycle]\nthemes = []\n{TARGET}"));
    assert!(
        problems.iter().any(|problem| matches!(problem, Problem::Short { .. })),
        "{problems:?}"
    );
}

#[test]
fn reports_only_the_entry_that_is_not_a_theme_identifier() {
    let problems = problems(&format!("[cycle]\nthemes = [\"a\", \"Not An Id\"]\n{TARGET}"));
    assert!(
        problems.iter().any(
            |problem| matches!(problem, Problem::Theme { value, .. } if value == "Not An Id")
        ),
        "{problems:?}"
    );
    assert!(
        !problems.iter().any(|problem| matches!(problem, Problem::Short { .. })),
        "{problems:?}"
    );
}

#[test]
fn reports_an_entry_that_is_not_a_string() {
    let problems = problems(&format!("[cycle]\nthemes = [\"a\", 3]\n{TARGET}"));
    assert!(
        problems.iter().any(
            |problem| matches!(problem, Problem::Type { key, .. } if key == "cycle.themes")
        ),
        "{problems:?}"
    );
}

#[test]
fn reports_a_cycle_that_writes_no_themes_key() {
    let problems = problems(&format!("[cycle]\n{TARGET}"));
    assert!(
        problems.iter().any(
            |problem| matches!(problem, Problem::Missing { key, .. } if key == "cycle.themes")
        ),
        "{problems:?}"
    );
}

#[test]
fn reports_a_key_the_cycle_table_does_not_have() {
    let problems = problems(&format!("[cycle]\nthemes = [\"a\", \"b\"]\nstep = 2\n{TARGET}"));
    assert!(
        problems.iter().any(
            |problem| matches!(problem, Problem::Unknown { key, .. } if key == "cycle.step")
        ),
        "{problems:?}"
    );
}
