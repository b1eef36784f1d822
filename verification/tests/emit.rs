use vanadis::config::TargetName;
use vanadis::init::emit::{merged, target, theme, EmitError};
use vanadis::init::naming::display_name;
use vanadis::path_map::PathMap;
use vanadis::theme::{ThemeId, Variant};
use vanadis::token::TokenPath;

fn written(pairs: &[(&str, &str)]) -> String {
    let mut tokens = PathMap::new();
    for (path, value) in pairs {
        tokens.insert(TokenPath::parse(path).unwrap(), (*value).to_owned());
    }
    let id = ThemeId::parse("papercolor-light").unwrap();
    theme(&display_name(&id), Variant::Light, &tokens)
}

#[test]
fn writes_the_metadata_a_theme_needs_to_load() {
    assert_eq!(written(&[]), "[meta]\nformat = 1\nname = \"Papercolor Light\"\nvariant = \"light\"\n");
}

#[test]
fn writes_a_token_under_its_own_table() {
    let file = written(&[("role.bg", "#eeeeee")]);
    assert!(file.ends_with("\n[role]\nbg = \"#eeeeee\"\n"), "{file}");
}

#[test]
fn writes_each_table_once() {
    let file = written(&[("role.bg", "#eeeeee"), ("role.fg", "#444444")]);
    assert_eq!(file.matches("[role]").count(), 1);
}

#[test]
fn writes_the_ansi_slots_in_numeric_order() {
    let file = written(&[("ansi.10", "#eeeeee"), ("ansi.2", "#444444")]);
    assert!(file.contains("2 = \"#444444\"\n10 = \"#eeeeee\""), "{file}");
}

#[test]
fn writes_a_nested_namespace_as_one_table() {
    let file = written(&[("role.git.added", "#008700")]);
    assert!(file.contains("[role.git]\nadded = \"#008700\""), "{file}");
}

#[test]
fn writes_meta_before_every_other_table() {
    let file = written(&[("colors.a", "#000000"), ("meta.author", "me")]);
    let meta = file.find("author = \"me\"").unwrap();
    let colors = file.find("[colors]").unwrap();
    assert!(meta < colors, "{file}");
}

#[test]
fn appends_a_target_to_a_config_that_has_one() {
    let source = "[[targets]]\nname = \"btop\"\ntemplate = \"a.in\"\noutput = \"a\"\n";
    let config = target(
        source,
        &TargetName::parse("nvim").unwrap(),
        "templates/nvim/palette.lua.in",
        "~/.config/nvim/lua/palette.lua",
    );
    assert_eq!(
        config,
        format!(
            "{source}\n[[targets]]\nname = \"nvim\"\ntemplate = \"templates/nvim/palette.lua.in\"\noutput = \"~/.config/nvim/lua/palette.lua\"\n"
        )
    );
}

#[test]
fn writes_the_first_target_of_a_config_that_did_not_exist() {
    let config = target(
        "",
        &TargetName::parse("nvim").unwrap(),
        "templates/nvim/palette.lua.in",
        "~/.config/nvim/lua/palette.lua",
    );
    assert!(config.starts_with("[[targets]]\n"), "{config}");
}

#[test]
fn keeps_the_auto_table_a_config_already_had() {
    let source = "[auto]\nlight = \"paper\"\ndark = \"ink\"\n";
    let config = target(source, &TargetName::parse("nvim").unwrap(), "a.in", "a");
    assert!(config.starts_with(source), "{config}");
}

#[test]
fn quotes_a_path_with_a_quote_in_it_so_it_reads_back() {
    let config = target("", &TargetName::parse("nvim").unwrap(), "a.in", "a\"b");
    let document = config.parse::<toml_edit::DocumentMut>().unwrap();
    assert_eq!(document["targets"][0]["output"].as_str(), Some("a\"b"), "{config}");
}

#[test]
fn separates_a_target_from_a_config_without_a_final_newline() {
    let config = target("[auto]", &TargetName::parse("nvim").unwrap(), "a.in", "a");
    assert!(config.starts_with("[auto]\n\n[[targets]]\n"), "{config}");
}

#[test]
fn says_why_a_token_cannot_be_added() {
    let path = vanadis::token::TokenPath::parse("role.bg").unwrap();
    assert_eq!(vanadis::init::emit::EmitError::Occupied { path: path.clone() }.message(), "the theme already writes `role.bg`");
    assert_eq!(
        vanadis::init::emit::EmitError::Blocked { path, at: "role".to_owned() }.message(),
        "`role.bg` cannot be written: `role` is not a table"
    );
}

fn tokens(pairs: &[(&str, &str)]) -> PathMap<String> {
    let mut tokens = PathMap::new();
    for (path, value) in pairs {
        tokens.insert(TokenPath::parse(path).unwrap(), (*value).to_owned());
    }
    tokens
}

#[test]
fn adds_a_token_to_a_theme_that_already_exists() {
    let source = "[meta]\nformat = 1\nname = \"Paper\"\nvariant = \"light\"\n\n[role]\nbg = \"#eeeeee\"\n";
    let merged = merged(source, &tokens(&[("role.fg", "#444444")])).unwrap();
    assert!(merged.contains("bg = \"#eeeeee\""), "{merged}");
    assert!(merged.contains("fg = \"#444444\""), "{merged}");
}

#[test]
fn keeps_a_comment_the_theme_already_had() {
    let source = "# hand written\n[meta]\nformat = 1\nname = \"Paper\"\nvariant = \"light\"\n";
    let merged = merged(source, &tokens(&[("role.fg", "#444444")])).unwrap();
    assert!(merged.starts_with("# hand written\n"), "{merged}");
}

#[test]
fn opens_a_table_the_theme_does_not_have_yet() {
    let source = "[meta]\nformat = 1\nname = \"Paper\"\nvariant = \"light\"\n";
    let merged = merged(source, &tokens(&[("colors.paper", "#eeeeee")])).unwrap();
    assert!(merged.contains("[colors]"), "{merged}");
}

#[test]
fn refuses_to_overwrite_a_key_the_theme_already_writes() {
    let source = "[meta]\nformat = 1\nname = \"Paper\"\nvariant = \"light\"\n[role]\nbg = \"#eeeeee\"\n";
    assert!(matches!(
        merged(source, &tokens(&[("role.bg", "#444444")])),
        Err(EmitError::Occupied { ref path }) if path.as_str() == "role.bg"
    ));
}

#[test]
fn reports_a_key_that_is_not_a_table_on_the_way_to_a_token() {
    let source = "role = 1\n[meta]\nformat = 1\nname = \"Paper\"\nvariant = \"light\"\n";
    assert!(matches!(merged(source, &tokens(&[("role.bg", "#eeeeee")])), Err(EmitError::Blocked { .. })));
}

#[test]
fn adds_several_tokens_under_one_new_table() {
    let source = "[meta]\nformat = 1\nname = \"Paper\"\nvariant = \"light\"\n";
    let merged = merged(source, &tokens(&[("role.bg", "#eeeeee"), ("role.fg", "#444444")])).unwrap();
    assert_eq!(merged.matches("[role]").count(), 1, "{merged}");
    assert!(merged.contains("fg = \"#444444\""), "{merged}");
}

#[test]
fn keeps_a_text_that_is_not_toml_as_it_is() {
    let source = "[meta\n";
    assert_eq!(merged(source, &tokens(&[("role.bg", "#eeeeee")])).unwrap(), source);
}
