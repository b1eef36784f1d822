use vanadis::init::naming::display_name;
use vanadis::theme::ThemeId;

fn display(id: &str) -> String {
    display_name(&ThemeId::parse(id).unwrap())
}

#[test]
fn capitalises_each_word_of_a_display_name() {
    assert_eq!(display("papercolor-light"), "Papercolor Light");
}

#[test]
fn leaves_a_one_word_display_name_as_one_word() {
    assert_eq!(display("nord"), "Nord");
}

#[test]
fn keeps_a_digit_in_a_display_name() {
    assert_eq!(display("base16-ocean"), "Base16 Ocean");
}

fn suggested(output: &str) -> Option<String> {
    vanadis::init::naming::suggest(output).map(|name| name.as_str().to_owned())
}

#[test]
fn names_a_target_after_the_directory_under_dot_config() {
    assert_eq!(suggested("/home/ada/.config/nvim/lua/palette.lua"), Some("nvim".to_owned()));
}

#[test]
fn names_a_target_after_a_file_sitting_in_dot_config() {
    assert_eq!(suggested("/home/ada/.config/starship.toml"), Some("starship".to_owned()));
}

#[test]
fn names_a_target_after_the_tool_rather_than_the_file() {
    assert_eq!(suggested("/home/ada/.config/btop/themes/coloris.theme"), Some("btop".to_owned()));
}

#[test]
fn falls_back_to_the_file_when_there_is_no_dot_config() {
    assert_eq!(suggested("/srv/palette.lua"), Some("palette".to_owned()));
}

#[test]
fn runs_what_is_not_a_segment_together_into_hyphens() {
    assert_eq!(suggested("/srv/PaperColor Light.conf"), Some("papercolor-light".to_owned()));
}

#[test]
fn suggests_nothing_for_a_name_with_no_segment_in_it() {
    assert_eq!(suggested("/srv/---"), None);
}

#[test]
fn suggests_nothing_for_a_path_that_ends_in_dot_dot() {
    assert_eq!(suggested("/srv/.."), None);
}
