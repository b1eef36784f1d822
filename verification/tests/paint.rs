use vanadis::paint::Paint;

fn on() -> Paint {
    Paint::wanted(true, None, Some("xterm-256color"), Some("truecolor"))
}

fn off() -> Paint {
    Paint::wanted(false, None, Some("xterm-256color"), Some("truecolor"))
}

#[test]
fn paints_on_a_terminal_that_says_truecolor() {
    assert!(on().on());
}

#[test]
fn paints_on_a_terminal_that_says_24bit() {
    assert!(Paint::wanted(true, None, Some("xterm-256color"), Some("24bit")).on());
}

#[test]
fn does_not_paint_off_a_terminal() {
    assert!(!off().on());
}

#[test]
fn does_not_paint_when_no_color_is_set() {
    assert!(!Paint::wanted(true, Some("1"), Some("xterm-256color"), Some("truecolor")).on());
}

#[test]
fn paints_when_no_color_is_set_to_nothing() {
    assert!(Paint::wanted(true, Some(""), Some("xterm-256color"), Some("truecolor")).on());
}

#[test]
fn does_not_paint_on_a_dumb_terminal() {
    assert!(!Paint::wanted(true, None, Some("dumb"), Some("truecolor")).on());
}

#[test]
fn does_not_paint_when_the_terminal_does_not_say_truecolor() {
    assert!(!Paint::wanted(true, None, Some("xterm-256color"), None).on());
    assert!(!Paint::wanted(true, None, Some("xterm-256color"), Some("8bit")).on());
}

#[test]
fn writes_the_three_channels_of_the_value() {
    assert_eq!(on().swatch("#1d2021"), "\x1b[48;2;29;32;33m  \x1b[0m ");
}

#[test]
fn writes_nothing_for_a_value_that_is_not_a_hex_literal() {
    assert_eq!(on().swatch("bold red"), "");
}

#[test]
fn writes_nothing_at_all_when_painting_is_off() {
    assert_eq!(off().swatch("#1d2021"), "");
    assert_eq!(off().strip(&[Some("#1d2021")]), "");
}

#[test]
fn runs_the_blocks_of_a_strip_together() {
    assert_eq!(
        on().strip(&[Some("#000000"), Some("#ffffff")]),
        "\x1b[48;2;0;0;0m  \x1b[0m\x1b[48;2;255;255;255m  \x1b[0m  "
    );
}

#[test]
fn pads_a_slot_the_theme_does_not_define() {
    assert_eq!(
        on().strip(&[None, Some("#ffffff")]),
        "  \x1b[48;2;255;255;255m  \x1b[0m  "
    );
}

#[test]
fn pads_a_slot_whose_value_is_not_a_hex_literal() {
    assert_eq!(on().strip(&[Some("bold red")]), "    ");
}

#[test]
fn paints_when_term_is_unset() {
    assert!(Paint::wanted(true, None, None, Some("truecolor")).on());
}

#[test]
fn pads_an_empty_strip_with_its_trailing_gap() {
    assert_eq!(on().strip(&[]), "  ");
}
