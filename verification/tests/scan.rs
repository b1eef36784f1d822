use vanadis::init::scan::{found, scan, Found};

fn values(source: &str) -> Vec<String> {
    scan(source)
        .colours()
        .iter()
        .map(|colour| colour.value().to_owned())
        .collect()
}

fn counts(source: &str) -> Vec<(String, usize)> {
    scan(source)
        .colours()
        .iter()
        .map(|colour| (colour.value().to_owned(), colour.occurrences().len()))
        .collect()
}

fn reported(source: &str) -> Vec<String> {
    scan(source)
        .unhandled()
        .iter()
        .map(|unhandled| unhandled.message())
        .collect()
}

fn why(source: &str) -> Vec<&'static str> {
    scan(source).unhandled().iter().map(|unhandled| unhandled.why()).collect()
}

fn covered(source: &str, range: (usize, usize)) -> String {
    source.chars().skip(range.0).take(range.1 - range.0).collect()
}

#[test]
fn finds_a_lowercase_six_digit_literal() {
    assert_eq!(values("bg = \"#eeeeee\""), vec!["#eeeeee"]);
}

#[test]
fn groups_a_value_written_more_than_once() {
    assert_eq!(
        counts("a = \"#eeeeee\"\nb = \"#444444\"\nc = \"#eeeeee\""),
        vec![("#eeeeee".to_owned(), 2), ("#444444".to_owned(), 1)]
    );
}

#[test]
fn keeps_values_in_the_order_they_first_appear() {
    assert_eq!(values("#444444 #eeeeee #444444"), vec!["#444444", "#eeeeee"]);
}

#[test]
fn records_the_line_each_occurrence_is_on() {
    let scan = scan("a\n\nbg = \"#eeeeee\"");
    assert_eq!(scan.colours()[0].occurrences()[0].line(), 3);
}

#[test]
fn records_the_line_after_a_multibyte_line() {
    let scan = scan("# 配色\nbg = \"#eeeeee\"");
    assert_eq!(scan.colours()[0].occurrences()[0].line(), 2);
}

#[test]
fn finds_a_literal_after_multibyte_text_on_the_same_line() {
    assert_eq!(values("端末の色 (#444444) で暗く出る"), vec!["#444444"]);
}

#[test]
fn shows_the_line_an_occurrence_sits_on() {
    let source = "x\nmuted = \"#878787\"  # comment\ny";
    let scan = scan(source);
    assert_eq!(
        scan.colours()[0].occurrences()[0].context(source),
        "muted = \"#878787\"  # comment"
    );
}

#[test]
fn covers_exactly_the_literal() {
    let source = "bg = \"#eeeeee\"";
    let scan = scan(source);
    let range = scan.colours()[0].occurrences()[0].range();
    assert_eq!(covered(source, range), "#eeeeee");
}

#[test]
fn covers_exactly_the_literal_after_multibyte_text() {
    let source = "端末 = \"#444444\"";
    let scan = scan(source);
    let range = scan.colours()[0].occurrences()[0].range();
    assert_eq!(covered(source, range), "#444444");
}

#[test]
fn reports_an_uppercase_literal_rather_than_substituting_it() {
    assert_eq!(values("#EEEEEE"), Vec::<String>::new());
    assert_eq!(why("#EEEEEE"), vec!["uppercase hex"]);
}

#[test]
fn reports_a_literal_with_one_uppercase_digit() {
    assert_eq!(why("#eeeeeE"), vec!["uppercase hex"]);
}

#[test]
fn reports_three_digit_shorthand() {
    assert_eq!(why("#eee"), vec!["three-digit hex"]);
}

#[test]
fn reports_eight_digit_hex() {
    assert_eq!(why("#9d550fb0"), vec!["eight-digit hex"]);
}

#[test]
fn reports_an_0x_literal() {
    assert_eq!(why("bg = 0xeeeeee"), vec!["0x literal"]);
}

#[test]
fn reports_an_rgb_call() {
    assert_eq!(
        reported("a = rgb(238, 238, 238)"),
        vec!["line 1: rgb(238, 238, 238) (function notation)"]
    );
}

#[test]
fn reports_rgba_hsl_and_hsla() {
    assert_eq!(why("rgba(1,2,3,4) hsl(1,2,3) hsla(1,2,3,4)").len(), 3);
}

#[test]
fn reports_an_escape_sequence_that_selects_a_colour() {
    assert_eq!(
        reported("\\033[38;5;238m"),
        vec!["line 1: \\033[38;5;238m (ANSI colour)"]
    );
}

#[test]
fn reports_the_short_escape_spelling() {
    assert_eq!(why("\\e[31m"), vec!["ANSI colour"]);
}

#[test]
fn reports_a_literal_escape_byte() {
    assert_eq!(why("\u{1b}[38;2;1;2;3m"), vec!["ANSI colour"]);
}

#[test]
fn passes_over_an_escape_sequence_that_sets_no_colour() {
    assert!(why("\\033[0m\\033[1m").is_empty());
}

#[test]
fn reports_a_bare_colour_selector() {
    assert_eq!(why("di=38;5;33:"), vec!["ANSI colour"]);
}

#[test]
fn reports_an_indexed_colour() {
    assert_eq!(why("fg=colour238"), vec!["indexed colour"]);
}

#[test]
fn reports_the_american_spelling_of_an_indexed_colour() {
    assert_eq!(why("color0"), vec!["indexed colour"]);
}

#[test]
fn passes_over_a_slot_number_above_the_palette() {
    assert!(why("color256").is_empty());
}

#[test]
fn passes_over_the_word_colors() {
    assert!(why("colors.paper").is_empty());
}

#[test]
fn reports_a_quoted_colour_name() {
    assert_eq!(
        reported("style = \"bold red\""),
        vec!["line 1: \"bold red\" (colour name)"]
    );
}

#[test]
fn reports_a_hyphenated_colour_name() {
    assert_eq!(why("\"bright-blue\""), vec!["colour name"]);
}

#[test]
fn passes_over_a_quoted_style_that_names_no_colour() {
    assert!(why("- \"reverse\"").is_empty());
}

#[test]
fn passes_over_a_quoted_name_the_target_defined_itself() {
    assert!(why("style = \"visual\"").is_empty());
}

#[test]
fn passes_over_a_colour_name_used_as_a_key() {
    assert!(why("black = \"#eeeeee\"").is_empty());
}

#[test]
fn passes_over_a_colour_name_in_a_comment() {
    assert!(why("removedSignColor = \"#af0000\"  # red").is_empty());
}

#[test]
fn passes_over_a_shebang() {
    assert!(why("#!/usr/bin/env python3").is_empty());
}

#[test]
fn passes_over_a_word_that_starts_with_hex_digits() {
    assert!(why("#deadbeefery").is_empty());
}

#[test]
fn finds_nothing_in_a_file_with_no_colour() {
    assert!(scan("name = \"herdr\"\n").is_empty());
}

#[test]
fn reports_the_line_of_an_unhandled_notation() {
    let scan = scan("a\nb = #EEEEEE");
    assert_eq!(scan.unhandled()[0].line(), 2);
    assert_eq!(scan.unhandled()[0].text(), "#EEEEEE");
}

#[test]
fn finds_nothing_at_or_past_the_end_of_the_text() {
    let chars: Vec<char> = "bg #eeeeee".chars().collect();
    assert!(found(&chars, chars.len()).is_none());
    assert!(found(&chars, chars.len() + 3).is_none());
    assert!(matches!(found(&chars, 3), Some(Found::Colour { end: 10 })));
}
