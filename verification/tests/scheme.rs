use vanadis::init::emit::theme;
use vanadis::scheme::convert::{convert, hex, literal, luma, variant, ConvertError, Converted};
use vanadis::scheme::yaml::{document, nested, optional, required};
use vanadis::scheme::{Problem, System};
use vanadis::theme::{Theme, Variant};
use vanadis::token::TokenPath;
use vanadis::vocabulary::missing;

/// `value` read and written back out, which is what a theme file ends up holding.
fn round_trip(value: &str) -> String {
    literal(hex("base00", value).unwrap())
}

/// The variant inferred for a background written as a hex literal.
fn inferred(background: &str) -> Variant {
    variant(None, hex("base00", background).unwrap()).unwrap()
}

#[test]
fn convert_reads_the_three_channels_of_a_hex_literal() {
    assert_eq!(hex("base00", "#1d2021").unwrap(), [0x1d, 0x20, 0x21]);
}

#[test]
fn convert_stores_a_hex_literal_in_lowercase() {
    assert_eq!(round_trip("#1D2021"), "#1d2021");
}

#[test]
fn convert_keeps_a_hex_literal_that_is_already_lowercase() {
    assert_eq!(round_trip("#1d2021"), "#1d2021");
}

#[test]
fn pads_a_channel_below_sixteen() {
    assert_eq!(literal([0x00, 0x0f, 0xff]), "#000fff");
}

#[test]
fn convert_rejects_a_hex_literal_without_a_hash() {
    assert!(hex("base00", "1d2021").is_err());
}

#[test]
fn convert_rejects_three_digit_shorthand() {
    assert!(hex("base00", "#eee").is_err());
}

#[test]
fn convert_rejects_a_hex_literal_carrying_alpha() {
    assert!(hex("base00", "#1d2021ff").is_err());
}

#[test]
fn convert_rejects_a_hex_literal_that_is_not_hex() {
    assert!(hex("base00", "#gggggg").is_err());
}

#[test]
fn rejects_a_signed_channel() {
    assert!(hex("base00", "#+f+f+f").is_err());
}

#[test]
fn rejects_a_seventh_digit() {
    assert!(hex("base00", "#1d20211").is_err());
}

#[test]
fn convert_names_the_slot_a_malformed_hex_literal_sits_in() {
    let error = hex("base0a", "#eee").unwrap_err();
    assert!(error.message().contains("base0a"), "{}", error.message());
}

#[test]
fn convert_takes_a_written_variant_over_the_background() {
    assert_eq!(variant(Some("light"), [0x00, 0x00, 0x00]).unwrap(), Variant::Light);
}

#[test]
fn convert_rejects_a_written_variant_that_is_neither_dark_nor_light() {
    assert!(variant(Some("pale"), [0x00, 0x00, 0x00]).is_err());
}

#[test]
fn convert_infers_a_dark_variant_from_a_dark_background() {
    assert_eq!(inferred("#1d2021"), Variant::Dark);
}

#[test]
fn convert_infers_a_light_variant_from_a_light_background() {
    assert_eq!(inferred("#fdf6e3"), Variant::Light);
}

#[test]
fn convert_infers_light_on_the_bright_side_of_the_luminance_boundary() {
    assert_eq!(inferred("#808080"), Variant::Light);
}

#[test]
fn convert_infers_dark_on_the_dark_side_of_the_luminance_boundary() {
    assert_eq!(inferred("#7f7f7f"), Variant::Dark);
}

#[test]
fn convert_weights_green_above_red_and_blue() {
    assert!(luma([0x00, 0xff, 0x00]) > luma([0xff, 0x00, 0x00]));
    assert!(luma([0xff, 0x00, 0x00]) > luma([0x00, 0x00, 0xff]));
}

#[test]
fn weighs_a_colour_by_the_srgb_coefficients() {
    assert_eq!(luma([0xff, 0xff, 0xff]), 2_550_000);
    assert_eq!(luma([0x01, 0x00, 0x00]), 2126);
}

#[test]
fn reports_bytes_that_are_not_utf8() {
    assert!(matches!(convert(System::Base16, &[0xff, 0xfe]), Err(ConvertError::Utf8 { .. })));
}

#[test]
fn scheme_stores_a_hex_literal_in_lowercase() {
    assert_eq!(literal(hex("base00", "#1D2021").unwrap()), "#1d2021");
}

#[test]
fn scheme_keeps_a_hex_literal_that_is_already_lowercase() {
    assert_eq!(literal(hex("base00", "#1d2021").unwrap()), "#1d2021");
}

#[test]
fn scheme_rejects_a_hex_literal_without_a_hash() {
    assert!(hex("base00", "1d2021").is_err());
}

#[test]
fn scheme_rejects_three_digit_shorthand() {
    assert!(hex("base00", "#eee").is_err());
}

#[test]
fn scheme_rejects_a_hex_literal_carrying_alpha() {
    assert!(hex("base00", "#1d2021ff").is_err());
}

#[test]
fn scheme_rejects_a_hex_literal_that_is_not_hex() {
    assert!(hex("base00", "#gggggg").is_err());
}

#[test]
fn scheme_names_the_slot_a_malformed_hex_literal_sits_in() {
    let error = hex("base0a", "#eee").unwrap_err();
    assert!(error.message().contains("base0a"), "{}", error.message());
}

#[test]
fn scheme_takes_a_written_variant_over_the_background() {
    assert_eq!(variant(Some("light"), hex("base00", "#000000").unwrap()).unwrap(), Variant::Light);
}

#[test]
fn scheme_rejects_a_written_variant_that_is_neither_dark_nor_light() {
    assert!(variant(Some("pale"), hex("base00", "#000000").unwrap()).is_err());
}

#[test]
fn scheme_infers_a_dark_variant_from_a_dark_background() {
    assert_eq!(inferred("#1d2021"), Variant::Dark);
}

#[test]
fn scheme_infers_a_light_variant_from_a_light_background() {
    assert_eq!(inferred("#fdf6e3"), Variant::Light);
}

#[test]
fn scheme_infers_light_on_the_bright_side_of_the_luminance_boundary() {
    assert_eq!(inferred("#808080"), Variant::Light);
}

#[test]
fn scheme_infers_dark_on_the_dark_side_of_the_luminance_boundary() {
    assert_eq!(inferred("#7f7f7f"), Variant::Dark);
}

#[test]
fn scheme_weights_green_above_red_and_blue() {
    assert!(luma(hex("base00", "#00ff00").unwrap()) > luma(hex("base00", "#ff0000").unwrap()));
    assert!(luma(hex("base00", "#ff0000").unwrap()) > luma(hex("base00", "#0000ff").unwrap()));
}

/// A base16 scheme whose palette is a distinct colour per slot.
fn base16() -> String {
    palette_scheme("base16", 16)
}

/// A base24 scheme whose palette is a distinct colour per slot.
fn base24() -> String {
    palette_scheme("base24", 24)
}

/// `count` slots, each holding a colour that names its own index.
fn palette_scheme(system: &str, count: usize) -> String {
    let mut text = format!("system: \"{system}\"\nname: \"Test\"\npalette:\n");
    for index in 0..count {
        text.push_str(&format!("  base{index:02X}: \"#0000{index:02x}\"\n"));
    }
    text
}

fn converted(system: System, text: &str) -> Result<Converted, ConvertError> {
    convert(system, text.as_bytes())
}

fn token(system: System, text: &str, path: &str) -> String {
    converted(system, text)
        .unwrap()
        .get(&TokenPath::parse(path).unwrap())
        .unwrap_or_else(|| panic!("{path} is not defined"))
        .to_owned()
}

fn has(system: System, text: &str, path: &str) -> bool {
    converted(system, text).unwrap().get(&TokenPath::parse(path).unwrap()).is_some()
}

/// The converted scheme, written out and loaded back, which is what resolves the references.
fn loaded(system: System, text: &str) -> Theme {
    let converted = converted(system, text).unwrap();
    let file = theme(converted.name(), converted.variant(), converted.tokens());
    Theme::parse("themes/test.toml", &file).unwrap()
}

#[test]
fn fills_every_core_token_from_a_base16_scheme() {
    assert_eq!(missing(loaded(System::Base16, &base16()).tokens()), Vec::new());
}

#[test]
fn fills_every_core_token_from_a_base24_scheme() {
    assert_eq!(missing(loaded(System::Base24, &base24()).tokens()), Vec::new());
}

#[test]
fn takes_the_sixteen_palette_entries_into_colors() {
    assert_eq!(token(System::Base16, &base16(), "colors.base00"), "#000000");
    assert_eq!(token(System::Base16, &base16(), "colors.base0f"), "#00000f");
}

#[test]
fn lowercases_a_slot_name_into_a_token_segment() {
    assert_eq!(token(System::Base16, &base16(), "colors.base0a"), "#00000a");
}

#[test]
fn keeps_the_extended_base24_slots_in_colors() {
    assert_eq!(token(System::Base24, &base24(), "colors.base10"), "#000010");
    assert_eq!(token(System::Base24, &base24(), "colors.base17"), "#000017");
}

#[test]
fn leaves_a_base16_scheme_without_the_extended_slots() {
    assert!(!has(System::Base16, &base16(), "colors.base10"));
}

#[test]
fn points_a_role_at_the_colours_table_rather_than_repeating_the_hex() {
    assert_eq!(token(System::Base16, &base16(), "role.bg"), "{{colors.base00}}");
}

#[test]
fn base16_repeats_the_normal_colours_in_the_bright_half_of_a_base16_scheme() {
    for (bright, normal) in [(9, 1), (10, 2), (11, 3), (12, 4), (13, 5), (14, 6)] {
        let theme = loaded(System::Base16, &base16());
        let slot = |index: usize| {
            theme
                .tokens()
                .get(&TokenPath::parse(&format!("ansi.{index}")).unwrap())
                .map(ToOwned::to_owned)
        };
        assert_eq!(slot(bright), slot(normal), "ansi.{bright}");
    }
}

#[test]
fn takes_the_bright_half_of_a_base24_scheme_from_the_extended_slots() {
    let bright = |path: &str| token(System::Base24, &base24(), path);
    assert_eq!(bright("ansi.9"), "{{colors.base12}}");
    assert_eq!(bright("ansi.10"), "{{colors.base14}}");
    assert_eq!(bright("ansi.11"), "{{colors.base13}}");
    assert_eq!(bright("ansi.12"), "{{colors.base16}}");
    assert_eq!(bright("ansi.13"), "{{colors.base17}}");
    assert_eq!(bright("ansi.14"), "{{colors.base15}}");
}

#[test]
fn keeps_the_dark_and_light_ends_of_both_families_the_same() {
    let end = |path: &str| token(System::Base24, &base24(), path);
    assert_eq!(end("ansi.0"), "{{colors.base00}}");
    assert_eq!(end("ansi.8"), "{{colors.base03}}");
    assert_eq!(end("ansi.15"), "{{colors.base07}}");
}

#[test]
fn takes_the_display_name_across_verbatim() {
    let text = base16().replace("\"Test\"", "\"Gruvbox dark, hard\"");
    assert_eq!(converted(System::Base16, &text).unwrap().name(), "Gruvbox dark, hard");
}

#[test]
fn base16_takes_the_author_across_as_provenance() {
    let text = format!("author: \"morhetz\"\n{}", base16());
    assert_eq!(token(System::Base16, &text, "meta.author"), "morhetz");
}

#[test]
fn leaves_the_author_out_when_the_scheme_does_not_carry_one() {
    assert!(!has(System::Base16, &base16(), "meta.author"));
}

#[test]
fn base16_takes_the_variant_from_the_scheme_metadata() {
    let text = format!("variant: \"light\"\n{}", base16());
    assert_eq!(converted(System::Base16, &text).unwrap().variant(), Variant::Light);
}

#[test]
fn infers_the_variant_from_base00_when_the_scheme_omits_it() {
    assert_eq!(converted(System::Base16, &base16()).unwrap().variant(), Variant::Dark);
}

#[test]
fn base16_stores_a_palette_entry_in_lowercase() {
    let text = base16().replace("\"#000000\"", "\"#1D2021\"");
    assert_eq!(token(System::Base16, &text, "colors.base00"), "#1d2021");
}

#[test]
fn takes_the_system_from_the_caller_and_not_from_the_file() {
    assert_eq!(token(System::Base16, &base24(), "ansi.9"), "{{colors.base08}}");
    assert!(!has(System::Base16, &base24(), "colors.base10"));
}

#[test]
fn converts_a_scheme_that_declares_no_system_at_all() {
    let text = base16().replace("system: \"base16\"\n", "");
    assert_eq!(token(System::Base16, &text, "colors.base00"), "#000000");
}

#[test]
fn reads_a_slot_the_palette_spells_in_lowercase() {
    let text = base16().replace("base0A:", "base0a:");
    assert_eq!(token(System::Base16, &text, "colors.base0a"), "#00000a");
}

#[test]
fn reports_a_base16_scheme_missing_a_slot() {
    let text = base16().replace("  base0F: \"#00000f\"\n", "");
    assert!(matches!(
        converted(System::Base16, &text),
        Err(ConvertError::Slot { ref slot, .. }) if slot == "base0F"
    ));
}

#[test]
fn reports_a_base24_scheme_missing_an_extended_slot() {
    let text = base24().replace("  base12: \"#000012\"\n", "");
    assert!(matches!(
        converted(System::Base24, &text),
        Err(ConvertError::Slot { ref slot, .. }) if slot == "base12"
    ));
}

#[test]
fn names_the_family_the_missing_slot_was_required_by() {
    let text = base24().replace("  base12: \"#000012\"\n", "");
    let error = converted(System::Base24, &text).unwrap_err();
    assert!(error.message().contains("base24"), "{}", error.message());
}

#[test]
fn reports_a_scheme_without_a_name() {
    let text = base16().replace("name: \"Test\"\n", "");
    assert!(matches!(
        converted(System::Base16, &text),
        Err(ConvertError::Invalid { source: Problem::Missing("name") })
    ));
}

#[test]
fn base16_reports_a_scheme_without_a_palette() {
    assert!(matches!(
        converted(System::Base16, "system: \"base16\"\nname: \"Test\"\n"),
        Err(ConvertError::Invalid { source: Problem::Missing("palette") })
    ));
}

#[test]
fn base16_reports_a_palette_entry_that_is_not_a_hex_colour() {
    let text = base16().replace("\"#000000\"", "\"NONE\"");
    assert!(matches!(
        converted(System::Base16, &text),
        Err(ConvertError::Hex { ref slot, .. }) if slot == "base00"
    ));
}

#[test]
fn base16_reports_a_variant_that_is_neither_dark_nor_light() {
    let text = format!("variant: \"pale\"\n{}", base16());
    assert!(matches!(
        converted(System::Base16, &text),
        Err(ConvertError::Invalid { source: Problem::Variant(_) })
    ));
}

#[test]
fn reads_a_string_off_the_document() {
    let document = document("system: \"base16\"\n").unwrap();
    assert_eq!(required(&document, "system").unwrap(), "base16");
}

#[test]
fn reads_an_unquoted_string() {
    let document = document("system: base16\n").unwrap();
    assert_eq!(required(&document, "system").unwrap(), "base16");
}

#[test]
fn ignores_a_key_nothing_reads() {
    let document = document("system: \"base16\"\nslug: \"gruvbox\"\n").unwrap();
    assert_eq!(required(&document, "system").unwrap(), "base16");
}

#[test]
fn reads_a_comment_off_the_end_of_a_value() {
    let document = document("name: \"Gruvbox\" # upstream\n").unwrap();
    assert_eq!(required(&document, "name").unwrap(), "Gruvbox");
}

#[test]
fn returns_none_for_a_key_the_scheme_does_not_write() {
    let document = document("system: \"base16\"\n").unwrap();
    assert_eq!(optional(&document, "variant").unwrap(), None);
}

#[test]
fn reports_a_key_the_scheme_has_to_write() {
    let document = document("system: \"base16\"\n").unwrap();
    assert!(matches!(required(&document, "name"), Err(Problem::Missing("name"))));
}

#[test]
fn reports_a_key_that_does_not_hold_a_string() {
    let document = document("name:\n  first: \"Gruvbox\"\n").unwrap();
    assert!(matches!(
        required(&document, "name"),
        Err(Problem::Type { ref key, .. }) if key == "name"
    ));
}

#[test]
fn reads_a_nested_mapping() {
    let document = document("palette:\n  base00: \"#1d2021\"\n").unwrap();
    let palette = nested(&document, "palette").unwrap();
    assert_eq!(required(palette, "base00").unwrap(), "#1d2021");
}

#[test]
fn reports_a_key_that_does_not_hold_a_mapping() {
    let document = document("palette: \"#1d2021\"\n").unwrap();
    assert!(matches!(
        nested(&document, "palette"),
        Err(Problem::Type { ref key, .. }) if key == "palette"
    ));
}

#[test]
fn reports_yaml_that_does_not_parse() {
    assert!(matches!(document("name: \"unterminated\n"), Err(Problem::Yaml(_))));
}

#[test]
fn reports_an_empty_stream() {
    assert!(matches!(document(""), Err(Problem::Document)));
}

#[test]
fn reports_a_document_that_is_not_a_mapping() {
    assert!(matches!(document("- base00\n"), Err(Problem::Document)));
}

#[test]
fn says_which_key_a_scheme_does_not_carry() {
    assert_eq!(Problem::Missing("palette").message(), "the scheme does not carry `palette`");
}

#[test]
fn reports_a_system_it_does_not_convert_yet() {
    let source = b"scheme:\n  name: \"A\"\n  author: \"a\"\nvariant: \"dark\"\n";
    assert!(matches!(convert(System::Tinted8, source), Err(ConvertError::Unsupported { system: System::Tinted8 })));
}

#[test]
fn reports_bytes_that_are_not_utf8_before_the_system() {
    assert!(matches!(convert(System::Tinted8, &[0xff, 0xfe]), Err(ConvertError::Utf8 { .. })));
}
