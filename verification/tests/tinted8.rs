use vanadis::init::emit::theme;
use vanadis::scheme::convert::tinted8::mirror;
use vanadis::scheme::convert::{read_scheme as convert_scheme, ConvertError, Converted};
use vanadis::scheme::{Problem, System};
use vanadis::theme::{Theme, Variant};
use vanadis::token::TokenPath;
use vanadis::vocabulary::missing;

const REQUIRED: [&str; 8] = ["black", "red", "green", "yellow", "blue", "magenta", "cyan", "white"];

/// A tinted8 scheme carrying the eight required colours and nothing else.
fn minimal() -> String {
    scheme("variant: \"dark\"\n", "")
}

/// A scheme whose header is `header` and whose palette carries `extra` beyond the eight.
fn scheme(header: &str, extra: &str) -> String {
    let mut text = String::from(
        "scheme:\n  system: \"tinted8\"\n  supports:\n    styling-spec: \"0.2.0\"\n  name: \"Test\"\n",
    );
    text.push_str(header);
    text.push_str("palette:\n");
    for (index, colour) in REQUIRED.into_iter().enumerate() {
        text.push_str(&format!("  {colour}: \"#0000{index:02x}\"\n"));
    }
    text.push_str(extra);
    text
}

fn convert(text: &str) -> Result<Converted, ConvertError> {
    convert_scheme(System::Tinted8, text.as_bytes())
}

fn token(text: &str, path: &str) -> String {
    convert(text)
        .unwrap()
        .get(&TokenPath::parse(path).unwrap())
        .unwrap_or_else(|| panic!("{path} is not defined"))
        .to_owned()
}

/// The converted scheme, written out and loaded back, which is what resolves the references.
fn loaded(text: &str) -> Theme {
    let converted = convert(text).unwrap();
    let file = theme(converted.name(), converted.variant(), converted.tokens());
    Theme::parse("themes/test.toml", &file).unwrap()
}

#[test]
fn fills_every_core_token_from_a_minimal_scheme() {
    assert_eq!(missing(loaded(&minimal()).tokens()), Vec::<TokenPath>::new());
}

#[test]
fn takes_the_eight_required_colours_into_colors() {
    assert_eq!(token(&minimal(), "colors.black"), "#000000");
    assert_eq!(token(&minimal(), "colors.white"), "#000007");
}

#[test]
fn takes_an_optional_palette_variant_into_colors_under_its_own_key() {
    let text = scheme("variant: \"dark\"\n", "  red-bright: \"#fb4934\"\n");
    assert_eq!(token(&text, "colors.red-bright"), "#fb4934");
}

#[test]
fn tinted8_stores_a_palette_entry_in_lowercase() {
    let text = scheme("variant: \"dark\"\n", "  gray: \"#616E88\"\n");
    assert_eq!(token(&text, "colors.gray"), "#616e88");
}

#[test]
fn takes_the_bright_half_of_the_terminal_from_the_bright_palette_variants() {
    let text = scheme("variant: \"dark\"\n", "  red-bright: \"#fb4934\"\n");
    assert_eq!(token(&text, "ansi.9"), "{{colors.red-bright}}");
}

#[test]
fn falls_a_missing_bright_variant_back_to_the_hue_it_brightens() {
    assert_eq!(token(&minimal(), "ansi.9"), "{{colors.red}}");
}

#[test]
fn keeps_the_terminal_slots_in_palette_order_whatever_the_variant() {
    let text = scheme("variant: \"light\"\n", "");
    assert_eq!(token(&text, "ansi.0"), "{{colors.black}}");
    assert_eq!(token(&text, "ansi.7"), "{{colors.white}}");
}

#[test]
fn reads_a_dotted_theming_property_key() {
    let text = format!("{}syntax:\n  entity.name: \"#98971a\"\n", minimal());
    assert_eq!(token(&text, "syntax.entity.name.default"), "#98971a");
}

#[test]
fn reads_a_nested_theming_property_mapping() {
    let text = format!("{}ui:\n  gutter:\n    foreground: \"#434c5e\"\n", minimal());
    assert_eq!(token(&text, "ui.gutter.foreground.default"), "#434c5e");
}

#[test]
fn keeps_a_theming_property_that_is_also_the_parent_of_another() {
    let text = format!(
        "{}syntax:\n  constant: \"#88c0d0\"\n  constant.numeric: \"#b48ead\"\n",
        minimal()
    );
    assert_eq!(token(&text, "syntax.constant.default"), "#88c0d0");
    assert_eq!(token(&text, "syntax.constant.numeric.default"), "#b48ead");
}

#[test]
fn writes_a_theming_property_that_is_also_a_parent_as_a_loadable_theme() {
    let text = format!(
        "{}syntax:\n  constant: \"#88c0d0\"\n  constant.numeric: \"#b48ead\"\n",
        minimal()
    );
    let theme = loaded(&text);
    let path = TokenPath::parse("syntax.constant.default").unwrap();
    assert_eq!(theme.tokens().get(&path), Some("#88c0d0"));
}

#[test]
fn reports_one_theming_property_written_by_both_spellings() {
    let text = format!(
        "{}ui:\n  border.normal: \"#3b4252\"\n  border:\n    normal: \"#434c5e\"\n",
        minimal()
    );
    assert!(matches!(
        convert(&text),
        Err(ConvertError::Duplicate { ref path }) if path.as_str() == "ui.border.normal.default"
    ));
}

#[test]
fn reports_a_theming_property_key_that_is_not_a_token_segment() {
    let text = format!("{}ui:\n  Accent: \"#88c0d0\"\n", minimal());
    assert!(matches!(
        convert(&text),
        Err(ConvertError::Segment { ref segment, .. }) if segment == "Accent"
    ));
}

#[test]
fn reports_a_palette_key_that_is_not_a_token_segment() {
    let text = scheme("variant: \"dark\"\n", "  Gray: \"#616e88\"\n");
    assert!(matches!(
        convert(&text),
        Err(ConvertError::Segment { ref segment, .. }) if segment == "Gray"
    ));
}

#[test]
fn takes_a_role_from_the_theming_property_the_scheme_states() {
    let text = format!("{}syntax:\n  keyword: \"#d79921\"\n", minimal());
    assert_eq!(token(&text, "role.keyword"), "{{syntax.keyword.default}}");
}

#[test]
fn falls_a_role_back_to_the_palette_when_the_scheme_states_no_property() {
    assert_eq!(token(&minimal(), "role.keyword"), "{{colors.magenta}}");
}

#[test]
fn prefers_an_optional_palette_key_to_the_required_colour_behind_it() {
    let text = scheme("variant: \"dark\"\n", "  gray-dim: \"#928374\"\n");
    assert_eq!(token(&text, "role.comment"), "{{colors.gray-dim}}");
}

#[test]
fn falls_a_dimmed_role_back_to_the_hue_the_builder_would_derive_it_from() {
    assert_eq!(token(&minimal(), "role.comment"), "{{colors.white}}");
}

#[test]
fn falls_a_muted_foreground_from_the_dim_grey_to_the_grey() {
    let text = scheme("variant: \"dark\"\n", "  gray: \"#928374\"\n");
    assert_eq!(token(&text, "role.comment"), "{{colors.gray}}");
    assert_eq!(token(&text, "role.inactive"), "{{colors.gray}}");
}

/// A fill walks down the surfaces the palette carries rather than out to `gray`, which
/// sits halfway to the foreground.
#[test]
fn walks_a_fill_past_the_grey_to_the_next_surface_step() {
    let text = scheme(
        "variant: \"dark\"\n",
        "  gray: \"#928374\"\n  black-dim: \"#181825\"\n",
    );
    assert_eq!(token(&text, "role.hover-bg"), "{{colors.black-dim}}");
    assert_eq!(token(&text, "role.selection-bg"), "{{colors.black-dim}}");
}

/// `border` is a line drawn over the background rather than a fill, and the
/// specification puts its default in the grey family, so it does not follow the fills
/// down to the surfaces.
#[test]
fn keeps_the_border_in_the_grey_family_the_specification_defaults_it_to() {
    let text = scheme(
        "variant: \"dark\"\n",
        "  gray: \"#928374\"\n  black-dim: \"#181825\"\n",
    );
    assert_eq!(token(&text, "role.border"), "{{colors.gray}}");
}

/// A fill takes a grey before it takes the colour of the background it is drawn on.
#[test]
fn takes_a_grey_for_a_fill_rather_than_the_background_it_sits_on() {
    let text = scheme("variant: \"dark\"\n", "  gray: \"#928374\"\n");
    assert_eq!(token(&text, "role.hover-bg"), "{{colors.gray}}");
    assert_eq!(token(&text, "role.selection-bg"), "{{colors.gray}}");
    assert_eq!(token(&text, "role.bg"), "{{colors.black}}");
}

#[test]
fn prefers_the_raised_surface_to_the_recessed_one_for_a_selection() {
    let text = scheme(
        "variant: \"dark\"\n",
        "  black-bright: \"#3c3836\"\n  black-dim: \"#181825\"\n",
    );
    assert_eq!(token(&text, "role.selection-bg"), "{{colors.black-bright}}");
}

#[test]
fn takes_a_surface_from_the_dim_grey_when_the_scheme_writes_one() {
    let text = scheme(
        "variant: \"dark\"\n",
        "  gray-dim: \"#928374\"\n  black-dim: \"#181825\"\n",
    );
    assert_eq!(token(&text, "role.hover-bg"), "{{colors.gray-dim}}");
}

#[test]
fn falls_a_surface_role_back_to_the_background_of_a_scheme_with_one_surface() {
    assert_eq!(token(&minimal(), "role.selection-bg"), "{{colors.black}}");
    assert_eq!(token(&minimal(), "role.hover-bg"), "{{colors.black}}");
}

#[test]
fn reserves_the_default_leaf_a_theming_property_is_written_under() {
    let text = format!(
        "{}syntax:\n  constant: \"#111111\"\n  constant.default: \"#222222\"\n",
        minimal()
    );
    assert!(matches!(
        convert(&text),
        Err(ConvertError::Reserved { ref key, segment }) if key == "syntax.constant.default" && segment == "default"
    ));
}

#[test]
fn reserves_the_default_leaf_however_the_scheme_nests_it() {
    let text = format!("{}ui:\n  selection:\n    default: \"#222222\"\n", minimal());
    assert!(matches!(
        convert(&text),
        Err(ConvertError::Reserved { ref key, .. }) if key == "ui.selection.default"
    ));
}

#[test]
fn takes_the_background_from_the_dark_anchor_of_a_dark_scheme() {
    assert_eq!(token(&minimal(), "role.bg"), "{{colors.black}}");
    assert_eq!(token(&minimal(), "role.fg"), "{{colors.white}}");
}

#[test]
fn mirrors_the_anchors_in_a_light_scheme() {
    let text = scheme("variant: \"light\"\n", "");
    assert_eq!(token(&text, "role.bg"), "{{colors.white}}");
    assert_eq!(token(&text, "role.fg"), "{{colors.black}}");
}

#[test]
fn mirrors_a_palette_key_along_the_luminance_scale_in_a_light_scheme() {
    let text = scheme(
        "variant: \"light\"\n",
        "  black-bright: \"#6c6f85\"\n  white-dim: \"#dce0e8\"\n",
    );
    assert_eq!(token(&text, "role.linenr"), "{{colors.black-bright}}");
    assert_eq!(token(&text, "role.selection-bg"), "{{colors.white-dim}}");
}

#[test]
fn leaves_a_hue_where_it_is_in_a_light_scheme() {
    let text = scheme("variant: \"light\"\n", "");
    assert_eq!(token(&text, "role.accent"), "{{colors.cyan}}");
}

#[test]
fn takes_the_display_name_the_scheme_writes() {
    assert_eq!(convert(&minimal()).unwrap().name(), "Test");
}

#[test]
fn builds_a_display_name_from_the_family_and_the_style() {
    let text = minimal().replace(
        "  name: \"Test\"\n",
        "  family: \"Catppuccin\"\n  style: \"Latte\"\n",
    );
    assert_eq!(convert(&text).unwrap().name(), "Catppuccin Latte");
}

#[test]
fn builds_a_display_name_from_the_family_alone() {
    let text = minimal().replace("  name: \"Test\"\n", "  family: \"Gruvbox\"\n");
    assert_eq!(convert(&text).unwrap().name(), "Gruvbox");
}

#[test]
fn takes_the_slug_as_a_display_name_when_the_scheme_writes_no_other() {
    let text = minimal().replace("  name: \"Test\"\n", "  slug: \"nord\"\n");
    assert_eq!(convert(&text).unwrap().name(), "nord");
}

#[test]
fn reports_a_scheme_that_names_itself_in_none_of_the_three_ways() {
    let text = minimal().replace("  name: \"Test\"\n", "");
    assert!(matches!(
        convert(&text),
        Err(ConvertError::Invalid {
            source: Problem::Missing("scheme.name")
        })
    ));
}

#[test]
fn tinted8_takes_the_author_across_as_provenance() {
    let text = minimal().replace("  name: \"Test\"\n", "  name: \"Test\"\n  author: \"me\"\n");
    assert_eq!(token(&text, "meta.author"), "me");
}

#[test]
fn tinted8_takes_the_variant_from_the_scheme_metadata() {
    let text = scheme("variant: \"light\"\n", "");
    assert_eq!(convert(&text).unwrap().variant(), Variant::Light);
}

#[test]
fn reports_a_scheme_that_does_not_state_a_variant() {
    let text = scheme("", "");
    assert!(matches!(
        convert(&text),
        Err(ConvertError::Invalid {
            source: Problem::Missing("variant")
        })
    ));
}

#[test]
fn tinted8_reports_a_variant_that_is_neither_dark_nor_light() {
    let text = scheme("variant: \"pale\"\n", "");
    assert!(matches!(
        convert(&text),
        Err(ConvertError::Invalid {
            source: Problem::Variant(_)
        })
    ));
}

#[test]
fn reports_a_scheme_missing_a_required_palette_colour() {
    let text = minimal().replace("  magenta: \"#000005\"\n", "");
    assert!(matches!(
        convert(&text),
        Err(ConvertError::Slot { ref slot, .. }) if slot == "magenta"
    ));
}

#[test]
fn tinted8_reports_a_scheme_without_a_palette() {
    let text = "scheme:\n  system: \"tinted8\"\n  name: \"Test\"\nvariant: \"dark\"\n";
    assert!(matches!(
        convert(text),
        Err(ConvertError::Invalid {
            source: Problem::Missing("palette")
        })
    ));
}

#[test]
fn tinted8_reports_a_palette_entry_that_is_not_a_hex_colour() {
    let text = minimal().replace("\"#000000\"", "\"NONE\"");
    assert!(matches!(
        convert(&text),
        Err(ConvertError::Hex { ref slot, .. }) if slot == "palette.black"
    ));
}

#[test]
fn reports_a_theming_property_that_is_not_a_hex_colour() {
    let text = format!("{}syntax:\n  keyword: \"NONE\"\n", minimal());
    assert!(matches!(
        convert(&text),
        Err(ConvertError::Hex { ref slot, .. }) if slot == "syntax.keyword"
    ));
}

#[test]
fn mirrors_the_ends_of_the_luminance_scale_onto_each_other() {
    assert_eq!(mirror("black-dim", Variant::Light), "white-bright");
    assert_eq!(mirror("white-bright", Variant::Light), "black-dim");
    assert_eq!(mirror("gray", Variant::Light), "gray");
}

#[test]
fn leaves_the_luminance_scale_alone_in_a_dark_scheme() {
    assert_eq!(mirror("black-dim", Variant::Dark), "black-dim");
}
