use vanadis::import::{
    candidates, imported, locate, origin, prepare, resolve, stem, url_file, writable, ImportError, Source,
};
use vanadis::scheme::{Problem, System};
use vanadis::theme::{Theme, Variant};

const SCHEMES: &str = "/home/ada/.cache/vanadis/schemes";

/// The files the cache the original fixtures describe holds, below `SCHEMES`.
const HELD: [&str; 6] = [
    "base16/nord.yaml",
    "base16/nord-light.yaml",
    "base16/cyberpunk.yml",
    "base16/broken.yaml",
    "base24/dracula.yaml",
    "tinted8/catppuccin-latte.yaml",
];

fn held(path: &str) -> bool {
    HELD.iter().any(|file| format!("{SCHEMES}/{file}") == path)
}

/// What `argument` names, looked up in a cache that is there and holds `HELD`.
fn resolve_in(argument: &str, cache: bool) -> Result<Source, ImportError> {
    let present: Vec<bool> =
        candidates(&resolve(argument), SCHEMES).iter().map(|(_, path, _)| cache && held(path)).collect();
    locate(argument, SCHEMES, cache, &present)
}

fn resolved(argument: &str) -> Source {
    resolve_in(argument, true).unwrap()
}

fn cached(system: System, file: &str, qualified: &str) -> Source {
    Source::Cached { system, path: format!("{SCHEMES}/{file}"), qualified: qualified.to_owned() }
}

fn scheme(system: &str) -> String {
    let mut text = format!("system: \"{system}\"\nname: \"Test Scheme\"\nauthor: \"Ada\"\npalette:\n");
    for index in 0..16 {
        text.push_str(&format!("  base{index:02X}: \"#0000{index:02x}\"\n"));
    }
    text
}

#[test]
fn reads_a_url_as_a_url() {
    assert_eq!(resolved("https://example.com/nord.yaml"), Source::Url { url: "https://example.com/nord.yaml".to_owned() });
}

#[test]
fn reads_a_qualified_identifier_as_the_cached_scheme_it_names() {
    assert_eq!(resolved("base16/nord"), cached(System::Base16, "base16/nord.yaml", "base16/nord"));
}

#[test]
fn finds_a_cached_scheme_spelled_yml() {
    assert_eq!(resolved("cyberpunk"), cached(System::Base16, "base16/cyberpunk.yml", "base16/cyberpunk"));
}

#[test]
fn searches_the_systems_in_order_for_a_bare_identifier() {
    assert_eq!(resolved("nord"), cached(System::Base16, "base16/nord.yaml", "base16/nord"));
}

#[test]
fn reaches_a_system_the_search_order_puts_last() {
    assert_eq!(
        resolved("catppuccin-latte"),
        cached(System::Tinted8, "tinted8/catppuccin-latte.yaml", "tinted8/catppuccin-latte")
    );
}

#[test]
fn does_not_search_past_the_system_a_qualified_identifier_names() {
    assert!(matches!(resolve_in("base24/nord", true), Err(ImportError::Unknown { .. })));
}

#[test]
fn reads_a_path_as_a_file() {
    assert_eq!(resolved("./nord.yaml"), Source::File { path: "./nord.yaml".to_owned() });
}

#[test]
fn reads_a_relative_path_to_a_bare_name_as_a_file() {
    assert_eq!(resolved("./nord"), Source::File { path: "./nord".to_owned() });
}

#[test]
fn reads_an_unqualified_slash_as_a_file() {
    assert_eq!(resolved("schemes/nord.yaml"), Source::File { path: "schemes/nord.yaml".to_owned() });
}

#[test]
fn reports_a_bare_identifier_the_cache_does_not_hold() {
    assert!(matches!(
        resolve_in("solarized", true),
        Err(ImportError::Unknown { ref argument }) if argument == "solarized"
    ));
}

#[test]
fn import_reports_a_cache_that_is_not_there() {
    assert!(matches!(resolve_in("nord", false), Err(ImportError::NoCache { .. })));
}

#[test]
fn needs_no_cache_to_name_a_file() {
    assert!(resolve_in("./nord.yaml", false).is_ok());
    assert!(resolve_in("https://example.com/nord.yaml", false).is_ok());
}

#[test]
fn names_the_theme_after_the_cached_identifier() {
    assert_eq!(stem(&resolved("base16/nord")), "nord");
}

#[test]
fn names_the_theme_after_the_file() {
    assert_eq!(stem(&resolved("../schemes/my-theme.yaml")), "my-theme");
}

#[test]
fn names_the_theme_after_the_last_segment_of_a_url() {
    assert_eq!(stem(&resolved("https://example.com/raw/nord.yaml")), "nord");
}

#[test]
fn drops_a_query_string_from_the_name_a_url_gives() {
    assert_eq!(stem(&resolved("https://example.com/nord.yaml?raw=1")), "nord");
}

#[test]
fn takes_no_name_from_a_url_that_ends_in_a_slash() {
    assert_eq!(stem(&resolved("https://example.com/schemes/")), "");
}

#[test]
fn records_a_cached_scheme_by_its_qualified_identifier() {
    assert_eq!(origin(&resolved("nord"), None), "base16/nord");
}

#[test]
fn records_a_url_by_itself() {
    let url = "https://example.com/nord.yaml";
    assert_eq!(origin(&resolved(url), None), url);
}

#[test]
fn records_a_file_by_the_path_it_resolves_to() {
    let source = resolved("../nord.yaml");
    assert_eq!(origin(&source, Some("/home/ada/nord.yaml")), "/home/ada/nord.yaml");
    assert_eq!(origin(&source, None), "../nord.yaml");
}

#[test]
fn cuts_a_fragment_off_the_file_a_url_names() {
    assert_eq!(url_file("https://example.com/a/b/nord.yaml#top"), "nord.yaml");
    assert_eq!(url_file("nord.yaml"), "nord.yaml");
}

#[test]
fn import_says_how_to_fill_a_cache_that_is_not_there() {
    let error = resolve_in("nord", false).unwrap_err();
    assert!(error.message().contains("vanadis remote update"), "{}", error.message());
}

#[test]
fn says_how_to_look_for_an_identifier_the_cache_does_not_hold() {
    let error = resolve_in("solarized", true).unwrap_err();
    assert!(error.message().contains("vanadis search"), "{}", error.message());
}

#[test]
fn writes_a_cached_scheme_as_a_theme_that_records_its_origin() {
    let source = resolved("base16/nord");
    let imported = prepare(&source, "base16/nord", scheme("base16").as_bytes(), "nord", "/home/ada/.config/vanadis/themes")
        .unwrap();
    assert_eq!(imported.id().as_str(), "nord");
    assert_eq!(imported.path(), "/home/ada/.config/vanadis/themes/nord.toml");
    assert_eq!(imported.name(), "Test Scheme");
    assert_eq!(imported.author(), Some("Ada"));
    assert_eq!(imported.variant(), Variant::Dark);
    assert!(imported.contents().starts_with("# imported by vanadis from base16/nord\n[meta]\n"), "{}", imported.contents());
    let theme = Theme::parse(imported.path(), imported.contents()).unwrap();
    assert_eq!(theme.name(), "Test Scheme");
}

#[test]
fn reads_the_system_a_loose_scheme_declares() {
    let source = resolved("./loose.yaml");
    let imported = prepare(&source, "/home/ada/loose.yaml", scheme("base24").as_bytes(), "loose", "themes");
    assert!(matches!(imported, Err(ImportError::Convert { .. })), "a base24 scheme needs base10 and on");
    let imported = prepare(&source, "/home/ada/loose.yaml", scheme("base16").as_bytes(), "loose", "themes").unwrap();
    assert_eq!(imported.path(), "themes/loose.toml");
}

#[test]
fn reports_a_loose_scheme_that_declares_no_system() {
    let source = resolved("./plain.yaml");
    let error = prepare(&source, "plain.yaml", b"name: \"Plain\"\nvariant: \"dark\"\n", "plain", "themes").unwrap_err();
    assert!(matches!(error, ImportError::System { ref source, .. } if *source == Problem::Missing("system")));
    assert_eq!(error.message(), "plain.yaml: cannot be read as a scheme");
}

#[test]
fn reports_a_loose_scheme_of_a_system_it_does_not_convert() {
    let source = resolved("./odd.yaml");
    let error = prepare(&source, "odd.yaml", b"system: \"base8\"\n", "odd", "themes").unwrap_err();
    match error {
        ImportError::System { source, .. } => {
            assert_eq!(source.message(), "`base8` is not a scheme system vanadis converts")
        },
        other => panic!("{other:?}"),
    }
}

#[test]
fn reports_a_name_that_is_not_an_identifier() {
    let source = resolved("https://example.com/schemes/");
    let error = prepare(&source, "https://example.com/schemes/", scheme("base16").as_bytes(), "", "themes").unwrap_err();
    assert!(matches!(error, ImportError::Name { ref name } if name.is_empty()));
}

#[test]
fn refuses_to_write_over_a_theme_unless_forced() {
    let source = resolved("nord");
    let imported = prepare(&source, "base16/nord", scheme("base16").as_bytes(), "nord", "themes").unwrap();
    assert!(writable(&imported, false, false).is_ok());
    assert!(writable(&imported, true, true).is_ok());
    let error = writable(&imported, false, true).unwrap_err();
    assert_eq!(error.message(), "themes/nord.toml already exists");
}

#[test]
fn prefixes_the_theme_with_where_it_came_from() {
    assert_eq!(imported("base16/nord", "[meta]\n"), "# imported by vanadis from base16/nord\n[meta]\n");
}

#[test]
fn names_the_theme_after_the_file_up_to_its_final_dot() {
    assert_eq!(stem(&Source::File { path: "schemes/a.b.yaml".to_owned() }), "a.b");
    assert_eq!(stem(&Source::File { path: "schemes/.hidden".to_owned() }), ".hidden");
    assert_eq!(stem(&Source::File { path: "plain".to_owned() }), "plain");
}

const TINTED8: &str = "scheme:\n  system: \"tinted8\"\n  name: \"Nord\"\nvariant: \"dark\"\npalette:\n  black: \"#000000\"\n  red: \"#000001\"\n  green: \"#000002\"\n  yellow: \"#000003\"\n  blue: \"#000004\"\n  magenta: \"#000005\"\n  cyan: \"#000006\"\n  white: \"#000007\"\n  orange: \"#000008\"\n";

#[test]
fn imports_a_cached_tinted8_scheme() {
    let source = cached(System::Tinted8, "tinted8/nord.yaml", "tinted8/nord");
    let imported = prepare(&source, "tinted8/nord", TINTED8.as_bytes(), "nord", "themes").unwrap();
    assert!(imported.contents().starts_with("# imported by vanadis from tinted8/nord\n"), "{}", imported.contents());
    assert!(imported.contents().contains("orange = "), "{}", imported.contents());
    let theme = Theme::parse(imported.path(), imported.contents()).unwrap();
    assert_eq!(theme.name(), "Nord");
}
