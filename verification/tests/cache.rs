use vanadis::scheme::cache::{Cache, CacheError, Listed, Scheme};

const DIRECTORY: &str = "/home/ada/.cache/vanadis/schemes";

fn base(system: &str, count: usize, name: &str, author: &str, variant: &str) -> Listed {
    let mut text = format!("system: \"{system}\"\nname: \"{name}\"\nauthor: \"{author}\"\nvariant: \"{variant}\"\npalette:\n");
    for index in 0..count {
        text.push_str(&format!("  base{index:02X}: \"#0000{index:02x}\"\n"));
    }
    Listed::File { name: String::new(), read: Ok(text.into_bytes()) }
}

fn named(listed: Listed, name: &str) -> Listed {
    match listed {
        Listed::File { read, .. } => Listed::File { name: name.to_owned(), read },
        other => other,
    }
}

fn tinted8(name: &str, variant: &str) -> Listed {
    let mut text = format!(
        "scheme:\n  system: \"tinted8\"\n  supports:\n    styling-spec: \"0.2.0\"\n  name: \"{name}\"\n  author: \"Catppuccin\"\nvariant: \"{variant}\"\npalette:\n"
    );
    for (index, colour) in ["black", "red", "green", "yellow", "blue", "magenta", "cyan", "white"].into_iter().enumerate() {
        text.push_str(&format!("  {colour}: \"#0000{index:02x}\"\n"));
    }
    Listed::File { name: String::new(), read: Ok(text.into_bytes()) }
}

/// The cache the original fixtures describe, each directory listed in no particular order.
fn cache() -> Cache {
    let base16 = vec![
        named(base("base16", 16, "Nord Light", "arcticicestudio", "light"), "nord-light.yaml"),
        named(base("base16", 16, "Nord", "arcticicestudio", "dark"), "nord.yaml"),
        Listed::File { name: "broken.yaml".to_owned(), read: Ok(b"system: [\n".to_vec()) },
        named(base("base16", 16, "Cyberpunk", "Someone", "dark"), "cyberpunk.yml"),
        Listed::File { name: "notes.txt".to_owned(), read: Ok(b"not a scheme".to_vec()) },
    ];
    let base24 = vec![named(base("base24", 24, "Dracula", "FredHappyface (https://github.com/fredHappyface), based on clach04", "dark"), "dracula.yaml")];
    let tinted = vec![named(tinted8("Catppuccin Latte", "light"), "catppuccin-latte.yaml"), Listed::Other { name: "deep".to_owned() }];
    Cache::scan(DIRECTORY, Some(vec![base16, base24, tinted])).unwrap()
}

fn qualified(schemes: &[&Scheme]) -> Vec<String> {
    schemes.iter().map(|scheme| scheme.qualified()).collect()
}

#[test]
fn finds_every_scheme_in_system_then_identifier_order() {
    let cache = cache();
    let all: Vec<&Scheme> = cache.schemes().iter().collect();
    assert_eq!(
        qualified(&all),
        ["base16/cyberpunk", "base16/nord", "base16/nord-light", "base24/dracula", "tinted8/catppuccin-latte"]
    );
}

#[test]
fn orders_a_prefix_pair_by_identifier_and_not_by_filename() {
    assert_eq!(qualified(&cache().search("nord")), ["base16/nord", "base16/nord-light"]);
}

#[test]
fn reads_a_scheme_whose_file_ends_in_yml() {
    assert_eq!(qualified(&cache().search("cyberpunk")), ["base16/cyberpunk"]);
}

#[test]
fn keeps_a_scheme_it_cannot_read_out_of_the_list() {
    assert!(!qualified(&cache().search("broken")).contains(&"base16/broken".to_owned()));
}

#[test]
fn reports_the_scheme_it_could_not_read() {
    let cache = cache();
    let broken = cache.broken();
    assert_eq!(broken.len(), 1, "{broken:?}");
    assert!(broken[0].message().contains("broken.yaml"), "{broken:?}");
    assert_eq!(broken[0].path(), "/home/ada/.cache/vanadis/schemes/base16/broken.yaml");
}

#[test]
fn ignores_the_licence_file_beside_the_systems() {
    assert!(cache().broken().iter().all(|error| !error.message().contains("LICENSE")));
}

#[test]
fn finds_a_scheme_by_name() {
    assert_eq!(qualified(&cache().search("nord light")), ["base16/nord-light"]);
}

#[test]
fn finds_a_scheme_by_author() {
    assert_eq!(qualified(&cache().search("clach04")), ["base24/dracula"]);
}

#[test]
fn finds_every_scheme_of_one_system() {
    assert_eq!(qualified(&cache().search("base16/")), ["base16/cyberpunk", "base16/nord", "base16/nord-light"]);
}

#[test]
fn finds_every_scheme_of_one_variant() {
    assert_eq!(qualified(&cache().search("light")), ["base16/nord-light", "tinted8/catppuccin-latte"]);
}

#[test]
fn finds_nothing_for_a_query_no_scheme_holds() {
    assert!(cache().search("solarized").is_empty());
}

#[test]
fn compares_without_case() {
    assert_eq!(qualified(&cache().search("DRACULA")), ["base24/dracula"]);
}

#[test]
fn cache_reports_a_cache_that_is_not_there() {
    assert!(matches!(Cache::scan("/nowhere", None), Err(CacheError::Missing { .. })));
}

#[test]
fn cache_says_how_to_fill_a_cache_that_is_not_there() {
    let error = Cache::scan("/nowhere", None).unwrap_err();
    assert!(error.message().contains("vanadis remote update"), "{}", error.message());
}

#[test]
fn holds_no_scheme_for_a_system_without_a_listing() {
    let cache = Cache::scan(DIRECTORY, Some(Vec::new())).unwrap();
    assert!(cache.schemes().is_empty());
    assert!(cache.broken().is_empty());
}

#[test]
fn reports_a_scheme_file_it_could_not_read() {
    let cache = Cache::scan(
        DIRECTORY,
        Some(vec![vec![Listed::File { name: "locked.yaml".to_owned(), read: Err("permission denied".to_owned()) }]]),
    )
    .unwrap();
    assert_eq!(cache.broken()[0].message(), "/home/ada/.cache/vanadis/schemes/base16/locked.yaml: permission denied");
}

#[test]
fn describes_a_scheme_by_its_columns() {
    let cache = cache();
    let dracula = &cache.search("dracula")[0];
    assert_eq!(dracula.id(), "dracula");
    assert_eq!(dracula.name(), "Dracula");
    assert!(dracula.author().ends_with("clach04"));
    assert_eq!(dracula.variant().as_str(), "dark");
}
