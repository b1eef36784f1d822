use vanadis::catalog::{Catalog, Entry};
use vanadis::theme::ThemeError;

fn file(path: &str, text: &str) -> Entry {
    Entry::File { path: path.to_owned(), read: Ok(text.to_owned()) }
}

fn theme_text(name: &str, variant: &str) -> String {
    format!("[meta]\nformat = 1\nname = \"{name}\"\nvariant = \"{variant}\"\n[colors]\nbg = \"#1d2021\"\n")
}

/// The themes directory the original fixtures describe: two themes, a note, a
/// subdirectory and a file that does not load, listed in no particular order.
fn catalog() -> Catalog {
    Catalog::scan(vec![
        file("themes/papercolor-light.toml", &theme_text("PaperColor Light", "light")),
        file("themes/notes.txt", "not a theme"),
        Entry::Other { path: "themes/deep".to_owned() },
        file("themes/broken.toml", "[meta\n"),
        file("themes/gruvbox-dark.toml", &theme_text("Gruvbox Dark", "dark")),
    ])
}

fn ids() -> Vec<String> {
    catalog().themes().iter().map(|theme| theme.id().as_str().to_owned()).collect()
}

#[test]
fn finds_every_theme_the_directory_holds() {
    assert_eq!(ids(), vec!["gruvbox-dark", "papercolor-light"]);
}

#[test]
fn ignores_a_file_that_is_not_a_toml_file() {
    assert!(!ids().contains(&"notes".to_owned()));
}

#[test]
fn ignores_a_subdirectory() {
    assert!(!ids().contains(&"deep".to_owned()));
}

#[test]
fn keeps_a_theme_it_cannot_load_out_of_the_list() {
    assert!(!ids().contains(&"broken".to_owned()));
}

#[test]
fn reports_the_theme_it_could_not_load() {
    let broken = catalog();
    let broken = broken.broken();
    assert_eq!(broken.len(), 1, "{broken:?}");
    assert!(broken[0].message().contains("broken.toml"), "{broken:?}");
}

#[test]
fn reports_a_file_it_could_not_read_among_the_broken() {
    let catalog = Catalog::scan(vec![
        Entry::File { path: "themes/locked.toml".to_owned(), read: Err("permission denied".to_owned()) },
        file("themes/gruvbox-dark.toml", &theme_text("Gruvbox Dark", "dark")),
    ]);
    assert_eq!(catalog.themes().len(), 1);
    assert!(matches!(
        &catalog.broken()[0],
        ThemeError::Read { path, message } if path == "themes/locked.toml" && message == "permission denied"
    ));
    assert_eq!(catalog.broken()[0].message(), "themes/locked.toml: permission denied");
}

#[test]
fn takes_a_file_named_only_toml_for_no_theme() {
    let catalog = Catalog::scan(vec![file("themes/.toml", &theme_text("Hidden", "dark"))]);
    assert!(catalog.themes().is_empty());
    assert!(catalog.broken().is_empty());
}

#[test]
fn orders_the_themes_by_path_whatever_the_listing_order() {
    let catalog = Catalog::scan(vec![
        file("themes/b.toml", &theme_text("B", "dark")),
        file("themes/a-b.toml", &theme_text("A B", "dark")),
        file("themes/a.toml", &theme_text("A", "light")),
    ]);
    let ids: Vec<&str> = catalog.themes().iter().map(|theme| theme.id().as_str()).collect();
    assert_eq!(ids, vec!["a-b", "a", "b"]);
}

#[test]
fn finds_a_theme_by_identifier() {
    let catalog = catalog();
    let id = vanadis::theme::ThemeId::parse("gruvbox-dark").unwrap();
    assert_eq!(catalog.get(&id).unwrap().name(), "Gruvbox Dark");
}

#[test]
fn says_which_directory_it_could_not_list() {
    let error = vanadis::catalog::CatalogError::Read { path: "themes".to_owned(), message: "permission denied".to_owned() };
    assert_eq!(error.message(), "themes: permission denied");
}
