use std::io::Write as _;

use vanadis::remote::{destination, unpack, Destination, Installed, RemoteError, Unpacked, SOURCE};
use vanadis::scheme::System;

/// A gzipped tar holding `entries`, each a path and its contents.
///
/// The path is written straight into the header's name field: the `tar` crate's own
/// path-setting refuses a path that starts with `/` or holds `..`, which are exactly the
/// hostile shapes these archives need to hold.
fn archive(entries: &[(&str, &str)]) -> Vec<u8> {
    let mut builder = tar::Builder::new(Vec::new());
    for (path, body) in entries {
        let mut header = tar::Header::new_gnu();
        header.set_size(body.len() as u64);
        header.set_mode(0o644);
        let name = &mut header.as_old_mut().name;
        name.fill(0);
        name[..path.len()].copy_from_slice(path.as_bytes());
        header.set_cksum();
        builder.append(&header, body.as_bytes()).unwrap();
    }
    let tarball = builder.into_inner().unwrap();
    let mut encoder = flate2::write::GzEncoder::new(Vec::new(), flate2::Compression::default());
    encoder.write_all(&tarball).unwrap();
    encoder.finish().unwrap()
}

const NORD: &str = "system: \"base16\"\nname: \"Nord\"\nauthor: \"a\"\nvariant: \"dark\"\n";

fn one() -> Vec<u8> {
    archive(&[("schemes-spec-0.11/base16/nord.yaml", NORD), ("schemes-spec-0.11/LICENSE", "MIT\n")])
}

fn targets(unpacked: &Unpacked) -> Vec<String> {
    unpacked.files().iter().map(|(target, _)| target.clone()).collect()
}

#[test]
fn writes_a_scheme_under_its_system() {
    let unpacked = unpack(&one()).unwrap();
    let (target, body) = &unpacked.files()[0];
    assert_eq!(target, "base16/nord.yaml");
    assert_eq!(body, NORD.as_bytes());
}

#[test]
fn drops_the_leading_directory_the_archive_wraps_everything_in() {
    let unpacked = unpack(&one()).unwrap();
    assert!(targets(&unpacked).iter().all(|target| !target.starts_with("schemes-spec-0.11")));
}

#[test]
fn keeps_the_licence_file() {
    let unpacked = unpack(&one()).unwrap();
    assert!(targets(&unpacked).contains(&"LICENSE".to_owned()));
}

#[test]
fn counts_what_it_wrote() {
    let unpacked = unpack(&one()).unwrap();
    assert_eq!(unpacked.installed().count(System::Base16), 1);
}

#[test]
fn counts_no_scheme_for_a_system_the_archive_does_not_carry() {
    let unpacked = unpack(&one()).unwrap();
    assert_eq!(unpacked.installed().count(System::Tinted8), 0);
}

#[test]
fn writes_a_scheme_whose_file_ends_in_yml() {
    let unpacked = unpack(&archive(&[("schemes-spec-0.11/base16/cyberpunk.yml", NORD)])).unwrap();
    assert_eq!(targets(&unpacked), vec!["base16/cyberpunk.yml"]);
}

#[test]
fn writes_nothing_for_an_entry_that_climbs_out_of_the_cache() {
    let unpacked = unpack(&archive(&[
        ("schemes-spec-0.11/base16/nord.yaml", NORD),
        ("schemes-spec-0.11/base16/../../escaped.yaml", NORD),
    ]))
    .unwrap();
    assert_eq!(targets(&unpacked), vec!["base16/nord.yaml"]);
}

#[test]
fn writes_nothing_for_an_entry_named_by_an_absolute_path() {
    let unpacked =
        unpack(&archive(&[("schemes-spec-0.11/base16/nord.yaml", NORD), ("/etc/vanadis-escaped.yaml", NORD)])).unwrap();
    assert_eq!(unpacked.installed().total(), 1);
}

#[test]
fn writes_nothing_for_a_directory_the_collection_does_not_have() {
    let unpacked = unpack(&archive(&[
        ("schemes-spec-0.11/base16/nord.yaml", NORD),
        ("schemes-spec-0.11/.github/workflows/test.yml", "on: push\n"),
        ("schemes-spec-0.11/README.md", "# schemes\n"),
    ]))
    .unwrap();
    assert_eq!(targets(&unpacked), vec!["base16/nord.yaml"]);
}

#[test]
fn writes_nothing_for_a_scheme_nested_one_level_deeper() {
    let unpacked = unpack(&archive(&[
        ("schemes-spec-0.11/base16/nord.yaml", NORD),
        ("schemes-spec-0.11/base16/deep/nested.yaml", NORD),
    ]))
    .unwrap();
    assert_eq!(targets(&unpacked), vec!["base16/nord.yaml"]);
}

#[test]
fn reports_an_archive_it_cannot_read() {
    assert!(matches!(unpack(b"not a gzip stream at all"), Err(RemoteError::Archive { .. })));
}

#[test]
fn reports_an_archive_that_holds_no_scheme() {
    let error = unpack(&archive(&[("schemes-spec-0.11/README.md", "# schemes\n")])).unwrap_err();
    assert!(matches!(error, RemoteError::Empty { ref url } if url == SOURCE));
    assert_eq!(error.message(), format!("{SOURCE}: the archive holds no scheme"));
}

#[test]
fn counts_a_licence_as_no_scheme() {
    assert!(matches!(
        unpack(&archive(&[("schemes-spec-0.11/LICENSE", "MIT\n")])),
        Err(RemoteError::Empty { .. })
    ));
}

#[test]
fn places_each_whitelisted_shape() {
    assert_eq!(
        destination("schemes-spec-0.11/base24/dracula.yaml"),
        Some(Destination::Scheme(System::Base24, "dracula.yaml".to_owned()))
    );
    assert_eq!(destination("schemes-spec-0.11/LICENSE"), Some(Destination::License));
    assert_eq!(destination("schemes-spec-0.11/base16/nord.json"), None);
    assert_eq!(destination("./base16/nord.yaml"), None);
    assert_eq!(destination("schemes-spec-0.11/base16/.yaml"), None);
}

#[test]
fn skips_empty_and_current_components() {
    assert_eq!(
        destination("schemes-spec-0.11//base16/./nord.yaml"),
        Some(Destination::Scheme(System::Base16, "nord.yaml".to_owned()))
    );
}

#[test]
fn totals_the_schemes_of_every_system() {
    let mut installed = Installed::new();
    installed.add(System::Base16);
    installed.add(System::Base16);
    installed.add(System::Tinted8);
    assert_eq!(installed.count(System::Base16), 2);
    assert_eq!(installed.count(System::Base24), 0);
    assert_eq!(installed.total(), 3);
}
