use vanadis::diff::unified;

fn diff(before: &str, after: &str) -> String {
    unified("out/one.conf", before, after)
}

#[test]
fn says_nothing_about_two_identical_texts() {
    assert!(diff("bg=#eeeeee\n", "bg=#eeeeee\n").is_empty());
}

#[test]
fn labels_both_sides_with_the_file_they_describe() {
    let diff = diff("bg=#eeeeee\n", "bg=#2e3440\n");
    assert!(diff.starts_with("--- out/one.conf\n+++ out/one.conf\n"), "{diff}");
}

#[test]
fn marks_the_line_that_changed() {
    let diff = diff("bg=#eeeeee\n", "bg=#2e3440\n");
    assert!(diff.contains("-bg=#eeeeee\n"), "{diff}");
    assert!(diff.contains("+bg=#2e3440\n"), "{diff}");
}

#[test]
fn shows_a_whole_file_as_added_when_there_was_none() {
    let diff = diff("", "bg=#2e3440\n");
    assert!(diff.contains("+bg=#2e3440\n"), "{diff}");
    assert!(!diff.contains("-bg"), "{diff}");
}
