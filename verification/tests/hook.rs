use vanadis::config::Shell;
use vanadis::hook::{snippet, Stat};

fn zsh_snippet(outputs: &[&str]) -> String {
    snippet(Shell::Zsh, outputs, Stat::Gnu)
}

#[test]
fn writes_every_output_as_a_quoted_literal() {
    let snippet = zsh_snippet(&["/home/ada/.config/fzf/colours.zsh"]);
    assert!(snippet.contains("source '/home/ada/.config/fzf/colours.zsh'"), "{snippet}");
}

#[test]
fn closes_a_quote_a_path_opens() {
    let snippet = zsh_snippet(&["/home/ada/it's/colours.zsh"]);
    assert!(snippet.contains(r"'/home/ada/it'\''s/colours.zsh'"), "{snippet}");
}

#[test]
fn escapes_a_backslash_for_fish_only() {
    let path = r"/home/ada/a\b.fish";
    assert!(snippet(Shell::Fish, &[path], Stat::Gnu).contains(r"'/home/ada/a\\b.fish'"));
    assert!(snippet(Shell::Zsh, &[path], Stat::Gnu).contains(r"'/home/ada/a\b.fish'"));
}

#[test]
fn gives_each_output_its_own_variable() {
    let snippet = zsh_snippet(&["/one.zsh", "/two.zsh"]);
    assert!(snippet.contains("_vanadis_moved '/one.zsh' _vanadis_mtime_0"), "{snippet}");
    assert!(snippet.contains("_vanadis_moved '/two.zsh' _vanadis_mtime_1"), "{snippet}");
}

#[test]
fn writes_the_stat_of_the_system_it_generated_on() {
    let path = "/one.bash";
    assert!(snippet(Shell::Bash, &[path], Stat::Gnu).contains("stat -c %Y"));
    assert!(snippet(Shell::Bash, &[path], Stat::Bsd).contains("stat -f %m"));
}

#[test]
fn forks_nothing_for_zsh_or_fish() {
    let path = "/one";
    for shell in [Shell::Zsh, Shell::Fish] {
        let snippet = snippet(shell, &[path], Stat::Gnu);
        assert!(!snippet.contains("stat -c"), "{}: {snippet}", shell.as_str());
        assert!(!snippet.contains("stat -f"), "{}: {snippet}", shell.as_str());
    }
}

#[test]
fn restores_the_exit_status_in_every_shell() {
    let path = "/one";
    for shell in Shell::all() {
        let snippet = snippet(shell, &[path], Stat::Gnu);
        assert!(snippet.contains("_vanadis_status"), "{}: {snippet}", shell.as_str());
    }
}

#[test]
fn sources_nothing_for_no_outputs() {
    for shell in Shell::all() {
        let snippet = snippet(shell, &[], Stat::Gnu);
        assert!(!snippet.contains("source '"), "{}: {snippet}", shell.as_str());
    }
}

#[test]
fn sources_the_outputs_of_the_targets_marked_for_the_shell() {
    let source = "[[targets]]\nname = \"fzf\"\ntemplate = \"f.in\"\noutput = \"/o/fzf.zsh\"\nshell = \"zsh\"\n\n[[targets]]\nname = \"bat\"\ntemplate = \"b.in\"\noutput = \"/o/bat\"\n\n[[targets]]\nname = \"prompt\"\ntemplate = \"p.in\"\noutput = \"/o/prompt.zsh\"\nshell = \"zsh\"\n\n[[targets]]\nname = \"fish\"\ntemplate = \"s.in\"\noutput = \"/o/c.fish\"\nshell = \"fish\"\n";
    let config = vanadis::config::Config::parse("/cfg/config.toml", source, "/cfg", None).unwrap();
    assert_eq!(vanadis::hook::sourced(&config, Shell::Zsh), vec!["/o/fzf.zsh", "/o/prompt.zsh"]);
    assert_eq!(vanadis::hook::sourced(&config, Shell::Fish), vec!["/o/c.fish"]);
    assert!(vanadis::hook::sourced(&config, Shell::Bash).is_empty());
}
