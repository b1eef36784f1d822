//! The snippet `vanadis hook` prints for a shell to evaluate.
//!
//! The snippet holds resolved output paths as literals and never runs vanadis again, so a
//! prompt costs no process and a shell that has lost vanadis from `$PATH` keeps following.
//! Every name it defines is prefixed `_vanadis_`, and the hook returns the exit status it
//! found.

use vstd::prelude::*;

use crate::config::{shell_name, target_views, Config, Shell, TargetView};
use crate::text::{chars_of, decimal, decimal_chars, push_all, push_str, string_of};

verus! {

/// How `stat` is asked for an mtime in seconds.
///
/// Which one to write is settled when the snippet is generated, because vanadis knows the
/// system it is running on. The snippet carries no runtime branch.
#[derive(Debug, Clone, Copy, PartialEq, Eq, Structural)]
pub enum Stat {
    /// GNU and busybox: `stat -c %Y`.
    Gnu,
    /// The BSDs, macOS among them: `stat -f %m`.
    Bsd,
}

/// The arguments that print an mtime in seconds and nothing else.
pub open spec fn stat_arguments(stat: Stat) -> Seq<char> {
    match stat {
        Stat::Gnu => "-c %Y"@,
        Stat::Bsd => "-f %m"@,
    }
}

impl Stat {
    /// The arguments that print an mtime in seconds and nothing else.
    fn arguments(self) -> (arguments: &'static str)
        ensures
            arguments@ == stat_arguments(self),
    {
        match self {
            Stat::Gnu => "-c %Y",
            Stat::Bsd => "-f %m",
        }
    }
}

/// `f(0) + f(1) + ... + f(n - 1)`.
pub open spec fn lines(n: nat, f: spec_fn(nat) -> Seq<char>) -> Seq<char>
    decreases n,
{
    if n == 0 {
        Seq::empty()
    } else {
        lines((n - 1) as nat, f) + f((n - 1) as nat)
    }
}

/// The variable holding the mtime last seen for the output at `index`.
pub open spec fn variable(index: nat) -> Seq<char> {
    "_vanadis_mtime_"@ + decimal(index)
}

/// `text` with each single quote closed, escaped and reopened.
pub open spec fn quote_body(text: Seq<char>) -> Seq<char>
    decreases text.len(),
{
    if text.len() == 0 {
        Seq::empty()
    } else {
        quote_body(text.drop_last()) + if text.last() == '\'' {
            "'\\''"@
        } else {
            seq![text.last()]
        }
    }
}

/// `text` with each backslash doubled and each single quote escaped, as fish reads them.
pub open spec fn fish_body(text: Seq<char>) -> Seq<char>
    decreases text.len(),
{
    if text.len() == 0 {
        Seq::empty()
    } else {
        fish_body(text.drop_last()) + if text.last() == '\\' {
            "\\\\"@
        } else if text.last() == '\'' {
            "\\'"@
        } else {
            seq![text.last()]
        }
    }
}

/// `text` as one single-quoted word, for a shell that takes a backslash literally there.
pub open spec fn quoted_spec(text: Seq<char>) -> Seq<char> {
    "'"@ + quote_body(text) + "'"@
}

/// `text` as one single-quoted word, for fish, where a backslash is an escape.
pub open spec fn fish_quoted_spec(text: Seq<char>) -> Seq<char> {
    "'"@ + fish_body(text) + "'"@
}

/// The comment the snippet opens with, naming what it is and how to refresh it.
pub open spec fn preamble_spec(shell: Seq<char>) -> Seq<char> {
    "# vanadis hook "@ + shell + ". Sources the output of every target marked `shell = \""@ + shell
        + "\"`,\n# and sources it again when that file changes. Written by `vanadis hook "@ + shell
        + "`: the\n# paths below are literals, so run `eval \"$(vanadis hook "@ + shell
        + ")\"` again after moving\n# an output or adding a target.\n"@
}

/// The zsh snippet for `paths`.
pub open spec fn zsh_spec(paths: Seq<Seq<char>>) -> Seq<char> {
    preamble_spec("zsh"@) + ZSH_HEAD@ + lines(paths.len(), |i: nat| "typeset -g "@ + variable(i) + "=\n"@)
        + "\n_vanadis_hook() {\n\tlocal _vanadis_status=$?\n"@ + lines(
        paths.len(),
        |i: nat|
            "\t_vanadis_moved "@ + quoted_spec(paths[i as int]) + " "@ + variable(i) + " && source "@
                + quoted_spec(paths[i as int]) + "\n"@,
    ) + "\treturn $_vanadis_status\n}\n\n"@ + "add-zsh-hook precmd _vanadis_hook\n_vanadis_hook\n"@
}

/// The fish snippet for `paths`.
pub open spec fn fish_spec(paths: Seq<Seq<char>>) -> Seq<char> {
    preamble_spec("fish"@) + "\n"@ + lines(paths.len(), |i: nat| "set -g "@ + variable(i) + " ''\n"@)
        + FISH_HEAD@ + lines(
        paths.len(),
        |i: nat|
            "\tif test -e "@ + fish_quoted_spec(paths[i as int]) + "\n\t\tset -l _vanadis_now (path mtime "@
                + fish_quoted_spec(paths[i as int]) + ")\n\t\tif test \"$_vanadis_now\" != \"$"@
                + variable(i) + "\"\n\t\t\tset -g "@ + variable(i) + " $_vanadis_now\n\t\t\tsource "@
                + fish_quoted_spec(paths[i as int]) + "\n\t\tend\n\tend\n"@,
    ) + "\treturn $_vanadis_status\nend\n\n_vanadis_hook\n"@
}

/// The bash snippet for `paths`, asking `stat` the way `stat` says.
pub open spec fn bash_spec(paths: Seq<Seq<char>>, stat: Stat) -> Seq<char> {
    preamble_spec("bash"@) + BASH_HEAD@ + stat_arguments(stat) + BASH_MOVED@ + lines(
        paths.len(),
        |i: nat| variable(i) + "=\n"@,
    ) + "\n_vanadis_hook() {\n\tlocal _vanadis_status=$?\n"@ + lines(
        paths.len(),
        |i: nat|
            "\t_vanadis_moved "@ + quoted_spec(paths[i as int]) + " "@ + variable(i) + " && . "@
                + quoted_spec(paths[i as int]) + "\n"@,
    ) + "\treturn $_vanadis_status\n}\n\n"@ + BASH_TAIL@
}

/// The snippet for `shell`, as plain values.
pub open spec fn snippet_spec(shell: Shell, paths: Seq<Seq<char>>, stat: Stat) -> Seq<char> {
    match shell {
        Shell::Zsh => zsh_spec(paths),
        Shell::Fish => fish_spec(paths),
        Shell::Bash => bash_spec(paths, stat),
    }
}

/// What the zsh snippet defines before its per-output lines.
pub const ZSH_HEAD: &'static str = "\nzmodload -F zsh/stat b:zstat\n\
     autoload -Uz add-zsh-hook\n\n\
     # Reports whether $1 has moved since the run recorded in the variable named by $2,\n\
     # and records the new mtime when it has. Emulated, so a user's setopt cannot change\n\
     # what it means; the source itself runs outside this, in the options the user set.\n\
     _vanadis_moved() {\n\
     \temulate -L zsh\n\
     \tlocal -a info\n\
     \tzstat -A info +mtime -- $1 2>/dev/null || return 1\n\
     \t[[ ${(P)2} == $info[1] ]] && return 1\n\
     \ttypeset -g $2=$info[1]\n\
     }\n\n";

/// The fish handler's opening.
pub const FISH_HEAD: &'static str = "\nfunction _vanadis_hook --on-event fish_prompt \
     --description 'vanadis: follow the applied theme'\n\
     \tset -l _vanadis_status $status\n";

/// The bash snippet up to the `stat` arguments.
pub const BASH_HEAD: &'static str = "\n# Reports whether $1 has moved since the run recorded in the variable named by $2,\n\
     # and records the new mtime when it has. bash has no builtin that reads an mtime, so\n\
     # this is the one fork a prompt costs.\n\
     _vanadis_moved() {\n\
     \tlocal now\n\
     \tnow=$(stat ";

/// The bash `_vanadis_moved` after the `stat` arguments.
pub const BASH_MOVED: &'static str = " -- \"$1\" 2>/dev/null) || return 1\n\
     \t[ -n \"$now\" ] || return 1\n\
     \t[ \"$now\" = \"${!2}\" ] && return 1\n\
     \tprintf -v \"$2\" %s \"$now\"\n\
     }\n\n";

/// The bash `PROMPT_COMMAND` append, guarded by the function name; `${PROMPT_COMMAND[*]}`
/// reads it whether it is a string or, since 5.1, an array.
pub const BASH_TAIL: &'static str = "[[ ${PROMPT_COMMAND[*]:-} == *_vanadis_hook* ]] ||\n\
     \tPROMPT_COMMAND=\"_vanadis_hook${PROMPT_COMMAND:+;$PROMPT_COMMAND}\"\n\
     _vanadis_hook\n";

/// Appends the variable for the output at `index`.
fn push_variable(out: &mut Vec<char>, index: usize)
    ensures
        final(out)@ == old(out)@ + variable(index as nat),
{
    push_str(out, "_vanadis_mtime_");
    let digits = decimal_chars(index);
    push_all(out, digits.as_slice());
    proof {
        assert(final(out)@ =~= old(out)@ + variable(index as nat));
    }
}

/// `text` as one single-quoted word, for a shell that takes a backslash literally there.
fn quoted(text: &str) -> (word: Vec<char>)
    ensures
        word@ == quoted_spec(text@),
{
    let chars = chars_of(text);
    let mut out: Vec<char> = Vec::new();
    out.push('\'');
    let mut i: usize = 0;
    proof {
        reveal_strlit("'");
        assert(chars@.take(0) =~= Seq::<char>::empty());
    }
    while i < chars.len()
        invariant
            i <= chars@.len(),
            out@ == "'"@ + quote_body(chars@.take(i as int)),
        decreases chars@.len() - i,
    {
        if chars[i] == '\'' {
            push_str(&mut out, "'\\''");
        } else {
            out.push(chars[i]);
        }
        proof {
            assert(chars@.take(i + 1).drop_last() =~= chars@.take(i as int));
            assert(out@ =~= "'"@ + quote_body(chars@.take(i + 1)));
        }
        i = i + 1;
    }
    out.push('\'');
    proof {
        assert(chars@.take(chars@.len() as int) =~= chars@);
        assert(out@ =~= quoted_spec(text@));
    }
    out
}

/// `text` as one single-quoted word, for fish, where a backslash is an escape.
fn quoted_fish(text: &str) -> (word: Vec<char>)
    ensures
        word@ == fish_quoted_spec(text@),
{
    let chars = chars_of(text);
    let mut out: Vec<char> = Vec::new();
    out.push('\'');
    let mut i: usize = 0;
    proof {
        reveal_strlit("'");
        assert(chars@.take(0) =~= Seq::<char>::empty());
    }
    while i < chars.len()
        invariant
            i <= chars@.len(),
            out@ == "'"@ + fish_body(chars@.take(i as int)),
        decreases chars@.len() - i,
    {
        if chars[i] == '\\' {
            push_str(&mut out, "\\\\");
        } else if chars[i] == '\'' {
            push_str(&mut out, "\\'");
        } else {
            out.push(chars[i]);
        }
        proof {
            assert(chars@.take(i + 1).drop_last() =~= chars@.take(i as int));
            assert(out@ =~= "'"@ + fish_body(chars@.take(i + 1)));
        }
        i = i + 1;
    }
    out.push('\'');
    proof {
        assert(chars@.take(chars@.len() as int) =~= chars@);
        assert(out@ =~= fish_quoted_spec(text@));
    }
    out
}

/// The paths as plain values.
pub open spec fn path_texts(outputs: Seq<&str>) -> Seq<Seq<char>> {
    outputs.map_values(|p: &str| p@)
}

/// Appends the comment the snippet opens with.
fn push_preamble(out: &mut Vec<char>, shell: &str)
    ensures
        final(out)@ == old(out)@ + preamble_spec(shell@),
{
    push_str(out, "# vanadis hook ");
    push_str(out, shell);
    push_str(out, ". Sources the output of every target marked `shell = \"");
    push_str(out, shell);
    push_str(out, "\"`,\n# and sources it again when that file changes. Written by `vanadis hook ");
    push_str(out, shell);
    push_str(out, "`: the\n# paths below are literals, so run `eval \"$(vanadis hook ");
    push_str(out, shell);
    push_str(out, ")\"` again after moving\n# an output or adding a target.\n");
    proof {
        assert(final(out)@ =~= old(out)@ + preamble_spec(shell@));
    }
}

/// zsh: `zstat` from `zsh/stat`, and `add-zsh-hook`, which deduplicates by function name.
fn zsh(outputs: &[&str]) -> (snippet: Vec<char>)
    ensures
        snippet@ == zsh_spec(path_texts(outputs@)),
{
    let ghost paths = path_texts(outputs@);
    let ghost declare = |i: nat| "typeset -g "@ + variable(i) + "=\n"@;
    let ghost hook = |i: nat|
        "\t_vanadis_moved "@ + quoted_spec(paths[i as int]) + " "@ + variable(i) + " && source "@
            + quoted_spec(paths[i as int]) + "\n"@;
    let mut out: Vec<char> = Vec::new();
    push_preamble(&mut out, "zsh");
    push_str(&mut out, ZSH_HEAD);
    let ghost start = out@;
    let mut i: usize = 0;
    while i < outputs.len()
        invariant
            i <= outputs@.len(),
            out@ == start + lines(i as nat, declare),
            declare == (|i: nat| "typeset -g "@ + variable(i) + "=\n"@),
        decreases outputs@.len() - i,
    {
        push_str(&mut out, "typeset -g ");
        push_variable(&mut out, i);
        push_str(&mut out, "=\n");
        proof {
            assert(lines((i + 1) as nat, declare) == lines(i as nat, declare) + declare(i as nat));
            assert(out@ =~= start + lines((i + 1) as nat, declare));
        }
        i = i + 1;
    }
    push_str(&mut out, "\n_vanadis_hook() {\n\tlocal _vanadis_status=$?\n");
    let ghost middle = out@;
    i = 0;
    while i < outputs.len()
        invariant
            i <= outputs@.len(),
            paths == path_texts(outputs@),
            out@ == middle + lines(i as nat, hook),
            hook == (|i: nat|
        "\t_vanadis_moved "@ + quoted_spec(paths[i as int]) + " "@ + variable(i) + " && source "@
            + quoted_spec(paths[i as int]) + "\n"@),
        decreases outputs@.len() - i,
    {
        let path = quoted(outputs[i]);
        push_str(&mut out, "\t_vanadis_moved ");
        push_all(&mut out, path.as_slice());
        push_str(&mut out, " ");
        push_variable(&mut out, i);
        push_str(&mut out, " && source ");
        push_all(&mut out, path.as_slice());
        push_str(&mut out, "\n");
        proof {
            assert(paths[i as int] == outputs@[i as int]@);
            assert(lines((i + 1) as nat, hook) == lines(i as nat, hook) + hook(i as nat));
            assert(out@ =~= middle + lines((i + 1) as nat, hook));
        }
        i = i + 1;
    }
    push_str(&mut out, "\treturn $_vanadis_status\n}\n\n");
    push_str(&mut out, "add-zsh-hook precmd _vanadis_hook\n_vanadis_hook\n");
    proof {
        assert(out@ =~= zsh_spec(paths));
    }
    out
}

/// fish: `path mtime`, and a handler function, which replaces its own previous definition.
fn fish(outputs: &[&str]) -> (snippet: Vec<char>)
    ensures
        snippet@ == fish_spec(path_texts(outputs@)),
{
    let ghost paths = path_texts(outputs@);
    let ghost declare = |i: nat| "set -g "@ + variable(i) + " ''\n"@;
    let ghost hook = |i: nat|
        "\tif test -e "@ + fish_quoted_spec(paths[i as int]) + "\n\t\tset -l _vanadis_now (path mtime "@
            + fish_quoted_spec(paths[i as int]) + ")\n\t\tif test \"$_vanadis_now\" != \"$"@ + variable(i)
            + "\"\n\t\t\tset -g "@ + variable(i) + " $_vanadis_now\n\t\t\tsource "@ + fish_quoted_spec(
            paths[i as int],
        ) + "\n\t\tend\n\tend\n"@;
    let mut out: Vec<char> = Vec::new();
    push_preamble(&mut out, "fish");
    push_str(&mut out, "\n");
    let ghost start = out@;
    let mut i: usize = 0;
    while i < outputs.len()
        invariant
            i <= outputs@.len(),
            out@ == start + lines(i as nat, declare),
            declare == (|i: nat| "set -g "@ + variable(i) + " ''\n"@),
        decreases outputs@.len() - i,
    {
        push_str(&mut out, "set -g ");
        push_variable(&mut out, i);
        push_str(&mut out, " ''\n");
        proof {
            assert(lines((i + 1) as nat, declare) == lines(i as nat, declare) + declare(i as nat));
            assert(out@ =~= start + lines((i + 1) as nat, declare));
        }
        i = i + 1;
    }
    push_str(&mut out, FISH_HEAD);
    let ghost middle = out@;
    i = 0;
    while i < outputs.len()
        invariant
            i <= outputs@.len(),
            paths == path_texts(outputs@),
            out@ == middle + lines(i as nat, hook),
            hook == (|i: nat|
        "\tif test -e "@ + fish_quoted_spec(paths[i as int]) + "\n\t\tset -l _vanadis_now (path mtime "@
            + fish_quoted_spec(paths[i as int]) + ")\n\t\tif test \"$_vanadis_now\" != \"$"@ + variable(i)
            + "\"\n\t\t\tset -g "@ + variable(i) + " $_vanadis_now\n\t\t\tsource "@ + fish_quoted_spec(
            paths[i as int],
        ) + "\n\t\tend\n\tend\n"@),
        decreases outputs@.len() - i,
    {
        let path = quoted_fish(outputs[i]);
        push_str(&mut out, "\tif test -e ");
        push_all(&mut out, path.as_slice());
        push_str(&mut out, "\n\t\tset -l _vanadis_now (path mtime ");
        push_all(&mut out, path.as_slice());
        push_str(&mut out, ")\n\t\tif test \"$_vanadis_now\" != \"$");
        push_variable(&mut out, i);
        push_str(&mut out, "\"\n\t\t\tset -g ");
        push_variable(&mut out, i);
        push_str(&mut out, " $_vanadis_now\n\t\t\tsource ");
        push_all(&mut out, path.as_slice());
        push_str(&mut out, "\n\t\tend\n\tend\n");
        proof {
            assert(paths[i as int] == outputs@[i as int]@);
            assert(lines((i + 1) as nat, hook) == lines(i as nat, hook) + hook(i as nat));
            assert(out@ =~= middle + lines((i + 1) as nat, hook));
        }
        i = i + 1;
    }
    push_str(&mut out, "\treturn $_vanadis_status\nend\n\n_vanadis_hook\n");
    proof {
        assert(out@ =~= fish_spec(paths));
    }
    out
}

/// bash: one `stat` per prompt, and a `PROMPT_COMMAND` append guarded by the function name.
fn bash(outputs: &[&str], stat: Stat) -> (snippet: Vec<char>)
    ensures
        snippet@ == bash_spec(path_texts(outputs@), stat),
{
    let ghost paths = path_texts(outputs@);
    let ghost declare = |i: nat| variable(i) + "=\n"@;
    let ghost hook = |i: nat|
        "\t_vanadis_moved "@ + quoted_spec(paths[i as int]) + " "@ + variable(i) + " && . "@
            + quoted_spec(paths[i as int]) + "\n"@;
    let mut out: Vec<char> = Vec::new();
    push_preamble(&mut out, "bash");
    push_str(&mut out, BASH_HEAD);
    push_str(&mut out, stat.arguments());
    push_str(&mut out, BASH_MOVED);
    let ghost start = out@;
    let mut i: usize = 0;
    while i < outputs.len()
        invariant
            i <= outputs@.len(),
            out@ == start + lines(i as nat, declare),
            declare == (|i: nat| variable(i) + "=\n"@),
        decreases outputs@.len() - i,
    {
        push_variable(&mut out, i);
        push_str(&mut out, "=\n");
        proof {
            assert(lines((i + 1) as nat, declare) == lines(i as nat, declare) + declare(i as nat));
            assert(out@ =~= start + lines((i + 1) as nat, declare));
        }
        i = i + 1;
    }
    push_str(&mut out, "\n_vanadis_hook() {\n\tlocal _vanadis_status=$?\n");
    let ghost middle = out@;
    i = 0;
    while i < outputs.len()
        invariant
            i <= outputs@.len(),
            paths == path_texts(outputs@),
            out@ == middle + lines(i as nat, hook),
            hook == (|i: nat|
        "\t_vanadis_moved "@ + quoted_spec(paths[i as int]) + " "@ + variable(i) + " && . "@
            + quoted_spec(paths[i as int]) + "\n"@),
        decreases outputs@.len() - i,
    {
        let path = quoted(outputs[i]);
        push_str(&mut out, "\t_vanadis_moved ");
        push_all(&mut out, path.as_slice());
        push_str(&mut out, " ");
        push_variable(&mut out, i);
        push_str(&mut out, " && . ");
        push_all(&mut out, path.as_slice());
        push_str(&mut out, "\n");
        proof {
            assert(paths[i as int] == outputs@[i as int]@);
            assert(lines((i + 1) as nat, hook) == lines(i as nat, hook) + hook(i as nat));
            assert(out@ =~= middle + lines((i + 1) as nat, hook));
        }
        i = i + 1;
    }
    push_str(&mut out, "\treturn $_vanadis_status\n}\n\n");
    push_str(&mut out, BASH_TAIL);
    proof {
        assert(out@ =~= bash_spec(paths, stat));
    }
    out
}

/// The outputs of the targets marked for `shell`, in the order the config writes them.
pub open spec fn sourced_spec(targets: Seq<TargetView>, shell: Shell) -> Seq<Seq<char>>
    decreases targets.len(),
{
    if targets.len() == 0 {
        Seq::empty()
    } else if targets.last().shell == Some(shell) {
        sourced_spec(targets.drop_last(), shell).push(targets.last().output)
    } else {
        sourced_spec(targets.drop_last(), shell)
    }
}

/// The outputs the hook for `shell` sources: those of the targets marked `shell = ..` with
/// it, in config order.
pub fn sourced(config: &Config, shell: Shell) -> (outputs: Vec<&str>)
    ensures
        path_texts(outputs@) == sourced_spec(config@.targets, shell),
{
    let targets = config.targets();
    let ghost views = config@.targets;
    let mut outputs: Vec<&str> = Vec::new();
    let mut i: usize = 0;
    proof {
        assert(views.take(0) =~= Seq::<TargetView>::empty());
        assert(path_texts(outputs@) =~= Seq::<Seq<char>>::empty());
    }
    while i < targets.len()
        invariant
            i <= targets@.len(),
            target_views(targets@) == views,
            path_texts(outputs@) == sourced_spec(views.take(i as int), shell),
        decreases targets@.len() - i,
    {
        let target = &targets[i];
        proof {
            assert(target@ == views[i as int]);
            assert(views.take(i + 1).drop_last() =~= views.take(i as int));
            assert(views.take(i + 1).last() == views[i as int]);
        }
        let ghost before = path_texts(outputs@);
        if target.shell() == Some(shell) {
            outputs.push(target.output());
            proof {
                assert(path_texts(outputs@) =~= before.push(target@.output));
            }
        }
        i = i + 1;
    }
    proof {
        assert(views.take(targets@.len() as int) =~= views);
    }
    outputs
}

/// The snippet that sources `outputs` and follows them, for `shell`.
///
/// `outputs` is in the order the targets appear in `config.toml`, which is the order
/// applying writes them in.
pub fn snippet(shell: Shell, outputs: &[&str], stat: Stat) -> (snippet: String)
    ensures
        snippet@ == snippet_spec(shell, path_texts(outputs@), stat),
{
    let text = match shell {
        Shell::Zsh => zsh(outputs),
        Shell::Fish => fish(outputs),
        Shell::Bash => bash(outputs, stat),
    };
    string_of(text.as_slice())
}

/// What a POSIX shell reads from `w` outside quotes: a `'` opens single quotes, and a `\`
/// takes the character after it literally.
pub open spec fn sh_outside(w: Seq<char>) -> Seq<char>
    decreases w.len(), 0int,
{
    if w.len() == 0 {
        Seq::empty()
    } else if w[0] == '\'' {
        sh_inside(w.skip(1))
    } else if w[0] == '\\' && w.len() >= 2 {
        seq![w[1]] + sh_outside(w.skip(2))
    } else {
        seq![w[0]] + sh_outside(w.skip(1))
    }
}

/// What a POSIX shell reads from `w` inside single quotes: everything literally, up to the
/// `'` that closes them.
pub open spec fn sh_inside(w: Seq<char>) -> Seq<char>
    decreases w.len(), 1int,
{
    if w.len() == 0 {
        Seq::empty()
    } else if w[0] == '\'' {
        sh_outside(w.skip(1))
    } else {
        seq![w[0]] + sh_inside(w.skip(1))
    }
}

/// What fish reads from `w` inside single quotes: `\\` and `\'` are a backslash and a quote,
/// anything else is itself, up to the `'` that closes them.
pub open spec fn fish_inside(w: Seq<char>) -> Seq<char>
    decreases w.len(),
{
    if w.len() == 0 {
        Seq::empty()
    } else if w[0] == '\'' {
        Seq::empty()
    } else if w[0] == '\\' && w.len() >= 2 && (w[1] == '\\' || w[1] == '\'') {
        seq![w[1]] + fish_inside(w.skip(2))
    } else {
        seq![w[0]] + fish_inside(w.skip(1))
    }
}

proof fn lemma_quote_body_concat(a: Seq<char>, b: Seq<char>)
    ensures
        quote_body(a + b) == quote_body(a) + quote_body(b),
    decreases b.len(),
{
    if b.len() == 0 {
        assert(a + b =~= a);
        assert(quote_body(a) + quote_body(b) =~= quote_body(a));
    } else {
        lemma_quote_body_concat(a, b.drop_last());
        assert((a + b).drop_last() =~= a + b.drop_last());
        assert((a + b).last() == b.last());
    }
}

proof fn lemma_fish_body_concat(a: Seq<char>, b: Seq<char>)
    ensures
        fish_body(a + b) == fish_body(a) + fish_body(b),
    decreases b.len(),
{
    if b.len() == 0 {
        assert(a + b =~= a);
        assert(fish_body(a) + fish_body(b) =~= fish_body(a));
    } else {
        lemma_fish_body_concat(a, b.drop_last());
        assert((a + b).drop_last() =~= a + b.drop_last());
        assert((a + b).last() == b.last());
    }
}

proof fn lemma_sh_reads_body(t: Seq<char>, rest: Seq<char>)
    ensures
        sh_inside(quote_body(t) + seq!['\''] + rest) == t + sh_outside(rest),
    decreases t.len(),
{
    reveal_strlit("'\\''");
    if t.len() == 0 {
        let w = seq!['\''] + rest;
        assert(quote_body(t) + seq!['\''] + rest =~= w);
        assert(w.skip(1) =~= rest);
        assert(w[0] == '\'');
        assert(sh_inside(w) == sh_outside(w.skip(1)));
        assert(t + sh_outside(rest) =~= sh_outside(rest));
    } else {
        let c = t[0];
        let tail = t.skip(1);
        assert(t =~= seq![c] + tail);
        lemma_quote_body_concat(seq![c], tail);
        assert(seq![c].drop_last() =~= Seq::<char>::empty());
        assert(seq![c].last() == c);
        assert(quote_body(Seq::<char>::empty()) == Seq::<char>::empty());
        if c == '\'' {
            assert(quote_body(seq![c]) =~= "'\\''"@);
        } else {
            assert(quote_body(seq![c]) =~= seq![c]);
        }
        lemma_sh_reads_body(tail, rest);
        let after = quote_body(tail) + seq!['\''] + rest;
        if c == '\'' {
            let w = "'\\''"@ + after;
            assert(quote_body(t) + seq!['\''] + rest =~= w);
            assert(w.skip(1) =~= seq!['\\', '\''] + seq!['\''] + after);
            assert((seq!['\\', '\''] + seq!['\''] + after).skip(2) =~= seq!['\''] + after);
            assert((seq!['\''] + after).skip(1) =~= after);
            let w1 = w.skip(1);
            let w2 = w1.skip(2);
            assert(w[0] == '\'');
            assert(sh_inside(w) == sh_outside(w1));
            assert(w1[0] == '\\' && w1[1] == '\'');
            assert(sh_outside(w1) == seq!['\''] + sh_outside(w2));
            assert(w2[0] == '\'');
            assert(sh_outside(w2) == sh_inside(w2.skip(1)));
            assert(w2.skip(1) =~= after);
            assert(t + sh_outside(rest) =~= seq!['\''] + (tail + sh_outside(rest)));
        } else {
            let w = seq![c] + after;
            assert(quote_body(t) + seq!['\''] + rest =~= w);
            assert(w.skip(1) =~= after);
            assert(w[0] == c);
            assert(sh_inside(w) == seq![c] + sh_inside(w.skip(1)));
            assert(t + sh_outside(rest) =~= seq![c] + (tail + sh_outside(rest)));
        }
    }
}

proof fn lemma_fish_reads_body(t: Seq<char>, rest: Seq<char>)
    ensures
        fish_inside(fish_body(t) + seq!['\''] + rest) == t,
    decreases t.len(),
{
    reveal_strlit("\\\\");
    reveal_strlit("\\'");
    if t.len() == 0 {
        assert(fish_body(t) + seq!['\''] + rest =~= seq!['\''] + rest);
    } else {
        let c = t[0];
        let tail = t.skip(1);
        assert(t =~= seq![c] + tail);
        lemma_fish_body_concat(seq![c], tail);
        assert(seq![c].drop_last() =~= Seq::<char>::empty());
        assert(seq![c].last() == c);
        assert(fish_body(Seq::<char>::empty()) == Seq::<char>::empty());
        if c == '\\' {
            assert(fish_body(seq![c]) =~= "\\\\"@);
        } else if c == '\'' {
            assert(fish_body(seq![c]) =~= "\\'"@);
        } else {
            assert(fish_body(seq![c]) =~= seq![c]);
        }
        lemma_fish_reads_body(tail, rest);
        let after = fish_body(tail) + seq!['\''] + rest;
        if c == '\\' || c == '\'' {
            let w = seq!['\\', c] + after;
            assert(fish_body(seq![c]) =~= seq!['\\', c]);
            assert(fish_body(t) + seq!['\''] + rest =~= w);
            assert(w.skip(2) =~= after);
        } else {
            let w = seq![c] + after;
            assert(fish_body(t) + seq!['\''] + rest =~= w);
            assert(w.skip(1) =~= after);
        }
    }
}

/// The snippet quotes every path so the shell reads back exactly that path: a POSIX shell
/// reading the single-quoted word for bash and zsh, and fish reading its own single-quoted
/// word, each get the path's characters and nothing else.
pub proof fn lemma_quoting_reads_back(path: Seq<char>)
    ensures
        sh_outside(quoted_spec(path)) == path,
        fish_quoted_spec(path)[0] == '\'' && fish_inside(fish_quoted_spec(path).skip(1)) == path,
{
    reveal_strlit("'");
    let w = quoted_spec(path);
    assert(w =~= seq!['\''] + (quote_body(path) + seq!['\''] + Seq::<char>::empty()));
    assert(w.skip(1) =~= quote_body(path) + seq!['\''] + Seq::<char>::empty());
    lemma_sh_reads_body(path, Seq::empty());
    assert(path + sh_outside(Seq::<char>::empty()) =~= path);
    let f = fish_quoted_spec(path);
    assert(f.skip(1) =~= fish_body(path) + seq!['\''] + Seq::<char>::empty());
    lemma_fish_reads_body(path, Seq::empty());
}

/// The bash snippet asks `stat` for an mtime the way the platform's `stat` spells it:
/// `-c %Y` for GNU and busybox, `-f %m` for the BSDs.
pub proof fn lemma_bash_stat(paths: Seq<Seq<char>>, stat: Stat)
    ensures
        bash_spec(paths, stat) == preamble_spec("bash"@) + BASH_HEAD@ + stat_arguments(stat) + BASH_MOVED@ + bash_spec(
            paths,
            stat,
        ).skip((preamble_spec("bash"@) + BASH_HEAD@ + stat_arguments(stat) + BASH_MOVED@).len() as int),
        stat == Stat::Gnu ==> stat_arguments(stat) == "-c %Y"@,
        stat == Stat::Bsd ==> stat_arguments(stat) == "-f %m"@,
{
    let head = preamble_spec("bash"@) + BASH_HEAD@ + stat_arguments(stat) + BASH_MOVED@;
    assert(bash_spec(paths, stat) =~= head + bash_spec(paths, stat).skip(head.len() as int));
}

} // verus!
