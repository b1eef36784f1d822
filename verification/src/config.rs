//! The config file: what to render, where to write it, and what to run afterwards.
//!
//! Every problem the file has is reported in one pass.

use vstd::prelude::*;
use vstd::string::*;

use crate::location::{is_absolute, is_absolute_spec, join, join_spec};
use crate::text::{chars_of, decimal, decimal_chars, push_all, push_str, same_chars, string_of};
use crate::theme::{variant_of, ThemeId, Variant};
use crate::token::{is_segment, is_segment_spec};
use crate::toml::{kind_name_spec, line_number, line_of, parse_toml, toml_document, TomlEntry, TomlTable, TomlValue};

verus! {

/// A target's identifier: what `check` prints and what an error message names.
#[derive(Debug)]
pub struct TargetName {
    text: String,
}

impl View for TargetName {
    type V = Seq<char>;

    closed spec fn view(&self) -> Seq<char> {
        self.text@
    }
}

impl Clone for TargetName {
    fn clone(&self) -> (copy: Self)
        ensures
            copy@ == self@,
    {
        proof {
            use_type_invariant(self);
        }
        TargetName { text: self.text.clone() }
    }
}

impl TargetName {
    #[verifier::type_invariant]
    pub closed spec fn well_formed(self) -> bool {
        is_segment_spec(self.text@)
    }

    /// What the type invariant says of a name.
    pub proof fn lemma_well_formed(name: TargetName)
        requires
            name.well_formed(),
        ensures
            is_segment_spec(name@),
    {
    }

    /// Parses `text` as a target name, returning `None` when it is not a single segment.
    pub fn parse(text: &str) -> (name: Option<TargetName>)
        ensures
            name is Some <==> is_segment_spec(text@),
            name matches Some(n) ==> n@ == text@,
    {
        if is_segment(text) {
            Some(TargetName { text: text.to_owned() })
        } else {
            None
        }
    }

    /// The name as written.
    pub fn as_str(&self) -> (text: &str)
        ensures
            text@ == self@,
    {
        self.text.as_str()
    }

    /// Whether two names are the same.
    pub fn same(&self, other: &TargetName) -> (equal: bool)
        ensures
            equal == (self@ == other@),
    {
        self.text == other.text
    }
}

/// A shell that sources a target's output.
///
/// `vanadis hook <shell>` prints the snippet that sources every target carrying this shell,
/// and sources it again when its output changes.
#[derive(Debug, Clone, Copy, PartialEq, Eq, Structural)]
pub enum Shell {
    /// zsh, which reads an mtime with `zstat` and hooks `precmd`.
    Zsh,
    /// fish, which reads an mtime with `path mtime` and hooks the `fish_prompt` event.
    Fish,
    /// bash, which forks `stat` and appends to `PROMPT_COMMAND`.
    Bash,
}

/// The name a shell is written by.
pub open spec fn shell_name(shell: Shell) -> Seq<char> {
    match shell {
        Shell::Zsh => "zsh"@,
        Shell::Fish => "fish"@,
        Shell::Bash => "bash"@,
    }
}

/// The shell `text` names, if any.
pub open spec fn shell_of(text: Seq<char>) -> Option<Shell> {
    if text == "zsh"@ {
        Some(Shell::Zsh)
    } else if text == "fish"@ {
        Some(Shell::Fish)
    } else if text == "bash"@ {
        Some(Shell::Bash)
    } else {
        None
    }
}

impl Shell {
    /// Every shell `hook` emits for, in the order `--help` lists them.
    pub fn all() -> (shells: [Shell; 3])
        ensures
            shells@ == seq![Shell::Zsh, Shell::Fish, Shell::Bash],
    {
        let shells = [Shell::Zsh, Shell::Fish, Shell::Bash];
        proof {
            assert(shells@ =~= seq![Shell::Zsh, Shell::Fish, Shell::Bash]);
        }
        shells
    }

    /// Parses `text` as a shell name, returning `None` when it names none of them.
    pub fn parse(text: &str) -> (shell: Option<Shell>)
        ensures
            shell == shell_of(text@),
    {
        let chars = chars_of(text);
        proof {
            reveal_strlit("zsh");
            reveal_strlit("fish");
            reveal_strlit("bash");
        }
        if chars.len() == 3 && chars[0] == 'z' && chars[1] == 's' && chars[2] == 'h' {
            proof {
                assert(chars@ =~= "zsh"@);
            }
            Some(Shell::Zsh)
        } else if chars.len() == 4 && chars[0] == 'f' && chars[1] == 'i' && chars[2] == 's' && chars[3] == 'h' {
            proof {
                assert(chars@ =~= "fish"@);
            }
            Some(Shell::Fish)
        } else if chars.len() == 4 && chars[0] == 'b' && chars[1] == 'a' && chars[2] == 's' && chars[3] == 'h' {
            proof {
                assert(chars@ =~= "bash"@);
            }
            Some(Shell::Bash)
        } else {
            proof {
                if chars@ == "zsh"@ {
                    assert(chars@[0] == 'z');
                }
                if chars@ == "fish"@ {
                    assert(chars@[0] == 'f' && chars@[3] == 'h');
                }
                if chars@ == "bash"@ {
                    assert(chars@[0] == 'b' && chars@[3] == 'h');
                }
            }
            None
        }
    }

    /// The name the config file and the command line both write.
    pub fn as_str(self) -> (name: &'static str)
        ensures
            name@ == shell_name(self),
    {
        match self {
            Shell::Zsh => "zsh",
            Shell::Fish => "fish",
            Shell::Bash => "bash",
        }
    }
}

/// The themes a bare `vanadis apply --variant` resolves through.
#[derive(Debug)]
pub struct Auto {
    light: ThemeId,
    dark: ThemeId,
}

impl View for Auto {
    type V = (Seq<char>, Seq<char>);

    closed spec fn view(&self) -> (Seq<char>, Seq<char>) {
        (self.light@, self.dark@)
    }
}

impl Auto {
    /// The theme this table names for `variant`.
    pub fn theme(&self, variant: Variant) -> (theme: &ThemeId)
        ensures
            theme@ == match variant {
                Variant::Dark => self@.1,
                Variant::Light => self@.0,
            },
    {
        match variant {
            Variant::Dark => &self.dark,
            Variant::Light => &self.light,
        }
    }
}

/// The themes `vanadis cycle` steps through, in the order the file writes them.
///
/// At least two, and no repeats: both follow from how [`Cycle::next`] finds where it is. It
/// looks the applied theme up in the list rather than reading an index out of the state
/// file, and a list that is empty or that writes one theme twice has no answer to give it.
/// The head is held apart from the tail so that "at least two" is true of the type.
#[derive(Debug)]
pub struct Cycle {
    head: ThemeId,
    tail: Vec<ThemeId>,
}

/// Identifiers as plain values.
pub open spec fn id_views(ids: Seq<ThemeId>) -> Seq<Seq<char>> {
    ids.map_values(|id: ThemeId| id@)
}

/// Whether no theme is written twice.
pub open spec fn no_repeats(themes: Seq<Seq<char>>) -> bool {
    forall|i: int, j: int| 0 <= i < j < themes.len() ==> themes[i] != themes[j]
}

impl View for Cycle {
    type V = Seq<Seq<char>>;

    closed spec fn view(&self) -> Seq<Seq<char>> {
        seq![self.head@] + id_views(self.tail@)
    }
}

/// Where `current` stands in `themes`, when it does.
pub open spec fn position_of(themes: Seq<Seq<char>>, current: Seq<char>) -> Option<int> {
    if exists|i: int| 0 <= i < themes.len() && themes[i] == current {
        Some(choose|i: int| 0 <= i < themes.len() && themes[i] == current)
    } else {
        None
    }
}

/// The theme that follows `current` in `themes`, wrapping at the end; the first when
/// `current` is nothing or a theme the list does not name.
pub open spec fn next_spec(themes: Seq<Seq<char>>, current: Option<Seq<char>>) -> Seq<char> {
    match current {
        None => themes[0],
        Some(c) => match position_of(themes, c) {
            None => themes[0],
            Some(i) => if i + 1 < themes.len() {
                themes[i + 1]
            } else {
                themes[0]
            },
        },
    }
}

impl Cycle {
    #[verifier::type_invariant]
    pub closed spec fn well_formed(self) -> bool {
        self.tail@.len() >= 1 && no_repeats(seq![self.head@] + id_views(self.tail@))
    }

    /// What the type invariant says of a cycle: at least two themes, none twice.
    pub proof fn lemma_well_formed(cycle: Cycle)
        requires
            cycle.well_formed(),
        ensures
            cycle@.len() >= 2,
            no_repeats(cycle@),
    {
    }

    /// Every theme, in the order the file writes them.
    pub fn themes(&self) -> (themes: Vec<ThemeId>)
        ensures
            id_views(themes@) == self@,
    {
        let mut themes: Vec<ThemeId> = Vec::new();
        themes.push(self.head.clone());
        let mut i: usize = 0;
        proof {
            assert(id_views(themes@) =~= seq![self.head@] + id_views(self.tail@).take(0));
        }
        while i < self.tail.len()
            invariant
                i <= self.tail@.len(),
                id_views(themes@) == seq![self.head@] + id_views(self.tail@).take(i as int),
            decreases self.tail@.len() - i,
        {
            let ghost before = id_views(themes@);
            themes.push(self.tail[i].clone());
            proof {
                assert(id_views(themes@) =~= before.push(self.tail@[i as int]@));
                assert(id_views(self.tail@).take(i + 1) =~= id_views(self.tail@).take(i as int).push(self.tail@[i as int]@));
            }
            i = i + 1;
        }
        proof {
            assert(id_views(self.tail@).take(self.tail@.len() as int) =~= id_views(self.tail@));
        }
        themes
    }

    /// The theme that follows `current`, wrapping at the end of the list.
    ///
    /// `current` is what the state file records, and `None` is a machine that has applied
    /// nothing yet. Both that and a theme the list does not name answer with the first entry:
    /// a cycle that cannot say where it is starts at the beginning.
    pub fn next(&self, current: Option<&ThemeId>) -> (next: ThemeId)
        ensures
            next@ == next_spec(
                self@,
                match current {
                    Some(c) => Some(c@),
                    None => None,
                },
            ),
    {
        proof {
            use_type_invariant(self);
        }
        let themes = self.themes();
        let ghost all = id_views(themes@);
        match current {
            None => {
                assert(all[0] == themes@[0]@);
                themes[0].clone()
            },
            Some(c) => {
                let mut i: usize = 0;
                while i < themes.len()
                    invariant
                        i <= themes@.len(),
                        all == id_views(themes@),
                        all == self@,
                        current == Some(c),
                        all.len() >= 2,
                        no_repeats(all),
                        forall|j: int| 0 <= j < i ==> all[j] != c@,
                    decreases themes@.len() - i,
                {
                    if themes[i].same(c) {
                        proof {
                            assert(all[i as int] == c@);
                            let k = choose|k: int| 0 <= k < all.len() && all[k] == c@;
                            if k != i {
                                if k < i {
                                    assert(all[k] != all[i as int]);
                                } else {
                                    assert(all[i as int] != all[k]);
                                }
                            }
                            assert(position_of(all, c@) == Some(i as int));
                        }
                        if i + 1 < themes.len() {
                            assert(all[i + 1] == themes@[i + 1]@);
                            return themes[i + 1].clone();
                        }
                        assert(all[0] == themes@[0]@);
                        return themes[0].clone();
                    }
                    i = i + 1;
                }
                assert(all[0] == themes@[0]@);
                themes[0].clone()
            },
        }
    }
}

/// Stepping past the last theme of a cycle comes back to the first.
pub proof fn lemma_next_wraps(themes: Seq<Seq<char>>)
    requires
        themes.len() >= 2,
        no_repeats(themes),
    ensures
        next_spec(themes, Some(themes.last())) == themes[0],
{
    let last = themes.len() - 1;
    assert(themes[last] == themes.last());
    let i = choose|i: int| 0 <= i < themes.len() && themes[i] == themes.last();
    if i != last {
        assert(themes[i] != themes[last]);
    }
}

/// Stepping from a theme of the cycle lands on the one written after it, and starting from
/// the first and stepping as many times as there are themes visits each one once.
pub proof fn lemma_next_steps(themes: Seq<Seq<char>>, i: int)
    requires
        themes.len() >= 2,
        no_repeats(themes),
        0 <= i < themes.len() - 1,
    ensures
        next_spec(themes, Some(themes[i])) == themes[i + 1],
{
    let k = choose|k: int| 0 <= k < themes.len() && themes[k] == themes[i];
    if k != i {
        if k < i {
            assert(themes[k] != themes[i]);
        } else {
            assert(themes[i] != themes[k]);
        }
    }
}

/// One target's own themes, which win over the theme being applied.
#[derive(Debug)]
pub struct Themes {
    dark: Option<ThemeId>,
    light: Option<ThemeId>,
}

/// An optional identifier as a plain value.
pub open spec fn opt_id(id: Option<ThemeId>) -> Option<Seq<char>> {
    match id {
        Some(i) => Some(i@),
        None => None,
    }
}

impl View for Themes {
    type V = (Option<Seq<char>>, Option<Seq<char>>);

    closed spec fn view(&self) -> (Option<Seq<char>>, Option<Seq<char>>) {
        (opt_id(self.dark), opt_id(self.light))
    }
}

/// The theme a target's table names for `variant`.
pub open spec fn pinned(themes: (Option<Seq<char>>, Option<Seq<char>>), variant: Variant) -> Option<Seq<char>> {
    match variant {
        Variant::Dark => themes.0,
        Variant::Light => themes.1,
    }
}

/// An optional borrowed identifier as a plain value.
pub open spec fn opt_ref_id(id: Option<&ThemeId>) -> Option<Seq<char>> {
    match id {
        Some(i) => Some(i@),
        None => None,
    }
}

impl Themes {
    /// The theme this table names for `variant`, or `None` when it names none.
    pub fn theme(&self, variant: Variant) -> (theme: Option<&ThemeId>)
        ensures
            opt_ref_id(theme) == pinned(self@, variant),
    {
        match variant {
            Variant::Dark => match &self.dark {
                Some(t) => Some(t),
                None => None,
            },
            Variant::Light => match &self.light {
                Some(t) => Some(t),
                None => None,
            },
        }
    }
}

/// One template, where it is written, and what runs afterwards.
#[derive(Debug)]
pub struct Target {
    name: TargetName,
    template: String,
    output: String,
    reload: Vec<String>,
    shell: Option<Shell>,
    themes: Option<Themes>,
}

/// A target as plain values.
pub struct TargetView {
    pub name: Seq<char>,
    pub template: Seq<char>,
    pub output: Seq<char>,
    pub reload: Seq<Seq<char>>,
    pub shell: Option<Shell>,
    pub themes: Option<(Option<Seq<char>>, Option<Seq<char>>)>,
}

/// Strings as plain values.
pub open spec fn text_views(texts: Seq<String>) -> Seq<Seq<char>> {
    texts.map_values(|t: String| t@)
}

impl View for Target {
    type V = TargetView;

    closed spec fn view(&self) -> TargetView {
        TargetView {
            name: self.name@,
            template: self.template@,
            output: self.output@,
            reload: text_views(self.reload@),
            shell: self.shell,
            themes: match self.themes {
                Some(t) => Some(t@),
                None => None,
            },
        }
    }
}

impl Target {
    /// The target's identifier.
    pub fn name(&self) -> (name: &TargetName)
        ensures
            name@ == self@.name,
    {
        &self.name
    }

    /// The template to render.
    pub fn template(&self) -> (template: &str)
        ensures
            template@ == self@.template,
    {
        self.template.as_str()
    }

    /// The file to write.
    pub fn output(&self) -> (output: &str)
        ensures
            output@ == self@.output,
    {
        self.output.as_str()
    }

    /// What to run after the write, empty when nothing runs.
    pub fn reload(&self) -> (reload: &Vec<String>)
        ensures
            text_views(reload@) == self@.reload,
    {
        &self.reload
    }

    /// The shell whose `hook` sources this output, or `None` when no shell does.
    pub fn shell(&self) -> (shell: Option<Shell>)
        ensures
            shell == self@.shell,
    {
        self.shell
    }

    /// The target's own themes, or `None` when it follows the theme being applied.
    pub fn themes(&self) -> (themes: Option<&Themes>)
        ensures
            match themes {
                Some(t) => self@.themes == Some(t@),
                None => self@.themes is None,
            },
    {
        match &self.themes {
            Some(t) => Some(t),
            None => None,
        }
    }
}

/// One thing wrong with a config file.
#[derive(Debug, PartialEq, Eq)]
pub enum Problem {
    /// A key holding the wrong kind of value.
    Type {
        /// The key, qualified by the table it sits in.
        key: String,
        /// The line the key is written on.
        line: usize,
        /// The TOML type found instead.
        found: String,
    },
    /// A required key that is not written.
    Missing {
        /// The key, qualified by the table it sits in.
        key: String,
        /// The line the table it belongs to opens on.
        line: usize,
    },
    /// A key the format does not define.
    Unknown {
        /// The key, qualified by the table it sits in.
        key: String,
        /// The line the key is written on.
        line: usize,
    },
    /// A target name that is not a single segment.
    Name {
        /// The name, as the file writes it.
        name: String,
        /// The line the name is written on.
        line: usize,
    },
    /// Two targets written with the same name.
    Duplicate {
        /// The name both targets carry.
        name: String,
        /// The line the second one is written on.
        line: usize,
    },
    /// One theme written twice in the cycle.
    Repeated {
        /// The theme both entries name.
        theme: String,
        /// The line the table is written on.
        line: usize,
    },
    /// A cycle of fewer than two themes.
    Short {
        /// The line the table is written on.
        line: usize,
    },
    /// A theme name that is not a theme identifier.
    Theme {
        /// The key, qualified by the table it sits in.
        key: String,
        /// The line the key is written on.
        line: usize,
        /// The value, as the file writes it.
        value: String,
    },
    /// A `shell` naming a shell `hook` does not emit for.
    Shell {
        /// The value, as the file writes it.
        value: String,
        /// The line the key is written on.
        line: usize,
    },
    /// A path starting with `~` when there is no home directory to expand it to.
    Home {
        /// The key, qualified by the table it sits in.
        key: String,
        /// The line the key is written on.
        line: usize,
    },
}

/// A config problem as plain values: its kind, its texts and its line.
pub enum CProblem {
    Type { key: Seq<char>, line: usize, found: Seq<char> },
    Missing { key: Seq<char>, line: usize },
    Unknown { key: Seq<char>, line: usize },
    Name { name: Seq<char>, line: usize },
    Duplicate { name: Seq<char>, line: usize },
    Repeated { theme: Seq<char>, line: usize },
    Short { line: usize },
    Theme { key: Seq<char>, line: usize, value: Seq<char> },
    Shell { value: Seq<char>, line: usize },
    Home { key: Seq<char>, line: usize },
}

impl View for Problem {
    type V = CProblem;

    open spec fn view(&self) -> CProblem {
        match self {
            Problem::Type { key, line, found } => CProblem::Type { key: key@, line: *line, found: found@ },
            Problem::Missing { key, line } => CProblem::Missing { key: key@, line: *line },
            Problem::Unknown { key, line } => CProblem::Unknown { key: key@, line: *line },
            Problem::Name { name, line } => CProblem::Name { name: name@, line: *line },
            Problem::Duplicate { name, line } => CProblem::Duplicate { name: name@, line: *line },
            Problem::Repeated { theme, line } => CProblem::Repeated { theme: theme@, line: *line },
            Problem::Short { line } => CProblem::Short { line: *line },
            Problem::Theme { key, line, value } => CProblem::Theme { key: key@, line: *line, value: value@ },
            Problem::Shell { value, line } => CProblem::Shell { value: value@, line: *line },
            Problem::Home { key, line } => CProblem::Home { key: key@, line: *line },
        }
    }
}

/// The line a problem is on.
pub open spec fn cproblem_line(p: CProblem) -> usize {
    match p {
        CProblem::Type { line, .. } => line,
        CProblem::Missing { line, .. } => line,
        CProblem::Unknown { line, .. } => line,
        CProblem::Name { line, .. } => line,
        CProblem::Duplicate { line, .. } => line,
        CProblem::Repeated { line, .. } => line,
        CProblem::Short { line } => line,
        CProblem::Theme { line, .. } => line,
        CProblem::Shell { line, .. } => line,
        CProblem::Home { line, .. } => line,
    }
}

impl Problem {
    /// The line the problem is on, which is what problems are ordered by.
    pub fn line(&self) -> (line: usize)
        ensures
            line == cproblem_line(self@),
    {
        match self {
            Problem::Type { line, .. } => *line,
            Problem::Missing { line, .. } => *line,
            Problem::Unknown { line, .. } => *line,
            Problem::Name { line, .. } => *line,
            Problem::Duplicate { line, .. } => *line,
            Problem::Repeated { line, .. } => *line,
            Problem::Short { line } => *line,
            Problem::Theme { line, .. } => *line,
            Problem::Shell { line, .. } => *line,
            Problem::Home { line, .. } => *line,
        }
    }
}

/// The problems as plain values.
pub open spec fn cproblems(problems: Seq<Problem>) -> Seq<CProblem> {
    problems.map_values(|p: Problem| p@)
}

/// The first entry of `entries` written under `key`.
pub open spec fn entry_of(entries: Seq<TomlEntry>, key: Seq<char>) -> Option<TomlEntry>
    decreases entries.len(),
{
    if entries.len() == 0 {
        None
    } else if entries[0].key@ == key {
        Some(entries[0])
    } else {
        entry_of(entries.drop_first(), key)
    }
}

/// The line `key` is written on in `entries`, or 0 when it is not written.
pub open spec fn key_line(bytes: Seq<u8>, entries: Seq<TomlEntry>, key: Seq<char>) -> usize {
    match entry_of(entries, key) {
        Some(e) => line_number(bytes, e.offset),
        None => 0,
    }
}

/// `prefix.key`.
pub open spec fn qualify(prefix: Seq<char>, key: Seq<char>) -> Seq<char> {
    prefix + "."@ + key
}

/// A value of the wrong kind under `key`.
pub open spec fn wrong_type(key: Seq<char>, line: usize, value: TomlValue) -> CProblem {
    CProblem::Type { key, line, found: kind_name_spec(value) }
}

/// Reading `value` as a theme identifier under `key`, on `line`.
pub open spec fn identifier_spec(ps: Seq<CProblem>, value: TomlValue, key: Seq<char>, line: usize) -> (Seq<CProblem>, Option<Seq<char>>) {
    match value {
        TomlValue::Str(text) => if is_segment_spec(text@) {
            (ps, Some(text@))
        } else {
            (ps.push(CProblem::Theme { key, line, value: text@ }), None)
        },
        _ => (ps.push(wrong_type(key, line, value)), None),
    }
}

/// Reading the required theme `key` of a table whose entries are `entries`, opening on `line`.
pub open spec fn theme_spec(
    bytes: Seq<u8>,
    ps: Seq<CProblem>,
    entries: Seq<TomlEntry>,
    prefix: Seq<char>,
    key: Seq<char>,
    line: usize,
) -> (Seq<CProblem>, Option<Seq<char>>) {
    let qualified = qualify(prefix, key);
    match entry_of(entries, key) {
        None => (ps.push(CProblem::Missing { key: qualified, line }), None),
        Some(e) => identifier_spec(ps, e.value, qualified, line_number(bytes, e.offset)),
    }
}

/// Every key of a table but the allowed ones, as unknown under `prefix`.
pub open spec fn unknown_keys(
    bytes: Seq<u8>,
    ps: Seq<CProblem>,
    entries: Seq<TomlEntry>,
    prefix: Seq<char>,
    allowed: Seq<Seq<char>>,
) -> Seq<CProblem>
    decreases entries.len(),
{
    if entries.len() == 0 {
        ps
    } else {
        let before = unknown_keys(bytes, ps, entries.drop_last(), prefix, allowed);
        let e = entries.last();
        if allowed.contains(e.key@) {
            before
        } else {
            before.push(CProblem::Unknown { key: qualify(prefix, e.key@), line: line_number(bytes, e.offset) })
        }
    }
}

/// Reading `[auto]`, whose entries are `entries`, opening on `line`.
pub open spec fn auto_spec(bytes: Seq<u8>, ps: Seq<CProblem>, entries: Seq<TomlEntry>, line: usize) -> (
    Seq<CProblem>,
    Option<(Seq<char>, Seq<char>)>,
) {
    let ps1 = unknown_keys(bytes, ps, entries, "auto"@, seq!["light"@, "dark"@]);
    let (ps2, light) = theme_spec(bytes, ps1, entries, "auto"@, "light"@, line);
    let (ps3, dark) = theme_spec(bytes, ps2, entries, "auto"@, "dark"@, line);
    (ps3, if light is Some && dark is Some { Some((light->0, dark->0)) } else { None })
}

/// Reading the entries of `cycle.themes` from `k` on, on `line`, having kept `kept`.
pub open spec fn cycle_entries(ps: Seq<CProblem>, values: Seq<TomlValue>, k: int, line: usize, kept: Seq<Seq<char>>) -> (
    Seq<CProblem>,
    Seq<Seq<char>>,
)
    decreases values.len() - k,
{
    if k < 0 || k >= values.len() {
        (ps, kept)
    } else {
        match values[k] {
            TomlValue::Str(text) => if !is_segment_spec(text@) {
                cycle_entries(ps.push(CProblem::Theme { key: "cycle.themes"@, line, value: text@ }), values, k + 1, line, kept)
            } else if kept.contains(text@) {
                cycle_entries(ps.push(CProblem::Repeated { theme: text@, line }), values, k + 1, line, kept)
            } else {
                cycle_entries(ps, values, k + 1, line, kept.push(text@))
            },
            _ => cycle_entries(ps.push(wrong_type("cycle.themes"@, line, values[k])), values, k + 1, line, kept),
        }
    }
}

/// Reading `[cycle]`, whose entries are `entries`, opening on `line`.
pub open spec fn cycle_spec(bytes: Seq<u8>, ps: Seq<CProblem>, entries: Seq<TomlEntry>, line: usize) -> (
    Seq<CProblem>,
    Option<Seq<Seq<char>>>,
) {
    let ps1 = unknown_keys(bytes, ps, entries, "cycle"@, seq!["themes"@]);
    match entry_of(entries, "themes"@) {
        None => (ps1.push(CProblem::Missing { key: "cycle.themes"@, line }), None),
        Some(e) => {
            let at = line_number(bytes, e.offset);
            match e.value {
                TomlValue::Array(values) => {
                    let ps2 = if values@.len() < 2 { ps1.push(CProblem::Short { line: at }) } else { ps1 };
                    let (ps3, themes) = cycle_entries(ps2, values@, 0, at, Seq::empty());
                    (ps3, if themes.len() >= 2 { Some(themes) } else { None })
                },
                _ => (ps1.push(wrong_type("cycle.themes"@, at, e.value)), None),
            }
        },
    }
}

/// Reading the required string `key` of a table whose entries are `entries`, opening on
/// `line`.
pub open spec fn string_spec(
    bytes: Seq<u8>,
    ps: Seq<CProblem>,
    entries: Seq<TomlEntry>,
    prefix: Seq<char>,
    key: Seq<char>,
    line: usize,
) -> (Seq<CProblem>, Option<Seq<char>>) {
    let qualified = qualify(prefix, key);
    match entry_of(entries, key) {
        None => (ps.push(CProblem::Missing { key: qualified, line }), None),
        Some(e) => match e.value {
            TomlValue::Str(text) => (ps, Some(text@)),
            _ => (ps.push(wrong_type(qualified, line_number(bytes, e.offset), e.value)), None),
        },
    }
}

/// Reading a target's `name`.
pub open spec fn name_spec(bytes: Seq<u8>, ps: Seq<CProblem>, entries: Seq<TomlEntry>, line: usize) -> (
    Seq<CProblem>,
    Option<Seq<char>>,
) {
    let (ps1, text) = string_spec(bytes, ps, entries, "targets"@, "name"@, line);
    match text {
        None => (ps1, None),
        Some(t) => if is_segment_spec(t) {
            (ps1, Some(t))
        } else {
            (ps1.push(CProblem::Name { name: t, line: key_line(bytes, entries, "name"@) }), None)
        },
    }
}

/// `text` without the slashes it starts with.
pub open spec fn trim_slashes(text: Seq<char>) -> Seq<char>
    decreases text.len(),
{
    if text.len() > 0 && text[0] == '/' {
        trim_slashes(text.drop_first())
    } else {
        text
    }
}

/// Reading a target's path `key`: `~/` expands to `home`, and a relative path resolves
/// against `directory`. `~user` is someone else's home directory, which is not expanded.
pub open spec fn path_spec(
    bytes: Seq<u8>,
    ps: Seq<CProblem>,
    entries: Seq<TomlEntry>,
    key: Seq<char>,
    line: usize,
    directory: Seq<char>,
    home: Option<Seq<char>>,
) -> (Seq<CProblem>, Option<Seq<char>>) {
    let (ps1, text) = string_spec(bytes, ps, entries, "targets"@, key, line);
    match text {
        None => (ps1, None),
        Some(t) => if t.len() == 0 || t[0] != '~' {
            (ps1, Some(if is_absolute_spec(t) { t } else { join_spec(directory, t) }))
        } else if t.len() > 1 && t[1] != '/' {
            (ps1, Some(join_spec(directory, t)))
        } else {
            match home {
                None => (ps1.push(CProblem::Home { key: qualify("targets"@, key), line: key_line(bytes, entries, key) }), None),
                Some(h) => (ps1, Some(join_spec(h, trim_slashes(t.drop_first())))),
            }
        },
    }
}

/// Reading the entries of a target's `reload` from `k` on, on `line`.
pub open spec fn reload_items(ps: Seq<CProblem>, values: Seq<TomlValue>, k: int, line: usize, kept: Seq<Seq<char>>) -> (
    Seq<CProblem>,
    Seq<Seq<char>>,
)
    decreases values.len() - k,
{
    if k < 0 || k >= values.len() {
        (ps, kept)
    } else {
        match values[k] {
            TomlValue::Str(text) => reload_items(ps, values, k + 1, line, kept.push(text@)),
            _ => reload_items(ps.push(wrong_type("targets.reload"@, line, values[k])), values, k + 1, line, kept),
        }
    }
}

/// Reading a target's `reload`, which is empty when the target has none.
pub open spec fn reload_spec(bytes: Seq<u8>, ps: Seq<CProblem>, entries: Seq<TomlEntry>) -> (Seq<CProblem>, Seq<Seq<char>>) {
    match entry_of(entries, "reload"@) {
        None => (ps, Seq::empty()),
        Some(e) => {
            let at = line_number(bytes, e.offset);
            match e.value {
                TomlValue::Array(values) => reload_items(ps, values@, 0, at, Seq::empty()),
                _ => (ps.push(wrong_type("targets.reload"@, at, e.value)), Seq::empty()),
            }
        },
    }
}

/// Reading a target's `shell`, which is `None` when the target has none.
pub open spec fn shell_spec(bytes: Seq<u8>, ps: Seq<CProblem>, entries: Seq<TomlEntry>) -> (Seq<CProblem>, Option<Shell>) {
    match entry_of(entries, "shell"@) {
        None => (ps, None),
        Some(e) => {
            let at = line_number(bytes, e.offset);
            match e.value {
                TomlValue::Str(text) => match shell_of(text@) {
                    Some(shell) => (ps, Some(shell)),
                    None => (ps.push(CProblem::Shell { value: text@, line: at }), None),
                },
                _ => (ps.push(wrong_type("targets.shell"@, at, e.value)), None),
            }
        },
    }
}

/// Reading a target's `themes` from entry `k` on.
pub open spec fn themes_from(
    bytes: Seq<u8>,
    ps: Seq<CProblem>,
    entries: Seq<TomlEntry>,
    k: int,
    acc: (Option<Seq<char>>, Option<Seq<char>>),
) -> (Seq<CProblem>, (Option<Seq<char>>, Option<Seq<char>>))
    decreases entries.len() - k,
{
    if k < 0 || k >= entries.len() {
        (ps, acc)
    } else {
        let e = entries[k];
        let at = line_number(bytes, e.offset);
        let qualified = qualify("targets.themes"@, e.key@);
        match variant_of(e.key@) {
            None => themes_from(bytes, ps.push(CProblem::Unknown { key: qualified, line: at }), entries, k + 1, acc),
            Some(variant) => {
                let (ps1, theme) = identifier_spec(ps, e.value, qualified, at);
                let acc1 = match theme {
                    None => acc,
                    Some(t) => match variant {
                        Variant::Dark => (Some(t), acc.1),
                        Variant::Light => (acc.0, Some(t)),
                    },
                };
                themes_from(bytes, ps1, entries, k + 1, acc1)
            },
        }
    }
}

/// The entries of a table written either way.
pub open spec fn table_entries(value: TomlValue) -> Seq<TomlEntry> {
    match value {
        TomlValue::Table(t) => t.entries@,
        TomlValue::Inline(t) => t.entries@,
        _ => Seq::empty(),
    }
}

/// The keys of a target the format defines, besides `themes`.
pub open spec fn target_keys() -> Seq<Seq<char>> {
    seq!["name"@, "template"@, "output"@, "reload"@, "shell"@]
}

/// Walking a target's keys from `k` on: reading `themes` and reporting what is unknown.
pub open spec fn target_walk(
    bytes: Seq<u8>,
    ps: Seq<CProblem>,
    entries: Seq<TomlEntry>,
    k: int,
    themes: Option<(Option<Seq<char>>, Option<Seq<char>>)>,
) -> (Seq<CProblem>, Option<(Option<Seq<char>>, Option<Seq<char>>)>)
    decreases entries.len() - k,
{
    if k < 0 || k >= entries.len() {
        (ps, themes)
    } else {
        let e = entries[k];
        let at = line_number(bytes, e.offset);
        if target_keys().contains(e.key@) {
            target_walk(bytes, ps, entries, k + 1, themes)
        } else if e.key@ == "themes"@ {
            if e.value.is_table_like() {
                let (ps1, t) = themes_from(bytes, ps, table_entries(e.value), 0, (None, None));
                target_walk(bytes, ps1, entries, k + 1, Some(t))
            } else {
                target_walk(bytes, ps.push(wrong_type("targets.themes"@, at, e.value)), entries, k + 1, themes)
            }
        } else {
            target_walk(bytes, ps.push(CProblem::Unknown { key: qualify("targets"@, e.key@), line: at }), entries, k + 1, themes)
        }
    }
}

/// Reading one `[[targets]]` entry, whose header is on `line`.
pub open spec fn target_spec(
    bytes: Seq<u8>,
    ps: Seq<CProblem>,
    entries: Seq<TomlEntry>,
    line: usize,
    directory: Seq<char>,
    home: Option<Seq<char>>,
) -> (Seq<CProblem>, Option<TargetView>) {
    let (ps1, themes) = target_walk(bytes, ps, entries, 0, None);
    let (ps2, name) = name_spec(bytes, ps1, entries, line);
    let (ps3, template) = path_spec(bytes, ps2, entries, "template"@, line, directory, home);
    let (ps4, output) = path_spec(bytes, ps3, entries, "output"@, line, directory, home);
    let (ps5, reload) = reload_spec(bytes, ps4, entries);
    let (ps6, shell) = shell_spec(bytes, ps5, entries);
    (
        ps6,
        if name is Some && template is Some && output is Some {
            Some(TargetView { name: name->0, template: template->0, output: output->0, reload, shell, themes })
        } else {
            None
        },
    )
}

/// A config as plain values.
pub struct ConfigView {
    pub auto: Option<(Seq<char>, Seq<char>)>,
    pub cycle: Option<Seq<Seq<char>>>,
    pub targets: Seq<TargetView>,
}

/// Reading the `[[targets]]` entries from `j` on, under a key on `line`.
pub open spec fn targets_from(
    bytes: Seq<u8>,
    ps: Seq<CProblem>,
    tables: Seq<TomlTable>,
    j: int,
    line: usize,
    directory: Seq<char>,
    home: Option<Seq<char>>,
    targets: Seq<TargetView>,
) -> (Seq<CProblem>, Seq<TargetView>)
    decreases tables.len() - j,
{
    if j < 0 || j >= tables.len() {
        (ps, targets)
    } else {
        let table = tables[j];
        let header = match table.offset {
            Some(o) => line_number(bytes, Some(o)),
            None => line,
        };
        let (ps1, target) = target_spec(bytes, ps, table.entries@, header, directory, home);
        match target {
            None => targets_from(bytes, ps1, tables, j + 1, line, directory, home, targets),
            Some(t) => if exists|i: int| 0 <= i < targets.len() && #[trigger] targets[i].name == t.name {
                targets_from(
                    bytes,
                    ps1.push(CProblem::Duplicate { name: t.name, line: key_line(bytes, table.entries@, "name"@) }),
                    tables,
                    j + 1,
                    line,
                    directory,
                    home,
                    targets,
                )
            } else {
                targets_from(bytes, ps1, tables, j + 1, line, directory, home, targets.push(t))
            },
        }
    }
}

/// Reading the document's keys from `k` on.
pub open spec fn config_from(
    bytes: Seq<u8>,
    ps: Seq<CProblem>,
    entries: Seq<TomlEntry>,
    k: int,
    directory: Seq<char>,
    home: Option<Seq<char>>,
    acc: ConfigView,
) -> (Seq<CProblem>, ConfigView)
    decreases entries.len() - k,
{
    if k < 0 || k >= entries.len() {
        (ps, acc)
    } else {
        let e = entries[k];
        let line = line_number(bytes, e.offset);
        if e.key@ == "auto"@ {
            if e.value.is_table_like() {
                let (ps1, auto) = auto_spec(bytes, ps, table_entries(e.value), line);
                config_from(bytes, ps1, entries, k + 1, directory, home, ConfigView { auto, ..acc })
            } else {
                config_from(bytes, ps.push(wrong_type("auto"@, line, e.value)), entries, k + 1, directory, home, acc)
            }
        } else if e.key@ == "cycle"@ {
            if e.value.is_table_like() {
                let (ps1, cycle) = cycle_spec(bytes, ps, table_entries(e.value), line);
                config_from(bytes, ps1, entries, k + 1, directory, home, ConfigView { cycle, ..acc })
            } else {
                config_from(bytes, ps.push(wrong_type("cycle"@, line, e.value)), entries, k + 1, directory, home, acc)
            }
        } else if e.key@ == "targets"@ {
            match e.value {
                TomlValue::Tables(tables) => {
                    let (ps1, targets) = targets_from(bytes, ps, tables@, 0, line, directory, home, acc.targets);
                    config_from(bytes, ps1, entries, k + 1, directory, home, ConfigView { targets, ..acc })
                },
                _ => config_from(bytes, ps.push(wrong_type("targets"@, line, e.value)), entries, k + 1, directory, home, acc),
            }
        } else {
            config_from(bytes, ps.push(CProblem::Unknown { key: e.key@, line }), entries, k + 1, directory, home, acc)
        }
    }
}

/// Reading a whole document.
pub open spec fn config_spec(bytes: Seq<u8>, document: TomlTable, directory: Seq<char>, home: Option<Seq<char>>) -> (
    Seq<CProblem>,
    ConfigView,
) {
    config_from(
        bytes,
        Seq::empty(),
        document.entries@,
        0,
        directory,
        home,
        ConfigView { auto: None, cycle: None, targets: Seq::empty() },
    )
}

/// `problems` ordered by line, problems on one line in the order given.
pub open spec fn sort_cproblems(problems: Seq<CProblem>) -> Seq<CProblem>
    decreases problems.len(),
{
    if problems.len() == 0 {
        Seq::empty()
    } else {
        insert_cproblem(sort_cproblems(problems.drop_last()), problems.last())
    }
}

/// `sorted` with `p` after every problem on its line or an earlier one.
pub open spec fn insert_cproblem(sorted: Seq<CProblem>, p: CProblem) -> Seq<CProblem>
    decreases sorted.len(),
{
    if sorted.len() == 0 {
        seq![p]
    } else if cproblem_line(sorted.last()) <= cproblem_line(p) {
        sorted.push(p)
    } else {
        insert_cproblem(sorted.drop_last(), p).push(sorted.last())
    }
}

/// Where `key` is first written among `entries`.
pub fn find_entry(entries: &Vec<TomlEntry>, key: &str) -> (found: Option<usize>)
    ensures
        match found {
            Some(i) => i < entries@.len() && entry_of(entries@, key@) == Some(entries@[i as int]),
            None => entry_of(entries@, key@) is None,
        },
{
    let wanted = chars_of(key);
    let mut i: usize = 0;
    proof {
        assert(entries@.skip(0) =~= entries@);
    }
    while i < entries.len()
        invariant
            i <= entries@.len(),
            wanted@ == key@,
            entry_of(entries@, key@) == entry_of(entries@.skip(i as int), key@),
        decreases entries@.len() - i,
    {
        proof {
            assert(entries@.skip(i as int)[0] == entries@[i as int]);
            assert(entries@.skip(i as int).drop_first() =~= entries@.skip(i + 1));
        }
        let here = chars_of(entries[i].key.as_str());
        if same_chars(here.as_slice(), wanted.as_slice()) {
            return Some(i);
        }
        i = i + 1;
    }
    proof {
        assert(entries@.skip(i as int) =~= Seq::<TomlEntry>::empty());
    }
    None
}

/// The line `key` is written on, or 0.
fn key_line_of(bytes: &[u8], entries: &Vec<TomlEntry>, key: &str) -> (line: usize)
    ensures
        line == key_line(bytes@, entries@, key@),
{
    match find_entry(entries, key) {
        Some(i) => line_of(bytes, entries[i].offset),
        None => 0,
    }
}

/// `prefix.key`.
fn qualified(prefix: &str, key: &str) -> (text: String)
    ensures
        text@ == qualify(prefix@, key@),
{
    let mut out: Vec<char> = Vec::new();
    push_str(&mut out, prefix);
    push_str(&mut out, ".");
    push_str(&mut out, key);
    string_of(out.as_slice())
}

/// Records a value of the wrong kind.
fn push_wrong_type(problems: &mut Vec<Problem>, key: String, line: usize, value: &TomlValue)
    ensures
        cproblems(final(problems)@) == cproblems(old(problems)@).push(wrong_type(key@, line, *value)),
{
    let found = value.kind_name();
    push_problem(problems, Problem::Type { key, line, found });
}

/// Records `problem`.
fn push_problem(problems: &mut Vec<Problem>, problem: Problem)
    ensures
        cproblems(final(problems)@) == cproblems(old(problems)@).push(problem@),
{
    problems.push(problem);
    proof {
        assert(cproblems(final(problems)@) =~= cproblems(old(problems)@).push(problem@));
    }
}

/// An optional text as a plain value.
pub open spec fn opt_text(text: Option<String>) -> Option<Seq<char>> {
    match text {
        Some(t) => Some(t@),
        None => None,
    }
}

/// Reads `value` as a theme identifier under `key`, on `line`.
fn identifier(problems: &mut Vec<Problem>, value: &TomlValue, key: String, line: usize) -> (theme: Option<ThemeId>)
    ensures
        (cproblems(final(problems)@), opt_id(theme)) == identifier_spec(cproblems(old(problems)@), *value, key@, line),
{
    match value {
        TomlValue::Str(text) => match ThemeId::parse(text.as_str()) {
            Some(id) => Some(id),
            None => {
                push_problem(problems, Problem::Theme { key, line, value: text.clone() });
                None
            },
        },
        _ => {
            push_wrong_type(problems, key, line, value);
            None
        },
    }
}

/// Reads the required theme `key` of a table opening on `line`.
fn required_theme(
    bytes: &[u8],
    problems: &mut Vec<Problem>,
    entries: &Vec<TomlEntry>,
    prefix: &str,
    key: &str,
    line: usize,
) -> (theme: Option<ThemeId>)
    ensures
        (cproblems(final(problems)@), opt_id(theme)) == theme_spec(bytes@, cproblems(old(problems)@), entries@, prefix@, key@, line),
{
    let name = qualified(prefix, key);
    match find_entry(entries, key) {
        None => {
            push_problem(problems, Problem::Missing { key: name, line });
            None
        },
        Some(i) => {
            let at = line_of(bytes, entries[i].offset);
            identifier(problems, &entries[i].value, name, at)
        },
    }
}

/// Reports every key of `entries` but `allowed`, under `prefix`.
fn report_unknown(bytes: &[u8], problems: &mut Vec<Problem>, entries: &Vec<TomlEntry>, prefix: &str, allowed: &Vec<&str>)
    ensures
        cproblems(final(problems)@) == unknown_keys(
            bytes@,
            cproblems(old(problems)@),
            entries@,
            prefix@,
            allowed@.map_values(|a: &str| a@),
        ),
{
    let ghost names = allowed@.map_values(|a: &str| a@);
    let mut i: usize = 0;
    proof {
        assert(entries@.take(0) =~= Seq::<TomlEntry>::empty());
    }
    while i < entries.len()
        invariant
            i <= entries@.len(),
            names == allowed@.map_values(|a: &str| a@),
            cproblems(problems@) == unknown_keys(bytes@, cproblems(old(problems)@), entries@.take(i as int), prefix@, names),
        decreases entries@.len() - i,
    {
        let entry = &entries[i];
        proof {
            assert(entries@.take(i + 1).drop_last() =~= entries@.take(i as int));
            assert(entries@.take(i + 1).last() == entries@[i as int]);
        }
        let here = chars_of(entry.key.as_str());
        let mut known = false;
        let mut j: usize = 0;
        while j < allowed.len()
            invariant
                j <= allowed@.len(),
                names == allowed@.map_values(|a: &str| a@),
                here@ == entry.key@,
                known == exists|m: int| 0 <= m < j && names[m] == here@,
            decreases allowed@.len() - j,
        {
            let word = chars_of(allowed[j]);
            proof {
                assert(names[j as int] == allowed@[j as int]@);
            }
            if same_chars(word.as_slice(), here.as_slice()) {
                known = true;
            }
            j = j + 1;
        }
        proof {
            if known {
                let m = choose|m: int| 0 <= m < allowed@.len() && names[m] == here@;
                assert(names.contains(here@));
            }
            if names.contains(here@) {
                let m = choose|m: int| 0 <= m < names.len() && names[m] == here@;
            }
        }
        if !known {
            let line = line_of(bytes, entry.offset);
            let key = qualified(prefix, entry.key.as_str());
            push_problem(problems, Problem::Unknown { key, line });
        }
        i = i + 1;
    }
    proof {
        assert(entries@.take(entries@.len() as int) =~= entries@);
    }
}

/// Reads `[auto]`.
fn read_auto(bytes: &[u8], problems: &mut Vec<Problem>, entries: &Vec<TomlEntry>, line: usize) -> (auto: Option<Auto>)
    ensures
        (cproblems(final(problems)@), match auto {
            Some(a) => Some(a@),
            None => None,
        }) == auto_spec(bytes@, cproblems(old(problems)@), entries@, line),
{
    let mut allowed: Vec<&str> = Vec::new();
    allowed.push("light");
    allowed.push("dark");
    proof {
        assert(allowed@.map_values(|a: &str| a@) =~= seq!["light"@, "dark"@]);
    }
    report_unknown(bytes, problems, entries, "auto", &allowed);
    let light = required_theme(bytes, problems, entries, "auto", "light", line);
    let dark = required_theme(bytes, problems, entries, "auto", "dark", line);
    match (light, dark) {
        (Some(light), Some(dark)) => Some(Auto { light, dark }),
        _ => None,
    }
}

/// Reads `[cycle]`, whose one key is the list of themes to step through.
///
/// Every entry is reported on its own, so a table with two things wrong with it says both.
/// Shortness is read off what the file writes, not off what parsed: an entry that is not a
/// theme identifier is already reported as itself.
fn read_cycle(bytes: &[u8], problems: &mut Vec<Problem>, entries: &Vec<TomlEntry>, line: usize) -> (cycle: Option<Cycle>)
    ensures
        (cproblems(final(problems)@), match cycle {
            Some(c) => Some(c@),
            None => None,
        }) == cycle_spec(bytes@, cproblems(old(problems)@), entries@, line),
{
    let mut allowed: Vec<&str> = Vec::new();
    allowed.push("themes");
    proof {
        assert(allowed@.map_values(|a: &str| a@) =~= seq!["themes"@]);
    }
    report_unknown(bytes, problems, entries, "cycle", &allowed);
    let found = find_entry(entries, "themes");
    let i = match found {
        None => {
            push_problem(problems, Problem::Missing { key: "cycle.themes".to_owned(), line });
            return None;
        },
        Some(i) => i,
    };
    let at = line_of(bytes, entries[i].offset);
    let values = match &entries[i].value {
        TomlValue::Array(values) => values,
        other => {
            push_wrong_type(problems, "cycle.themes".to_owned(), at, other);
            return None;
        },
    };
    if values.len() < 2 {
        push_problem(problems, Problem::Short { line: at });
    }
    let ghost start = cproblems(problems@);
    let mut themes: Vec<ThemeId> = Vec::new();
    let mut k: usize = 0;
    proof {
        assert(id_views(themes@) =~= Seq::<Seq<char>>::empty());
    }
    while k < values.len()
        invariant
            k <= values@.len(),
            no_repeats(id_views(themes@)),
            cycle_entries(start, values@, 0, at, Seq::empty()) == cycle_entries(
                cproblems(problems@),
                values@,
                k as int,
                at,
                id_views(themes@),
            ),
        decreases values@.len() - k,
    {
        match &values[k] {
            TomlValue::Str(text) => match ThemeId::parse(text.as_str()) {
                None => {
                    push_problem(problems, Problem::Theme { key: "cycle.themes".to_owned(), line: at, value: text.clone() });
                },
                Some(id) => {
                    let mut seen = false;
                    let mut j: usize = 0;
                    while j < themes.len()
                        invariant
                            j <= themes@.len(),
                            id@ == text@,
                            seen == exists|m: int| 0 <= m < j && id_views(themes@)[m] == id@,
                        decreases themes@.len() - j,
                    {
                        proof {
                            assert(id_views(themes@)[j as int] == themes@[j as int]@);
                        }
                        if themes[j].same(&id) {
                            seen = true;
                        }
                        j = j + 1;
                    }
                    proof {
                        if id_views(themes@).contains(id@) {
                            let m = choose|m: int| 0 <= m < id_views(themes@).len() && id_views(themes@)[m] == id@;
                        }
                    }
                    if seen {
                        push_problem(problems, Problem::Repeated { theme: text.clone(), line: at });
                    } else {
                        let ghost before = id_views(themes@);
                        themes.push(id);
                        proof {
                            assert(id_views(themes@) =~= before.push(text@));
                        }
                    }
                },
            },
            other => {
                push_wrong_type(problems, "cycle.themes".to_owned(), at, other);
            },
        }
        k = k + 1;
    }
    if themes.len() < 2 {
        return None;
    }
    let head = themes.remove(0);
    proof {
        assert(seq![head@] + id_views(themes@) =~= cycle_entries(start, values@, 0, at, Seq::empty()).1);
    }
    Some(Cycle { head, tail: themes })
}

/// Reads the required string `key` of a table opening on `line`.
fn required_string(
    bytes: &[u8],
    problems: &mut Vec<Problem>,
    entries: &Vec<TomlEntry>,
    prefix: &str,
    key: &str,
    line: usize,
) -> (text: Option<String>)
    ensures
        (cproblems(final(problems)@), opt_text(text)) == string_spec(bytes@, cproblems(old(problems)@), entries@, prefix@, key@, line),
{
    let name = qualified(prefix, key);
    match find_entry(entries, key) {
        None => {
            push_problem(problems, Problem::Missing { key: name, line });
            None
        },
        Some(i) => match &entries[i].value {
            TomlValue::Str(text) => Some(text.clone()),
            other => {
                let at = line_of(bytes, entries[i].offset);
                push_wrong_type(problems, name, at, other);
                None
            },
        },
    }
}

/// Reads a target's `name`.
fn read_name(bytes: &[u8], problems: &mut Vec<Problem>, entries: &Vec<TomlEntry>, line: usize) -> (name: Option<TargetName>)
    ensures
        (cproblems(final(problems)@), match name {
            Some(n) => Some(n@),
            None => None,
        }) == name_spec(bytes@, cproblems(old(problems)@), entries@, line),
{
    let text = match required_string(bytes, problems, entries, "targets", "name", line) {
        Some(text) => text,
        None => {
            return None;
        },
    };
    match TargetName::parse(text.as_str()) {
        Some(name) => Some(name),
        None => {
            let at = key_line_of(bytes, entries, "name");
            push_problem(problems, Problem::Name { name: text, line: at });
            None
        },
    }
}

/// `text` without the slashes it starts with.
fn strip_slashes(text: &[char]) -> (rest: Vec<char>)
    ensures
        rest@ == trim_slashes(text@),
{
    let mut k: usize = 0;
    proof {
        assert(text@.skip(0) =~= text@);
    }
    while k < text.len() && text[k] == '/'
        invariant
            k <= text@.len(),
            trim_slashes(text@) == trim_slashes(text@.skip(k as int)),
        decreases text@.len() - k,
    {
        proof {
            assert(text@.skip(k as int).drop_first() =~= text@.skip(k + 1));
        }
        k = k + 1;
    }
    let mut rest: Vec<char> = Vec::new();
    let mut j = k;
    while j < text.len()
        invariant
            k <= j <= text@.len(),
            rest@ == text@.subrange(k as int, j as int),
        decreases text@.len() - j,
    {
        rest.push(text[j]);
        proof {
            assert(text@.subrange(k as int, j + 1) =~= text@.subrange(k as int, j as int).push(text@[j as int]));
        }
        j = j + 1;
    }
    proof {
        assert(text@.subrange(k as int, text@.len() as int) =~= text@.skip(k as int));
    }
    rest
}

/// Reads a target's required path `key`, expanding `~` and resolving a relative path.
fn read_path(
    bytes: &[u8],
    problems: &mut Vec<Problem>,
    entries: &Vec<TomlEntry>,
    key: &str,
    line: usize,
    directory: &str,
    home: Option<&str>,
) -> (path: Option<String>)
    ensures
        (cproblems(final(problems)@), opt_text(path)) == path_spec(
            bytes@,
            cproblems(old(problems)@),
            entries@,
            key@,
            line,
            directory@,
            match home {
                Some(h) => Some(h@),
                None => None,
            },
        ),
{
    let text = match required_string(bytes, problems, entries, "targets", key, line) {
        Some(text) => text,
        None => {
            return None;
        },
    };
    let chars = chars_of(text.as_str());
    if chars.len() == 0 || chars[0] != '~' {
        if is_absolute(text.as_str()) {
            return Some(text);
        }
        return Some(join(directory, text.as_str()));
    }
    if chars.len() > 1 && chars[1] != '/' {
        return Some(join(directory, text.as_str()));
    }
    match home {
        None => {
            let at = key_line_of(bytes, entries, key);
            let name = qualified("targets", key);
            push_problem(problems, Problem::Home { key: name, line: at });
            None
        },
        Some(h) => {
            let mut tail: Vec<char> = Vec::new();
            let mut j: usize = 1;
            while j < chars.len()
                invariant
                    1 <= j <= chars@.len(),
                    tail@ == chars@.subrange(1, j as int),
                decreases chars@.len() - j,
            {
                tail.push(chars[j]);
                proof {
                    assert(chars@.subrange(1, j + 1) =~= chars@.subrange(1, j as int).push(chars@[j as int]));
                }
                j = j + 1;
            }
            proof {
                assert(chars@.subrange(1, chars@.len() as int) =~= chars@.drop_first());
            }
            let rest = strip_slashes(tail.as_slice());
            let rest = string_of(rest.as_slice());
            Some(join(h, rest.as_str()))
        },
    }
}

/// Reads a target's `reload`, which is empty when the target has none.
fn read_reload(bytes: &[u8], problems: &mut Vec<Problem>, entries: &Vec<TomlEntry>) -> (reload: Vec<String>)
    ensures
        (cproblems(final(problems)@), text_views(reload@)) == reload_spec(bytes@, cproblems(old(problems)@), entries@),
{
    let mut reload: Vec<String> = Vec::new();
    proof {
        assert(text_views(reload@) =~= Seq::<Seq<char>>::empty());
    }
    let i = match find_entry(entries, "reload") {
        None => {
            return reload;
        },
        Some(i) => i,
    };
    let at = line_of(bytes, entries[i].offset);
    let values = match &entries[i].value {
        TomlValue::Array(values) => values,
        other => {
            push_wrong_type(problems, "targets.reload".to_owned(), at, other);
            return reload;
        },
    };
    let ghost start = cproblems(problems@);
    let mut k: usize = 0;
    while k < values.len()
        invariant
            k <= values@.len(),
            reload_items(start, values@, 0, at, Seq::empty()) == reload_items(
                cproblems(problems@),
                values@,
                k as int,
                at,
                text_views(reload@),
            ),
        decreases values@.len() - k,
    {
        match &values[k] {
            TomlValue::Str(text) => {
                let ghost before = text_views(reload@);
                reload.push(text.clone());
                proof {
                    assert(text_views(reload@) =~= before.push(text@));
                }
            },
            other => {
                push_wrong_type(problems, "targets.reload".to_owned(), at, other);
            },
        }
        k = k + 1;
    }
    reload
}

/// Reads a target's `shell`, which is `None` when the target has none.
///
/// A value that names no shell is a problem rather than a `None`, so a typo is a config error
/// and not a target that silently never sources.
fn read_shell(bytes: &[u8], problems: &mut Vec<Problem>, entries: &Vec<TomlEntry>) -> (shell: Option<Shell>)
    ensures
        (cproblems(final(problems)@), shell) == shell_spec(bytes@, cproblems(old(problems)@), entries@),
{
    let i = match find_entry(entries, "shell") {
        None => {
            return None;
        },
        Some(i) => i,
    };
    let at = line_of(bytes, entries[i].offset);
    match &entries[i].value {
        TomlValue::Str(text) => match Shell::parse(text.as_str()) {
            Some(shell) => Some(shell),
            None => {
                push_problem(problems, Problem::Shell { value: text.clone(), line: at });
                None
            },
        },
        other => {
            push_wrong_type(problems, "targets.shell".to_owned(), at, other);
            None
        },
    }
}

/// Reads a target's `themes`, which names a theme for one mode or both.
fn read_themes(bytes: &[u8], problems: &mut Vec<Problem>, entries: &Vec<TomlEntry>) -> (themes: Themes)
    ensures
        (cproblems(final(problems)@), themes@) == themes_from(bytes@, cproblems(old(problems)@), entries@, 0, (None, None)),
{
    let mut themes = Themes { dark: None, light: None };
    let mut k: usize = 0;
    let ghost start = cproblems(problems@);
    while k < entries.len()
        invariant
            k <= entries@.len(),
            themes_from(bytes@, start, entries@, 0, (None, None)) == themes_from(
                bytes@,
                cproblems(problems@),
                entries@,
                k as int,
                themes@,
            ),
        decreases entries@.len() - k,
    {
        let entry = &entries[k];
        let at = line_of(bytes, entry.offset);
        let name = qualified("targets.themes", entry.key.as_str());
        match Variant::parse(entry.key.as_str()) {
            None => {
                push_problem(problems, Problem::Unknown { key: name, line: at });
            },
            Some(variant) => {
                let theme = identifier(problems, &entry.value, name, at);
                match theme {
                    None => {},
                    Some(t) => match variant {
                        Variant::Dark => {
                            themes.dark = Some(t);
                        },
                        Variant::Light => {
                            themes.light = Some(t);
                        },
                    },
                }
            },
        }
        k = k + 1;
    }
    themes
}

/// An optional table of themes as a plain value.
pub open spec fn opt_themes(themes: Option<Themes>) -> Option<(Option<Seq<char>>, Option<Seq<char>>)> {
    match themes {
        Some(t) => Some(t@),
        None => None,
    }
}

/// The entries of a table written either way.
fn entries_of(value: &TomlValue) -> (entries: &Vec<TomlEntry>)
    requires
        value.is_table_like(),
    ensures
        entries@ == table_entries(*value),
    decreases 0nat,
{
    match value {
        TomlValue::Table(t) => &t.entries,
        TomlValue::Inline(t) => &t.entries,
        _ => {
            proof {
                assert(false);
            }
            entries_of(value)
        },
    }
}

/// Whether a value is a table, written either way.
fn table_like(value: &TomlValue) -> (yes: bool)
    ensures
        yes == value.is_table_like(),
{
    match value {
        TomlValue::Table(_) => true,
        TomlValue::Inline(_) => true,
        _ => false,
    }
}

/// Walks a target's keys: reads `themes` and reports what the format does not define.
fn walk_target(bytes: &[u8], problems: &mut Vec<Problem>, entries: &Vec<TomlEntry>) -> (themes: Option<Themes>)
    ensures
        (cproblems(final(problems)@), opt_themes(themes)) == target_walk(bytes@, cproblems(old(problems)@), entries@, 0, None),
{
    let mut themes: Option<Themes> = None;
    let mut known: Vec<&str> = Vec::new();
    known.push("name");
    known.push("template");
    known.push("output");
    known.push("reload");
    known.push("shell");
    proof {
        assert(known@.map_values(|a: &str| a@) =~= target_keys());
    }
    let ghost start = cproblems(problems@);
    let mut k: usize = 0;
    while k < entries.len()
        invariant
            k <= entries@.len(),
            known@.map_values(|a: &str| a@) == target_keys(),
            target_walk(bytes@, start, entries@, 0, None) == target_walk(
                bytes@,
                cproblems(problems@),
                entries@,
                k as int,
                opt_themes(themes),
            ),
        decreases entries@.len() - k,
    {
        let entry = &entries[k];
        let here = chars_of(entry.key.as_str());
        let mut listed = false;
        let mut j: usize = 0;
        while j < known.len()
            invariant
                j <= known@.len(),
                known@.map_values(|a: &str| a@) == target_keys(),
                here@ == entry.key@,
                listed == exists|m: int| 0 <= m < j && target_keys()[m] == here@,
            decreases known@.len() - j,
        {
            let word = chars_of(known[j]);
            proof {
                assert(target_keys()[j as int] == known@[j as int]@);
            }
            if same_chars(word.as_slice(), here.as_slice()) {
                listed = true;
            }
            j = j + 1;
        }
        proof {
            if target_keys().contains(here@) {
                let m = choose|m: int| 0 <= m < target_keys().len() && target_keys()[m] == here@;
            }
        }
        if !listed {
            let at = line_of(bytes, entry.offset);
            let word = chars_of("themes");
            if same_chars(here.as_slice(), word.as_slice()) {
                if table_like(&entry.value) {
                    let inner = entries_of(&entry.value);
                    themes = Some(read_themes(bytes, problems, inner));
                } else {
                    push_wrong_type(problems, "targets.themes".to_owned(), at, &entry.value);
                }
            } else {
                let name = qualified("targets", entry.key.as_str());
                push_problem(problems, Problem::Unknown { key: name, line: at });
            }
        }
        k = k + 1;
    }
    themes
}

/// An optional target as a plain value.
pub open spec fn opt_target(target: Option<Target>) -> Option<TargetView> {
    match target {
        Some(t) => Some(t@),
        None => None,
    }
}

/// Reads one `[[targets]]` entry, whose header is on `line`.
fn read_target(
    bytes: &[u8],
    problems: &mut Vec<Problem>,
    entries: &Vec<TomlEntry>,
    line: usize,
    directory: &str,
    home: Option<&str>,
) -> (target: Option<Target>)
    ensures
        (cproblems(final(problems)@), opt_target(target)) == target_spec(
            bytes@,
            cproblems(old(problems)@),
            entries@,
            line,
            directory@,
            match home {
                Some(h) => Some(h@),
                None => None,
            },
        ),
{
    let themes = walk_target(bytes, problems, entries);
    let name = read_name(bytes, problems, entries, line);
    let template = read_path(bytes, problems, entries, "template", line, directory, home);
    let output = read_path(bytes, problems, entries, "output", line, directory, home);
    let reload = read_reload(bytes, problems, entries);
    let shell = read_shell(bytes, problems, entries);
    match (name, template, output) {
        (Some(name), Some(template), Some(output)) => Some(Target { name, template, output, reload, shell, themes }),
        _ => None,
    }
}

/// The config file, parsed and with its paths resolved.
#[derive(Debug)]
pub struct Config {
    auto: Option<Auto>,
    cycle: Option<Cycle>,
    targets: Vec<Target>,
}

/// Targets as plain values.
pub open spec fn target_views(targets: Seq<Target>) -> Seq<TargetView> {
    targets.map_values(|t: Target| t@)
}

impl View for Config {
    type V = ConfigView;

    closed spec fn view(&self) -> ConfigView {
        ConfigView {
            auto: match self.auto {
                Some(a) => Some(a@),
                None => None,
            },
            cycle: match self.cycle {
                Some(c) => Some(c@),
                None => None,
            },
            targets: target_views(self.targets@),
        }
    }
}

/// Reads the `[[targets]]` entries under a key on `line`.
fn read_targets(
    bytes: &[u8],
    problems: &mut Vec<Problem>,
    tables: &Vec<TomlTable>,
    line: usize,
    directory: &str,
    home: Option<&str>,
    targets: &mut Vec<Target>,
)
    ensures
        (cproblems(final(problems)@), target_views(final(targets)@)) == targets_from(
            bytes@,
            cproblems(old(problems)@),
            tables@,
            0,
            line,
            directory@,
            match home {
                Some(h) => Some(h@),
                None => None,
            },
            target_views(old(targets)@),
        ),
{
    let ghost h = match home {
        Some(h) => Some(h@),
        None => None,
    };
    let ghost start = (cproblems(problems@), target_views(targets@));
    let mut j: usize = 0;
    while j < tables.len()
        invariant
            j <= tables@.len(),
            h == match home {
                Some(h) => Some(h@),
                None => None,
            },
            targets_from(bytes@, start.0, tables@, 0, line, directory@, h, start.1) == targets_from(
                bytes@,
                cproblems(problems@),
                tables@,
                j as int,
                line,
                directory@,
                h,
                target_views(targets@),
            ),
        decreases tables@.len() - j,
    {
        let table = &tables[j];
        let header = match table.offset {
            Some(o) => line_of(bytes, Some(o)),
            None => line,
        };
        match read_target(bytes, problems, &table.entries, header, directory, home) {
            None => {},
            Some(target) => {
                let ghost views = target_views(targets@);
                let mut seen = false;
                let mut m: usize = 0;
                while m < targets.len()
                    invariant
                        m <= targets@.len(),
                        views == target_views(targets@),
                        seen == exists|i: int| 0 <= i < m && #[trigger] views[i].name == target@.name,
                    decreases targets@.len() - m,
                {
                    proof {
                        assert(views[m as int] == targets@[m as int]@);
                        assert(views[m as int].name == targets@[m as int].name@);
                        assert(target@.name == target.name@);
                    }
                    if targets[m].name.same(&target.name) {
                        seen = true;
                    }
                    m = m + 1;
                }
                if seen {
                    let at = key_line_of(bytes, &table.entries, "name");
                    let name = target.name.as_str().to_owned();
                    push_problem(problems, Problem::Duplicate { name, line: at });
                } else {
                    targets.push(target);
                    proof {
                        assert(target_views(targets@) =~= views.push(target@));
                    }
                }
            },
        }
        j = j + 1;
    }
}

/// Reads the whole document.
fn read_config(
    bytes: &[u8],
    problems: &mut Vec<Problem>,
    document: &TomlTable,
    directory: &str,
    home: Option<&str>,
) -> (config: Config)
    requires
        old(problems)@.len() == 0,
    ensures
        (cproblems(final(problems)@), config@) == config_spec(
            bytes@,
            *document,
            directory@,
            match home {
                Some(h) => Some(h@),
                None => None,
            },
        ),
{
    let ghost h = match home {
        Some(h) => Some(h@),
        None => None,
    };
    let entries = &document.entries;
    let mut config = Config { auto: None, cycle: None, targets: Vec::new() };
    proof {
        assert(cproblems(problems@) =~= Seq::<CProblem>::empty());
        assert(config@ == ConfigView { auto: None, cycle: None, targets: Seq::empty() }) by {
            assert(target_views(config.targets@) =~= Seq::<TargetView>::empty());
        }
    }
    let mut k: usize = 0;
    while k < entries.len()
        invariant
            k <= entries@.len(),
            entries@ == document.entries@,
            h == match home {
                Some(h) => Some(h@),
                None => None,
            },
            config_spec(bytes@, *document, directory@, h) == config_from(
                bytes@,
                cproblems(problems@),
                entries@,
                k as int,
                directory@,
                h,
                config@,
            ),
        decreases entries@.len() - k,
    {
        let entry = &entries[k];
        let line = line_of(bytes, entry.offset);
        let here = chars_of(entry.key.as_str());
        let auto_word = chars_of("auto");
        let cycle_word = chars_of("cycle");
        let targets_word = chars_of("targets");
        if same_chars(here.as_slice(), auto_word.as_slice()) {
            if table_like(&entry.value) {
                let inner = entries_of(&entry.value);
                let auto = read_auto(bytes, problems, inner, line);
                config.auto = auto;
            } else {
                push_wrong_type(problems, "auto".to_owned(), line, &entry.value);
            }
        } else if same_chars(here.as_slice(), cycle_word.as_slice()) {
            if table_like(&entry.value) {
                let inner = entries_of(&entry.value);
                let cycle = read_cycle(bytes, problems, inner, line);
                config.cycle = cycle;
            } else {
                push_wrong_type(problems, "cycle".to_owned(), line, &entry.value);
            }
        } else if same_chars(here.as_slice(), targets_word.as_slice()) {
            match &entry.value {
                TomlValue::Tables(tables) => {
                    read_targets(bytes, problems, tables, line, directory, home, &mut config.targets);
                },
                other => {
                    push_wrong_type(problems, "targets".to_owned(), line, other);
                },
            }
        } else {
            push_problem(problems, Problem::Unknown { key: entry.key.clone(), line });
        }
        k = k + 1;
    }
    config
}

fn insert_sorted(sorted: &mut Vec<Problem>, p: Problem)
    ensures
        cproblems(final(sorted)@) == insert_cproblem(cproblems(old(sorted)@), p@),
    decreases old(sorted)@.len(),
{
    let ghost views = cproblems(sorted@);
    if sorted.len() == 0 {
        sorted.push(p);
        proof {
            assert(cproblems(sorted@) =~= seq![p@]);
        }
        return;
    }
    if sorted[sorted.len() - 1].line() <= p.line() {
        sorted.push(p);
        proof {
            assert(cproblems(sorted@) =~= views.push(p@));
            assert(views.last() == views[views.len() - 1]);
        }
        return;
    }
    let last = sorted.pop().unwrap();
    proof {
        assert(cproblems(sorted@) =~= views.drop_last());
        assert(last@ == views.last());
    }
    insert_sorted(sorted, p);
    let ghost middle = cproblems(sorted@);
    sorted.push(last);
    proof {
        assert(cproblems(sorted@) =~= middle.push(views.last()));
    }
}

/// `problems` ordered by line, problems on one line keeping the order they had.
fn sorted_problems(problems: Vec<Problem>) -> (sorted: Vec<Problem>)
    ensures
        cproblems(sorted@) == sort_cproblems(cproblems(problems@)),
{
    let ghost views = cproblems(problems@);
    let mut sorted: Vec<Problem> = Vec::new();
    let mut rest = problems;
    let mut i: usize = 0;
    let n = rest.len();
    proof {
        assert(views.take(0) =~= Seq::<CProblem>::empty());
        assert(cproblems(sorted@) =~= Seq::<CProblem>::empty());
        assert(views.skip(0) =~= views);
    }
    while rest.len() > 0
        invariant
            i + rest@.len() == n,
            views.len() == n,
            cproblems(rest@) == views.skip(i as int),
            cproblems(sorted@) == sort_cproblems(views.take(i as int)),
        decreases rest@.len(),
    {
        let ghost before = rest@;
        let p = rest.remove(0);
        proof {
            assert(views.skip(i as int)[0] == views[i as int]);
            assert(cproblems(before)[0] == p@);
            assert(cproblems(rest@) =~= views.skip(i + 1)) by {
                assert(rest@ =~= before.drop_first());
                assert(views.skip(i + 1) =~= views.skip(i as int).drop_first());
            }
        }
        insert_sorted(&mut sorted, p);
        proof {
            assert(views.take(i + 1).drop_last() =~= views.take(i as int));
            assert(views.take(i + 1).last() == views[i as int]);
        }
        i = i + 1;
    }
    proof {
        assert(views.take(n as int) =~= views);
    }
    sorted
}

/// Loading the config failed.
#[derive(Debug)]
pub enum ConfigError {
    /// The file could not be read.
    Read {
        /// The file the read failed on.
        path: String,
        /// What the read failed with.
        message: String,
    },
    /// The file is not valid TOML.
    Syntax {
        /// The file the parse failed in.
        path: String,
        /// What the TOML parser says is wrong.
        message: String,
    },
    /// The file parses as TOML but is not a valid config.
    Invalid {
        /// The file the problems were found in.
        path: String,
        /// Every problem, in source order.
        problems: Vec<Problem>,
    },
}

/// A config error as plain values.
pub enum ConfigErrorView {
    Read { path: Seq<char>, message: Seq<char> },
    Syntax { path: Seq<char>, message: Seq<char> },
    Invalid { path: Seq<char>, problems: Seq<CProblem> },
}

impl View for ConfigError {
    type V = ConfigErrorView;

    open spec fn view(&self) -> ConfigErrorView {
        match self {
            ConfigError::Read { path, message } => ConfigErrorView::Read { path: path@, message: message@ },
            ConfigError::Syntax { path, message } => ConfigErrorView::Syntax { path: path@, message: message@ },
            ConfigError::Invalid { path, problems } => ConfigErrorView::Invalid { path: path@, problems: cproblems(problems@) },
        }
    }
}

/// Loading the config at `path`, holding `chars` (as bytes, `bytes`), in `directory`.
pub open spec fn config_outcome(
    path: Seq<char>,
    chars: Seq<char>,
    bytes: Seq<u8>,
    directory: Seq<char>,
    home: Option<Seq<char>>,
) -> Result<ConfigView, ConfigErrorView> {
    match toml_document(chars) {
        Err(error) => Err(ConfigErrorView::Syntax { path, message: error.message@ }),
        Ok(document) => {
            let (problems, config) = config_spec(bytes, document, directory, home);
            if problems.len() == 0 {
                Ok(config)
            } else {
                Err(ConfigErrorView::Invalid { path, problems: sort_cproblems(problems) })
            }
        },
    }
}

impl Config {
    /// Parses `source` as the config stored at `path`.
    ///
    /// `home` expands a leading `~`, and `directory` is what a relative path resolves
    /// against. Every problem is returned, in one pass, ordered by line.
    pub fn parse(path: &str, source: &str, directory: &str, home: Option<&str>) -> (result: Result<Config, ConfigError>)
        ensures
            match result {
                Ok(c) => Ok(c@),
                Err(e) => Err(e@),
            } == config_outcome(
                path@,
                source@,
                source.spec_bytes(),
                directory@,
                match home {
                    Some(h) => Some(h@),
                    None => None,
                },
            ),
    {
        let document = match parse_toml(source) {
            Ok(document) => document,
            Err(error) => {
                return Err(ConfigError::Syntax { path: path.to_owned(), message: error.message });
            },
        };
        let mut problems: Vec<Problem> = Vec::new();
        let config = read_config(source.as_bytes(), &mut problems, &document, directory, home);
        if problems.len() == 0 {
            Ok(config)
        } else {
            Err(ConfigError::Invalid { path: path.to_owned(), problems: sorted_problems(problems) })
        }
    }

    /// The themes `--variant` resolves through, when the file names them.
    pub fn auto(&self) -> (auto: Option<&Auto>)
        ensures
            match auto {
                Some(a) => self@.auto == Some(a@),
                None => self@.auto is None,
            },
    {
        match &self.auto {
            Some(a) => Some(a),
            None => None,
        }
    }

    /// The themes `cycle` steps through, when the file names them.
    pub fn cycle(&self) -> (cycle: Option<&Cycle>)
        ensures
            match cycle {
                Some(c) => self@.cycle == Some(c@),
                None => self@.cycle is None,
            },
    {
        match &self.cycle {
            Some(c) => Some(c),
            None => None,
        }
    }

    /// Every target, in the order the file writes them.
    pub fn targets(&self) -> (targets: &Vec<Target>)
        ensures
            target_views(targets@) == self@.targets,
    {
        &self.targets
    }
}

/// `line N: `.
pub open spec fn at_line(line: usize) -> Seq<char> {
    "line "@ + decimal(line as nat) + ": "@
}

/// What a config problem says.
pub open spec fn cproblem_text(p: CProblem) -> Seq<char> {
    match p {
        CProblem::Type { key, line, found } => at_line(line) + key + " is a "@ + found + ", and the format wants something else"@,
        CProblem::Missing { key, line } => at_line(line) + key + " is required"@,
        CProblem::Unknown { key, line } => at_line(line) + "the format has no key "@ + key,
        CProblem::Name { name, line } => at_line(line) + "`"@ + name + "` is not a target name: lowercase, digits, internal hyphens"@,
        CProblem::Duplicate { name, line } => at_line(line) + "`"@ + name + "` names two targets"@,
        CProblem::Repeated { theme, line } => at_line(line) + "`"@ + theme + "` is written twice in cycle.themes"@,
        CProblem::Short { line } => at_line(line) + "cycle.themes names fewer than two themes"@,
        CProblem::Theme { key, line, value } => at_line(line) + key + " is `"@ + value + "`, which is not a theme identifier"@,
        CProblem::Shell { value, line } => at_line(line) + "targets.shell is `"@ + value + "`, and the shells are zsh, fish and bash"@,
        CProblem::Home { key, line } => at_line(line) + key + " starts with `~`, and there is no home directory"@,
    }
}

impl Problem {
    /// What the problem says, as one line.
    pub fn message(&self) -> (text: String)
        ensures
            text@ == cproblem_text(self@),
    {
        let mut out: Vec<char> = Vec::new();
        push_str(&mut out, "line ");
        let digits = decimal_chars(self.line());
        push_all(&mut out, digits.as_slice());
        push_str(&mut out, ": ");
        match self {
            Problem::Type { key, found, .. } => {
                push_str(&mut out, key.as_str());
                push_str(&mut out, " is a ");
                push_str(&mut out, found.as_str());
                push_str(&mut out, ", and the format wants something else");
            },
            Problem::Missing { key, .. } => {
                push_str(&mut out, key.as_str());
                push_str(&mut out, " is required");
            },
            Problem::Unknown { key, .. } => {
                push_str(&mut out, "the format has no key ");
                push_str(&mut out, key.as_str());
            },
            Problem::Name { name, .. } => {
                push_str(&mut out, "`");
                push_str(&mut out, name.as_str());
                push_str(&mut out, "` is not a target name: lowercase, digits, internal hyphens");
            },
            Problem::Duplicate { name, .. } => {
                push_str(&mut out, "`");
                push_str(&mut out, name.as_str());
                push_str(&mut out, "` names two targets");
            },
            Problem::Repeated { theme, .. } => {
                push_str(&mut out, "`");
                push_str(&mut out, theme.as_str());
                push_str(&mut out, "` is written twice in cycle.themes");
            },
            Problem::Short { .. } => {
                push_str(&mut out, "cycle.themes names fewer than two themes");
            },
            Problem::Theme { key, value, .. } => {
                push_str(&mut out, key.as_str());
                push_str(&mut out, " is `");
                push_str(&mut out, value.as_str());
                push_str(&mut out, "`, which is not a theme identifier");
            },
            Problem::Shell { value, .. } => {
                push_str(&mut out, "targets.shell is `");
                push_str(&mut out, value.as_str());
                push_str(&mut out, "`, and the shells are zsh, fish and bash");
            },
            Problem::Home { key, .. } => {
                push_str(&mut out, key.as_str());
                push_str(&mut out, " starts with `~`, and there is no home directory");
            },
        }
        proof {
            assert(out@ =~= cproblem_text(self@));
        }
        string_of(out.as_slice())
    }
}

/// The problems as one indented line each, joined by newlines.
pub open spec fn listed_ctext(problems: Seq<CProblem>) -> Seq<char>
    decreases problems.len(),
{
    if problems.len() == 0 {
        Seq::empty()
    } else if problems.len() == 1 {
        "  "@ + cproblem_text(problems[0])
    } else {
        listed_ctext(problems.drop_last()) + "\n  "@ + cproblem_text(problems.last())
    }
}

/// What a config error says.
pub open spec fn config_error_text(error: ConfigErrorView) -> Seq<char> {
    match error {
        ConfigErrorView::Read { path, message } => path + ": "@ + message,
        ConfigErrorView::Syntax { path, message } => path + ": "@ + message,
        ConfigErrorView::Invalid { path, problems } => path + ": invalid config\n"@ + listed_ctext(problems),
    }
}

impl ConfigError {
    /// What the error says: the file, then what is wrong with it.
    pub fn message(&self) -> (text: String)
        ensures
            text@ == config_error_text(self@),
    {
        let mut out: Vec<char> = Vec::new();
        match self {
            ConfigError::Read { path, message } => {
                push_str(&mut out, path.as_str());
                push_str(&mut out, ": ");
                push_str(&mut out, message.as_str());
            },
            ConfigError::Syntax { path, message } => {
                push_str(&mut out, path.as_str());
                push_str(&mut out, ": ");
                push_str(&mut out, message.as_str());
            },
            ConfigError::Invalid { path, problems } => {
                push_str(&mut out, path.as_str());
                push_str(&mut out, ": invalid config\n");
                let ghost views = cproblems(problems@);
                let ghost start = out@;
                let mut k: usize = 0;
                while k < problems.len()
                    invariant
                        k <= problems@.len(),
                        views == cproblems(problems@),
                        out@ == start + listed_ctext(views.take(k as int)),
                    decreases problems@.len() - k,
                {
                    if k == 0 {
                        push_str(&mut out, "  ");
                    } else {
                        push_str(&mut out, "\n  ");
                    }
                    let line = problems[k].message();
                    push_str(&mut out, line.as_str());
                    proof {
                        assert(views.take(k + 1).drop_last() =~= views.take(k as int));
                        assert(views.take(k + 1).last() == problems@[k as int]@);
                        if k == 0 {
                            assert(views.take(1)[0] == problems@[0]@);
                            assert(views.take(0) =~= Seq::<CProblem>::empty());
                        }
                    }
                    k = k + 1;
                }
                proof {
                    assert(views.take(problems@.len() as int) =~= views);
                }
            },
        }
        proof {
            assert(out@ =~= config_error_text(self@));
        }
        string_of(out.as_slice())
    }
}

/// No problem in `ps` sits on a later line than one after it.
pub open spec fn by_line(ps: Seq<CProblem>) -> bool {
    forall|i: int, j: int| 0 <= i < j < ps.len() ==> cproblem_line(#[trigger] ps[i]) <= cproblem_line(#[trigger] ps[j])
}

proof fn lemma_insert_cproblem(sorted: Seq<CProblem>, p: CProblem)
    requires
        by_line(sorted),
    ensures
        by_line(insert_cproblem(sorted, p)),
        insert_cproblem(sorted, p).len() == sorted.len() + 1,
        forall|x: CProblem| #[trigger] insert_cproblem(sorted, p).contains(x) <==> (x == p || sorted.contains(x)),
    decreases sorted.len(),
{
    let r = insert_cproblem(sorted, p);
    if sorted.len() == 0 {
        assert(r =~= seq![p]);
        assert forall|x: CProblem| r.contains(x) <==> (x == p || sorted.contains(x)) by {
            if r.contains(x) {
                assert(r[0] == x);
            }
            if x == p {
                assert(r[0] == x);
            }
        }
    } else if cproblem_line(sorted.last()) <= cproblem_line(p) {
        assert forall|x: CProblem| r.contains(x) <==> (x == p || sorted.contains(x)) by {
            if r.contains(x) {
                let k = choose|k: int| 0 <= k < r.len() && r[k] == x;
                if k < sorted.len() {
                    assert(sorted[k] == x);
                }
            }
            if x == p {
                assert(r[sorted.len() as int] == x);
            } else if sorted.contains(x) {
                let k = choose|k: int| 0 <= k < sorted.len() && sorted[k] == x;
                assert(r[k] == x);
            }
        }
    } else {
        let d = sorted.drop_last();
        assert(by_line(d)) by {
            assert forall|i: int, j: int| 0 <= i < j < d.len() implies cproblem_line(#[trigger] d[i]) <= cproblem_line(#[trigger] d[j]) by {
                assert(d[i] == sorted[i] && d[j] == sorted[j]);
            }
        }
        lemma_insert_cproblem(d, p);
        let q = insert_cproblem(d, p);
        assert(r == q.push(sorted.last()));
        assert forall|i: int| 0 <= i < q.len() implies cproblem_line(#[trigger] q[i]) <= cproblem_line(sorted.last()) by {
            assert(q.contains(q[i]));
            if q[i] != p {
                assert(d.contains(q[i]));
                let k = choose|k: int| 0 <= k < d.len() && d[k] == q[i];
                assert(d[k] == sorted[k]);
                assert(sorted.last() == sorted[sorted.len() - 1]);
                assert(cproblem_line(sorted[k]) <= cproblem_line(sorted[sorted.len() - 1]));
            }
        }
        assert forall|x: CProblem| r.contains(x) <==> (x == p || sorted.contains(x)) by {
            if r.contains(x) {
                let k = choose|k: int| 0 <= k < r.len() && r[k] == x;
                if k < q.len() {
                    assert(q[k] == x);
                    assert(q.contains(x));
                    if x != p {
                        assert(d.contains(x));
                        let m = choose|m: int| 0 <= m < d.len() && d[m] == x;
                        assert(sorted[m] == x);
                    }
                } else {
                    assert(sorted[sorted.len() - 1] == x);
                }
            }
            if x == p {
                assert(q.contains(x));
                let k = choose|k: int| 0 <= k < q.len() && q[k] == x;
                assert(r[k] == x);
            } else if sorted.contains(x) {
                let k = choose|k: int| 0 <= k < sorted.len() && sorted[k] == x;
                if k < d.len() {
                    assert(d[k] == x);
                    assert(d.contains(x));
                    assert(q.contains(x));
                    let m = choose|m: int| 0 <= m < q.len() && q[m] == x;
                    assert(r[m] == x);
                } else {
                    assert(r[r.len() - 1] == x);
                }
            }
        }
    }
}

/// Sorting the problems orders them by line and keeps every one of them.
pub proof fn lemma_sort_cproblems(ps: Seq<CProblem>)
    ensures
        by_line(sort_cproblems(ps)),
        sort_cproblems(ps).len() == ps.len(),
        forall|x: CProblem| #[trigger] sort_cproblems(ps).contains(x) <==> ps.contains(x),
    decreases ps.len(),
{
    if ps.len() > 0 {
        lemma_sort_cproblems(ps.drop_last());
        lemma_insert_cproblem(sort_cproblems(ps.drop_last()), ps.last());
        assert forall|x: CProblem| sort_cproblems(ps).contains(x) <==> ps.contains(x) by {
            if ps.contains(x) && x != ps.last() {
                let k = choose|k: int| 0 <= k < ps.len() && ps[k] == x;
                assert(ps.drop_last()[k] == x);
            }
            if ps.drop_last().contains(x) {
                let k = choose|k: int| 0 <= k < ps.drop_last().len() && ps.drop_last()[k] == x;
                assert(ps[k] == x);
            }
            if x == ps.last() {
                assert(ps[ps.len() - 1] == x);
            }
        }
    }
}

/// No two targets share a name.
pub open spec fn distinct_names(targets: Seq<TargetView>) -> bool {
    forall|a: int, b: int| 0 <= a < b < targets.len() ==> #[trigger] targets[a].name != #[trigger] targets[b].name
}

proof fn lemma_targets_from_distinct(
    bytes: Seq<u8>,
    ps: Seq<CProblem>,
    tables: Seq<TomlTable>,
    j: int,
    line: usize,
    directory: Seq<char>,
    home: Option<Seq<char>>,
    targets: Seq<TargetView>,
)
    requires
        distinct_names(targets),
    ensures
        distinct_names(targets_from(bytes, ps, tables, j, line, directory, home, targets).1),
    decreases tables.len() - j,
{
    if 0 <= j < tables.len() {
        let table = tables[j];
        let header = match table.offset {
            Some(o) => line_number(bytes, Some(o)),
            None => line,
        };
        let (ps1, target) = target_spec(bytes, ps, table.entries@, header, directory, home);
        match target {
            None => lemma_targets_from_distinct(bytes, ps1, tables, j + 1, line, directory, home, targets),
            Some(t) => if exists|i: int| 0 <= i < targets.len() && #[trigger] targets[i].name == t.name {
                lemma_targets_from_distinct(
                    bytes,
                    ps1.push(CProblem::Duplicate { name: t.name, line: key_line(bytes, table.entries@, "name"@) }),
                    tables,
                    j + 1,
                    line,
                    directory,
                    home,
                    targets,
                );
            } else {
                let next = targets.push(t);
                assert forall|a: int, b: int| 0 <= a < b < next.len() implies #[trigger] next[a].name != #[trigger] next[b].name by {
                    assert(next[a] == targets[a]);
                    if b < targets.len() {
                        assert(next[b] == targets[b]);
                    }
                }
                lemma_targets_from_distinct(bytes, ps1, tables, j + 1, line, directory, home, next);
            },
        }
    }
}

proof fn lemma_config_from_distinct(
    bytes: Seq<u8>,
    ps: Seq<CProblem>,
    entries: Seq<TomlEntry>,
    k: int,
    directory: Seq<char>,
    home: Option<Seq<char>>,
    acc: ConfigView,
)
    requires
        distinct_names(acc.targets),
    ensures
        distinct_names(config_from(bytes, ps, entries, k, directory, home, acc).1.targets),
    decreases entries.len() - k,
{
    if 0 <= k < entries.len() {
        let e = entries[k];
        let line = line_number(bytes, e.offset);
        if e.key@ == "auto"@ {
            if e.value.is_table_like() {
                let (ps1, auto) = auto_spec(bytes, ps, table_entries(e.value), line);
                lemma_config_from_distinct(bytes, ps1, entries, k + 1, directory, home, ConfigView { auto, ..acc });
            } else {
                lemma_config_from_distinct(bytes, ps.push(wrong_type("auto"@, line, e.value)), entries, k + 1, directory, home, acc);
            }
        } else if e.key@ == "cycle"@ {
            if e.value.is_table_like() {
                let (ps1, cycle) = cycle_spec(bytes, ps, table_entries(e.value), line);
                lemma_config_from_distinct(bytes, ps1, entries, k + 1, directory, home, ConfigView { cycle, ..acc });
            } else {
                lemma_config_from_distinct(bytes, ps.push(wrong_type("cycle"@, line, e.value)), entries, k + 1, directory, home, acc);
            }
        } else if e.key@ == "targets"@ {
            match e.value {
                TomlValue::Tables(tables) => {
                    lemma_targets_from_distinct(bytes, ps, tables@, 0, line, directory, home, acc.targets);
                    let (ps1, targets) = targets_from(bytes, ps, tables@, 0, line, directory, home, acc.targets);
                    lemma_config_from_distinct(bytes, ps1, entries, k + 1, directory, home, ConfigView { targets, ..acc });
                },
                _ => lemma_config_from_distinct(bytes, ps.push(wrong_type("targets"@, line, e.value)), entries, k + 1, directory, home, acc),
            }
        } else {
            lemma_config_from_distinct(bytes, ps.push(CProblem::Unknown { key: e.key@, line }), entries, k + 1, directory, home, acc);
        }
    }
}

/// A config loads exactly when reading it found no problem, and then no two of its targets
/// share a name; otherwise every problem found is reported, at least one, ordered by line.
pub proof fn lemma_config_outcome(
    path: Seq<char>,
    chars: Seq<char>,
    bytes: Seq<u8>,
    directory: Seq<char>,
    home: Option<Seq<char>>,
)
    requires
        toml_document(chars) is Ok,
    ensures
        config_outcome(path, chars, bytes, directory, home) is Ok <==> config_spec(bytes, toml_document(chars)->Ok_0, directory, home).0.len() == 0,
        config_outcome(path, chars, bytes, directory, home) matches Ok(c) ==> distinct_names(c.targets),
        config_outcome(path, chars, bytes, directory, home) matches Err(ConfigErrorView::Invalid { problems, .. }) ==> {
            let found = config_spec(bytes, toml_document(chars)->Ok_0, directory, home).0;
            &&& problems.len() == found.len() > 0
            &&& by_line(problems)
            &&& forall|x: CProblem| problems.contains(x) <==> found.contains(x)
        },
{
    let document = toml_document(chars)->Ok_0;
    assert(distinct_names(Seq::<TargetView>::empty()));
    lemma_config_from_distinct(
        bytes,
        Seq::empty(),
        document.entries@,
        0,
        directory,
        home,
        ConfigView { auto: None, cycle: None, targets: Seq::empty() },
    );
    lemma_sort_cproblems(config_spec(bytes, document, directory, home).0);
}

proof fn lemma_cycle_entries(ps: Seq<CProblem>, values: Seq<TomlValue>, k: int, line: usize, kept: Seq<Seq<char>>)
    requires
        0 <= k,
    ensures
        cycle_entries(ps, values, k, line, kept).0.len() >= ps.len(),
        cycle_entries(ps, values, k, line, kept).0.take(ps.len() as int) == ps,
        forall|i: int|
            ps.len() <= i < cycle_entries(ps, values, k, line, kept).0.len() ==> {
                let p = #[trigger] cycle_entries(ps, values, k, line, kept).0[i];
                p is Type || p is Theme || p is Repeated
            },
    decreases values.len() - k,
{
    if k < values.len() {
        let next = match values[k] {
            TomlValue::Str(text) => if !is_segment_spec(text@) {
                (ps.push(CProblem::Theme { key: "cycle.themes"@, line, value: text@ }), kept)
            } else if kept.contains(text@) {
                (ps.push(CProblem::Repeated { theme: text@, line }), kept)
            } else {
                (ps, kept.push(text@))
            },
            _ => (ps.push(wrong_type("cycle.themes"@, line, values[k])), kept),
        };
        lemma_cycle_entries(next.0, values, k + 1, line, next.1);
        let r = cycle_entries(ps, values, k, line, kept).0;
        assert(r == cycle_entries(next.0, values, k + 1, line, next.1).0);
        assert(r.take(next.0.len() as int) == next.0);
        assert(r.take(ps.len() as int) =~= next.0.take(ps.len() as int));
        assert(next.0.take(ps.len() as int) =~= ps);
        if next.0.len() > ps.len() {
            assert(r[ps.len() as int] == r.take(next.0.len() as int)[ps.len() as int]);
        }
    } else {
        assert(ps.take(ps.len() as int) =~= ps);
    }
}

/// Reading `cycle.themes` when it is an array: after any unknown key of `[cycle]`, the
/// problems it adds are one `Short` exactly when the array writes fewer than two entries,
/// counted on what is written and not on what parses, then for each entry that is no theme
/// a `Type`, `Theme` or `Repeated`; and a cycle is read only from two or more themes.
pub proof fn lemma_cycle_short(bytes: Seq<u8>, ps: Seq<CProblem>, entries: Seq<TomlEntry>, line: usize)
    requires
        entry_of(entries, "themes"@) matches Some(e) && e.value is Array,
    ensures
        ({
            let ps1 = unknown_keys(bytes, ps, entries, "cycle"@, seq!["themes"@]);
            let values = entry_of(entries, "themes"@)->0.value->Array_0@;
            let r = cycle_spec(bytes, ps, entries, line).0;
            &&& r.len() >= ps1.len()
            &&& r.take(ps1.len() as int) == ps1
            &&& (exists|i: int| ps1.len() <= i < r.len() && #[trigger] r[i] is Short) <==> values.len() < 2
            &&& forall|i: int| ps1.len() <= i < r.len() ==> {
                let p = #[trigger] r[i];
                p is Short || p is Type || p is Theme || p is Repeated
            }
            &&& cycle_spec(bytes, ps, entries, line).1 matches Some(themes) ==> themes.len() >= 2
        }),
{
    let ps1 = unknown_keys(bytes, ps, entries, "cycle"@, seq!["themes"@]);
    let e = entry_of(entries, "themes"@)->0;
    let values = e.value->Array_0@;
    let at = line_number(bytes, e.offset);
    let ps2 = if values.len() < 2 {
        ps1.push(CProblem::Short { line: at })
    } else {
        ps1
    };
    lemma_cycle_entries(ps2, values, 0, at, Seq::empty());
    let r = cycle_spec(bytes, ps, entries, line).0;
    assert(r == cycle_entries(ps2, values, 0, at, Seq::empty()).0);
    assert(r.take(ps1.len() as int) =~= ps2.take(ps1.len() as int));
    assert(ps2.take(ps1.len() as int) =~= ps1);
    if values.len() < 2 {
        assert(r[ps1.len() as int] == r.take(ps2.len() as int)[ps1.len() as int]);
        assert(r[ps1.len() as int] is Short);
    } else {
        assert forall|i: int| ps1.len() <= i < r.len() implies !(#[trigger] r[i] is Short) by {
            let p = r[i];
            assert(p is Type || p is Theme || p is Repeated);
        }
    }
    assert forall|i: int| ps1.len() <= i < r.len() implies {
        let p = #[trigger] r[i];
        p is Short || p is Type || p is Theme || p is Repeated
    } by {
        if i >= ps2.len() {
            let p = r[i];
            assert(p is Type || p is Theme || p is Repeated);
        } else {
            assert(r[i] == r.take(ps2.len() as int)[i]);
        }
    }
}

} // verus!
