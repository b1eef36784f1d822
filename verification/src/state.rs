//! The state file: which theme was applied last.
//!
//! It lives outside the config directory, because it records what this machine is showing
//! rather than what the user configured.

use vstd::prelude::*;
use vstd::string::*;

use crate::config::TargetName;
use crate::path_map::{
    lemma_lookup_insert, lemma_lookup_remove, lookup, remove_key, sorted_insert, PathMap,
};
use crate::config::entry_of;
use crate::text::{chars_of, push_str, string_of};
use crate::theme::ThemeId;
use crate::token::{is_segment_spec, TokenPath};
use crate::toml::{kind_name_spec, parse_toml, toml_document, TomlEntry, TomlTable, TomlValue};

verus! {

/// What vanadis last applied.
///
/// `theme` is what a whole apply wrote. `targets` holds the targets a later partial apply
/// moved off it, which is the only way the two can disagree.
#[derive(Debug)]
pub struct State {
    theme: ThemeId,
    targets: PathMap<ThemeId>,
}

/// A state as plain values: the theme, and each target recorded apart, in name order.
pub struct StateView {
    pub theme: Seq<char>,
    pub targets: Seq<(Seq<char>, Seq<char>)>,
}

/// The recorded targets as plain values.
pub open spec fn recorded(entries: Seq<(Seq<char>, ThemeId)>) -> Seq<(Seq<char>, Seq<char>)> {
    entries.map_values(|e: (Seq<char>, ThemeId)| (e.0, e.1@))
}

/// Every key is a target name.
pub open spec fn named(entries: Seq<(Seq<char>, ThemeId)>) -> bool {
    forall|i: int| 0 <= i < entries.len() ==> is_segment_spec(#[trigger] entries[i].0)
}

impl View for State {
    type V = StateView;

    closed spec fn view(&self) -> StateView {
        StateView { theme: self.theme@, targets: recorded(self.targets.view_entries()) }
    }
}

/// The theme `target` is on: the one recorded for it alone, or the applied theme.
pub open spec fn theme_for_spec(state: StateView, target: Seq<char>) -> Seq<char> {
    match lookup(state.targets, target) {
        Some(theme) => theme,
        None => state.theme,
    }
}

/// Whether every target recorded apart is on a theme other than the applied one.
pub open spec fn diverging(state: StateView) -> bool {
    forall|i: int| 0 <= i < state.targets.len() ==> #[trigger] state.targets[i].1 != state.theme
}

/// The state after recording `theme` for `name` alone: dropped from the table when it is the
/// applied theme, and bound to it otherwise.
pub open spec fn record_spec(state: StateView, name: Seq<char>, theme: Seq<char>) -> StateView {
    if theme == state.theme {
        StateView { targets: remove_key(state.targets, name), ..state }
    } else {
        StateView { targets: sorted_insert(state.targets, name, theme), ..state }
    }
}

/// Taking views of values commutes with looking up.
proof fn lemma_lookup_recorded(entries: Seq<(Seq<char>, ThemeId)>, key: Seq<char>)
    ensures
        lookup(recorded(entries), key) == match lookup(entries, key) {
            Some(t) => Some(t@),
            None => None,
        },
    decreases entries.len(),
{
    if entries.len() > 0 {
        assert(recorded(entries).drop_first() =~= recorded(entries.drop_first()));
        lemma_lookup_recorded(entries.drop_first(), key);
    }
}

/// Taking views commutes with inserting.
proof fn lemma_insert_recorded(entries: Seq<(Seq<char>, ThemeId)>, key: Seq<char>, value: ThemeId)
    ensures
        recorded(sorted_insert(entries, key, value)) == sorted_insert(recorded(entries), key, value@),
    decreases entries.len(),
{
    let views = recorded(entries);
    if entries.len() == 0 {
        assert(recorded(seq![(key, value)]) =~= seq![(key, value@)]);
    } else if entries[0].0 == key {
        assert(recorded(seq![(key, value)] + entries.drop_first()) =~= seq![(key, value@)] + views.drop_first());
    } else if crate::path_map::text_less(key, entries[0].0) {
        assert(recorded(seq![(key, value)] + entries) =~= seq![(key, value@)] + views);
    } else {
        lemma_insert_recorded(entries.drop_first(), key, value);
        assert(views.drop_first() =~= recorded(entries.drop_first()));
        assert(recorded(seq![entries[0]] + sorted_insert(entries.drop_first(), key, value)) =~= seq![views[0]]
            + recorded(sorted_insert(entries.drop_first(), key, value)));
    }
}

/// Taking views commutes with removing.
proof fn lemma_remove_recorded(entries: Seq<(Seq<char>, ThemeId)>, key: Seq<char>)
    ensures
        recorded(remove_key(entries, key)) == remove_key(recorded(entries), key),
    decreases entries.len(),
{
    if entries.len() > 0 {
        lemma_remove_recorded(entries.drop_first(), key);
        assert(recorded(entries).drop_first() =~= recorded(entries.drop_first()));
        if entries[0].0 != key {
            assert(recorded(seq![entries[0]] + remove_key(entries.drop_first(), key)) =~= seq![recorded(entries)[0]]
                + recorded(remove_key(entries.drop_first(), key)));
        }
    } else {
        assert(recorded(remove_key(entries, key)) =~= remove_key(recorded(entries), key));
    }
}

/// Inserting a name keeps every key a name.
proof fn lemma_insert_named(entries: Seq<(Seq<char>, ThemeId)>, key: Seq<char>, value: ThemeId)
    requires
        named(entries),
        is_segment_spec(key),
    ensures
        named(sorted_insert(entries, key, value)),
    decreases entries.len(),
{
    if entries.len() > 0 && entries[0].0 != key && !crate::path_map::text_less(key, entries[0].0) {
        let rest = entries.drop_first();
        assert(named(rest)) by {
            assert forall|i: int| 0 <= i < rest.len() implies is_segment_spec(#[trigger] rest[i].0) by {
                assert(rest[i] == entries[i + 1]);
            }
        }
        lemma_insert_named(rest, key, value);
        let ins = sorted_insert(entries, key, value);
        assert forall|i: int| 0 <= i < ins.len() implies is_segment_spec(#[trigger] ins[i].0) by {
            if i > 0 {
                assert(ins[i] == sorted_insert(rest, key, value)[i - 1]);
            }
        }
    } else if entries.len() > 0 && entries[0].0 == key {
        let ins = sorted_insert(entries, key, value);
        assert forall|i: int| 0 <= i < ins.len() implies is_segment_spec(#[trigger] ins[i].0) by {
            if i > 0 {
                assert(ins[i] == entries[i]);
            }
        }
    } else if entries.len() > 0 {
        let ins = sorted_insert(entries, key, value);
        assert forall|i: int| 0 <= i < ins.len() implies is_segment_spec(#[trigger] ins[i].0) by {
            if i > 0 {
                assert(ins[i] == entries[i - 1]);
            }
        }
    }
}

/// Removing a name keeps every key a name.
proof fn lemma_remove_named(entries: Seq<(Seq<char>, ThemeId)>, key: Seq<char>)
    requires
        named(entries),
    ensures
        named(remove_key(entries, key)),
    decreases entries.len(),
{
    if entries.len() > 0 {
        let rest = entries.drop_first();
        assert(named(rest)) by {
            assert forall|i: int| 0 <= i < rest.len() implies is_segment_spec(#[trigger] rest[i].0) by {
                assert(rest[i] == entries[i + 1]);
            }
        }
        lemma_remove_named(rest, key);
        if entries[0].0 != key {
            let r = remove_key(entries, key);
            assert forall|i: int| 0 <= i < r.len() implies is_segment_spec(#[trigger] r[i].0) by {
                if i > 0 {
                    assert(r[i] == remove_key(rest, key)[i - 1]);
                }
            }
        }
    }
}

impl State {
    #[verifier::type_invariant]
    pub closed spec fn well_formed(self) -> bool {
        self.targets.well_formed() && named(self.targets.view_entries())
    }

    /// The state that records `theme` as applied to every target.
    pub fn new(theme: ThemeId) -> (state: State)
        ensures
            state@.theme == theme@,
            state@.targets.len() == 0,
    {
        let targets = PathMap::new();
        let state = State { theme, targets };
        proof {
            assert(recorded(state.targets.view_entries()) =~= Seq::empty());
        }
        state
    }

    /// The theme that was applied.
    pub fn theme(&self) -> (theme: &ThemeId)
        ensures
            theme@ == self@.theme,
    {
        &self.theme
    }

    /// The targets carrying a theme of their own, and which, in name order.
    pub fn targets(&self) -> (targets: Vec<(TargetName, ThemeId)>)
        ensures
            targets@.map_values(|e: (TargetName, ThemeId)| (e.0@, e.1@)) == self@.targets,
    {
        proof {
            use_type_invariant(self);
        }
        let ghost entries = self.targets.view_entries();
        let mut out: Vec<(TargetName, ThemeId)> = Vec::new();
        let mut i: usize = 0;
        while i < self.targets.len()
            invariant
                i <= entries.len(),
                entries == self.targets.view_entries(),
                named(entries),
                out@.map_values(|e: (TargetName, ThemeId)| (e.0@, e.1@)) == recorded(entries).take(i as int),
            decreases entries.len() - i,
        {
            let entry = self.targets.entry(i);
            let name = match TargetName::parse(entry.0.as_str()) {
                Some(name) => name,
                None => {
                    proof {
                        assert(is_segment_spec(entries[i as int].0));
                        assert(false);
                    }
                    TargetName::parse(entry.0.as_str()).unwrap()
                },
            };
            let ghost before = out@.map_values(|e: (TargetName, ThemeId)| (e.0@, e.1@));
            out.push((name, entry.1.clone()));
            proof {
                assert(out@.map_values(|e: (TargetName, ThemeId)| (e.0@, e.1@)) =~= before.push((entries[i as int].0, entries[i as int].1@)));
                assert(recorded(entries).take(i + 1) =~= recorded(entries).take(i as int).push(recorded(entries)[i as int]));
            }
            i = i + 1;
        }
        proof {
            assert(recorded(entries).take(entries.len() as int) =~= recorded(entries));
        }
        out
    }

    /// The theme `target` is on: the one recorded for it alone, or the applied theme.
    ///
    /// A partial apply is the only thing that puts the two apart, and every command that
    /// renders what is already on the machine has to ask this rather than read `theme`.
    pub fn theme_for(&self, target: &TargetName) -> (theme: &ThemeId)
        ensures
            theme@ == theme_for_spec(self@, target@),
    {
        proof {
            use_type_invariant(self);
            use_type_invariant(target);
            TargetName::lemma_well_formed(*target);
            crate::token::lemma_segment_is_path(target@);
            lemma_lookup_recorded(self.targets.view_entries(), target@);
        }
        let key = TokenPath::from_chars(crate::text::chars_of(target.as_str()).as_slice());
        match self.targets.get(&key) {
            Some(theme) => theme,
            None => &self.theme,
        }
    }

    /// Records `theme` as applied to `name` alone.
    ///
    /// A target brought back to the theme every other target carries stops being recorded,
    /// so the table holds exactly what diverges.
    pub fn record(&mut self, name: TargetName, theme: ThemeId)
        ensures
            final(self)@ == record_spec(old(self)@, name@, theme@),
    {
        proof {
            use_type_invariant(&*self);
            use_type_invariant(&name);
            TargetName::lemma_well_formed(name);
            crate::token::lemma_segment_is_path(name@);
        }
        let key = TokenPath::from_chars(crate::text::chars_of(name.as_str()).as_slice());
        let ghost before = self.targets.view_entries();
        let mut targets = PathMap::new();
        std::mem::swap(&mut targets, &mut self.targets);
        if theme.same(&self.theme) {
            targets.remove(&key);
            proof {
                lemma_remove_recorded(before, name@);
                lemma_remove_named(before, name@);
            }
        } else {
            proof {
                lemma_insert_recorded(before, name@, theme);
                lemma_insert_named(before, name@, theme);
            }
            targets.insert(key, theme);
        }
        self.targets = targets;
    }
}

/// Recording a theme for a target puts the target on that theme, and leaves every other
/// target on the theme it was on.
pub proof fn lemma_record_then_theme_for(state: StateView, name: Seq<char>, theme: Seq<char>, other: Seq<char>)
    ensures
        theme_for_spec(record_spec(state, name, theme), name) == theme,
        other != name ==> theme_for_spec(record_spec(state, name, theme), other) == theme_for_spec(state, other),
{
    if theme == state.theme {
        lemma_lookup_remove(state.targets, name, name);
        lemma_lookup_remove(state.targets, name, other);
    } else {
        lemma_lookup_insert(state.targets, name, theme, name);
        lemma_lookup_insert(state.targets, name, theme, other);
    }
}

/// Recording keeps the table holding only what diverges from the applied theme.
pub proof fn lemma_record_keeps_diverging(state: StateView, name: Seq<char>, theme: Seq<char>)
    requires
        diverging(state),
    ensures
        diverging(record_spec(state, name, theme)),
{
    let after = record_spec(state, name, theme);
    if theme == state.theme {
        lemma_remove_subset(state.targets, name);
        assert forall|i: int| 0 <= i < after.targets.len() implies #[trigger] after.targets[i].1 != after.theme by {
            let j = choose|j: int| 0 <= j < state.targets.len() && state.targets[j] == after.targets[i];
        }
    } else {
        lemma_insert_subset(state.targets, name, theme);
        assert forall|i: int| 0 <= i < after.targets.len() implies #[trigger] after.targets[i].1 != after.theme by {
            if after.targets[i] != (name, theme) {
                let j = choose|j: int| 0 <= j < state.targets.len() && state.targets[j] == after.targets[i];
            }
        }
    }
}

/// Every entry left after a removal was there before.
proof fn lemma_remove_subset(entries: Seq<(Seq<char>, Seq<char>)>, key: Seq<char>)
    ensures
        forall|i: int| 0 <= i < remove_key(entries, key).len() ==> exists|j: int| 0 <= j < entries.len() && entries[j] == #[trigger] remove_key(entries, key)[i],
    decreases entries.len(),
{
    if entries.len() > 0 {
        let rest = entries.drop_first();
        lemma_remove_subset(rest, key);
        let r = remove_key(entries, key);
        assert forall|i: int| 0 <= i < r.len() implies exists|j: int| 0 <= j < entries.len() && entries[j] == #[trigger] r[i] by {
            if entries[0].0 == key {
                let j = choose|j: int| 0 <= j < rest.len() && rest[j] == remove_key(rest, key)[i];
                assert(entries[j + 1] == r[i]);
            } else if i == 0 {
                assert(entries[0] == r[0]);
            } else {
                assert(r[i] == remove_key(rest, key)[i - 1]);
                let j = choose|j: int| 0 <= j < rest.len() && rest[j] == remove_key(rest, key)[i - 1];
                assert(entries[j + 1] == r[i]);
            }
        }
    }
}

/// Every entry after an insert is the one inserted or was there before.
proof fn lemma_insert_subset(entries: Seq<(Seq<char>, Seq<char>)>, key: Seq<char>, value: Seq<char>)
    ensures
        forall|i: int| 0 <= i < sorted_insert(entries, key, value).len() ==> #[trigger] sorted_insert(entries, key, value)[i] == (key, value)
            || exists|j: int| 0 <= j < entries.len() && entries[j] == sorted_insert(entries, key, value)[i],
    decreases entries.len(),
{
    let ins = sorted_insert(entries, key, value);
    if entries.len() == 0 {
    } else if entries[0].0 == key {
        assert forall|i: int| 0 <= i < ins.len() implies #[trigger] ins[i] == (key, value) || exists|j: int| 0 <= j < entries.len() && entries[j] == ins[i] by {
            if i > 0 {
                assert(ins[i] == entries[i]);
            }
        }
    } else if crate::path_map::text_less(key, entries[0].0) {
        assert forall|i: int| 0 <= i < ins.len() implies #[trigger] ins[i] == (key, value) || exists|j: int| 0 <= j < entries.len() && entries[j] == ins[i] by {
            if i > 0 {
                assert(ins[i] == entries[i - 1]);
            }
        }
    } else {
        let rest = entries.drop_first();
        lemma_insert_subset(rest, key, value);
        assert forall|i: int| 0 <= i < ins.len() implies #[trigger] ins[i] == (key, value) || exists|j: int| 0 <= j < entries.len() && entries[j] == ins[i] by {
            if i == 0 {
                assert(ins[0] == entries[0]);
            } else {
                assert(ins[i] == sorted_insert(rest, key, value)[i - 1]);
                if sorted_insert(rest, key, value)[i - 1] != (key, value) {
                    let j = choose|j: int| 0 <= j < rest.len() && rest[j] == sorted_insert(rest, key, value)[i - 1];
                    assert(entries[j + 1] == ins[i]);
                }
            }
        }
    }
}

/// Reading or writing the state file failed.
#[derive(Debug)]
pub enum StateError {
    /// The file could not be read.
    Read {
        /// The file the read failed on.
        path: String,
        /// What the read failed with.
        message: String,
    },
    /// The file could not be written.
    Write {
        /// The file the write failed on.
        path: String,
        /// What the write failed with.
        message: String,
    },
    /// The file is not valid TOML.
    Syntax {
        /// The file the parse failed in.
        path: String,
        /// What the TOML parser says is wrong.
        message: String,
    },
    /// The file carries no `theme`.
    Missing {
        /// The file the key is missing from.
        path: String,
    },
    /// A key under `[targets]` is not a target name.
    Target {
        /// The file the name came from.
        path: String,
        /// The key, as the file writes it.
        name: String,
    },
    /// A theme name that is not a theme identifier.
    Id {
        /// The file the identifier came from.
        path: String,
        /// The value `theme` holds.
        theme: String,
    },
}

/// A state error as plain values.
pub enum StateErrorView {
    Read { path: Seq<char>, message: Seq<char> },
    Write { path: Seq<char>, message: Seq<char> },
    Syntax { path: Seq<char>, message: Seq<char> },
    Missing { path: Seq<char> },
    Target { path: Seq<char>, name: Seq<char> },
    Id { path: Seq<char>, theme: Seq<char> },
}

impl View for StateError {
    type V = StateErrorView;

    open spec fn view(&self) -> StateErrorView {
        match self {
            StateError::Read { path, message } => StateErrorView::Read { path: path@, message: message@ },
            StateError::Write { path, message } => StateErrorView::Write { path: path@, message: message@ },
            StateError::Syntax { path, message } => StateErrorView::Syntax { path: path@, message: message@ },
            StateError::Missing { path } => StateErrorView::Missing { path: path@ },
            StateError::Target { path, name } => StateErrorView::Target { path: path@, name: name@ },
            StateError::Id { path, theme } => StateErrorView::Id { path: path@, theme: theme@ },
        }
    }
}

/// The sentence a state error is reported with.
pub open spec fn state_error_text(e: StateErrorView) -> Seq<char> {
    match e {
        StateErrorView::Read { path, message } => path + ": "@ + message,
        StateErrorView::Write { path, message } => path + ": "@ + message,
        StateErrorView::Syntax { path, message } => path + ": "@ + message,
        StateErrorView::Missing { path } => path + ": no `theme` key"@,
        StateErrorView::Target { path, name } => path + ": `"@ + name + "` is not a target name"@,
        StateErrorView::Id { path, theme } => path + ": `"@ + theme + "` is not a theme identifier"@,
    }
}

impl StateError {
    /// The sentence the error is reported with: the file, then what is wrong with it.
    pub fn message(&self) -> (text: String)
        ensures
            text@ == state_error_text(self@),
    {
        proof {
            reveal_strlit(": ");
            reveal_strlit(": no `theme` key");
            reveal_strlit(": `");
            reveal_strlit("` is not a target name");
            reveal_strlit("` is not a theme identifier");
        }
        let mut out: Vec<char> = Vec::new();
        match self {
            StateError::Read { path, message } | StateError::Write { path, message } | StateError::Syntax {
                path,
                message,
            } => {
                crate::text::push_str(&mut out, path.as_str());
                crate::text::push_str(&mut out, ": ");
                crate::text::push_str(&mut out, message.as_str());
            },
            StateError::Missing { path } => {
                crate::text::push_str(&mut out, path.as_str());
                crate::text::push_str(&mut out, ": no `theme` key");
            },
            StateError::Target { path, name } => {
                crate::text::push_str(&mut out, path.as_str());
                crate::text::push_str(&mut out, ": `");
                crate::text::push_str(&mut out, name.as_str());
                crate::text::push_str(&mut out, "` is not a target name");
            },
            StateError::Id { path, theme } => {
                crate::text::push_str(&mut out, path.as_str());
                crate::text::push_str(&mut out, ": `");
                crate::text::push_str(&mut out, theme.as_str());
                crate::text::push_str(&mut out, "` is not a theme identifier");
            },
        }
        proof {
            assert(out@ =~= state_error_text(self@));
        }
        crate::text::string_of(out.as_slice())
    }
}

/// What a `[targets]` value reads as: the string, or the name of its type.
pub open spec fn value_text(value: TomlValue) -> Seq<char> {
    match value {
        TomlValue::Str(t) => t@,
        _ => kind_name_spec(value),
    }
}

/// Reading the `[targets]` entries from `k` on into `acc`.
pub open spec fn targets_spec(path: Seq<char>, entries: Seq<TomlEntry>, k: int, acc: Seq<(Seq<char>, Seq<char>)>) -> Result<
    Seq<(Seq<char>, Seq<char>)>,
    StateErrorView,
>
    decreases entries.len() - k,
{
    if k < 0 || k >= entries.len() {
        Ok(acc)
    } else {
        let e = entries[k];
        if !is_segment_spec(e.key@) {
            Err(StateErrorView::Target { path, name: e.key@ })
        } else if !is_segment_spec(value_text(e.value)) {
            Err(StateErrorView::Id { path, theme: value_text(e.value) })
        } else {
            targets_spec(path, entries, k + 1, sorted_insert(acc, e.key@, value_text(e.value)))
        }
    }
}

/// Reading the state stored at `path`, holding `chars`.
pub open spec fn state_outcome(path: Seq<char>, chars: Seq<char>) -> Result<StateView, StateErrorView> {
    match toml_document(chars) {
        Err(error) => Err(StateErrorView::Syntax { path, message: error.message@ }),
        Ok(document) => match entry_of(document.entries@, "theme"@) {
            Some(TomlEntry { value: TomlValue::Str(theme), .. }) => if !is_segment_spec(theme@) {
                Err(StateErrorView::Id { path, theme: theme@ })
            } else {
                let targets = match entry_of(document.entries@, "targets"@) {
                    Some(e) => if e.value.is_table_like() {
                        targets_spec(path, crate::config::table_entries(e.value), 0, Seq::empty())
                    } else {
                        Ok(Seq::empty())
                    },
                    None => Ok(Seq::empty()),
                };
                match targets {
                    Ok(t) => Ok(StateView { theme: theme@, targets: t }),
                    Err(e) => Err(e),
                }
            },
            _ => Err(StateErrorView::Missing { path }),
        },
    }
}

/// The lines `[targets]` holds, one per entry.
pub open spec fn target_lines(targets: Seq<(Seq<char>, Seq<char>)>) -> Seq<char>
    decreases targets.len(),
{
    if targets.len() == 0 {
        Seq::empty()
    } else {
        target_lines(targets.drop_last()) + targets.last().0 + " = \""@ + targets.last().1 + "\"\n"@
    }
}

/// The state file's contents.
pub open spec fn toml_text(state: StateView) -> Seq<char> {
    "# written by vanadis; the theme it last applied\ntheme = \""@ + state.theme + "\"\n"@ + if state.targets.len()
        > 0 {
        "\n[targets]\n"@ + target_lines(state.targets)
    } else {
        Seq::empty()
    }
}

impl State {
    /// Parses `source` as the state stored at `path`.
    pub fn parse(path: &str, source: &str) -> (result: Result<State, StateError>)
        ensures
            match result {
                Ok(s) => Ok(s@),
                Err(e) => Err(e@),
            } == state_outcome(path@, source@),
    {
        let document = match parse_toml(source) {
            Ok(document) => document,
            Err(error) => {
                return Err(StateError::Syntax { path: path.to_owned(), message: error.message });
            },
        };
        let theme = match crate::config::find_entry(&document.entries, "theme") {
            Some(i) => match &document.entries[i].value {
                TomlValue::Str(theme) => theme,
                _ => {
                    return Err(StateError::Missing { path: path.to_owned() });
                },
            },
            None => {
                return Err(StateError::Missing { path: path.to_owned() });
            },
        };
        let theme = match ThemeId::parse(theme.as_str()) {
            Some(id) => id,
            None => {
                return Err(StateError::Id { path: path.to_owned(), theme: theme.clone() });
            },
        };
        let mut targets: PathMap<ThemeId> = PathMap::new();
        proof {
            assert(recorded(targets.view_entries()) =~= Seq::empty());
        }
        match crate::config::find_entry(&document.entries, "targets") {
            Some(i) => {
                let value = &document.entries[i].value;
                let entries = match value {
                    TomlValue::Table(t) => Some(&t.entries),
                    TomlValue::Inline(t) => Some(&t.entries),
                    _ => None,
                };
                match entries {
                    None => {},
                    Some(entries) => {
                        let ghost all = entries@;
                        let mut k: usize = 0;
                        while k < entries.len()
                            invariant
                                k <= all.len(),
                                all == entries@,
                                targets.well_formed(),
                                named(targets.view_entries()),
                                state_outcome(path@, source@) == match targets_spec(path@, all, 0, Seq::empty()) {
                                    Ok(t) => Ok(StateView { theme: theme@, targets: t }),
                                    Err(e) => Err(e),
                                },
                                targets_spec(path@, all, 0, Seq::empty()) == targets_spec(path@, all, k as int, recorded(targets.view_entries())),
                            decreases all.len() - k,
                        {
                            let entry = &entries[k];
                            let key = match TokenPath::parse(entry.key.as_str()) {
                                Some(key) => key,
                                None => {
                                    proof {
                                        if is_segment_spec(entry.key@) {
                                            crate::token::lemma_segment_is_path(entry.key@);
                                        }
                                        assert(all[k as int] == *entry);
                                    }
                                    return Err(StateError::Target { path: path.to_owned(), name: entry.key.clone() });
                                },
                            };
                            if !crate::token::is_segment(entry.key.as_str()) {
                                proof {
                                    assert(all[k as int] == *entry);
                                }
                                return Err(StateError::Target { path: path.to_owned(), name: entry.key.clone() });
                            }
                            let text = match &entry.value {
                                TomlValue::Str(t) => t.clone(),
                                other => other.kind_name(),
                            };
                            let theme = match ThemeId::parse(text.as_str()) {
                                Some(id) => id,
                                None => {
                                    return Err(StateError::Id { path: path.to_owned(), theme: text });
                                },
                            };
                            proof {
                                lemma_insert_recorded(targets.view_entries(), key@, theme);
                                lemma_insert_named(targets.view_entries(), key@, theme);
                            }
                            targets.insert(key, theme);
                            k = k + 1;
                        }
                    },
                }
            },
            None => {},
        }
        Ok(State { theme, targets })
    }

    /// The file's contents. An identifier and a target name are lowercase, digits and
    /// hyphens, so neither needs escaping.
    pub fn to_toml(&self) -> (text: String)
        ensures
            text@ == toml_text(self@),
    {
        let mut out: Vec<char> = Vec::new();
        push_str(&mut out, "# written by vanadis; the theme it last applied\ntheme = \"");
        push_str(&mut out, self.theme.as_str());
        push_str(&mut out, "\"\n");
        let ghost head = out@;
        let ghost entries = recorded(self.targets.view_entries());
        if self.targets.len() > 0 {
            push_str(&mut out, "\n[targets]\n");
            let ghost start = out@;
            let mut i: usize = 0;
            proof {
                assert(entries.take(0) =~= Seq::<(Seq<char>, Seq<char>)>::empty());
            }
            while i < self.targets.len()
                invariant
                    i <= entries.len(),
                    entries == recorded(self.targets.view_entries()),
                    out@ == start + target_lines(entries.take(i as int)),
                decreases entries.len() - i,
            {
                let entry = self.targets.entry(i);
                push_str(&mut out, entry.0.as_str());
                push_str(&mut out, " = \"");
                push_str(&mut out, entry.1.as_str());
                push_str(&mut out, "\"\n");
                proof {
                    assert(entries.take(i + 1).drop_last() =~= entries.take(i as int));
                    assert(entries.take(i + 1).last() == entries[i as int]);
                }
                i = i + 1;
            }
            proof {
                assert(entries.take(entries.len() as int) =~= entries);
            }
        }
        string_of(out.as_slice())
    }
}

proof fn lemma_targets_spec_keeps(
    path: Seq<char>,
    entries: Seq<TomlEntry>,
    j: int,
    acc: Seq<(Seq<char>, Seq<char>)>,
    key: Seq<char>,
)
    requires
        0 <= j <= entries.len(),
        targets_spec(path, entries, j, acc) is Ok,
    ensures
        forall|k: int|
            j <= k < entries.len() && (#[trigger] entries[k]).key@ == key && (forall|m: int|
                k < m < entries.len() ==> (#[trigger] entries[m]).key@ != key) ==> lookup(
                targets_spec(path, entries, j, acc)->Ok_0,
                key,
            ) == Some(value_text(entries[k].value)),
        (forall|m: int| j <= m < entries.len() ==> (#[trigger] entries[m]).key@ != key) ==> lookup(
            targets_spec(path, entries, j, acc)->Ok_0,
            key,
        ) == lookup(acc, key),
    decreases entries.len() - j,
{
    if j < entries.len() {
        let e = entries[j];
        let next = sorted_insert(acc, e.key@, value_text(e.value));
        lemma_targets_spec_keeps(path, entries, j + 1, next, key);
        lemma_lookup_insert(acc, e.key@, value_text(e.value), key);
        assert(targets_spec(path, entries, j, acc) == targets_spec(path, entries, j + 1, next));
    }
}

/// The `[targets]` entries of the state file `chars`, when it writes a table there.
pub open spec fn written_targets(chars: Seq<char>) -> Seq<TomlEntry> {
    crate::config::table_entries(entry_of(toml_document(chars)->Ok_0.entries@, "targets"@)->0.value)
}

/// Reading a state file keeps every target it records apart: for each entry of `[targets]`
/// (the last, should a name be written twice) the state records that theme for that target,
/// and the target is on that theme; a target the table does not name is on the applied theme.
pub proof fn lemma_state_keeps_every_target(path: Seq<char>, chars: Seq<char>, target: Seq<char>)
    requires
        state_outcome(path, chars) is Ok,
        toml_document(chars) is Ok,
        entry_of(toml_document(chars)->Ok_0.entries@, "targets"@) matches Some(e) && e.value.is_table_like(),
    ensures
        forall|k: int|
            0 <= k < written_targets(chars).len() && (#[trigger] written_targets(chars)[k]).key@ == target && (forall|m: int|
                k < m < written_targets(chars).len() ==> (#[trigger] written_targets(chars)[m]).key@ != target) ==> {
                &&& lookup(state_outcome(path, chars)->Ok_0.targets, target) == Some(value_text(written_targets(chars)[k].value))
                &&& theme_for_spec(state_outcome(path, chars)->Ok_0, target) == value_text(written_targets(chars)[k].value)
            },
        (forall|m: int| 0 <= m < written_targets(chars).len() ==> (#[trigger] written_targets(chars)[m]).key@ != target)
            ==> theme_for_spec(state_outcome(path, chars)->Ok_0, target) == state_outcome(path, chars)->Ok_0.theme,
{
    let entries = written_targets(chars);
    lemma_targets_spec_keeps(path, entries, 0, Seq::empty(), target);
}

/// The line the state file writes for a target recorded apart.
pub open spec fn target_line(target: (Seq<char>, Seq<char>)) -> Seq<char> {
    target.0 + " = \""@ + target.1 + "\"\n"@
}

proof fn lemma_target_lines_hold(targets: Seq<(Seq<char>, Seq<char>)>, i: int)
    requires
        0 <= i < targets.len(),
    ensures
        exists|p: int|
            0 <= p && p + target_line(targets[i]).len() <= target_lines(targets).len() && #[trigger] target_lines(targets).subrange(
                p,
                p + target_line(targets[i]).len(),
            ) == target_line(targets[i]),
    decreases targets.len(),
{
    let before = target_lines(targets.drop_last());
    let last = targets.last();
    assert(target_lines(targets) =~= before + target_line(last));
    if i == targets.len() - 1 {
        let p = before.len() as int;
        assert(target_lines(targets).subrange(p, p + target_line(last).len()) =~= target_line(last));
    } else {
        lemma_target_lines_hold(targets.drop_last(), i);
        assert(targets.drop_last()[i] == targets[i]);
        let p = choose|p: int|
            0 <= p && p + target_line(targets[i]).len() <= before.len() && #[trigger] before.subrange(
                p,
                p + target_line(targets[i]).len(),
            ) == target_line(targets[i]);
        assert(target_lines(targets).subrange(p, p + target_line(targets[i]).len()) =~= before.subrange(
            p,
            p + target_line(targets[i]).len(),
        ));
    }
}

/// The state file written for a state records its theme, and, under `[targets]`, a line
/// `name = "theme"` for every target recorded apart: none is left out.
pub proof fn lemma_state_file_writes_every_target(state: StateView, i: int)
    requires
        0 <= i < state.targets.len(),
    ensures
        exists|p: int|
            0 <= p && p + target_line(state.targets[i]).len() <= toml_text(state).len() && #[trigger] toml_text(state).subrange(
                p,
                p + target_line(state.targets[i]).len(),
            ) == target_line(state.targets[i]),
{
    lemma_target_lines_hold(state.targets, i);
    let lines = target_lines(state.targets);
    let head = "# written by vanadis; the theme it last applied\ntheme = \""@ + state.theme + "\"\n"@ + "\n[targets]\n"@;
    assert(toml_text(state) =~= head + lines);
    let line = target_line(state.targets[i]);
    let p = choose|p: int| 0 <= p && p + line.len() <= lines.len() && #[trigger] lines.subrange(p, p + line.len()) == line;
    assert(toml_text(state).subrange(head.len() + p, head.len() + p + line.len()) =~= lines.subrange(p, p + line.len()));
}

/// Reading a state file keeps the theme it records as applied.
pub proof fn lemma_state_keeps_theme(path: Seq<char>, chars: Seq<char>)
    requires
        state_outcome(path, chars) is Ok,
    ensures
        toml_document(chars) is Ok,
        entry_of(toml_document(chars)->Ok_0.entries@, "theme"@) matches Some(e) && e.value matches TomlValue::Str(t)
            && state_outcome(path, chars)->Ok_0.theme == t@,
{
}

} // verus!
