//! Applying a theme: which targets, which theme each takes, what each renders to, and what
//! the state records afterwards.
//!
//! Every target renders before anything is written, so a failure anywhere leaves the
//! machine on the theme it already had. Reading templates, writing outputs and running
//! reloads is the caller's; everything decided between them is here.

use vstd::prelude::*;

use crate::catalog::{find_theme, Catalog};
use crate::check::{read_of, FileRead, ReadView, Reads};
use crate::config::{pinned, Config, Target, TargetName, TargetView};
use crate::state::{record_spec, State, StateView};
use crate::template::{occurrence_views, render_spec, Template, TemplateError};
use crate::text::{push_str, string_of};
use crate::theme::{ThemeId, ThemeView, Variant};

verus! {

/// Applying a theme failed, before anything was written.
#[derive(Debug)]
pub enum ApplyError {
    /// The theme is not in `themes/`.
    UnknownTheme {
        /// The theme that was asked for.
        theme: ThemeId,
    },
    /// A target's own themes name none for the mode being applied.
    NoTheme {
        /// The target whose themes are short one mode.
        target: TargetName,
        /// The mode that was being applied.
        variant: Variant,
    },
    /// `--only` named a target the config does not have.
    UnknownTarget {
        /// The name that was asked for.
        name: TargetName,
    },
    /// `--only` was used before any theme was applied to every target.
    NoWholeApply,
    /// A template could not be read.
    Template {
        /// The template the read failed on.
        path: String,
        /// What the read failed with.
        message: String,
    },
    /// A template could not be rendered.
    Render(TemplateError),
    /// An output could not be written.
    Write {
        /// The file the write failed on.
        path: String,
        /// What the write failed with.
        message: String,
    },
}

/// An apply error as plain values.
pub enum ApplyErrorView {
    UnknownTheme(Seq<char>),
    NoTheme(Seq<char>, Variant),
    UnknownTarget(Seq<char>),
    NoWholeApply,
    Template(Seq<char>, Seq<char>),
    Render(Seq<char>, Seq<(Seq<char>, nat)>),
    Write(Seq<char>, Seq<char>),
}

impl View for ApplyError {
    type V = ApplyErrorView;

    open spec fn view(&self) -> ApplyErrorView {
        match self {
            ApplyError::UnknownTheme { theme } => ApplyErrorView::UnknownTheme(theme@),
            ApplyError::NoTheme { target, variant } => ApplyErrorView::NoTheme(target@, *variant),
            ApplyError::UnknownTarget { name } => ApplyErrorView::UnknownTarget(name@),
            ApplyError::NoWholeApply => ApplyErrorView::NoWholeApply,
            ApplyError::Template { path, message } => ApplyErrorView::Template(path@, message@),
            ApplyError::Render(TemplateError::UndefinedTokens { path, occurrences }) => ApplyErrorView::Render(
                path@,
                occurrence_views(occurrences@),
            ),
            ApplyError::Write { path, message } => ApplyErrorView::Write(path@, message@),
        }
    }
}

impl ApplyError {
    /// The sentence the error is reported with.
    pub fn message(&self) -> (text: String)
        ensures
            match self {
                ApplyError::UnknownTheme { theme } => text@ == "themes/ holds no theme named `"@ + theme@ + "`"@,
                ApplyError::NoTheme { target, variant } => text@ == "target `"@ + target@
                    + "` names no theme for "@ + crate::theme::variant_text(*variant),
                ApplyError::UnknownTarget { name } => text@ == "config.toml has no target named `"@
                    + name@ + "`"@,
                ApplyError::NoWholeApply => text@ == "--only needs a theme applied to every target first"@,
                ApplyError::Template { path, message } => text@ == path@ + ": "@ + message@,
                ApplyError::Render(_) => true,
                ApplyError::Write { path, message } => text@ == path@ + ": "@ + message@,
            },
    {
        let mut chars: Vec<char> = Vec::new();
        proof {
            reveal_strlit("themes/ holds no theme named `");
            reveal_strlit("`");
            reveal_strlit("target `");
            reveal_strlit("` names no theme for ");
            reveal_strlit("config.toml has no target named `");
            reveal_strlit("--only needs a theme applied to every target first");
            reveal_strlit(": ");
        }
        match self {
            ApplyError::UnknownTheme { theme } => {
                push_str(&mut chars, "themes/ holds no theme named `");
                push_str(&mut chars, theme.as_str());
                push_str(&mut chars, "`");
            },
            ApplyError::NoTheme { target, variant } => {
                push_str(&mut chars, "target `");
                push_str(&mut chars, target.as_str());
                push_str(&mut chars, "` names no theme for ");
                push_str(&mut chars, variant.as_str());
            },
            ApplyError::UnknownTarget { name } => {
                push_str(&mut chars, "config.toml has no target named `");
                push_str(&mut chars, name.as_str());
                push_str(&mut chars, "`");
            },
            ApplyError::NoWholeApply => {
                push_str(&mut chars, "--only needs a theme applied to every target first");
            },
            ApplyError::Template { path, message } => {
                push_str(&mut chars, path.as_str());
                push_str(&mut chars, ": ");
                push_str(&mut chars, message.as_str());
            },
            ApplyError::Render(error) => {
                let text = error.message();
                push_str(&mut chars, text.as_str());
            },
            ApplyError::Write { path, message } => {
                push_str(&mut chars, path.as_str());
                push_str(&mut chars, ": ");
                push_str(&mut chars, message.as_str());
            },
        }
        string_of(chars.as_slice())
    }
}

/// Where the first target from `i` on named `name` stands.
pub open spec fn target_index(targets: Seq<TargetView>, name: Seq<char>, i: int) -> Option<int>
    decreases targets.len() - i,
{
    if i < 0 || i >= targets.len() {
        None
    } else if targets[i].name == name {
        Some(i)
    } else {
        target_index(targets, name, i + 1)
    }
}

/// Whether `only[k]` is named again after being named before.
pub open spec fn named_before(only: Seq<Seq<char>>, k: int) -> bool {
    exists|j: int| 0 <= j < k && only[j] == only[k]
}

/// The targets `only[k..]` adds to `chosen`, or the first name the config does not have.
pub open spec fn select_from(targets: Seq<TargetView>, only: Seq<Seq<char>>, k: int, chosen: Seq<int>) -> Result<Seq<int>, Seq<char>>
    decreases only.len() - k,
{
    if k < 0 || k >= only.len() {
        Ok(chosen)
    } else {
        match target_index(targets, only[k], 0) {
            None => Err(only[k]),
            Some(i) => select_from(
                targets,
                only,
                k + 1,
                if named_before(only, k) {
                    chosen
                } else {
                    chosen.push(i)
                },
            ),
        }
    }
}

/// Which targets an apply writes, by position: every one when `only` is empty, else the
/// ones `only` names, each once, in the order it names them.
pub open spec fn select_spec(targets: Seq<TargetView>, only: Seq<Seq<char>>) -> Result<Seq<int>, Seq<char>> {
    if only.len() == 0 {
        Ok(Seq::new(targets.len(), |i: int| i))
    } else {
        select_from(targets, only, 0, Seq::empty())
    }
}

/// Names as plain values.
pub open spec fn name_views(names: Seq<TargetName>) -> Seq<Seq<char>> {
    names.map_values(|n: TargetName| n@)
}

/// The targets to write, by their position in the config: every one, or the ones `only`
/// names. A name the config does not have is returned as the error.
pub fn select(config: &Config, only: &[TargetName]) -> (result: Result<Vec<usize>, TargetName>)
    ensures
        match (result, select_spec(config@.targets, name_views(only@))) {
            (Ok(chosen), Ok(expected)) => chosen@.map_values(|i: usize| i as int) == expected,
            (Err(name), Err(expected)) => name@ == expected,
            _ => false,
        },
        result matches Ok(chosen) ==> forall|j: int| 0 <= j < chosen@.len() ==> chosen@[j] < config@.targets.len(),
{
    let targets = config.targets();
    let ghost views = config@.targets;
    let ghost names = name_views(only@);
    let mut chosen: Vec<usize> = Vec::new();
    if only.len() == 0 {
        let mut i: usize = 0;
        while i < targets.len()
            invariant
                i <= targets@.len(),
                crate::config::target_views(targets@) == views,
                chosen@.map_values(|j: usize| j as int) == Seq::new(i as nat, |j: int| j),
                forall|j: int| 0 <= j < chosen@.len() ==> chosen@[j] < targets@.len(),
            decreases targets@.len() - i,
        {
            let ghost before = chosen@.map_values(|j: usize| j as int);
            chosen.push(i);
            proof {
                assert(chosen@.map_values(|j: usize| j as int) =~= before.push(i as int));
                assert(chosen@.map_values(|j: usize| j as int) =~= Seq::new((i + 1) as nat, |j: int| j));
            }
            i = i + 1;
        }
        proof {
            assert(chosen@.map_values(|j: usize| j as int) =~= Seq::new(views.len(), |j: int| j));
        }
        return Ok(chosen);
    }
    let mut k: usize = 0;
    proof {
        assert(chosen@.map_values(|j: usize| j as int) =~= Seq::<int>::empty());
    }
    while k < only.len()
        invariant
            k <= only@.len(),
            only@.len() > 0,
            views == config@.targets,
            crate::config::target_views(targets@) == views,
            names == name_views(only@),
            select_spec(views, names) == select_from(views, names, k as int, chosen@.map_values(|j: usize| j as int)),
            forall|j: int| 0 <= j < chosen@.len() ==> chosen@[j] < targets@.len(),
        decreases only@.len() - k,
    {
        let name = &only[k];
        proof {
            assert(names[k as int] == name@);
        }
        let mut i: usize = 0;
        while i < targets.len()
            invariant
                i <= targets@.len(),
                crate::config::target_views(targets@) == views,
                target_index(views, name@, 0) == target_index(views, name@, i as int),
            ensures
                i <= targets@.len(),
                i < targets@.len() ==> target_index(views, name@, 0) == Some(i as int),
                i == targets@.len() ==> target_index(views, name@, 0) is None,
            decreases targets@.len() - i,
        {
            if targets[i].name().same(name) {
                proof {
                    assert(views[i as int] == targets@[i as int]@);
                }
                break;
            }
            i = i + 1;
        }
        if i == targets.len() {
            proof {
                assert(names[k as int] == name@);
                assert(select_from(views, names, k as int, chosen@.map_values(|j: usize| j as int))
                    == Err::<Seq<int>, Seq<char>>(names[k as int]));
            }
            let missing = name.clone();
            return Err(missing);
        }
        let mut j: usize = 0;
        let mut seen = false;
        while j < k
            invariant
                j <= k,
                k < only@.len(),
                names == name_views(only@),
                name@ == names[k as int],
                seen == exists|m: int| 0 <= m < j && names[m] == names[k as int],
            decreases k - j,
        {
            if only[j].same(name) {
                seen = true;
            }
            proof {
                assert(names[j as int] == only@[j as int]@);
            }
            j = j + 1;
        }
        let ghost before = chosen@.map_values(|m: usize| m as int);
        if !seen {
            chosen.push(i);
            proof {
                assert(chosen@.map_values(|m: usize| m as int) =~= before.push(i as int));
            }
        }
        proof {
            assert(names[k as int] == name@);
            assert(seen == named_before(names, k as int));
        }
        k = k + 1;
    }
    Ok(chosen)
}

/// The theme a target takes: its own for this mode, or the one being applied.
pub open spec fn pinned_spec(target: TargetView, applied: Seq<char>, variant: Variant) -> Result<Seq<char>, ApplyErrorView> {
    match target.themes {
        None => Ok(applied),
        Some(themes) => match pinned(themes, variant) {
            Some(id) => Ok(id),
            None => Err(ApplyErrorView::NoTheme(target.name, variant)),
        },
    }
}

/// The theme `target` takes: its own for this mode, or the one being applied.
pub fn pin(target: &Target, applied: &ThemeId, variant: Variant) -> (result: Result<ThemeId, ApplyError>)
    ensures
        match (result, pinned_spec(target@, applied@, variant)) {
            (Ok(id), Ok(expected)) => id@ == expected,
            (Err(e), Err(expected)) => e@ == expected,
            _ => false,
        },
{
    match target.themes() {
        None => Ok(applied.clone()),
        Some(themes) => match themes.theme(variant) {
            Some(id) => Ok(id.clone()),
            None => Err(ApplyError::NoTheme { target: target.name().clone(), variant }),
        },
    }
}

/// The state a partial apply leaves: each of `names` recorded on `theme`, in order.
pub open spec fn recorded_all(state: StateView, names: Seq<Seq<char>>, theme: Seq<char>) -> StateView
    decreases names.len(),
{
    if names.len() == 0 {
        state
    } else {
        record_spec(recorded_all(state, names.drop_last(), theme), names.last(), theme)
    }
}

/// The state after an apply of `theme` to `names`: a whole apply replaces it; a partial one
/// moves the targets it names off a theme already recorded, so there has to be one.
pub fn advance(previous: Option<State>, theme: &ThemeId, names: &Vec<TargetName>, whole: bool) -> (result: Result<State, ApplyError>)
    ensures
        whole ==> (result matches Ok(s) && s@.theme == theme@ && s@.targets.len() == 0),
        !whole && previous is None ==> result matches Err(ApplyError::NoWholeApply),
        !whole && previous is Some ==> (result matches Ok(s) && s@ == recorded_all(previous->0@, name_views(names@), theme@)),
{
    if whole {
        return Ok(State::new(theme.clone()));
    }
    let mut state = match previous {
        Some(state) => state,
        None => return Err(ApplyError::NoWholeApply),
    };
    let ghost start = state@;
    let mut i: usize = 0;
    while i < names.len()
        invariant
            i <= names@.len(),
            state@ == recorded_all(start, name_views(names@).take(i as int), theme@),
        decreases names@.len() - i,
    {
        state.record(names[i].clone(), theme.clone());
        proof {
            assert(name_views(names@).take(i + 1).drop_last() =~= name_views(names@).take(i as int));
        }
        i = i + 1;
    }
    proof {
        assert(name_views(names@).take(names@.len() as int) =~= name_views(names@));
    }
    Ok(state)
}

/// After a partial apply every target it names is on the applied theme.
pub proof fn lemma_partial_apply_moves_every_named_target(state: StateView, names: Seq<Seq<char>>, theme: Seq<char>, k: int)
    requires
        0 <= k < names.len(),
    ensures
        crate::state::theme_for_spec(recorded_all(state, names, theme), names[k]) == theme,
    decreases names.len(),
{
    let before = recorded_all(state, names.drop_last(), theme);
    crate::state::lemma_record_then_theme_for(before, names.last(), theme, names[k]);
    if k < names.len() - 1 && names[k] != names.last() {
        lemma_partial_apply_moves_every_named_target(state, names.drop_last(), theme, k);
        assert(names.drop_last()[k] == names[k]);
    }
}

/// A partial apply leaves every target it does not name on the theme it was on.
pub proof fn lemma_partial_apply_keeps_other_targets(state: StateView, names: Seq<Seq<char>>, theme: Seq<char>, other: Seq<char>)
    requires
        !names.contains(other),
    ensures
        crate::state::theme_for_spec(recorded_all(state, names, theme), other) == crate::state::theme_for_spec(state, other),
    decreases names.len(),
{
    if names.len() > 0 {
        let before = recorded_all(state, names.drop_last(), theme);
        assert(names.last() == names[names.len() - 1]);
        assert(!names.drop_last().contains(other)) by {
            if names.drop_last().contains(other) {
                let j = choose|j: int| 0 <= j < names.drop_last().len() && names.drop_last()[j] == other;
                assert(names[j] == other);
            }
        }
        crate::state::lemma_record_then_theme_for(before, names.last(), theme, other);
        lemma_partial_apply_keeps_other_targets(state, names.drop_last(), theme, other);
    }
}

/// One target rendered, waiting to be written.
#[derive(Debug)]
pub struct Rendered {
    name: TargetName,
    template: String,
    output: String,
    contents: String,
}

/// A render as plain values.
pub struct RenderedView {
    pub name: Seq<char>,
    pub template: Seq<char>,
    pub output: Seq<char>,
    pub contents: Seq<char>,
}

impl View for Rendered {
    type V = RenderedView;

    closed spec fn view(&self) -> RenderedView {
        RenderedView { name: self.name@, template: self.template@, output: self.output@, contents: self.contents@ }
    }
}

impl Rendered {
    /// The target it belongs to.
    pub fn name(&self) -> (name: &TargetName)
        ensures
            name@ == self@.name,
    {
        &self.name
    }

    /// The template it was rendered from.
    pub fn template(&self) -> (template: &str)
        ensures
            template@ == self@.template,
    {
        self.template.as_str()
    }

    /// The file it goes to.
    pub fn output(&self) -> (output: &str)
        ensures
            output@ == self@.output,
    {
        self.output.as_str()
    }

    /// What the file will hold.
    pub fn contents(&self) -> (contents: &str)
        ensures
            contents@ == self@.contents,
    {
        self.contents.as_str()
    }
}

/// What rendering `target`'s template, which holds `text`, against the theme `theme` of
/// `catalog` gives.
pub open spec fn render_outcome(catalog: Seq<ThemeView>, target: TargetView, theme: Seq<char>, text: Seq<char>) -> Result<RenderedView, ApplyErrorView> {
    match find_theme(catalog, theme, 0) {
        None => Err(ApplyErrorView::UnknownTheme(theme)),
        Some(found) => {
            let (output, undefined) = render_spec(text, 1, found.tokens);
            if undefined.len() == 0 {
                Ok(RenderedView { name: target.name, template: target.template, output: target.output, contents: output })
            } else {
                Err(ApplyErrorView::Render(target.template, undefined))
            }
        },
    }
}

/// Renders `target`, whose template holds `text`, against the theme `theme`.
pub fn render(catalog: &Catalog, target: &Target, theme: &ThemeId, text: &str) -> (result: Result<Rendered, ApplyError>)
    ensures
        match (result, render_outcome(catalog@, target@, theme@, text@)) {
            (Ok(r), Ok(expected)) => r@ == expected,
            (Err(e), Err(expected)) => e@ == expected,
            _ => false,
        },
{
    let found = match catalog.get(theme) {
        Some(found) => found,
        None => return Err(ApplyError::UnknownTheme { theme: theme.clone() }),
    };
    let template = Template::new(target.template(), text);
    match template.render(found.tokens()) {
        Ok(contents) => Ok(Rendered {
            name: target.name().clone(),
            template: target.template().to_owned(),
            output: target.output().to_owned(),
            contents,
        }),
        Err(error) => Err(ApplyError::Render(error)),
    }
}

/// What one target renders to in an apply of `theme`, a theme of `variant`: the theme it is
/// pinned to, that theme's presence, its template as read, then the render.
pub open spec fn one_render(
    catalog: Seq<ThemeView>,
    target: TargetView,
    theme: Seq<char>,
    variant: Variant,
    reads: Seq<(Seq<char>, ReadView)>,
) -> Result<RenderedView, ApplyErrorView> {
    match pinned_spec(target, theme, variant) {
        Err(e) => Err(e),
        Ok(id) => if find_theme(catalog, id, 0) is None {
            Err(ApplyErrorView::UnknownTheme(id))
        } else {
            match read_of(reads, target.template, 0) {
                ReadView::Text(text) => render_outcome(catalog, target, id, text),
                ReadView::Absent(message) => Err(ApplyErrorView::Template(target.template, message)),
                ReadView::Failed(message) => Err(ApplyErrorView::Template(target.template, message)),
            }
        },
    }
}

/// The renders of the targets at `chosen[i..]`, in order, or the first error.
pub open spec fn renders_from(
    targets: Seq<TargetView>,
    catalog: Seq<ThemeView>,
    theme: Seq<char>,
    variant: Variant,
    reads: Seq<(Seq<char>, ReadView)>,
    chosen: Seq<int>,
    i: int,
) -> Result<Seq<RenderedView>, ApplyErrorView>
    decreases chosen.len() - i,
{
    if i < 0 || i >= chosen.len() {
        Ok(Seq::empty())
    } else {
        match one_render(catalog, targets[chosen[i]], theme, variant, reads) {
            Err(e) => Err(e),
            Ok(r) => match renders_from(targets, catalog, theme, variant, reads, chosen, i + 1) {
                Err(e) => Err(e),
                Ok(rest) => Ok(seq![r] + rest),
            },
        }
    }
}

/// The state an apply leaves: a whole apply records `theme` alone; a partial one moves the
/// targets it names onto it, so a previous state is needed.
pub open spec fn next_state(previous: Option<StateView>, theme: Seq<char>, names: Seq<Seq<char>>, whole: bool) -> Result<
    StateView,
    ApplyErrorView,
> {
    if whole {
        Ok(StateView { theme, targets: Seq::empty() })
    } else {
        match previous {
            None => Err(ApplyErrorView::NoWholeApply),
            Some(state) => Ok(recorded_all(state, names, theme)),
        }
    }
}

/// What an apply of `theme` to the targets `only` names does, given the state it starts
/// from and what reading the templates gave: the state it leaves and the renders it writes,
/// in config order, or the first thing that stops it.
pub open spec fn plan_spec(
    targets: Seq<TargetView>,
    catalog: Seq<ThemeView>,
    theme: Seq<char>,
    only: Seq<Seq<char>>,
    previous: Option<StateView>,
    reads: Seq<(Seq<char>, ReadView)>,
) -> Result<(StateView, Seq<RenderedView>), ApplyErrorView> {
    match find_theme(catalog, theme, 0) {
        None => Err(ApplyErrorView::UnknownTheme(theme)),
        Some(applied) => match select_spec(targets, only) {
            Err(name) => Err(ApplyErrorView::UnknownTarget(name)),
            Ok(chosen) => {
                let names = chosen.map_values(|i: int| targets[i].name);
                match next_state(previous, theme, names, only.len() == 0) {
                    Err(e) => Err(e),
                    Ok(state) => match renders_from(targets, catalog, theme, applied.variant, reads, chosen, 0) {
                        Err(e) => Err(e),
                        Ok(renders) => Ok((state, renders)),
                    },
                }
            },
        },
    }
}

/// Everything one apply writes: each render, the state to record, and the targets whose
/// reloads run afterwards.
#[derive(Debug)]
pub struct Plan {
    state: State,
    renders: Vec<Rendered>,
    chosen: Vec<usize>,
}

/// Renders as plain values.
pub open spec fn rendered_views(renders: Seq<Rendered>) -> Seq<RenderedView> {
    renders.map_values(|r: Rendered| r@)
}

impl Plan {
    /// The state to record once every output is in place.
    pub fn state(&self) -> (state: &State)
        ensures
            state@ == self.state_view(),
    {
        &self.state
    }

    /// The state to record, as contracts read it.
    pub closed spec fn state_view(&self) -> StateView {
        self.state@
    }

    /// The renders, as contracts read them.
    pub closed spec fn renders_view(&self) -> Seq<RenderedView> {
        rendered_views(self.renders@)
    }

    /// The targets written, by their position in the config, as contracts read them.
    pub closed spec fn chosen_view(&self) -> Seq<int> {
        self.chosen@.map_values(|i: usize| i as int)
    }

    /// Every render, in config order.
    pub fn renders(&self) -> (renders: &Vec<Rendered>)
        ensures
            rendered_views(renders@) == self.renders_view(),
    {
        &self.renders
    }

    /// The targets written, by their position in the config, which is the order their
    /// reloads run in.
    pub fn chosen(&self) -> (chosen: &Vec<usize>)
        ensures
            chosen@.map_values(|i: usize| i as int) == self.chosen_view(),
    {
        &self.chosen
    }
}

/// What an apply outcome is, as plain values.
pub open spec fn plan_view(result: Result<Plan, ApplyError>) -> Result<(StateView, Seq<RenderedView>), ApplyErrorView> {
    match result {
        Ok(plan) => Ok((plan.state_view(), plan.renders_view())),
        Err(error) => Err(error@),
    }
}

/// Plans an apply of `theme`, or of it to the targets `only` names, from `previous`, the
/// state recorded before, and `reads`, what reading the templates gave.
///
/// Nothing is written: the plan holds every render, so a target that fails stops the apply
/// before any output is touched.
pub fn plan(config: &Config, catalog: &Catalog, theme: &ThemeId, only: &[TargetName], previous: Option<State>, reads: &Reads) -> (result: Result<Plan, ApplyError>)
    ensures
        plan_view(result) == plan_spec(
            config@.targets,
            catalog@,
            theme@,
            name_views(only@),
            match previous {
                Some(s) => Some(s@),
                None => None,
            },
            reads@,
        ),
        result matches Ok(p) ==> p.chosen_view() == select_spec(config@.targets, name_views(only@))->Ok_0,
{
    let applied = match catalog.get(theme) {
        Some(applied) => applied,
        None => return Err(ApplyError::UnknownTheme { theme: theme.clone() }),
    };
    let variant = applied.variant();
    let chosen = match select(config, only) {
        Ok(chosen) => chosen,
        Err(name) => return Err(ApplyError::UnknownTarget { name }),
    };
    let targets = config.targets();
    let ghost views = config@.targets;
    let ghost indices = chosen@.map_values(|i: usize| i as int);
    let mut names: Vec<TargetName> = Vec::new();
    let mut k: usize = 0;
    while k < chosen.len()
        invariant
            k <= chosen@.len(),
            indices == chosen@.map_values(|i: usize| i as int),
            crate::config::target_views(targets@) == views,
            forall|j: int| 0 <= j < chosen@.len() ==> chosen@[j] < targets@.len(),
            name_views(names@) == indices.take(k as int).map_values(|i: int| views[i].name),
        decreases chosen@.len() - k,
    {
        let target = &targets[chosen[k]];
        proof {
            assert(target@ == views[chosen@[k as int] as int]);
            assert(indices[k as int] == chosen@[k as int] as int);
        }
        let ghost before = name_views(names@);
        let name = target.name().clone();
        names.push(name);
        proof {
            assert(name_views(names@) =~= before.push(name@));
            assert(indices.take(k + 1) =~= indices.take(k as int).push(indices[k as int]));
            assert(name_views(names@) =~= indices.take(k + 1).map_values(|i: int| views[i].name));
        }
        k = k + 1;
    }
    proof {
        assert(indices.take(chosen@.len() as int) =~= indices);
    }
    let ghost prior = match &previous {
        Some(s) => Some(s@),
        None => None::<StateView>,
    };
    if only.len() != 0 && previous.is_none() {
        return Err(ApplyError::NoWholeApply);
    }
    let ghost names_view = indices.map_values(|j: int| views[j].name);
    proof {
        assert(name_views(names@) == names_view);
    }
    let mut renders: Vec<Rendered> = Vec::new();
    let mut i: usize = 0;
    proof {
        assert(rendered_views(renders@) =~= Seq::<RenderedView>::empty());
    }
    while i < chosen.len()
        invariant
            i <= chosen@.len(),
            indices == chosen@.map_values(|j: usize| j as int),
            crate::config::target_views(targets@) == views,
            views == config@.targets,
            forall|j: int| 0 <= j < chosen@.len() ==> chosen@[j] < targets@.len(),
            variant == applied@.variant,
            find_theme(catalog@, theme@, 0) == Some(applied@),
            select_spec(views, name_views(only@)) == Ok::<Seq<int>, Seq<char>>(indices),
            next_state(prior, theme@, names_view, only@.len() == 0) is Ok,
            prior == match previous {
                Some(s) => Some(s@),
                None => None::<StateView>,
            },
            names_view == indices.map_values(|j: int| views[j].name),
            renders_from(views, catalog@, theme@, variant, reads@, indices, 0) == match renders_from(
                views,
                catalog@,
                theme@,
                variant,
                reads@,
                indices,
                i as int,
            ) {
                Ok(rest) => Ok::<Seq<RenderedView>, ApplyErrorView>(rendered_views(renders@) + rest),
                Err(e) => Err(e),
            },
        decreases chosen@.len() - i,
    {
        let target = &targets[chosen[i]];
        proof {
            assert(target@ == views[indices[i as int]]);
        }
        let ghost after = renders_from(views, catalog@, theme@, variant, reads@, indices, i + 1);
        let id = match pin(target, theme, variant) {
            Ok(id) => id,
            Err(error) => return Err(error),
        };
        if catalog.get(&id).is_none() {
            return Err(ApplyError::UnknownTheme { theme: id });
        }
        let text = match reads.read(target.template()) {
            Some(FileRead::Text(text)) => text,
            Some(FileRead::Absent(message)) => {
                return Err(ApplyError::Template { path: target.template().to_owned(), message: message.clone() });
            },
            Some(FileRead::Failed(message)) => {
                return Err(ApplyError::Template { path: target.template().to_owned(), message: message.clone() });
            },
            None => {
                return Err(ApplyError::Template { path: target.template().to_owned(), message: String::new() });
            },
        };
        let rendered = match render(catalog, target, &id, text.as_str()) {
            Ok(rendered) => rendered,
            Err(error) => return Err(error),
        };
        let ghost before = rendered_views(renders@);
        renders.push(rendered);
        proof {
            assert(rendered_views(renders@) =~= before.push(rendered@));
            match after {
                Ok(rest) => {
                    assert(before + (seq![rendered@] + rest) =~= before.push(rendered@) + rest);
                },
                Err(_) => {},
            }
        }
        i = i + 1;
    }
    proof {
        assert(rendered_views(renders@) + Seq::<RenderedView>::empty() =~= rendered_views(renders@));
    }
    let state = match advance(previous, theme, &names, only.len() == 0) {
        Ok(state) => state,
        Err(error) => return Err(error),
    };
    proof {
        if only.len() == 0 {
            assert(state@.targets =~= Seq::<(Seq<char>, Seq<char>)>::empty());
        }
        assert(next_state(prior, theme@, names_view, only@.len() == 0) == Ok::<StateView, ApplyErrorView>(state@));
    }
    Ok(Plan { state, renders, chosen })
}

} // verus!
