//! Verifying what is on disk: render every target in memory, then compare.
//!
//! vanadis generated the file, so it can say whether the file is still what it generated.
//! One target's failure costs that target and nothing else: every problem lands in the
//! report and the remaining targets are still checked. The caller reads the files; what they
//! hold is handed in, and everything concluded from it is here.

use vstd::prelude::*;

use crate::apply::{named_before, render, render_outcome, select, select_from, select_spec, name_views, target_index, ApplyError, ApplyErrorView, Rendered, RenderedView};
use crate::catalog::Catalog;
use crate::config::{Config, TargetName, TargetView};
use crate::state::{theme_for_spec, State, StateView};
use crate::theme::{ThemeId, ThemeView};

verus! {

/// What reading one file gave.
#[derive(Debug)]
pub enum FileRead {
    /// The file's text.
    Text(String),
    /// There is no such file; what the read said.
    Absent(String),
    /// The file is there and could not be read; what the read said.
    Failed(String),
}

/// A read as plain values.
pub enum ReadView {
    Text(Seq<char>),
    Absent(Seq<char>),
    Failed(Seq<char>),
}

impl View for FileRead {
    type V = ReadView;

    open spec fn view(&self) -> ReadView {
        match self {
            FileRead::Text(t) => ReadView::Text(t@),
            FileRead::Absent(m) => ReadView::Absent(m@),
            FileRead::Failed(m) => ReadView::Failed(m@),
        }
    }
}

/// The files read for one check, each under the path it was read from.
#[derive(Debug)]
pub struct Reads {
    files: Vec<(String, FileRead)>,
}

/// The reads as plain values.
pub open spec fn read_views(files: Seq<(String, FileRead)>) -> Seq<(Seq<char>, ReadView)> {
    files.map_values(|f: (String, FileRead)| (f.0@, f.1@))
}

/// What was read from `path`, looking from `i` on; a path nobody read counts as absent.
pub open spec fn read_of(reads: Seq<(Seq<char>, ReadView)>, path: Seq<char>, i: int) -> ReadView
    decreases reads.len() - i,
{
    if i < 0 || i >= reads.len() {
        ReadView::Absent(Seq::empty())
    } else if reads[i].0 == path {
        reads[i].1
    } else {
        read_of(reads, path, i + 1)
    }
}

impl View for Reads {
    type V = Seq<(Seq<char>, ReadView)>;

    closed spec fn view(&self) -> Seq<(Seq<char>, ReadView)> {
        read_views(self.files@)
    }
}

impl Reads {
    /// The files read, each under the path it was read from.
    pub fn new(files: Vec<(String, FileRead)>) -> (reads: Reads)
        ensures
            reads@ == read_views(files@),
    {
        Reads { files }
    }

    /// What was read from `path`, or `None` when nobody read it.
    pub fn read(&self, path: &str) -> (read: Option<&FileRead>)
        ensures
            match read {
                Some(r) => r@ == read_of(self@, path@, 0),
                None => read_of(self@, path@, 0) == ReadView::Absent(Seq::empty()),
            },
    {
        let ghost views = read_views(self.files@);
        let mut i: usize = 0;
        while i < self.files.len()
            invariant
                i <= self.files@.len(),
                views == read_views(self.files@),
                read_of(views, path@, 0) == read_of(views, path@, i as int),
            decreases self.files@.len() - i,
        {
            let entry = &self.files[i];
            let a = crate::text::chars_of(entry.0.as_str());
            let b = crate::text::chars_of(path);
            if crate::text::same_chars(a.as_slice(), b.as_slice()) {
                return Some(&entry.1);
            }
            i = i + 1;
        }
        None
    }
}

/// What the file a render would be written to holds now.
#[derive(Debug)]
pub enum Disk {
    /// The file holds exactly what the render would write.
    Same,
    /// The file holds something else, which is what this carries.
    Different(String),
    /// There is no file.
    Missing,
    /// The file could not be read; what the read said.
    Unreadable(String),
}

/// One thing `check` found wrong with a target.
#[derive(Debug)]
pub enum Finding {
    /// The output no longer holds what its template renders to.
    Drift {
        /// The target the output belongs to.
        target: TargetName,
        /// The file that has drifted.
        output: String,
        /// The template it should hold.
        template: String,
    },
    /// The output has not been written yet, or has been deleted.
    Missing {
        /// The target the output belongs to.
        target: TargetName,
        /// The file that is not there.
        output: String,
    },
    /// The output exists and could not be read, so nothing can be said about it.
    Unreadable {
        /// The target the output belongs to.
        target: TargetName,
        /// The file the read failed on.
        output: String,
        /// What the read said.
        message: String,
    },
    /// The target does not render at all, so an apply would fail on it.
    Unrenderable {
        /// The target that does not render.
        target: TargetName,
        /// Why it does not.
        source: ApplyError,
    },
}

/// A finding as plain values.
pub enum FindingView {
    Drift(Seq<char>, Seq<char>, Seq<char>),
    Missing(Seq<char>, Seq<char>),
    Unreadable(Seq<char>, Seq<char>, Seq<char>),
    Unrenderable(Seq<char>, ApplyErrorView),
}

impl View for Finding {
    type V = FindingView;

    open spec fn view(&self) -> FindingView {
        match self {
            Finding::Drift { target, output, template } => FindingView::Drift(target@, output@, template@),
            Finding::Missing { target, output } => FindingView::Missing(target@, output@),
            Finding::Unreadable { target, output, message } => FindingView::Unreadable(target@, output@, message@),
            Finding::Unrenderable { target, source } => FindingView::Unrenderable(target@, source@),
        }
    }
}

impl Finding {
    /// The line a finding is reported on.
    pub fn message(&self) -> (text: String)
        ensures
            match self {
                Finding::Drift { target, output, template } => text@ == target@ + ": "@ + output@
                    + " does not match "@ + template@,
                Finding::Missing { target, output } => text@ == target@ + ": "@ + output@ + " does not exist"@,
                Finding::Unreadable { target, output, message } => text@ == target@ + ": "@ + output@ + ": "@
                    + message@,
                Finding::Unrenderable { target, .. } => text@.len() >= target@.len() + 2 && text@.take(
                    target@.len() as int,
                ) == target@,
            },
    {
        proof {
            reveal_strlit(": ");
            reveal_strlit(" does not match ");
            reveal_strlit(" does not exist");
        }
        let mut chars: Vec<char> = Vec::new();
        match self {
            Finding::Drift { target, output, template } => {
                crate::text::push_str(&mut chars, target.as_str());
                crate::text::push_str(&mut chars, ": ");
                crate::text::push_str(&mut chars, output.as_str());
                crate::text::push_str(&mut chars, " does not match ");
                crate::text::push_str(&mut chars, template.as_str());
            },
            Finding::Missing { target, output } => {
                crate::text::push_str(&mut chars, target.as_str());
                crate::text::push_str(&mut chars, ": ");
                crate::text::push_str(&mut chars, output.as_str());
                crate::text::push_str(&mut chars, " does not exist");
            },
            Finding::Unreadable { target, output, message } => {
                crate::text::push_str(&mut chars, target.as_str());
                crate::text::push_str(&mut chars, ": ");
                crate::text::push_str(&mut chars, output.as_str());
                crate::text::push_str(&mut chars, ": ");
                crate::text::push_str(&mut chars, message.as_str());
            },
            Finding::Unrenderable { target, source } => {
                crate::text::push_str(&mut chars, target.as_str());
                crate::text::push_str(&mut chars, ": ");
                let reason = source.message();
                crate::text::push_str(&mut chars, reason.as_str());
                proof {
                    assert(chars@.take(target@.len() as int) =~= target@);
                }
            },
        }
        crate::text::string_of(chars.as_slice())
    }
}

/// `check` could not run at all.
#[derive(Debug)]
pub enum CheckError {
    /// `--only` named a target the config does not have.
    UnknownTarget {
        /// The name that was asked for.
        name: TargetName,
    },
    /// No theme was named and none has been applied, so there is nothing to check against.
    Unapplied,
}

impl CheckError {
    /// What the error says.
    pub fn message(&self) -> (text: String)
        ensures
            text@ == match self {
                CheckError::UnknownTarget { name } => "config.toml has no target named `"@ + name@ + "`"@,
                CheckError::Unapplied => "no theme has been applied yet, so name a theme"@,
            },
    {
        proof {
            reveal_strlit("config.toml has no target named `");
            reveal_strlit("`");
            reveal_strlit("no theme has been applied yet, so name a theme");
        }
        let mut chars: Vec<char> = Vec::new();
        match self {
            CheckError::UnknownTarget { name } => {
                crate::text::push_str(&mut chars, "config.toml has no target named `");
                crate::text::push_str(&mut chars, name.as_str());
                crate::text::push_str(&mut chars, "`");
            },
            CheckError::Unapplied => {
                crate::text::push_str(&mut chars, "no theme has been applied yet, so name a theme");
            },
        }
        crate::text::string_of(chars.as_slice())
    }
}

/// What `check` found.
#[derive(Debug)]
pub struct Report {
    checked: usize,
    findings: Vec<Finding>,
}

/// Findings as plain values.
pub open spec fn finding_views(findings: Seq<Finding>) -> Seq<FindingView> {
    findings.map_values(|f: Finding| f@)
}

impl Report {
    /// How many targets were checked.
    pub fn checked(&self) -> (n: usize)
        ensures
            n == self.checked_spec(),
    {
        self.checked
    }

    /// How many targets were checked, as contracts read it.
    pub closed spec fn checked_spec(&self) -> usize {
        self.checked
    }

    /// Everything wrong, in the order the config writes the targets.
    pub fn findings(&self) -> (findings: &Vec<Finding>)
        ensures
            finding_views(findings@) == self.findings_spec(),
    {
        &self.findings
    }

    /// The findings, as contracts read them.
    pub closed spec fn findings_spec(&self) -> Seq<FindingView> {
        finding_views(self.findings@)
    }
}

/// How the output compares against `rendered`, given what reading it gave.
pub open spec fn disk_spec(rendered: RenderedView, read: ReadView) -> Option<FindingView> {
    match read {
        ReadView::Text(current) => if current == rendered.contents {
            None
        } else {
            Some(FindingView::Drift(rendered.name, rendered.output, rendered.template))
        },
        ReadView::Absent(_) => Some(FindingView::Missing(rendered.name, rendered.output)),
        ReadView::Failed(message) => Some(FindingView::Unreadable(rendered.name, rendered.output, message)),
    }
}

/// What is wrong with `target` when it is checked against the theme `theme`, if anything.
pub open spec fn finding_spec(
    catalog: Seq<ThemeView>,
    target: TargetView,
    theme: Seq<char>,
    reads: Seq<(Seq<char>, ReadView)>,
) -> Option<FindingView> {
    match read_of(reads, target.template, 0) {
        ReadView::Text(text) => match render_outcome(catalog, target, theme, text) {
            Err(e) => Some(FindingView::Unrenderable(target.name, e)),
            Ok(rendered) => disk_spec(rendered, read_of(reads, target.output, 0)),
        },
        ReadView::Absent(message) => Some(
            FindingView::Unrenderable(target.name, ApplyErrorView::Template(target.template, message)),
        ),
        ReadView::Failed(message) => Some(
            FindingView::Unrenderable(target.name, ApplyErrorView::Template(target.template, message)),
        ),
    }
}

/// The theme a target is checked against: the one named, or the one the state records it on.
pub open spec fn assigned_spec(named: Option<Seq<char>>, state: Option<StateView>, target: Seq<char>) -> Seq<char> {
    match named {
        Some(theme) => theme,
        None => theme_for_spec(state->0, target),
    }
}

/// The findings for the targets at `chosen[i..]`.
pub open spec fn findings_from(
    targets: Seq<TargetView>,
    catalog: Seq<ThemeView>,
    named: Option<Seq<char>>,
    state: Option<StateView>,
    reads: Seq<(Seq<char>, ReadView)>,
    chosen: Seq<int>,
    i: int,
) -> Seq<FindingView>
    decreases chosen.len() - i,
{
    if i < 0 || i >= chosen.len() {
        Seq::empty()
    } else {
        let target = targets[chosen[i]];
        let here = match finding_spec(catalog, target, assigned_spec(named, state, target.name), reads) {
            Some(f) => seq![f],
            None => Seq::empty(),
        };
        here + findings_from(targets, catalog, named, state, reads, chosen, i + 1)
    }
}

/// An optional borrowed value's view.
pub open spec fn opt_view<T: View>(value: Option<&T>) -> Option<T::V> {
    match value {
        Some(v) => Some(v@),
        None => None,
    }
}

/// What a read, or no read, gives as plain values.
pub open spec fn read_or_absent(read: Option<&FileRead>) -> ReadView {
    match read {
        Some(r) => r@,
        None => ReadView::Absent(Seq::empty()),
    }
}

/// Compares one render against what reading its output gave.
pub fn compare(rendered: &Rendered, current: Option<&FileRead>) -> (finding: Option<Finding>)
    ensures
        match (finding, disk_spec(rendered@, read_or_absent(current))) {
            (Some(f), Some(expected)) => f@ == expected,
            (None, None) => true,
            _ => false,
        },
        current matches Some(FileRead::Text(text)) ==> (finding is None <==> text@ == rendered@.contents),
        (current is None || (current matches Some(FileRead::Absent(_)))) ==> (finding matches Some(
            Finding::Missing { target, output },
        ) && target@ == rendered@.name && output@ == rendered@.output),
        current matches Some(FileRead::Failed(message)) ==> (finding matches Some(
            Finding::Unreadable { target, output, message: said },
        ) && target@ == rendered@.name && output@ == rendered@.output && said@ == message@),
        current matches Some(FileRead::Text(text)) && text@ != rendered@.contents ==> (finding matches Some(
            Finding::Drift { target, output, template },
        ) && target@ == rendered@.name && output@ == rendered@.output && template@ == rendered@.template),
{
    let current = match current {
        Some(current) => current,
        None => return Some(Finding::Missing {
            target: rendered.name().clone(),
            output: rendered.output().to_owned(),
        }),
    };
    match current {
        FileRead::Text(text) => {
            let a = crate::text::chars_of(text.as_str());
            let b = crate::text::chars_of(rendered.contents());
            if crate::text::same_chars(a.as_slice(), b.as_slice()) {
                None
            } else {
                Some(Finding::Drift {
                    target: rendered.name().clone(),
                    output: rendered.output().to_owned(),
                    template: rendered.template().to_owned(),
                })
            }
        },
        FileRead::Absent(_) => Some(Finding::Missing {
            target: rendered.name().clone(),
            output: rendered.output().to_owned(),
        }),
        FileRead::Failed(message) => Some(Finding::Unreadable {
            target: rendered.name().clone(),
            output: rendered.output().to_owned(),
            message: message.clone(),
        }),
    }
}

/// Checks every target, or the ones `only` names, against `theme` or against `state`, from
/// what reading their templates and outputs gave.
///
/// Naming a theme asks whether the machine looks like that theme. Naming none asks whether
/// it still looks like what was applied, which is what `state` records.
pub fn check(
    config: &Config,
    catalog: &Catalog,
    theme: Option<&ThemeId>,
    state: Option<&State>,
    only: &[TargetName],
    reads: &Reads,
) -> (result: Result<Report, CheckError>)
    ensures
        theme is None && state is None ==> (result matches Err(CheckError::Unapplied)),
        theme is Some || state is Some ==> match (result, select_spec(config@.targets, name_views(only@))) {
            (Err(CheckError::UnknownTarget { name }), Err(expected)) => name@ == expected,
            (Ok(report), Ok(chosen)) => report.checked_spec() == chosen.len() && report.findings_spec()
                == findings_from(config@.targets, catalog@, opt_view(theme), opt_view(state), reads@, chosen, 0),
            _ => false,
        },
{
    if theme.is_none() && state.is_none() {
        return Err(CheckError::Unapplied);
    }
    let chosen = match select(config, only) {
        Ok(chosen) => chosen,
        Err(name) => return Err(CheckError::UnknownTarget { name }),
    };
    let ghost indices = chosen@.map_values(|i: usize| i as int);
    let ghost views = config@.targets;
    let ghost named = opt_view(theme);
    let ghost recorded = opt_view(state);
    let targets = config.targets();
    let mut findings: Vec<Finding> = Vec::new();
    let mut i: usize = 0;
    proof {
        assert(finding_views(findings@) =~= Seq::<FindingView>::empty());
    }
    while i < chosen.len()
        invariant
            i <= chosen@.len(),
            indices == chosen@.map_values(|k: usize| k as int),
            crate::config::target_views(targets@) == views,
            views == config@.targets,
            forall|k: int| 0 <= k < chosen@.len() ==> chosen@[k] < targets@.len(),
            named == opt_view(theme),
            recorded == opt_view(state),
            theme is Some || state is Some,
            finding_views(findings@) + findings_from(views, catalog@, named, recorded, reads@, indices, i as int)
                == findings_from(views, catalog@, named, recorded, reads@, indices, 0),
        decreases chosen@.len() - i,
    {
        let target = &targets[chosen[i]];
        proof {
            assert(views[indices[i as int]] == target@);
        }
        let assigned = match theme {
            Some(t) => t.clone(),
            None => match state {
                Some(s) => s.theme_for(target.name()).clone(),
                None => {
                    proof {
                        assert(false);
                    }
                    return Err(CheckError::Unapplied);
                },
            },
        };
        let ghost expected = finding_spec(catalog@, target@, assigned@, reads@);
        proof {
            assert(assigned@ == assigned_spec(named, recorded, target@.name));
        }
        let found: Option<Finding> = match reads.read(target.template()) {
            None => Some(Finding::Unrenderable {
                target: target.name().clone(),
                source: ApplyError::Template { path: target.template().to_owned(), message: String::new() },
            }),
            Some(FileRead::Text(text)) => match render(catalog, target, &assigned, text.as_str()) {
                Err(source) => Some(Finding::Unrenderable { target: target.name().clone(), source }),
                Ok(rendered) => compare(&rendered, reads.read(target.output())),
            },
            Some(FileRead::Absent(message)) => Some(Finding::Unrenderable {
                target: target.name().clone(),
                source: ApplyError::Template { path: target.template().to_owned(), message: message.clone() },
            }),
            Some(FileRead::Failed(message)) => Some(Finding::Unrenderable {
                target: target.name().clone(),
                source: ApplyError::Template { path: target.template().to_owned(), message: message.clone() },
            }),
        };
        let ghost before = finding_views(findings@);
        match found {
            Some(f) => {
                findings.push(f);
                proof {
                    assert(finding_views(findings@) =~= before.push(findings@.last()@));
                }
            },
            None => {},
        }
        proof {
            let here = match finding_spec(catalog@, views[indices[i as int]], assigned_spec(named, recorded, views[indices[i as int]].name), reads@) {
                Some(f) => seq![f],
                None => Seq::<FindingView>::empty(),
            };
            assert(finding_views(findings@) =~= before + here);
        }
        i = i + 1;
    }
    proof {
        assert(finding_views(findings@) =~= finding_views(findings@) + Seq::<FindingView>::empty());
    }
    Ok(Report { checked: chosen.len(), findings })
}

/// The target a finding is about.
pub open spec fn finding_target(f: FindingView) -> Seq<char> {
    match f {
        FindingView::Drift(name, _, _) => name,
        FindingView::Missing(name, _) => name,
        FindingView::Unreadable(name, _, _) => name,
        FindingView::Unrenderable(name, _) => name,
    }
}

/// `chosen` picks each of `n` targets at most once.
pub open spec fn picks_once(chosen: Seq<int>, n: int) -> bool {
    &&& forall|m: int| 0 <= m < chosen.len() ==> 0 <= #[trigger] chosen[m] < n
    &&& forall|a: int, b: int| 0 <= a < b < chosen.len() ==> #[trigger] chosen[a] != #[trigger] chosen[b]
}

proof fn lemma_target_index(targets: Seq<TargetView>, name: Seq<char>, i: int)
    requires
        0 <= i,
    ensures
        target_index(targets, name, i) matches Some(j) ==> i <= j < targets.len() && targets[j].name == name,
    decreases targets.len() - i,
{
    if i < targets.len() && targets[i].name != name {
        lemma_target_index(targets, name, i + 1);
    }
}

proof fn lemma_select_from_once(targets: Seq<TargetView>, only: Seq<Seq<char>>, k: int, chosen: Seq<int>)
    requires
        0 <= k <= only.len(),
        picks_once(chosen, targets.len() as int),
        forall|m: int| 0 <= m < chosen.len() ==> exists|j: int| 0 <= j < k && targets[#[trigger] chosen[m]].name == only[j],
    ensures
        select_from(targets, only, k, chosen) matches Ok(c) ==> picks_once(c, targets.len() as int),
    decreases only.len() - k,
{
    if k < only.len() {
        lemma_target_index(targets, only[k], 0);
        if let Some(i) = target_index(targets, only[k], 0) {
            if named_before(only, k) {
                assert forall|m: int| 0 <= m < chosen.len() implies exists|j: int| 0 <= j < k + 1 && targets[#[trigger] chosen[m]].name == only[j] by {
                    let j = choose|j: int| 0 <= j < k && targets[chosen[m]].name == only[j];
                }
                lemma_select_from_once(targets, only, k + 1, chosen);
            } else {
                let next = chosen.push(i);
                assert forall|m: int| 0 <= m < chosen.len() implies #[trigger] chosen[m] != i by {
                    let j = choose|j: int| 0 <= j < k && targets[chosen[m]].name == only[j];
                    if chosen[m] == i {
                        assert(only[j] == only[k]);
                        assert(named_before(only, k));
                    }
                }
                assert(picks_once(next, targets.len() as int)) by {
                    assert forall|a: int, b: int| 0 <= a < b < next.len() implies #[trigger] next[a] != #[trigger] next[b] by {
                        if b < chosen.len() {
                            assert(next[a] == chosen[a] && next[b] == chosen[b]);
                        } else {
                            assert(next[a] == chosen[a]);
                        }
                    }
                    assert forall|m: int| 0 <= m < next.len() implies 0 <= #[trigger] next[m] < targets.len() by {
                        if m < chosen.len() {
                            assert(next[m] == chosen[m]);
                        }
                    }
                }
                assert forall|m: int| 0 <= m < next.len() implies exists|j: int| 0 <= j < k + 1 && targets[#[trigger] next[m]].name == only[j] by {
                    if m < chosen.len() {
                        assert(next[m] == chosen[m]);
                        let j = choose|j: int| 0 <= j < k && targets[chosen[m]].name == only[j];
                    } else {
                        assert(next[m] == i);
                        assert(targets[i].name == only[k]);
                    }
                }
                lemma_select_from_once(targets, only, k + 1, next);
            }
        }
    }
}

/// Every finding from `chosen[i..]` is about one of those targets, and each of those
/// targets' own finding is among them.
proof fn lemma_findings_from(
    targets: Seq<TargetView>,
    catalog: Seq<ThemeView>,
    named: Option<Seq<char>>,
    state: Option<StateView>,
    reads: Seq<(Seq<char>, ReadView)>,
    chosen: Seq<int>,
    i: int,
)
    requires
        0 <= i <= chosen.len(),
    ensures
        forall|f: FindingView|
            findings_from(targets, catalog, named, state, reads, chosen, i).contains(f) ==> exists|m: int|
                i <= m < chosen.len() && finding_target(f) == #[trigger] targets[chosen[m]].name,
        forall|m: int|
            i <= m < chosen.len() && (#[trigger] finding_spec(
                catalog,
                targets[chosen[m]],
                assigned_spec(named, state, targets[chosen[m]].name),
                reads,
            )) is Some ==> findings_from(targets, catalog, named, state, reads, chosen, i).contains(
                finding_spec(catalog, targets[chosen[m]], assigned_spec(named, state, targets[chosen[m]].name), reads)->0,
            ),
    decreases chosen.len() - i,
{
    if i < chosen.len() {
        lemma_findings_from(targets, catalog, named, state, reads, chosen, i + 1);
        let target = targets[chosen[i]];
        let found = finding_spec(catalog, target, assigned_spec(named, state, target.name), reads);
        let here = match found {
            Some(f) => seq![f],
            None => Seq::<FindingView>::empty(),
        };
        let rest = findings_from(targets, catalog, named, state, reads, chosen, i + 1);
        let all = findings_from(targets, catalog, named, state, reads, chosen, i);
        assert(all == here + rest);
        if let Some(f) = found {
            assert(finding_target(f) == target.name);
        }
        assert forall|f: FindingView| all.contains(f) implies exists|m: int|
            i <= m < chosen.len() && finding_target(f) == #[trigger] targets[chosen[m]].name by {
            let x = choose|x: int| 0 <= x < all.len() && all[x] == f;
            if x < here.len() {
                assert(targets[chosen[i]].name == finding_target(f));
            } else {
                assert(rest[x - here.len()] == f);
                assert(rest.contains(f));
            }
        }
        assert forall|m: int|
            i <= m < chosen.len() && (#[trigger] finding_spec(
                catalog,
                targets[chosen[m]],
                assigned_spec(named, state, targets[chosen[m]].name),
                reads,
            )) is Some implies all.contains(
                finding_spec(catalog, targets[chosen[m]], assigned_spec(named, state, targets[chosen[m]].name), reads)->0,
            ) by {
            let g = finding_spec(catalog, targets[chosen[m]], assigned_spec(named, state, targets[chosen[m]].name), reads)->0;
            if m == i {
                assert(all[0] == g);
            } else {
                let x = choose|x: int| 0 <= x < rest.len() && rest[x] == g;
                assert(all[here.len() + x] == g);
            }
        }
    }
}

/// What a successful check reports: the targets selected, each once and every one when no
/// name is given, so `checked` counts distinct targets; every finding is about a selected
/// target; and each selected target's own finding is reported whatever the others gave, so
/// one that will not render does not stop the rest.
pub proof fn lemma_check_covers_selection(
    targets: Seq<TargetView>,
    only: Seq<Seq<char>>,
    catalog: Seq<ThemeView>,
    named: Option<Seq<char>>,
    state: Option<StateView>,
    reads: Seq<(Seq<char>, ReadView)>,
)
    requires
        select_spec(targets, only) is Ok,
    ensures
        picks_once(select_spec(targets, only)->Ok_0, targets.len() as int),
        only.len() == 0 ==> select_spec(targets, only)->Ok_0 == Seq::new(targets.len(), |i: int| i),
        forall|f: FindingView|
            findings_from(targets, catalog, named, state, reads, select_spec(targets, only)->Ok_0, 0).contains(f)
                ==> exists|m: int|
                0 <= m < select_spec(targets, only)->Ok_0.len() && finding_target(f)
                    == #[trigger] targets[select_spec(targets, only)->Ok_0[m]].name,
        forall|m: int|
            0 <= m < select_spec(targets, only)->Ok_0.len() && (#[trigger] finding_spec(
                catalog,
                targets[select_spec(targets, only)->Ok_0[m]],
                assigned_spec(named, state, targets[select_spec(targets, only)->Ok_0[m]].name),
                reads,
            )) is Some ==> findings_from(targets, catalog, named, state, reads, select_spec(targets, only)->Ok_0, 0).contains(
                finding_spec(
                    catalog,
                    targets[select_spec(targets, only)->Ok_0[m]],
                    assigned_spec(named, state, targets[select_spec(targets, only)->Ok_0[m]].name),
                    reads,
                )->0,
            ),
{
    let chosen = select_spec(targets, only)->Ok_0;
    if only.len() > 0 {
        lemma_select_from_once(targets, only, 0, Seq::empty());
    }
    lemma_findings_from(targets, catalog, named, state, reads, chosen, 0);
}

/// An output that could be read is in order exactly when its whole text is the whole render:
/// a difference anywhere in the file, on any line, is drift, reported against the target,
/// the output and the template of the render.
pub proof fn lemma_drift_is_any_difference(rendered: RenderedView, current: Seq<char>)
    ensures
        disk_spec(rendered, ReadView::Text(current)) is None <==> current == rendered.contents,
        current != rendered.contents ==> disk_spec(rendered, ReadView::Text(current)) == Some(
            FindingView::Drift(rendered.name, rendered.output, rendered.template),
        ),
        forall|i: int|
            0 <= i < current.len() && i < rendered.contents.len() && current[i] != rendered.contents[i] ==> disk_spec(
                rendered,
                ReadView::Text(current),
            ) is Some,
        current.len() != rendered.contents.len() ==> disk_spec(rendered, ReadView::Text(current)) is Some,
{
}

} // verus!
