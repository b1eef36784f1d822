//! What one run of `init` will write, and the check it has to pass first.
//!
//! An apply straight after an init reproduces the original file character for character,
//! and `init` proves it before writing rather than leaving it to a test: [`plan`] builds the
//! theme, loads it back, renders the template against it, and compares.

use vstd::prelude::*;

use crate::config::TargetName;
use crate::diff::{unified, unified_spec};
use crate::init::emit::{emit_text, lines_of, merged, merged_spec, theme, theme_text, target, target_text, in_order, EmitError, EmitErrorView, Line};
use crate::init::naming::{components, display_name, display_spec};
use crate::init::weave::{binding_views, weave, woven, Binding};
use crate::location::{join, join_spec};
use crate::path_map::PathMap;
use crate::template::{render_spec, Template, TemplateError};
use crate::text::{chars_of, push_all, push_str, string_of};
use crate::theme::{cycles_fit, file_name_of, name_stem, outcome_view, plain_path, theme_outcome, Theme, ThemeError, ThemeErrorView, ThemeId, ThemeView, Variant};
use crate::template::occurrence_views;
use crate::token::TokenPath;
use crate::vocabulary::{core_paths, missing, missing_paths, path_list};

verus! {

/// Everything one run needs to know, after the dialogue has answered it.
pub struct Draft<'a> {
    /// The directory holding `config.toml`, `themes/` and `templates/`.
    pub directory: &'a str,
    /// The home directory, which the output path is written relative to.
    pub home: Option<&'a str>,
    /// What the target is called.
    pub name: &'a TargetName,
    /// The file being read, which becomes the target's output.
    pub output: &'a str,
    /// What that file holds.
    pub source: &'a str,
    /// The theme being written into.
    pub id: &'a ThemeId,
    /// The background that theme is for. Ignored when it already exists.
    pub variant: Variant,
    /// The theme file as it is written now, when the theme already exists; the tokens are
    /// added to it.
    pub existing: Option<&'a str>,
    /// What `config.toml` holds already, empty when there is no config yet.
    pub config: &'a str,
    /// Which occurrence takes which token.
    pub bindings: &'a [Binding],
    /// The tokens to add to the theme.
    pub tokens: &'a PathMap<String>,
}

/// One file a run will write.
#[derive(Debug)]
pub struct Written {
    path: String,
    contents: String,
}

impl Written {
    /// Where it goes.
    pub fn path(&self) -> (path: &str)
        ensures
            path@ == self.path_spec(),
    {
        self.path.as_str()
    }

    /// What it will hold.
    pub fn contents(&self) -> (contents: &str)
        ensures
            contents@ == self.contents_spec(),
    {
        self.contents.as_str()
    }

    /// Where it goes, as contracts read it.
    pub closed spec fn path_spec(&self) -> Seq<char> {
        self.path@
    }

    /// What it will hold, as contracts read it.
    pub closed spec fn contents_spec(&self) -> Seq<char> {
        self.contents@
    }
}

/// Three files that have been checked and not yet written.
#[derive(Debug)]
pub struct Plan {
    theme: Written,
    template: Written,
    config: Written,
    missing: Vec<TokenPath>,
}

impl Plan {
    /// The theme file, whether it is being created or added to.
    pub fn theme(&self) -> (theme: &Written)
        ensures
            *theme == self.theme_spec(),
    {
        &self.theme
    }

    /// The template.
    pub fn template(&self) -> (template: &Written)
        ensures
            *template == self.template_spec(),
    {
        &self.template
    }

    /// `config.toml`, with the new target on the end of it.
    pub fn config(&self) -> (config: &Written)
        ensures
            *config == self.config_spec(),
    {
        &self.config
    }

    /// The core tokens the theme still does not define, in core order.
    pub fn missing(&self) -> (missing: &Vec<TokenPath>)
        ensures
            path_list(missing@) == self.missing_spec(),
    {
        &self.missing
    }

    /// The theme file, as contracts read it.
    pub closed spec fn theme_spec(&self) -> Written {
        self.theme
    }

    /// The template, as contracts read it.
    pub closed spec fn template_spec(&self) -> Written {
        self.template
    }

    /// The config, as contracts read it.
    pub closed spec fn config_spec(&self) -> Written {
        self.config
    }

    /// Whether the run may write its files, given whether a file is already at the template's
    /// path: such a file is somebody else's, and the run is refused rather than guess.
    pub fn writable(&self, template_exists: bool) -> (result: Result<(), InitError>)
        ensures
            result is Err <==> template_exists,
            result matches Err(e) ==> (e matches InitError::Occupied { path } && path@ == self.template_spec().path_spec()),
    {
        if template_exists {
            Err(InitError::Occupied { path: self.template.path.as_str().to_owned() })
        } else {
            Ok(())
        }
    }

    /// The missing tokens, as contracts read them.
    pub closed spec fn missing_spec(&self) -> Seq<Seq<char>> {
        path_list(self.missing@)
    }
}

/// A run could not be planned.
#[derive(Debug)]
pub enum InitError {
    /// The template would replace a file that is already there.
    Occupied {
        /// The file that is in the way.
        path: String,
    },
    /// The theme that was built does not load.
    Theme(ThemeError),
    /// The template that was built does not render.
    Render(TemplateError),
    /// A token could not be added to the theme.
    Emit(EmitError),
    /// The template renders to something other than the file it was read from.
    Mismatch {
        /// The file that would not come back.
        output: String,
        /// What would change, line by line.
        diff: String,
    },
}

impl InitError {
    /// The sentence the error is reported with.
    pub fn message(&self) -> (text: String)
        ensures
            match self {
                InitError::Occupied { path } => text@ == path@ + ": already exists"@,
                InitError::Theme(e) => text@ == crate::theme::theme_error_text(e@),
                InitError::Render(_) => true,
                InitError::Emit(e) => text@ == emit_text(e@),
                InitError::Mismatch { output, diff } => text@ == output@
                    + ": an apply would not reproduce this file\n"@ + diff@,
            },
    {
        match self {
            InitError::Occupied { path } => {
                proof {
                    reveal_strlit(": already exists");
                }
                let mut chars: Vec<char> = Vec::new();
                push_str(&mut chars, path.as_str());
                push_str(&mut chars, ": already exists");
                string_of(chars.as_slice())
            },
            InitError::Theme(e) => e.message(),
            InitError::Render(e) => e.message(),
            InitError::Emit(e) => e.message(),
            InitError::Mismatch { output, diff } => {
                proof {
                    reveal_strlit(": an apply would not reproduce this file\n");
                }
                let mut chars: Vec<char> = Vec::new();
                push_str(&mut chars, output.as_str());
                push_str(&mut chars, ": an apply would not reproduce this file\n");
                push_str(&mut chars, diff.as_str());
                string_of(chars.as_slice())
            },
        }
    }
}

/// The name of the file `output` names: its last component, or the whole of it when it has
/// none that is a name.
pub open spec fn file_name_spec(output: Seq<char>) -> Seq<char> {
    let parts = components(output);
    if parts.len() > 0 && parts.last() != ".."@ {
        parts.last()
    } else {
        output
    }
}

/// Where the template goes, relative to the config directory.
pub open spec fn relative_spec(name: Seq<char>, output: Seq<char>) -> Seq<char> {
    "templates/"@ + name + "/"@ + file_name_spec(output) + ".in"@
}

/// `path` with the home directory written as `~`, when it is under it.
pub open spec fn contracted_spec(path: Seq<char>, home: Option<Seq<char>>) -> Seq<char> {
    match home {
        Some(h) if h.len() > 0 && path.len() >= h.len() && path.take(h.len() as int) == h && (path.len()
            == h.len() || path[h.len() as int] == '/' || h.last() == '/') => "~/"@ + trim_slashes(
            path.skip(h.len() as int),
        ),
        _ => path,
    }
}

/// `s` without the separators it starts with.
pub open spec fn trim_slashes(s: Seq<char>) -> Seq<char>
    decreases s.len(),
{
    if s.len() > 0 && s[0] == '/' {
        trim_slashes(s.drop_first())
    } else {
        s
    }
}

/// `id.toml`.
pub open spec fn theme_file_name(id: Seq<char>) -> Seq<char> {
    id + ".toml"@
}

/// The file name of `output`.
fn file_name(output: &str) -> (name: Vec<char>)
    ensures
        name@ == file_name_spec(output@),
{
    let parts = crate::init::naming::path_components(output);
    let n = parts.len();
    proof {
        reveal_strlit("..");
    }
    if n > 0 {
        let dots = parts[n - 1].len() == 2 && parts[n - 1][0] == '.' && parts[n - 1][1] == '.';
        proof {
            let views = parts@.map_values(|p: Vec<char>| p@);
            assert(views.last() == parts@[n - 1]@);
            if dots {
                assert(views.last() =~= ".."@);
            } else if views.last() == ".."@ {
                assert(views.last()[0] == '.' && views.last()[1] == '.');
            }
        }
        if !dots {
            return parts[n - 1].clone();
        }
    }
    chars_of(output)
}

/// `templates/<name>/<file name>.in`.
fn relative(name: &TargetName, output: &str) -> (path: String)
    ensures
        path@ == relative_spec(name@, output@),
{
    proof {
        reveal_strlit("templates/");
        reveal_strlit("/");
        reveal_strlit(".in");
    }
    let mut chars: Vec<char> = Vec::new();
    push_str(&mut chars, "templates/");
    push_str(&mut chars, name.as_str());
    push_str(&mut chars, "/");
    let file = file_name(output);
    push_all(&mut chars, file.as_slice());
    push_str(&mut chars, ".in");
    string_of(chars.as_slice())
}

/// `path`, with the home directory written as `~`.
fn contracted(path: &str, home: Option<&str>) -> (text: String)
    ensures
        text@ == contracted_spec(
            path@,
            match home {
                Some(h) => Some(h@),
                None => None,
            },
        ),
{
    let h = match home {
        Some(h) => h,
        None => return path.to_owned(),
    };
    let p = chars_of(path);
    let hc = chars_of(h);
    let n = hc.len();
    if n == 0 || p.len() < n {
        return path.to_owned();
    }
    let mut i: usize = 0;
    while i < n
        invariant
            i <= n,
            p@ == path@,
            hc@ == h@,
            home == Some(h),
            n == hc@.len(),
            n > 0,
            n <= p@.len(),
            forall|j: int| 0 <= j < i ==> p@[j] == hc@[j],
        decreases n - i,
    {
        if p[i] != hc[i] {
            proof {
                assert(p@.take(n as int)[i as int] != hc@[i as int]);
            }
            return path.to_owned();
        }
        i = i + 1;
    }
    proof {
        assert(p@.take(n as int) =~= hc@);
    }
    if !(p.len() == n || p[n] == '/' || hc[n - 1] == '/') {
        return path.to_owned();
    }
    let mut k: usize = n;
    while k < p.len() && p[k] == '/'
        invariant
            n <= k <= p@.len(),
            trim_slashes(p@.skip(n as int)) == trim_slashes(p@.skip(k as int)),
        decreases p@.len() - k,
    {
        proof {
            assert(p@.skip(k as int).drop_first() =~= p@.skip(k + 1));
        }
        k = k + 1;
    }
    let mut out: Vec<char> = Vec::new();
    out.push('~');
    out.push('/');
    let mut j: usize = k;
    while j < p.len()
        invariant
            k <= j <= p@.len(),
            out@ == seq!['~', '/'] + p@.subrange(k as int, j as int),
        decreases p@.len() - j,
    {
        out.push(p[j]);
        proof {
            assert(p@.subrange(k as int, j + 1) =~= p@.subrange(k as int, j as int).push(p@[j as int]));
        }
        j = j + 1;
    }
    proof {
        reveal_strlit("~/");
        assert(p@.subrange(k as int, p@.len() as int) =~= p@.skip(k as int));
        if k < p@.len() {
            assert(p@.skip(k as int)[0] != '/');
        }
        assert(trim_slashes(p@.skip(k as int)) == p@.skip(k as int));
        assert(out@ =~= "~/"@ + trim_slashes(p@.skip(n as int)));
    }
    string_of(out.as_slice())
}

/// Whether `contents` is a theme file named after `id` holding `tokens`, or `existing` with
/// `tokens` added to it when the theme is being added to.
pub open spec fn theme_contents(contents: Seq<char>, existing: Option<Seq<char>>, id: Seq<char>, variant: Variant, tokens: Seq<(Seq<char>, String)>) -> bool {
    match existing {
        Some(text) => merged_spec(text, tokens) == Ok::<Seq<char>, EmitErrorView>(contents),
        None => exists|lines: Seq<Line>|
            lines.to_multiset() == lines_of(tokens).to_multiset() && in_order(lines) && contents
                == theme_text(display_spec(id), variant, lines),
    }
}

/// Where the theme file goes.
pub open spec fn theme_path_spec(directory: Seq<char>, id: Seq<char>) -> Seq<char> {
    join_spec(join_spec(directory, "themes"@), theme_file_name(id))
}

/// Whether `result` is what a run gives when the theme it builds loads as `loaded` and its
/// template, at `template_path`, holds `template_text`: the theme's error; else the
/// template's undefined tokens; else the difference when the render is not `source`; else
/// the plan, with the core tokens the theme still lacks.
pub open spec fn run_outcome(
    loaded: Result<ThemeView, ThemeErrorView>,
    template_path: Seq<char>,
    template_text: Seq<char>,
    source: Seq<char>,
    output: Seq<char>,
    result: Result<Plan, InitError>,
) -> bool {
    match loaded {
        Err(e) => (result matches Err(InitError::Theme(x)) && x@ == e),
        Ok(t) => {
            let (rendered, undefined) = render_spec(template_text, 1, t.tokens);
            if undefined.len() > 0 {
                (result matches Err(InitError::Render(TemplateError::UndefinedTokens { path, occurrences }))
                    && path@ == template_path && occurrence_views(occurrences@) == undefined)
            } else if rendered != source {
                (result matches Err(InitError::Mismatch { output: o, diff }) && o@ == output && diff@
                    == unified_spec(output, source, rendered))
            } else {
                (result matches Ok(p) && p.missing_spec() == missing_paths(core_paths(), t.tokens))
            }
        },
    }
}

/// Whether the tokens cannot be added to the existing theme `existing`.
pub open spec fn merge_fails(existing: Option<Seq<char>>, tokens: Seq<(Seq<char>, String)>) -> bool {
    existing matches Some(text) && merged_spec(text, tokens) is Err
}

/// The text of an existing theme, as plain values.
pub open spec fn existing_view(existing: Option<&str>) -> Option<Seq<char>> {
    match existing {
        Some(e) => Some(e@),
        None => None,
    }
}

/// Builds the three files, and proves they reproduce the original before returning them.
///
/// Nothing is written: the theme's or the template's own error when either will not load or
/// will not render, and the difference when rendering gives back anything other than the
/// file it was read from.
pub fn plan(draft: &Draft) -> (result: Result<Plan, InitError>)
    requires
        draft.tokens.well_formed(),
        forall|i: int| 0 <= i < draft.bindings@.len() ==> #[trigger] draft.bindings@[i]@.1 <= draft.source@.len(),
    ensures
        result matches Ok(p) ==> {
            &&& p.theme_spec().path_spec() == theme_path_spec(draft.directory@, draft.id@)
            &&& theme_contents(
                p.theme_spec().contents_spec(),
                existing_view(draft.existing),
                draft.id@,
                draft.variant,
                draft.tokens.view_entries(),
            )
            &&& p.template_spec().path_spec() == join_spec(draft.directory@, relative_spec(draft.name@, draft.output@))
            &&& p.template_spec().contents_spec() == woven(draft.source@, binding_views(draft.bindings@))
            &&& p.config_spec().path_spec() == join_spec(draft.directory@, "config.toml"@)
            &&& p.config_spec().contents_spec() == target_text(
                draft.config@,
                draft.name@,
                relative_spec(draft.name@, draft.output@),
                contracted_spec(
                    draft.output@,
                    match draft.home {
                        Some(h) => Some(h@),
                        None => None,
                    },
                ),
            )
        },
        merge_fails(existing_view(draft.existing), draft.tokens.view_entries()) ==> (result matches Err(
            InitError::Emit(e),
        ) && merged_spec(existing_view(draft.existing)->0, draft.tokens.view_entries()) == Err::<
            Seq<char>,
            EmitErrorView,
        >(e@)),
        !merge_fails(existing_view(draft.existing), draft.tokens.view_entries())
            ==> exists|contents: Seq<char>, stem: Seq<char>, cs: Seq<Seq<usize>>|
            #![trigger theme_outcome(theme_path_spec(draft.directory@, draft.id@), stem, contents, vstd::utf8::encode_utf8(contents), cs)]
            {
                let path = theme_path_spec(draft.directory@, draft.id@);
                &&& theme_contents(contents, existing_view(draft.existing), draft.id@, draft.variant, draft.tokens.view_entries())
                &&& (plain_path(path) ==> stem == name_stem(file_name_of(path)))
                &&& cycles_fit(stem, contents, vstd::utf8::encode_utf8(contents), cs)
                &&& run_outcome(
                    theme_outcome(path, stem, contents, vstd::utf8::encode_utf8(contents), cs),
                    join_spec(draft.directory@, relative_spec(draft.name@, draft.output@)),
                    woven(draft.source@, binding_views(draft.bindings@)),
                    draft.source@,
                    draft.output@,
                    result,
                )
                &&& (result matches Ok(p) ==> p.theme_spec().contents_spec() == contents)
            },
{
    proof {
        reveal_strlit("themes");
        reveal_strlit("config.toml");
        reveal_strlit(".toml");
    }
    let themes = join(draft.directory, "themes");
    let mut file_name: Vec<char> = chars_of(draft.id.as_str());
    push_str(&mut file_name, ".toml");
    let theme_path = join(themes.as_str(), string_of(file_name.as_slice()).as_str());
    let theme_file = match draft.existing {
        Some(existing) => match merged(existing, draft.tokens) {
            Ok(text) => text,
            Err(e) => return Err(InitError::Emit(e)),
        },
        None => {
            let name = display_name(draft.id);
            theme(name.as_str(), draft.variant, draft.tokens)
        },
    };
    let relative = relative(draft.name, draft.output);
    let template_path = join(draft.directory, relative.as_str());
    let template_text = weave(draft.source, draft.bindings);
    let parsed = Theme::parse(theme_path.as_str(), theme_file.as_str());
    let ghost bytes = vstd::utf8::encode_utf8(theme_file@);
    let ghost some = choose|st: Seq<char>, c: Seq<Seq<usize>>|
        cycles_fit(st, theme_file@, bytes, c) && #[trigger] theme_outcome(theme_path@, st, theme_file@, bytes, c)
            == outcome_view(parsed);
    let ghost stem: Seq<char> = if plain_path(theme_path@) {
        name_stem(file_name_of(theme_path@))
    } else {
        some.0
    };
    proof {
        assert(theme_path@ == theme_path_spec(draft.directory@, draft.id@));
        assert(theme_contents(theme_file@, existing_view(draft.existing), draft.id@, draft.variant, draft.tokens.view_entries()));
        if !plain_path(theme_path@) {
            assert(cycles_fit(some.0, theme_file@, bytes, some.1) && theme_outcome(theme_path@, some.0, theme_file@, bytes, some.1)
                == outcome_view(parsed));
        }
        assert(exists|c: Seq<Seq<usize>>|
            cycles_fit(stem, theme_file@, bytes, c) && #[trigger] theme_outcome(theme_path@, stem, theme_file@, bytes, c)
                == outcome_view(parsed));
    }
    let ghost cs = choose|c: Seq<Seq<usize>>|
        cycles_fit(stem, theme_file@, bytes, c) && #[trigger] theme_outcome(theme_path@, stem, theme_file@, bytes, c)
            == outcome_view(parsed);
    let ghost template_spec_path = join_spec(draft.directory@, relative_spec(draft.name@, draft.output@));
    let loaded = match parsed {
        Ok(loaded) => loaded,
        Err(e) => {
            let result = Err(InitError::Theme(e));
            proof {
                assert(run_outcome(theme_outcome(theme_path@, stem, theme_file@, bytes, cs), template_spec_path, template_text@, draft.source@, draft.output@, result));
            }
            return result;
        },
    };
    let rendered = match Template::new(template_path.as_str(), template_text.as_str()).render(loaded.tokens()) {
        Ok(rendered) => rendered,
        Err(e) => {
            let result = Err(InitError::Render(e));
            proof {
                assert(run_outcome(theme_outcome(theme_path@, stem, theme_file@, bytes, cs), template_spec_path, template_text@, draft.source@, draft.output@, result));
            }
            return result;
        },
    };
    let a = chars_of(rendered.as_str());
    let b = chars_of(draft.source);
    if !crate::text::same_chars(a.as_slice(), b.as_slice()) {
        let diff = unified(draft.output, draft.source, rendered.as_str());
        let result = Err(InitError::Mismatch { output: draft.output.to_owned(), diff });
        proof {
            assert(run_outcome(theme_outcome(theme_path@, stem, theme_file@, bytes, cs), template_spec_path, template_text@, draft.source@, draft.output@, result));
        }
        return result;
    }
    let config_path = join(draft.directory, "config.toml");
    let output = contracted(draft.output, draft.home);
    let config = target(draft.config, draft.name, relative.as_str(), output.as_str());
    let missing = missing(loaded.tokens());
    let result = Ok(Plan {
        theme: Written { path: theme_path, contents: theme_file },
        template: Written { path: template_path, contents: template_text },
        config: Written { path: config_path, contents: config },
        missing,
    });
    proof {
        assert(run_outcome(theme_outcome(theme_path@, stem, theme_file@, bytes, cs), template_spec_path, template_text@, draft.source@, draft.output@, result));
    }
    result
}

/// A plan is only ever made from a theme that loads: the template it writes renders back to
/// the source exactly against that theme's tokens, with nothing undefined, and `missing` is
/// the core the theme still lacks. Every refusal names what stopped it.
pub proof fn lemma_plan_reproduces_the_source(
    loaded: Result<ThemeView, ThemeErrorView>,
    template_path: Seq<char>,
    template_text: Seq<char>,
    source: Seq<char>,
    output: Seq<char>,
    result: Result<Plan, InitError>,
)
    requires
        run_outcome(loaded, template_path, template_text, source, output, result),
    ensures
        result is Ok ==> {
            &&& loaded is Ok
            &&& render_spec(template_text, 1, loaded->Ok_0.tokens).0 == source
            &&& render_spec(template_text, 1, loaded->Ok_0.tokens).1.len() == 0
            &&& result->Ok_0.missing_spec() == missing_paths(core_paths(), loaded->Ok_0.tokens)
        },
        loaded is Err ==> result matches Err(InitError::Theme(_)),
        loaded is Ok && render_spec(template_text, 1, loaded->Ok_0.tokens).1.len() > 0 ==> result matches Err(
            InitError::Render(_),
        ),
        loaded is Ok && render_spec(template_text, 1, loaded->Ok_0.tokens).1.len() == 0 && render_spec(
            template_text,
            1,
            loaded->Ok_0.tokens,
        ).0 != source ==> result matches Err(InitError::Mismatch { .. }),
{
}

} // verus!
