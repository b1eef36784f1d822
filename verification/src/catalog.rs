//! Theme discovery: what `themes/` holds.
//!
//! `themes/` is the only place scanned, a file is a theme when it ends in `.toml`, and the
//! filename minus `.toml` is the identifier. A file that does not load costs the user that
//! theme, not the command: it is kept among the broken ones and the rest is still read.

use vstd::prelude::*;

use crate::path_map::{lemma_less_irreflexive, lemma_less_transitive, less_chars, text_less};
use crate::text::chars_of;
use crate::theme::{cycles_fit, file_name_of, name_stem, outcome_view, plain_path, theme_outcome, Theme, ThemeError, ThemeErrorView, ThemeId, ThemeView};
use vstd::utf8::encode_utf8;

verus! {

/// Every theme a directory holds, and every file in it that is not one.
#[derive(Debug)]
pub struct Catalog {
    themes: Vec<Theme>,
    broken: Vec<ThemeError>,
}

/// The themes directory could not be scanned.
#[derive(Debug)]
pub enum CatalogError {
    /// The directory could not be listed.
    Read {
        /// The directory the listing failed on.
        path: String,
        /// What the listing failed with.
        message: String,
    },
}

impl CatalogError {
    /// The directory, then what listing it failed with.
    pub fn message(&self) -> (text: String)
        ensures
            text@ == match self {
                CatalogError::Read { path, message } => path@ + ": "@ + message@,
            },
    {
        proof {
            reveal_strlit(": ");
        }
        match self {
            CatalogError::Read { path, message } => {
                let mut chars: Vec<char> = Vec::new();
                crate::text::push_str(&mut chars, path.as_str());
                crate::text::push_str(&mut chars, ": ");
                crate::text::push_str(&mut chars, message.as_str());
                crate::text::string_of(chars.as_slice())
            },
        }
    }
}

/// Themes as plain values.
pub open spec fn theme_views(themes: Seq<Theme>) -> Seq<ThemeView> {
    themes.map_values(|t: Theme| t@)
}

/// The first of `themes[i..]` whose identifier is `id`.
pub open spec fn find_theme(themes: Seq<ThemeView>, id: Seq<char>, i: int) -> Option<ThemeView>
    decreases themes.len() - i,
{
    if i < 0 || i >= themes.len() {
        None
    } else if themes[i].id == id {
        Some(themes[i])
    } else {
        find_theme(themes, id, i + 1)
    }
}

impl View for Catalog {
    type V = Seq<ThemeView>;

    closed spec fn view(&self) -> Seq<ThemeView> {
        theme_views(self.themes@)
    }
}

impl Catalog {
    /// The catalogue of `themes`, which loaded, and `broken`, which did not, each in the
    /// order the directory's files sort in.
    pub fn new(themes: Vec<Theme>, broken: Vec<ThemeError>) -> (catalog: Catalog)
        ensures
            catalog@ == theme_views(themes@),
            catalog.broken_views() == error_views(broken@),
    {
        Catalog { themes, broken }
    }

    /// Why each file that did not load is not a theme, as plain values.
    pub closed spec fn broken_views(&self) -> Seq<ThemeErrorView> {
        error_views(self.broken@)
    }

    /// The themes that loaded, in identifier order.
    pub fn themes(&self) -> (themes: &Vec<Theme>)
        ensures
            theme_views(themes@) == self@,
    {
        &self.themes
    }

    /// Why each of the other files is not a theme, in the same order.
    pub fn broken(&self) -> (broken: &Vec<ThemeError>)
        ensures
            error_views(broken@) == self.broken_views(),
    {
        &self.broken
    }

    /// The theme called `id`, or `None` when the directory holds none.
    pub fn get(&self, id: &ThemeId) -> (theme: Option<&Theme>)
        ensures
            match theme {
                Some(t) => find_theme(self@, id@, 0) == Some(t@),
                None => find_theme(self@, id@, 0) is None,
            },
    {
        let ghost views = theme_views(self.themes@);
        let mut i: usize = 0;
        while i < self.themes.len()
            invariant
                i <= self.themes@.len(),
                views == theme_views(self.themes@),
                find_theme(views, id@, 0) == find_theme(views, id@, i as int),
            decreases self.themes@.len() - i,
        {
            let theme = &self.themes[i];
            if theme.id().same(id) {
                return Some(theme);
            }
            i = i + 1;
        }
        None
    }
}

/// One entry of the themes directory, as the caller listed and read it.
#[derive(Debug)]
pub enum Entry {
    /// A file: where it is, and its text or what reading it failed with.
    File { path: String, read: Result<String, String> },
    /// Anything that is not a file, such as a subdirectory.
    Other { path: String },
}

/// A file of the themes directory as plain values.
pub struct FileView {
    pub path: Seq<char>,
    pub read: Result<Seq<char>, Seq<char>>,
}

/// What reading a file gave, as plain values.
pub open spec fn read_view(read: Result<String, String>) -> Result<Seq<char>, Seq<char>> {
    match read {
        Ok(text) => Ok(text@),
        Err(message) => Err(message@),
    }
}

/// Whether `path` names a theme file: its last component ends in `.toml` with something
/// before the dot, so `.toml` alone is no theme.
pub open spec fn is_theme_path(path: Seq<char>) -> bool {
    &&& path.len() > 5
    &&& path.skip(path.len() - 5) == ".toml"@
    &&& path[path.len() - 6] != '/'
}

/// The files among `entries` that are themes, in listing order.
pub open spec fn theme_files(entries: Seq<Entry>) -> Seq<FileView>
    decreases entries.len(),
{
    if entries.len() == 0 {
        Seq::empty()
    } else {
        let before = theme_files(entries.drop_last());
        match entries.last() {
            Entry::File { path, read } => if is_theme_path(path@) {
                before.push(FileView { path: path@, read: read_view(read) })
            } else {
                before
            },
            Entry::Other { .. } => before,
        }
    }
}

/// Whether no file of `files` sorts before the one in front of it.
pub open spec fn path_sorted(files: Seq<FileView>) -> bool {
    forall|k: int| 0 < k < files.len() ==> !text_less(#[trigger] files[k].path, files[k - 1].path)
}

/// Whether loading `file` can give `outcome`: a read error is the file's, and a text loads
/// as a theme stored at the file's path, under the file stem its path gives (what follows
/// the last `/` up to the final `.`, for a plain path).
pub open spec fn loads_as(file: FileView, outcome: Result<ThemeView, ThemeErrorView>) -> bool {
    match file.read {
        Err(message) => outcome == Err::<ThemeView, ThemeErrorView>(ThemeErrorView::Read { path: file.path, message }),
        Ok(text) => exists|stem: Seq<char>, cs: Seq<Seq<usize>>|
            (plain_path(file.path) ==> stem == name_stem(file_name_of(file.path)))
                && cycles_fit(stem, text, encode_utf8(text), cs) && #[trigger] theme_outcome(
                file.path,
                stem,
                text,
                encode_utf8(text),
                cs,
            ) == outcome,
    }
}

/// The themes among `outcomes`, in order.
pub open spec fn loaded(outcomes: Seq<Result<ThemeView, ThemeErrorView>>) -> Seq<ThemeView>
    decreases outcomes.len(),
{
    if outcomes.len() == 0 {
        Seq::empty()
    } else {
        match outcomes.last() {
            Ok(theme) => loaded(outcomes.drop_last()).push(theme),
            Err(_) => loaded(outcomes.drop_last()),
        }
    }
}

/// The errors among `outcomes`, in order.
pub open spec fn failed(outcomes: Seq<Result<ThemeView, ThemeErrorView>>) -> Seq<ThemeErrorView>
    decreases outcomes.len(),
{
    if outcomes.len() == 0 {
        Seq::empty()
    } else {
        match outcomes.last() {
            Ok(_) => failed(outcomes.drop_last()),
            Err(error) => failed(outcomes.drop_last()).push(error),
        }
    }
}

/// A file that does not load costs that theme and nothing else: every outcome is either a
/// theme or an error, so the two lists together account for every file, in order.
pub proof fn lemma_every_file_is_accounted_for(outcomes: Seq<Result<ThemeView, ThemeErrorView>>)
    ensures
        loaded(outcomes).len() + failed(outcomes).len() == outcomes.len(),
    decreases outcomes.len(),
{
    if outcomes.len() > 0 {
        lemma_every_file_is_accounted_for(outcomes.drop_last());
    }
}

/// Theme errors as plain values.
pub open spec fn error_views(errors: Seq<ThemeError>) -> Seq<ThemeErrorView> {
    errors.map_values(|e: ThemeError| e@)
}

/// The files kept for loading, as plain values.
pub open spec fn file_views(files: Seq<(String, Result<String, String>)>) -> Seq<FileView> {
    files.map_values(|f: (String, Result<String, String>)| FileView { path: f.0@, read: read_view(f.1) })
}

/// `text_less` never holds both ways.
proof fn lemma_less_asymmetric(a: Seq<char>, b: Seq<char>)
    ensures
        !(text_less(a, b) && text_less(b, a)),
{
    if text_less(a, b) && text_less(b, a) {
        lemma_less_transitive(a, b, a);
        lemma_less_irreflexive(a);
    }
}

/// Whether `path` names a theme file.
fn theme_path(path: &str) -> (found: bool)
    ensures
        found == is_theme_path(path@),
{
    proof {
        reveal_strlit(".toml");
    }
    let chars = chars_of(path);
    let n = chars.len();
    if n <= 5 {
        return false;
    }
    let found = chars[n - 5] == '.' && chars[n - 4] == 't' && chars[n - 3] == 'o' && chars[n - 2] == 'm'
        && chars[n - 1] == 'l' && chars[n - 6] != '/';
    proof {
        let tail = path@.skip(n - 5);
        if tail == ".toml"@ {
            assert(tail[0] == '.' && tail[1] == 't' && tail[2] == 'o' && tail[3] == 'm' && tail[4] == 'l');
        }
        if found {
            assert(tail =~= ".toml"@);
        }
    }
    found
}

/// The theme files among `entries`, ordered by path.
fn sorted_theme_files(entries: Vec<Entry>) -> (files: Vec<(String, Result<String, String>)>)
    ensures
        file_views(files@).to_multiset() == theme_files(entries@).to_multiset(),
        path_sorted(file_views(files@)),
{
    let ghost all = entries@;
    let mut rest = entries;
    let total = rest.len();
    let mut out: Vec<(String, Result<String, String>)> = Vec::new();
    let mut k: usize = 0;
    proof {
        assert(all.take(0) =~= Seq::<Entry>::empty());
        assert(file_views(out@) =~= Seq::<FileView>::empty());
        assert(all.skip(0) =~= all);
    }
    while k < total
        invariant
            k <= all.len() <= usize::MAX,
            total == all.len(),
            rest@ == all.skip(k as int),
            file_views(out@).to_multiset() == theme_files(all.take(k as int)).to_multiset(),
            path_sorted(file_views(out@)),
        decreases all.len() - k,
    {
        proof {
            assert(rest@.len() == all.len() - k);
        }
        let entry = rest.remove(0);
        proof {
            assert(entry == all[k as int]);
            assert(rest@ =~= all.skip(k + 1));
            assert(all.take(k + 1).drop_last() =~= all.take(k as int));
            assert(all.take(k + 1).last() == entry);
        }
        match entry {
            Entry::File { path, read } => {
                if theme_path(path.as_str()) {
                    let ghost file = FileView { path: path@, read: read_view(read) };
                    let key = chars_of(path.as_str());
                    let mut at: usize = out.len();
                    while at > 0
                        invariant
                            at <= out@.len(),
                            key@ == file.path,
                            forall|j: int| at <= j < out@.len() ==> text_less(file.path, #[trigger] out@[j].0@),
                        ensures
                            at <= out@.len(),
                            forall|j: int| at <= j < out@.len() ==> text_less(file.path, #[trigger] out@[j].0@),
                            at == 0 || !text_less(file.path, out@[at - 1].0@),
                        decreases at,
                    {
                        let other = chars_of(out[at - 1].0.as_str());
                        if !less_chars(key.as_slice(), other.as_slice()) {
                            break;
                        }
                        at = at - 1;
                    }
                    let ghost previous = file_views(out@);
                    out.insert(at, (path, read));
                    proof {
                        assert(file_views(out@) =~= previous.insert(at as int, file));
                        vstd::seq_lib::to_multiset_insert(previous, at as int, file);
                        vstd::seq_lib::to_multiset_build(theme_files(all.take(k as int)), file);
                        let now = file_views(out@);
                        if at < previous.len() {
                            lemma_less_asymmetric(file.path, previous[at as int].path);
                        }
                        assert forall|j: int| 0 < j < now.len() implies !text_less(#[trigger] now[j].path, now[j - 1].path) by {
                            if j < at {
                                assert(now[j] == previous[j] && now[j - 1] == previous[j - 1]);
                            } else if j == at {
                                assert(now[j] == file && now[j - 1] == previous[j - 1]);
                            } else if j == at + 1 {
                                assert(now[j] == previous[at as int] && now[j - 1] == file);
                                assert(text_less(file.path, out@[j].0@));
                            } else {
                                assert(now[j] == previous[j - 1] && now[j - 1] == previous[j - 2]);
                            }
                        }
                    }
                }
            },
            Entry::Other { .. } => {},
        }
        k = k + 1;
    }
    proof {
        assert(all.take(all.len() as int) =~= all);
    }
    out
}

impl Catalog {
    /// Loads every theme among the entries of the themes directory, in path order.
    ///
    /// A file that does not load, or could not be read, costs the user that theme, not the
    /// command: its error lands among the broken ones, in the same order, and the rest is
    /// still loaded. Entries that are not files, or whose name does not end in `.toml`, are
    /// ignored.
    pub fn scan(entries: Vec<Entry>) -> (catalog: Catalog)
        ensures
            exists|files: Seq<FileView>, outcomes: Seq<Result<ThemeView, ThemeErrorView>>|
                #![trigger path_sorted(files), loaded(outcomes)]
                {
                    &&& files.to_multiset() == theme_files(entries@).to_multiset()
                    &&& path_sorted(files)
                    &&& outcomes.len() == files.len()
                    &&& forall|i: int| 0 <= i < files.len() ==> loads_as(#[trigger] files[i], outcomes[i])
                    &&& catalog@ == loaded(outcomes)
                    &&& catalog.broken_views() == failed(outcomes)
                },
    {
        let ghost listed = entries@;
        let mut files = sorted_theme_files(entries);
        let ghost order = file_views(files@);
        let total = files.len();
        let mut themes: Vec<Theme> = Vec::new();
        let mut broken: Vec<ThemeError> = Vec::new();
        let ghost mut outcomes: Seq<Result<ThemeView, ThemeErrorView>> = Seq::empty();
        let mut k: usize = 0;
        proof {
            assert(file_views(files@) =~= order.skip(0));
            assert(theme_views(themes@) =~= loaded(outcomes));
            assert(error_views(broken@) =~= failed(outcomes));
        }
        while k < total
            invariant
                k <= order.len() <= usize::MAX,
                total == order.len(),
                file_views(files@) == order.skip(k as int),
                outcomes.len() == k,
                forall|i: int| 0 <= i < k ==> loads_as(#[trigger] order[i], outcomes[i]),
                theme_views(themes@) == loaded(outcomes),
                error_views(broken@) == failed(outcomes),
            decreases order.len() - k,
        {
            let ghost before = file_views(files@);
            proof {
                assert(before.len() == files@.len());
                assert(order.skip(k as int).len() == order.len() - k);
            }
            let (path, read) = files.remove(0);
            let ghost file = FileView { path: path@, read: read_view(read) };
            proof {
                assert(before[0] == file);
                assert(order[k as int] == order.skip(k as int)[0]);
                assert(file_views(files@) =~= before.drop_first());
                assert(order.skip(k + 1) =~= order.skip(k as int).drop_first());
            }
            let ghost outcome: Result<ThemeView, ThemeErrorView>;
            match read {
                Ok(text) => {
                    let result = Theme::parse(path.as_str(), text.as_str());
                    proof {
                        outcome = outcome_view(result);
                        let t = text@;
                        if plain_path(path@) {
                            let stem = name_stem(file_name_of(path@));
                            let cs = choose|cs: Seq<Seq<usize>>|
                                cycles_fit(stem, t, encode_utf8(t), cs) && #[trigger] theme_outcome(
                                    path@,
                                    stem,
                                    t,
                                    encode_utf8(t),
                                    cs,
                                ) == outcome;
                            assert(cycles_fit(stem, t, encode_utf8(t), cs) && theme_outcome(path@, stem, t, encode_utf8(t), cs)
                                == outcome);
                        } else {
                            let (stem, cs) = choose|stem: Seq<char>, cs: Seq<Seq<usize>>|
                                cycles_fit(stem, t, encode_utf8(t), cs) && #[trigger] theme_outcome(
                                    path@,
                                    stem,
                                    t,
                                    encode_utf8(t),
                                    cs,
                                ) == outcome;
                            assert(cycles_fit(stem, t, encode_utf8(t), cs) && theme_outcome(path@, stem, t, encode_utf8(t), cs)
                                == outcome);
                        }
                    }
                    match result {
                        Ok(theme) => {
                            themes.push(theme);
                        },
                        Err(error) => {
                            broken.push(error);
                        },
                    }
                },
                Err(message) => {
                    let error = ThemeError::Read { path, message };
                    proof {
                        outcome = Err(error@);
                    }
                    broken.push(error);
                },
            }
            proof {
                let next = outcomes.push(outcome);
                assert(next.drop_last() =~= outcomes);
                assert(theme_views(themes@) =~= loaded(next));
                assert(error_views(broken@) =~= failed(next));
                assert forall|i: int| 0 <= i < k + 1 implies loads_as(#[trigger] order[i], next[i]) by {
                    if i < k {
                        assert(next[i] == outcomes[i]);
                    }
                }
                outcomes = next;
            }
            k = k + 1;
        }
        proof {
            assert(k == order.len());
        }
        let catalog = Catalog { themes, broken };
        proof {
            assert(path_sorted(order) && loaded(outcomes) == catalog@);
        }
        catalog
    }
}

} // verus!
