//! What an argument to `import` names, where a cached scheme is looked for, what the theme
//! is called and what the written file records of where it came from.
//!
//! Reading files, fetching URLs and writing the theme are the caller's; conversion is
//! `scheme::convert::read_scheme`, which reads every system tinted8 included, and emission
//! is `init::emit::theme`.

use vstd::prelude::*;

use vstd::utf8::{decode_utf8, valid_utf8};

use crate::init::emit::{in_order, lines_of, theme as emit_theme, theme_text, Line};
use crate::location::{join, join_spec};
use crate::path_map::strictly_sorted;
use crate::scheme::convert::{
    declared_spec, declared_system, map_of, read_scheme, read_spec, utf8_error, utf8_text, ConvertError, ConvertErrorView,
    ConvertedView,
};
use crate::scheme::{system_name, Problem, ProblemView, System};
use crate::text::{chars_of, push_all, push_str, starts_with, string_of};
use crate::theme::{file_name_of, file_stem, name_stem, plain_path, ThemeId, Variant};
use crate::token::is_segment_spec;
use crate::vocabulary::known;

verus! {

/// What an argument names.
#[derive(Debug, PartialEq, Eq)]
pub enum Named {
    /// A URL, as written.
    Url(String),
    /// `system/id`: one scheme of one system of the cache.
    Qualified(System, ThemeId),
    /// `id`: a scheme of the cache, looked for in every system in order.
    Bare(ThemeId),
    /// A file on disk, as written.
    File(String),
}

/// What an argument names, as plain values.
pub enum NamedView {
    Url(Seq<char>),
    Qualified(System, Seq<char>),
    Bare(Seq<char>),
    File(Seq<char>),
}

/// Where the first `/` of `s` stands, or its length.
pub open spec fn first_slash(s: Seq<char>, i: int) -> int
    decreases s.len() - i,
{
    if i < 0 || i >= s.len() {
        s.len() as int
    } else if s[i] == '/' {
        i
    } else {
        first_slash(s, i + 1)
    }
}

/// The system `text` names.
pub open spec fn system_named(text: Seq<char>) -> Option<System> {
    if text == "base16"@ {
        Some(System::Base16)
    } else if text == "base24"@ {
        Some(System::Base24)
    } else if text == "tinted8"@ {
        Some(System::Tinted8)
    } else {
        None
    }
}

/// What `argument` names, told apart in order: a URL, then `system/id`, then an identifier,
/// then a file. A single segment always means the cache, so a file of that name is reached
/// by writing a path to it.
pub open spec fn named_spec(argument: Seq<char>) -> NamedView {
    let slash = first_slash(argument, 0);
    if starts_with(argument, "http://"@) || starts_with(argument, "https://"@) {
        NamedView::Url(argument)
    } else if slash < argument.len() && system_named(argument.take(slash)) is Some && is_segment_spec(
        argument.skip(slash + 1),
    ) {
        NamedView::Qualified(system_named(argument.take(slash))->0, argument.skip(slash + 1))
    } else if is_segment_spec(argument) {
        NamedView::Bare(argument)
    } else {
        NamedView::File(argument)
    }
}

/// The view of what an argument names.
pub open spec fn named_view(n: Named) -> NamedView {
    match n {
        Named::Url(u) => NamedView::Url(u@),
        Named::Qualified(s, id) => NamedView::Qualified(s, id@),
        Named::Bare(id) => NamedView::Bare(id@),
        Named::File(f) => NamedView::File(f@),
    }
}

/// Whether `chars` starts with `prefix`.
fn begins(chars: &Vec<char>, prefix: &str) -> (yes: bool)
    ensures
        yes == starts_with(chars@, prefix@),
{
    let p = chars_of(prefix);
    if p.len() > chars.len() {
        return false;
    }
    proof {
        assert(chars@.skip(0) =~= chars@);
    }
    crate::text::starts_with_at(chars.as_slice(), 0, p.as_slice())
}

/// The characters of `chars` from `from` to `to`.
fn slice(chars: &Vec<char>, from: usize, to: usize) -> (part: Vec<char>)
    requires
        from <= to <= chars@.len(),
    ensures
        part@ == chars@.subrange(from as int, to as int),
{
    let mut part: Vec<char> = Vec::new();
    let mut i: usize = from;
    while i < to
        invariant
            from <= i <= to <= chars@.len(),
            part@ == chars@.subrange(from as int, i as int),
        decreases to - i,
    {
        part.push(chars[i]);
        proof {
            assert(chars@.subrange(from as int, i + 1) =~= chars@.subrange(from as int, i as int).push(chars@[i as int]));
        }
        i = i + 1;
    }
    part
}

/// What `argument` names.
pub fn resolve(argument: &str) -> (named: Named)
    ensures
        named_view(named) == named_spec(argument@),
{
    proof {
        reveal_strlit("http://");
        reveal_strlit("https://");
        reveal_strlit("base16");
        reveal_strlit("base24");
        reveal_strlit("tinted8");
    }
    let chars = chars_of(argument);
    if begins(&chars, "http://") || begins(&chars, "https://") {
        return Named::Url(argument.to_owned());
    }
    let mut slash: usize = 0;
    while slash < chars.len() && chars[slash] != '/'
        invariant
            slash <= chars@.len(),
            chars@ == argument@,
            first_slash(argument@, 0) == first_slash(argument@, slash as int),
        decreases chars@.len() - slash,
    {
        slash = slash + 1;
    }
    if slash < chars.len() {
        let head: Vec<char> = slice(&chars, 0, slash);
        let tail: Vec<char> = slice(&chars, slash + 1, chars.len());
        proof {
            assert(head@ =~= argument@.take(slash as int));
            assert(tail@ =~= argument@.skip(slash + 1));
        }
        let head_text = string_of(head.as_slice());
        let tail_text = string_of(tail.as_slice());
        match (System::parse(head_text.as_str()), ThemeId::parse(tail_text.as_str())) {
            (Some(system), Some(id)) => {
                proof {
                    assert(head_text@ == argument@.take(slash as int));
                    assert(system_name(system) == head_text@);
                    match system {
                        System::Base16 => {},
                        System::Base24 => {
                            assert("base24"@ != "base16"@) by {
                                assert("base24"@[5] != "base16"@[5]);
                            }
                        },
                        System::Tinted8 => {
                            assert("tinted8"@ != "base16"@) by {
                                assert("tinted8"@.len() != "base16"@.len());
                            }
                            assert("tinted8"@ != "base24"@) by {
                                assert("tinted8"@.len() != "base24"@.len());
                            }
                        },
                    }
                    assert(system_named(argument@.take(slash as int)) == Some(system));
                }
                return Named::Qualified(system, id);
            },
            (system, id) => {
                proof {
                    if system is None {
                        assert(system_named(argument@.take(slash as int)) is None);
                    }
                }
            },
        }
    }
    match ThemeId::parse(argument) {
        Some(id) => Named::Bare(id),
        None => Named::File(argument.to_owned()),
    }
}

/// The systems a cached scheme is looked for under, in order.
pub open spec fn searched(named: NamedView) -> Seq<System> {
    match named {
        NamedView::Qualified(system, _) => seq![system],
        NamedView::Bare(_) => seq![System::Base16, System::Base24, System::Tinted8],
        _ => Seq::empty(),
    }
}

/// The identifier a cached scheme is looked for by.
pub open spec fn sought(named: NamedView) -> Seq<char> {
    match named {
        NamedView::Qualified(_, id) => id,
        NamedView::Bare(id) => id,
        _ => Seq::empty(),
    }
}

/// Both spellings the collection uses for a scheme file.
pub open spec fn extensions() -> Seq<Seq<char>> {
    seq!["yaml"@, "yml"@]
}

/// One place a cached scheme may be: its system, its file, and the qualified identifier it
/// answers to.
pub open spec fn candidate(schemes: Seq<char>, system: System, id: Seq<char>, extension: Seq<char>) -> (System, Seq<char>, Seq<char>) {
    (
        system,
        join_spec(join_spec(schemes, system_name(system)), id + "."@ + extension),
        system_name(system) + "/"@ + id,
    )
}

/// Every place the cached scheme `named` names may be, in the order they are tried: system
/// by system, and within one, `.yaml` before `.yml`.
pub open spec fn candidates_spec(named: NamedView, schemes: Seq<char>) -> Seq<(System, Seq<char>, Seq<char>)> {
    let systems = searched(named);
    Seq::new(systems.len() * 2, |k: int| candidate(schemes, systems[k / 2], sought(named), extensions()[k % 2]))
}

/// The places to look for the cached scheme `named` names, under the cache `schemes`.
///
/// The lookup is by file name and not a scan of the cache: the identifier is the file stem,
/// so six paths answer what reading the whole collection would.
pub fn candidates(named: &Named, schemes: &str) -> (found: Vec<(System, String, String)>)
    ensures
        found@.map_values(|c: (System, String, String)| (c.0, c.1@, c.2@)) == candidates_spec(named_view(*named), schemes@),
{
    proof {
        reveal_strlit("yaml");
        reveal_strlit("yml");
        reveal_strlit(".");
        reveal_strlit("/");
    }
    let mut systems: Vec<System> = Vec::new();
    let id: &str = match named {
        Named::Qualified(system, id) => {
            systems.push(*system);
            id.as_str()
        },
        Named::Bare(id) => {
            systems.push(System::Base16);
            systems.push(System::Base24);
            systems.push(System::Tinted8);
            id.as_str()
        },
        _ => "",
    };
    let ghost view = named_view(*named);
    proof {
        assert(systems@ =~= searched(view));
        reveal_strlit("");
        assert(id@ == sought(view));
    }
    let mut found: Vec<(System, String, String)> = Vec::new();
    let mut i: usize = 0;
    while i < systems.len()
        invariant
            i <= systems@.len(),
            systems@ == searched(view),
            id@ == sought(view),
            systems@.len() <= 3,
            found@.map_values(|c: (System, String, String)| (c.0, c.1@, c.2@)) == candidates_spec(view, schemes@).take(2 * i),
        decreases systems@.len() - i,
    {
        let system = systems[i];
        let directory = join(schemes, system.as_str());
        let mut qualified: Vec<char> = chars_of(system.as_str());
        push_str(&mut qualified, "/");
        push_str(&mut qualified, id);
        let mut k: usize = 0;
        while k < 2
            invariant
                k <= 2,
                i < systems@.len(),
                systems@ == searched(view),
                id@ == sought(view),
                systems@.len() <= 3,
                system == systems@[i as int],
                directory@ == join_spec(schemes@, system_name(system)),
                qualified@ == system_name(system) + "/"@ + id@,
                found@.map_values(|c: (System, String, String)| (c.0, c.1@, c.2@)) == candidates_spec(view, schemes@).take(2 * i + k),
            decreases 2 - k,
        {
            let extension = if k == 0 { "yaml" } else { "yml" };
            let mut file: Vec<char> = chars_of(id);
            push_str(&mut file, ".");
            push_str(&mut file, extension);
            let path = join(directory.as_str(), string_of(file.as_slice()).as_str());
            let ghost before = found@.map_values(|c: (System, String, String)| (c.0, c.1@, c.2@));
            found.push((system, path, string_of(qualified.as_slice())));
            proof {
                let all = candidates_spec(view, schemes@);
                let at = 2 * i + k;
                assert(at / 2 == i as int);
                assert(at % 2 == k as int);
                assert(extension@ == extensions()[k as int]);
                assert(found@.map_values(|c: (System, String, String)| (c.0, c.1@, c.2@)) =~= before.push(all[at as int]));
                assert(all.take(at + 1) =~= all.take(at as int).push(all[at as int]));
            }
            k = k + 1;
        }
        i = i + 1;
    }
    proof {
        assert(candidates_spec(view, schemes@).take(2 * systems@.len() as int) =~= candidates_spec(view, schemes@));
    }
    found
}

/// The theme file an import writes: a comment naming where the scheme came from, then the
/// theme.
pub open spec fn imported_spec(origin: Seq<char>, theme: Seq<char>) -> Seq<char> {
    "# imported by vanadis from "@ + origin + "\n"@ + theme
}

/// The theme file an import writes.
pub fn imported(origin: &str, theme: &str) -> (file: String)
    ensures
        file@ == imported_spec(origin@, theme@),
{
    proof {
        reveal_strlit("# imported by vanadis from ");
        reveal_strlit("\n");
    }
    let mut chars: Vec<char> = Vec::new();
    push_str(&mut chars, "# imported by vanadis from ");
    push_str(&mut chars, origin);
    push_str(&mut chars, "\n");
    push_str(&mut chars, theme);
    string_of(chars.as_slice())
}

/// Where the bytes of one scheme come from.
///
/// The system travels with them: a cached scheme takes it from the directory it is filed
/// under and a loose file has to declare it, which is the whole difference between the two.
#[derive(Debug, PartialEq, Eq)]
pub enum Source {
    /// One file out of the cache, whose directory names its system.
    Cached {
        /// The system the directory names.
        system: System,
        /// The file the directory holds.
        path: String,
        /// The qualified identifier, as a search prints it.
        qualified: String,
    },
    /// A file on disk, which declares its own system.
    File {
        /// The file, as it was written on the command line.
        path: String,
    },
    /// A URL, whose answer declares its own system.
    Url {
        /// The URL, as it was written on the command line.
        url: String,
    },
}

/// A source as plain values.
pub enum SourceView {
    Cached(System, Seq<char>, Seq<char>),
    File(Seq<char>),
    Url(Seq<char>),
}

impl View for Source {
    type V = SourceView;

    open spec fn view(&self) -> SourceView {
        match self {
            Source::Cached { system, path, qualified } => SourceView::Cached(*system, path@, qualified@),
            Source::File { path } => SourceView::File(path@),
            Source::Url { url } => SourceView::Url(url@),
        }
    }
}

/// A scheme could not be imported.
#[derive(Debug)]
pub enum ImportError {
    /// Nothing has been cached yet.
    NoCache {
        /// Where the cache would be.
        directory: String,
    },
    /// The cache holds no scheme of that name.
    Unknown {
        /// The argument as it was written.
        argument: String,
    },
    /// The scheme does not say which system it is written for.
    System {
        /// Where the scheme came from.
        origin: String,
        /// What the scheme does not say.
        source: Problem,
    },
    /// The scheme could not be converted.
    Convert {
        /// Where the scheme came from.
        origin: String,
        /// Why the conversion failed.
        source: ConvertError,
    },
    /// The name the theme would take is not an identifier.
    Name {
        /// The name the source gave.
        name: String,
    },
    /// The theme file is already there.
    Exists {
        /// The file that would have been written over.
        path: String,
    },
}

/// An import error as plain values.
pub enum ImportErrorView {
    NoCache(Seq<char>),
    Unknown(Seq<char>),
    System(Seq<char>, ProblemView),
    Convert(Seq<char>, ConvertErrorView),
    Name(Seq<char>),
    Exists(Seq<char>),
}

impl View for ImportError {
    type V = ImportErrorView;

    open spec fn view(&self) -> ImportErrorView {
        match self {
            ImportError::NoCache { directory } => ImportErrorView::NoCache(directory@),
            ImportError::Unknown { argument } => ImportErrorView::Unknown(argument@),
            ImportError::System { origin, source } => ImportErrorView::System(origin@, source@),
            ImportError::Convert { origin, source } => ImportErrorView::Convert(origin@, source@),
            ImportError::Name { name } => ImportErrorView::Name(name@),
            ImportError::Exists { path } => ImportErrorView::Exists(path@),
        }
    }
}

/// The sentence an import error is reported with; `detail` is what the cause says, which
/// follows on a line of its own for the errors that have one.
pub open spec fn import_text(e: ImportErrorView) -> Seq<char> {
    match e {
        ImportErrorView::NoCache(directory) => "no scheme cache under "@ + directory
            + "\nrun `vanadis remote update` to fetch it"@,
        ImportErrorView::Unknown(argument) => "the cache holds no scheme called `"@ + argument
            + "`\nrun `vanadis search` to see what it holds"@,
        ImportErrorView::System(origin, _) => origin + ": cannot be read as a scheme"@,
        ImportErrorView::Convert(origin, _) => origin + ": cannot be converted"@,
        ImportErrorView::Name(name) => "`"@ + name + "` is not a theme identifier"@,
        ImportErrorView::Exists(path) => path + " already exists"@,
    }
}

impl ImportError {
    /// The sentence the error is reported with. The reason a scheme could not be read or
    /// converted hangs off `source`, which the caller prints on the line after.
    pub fn message(&self) -> (text: String)
        ensures
            text@ == import_text(self@),
    {
        proof {
            reveal_strlit("no scheme cache under ");
            reveal_strlit("\nrun `vanadis remote update` to fetch it");
            reveal_strlit("the cache holds no scheme called `");
            reveal_strlit("`\nrun `vanadis search` to see what it holds");
            reveal_strlit(": cannot be read as a scheme");
            reveal_strlit(": cannot be converted");
            reveal_strlit("`");
            reveal_strlit("` is not a theme identifier");
            reveal_strlit(" already exists");
        }
        let mut chars: Vec<char> = Vec::new();
        match self {
            ImportError::NoCache { directory } => {
                push_str(&mut chars, "no scheme cache under ");
                push_str(&mut chars, directory.as_str());
                push_str(&mut chars, "\nrun `vanadis remote update` to fetch it");
            },
            ImportError::Unknown { argument } => {
                push_str(&mut chars, "the cache holds no scheme called `");
                push_str(&mut chars, argument.as_str());
                push_str(&mut chars, "`\nrun `vanadis search` to see what it holds");
            },
            ImportError::System { origin, .. } => {
                push_str(&mut chars, origin.as_str());
                push_str(&mut chars, ": cannot be read as a scheme");
            },
            ImportError::Convert { origin, .. } => {
                push_str(&mut chars, origin.as_str());
                push_str(&mut chars, ": cannot be converted");
            },
            ImportError::Name { name } => {
                push_str(&mut chars, "`");
                push_str(&mut chars, name.as_str());
                push_str(&mut chars, "` is not a theme identifier");
            },
            ImportError::Exists { path } => {
                push_str(&mut chars, path.as_str());
                push_str(&mut chars, " already exists");
            },
        }
        proof {
            assert(chars@ =~= import_text(self@));
        }
        string_of(chars.as_slice())
    }
}

/// The first of `cands[i..]` that `present` marks as there; a candidate past the end of
/// `present` is not there.
pub open spec fn first_present(cands: Seq<(System, Seq<char>, Seq<char>)>, present: Seq<bool>, i: int) -> Option<int>
    decreases cands.len() - i,
{
    if i < 0 || i >= cands.len() {
        None
    } else if i < present.len() && present[i] {
        Some(i)
    } else {
        first_present(cands, present, i + 1)
    }
}

/// Where the scheme `argument` names comes from, given whether the cache `schemes` is there
/// and which of the candidate files it holds.
pub open spec fn locate_spec(argument: Seq<char>, schemes: Seq<char>, cache: bool, present: Seq<bool>) -> Result<
    SourceView,
    ImportErrorView,
> {
    match named_spec(argument) {
        NamedView::Url(url) => Ok(SourceView::Url(url)),
        NamedView::File(path) => Ok(SourceView::File(path)),
        named => if !cache {
            Err(ImportErrorView::NoCache(schemes))
        } else {
            let cands = candidates_spec(named, schemes);
            match first_present(cands, present, 0) {
                Some(i) => Ok(SourceView::Cached(cands[i].0, cands[i].1, cands[i].2)),
                None => Err(ImportErrorView::Unknown(argument)),
            }
        },
    }
}

/// The outcome of locating, as plain values.
pub open spec fn located_view(result: Result<Source, ImportError>) -> Result<SourceView, ImportErrorView> {
    match result {
        Ok(source) => Ok(source@),
        Err(error) => Err(error@),
    }
}

/// Where the scheme `argument` names comes from.
///
/// `cache` says whether the cache directory `schemes` is there, and `present[i]` whether the
/// `i`th of [`candidates`] for the argument is a file. A URL or a path reads no cache, so
/// neither needs one; a cached scheme is the first candidate that is there.
pub fn locate(argument: &str, schemes: &str, cache: bool, present: &Vec<bool>) -> (result: Result<Source, ImportError>)
    ensures
        located_view(result) == locate_spec(argument@, schemes@, cache, present@),
{
    let named = resolve(argument);
    match named {
        Named::Url(url) => Ok(Source::Url { url }),
        Named::File(path) => Ok(Source::File { path }),
        _ => {
            if !cache {
                return Err(ImportError::NoCache { directory: schemes.to_owned() });
            }
            let found = candidates(&named, schemes);
            let ghost cands = found@.map_values(|c: (System, String, String)| (c.0, c.1@, c.2@));
            let mut i: usize = 0;
            while i < found.len()
                invariant
                    i <= found@.len(),
                    cands == found@.map_values(|c: (System, String, String)| (c.0, c.1@, c.2@)),
                    cands == candidates_spec(named_view(named), schemes@),
                    named_view(named) == named_spec(argument@),
                    cache,
                    first_present(cands, present@, 0) == first_present(cands, present@, i as int),
                decreases found@.len() - i,
            {
                if i < present.len() && present[i] {
                    let (system, path, qualified) = &found[i];
                    let cached = Source::Cached { system: *system, path: path.as_str().to_owned(), qualified: qualified.as_str().to_owned() };
                    proof {
                        assert(cands[i as int] == (*system, path@, qualified@));
                        assert(first_present(cands, present@, i as int) == Some(i as int));
                        assert(cached@ == SourceView::Cached(cands[i as int].0, cands[i as int].1, cands[i as int].2));
                    }
                    return Ok(cached);
                }
                i = i + 1;
            }
            Err(ImportError::Unknown { argument: argument.to_owned() })
        },
    }
}

/// Where the first `?` or `#` of `url` stands at or after `i`, or its length.
pub open spec fn query_at(url: Seq<char>, i: int) -> int
    decreases url.len() - i,
{
    if i < 0 || i >= url.len() {
        url.len() as int
    } else if url[i] == '?' || url[i] == '#' {
        i
    } else {
        query_at(url, i + 1)
    }
}

/// Where the last `/` of `s` stands before `i`, or `-1`.
pub open spec fn last_slash(s: Seq<char>, i: int) -> int
    decreases i,
{
    if i <= 0 {
        -1
    } else if s[i - 1] == '/' {
        i - 1
    } else {
        last_slash(s, i - 1)
    }
}

/// The file a URL names: its path, without the query or fragment, after the last `/`.
pub open spec fn url_file_spec(url: Seq<char>) -> Seq<char> {
    let path = url.take(query_at(url, 0));
    path.skip(last_slash(path, path.len() as int) + 1)
}

/// The file a URL names, which is empty for a URL that ends in a slash.
pub fn url_file(url: &str) -> (file: String)
    ensures
        file@ == url_file_spec(url@),
{
    let chars = chars_of(url);
    let mut end: usize = 0;
    while end < chars.len() && chars[end] != '?' && chars[end] != '#'
        invariant
            end <= chars@.len(),
            chars@ == url@,
            query_at(url@, 0) == query_at(url@, end as int),
        decreases chars@.len() - end,
    {
        end = end + 1;
    }
    let path = slice(&chars, 0, end);
    let mut start: usize = end;
    while start > 0 && path[start - 1] != '/'
        invariant
            start <= path@.len(),
            path@.len() == end,
            last_slash(path@, path@.len() as int) == last_slash(path@, start as int),
        decreases start,
    {
        start = start - 1;
    }
    proof {
        assert(path@ =~= url@.take(query_at(url@, 0)));
        assert(last_slash(path@, start as int) + 1 == start as int);
    }
    let file = slice(&path, start, end);
    proof {
        assert(file@ =~= path@.skip(start as int));
    }
    string_of(file.as_slice())
}

/// The file a source names: its path, or the file a URL names.
pub open spec fn named_file(source: SourceView) -> Seq<char> {
    match source {
        SourceView::Cached(_, path, _) => path,
        SourceView::File(path) => path,
        SourceView::Url(url) => url_file_spec(url),
    }
}

/// The name the theme takes: the source's filename minus its extension, the platform's
/// `file_stem`. A URL is its path, so its last segment is the filename, and a URL that ends
/// in a slash leaves the name empty, which is then refused as no identifier.
///
/// Where every platform splits the path alike, the name is stated; of a path whose last
/// component a platform reads its own way the contract says nothing.
pub fn stem(source: &Source) -> (name: String)
    ensures
        named_file(source@).len() == 0 ==> name@.len() == 0,
        plain_path(named_file(source@)) ==> name@ == name_stem(file_name_of(named_file(source@))),
{
    match source {
        Source::Cached { path, .. } => file_stem(path.as_str()),
        Source::File { path } => file_stem(path.as_str()),
        Source::Url { url } => {
            let file = url_file(url.as_str());
            file_stem(file.as_str())
        },
    }
}

/// Where the scheme came from, as the theme file records it.
pub open spec fn origin_spec(source: SourceView, canonical: Option<Seq<char>>) -> Seq<char> {
    match source {
        SourceView::Cached(_, _, qualified) => qualified,
        SourceView::File(path) => match canonical {
            Some(c) => c,
            None => path,
        },
        SourceView::Url(url) => url,
    }
}

/// Where the scheme came from, as the theme file records it.
///
/// A cached scheme is named the way a search prints it, which is the form that reaches it
/// again. A file is named by `canonical`, the path it resolves to, when the caller could
/// resolve it, and otherwise as it was written; a URL by itself.
pub fn origin(source: &Source, canonical: Option<&str>) -> (origin: String)
    ensures
        origin@ == origin_spec(
            source@,
            match canonical {
                Some(c) => Some(c@),
                None => None,
            },
        ),
{
    match source {
        Source::Cached { qualified, .. } => qualified.as_str().to_owned(),
        Source::File { path } => match canonical {
            Some(c) => c.to_owned(),
            None => path.as_str().to_owned(),
        },
        Source::Url { url } => url.as_str().to_owned(),
    }
}

/// What one import writes and reports.
#[derive(Debug)]
pub struct Imported {
    id: ThemeId,
    path: String,
    origin: String,
    name: String,
    author: Option<String>,
    variant: Variant,
    contents: String,
}

/// What one import writes and reports, as plain values.
pub struct ImportedView {
    pub id: Seq<char>,
    pub path: Seq<char>,
    pub origin: Seq<char>,
    pub name: Seq<char>,
    pub author: Option<Seq<char>>,
    pub variant: Variant,
    pub contents: Seq<char>,
}

impl View for Imported {
    type V = ImportedView;

    closed spec fn view(&self) -> ImportedView {
        ImportedView {
            id: self.id@,
            path: self.path@,
            origin: self.origin@,
            name: self.name@,
            author: match self.author {
                Some(a) => Some(a@),
                None => None,
            },
            variant: self.variant,
            contents: self.contents@,
        }
    }
}

impl Imported {
    /// The identifier the theme is reached by, which is its filename.
    pub fn id(&self) -> (id: &ThemeId)
        ensures
            id@ == self@.id,
    {
        &self.id
    }

    /// The file the theme is written to.
    pub fn path(&self) -> (path: &str)
        ensures
            path@ == self@.path,
    {
        self.path.as_str()
    }

    /// Where the scheme came from, as the theme file's own comment records it.
    pub fn origin(&self) -> (origin: &str)
        ensures
            origin@ == self@.origin,
    {
        self.origin.as_str()
    }

    /// The display name the scheme carried.
    pub fn name(&self) -> (name: &str)
        ensures
            name@ == self@.name,
    {
        self.name.as_str()
    }

    /// Who the scheme credits itself to, when it credits anyone.
    pub fn author(&self) -> (author: Option<&str>)
        ensures
            match (author, self@.author) {
                (Some(a), Some(b)) => a@ == b,
                (None, None) => true,
                _ => false,
            },
    {
        match &self.author {
            Some(a) => Some(a.as_str()),
            None => None,
        }
    }

    /// The background the theme is written for.
    pub fn variant(&self) -> (variant: Variant)
        ensures
            variant == self@.variant,
    {
        self.variant
    }

    /// The theme file's text.
    pub fn contents(&self) -> (contents: &str)
        ensures
            contents@ == self@.contents,
    {
        self.contents.as_str()
    }
}

/// The system the scheme is read as: the cache directory's, or the one a loose scheme
/// declares.
pub open spec fn system_for(source: SourceView, origin: Seq<char>, bytes: Seq<u8>) -> Result<System, ImportErrorView> {
    match source {
        SourceView::Cached(system, _, _) => Ok(system),
        _ => if !valid_utf8(bytes) {
            Err(ImportErrorView::Convert(origin, ConvertErrorView::Utf8(utf8_error(bytes))))
        } else {
            match declared_spec(decode_utf8(bytes)) {
                Ok(system) => Ok(system),
                Err(p) => Err(ImportErrorView::System(origin, p)),
            }
        },
    }
}

/// Whether `contents` is the theme file written for `converted`, recording `origin`: the
/// provenance comment, then the converted tokens in file order.
pub open spec fn emitted(origin: Seq<char>, converted: ConvertedView, contents: Seq<char>) -> bool {
    exists|entries: Seq<(Seq<char>, String)>, lines: Seq<Line>|
        #![trigger map_of(entries), lines.to_multiset()]
        {
            &&& strictly_sorted(entries)
            &&& map_of(entries) == converted.tokens
            &&& lines.to_multiset() == lines_of(entries).to_multiset()
            &&& in_order(lines)
            &&& contents == imported_spec(origin, theme_text(converted.name, converted.variant, lines))
        }
}

/// The author a converted scheme credits.
pub open spec fn author_of(converted: ConvertedView) -> Option<Seq<char>> {
    if converted.tokens.contains_key("meta.author"@) {
        Some(converted.tokens["meta.author"@])
    } else {
        None
    }
}

/// Whether `result` is what importing the bytes of `source` under the name `name` into
/// `themes` gives.
pub open spec fn prepared(
    source: SourceView,
    origin: Seq<char>,
    bytes: Seq<u8>,
    name: Seq<char>,
    themes: Seq<char>,
    result: Result<ImportedView, ImportErrorView>,
) -> bool {
    match system_for(source, origin, bytes) {
        Err(e) => result == Err::<ImportedView, ImportErrorView>(e),
        Ok(system) => match read_spec(system, bytes) {
            Err(e) => result == Err::<ImportedView, ImportErrorView>(ImportErrorView::Convert(origin, e)),
            Ok(converted) => if !is_segment_spec(name) {
                result == Err::<ImportedView, ImportErrorView>(ImportErrorView::Name(name))
            } else {
                &&& result is Ok
                &&& result->Ok_0.id == name
                &&& result->Ok_0.path == join_spec(themes, name + ".toml"@)
                &&& result->Ok_0.origin == origin
                &&& result->Ok_0.name == converted.name
                &&& result->Ok_0.author == author_of(converted)
                &&& result->Ok_0.variant == converted.variant
                &&& emitted(origin, converted, result->Ok_0.contents)
            },
        },
    }
}

/// An import's outcome as plain values.
pub open spec fn imported_view(result: Result<Imported, ImportError>) -> Result<ImportedView, ImportErrorView> {
    match result {
        Ok(imported) => Ok(imported@),
        Err(error) => Err(error@),
    }
}

/// The theme the bytes of `source` become, written under `themes` as `name`.
///
/// `origin` is where the scheme came from, as the file records it, and `name` is the source's
/// [`stem`]. A cached scheme is read as the system its directory names; a loose one is read
/// as the system it declares. Nothing is written here.
pub fn prepare(source: &Source, origin: &str, bytes: &[u8], name: &str, themes: &str) -> (result: Result<
    Imported,
    ImportError,
>)
    ensures
        prepared(source@, origin@, bytes@, name@, themes@, imported_view(result)),
{
    let system = match source {
        Source::Cached { system, .. } => *system,
        _ => {
            let text = match utf8_text(bytes) {
                Ok(text) => text,
                Err(message) => {
                    return Err(ImportError::Convert { origin: origin.to_owned(), source: ConvertError::Utf8 { message } });
                },
            };
            match declared_system(text) {
                Ok(system) => system,
                Err(p) => return Err(ImportError::System { origin: origin.to_owned(), source: p }),
            }
        },
    };
    let converted = match read_scheme(system, bytes) {
        Ok(converted) => converted,
        Err(e) => return Err(ImportError::Convert { origin: origin.to_owned(), source: e }),
    };
    let id = match ThemeId::parse(name) {
        Some(id) => id,
        None => return Err(ImportError::Name { name: name.to_owned() }),
    };
    proof {
        reveal_strlit(".toml");
        reveal_strlit("meta.author");
    }
    let mut file: Vec<char> = chars_of(name);
    push_str(&mut file, ".toml");
    let path = join(themes, string_of(file.as_slice()).as_str());
    let tokens = converted.tokens();
    let text = emit_theme(converted.name(), converted.variant(), tokens);
    let contents = imported(origin, text.as_str());
    let author = match converted.get(&known("meta.author")) {
        Some(a) => Some(a.to_owned()),
        None => None,
    };
    let result = Imported {
        id,
        path,
        origin: origin.to_owned(),
        name: converted.name().to_owned(),
        author,
        variant: converted.variant(),
        contents,
    };
    proof {
        tokens.lemma_sorted();
        let entries = tokens.view_entries();
        let lines = choose|lines: Seq<Line>|
            lines.to_multiset() == lines_of(entries).to_multiset() && in_order(lines) && text@ == theme_text(
                converted@.name,
                converted@.variant,
                lines,
            );
        assert(map_of(entries) == converted@.tokens && lines.to_multiset() == lines_of(entries).to_multiset());
        assert(emitted(origin@, converted@, result@.contents));
    }
    Ok(result)
}

/// Whether the theme may be written: a file already there is written over only by force.
pub fn writable(imported: &Imported, force: bool, exists: bool) -> (result: Result<(), ImportError>)
    ensures
        result is Err <==> !force && exists,
        result matches Err(e) ==> e@ == ImportErrorView::Exists(imported@.path),
{
    if !force && exists {
        Err(ImportError::Exists { path: imported.path.clone() })
    } else {
        Ok(())
    }
}

} // verus!
