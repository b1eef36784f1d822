//! The cached scheme collection: one directory per system under the cache, holding the
//! collection's files unchanged.
//!
//! A file that does not load costs the user that scheme and not the command, as a theme
//! that does not load does. Listing the directories and reading the files is the caller's.

use vstd::prelude::*;

use crate::import::author_of;
use crate::location::{join, join_spec};
use crate::path_map::{lemma_less_irreflexive, lemma_less_transitive, less_chars, text_less};
use crate::remote::{extension, extension_of, last_dot};
use crate::scheme::convert::{read_scheme, read_spec, ConvertError, ConvertErrorView};
use crate::scheme::{system_name, System};
use crate::text::{chars_of, push_str, string_of};
use crate::theme::{variant_text, Variant};
use crate::vocabulary::known;

verus! {

/// One entry of a system's directory, as the caller listed and read it.
#[derive(Debug)]
pub enum Listed {
    /// A file: its name, and its bytes or what reading them failed with.
    File { name: String, read: Result<Vec<u8>, String> },
    /// Anything that is not a file.
    Other { name: String },
}

/// A scheme file as plain values.
pub struct SchemeFileView {
    pub name: Seq<char>,
    pub read: Result<Seq<u8>, Seq<char>>,
}

/// What reading a scheme file gave, as plain values.
pub open spec fn bytes_view(read: Result<Vec<u8>, String>) -> Result<Seq<u8>, Seq<char>> {
    match read {
        Ok(bytes) => Ok(bytes@),
        Err(message) => Err(message@),
    }
}

/// Whether a file called `name` holds a scheme: it ends in `.yaml` or `.yml`.
pub open spec fn is_scheme_name(name: Seq<char>) -> bool {
    extension_of(name) == Some("yaml"@) || extension_of(name) == Some("yml"@)
}

/// The identifier a scheme file carries: its name before the extension, or all of it when
/// there is none.
pub open spec fn stem_of(name: Seq<char>) -> Seq<char> {
    let dot = last_dot(name, name.len() as int);
    if dot <= 0 {
        name
    } else {
        name.take(dot)
    }
}

/// The scheme files among `listed`, in listing order.
pub open spec fn scheme_files(listed: Seq<Listed>) -> Seq<SchemeFileView>
    decreases listed.len(),
{
    if listed.len() == 0 {
        Seq::empty()
    } else {
        let before = scheme_files(listed.drop_last());
        match listed.last() {
            Listed::File { name, read } => if is_scheme_name(name@) {
                before.push(SchemeFileView { name: name@, read: bytes_view(read) })
            } else {
                before
            },
            Listed::Other { .. } => before,
        }
    }
}

/// Whether `a` sorts before `b`: by identifier, and between two spellings of one identifier
/// by file name.
pub open spec fn scheme_before(a: Seq<char>, b: Seq<char>) -> bool {
    text_less(stem_of(a), stem_of(b)) || (stem_of(a) == stem_of(b) && text_less(a, b))
}

/// Whether no file of `files` sorts before the one in front of it.
pub open spec fn scheme_sorted(files: Seq<SchemeFileView>) -> bool {
    forall|k: int| 0 < k < files.len() ==> !scheme_before(#[trigger] files[k].name, files[k - 1].name)
}

/// A scheme of the cache: enough to find it by and to print it.
#[derive(Debug)]
pub struct Scheme {
    system: System,
    id: String,
    name: String,
    author: String,
    variant: Variant,
}

/// A scheme as plain values.
pub struct SchemeView {
    pub system: System,
    pub id: Seq<char>,
    pub name: Seq<char>,
    pub author: Seq<char>,
    pub variant: Variant,
}

impl View for Scheme {
    type V = SchemeView;

    closed spec fn view(&self) -> SchemeView {
        SchemeView {
            system: self.system,
            id: self.id@,
            name: self.name@,
            author: self.author@,
            variant: self.variant,
        }
    }
}

/// The qualified identifier of a scheme, `system/id`.
pub open spec fn qualified_spec(s: SchemeView) -> Seq<char> {
    system_name(s.system) + "/"@ + s.id
}

impl Scheme {
    /// The system the scheme is filed under.
    pub fn system(&self) -> (system: System)
        ensures
            system == self@.system,
    {
        self.system
    }

    /// The identifier, which is the file name minus its extension.
    pub fn id(&self) -> (id: &str)
        ensures
            id@ == self@.id,
    {
        self.id.as_str()
    }

    /// The display name the scheme carries.
    pub fn name(&self) -> (name: &str)
        ensures
            name@ == self@.name,
    {
        self.name.as_str()
    }

    /// Who the scheme credits itself to, or nothing.
    pub fn author(&self) -> (author: &str)
        ensures
            author@ == self@.author,
    {
        self.author.as_str()
    }

    /// The background the scheme is written for.
    pub fn variant(&self) -> (variant: Variant)
        ensures
            variant == self@.variant,
    {
        self.variant
    }

    /// `system/id`, the form that reaches the scheme again.
    pub fn qualified(&self) -> (text: String)
        ensures
            text@ == qualified_spec(self@),
    {
        proof {
            reveal_strlit("/");
        }
        let mut chars = chars_of(self.system.as_str());
        push_str(&mut chars, "/");
        push_str(&mut chars, self.id.as_str());
        string_of(chars.as_slice())
    }
}

/// A cached file could not be loaded as a scheme.
#[derive(Debug)]
pub enum SchemeError {
    /// The file could not be read.
    Read {
        /// The file.
        path: String,
        /// What the read failed with.
        message: String,
    },
    /// The file is not a scheme of its system.
    Convert {
        /// The file.
        path: String,
        /// Why it does not convert.
        source: ConvertError,
    },
}

/// A scheme error as plain values.
pub enum SchemeErrorView {
    Read(Seq<char>, Seq<char>),
    Convert(Seq<char>, ConvertErrorView),
}

impl View for SchemeError {
    type V = SchemeErrorView;

    open spec fn view(&self) -> SchemeErrorView {
        match self {
            SchemeError::Read { path, message } => SchemeErrorView::Read(path@, message@),
            SchemeError::Convert { path, source } => SchemeErrorView::Convert(path@, source@),
        }
    }
}

impl SchemeError {
    /// The file the error is about.
    pub fn path(&self) -> (path: &str)
        ensures
            path@ == match self@ {
                SchemeErrorView::Read(p, _) => p,
                SchemeErrorView::Convert(p, _) => p,
            },
    {
        match self {
            SchemeError::Read { path, .. } => path.as_str(),
            SchemeError::Convert { path, .. } => path.as_str(),
        }
    }

    /// The file, then what is wrong with it.
    pub fn message(&self) -> (text: String)
        ensures
            text@ == match self {
                SchemeError::Read { path, message } => path@ + ": "@ + message@,
                SchemeError::Convert { path, source } => path@ + ": "@ + crate::scheme::convert::convert_text(source@),
            },
    {
        proof {
            reveal_strlit(": ");
        }
        let mut chars: Vec<char> = Vec::new();
        match self {
            SchemeError::Read { path, message } => {
                push_str(&mut chars, path.as_str());
                push_str(&mut chars, ": ");
                push_str(&mut chars, message.as_str());
            },
            SchemeError::Convert { path, source } => {
                push_str(&mut chars, path.as_str());
                push_str(&mut chars, ": ");
                let text = source.message();
                push_str(&mut chars, text.as_str());
            },
        }
        string_of(chars.as_slice())
    }
}

/// What loading the file `file` of `system`'s directory under `directory` gives.
pub open spec fn load_spec(directory: Seq<char>, system: System, file: SchemeFileView) -> Result<
    SchemeView,
    SchemeErrorView,
> {
    let path = join_spec(join_spec(directory, system_name(system)), file.name);
    match file.read {
        Err(message) => Err(SchemeErrorView::Read(path, message)),
        Ok(bytes) => match read_spec(system, bytes) {
            Err(e) => Err(SchemeErrorView::Convert(path, e)),
            Ok(c) => Ok(
                SchemeView {
                    system,
                    id: stem_of(file.name),
                    name: c.name,
                    author: match author_of(c) {
                        Some(a) => a,
                        None => Seq::empty(),
                    },
                    variant: c.variant,
                },
            ),
        },
    }
}

/// What loading each of `files`, in order, gives.
pub open spec fn loads(directory: Seq<char>, system: System, files: Seq<SchemeFileView>) -> Seq<
    Result<SchemeView, SchemeErrorView>,
> {
    files.map_values(|f: SchemeFileView| load_spec(directory, system, f))
}

/// The schemes among `outcomes`, in order.
pub open spec fn schemes_of(outcomes: Seq<Result<SchemeView, SchemeErrorView>>) -> Seq<SchemeView>
    decreases outcomes.len(),
{
    if outcomes.len() == 0 {
        Seq::empty()
    } else {
        match outcomes.last() {
            Ok(s) => schemes_of(outcomes.drop_last()).push(s),
            Err(_) => schemes_of(outcomes.drop_last()),
        }
    }
}

/// The errors among `outcomes`, in order.
pub open spec fn errors_of(outcomes: Seq<Result<SchemeView, SchemeErrorView>>) -> Seq<SchemeErrorView>
    decreases outcomes.len(),
{
    if outcomes.len() == 0 {
        Seq::empty()
    } else {
        match outcomes.last() {
            Ok(_) => errors_of(outcomes.drop_last()),
            Err(e) => errors_of(outcomes.drop_last()).push(e),
        }
    }
}

/// A cached file that does not load costs that scheme and nothing else: the schemes and the
/// errors together account for every file read.
pub proof fn lemma_every_scheme_file_is_accounted_for(outcomes: Seq<Result<SchemeView, SchemeErrorView>>)
    ensures
        schemes_of(outcomes).len() + errors_of(outcomes).len() == outcomes.len(),
    decreases outcomes.len(),
{
    if outcomes.len() > 0 {
        lemma_every_scheme_file_is_accounted_for(outcomes.drop_last());
    }
}

/// The scheme files of one listing, as plain values.
pub open spec fn file_views(files: Seq<(String, Result<Vec<u8>, String>)>) -> Seq<SchemeFileView> {
    files.map_values(|f: (String, Result<Vec<u8>, String>)| SchemeFileView { name: f.0@, read: bytes_view(f.1) })
}

/// `scheme_before` never holds both ways.
proof fn lemma_before_asymmetric(a: Seq<char>, b: Seq<char>)
    ensures
        !(scheme_before(a, b) && scheme_before(b, a)),
{
    if text_less(stem_of(a), stem_of(b)) && text_less(stem_of(b), stem_of(a)) {
        lemma_less_transitive(stem_of(a), stem_of(b), stem_of(a));
        lemma_less_irreflexive(stem_of(a));
    }
    if text_less(stem_of(a), stem_of(b)) && stem_of(b) == stem_of(a) {
        lemma_less_irreflexive(stem_of(a));
    }
    if text_less(a, b) && text_less(b, a) {
        lemma_less_transitive(a, b, a);
        lemma_less_irreflexive(a);
    }
}

/// Whether a file called `name` holds a scheme.
fn scheme_name(name: &str) -> (found: bool)
    ensures
        found == is_scheme_name(name@),
{
    proof {
        reveal_strlit("yaml");
        reveal_strlit("yml");
    }
    let chars = chars_of(name);
    match extension(&chars) {
        Some(e) => {
            let yaml = chars_of("yaml");
            let yml = chars_of("yml");
            crate::text::same_chars(e.as_slice(), yaml.as_slice()) || crate::text::same_chars(
                e.as_slice(),
                yml.as_slice(),
            )
        },
        None => false,
    }
}

/// The identifier a scheme file carries.
fn stem(name: &str) -> (id: Vec<char>)
    ensures
        id@ == stem_of(name@),
{
    let chars = chars_of(name);
    let mut i: usize = chars.len();
    while i > 0 && chars[i - 1] != '.'
        invariant
            i <= chars@.len(),
            chars@ == name@,
            last_dot(name@, name@.len() as int) == last_dot(name@, i as int),
        decreases i,
    {
        i = i - 1;
    }
    let end: usize = if i <= 1 { chars.len() } else { i - 1 };
    proof {
        if i == 0 {
            assert(last_dot(name@, 0) == -1);
        } else {
            assert(last_dot(name@, i as int) == i - 1);
        }
    }
    let mut out: Vec<char> = Vec::new();
    let mut k: usize = 0;
    while k < end
        invariant
            k <= end <= chars@.len(),
            out@ == chars@.take(k as int),
        decreases end - k,
    {
        out.push(chars[k]);
        proof {
            assert(chars@.take(k + 1) =~= chars@.take(k as int).push(chars@[k as int]));
        }
        k = k + 1;
    }
    proof {
        assert(chars@.take(end as int) =~= stem_of(name@));
    }
    out
}

/// Whether the file called `a` sorts before the one called `b`.
fn before(a: &str, b: &str) -> (yes: bool)
    ensures
        yes == scheme_before(a@, b@),
{
    let sa = stem(a);
    let sb = stem(b);
    if less_chars(sa.as_slice(), sb.as_slice()) {
        return true;
    }
    if !crate::text::same_chars(sa.as_slice(), sb.as_slice()) {
        return false;
    }
    let ca = chars_of(a);
    let cb = chars_of(b);
    less_chars(ca.as_slice(), cb.as_slice())
}

/// The scheme files of `listed`, ordered by identifier.
fn sorted_scheme_files(listed: Vec<Listed>) -> (files: Vec<(String, Result<Vec<u8>, String>)>)
    ensures
        file_views(files@).to_multiset() == scheme_files(listed@).to_multiset(),
        scheme_sorted(file_views(files@)),
{
    let ghost all = listed@;
    let mut rest = listed;
    let total = rest.len();
    let mut out: Vec<(String, Result<Vec<u8>, String>)> = Vec::new();
    let mut k: usize = 0;
    proof {
        assert(all.take(0) =~= Seq::<Listed>::empty());
        assert(file_views(out@) =~= Seq::<SchemeFileView>::empty());
        assert(all.skip(0) =~= all);
    }
    while k < total
        invariant
            k <= all.len() <= usize::MAX,
            total == all.len(),
            rest@ == all.skip(k as int),
            file_views(out@).to_multiset() == scheme_files(all.take(k as int)).to_multiset(),
            scheme_sorted(file_views(out@)),
        decreases all.len() - k,
    {
        proof {
            assert(rest@.len() == all.len() - k);
        }
        let entry = rest.remove(0);
        proof {
            assert(entry == all[k as int]);
            assert(rest@ =~= all.skip(k + 1));
            assert(all.take(k + 1).drop_last() =~= all.take(k as int));
            assert(all.take(k + 1).last() == entry);
        }
        match entry {
            Listed::File { name, read } => {
                if scheme_name(name.as_str()) {
                    let ghost file = SchemeFileView { name: name@, read: bytes_view(read) };
                    let mut at: usize = out.len();
                    while at > 0
                        invariant
                            at <= out@.len(),
                            name@ == file.name,
                            forall|j: int| at <= j < out@.len() ==> scheme_before(file.name, #[trigger] out@[j].0@),
                        ensures
                            at <= out@.len(),
                            forall|j: int| at <= j < out@.len() ==> scheme_before(file.name, #[trigger] out@[j].0@),
                            at == 0 || !scheme_before(file.name, out@[at - 1].0@),
                        decreases at,
                    {
                        if !before(name.as_str(), out[at - 1].0.as_str()) {
                            break;
                        }
                        at = at - 1;
                    }
                    let ghost previous = file_views(out@);
                    out.insert(at, (name, read));
                    proof {
                        assert(file_views(out@) =~= previous.insert(at as int, file));
                        vstd::seq_lib::to_multiset_insert(previous, at as int, file);
                        vstd::seq_lib::to_multiset_build(scheme_files(all.take(k as int)), file);
                        let now = file_views(out@);
                        if at < previous.len() {
                            lemma_before_asymmetric(file.name, previous[at as int].name);
                        }
                        assert forall|j: int| 0 < j < now.len() implies !scheme_before(#[trigger] now[j].name, now[j - 1].name) by {
                            if j < at {
                                assert(now[j] == previous[j] && now[j - 1] == previous[j - 1]);
                            } else if j == at {
                                assert(now[j] == file && now[j - 1] == previous[j - 1]);
                            } else if j == at + 1 {
                                assert(now[j] == previous[at as int] && now[j - 1] == file);
                                assert(scheme_before(file.name, out@[j].0@));
                            } else {
                                assert(now[j] == previous[j - 1] && now[j - 1] == previous[j - 2]);
                            }
                        }
                    }
                }
            },
            Listed::Other { .. } => {},
        }
        k = k + 1;
    }
    proof {
        assert(all.take(all.len() as int) =~= all);
    }
    out
}

/// Loads one file of `system`'s directory under `directory`.
fn load(directory: &str, system: System, name: String, read: Result<Vec<u8>, String>) -> (result: Result<
    Scheme,
    SchemeError,
>)
    ensures
        match (result, load_spec(directory@, system, SchemeFileView { name: name@, read: bytes_view(read) })) {
            (Ok(s), Ok(expected)) => s@ == expected,
            (Err(e), Err(expected)) => e@ == expected,
            _ => false,
        },
{
    let inside = join(directory, system.as_str());
    let path = join(inside.as_str(), name.as_str());
    let bytes = match read {
        Ok(bytes) => bytes,
        Err(message) => return Err(SchemeError::Read { path, message }),
    };
    let converted = match read_scheme(system, bytes.as_slice()) {
        Ok(c) => c,
        Err(source) => return Err(SchemeError::Convert { path, source }),
    };
    proof {
        reveal_strlit("meta.author");
    }
    let author = match converted.get(&known("meta.author")) {
        Some(a) => a.to_owned(),
        None => String::new(),
    };
    let id = stem(name.as_str());
    Ok(Scheme {
        system,
        id: string_of(id.as_slice()),
        name: converted.name().to_owned(),
        author,
        variant: converted.variant(),
    })
}

/// The cache does not exist.
#[derive(Debug)]
pub enum CacheError {
    /// Nothing has been cached yet.
    Missing {
        /// Where the cache would be.
        path: String,
    },
}

impl CacheError {
    /// What the error says, and how to fill the cache.
    pub fn message(&self) -> (text: String)
        ensures
            text@ == match self {
                CacheError::Missing { path } => "no scheme cache under "@ + path@
                    + "\nrun `vanadis remote update` to fetch it"@,
            },
    {
        proof {
            reveal_strlit("no scheme cache under ");
            reveal_strlit("\nrun `vanadis remote update` to fetch it");
        }
        let mut chars: Vec<char> = Vec::new();
        match self {
            CacheError::Missing { path } => {
                push_str(&mut chars, "no scheme cache under ");
                push_str(&mut chars, path.as_str());
                push_str(&mut chars, "\nrun `vanadis remote update` to fetch it");
            },
        }
        string_of(chars.as_slice())
    }
}

/// Every scheme the cache holds, and every file in it that is not one.
#[derive(Debug)]
pub struct Cache {
    schemes: Vec<Scheme>,
    broken: Vec<SchemeError>,
}

/// Schemes as plain values.
pub open spec fn scheme_views(schemes: Seq<Scheme>) -> Seq<SchemeView> {
    schemes.map_values(|s: Scheme| s@)
}

/// Scheme errors as plain values.
pub open spec fn error_views(errors: Seq<SchemeError>) -> Seq<SchemeErrorView> {
    errors.map_values(|e: SchemeError| e@)
}

/// The system the `k`th listing is of.
pub open spec fn listed_system(k: int) -> System {
    if k == 0 {
        System::Base16
    } else if k == 1 {
        System::Base24
    } else {
        System::Tinted8
    }
}

/// What loading the listings `ordered` (sorted, system by system) gives, in order.
pub open spec fn cache_outcomes(directory: Seq<char>, ordered: Seq<Seq<SchemeFileView>>, k: int) -> Seq<
    Result<SchemeView, SchemeErrorView>,
>
    decreases k,
{
    if k <= 0 {
        Seq::empty()
    } else {
        cache_outcomes(directory, ordered, k - 1) + loads(directory, listed_system(k - 1), ordered[k - 1])
    }
}

/// The listing of the `k`th system, or nothing when the caller gave fewer.
pub open spec fn listing(listings: Seq<Vec<Listed>>, k: int) -> Seq<Listed> {
    if k < listings.len() {
        listings[k]@
    } else {
        Seq::empty()
    }
}

impl Cache {
    /// The schemes that loaded, as plain values.
    pub closed spec fn schemes_view(&self) -> Seq<SchemeView> {
        scheme_views(self.schemes@)
    }

    /// Why each of the other files is not a scheme, as plain values.
    pub closed spec fn broken_view(&self) -> Seq<SchemeErrorView> {
        error_views(self.broken@)
    }

    /// Loads every scheme under `directory`, in system then identifier order.
    ///
    /// `listings` is `None` when the cache directory is not there; otherwise the `k`th holds
    /// the entries of the `k`th system's directory (base16, base24, tinted8), read, and a
    /// system with no directory, or no listing, holds no scheme. Only files ending in
    /// `.yaml` or `.yml` are read, which keeps the collection's `LICENSE` out. Two spellings
    /// of one identifier sort by file name.
    pub fn scan(directory: &str, listings: Option<Vec<Vec<Listed>>>) -> (result: Result<Cache, CacheError>)
        ensures
            listings is None ==> (result matches Err(CacheError::Missing { path }) && path@ == directory@),
            listings matches Some(ls) ==> (result is Ok && exists|ordered: Seq<Seq<SchemeFileView>>|
                #![trigger cache_outcomes(directory@, ordered, 3)]
                {
                    &&& ordered.len() == 3
                    &&& forall|k: int|
                        0 <= k < 3 ==> (#[trigger] ordered[k]).to_multiset() == scheme_files(listing(ls@, k)).to_multiset()
                            && scheme_sorted(ordered[k])
                    &&& result->Ok_0.schemes_view() == schemes_of(cache_outcomes(directory@, ordered, 3))
                    &&& result->Ok_0.broken_view() == errors_of(cache_outcomes(directory@, ordered, 3))
                }),
    {
        let mut listings = match listings {
            Some(listings) => listings,
            None => return Err(CacheError::Missing { path: directory.to_owned() }),
        };
        let ghost given = listings@;
        let systems = System::all();
        let mut schemes: Vec<Scheme> = Vec::new();
        let mut broken: Vec<SchemeError> = Vec::new();
        let ghost mut ordered: Seq<Seq<SchemeFileView>> = Seq::empty();
        let mut k: usize = 0;
        proof {
            assert(scheme_views(schemes@) =~= schemes_of(cache_outcomes(directory@, ordered, 0)));
            assert(error_views(broken@) =~= errors_of(cache_outcomes(directory@, ordered, 0)));
            assert(listings@ =~= given.skip(0));
        }
        while k < 3
            invariant
                k <= 3,
                systems@ == seq![System::Base16, System::Base24, System::Tinted8],
                listings@ == if k < given.len() {
                    given.skip(k as int)
                } else {
                    Seq::<Vec<Listed>>::empty()
                },
                ordered.len() == k,
                forall|j: int|
                    0 <= j < k ==> (#[trigger] ordered[j]).to_multiset() == scheme_files(listing(given, j)).to_multiset()
                        && scheme_sorted(ordered[j]),
                scheme_views(schemes@) == schemes_of(cache_outcomes(directory@, ordered, k as int)),
                error_views(broken@) == errors_of(cache_outcomes(directory@, ordered, k as int)),
            decreases 3 - k,
        {
            let system = systems[k];
            let entries = if listings.len() > 0 {
                listings.remove(0)
            } else {
                Vec::new()
            };
            proof {
                assert(system == listed_system(k as int));
                assert(entries@ == listing(given, k as int));
                if k < given.len() {
                    assert(listings@ =~= given.skip(k + 1));
                }
            }
            let mut files = sorted_scheme_files(entries);
            let ghost order = file_views(files@);
            let ghost start = cache_outcomes(directory@, ordered, k as int);
            let total = files.len();
            let mut i: usize = 0;
            proof {
                assert(file_views(files@) =~= order.skip(0));
                assert(start + loads(directory@, system, order.take(0)) =~= start);
            }
            while i < total
                invariant
                    i <= order.len() <= usize::MAX,
                    total == order.len(),
                    file_views(files@) == order.skip(i as int),
                    scheme_views(schemes@) == schemes_of(start + loads(directory@, system, order.take(i as int))),
                    error_views(broken@) == errors_of(start + loads(directory@, system, order.take(i as int))),
                decreases order.len() - i,
            {
                let ghost before = file_views(files@);
                proof {
                    assert(before.len() == files@.len());
                    assert(order.skip(i as int).len() == order.len() - i);
                }
                let (name, read) = files.remove(0);
                let ghost file = SchemeFileView { name: name@, read: bytes_view(read) };
                proof {
                    assert(before[0] == file);
                    assert(order[i as int] == order.skip(i as int)[0]);
                    assert(file_views(files@) =~= before.drop_first());
                    assert(order.skip(i + 1) =~= order.skip(i as int).drop_first());
                }
                let result = load(directory, system, name, read);
                let ghost next = start + loads(directory@, system, order.take(i + 1));
                proof {
                    assert(loads(directory@, system, order.take(i + 1)) =~= loads(directory@, system, order.take(i as int)).push(
                        load_spec(directory@, system, file),
                    ));
                    assert(next.drop_last() =~= start + loads(directory@, system, order.take(i as int)));
                    assert(next.last() == load_spec(directory@, system, file));
                }
                match result {
                    Ok(scheme) => {
                        schemes.push(scheme);
                        proof {
                            assert(scheme_views(schemes@) =~= schemes_of(next));
                            assert(error_views(broken@) =~= errors_of(next));
                        }
                    },
                    Err(error) => {
                        broken.push(error);
                        proof {
                            assert(scheme_views(schemes@) =~= schemes_of(next));
                            assert(error_views(broken@) =~= errors_of(next));
                        }
                    },
                }
                i = i + 1;
            }
            proof {
                assert(order.take(order.len() as int) =~= order);
                let grown = ordered.push(order);
                assert(cache_outcomes(directory@, grown, k as int) =~= cache_outcomes(directory@, ordered, k as int)) by {
                    lemma_outcomes_prefix(directory@, ordered, grown, k as int);
                }
                assert(cache_outcomes(directory@, grown, k + 1) =~= start + loads(directory@, system, order));
                assert forall|j: int| 0 <= j < k + 1 implies (#[trigger] grown[j]).to_multiset() == scheme_files(listing(given, j)).to_multiset()
                    && scheme_sorted(grown[j]) by {
                    if j < k {
                        assert(grown[j] == ordered[j]);
                    }
                }
                ordered = grown;
            }
            k = k + 1;
        }
        Ok(Cache { schemes, broken })
    }

    /// The schemes that loaded, in system then identifier order.
    pub fn schemes(&self) -> (schemes: &Vec<Scheme>)
        ensures
            scheme_views(schemes@) == self.schemes_view(),
    {
        &self.schemes
    }

    /// Why each of the other files is not a scheme, in the same order.
    pub fn broken(&self) -> (broken: &Vec<SchemeError>)
        ensures
            error_views(broken@) == self.broken_view(),
    {
        &self.broken
    }
}

/// The outcomes of the first `k` listings depend on those listings alone.
proof fn lemma_outcomes_prefix(
    directory: Seq<char>,
    a: Seq<Seq<SchemeFileView>>,
    b: Seq<Seq<SchemeFileView>>,
    k: int,
)
    requires
        0 <= k <= a.len(),
        k <= b.len(),
        forall|j: int| 0 <= j < k ==> a[j] == b[j],
    ensures
        cache_outcomes(directory, a, k) == cache_outcomes(directory, b, k),
    decreases k,
{
    if k > 0 {
        lemma_outcomes_prefix(directory, a, b, k - 1);
    }
}

/// `text` with every character in lower case, as `str::to_lowercase` maps it.
pub uninterp spec fn lowercase(text: Seq<char>) -> Seq<char>;

/// Lowers `text` with `str::to_lowercase`, which maps each character by Unicode's lowercase
/// mapping. The mapping is named, not stated.
#[verifier::external_body]
fn lower(text: &str) -> (lowered: String)
    ensures
        lowered@ == lowercase(text@),
{
    text.to_lowercase()
}

/// Whether `needle` occurs in `hay`.
pub open spec fn holds_text(hay: Seq<char>, needle: Seq<char>) -> bool {
    exists|i: int| 0 <= i && i + needle.len() <= hay.len() && #[trigger] hay.subrange(i, i + needle.len()) == needle
}

/// Whether `needle` occurs in `hay`.
fn find_text(hay: &Vec<char>, needle: &Vec<char>) -> (found: bool)
    ensures
        found == holds_text(hay@, needle@),
{
    if needle.len() > hay.len() {
        return false;
    }
    let last = hay.len() - needle.len();
    let mut i: usize = 0;
    loop
        invariant
            i <= last,
            last == hay@.len() - needle@.len(),
            forall|j: int| 0 <= j < i ==> #[trigger] hay@.subrange(j, j + needle@.len()) != needle@,
        decreases last - i,
    {
        proof {
            assert(hay@.skip(i as int).len() >= needle@.len());
        }
        if crate::text::starts_with_at(hay.as_slice(), i, needle.as_slice()) {
            proof {
                assert(hay@.subrange(i as int, i + needle@.len()) =~= needle@);
            }
            return true;
        }
        proof {
            if hay@.subrange(i as int, i + needle@.len()) == needle@ {
                assert(crate::text::starts_with(hay@.skip(i as int), needle@)) by {
                    assert(hay@.skip(i as int).take(needle@.len() as int) =~= hay@.subrange(i as int, i + needle@.len()));
                }
            }
        }
        if i == last {
            proof {
                assert forall|j: int| 0 <= j && j + needle@.len() <= hay@.len() implies #[trigger] hay@.subrange(
                    j,
                    j + needle@.len(),
                ) != needle@ by {
                    assert(j <= last);
                    if j < i {
                        assert(hay@.subrange(j, j + needle@.len()) != needle@);
                    }
                }
            }
            return false;
        }
        i = i + 1;
    }
}

/// Whether the scheme `s` is one `query` finds: compared without case, the query occurs in
/// one of the columns a search prints, the qualified identifier, the variant, the name and
/// the author.
pub open spec fn matches_spec(s: SchemeView, query: Seq<char>) -> bool {
    let q = lowercase(query);
    ||| holds_text(lowercase(qualified_spec(s)), q)
    ||| holds_text(lowercase(variant_text(s.variant)), q)
    ||| holds_text(lowercase(s.name), q)
    ||| holds_text(lowercase(s.author), q)
}

/// The schemes of `schemes` that `query` finds, in order.
pub open spec fn found_spec(schemes: Seq<SchemeView>, query: Seq<char>) -> Seq<SchemeView>
    decreases schemes.len(),
{
    if schemes.len() == 0 {
        Seq::empty()
    } else if matches_spec(schemes.last(), query) {
        found_spec(schemes.drop_last(), query).push(schemes.last())
    } else {
        found_spec(schemes.drop_last(), query)
    }
}

impl Scheme {
    /// Whether `query` finds this scheme, compared without case against every column a
    /// search prints.
    pub fn matches(&self, query: &str) -> (found: bool)
        ensures
            found == matches_spec(self@, query@),
    {
        let q = chars_of(lower(query).as_str());
        let qualified = self.qualified();
        let columns = [
            lower(qualified.as_str()),
            lower(self.variant.as_str()),
            lower(self.name.as_str()),
            lower(self.author.as_str()),
        ];
        let c0 = chars_of(columns[0].as_str());
        let c1 = chars_of(columns[1].as_str());
        let c2 = chars_of(columns[2].as_str());
        let c3 = chars_of(columns[3].as_str());
        find_text(&c0, &q) || find_text(&c1, &q) || find_text(&c2, &q) || find_text(&c3, &q)
    }
}

impl Cache {
    /// Every scheme `query` finds, in the order the cache holds them.
    pub fn search(&self, query: &str) -> (found: Vec<&Scheme>)
        ensures
            found@.map_values(|s: &Scheme| s@) == found_spec(self.schemes_view(), query@),
    {
        let ghost all = scheme_views(self.schemes@);
        let mut found: Vec<&Scheme> = Vec::new();
        let mut i: usize = 0;
        proof {
            assert(all.take(0) =~= Seq::<SchemeView>::empty());
            assert(found@.map_values(|s: &Scheme| s@) =~= Seq::<SchemeView>::empty());
        }
        while i < self.schemes.len()
            invariant
                i <= self.schemes@.len(),
                all == scheme_views(self.schemes@),
                found@.map_values(|s: &Scheme| s@) == found_spec(all.take(i as int), query@),
            decreases self.schemes@.len() - i,
        {
            let scheme = &self.schemes[i];
            let ghost before = found@.map_values(|s: &Scheme| s@);
            proof {
                assert(all.take(i + 1).drop_last() =~= all.take(i as int));
                assert(all.take(i + 1).last() == scheme@);
            }
            if scheme.matches(query) {
                found.push(scheme);
                proof {
                    assert(found@.map_values(|s: &Scheme| s@) =~= before.push(scheme@));
                }
            }
            i = i + 1;
        }
        proof {
            assert(all.take(self.schemes@.len() as int) =~= all);
        }
        found
    }
}

} // verus!
