//! Where the entries of the tinted-theming collection's archive go in the scheme cache.
//!
//! Extraction is a whitelist of path shapes rather than a sanitising pass: an entry that
//! does not match one of the shapes is discarded, so nothing outside the cache is ever a
//! write target. Unpacking the archive and writing the files is the caller's.

use vstd::prelude::*;

use crate::scheme::System;
use crate::text::{chars_of, split_chars, split_on, string_of};

verus! {

/// The archive every scheme is read out of.
pub const SOURCE: &'static str = "https://github.com/tinted-theming/schemes/archive/refs/heads/spec-0.11.tar.gz";

/// Where one archive entry belongs in the cache, when it belongs anywhere.
#[derive(Debug, PartialEq, Eq)]
pub enum Destination {
    /// A scheme, under its system's directory, by its file name.
    Scheme(System, String),
    /// The collection's licence file.
    License,
}

/// A destination as plain values.
pub enum DestinationView {
    Scheme(System, Seq<char>),
    License,
}

/// The components of an archive path, or `None` when one of them is not an ordinary name:
/// a root, a leading `.`, or a `..`. Empty parts and interior `.` parts are no components.
pub open spec fn normal_parts(path: Seq<char>) -> Option<Seq<Seq<char>>> {
    let parts = split_on(path, '/');
    if path.len() > 0 && path[0] == '/' {
        None
    } else if parts[0] == seq!['.'] {
        None
    } else {
        let names = kept(parts);
        if names.contains(seq!['.', '.']) {
            None
        } else {
            Some(names)
        }
    }
}

/// The parts that name something: not empty, and not `.`.
pub open spec fn kept(parts: Seq<Seq<char>>) -> Seq<Seq<char>>
    decreases parts.len(),
{
    if parts.len() == 0 {
        parts
    } else {
        let before = kept(parts.drop_last());
        let part = parts.last();
        if part.len() > 0 && part != seq!['.'] {
            before.push(part)
        } else {
            before
        }
    }
}

/// The system a directory name names.
pub open spec fn system_of(name: Seq<char>) -> Option<System> {
    if name == "base16"@ {
        Some(System::Base16)
    } else if name == "base24"@ {
        Some(System::Base24)
    } else if name == "tinted8"@ {
        Some(System::Tinted8)
    } else {
        None
    }
}

/// Where the last `.` of `s` stands before `i`, or `-1`.
pub open spec fn last_dot(s: Seq<char>, i: int) -> int
    decreases i,
{
    if i <= 0 {
        -1
    } else if s[i - 1] == '.' {
        i - 1
    } else {
        last_dot(s, i - 1)
    }
}

/// The extension of a file name: after its last `.`, unless there is none or the name
/// starts with it.
pub open spec fn extension_of(name: Seq<char>) -> Option<Seq<char>> {
    let dot = last_dot(name, name.len() as int);
    if dot > 0 {
        Some(name.skip(dot + 1))
    } else {
        None
    }
}

/// Where the archive entry at `path` belongs in the cache.
pub open spec fn destination_spec(path: Seq<char>) -> Option<DestinationView> {
    match normal_parts(path) {
        None => None,
        Some(parts) => if parts.len() == 3 {
            match (system_of(parts[1]), extension_of(parts[2])) {
                (Some(system), Some(extension)) => if extension == "yaml"@ || extension == "yml"@ {
                    Some(DestinationView::Scheme(system, parts[2]))
                } else {
                    None
                },
                _ => None,
            }
        } else if parts.len() == 2 && parts[1] == "LICENSE"@ {
            Some(DestinationView::License)
        } else {
            None
        },
    }
}

/// A destination's view.
pub open spec fn destination_view(d: Option<Destination>) -> Option<DestinationView> {
    match d {
        Some(Destination::Scheme(system, file)) => Some(DestinationView::Scheme(system, file@)),
        Some(Destination::License) => Some(DestinationView::License),
        None => None,
    }
}

/// Whether `a` and `b` hold the same characters as `b` spells.
fn is(a: &Vec<char>, b: &str) -> (same: bool)
    ensures
        same == (a@ == b@),
{
    let b = chars_of(b);
    crate::text::same_chars(a.as_slice(), b.as_slice())
}

/// The system a directory name names.
fn system(name: &Vec<char>) -> (system: Option<System>)
    ensures
        system == system_of(name@),
{
    proof {
        reveal_strlit("base16");
        reveal_strlit("base24");
        reveal_strlit("tinted8");
    }
    if is(name, "base16") {
        Some(System::Base16)
    } else if is(name, "base24") {
        Some(System::Base24)
    } else if is(name, "tinted8") {
        Some(System::Tinted8)
    } else {
        None
    }
}

/// The extension of a file name.
pub(crate) fn extension(name: &Vec<char>) -> (found: Option<Vec<char>>)
    ensures
        match found {
            Some(e) => extension_of(name@) == Some(e@),
            None => extension_of(name@) is None,
        },
{
    let mut i: usize = name.len();
    while i > 0 && name[i - 1] != '.'
        invariant
            i <= name@.len(),
            last_dot(name@, name@.len() as int) == last_dot(name@, i as int),
        decreases i,
    {
        i = i - 1;
    }
    if i <= 1 {
        proof {
            if i == 1 {
                assert(last_dot(name@, 1) == 0);
            }
        }
        return None;
    }
    proof {
        assert(last_dot(name@, i as int) == i - 1);
    }
    let mut out: Vec<char> = Vec::new();
    let mut k: usize = i;
    while k < name.len()
        invariant
            i <= k <= name@.len(),
            out@ == name@.subrange(i as int, k as int),
        decreases name@.len() - k,
    {
        out.push(name[k]);
        proof {
            assert(name@.subrange(i as int, k + 1) =~= name@.subrange(i as int, k as int).push(name@[k as int]));
        }
        k = k + 1;
    }
    proof {
        assert(out@ =~= name@.skip(i as int));
    }
    Some(out)
}

/// The ordinary names `path` is made of, or `None` when one of its components is not one.
fn names(path: &str) -> (found: Option<Vec<Vec<char>>>)
    ensures
        match found {
            Some(parts) => normal_parts(path@) == Some(parts@.map_values(|p: Vec<char>| p@)),
            None => normal_parts(path@) is None,
        },
{
    let chars = chars_of(path);
    if chars.len() > 0 && chars[0] == '/' {
        return None;
    }
    let parts = split_chars(chars.as_slice(), '/');
    let ghost views = parts@.map_values(|p: Vec<char>| p@);
    proof {
        crate::text::lemma_split_on_len(path@, '/');
    }
    if parts[0].len() == 1 && parts[0][0] == '.' {
        proof {
            assert(views[0] =~= seq!['.']);
        }
        return None;
    }
    proof {
        if views[0] == seq!['.'] {
            assert(views[0].len() == 1 && views[0][0] == '.');
        }
    }
    let mut out: Vec<Vec<char>> = Vec::new();
    let mut i: usize = 0;
    proof {
        assert(views.take(0) =~= Seq::<Seq<char>>::empty());
    }
    while i < parts.len()
        invariant
            i <= parts@.len(),
            views == parts@.map_values(|p: Vec<char>| p@),
            views == split_on(path@, '/'),
            views.len() > 0,
            views[0] != seq!['.'],
            !(path@.len() > 0 && path@[0] == '/'),
            out@.map_values(|p: Vec<char>| p@) == kept(views.take(i as int)),
            !kept(views.take(i as int)).contains(seq!['.', '.']),
        decreases parts@.len() - i,
    {
        let part = &parts[i];
        let dot = part.len() == 1 && part[0] == '.';
        let dots = part.len() == 2 && part[0] == '.' && part[1] == '.';
        let ghost before = out@.map_values(|p: Vec<char>| p@);
        proof {
            assert(views.take(i + 1).drop_last() =~= views.take(i as int));
            assert(views.take(i + 1).last() == part@);
            if dot {
                assert(part@ =~= seq!['.']);
            } else if part@ == seq!['.'] {
                assert(part@.len() == 1 && part@[0] == '.');
            }
            if dots {
                assert(part@ =~= seq!['.', '.']);
            } else if part@ == seq!['.', '.'] {
                assert(part@.len() == 2 && part@[0] == '.' && part@[1] == '.');
            }
        }
        if dots {
            proof {
                let now = kept(views.take(i + 1));
                assert(now == before.push(part@));
                assert(now[now.len() - 1] == seq!['.', '.']);
                lemma_kept_grows(views, i as int + 1, parts@.len() as int);
                assert(views.take(parts@.len() as int) =~= views);
            }
            return None;
        }
        if part.len() > 0 && !dot {
            out.push(part.clone());
            proof {
                assert(out@.map_values(|p: Vec<char>| p@) =~= before.push(part@));
                assert forall|k: int| 0 <= k < before.push(part@).len() implies before.push(part@)[k] != seq!['.', '.'] by {
                    if k < before.len() {
                        assert(before[k] == before.push(part@)[k]);
                    }
                }
            }
        }
        i = i + 1;
    }
    proof {
        assert(views.take(parts@.len() as int) =~= views);
    }
    Some(out)
}

/// Once a `..` is kept, it stays kept.
proof fn lemma_kept_grows(parts: Seq<Seq<char>>, i: int, n: int)
    requires
        0 <= i <= n <= parts.len(),
        kept(parts.take(i)).contains(seq!['.', '.']),
    ensures
        kept(parts.take(n)).contains(seq!['.', '.']),
    decreases n - i,
{
    if i < n {
        let next = kept(parts.take(i + 1));
        assert(parts.take(i + 1).drop_last() =~= parts.take(i));
        let j = choose|j: int| 0 <= j < kept(parts.take(i)).len() && kept(parts.take(i))[j] == seq!['.', '.'];
        assert(next[j] == seq!['.', '.']);
        lemma_kept_grows(parts, i + 1, n);
    } else {
        assert(parts.take(n) == parts.take(i));
    }
}

/// Where the archive entry at `path` belongs in the cache, or `None` when the archive should
/// not have it.
///
/// Every component must be an ordinary name, so `..`, a leading `.` and a root all fail
/// before anything is matched, and the shapes accept exactly one leading directory.
pub fn destination(path: &str) -> (found: Option<Destination>)
    ensures
        destination_view(found) == destination_spec(path@),
{
    proof {
        reveal_strlit("yaml");
        reveal_strlit("yml");
        reveal_strlit("LICENSE");
    }
    let parts = match names(path) {
        Some(parts) => parts,
        None => return None,
    };
    let ghost views = parts@.map_values(|p: Vec<char>| p@);
    if parts.len() == 3 {
        proof {
            assert(views[1] == parts@[1]@ && views[2] == parts@[2]@);
        }
        let system = match system(&parts[1]) {
            Some(system) => system,
            None => return None,
        };
        let extension = match extension(&parts[2]) {
            Some(extension) => extension,
            None => return None,
        };
        if is(&extension, "yaml") || is(&extension, "yml") {
            return Some(Destination::Scheme(system, string_of(parts[2].as_slice())));
        }
        return None;
    }
    if parts.len() == 2 {
        proof {
            assert(views[1] == parts@[1]@);
        }
        if is(&parts[1], "LICENSE") {
            return Some(Destination::License);
        }
    }
    None
}

/// A scheme's destination is one file directly inside its system's directory: an ordinary
/// name, with no separator in it, that is neither `.` nor `..`.
pub proof fn lemma_destination_stays_in_the_cache(path: Seq<char>)
    ensures
        destination_spec(path) matches Some(DestinationView::Scheme(_, file)) ==> {
            &&& file.len() > 0
            &&& !file.contains('/')
            &&& file != seq!['.']
            &&& file != seq!['.', '.']
        },
{
    if let Some(parts) = normal_parts(path) {
        if parts.len() == 3 {
            let split = split_on(path, '/');
            lemma_kept_names(split);
            lemma_split_has_no_separator(path);
            assert(split.len() > 0);
            let file = parts[2];
            assert(kept(split).contains(file) ==> split.contains(file)) by {
                lemma_kept_from(split);
            }
            assert(kept(split)[2] == file);
            assert(kept(split).contains(file));
            let j = choose|j: int| 0 <= j < split.len() && split[j] == file;
            assert(!split[j].contains('/'));
            assert(!parts.contains(seq!['.', '.']));
            if file == seq!['.', '.'] {
                assert(parts[2] == seq!['.', '.']);
            }
        }
    }
}

/// A kept part is neither empty nor `.`.
proof fn lemma_kept_names(parts: Seq<Seq<char>>)
    ensures
        forall|i: int| 0 <= i < kept(parts).len() ==> (#[trigger] kept(parts)[i]).len() > 0 && kept(parts)[i] != seq!['.'],
    decreases parts.len(),
{
    if parts.len() > 0 {
        lemma_kept_names(parts.drop_last());
        let before = kept(parts.drop_last());
        assert forall|i: int| 0 <= i < kept(parts).len() implies (#[trigger] kept(parts)[i]).len() > 0
            && kept(parts)[i] != seq!['.'] by {
            if i < before.len() {
                assert(kept(parts)[i] == before[i]);
            }
        }
    }
}

/// Every kept part is one of the parts.
proof fn lemma_kept_from(parts: Seq<Seq<char>>)
    ensures
        forall|i: int| 0 <= i < kept(parts).len() ==> parts.contains(#[trigger] kept(parts)[i]),
    decreases parts.len(),
{
    if parts.len() > 0 {
        lemma_kept_from(parts.drop_last());
        let before = kept(parts.drop_last());
        assert forall|i: int| 0 <= i < kept(parts).len() implies parts.contains(#[trigger] kept(parts)[i]) by {
            if i < before.len() {
                let j = choose|j: int| 0 <= j < parts.drop_last().len() && parts.drop_last()[j] == before[i];
                assert(parts[j] == before[i]);
            } else {
                assert(parts[parts.len() - 1] == parts.last());
            }
        }
    }
}

/// No part a split makes holds the separator.
proof fn lemma_split_has_no_separator(s: Seq<char>)
    ensures
        forall|i: int| 0 <= i < split_on(s, '/').len() ==> !(#[trigger] split_on(s, '/')[i]).contains('/'),
    decreases s.len(),
{
    if s.len() > 0 {
        lemma_split_has_no_separator(s.drop_last());
        crate::text::lemma_split_on_len(s.drop_last(), '/');
        let before = split_on(s.drop_last(), '/');
        if s.last() != '/' {
            let last = before.last().push(s.last());
            assert forall|k: int| 0 <= k < last.len() implies last[k] != '/' by {
                if k < before.last().len() {
                    assert(last[k] == before.last()[k]);
                    assert(before[before.len() - 1] == before.last());
                }
            }
            assert(!last.contains('/'));
        } else {
            assert(!Seq::<char>::empty().contains('/'));
        }
    }
}

/// How many schemes one install wrote for each system.
#[derive(Debug)]
pub struct Installed {
    counts: [usize; 3],
}

/// Where a system's count is kept.
pub open spec fn slot(system: System) -> int {
    match system {
        System::Base16 => 0,
        System::Base24 => 1,
        System::Tinted8 => 2,
    }
}

impl Installed {
    /// Nothing written yet.
    pub fn new() -> (installed: Installed)
        ensures
            forall|s: System| #[trigger] installed.count_spec(s) == 0,
    {
        Installed { counts: [0, 0, 0] }
    }

    /// How many were written for `system`, as contracts read it.
    pub closed spec fn count_spec(&self, system: System) -> nat {
        self.counts@[slot(system)] as nat
    }

    /// One more scheme written for `system`.
    pub fn add(&mut self, system: System)
        requires
            old(self).count_spec(system) < usize::MAX,
        ensures
            final(self).count_spec(system) == old(self).count_spec(system) + 1,
            forall|s: System| s != system ==> #[trigger] final(self).count_spec(s) == old(self).count_spec(s),
    {
        let i: usize = match system {
            System::Base16 => 0,
            System::Base24 => 1,
            System::Tinted8 => 2,
        };
        self.counts[i] = self.counts[i] + 1;
    }

    /// How many schemes were written for `system`.
    pub fn count(&self, system: System) -> (n: usize)
        ensures
            n == self.count_spec(system),
    {
        match system {
            System::Base16 => self.counts[0],
            System::Base24 => self.counts[1],
            System::Tinted8 => self.counts[2],
        }
    }

    /// How many schemes were written in all.
    pub fn total(&self) -> (n: u128)
        ensures
            n == self.count_spec(System::Base16) + self.count_spec(System::Base24) + self.count_spec(
                System::Tinted8,
            ),
    {
        self.counts[0] as u128 + self.counts[1] as u128 + self.counts[2] as u128
    }
}

/// What reading the gzipped tar `bytes` gives: each entry in archive order, as whether it is
/// a regular file and, for a regular file, its path when its bytes are UTF-8 and its
/// contents; or what the reading failed with.
pub uninterp spec fn archive_entries(bytes: Seq<u8>) -> Result<Seq<(bool, Option<Seq<char>>, Seq<u8>)>, Seq<char>>;

/// Archive entries as plain values.
pub open spec fn entries_view(entries: Result<Vec<(bool, Option<String>, Vec<u8>)>, String>) -> Result<
    Seq<(bool, Option<Seq<char>>, Seq<u8>)>,
    Seq<char>,
> {
    match entries {
        Ok(list) => Ok(
            list@.map_values(
                |e: (bool, Option<String>, Vec<u8>)|
                    (
                        e.0,
                        match e.1 {
                            Some(p) => Some(p@),
                            None => None,
                        },
                        e.2@,
                    ),
            ),
        ),
        Err(message) => Err(message@),
    }
}

/// Reads the gzipped tar `archive` with `flate2`'s `GzDecoder` under `tar::Archive`, in
/// order: for every entry whether it is a regular file, and for a regular file its path's
/// bytes (`Entry::path_bytes`) read as UTF-8 text when they are, and its contents; or the
/// first error as its text. A path's bytes and their UTF-8 reading are the same on every
/// platform, so the result is a function of the bytes alone and is named, not stated.
#[verifier::external_body]
fn read_archive(archive: &[u8]) -> (entries: Result<Vec<(bool, Option<String>, Vec<u8>)>, String>)
    ensures
        entries_view(entries) == archive_entries(archive@),
{
    let mut tar = tar::Archive::new(flate2::read::GzDecoder::new(archive));
    let mut out = Vec::new();
    for entry in tar.entries().map_err(|e| e.to_string())? {
        let mut entry = entry.map_err(|e| e.to_string())?;
        let (file, mut body) = (entry.header().entry_type().is_file(), Vec::new());
        let path = if file { String::from_utf8(entry.path_bytes().into_owned()).ok() } else { None };
        if file {
            std::io::Read::read_to_end(&mut entry, &mut body).map_err(|e| e.to_string())?;
        }
        out.push((file, path, body));
    }
    Ok(out)
}

/// The collection could not be unpacked.
#[derive(Debug)]
pub enum RemoteError {
    /// The archive could not be read as a gzipped tar.
    Archive {
        /// Where the archive came from.
        url: String,
        /// What reading it failed on.
        message: String,
    },
    /// The archive was read but holds no scheme.
    Empty {
        /// Where the archive came from.
        url: String,
    },
}

/// A remote error as plain values.
pub enum RemoteErrorView {
    Archive(Seq<char>, Seq<char>),
    Empty(Seq<char>),
}

impl View for RemoteError {
    type V = RemoteErrorView;

    open spec fn view(&self) -> RemoteErrorView {
        match self {
            RemoteError::Archive { url, message } => RemoteErrorView::Archive(url@, message@),
            RemoteError::Empty { url } => RemoteErrorView::Empty(url@),
        }
    }
}

/// The sentence a remote error is reported with.
pub open spec fn remote_text(e: RemoteErrorView) -> Seq<char> {
    match e {
        RemoteErrorView::Archive(url, message) => url + ": not a readable archive: "@ + message,
        RemoteErrorView::Empty(url) => url + ": the archive holds no scheme"@,
    }
}

impl RemoteError {
    /// The sentence the error is reported with.
    pub fn message(&self) -> (text: String)
        ensures
            text@ == remote_text(self@),
    {
        proof {
            reveal_strlit(": not a readable archive: ");
            reveal_strlit(": the archive holds no scheme");
        }
        let mut chars: Vec<char> = Vec::new();
        match self {
            RemoteError::Archive { url, message } => {
                crate::text::push_str(&mut chars, url.as_str());
                crate::text::push_str(&mut chars, ": not a readable archive: ");
                crate::text::push_str(&mut chars, message.as_str());
            },
            RemoteError::Empty { url } => {
                crate::text::push_str(&mut chars, url.as_str());
                crate::text::push_str(&mut chars, ": the archive holds no scheme");
            },
        }
        proof {
            assert(chars@ =~= remote_text(self@));
        }
        string_of(chars.as_slice())
    }
}

/// Where in the cache a destination is written, relative to the cache.
pub open spec fn target_spec(d: DestinationView) -> Seq<char> {
    match d {
        DestinationView::Scheme(system, file) => crate::scheme::system_name(system) + "/"@ + file,
        DestinationView::License => "LICENSE"@,
    }
}

/// The scheme system a destination files a scheme under.
pub open spec fn system_of_destination(d: DestinationView) -> Option<System> {
    match d {
        DestinationView::Scheme(system, _) => Some(system),
        DestinationView::License => None,
    }
}

/// The entries of an archive that the cache keeps, in archive order: where each goes, what
/// it holds, and the system it is a scheme of. Only regular files with a textual path that
/// the whitelist places are kept.
pub open spec fn kept_entries(entries: Seq<(bool, Option<Seq<char>>, Seq<u8>)>) -> Seq<
    (Seq<char>, Seq<u8>, Option<System>),
>
    decreases entries.len(),
{
    if entries.len() == 0 {
        Seq::empty()
    } else {
        let before = kept_entries(entries.drop_last());
        let (file, path, body) = entries.last();
        match path {
            Some(p) => if file && destination_spec(p) is Some {
                let d = destination_spec(p)->0;
                before.push((target_spec(d), body, system_of_destination(d)))
            } else {
                before
            },
            None => before,
        }
    }
}

/// How many of `kept` are schemes of `system`.
pub open spec fn scheme_count(kept: Seq<(Seq<char>, Seq<u8>, Option<System>)>, system: System) -> nat
    decreases kept.len(),
{
    if kept.len() == 0 {
        0
    } else {
        scheme_count(kept.drop_last(), system) + if kept.last().2 == Some(system) {
            1nat
        } else {
            0nat
        }
    }
}

/// How many of `kept` are schemes of any system.
pub open spec fn scheme_total(kept: Seq<(Seq<char>, Seq<u8>, Option<System>)>) -> nat {
    scheme_count(kept, System::Base16) + scheme_count(kept, System::Base24) + scheme_count(kept, System::Tinted8)
}

/// What an archive unpacks to: the files the cache is made of, each where it goes relative
/// to the cache, and how many schemes each system got.
#[derive(Debug)]
pub struct Unpacked {
    files: Vec<(String, Vec<u8>)>,
    installed: Installed,
}

impl Unpacked {
    /// The files, as plain values.
    pub closed spec fn files_view(&self) -> Seq<(Seq<char>, Seq<u8>)> {
        self.files@.map_values(|f: (String, Vec<u8>)| (f.0@, f.1@))
    }

    /// How many schemes `system` got, as contracts read it.
    pub closed spec fn count_view(&self, system: System) -> nat {
        self.installed.count_spec(system)
    }

    /// The files the cache is made of, each with where it goes relative to the cache.
    pub fn files(&self) -> (files: &Vec<(String, Vec<u8>)>)
        ensures
            files@.map_values(|f: (String, Vec<u8>)| (f.0@, f.1@)) == self.files_view(),
    {
        &self.files
    }

    /// How many schemes each system got.
    pub fn installed(&self) -> (installed: &Installed)
        ensures
            forall|s: System| #[trigger] installed.count_spec(s) == self.count_view(s),
    {
        &self.installed
    }
}

/// What unpacking the archive `bytes` gives.
pub open spec fn unpacked(bytes: Seq<u8>, result: Result<Unpacked, RemoteError>) -> bool {
    match archive_entries(bytes) {
        Err(message) => result matches Err(e) && e@ == RemoteErrorView::Archive(SOURCE@, message),
        Ok(entries) => {
            let kept = kept_entries(entries);
            if scheme_total(kept) == 0 {
                result matches Err(e) && e@ == RemoteErrorView::Empty(SOURCE@)
            } else {
                &&& result is Ok
                &&& result->Ok_0.files_view() == kept.map_values(
                    |k: (Seq<char>, Seq<u8>, Option<System>)| (k.0, k.1),
                )
                &&& forall|s: System| #[trigger] result->Ok_0.count_view(s) == scheme_count(kept, s)
            }
        },
    }
}

/// The files a fetched archive puts in the cache.
///
/// The collection wraps everything in one leading directory, which is dropped; every entry
/// that is not a regular file, or that the whitelist does not place, is discarded. An archive
/// that places no scheme at all is an error, so a cache is never replaced by one that holds
/// none. Writing the files is the caller's.
pub fn unpack(archive: &[u8]) -> (result: Result<Unpacked, RemoteError>)
    ensures
        unpacked(archive@, result),
{
    let entries = match read_archive(archive) {
        Ok(entries) => entries,
        Err(message) => return Err(RemoteError::Archive { url: SOURCE.to_owned(), message }),
    };
    let ghost all = match entries_view(Ok(entries)) {
        Ok(list) => list,
        Err(_) => Seq::empty(),
    };
    let mut files: Vec<(String, Vec<u8>)> = Vec::new();
    let mut installed = Installed::new();
    let mut i: usize = 0;
    proof {
        assert(all.take(0) =~= Seq::<(bool, Option<Seq<char>>, Seq<u8>)>::empty());
        assert(files@.map_values(|f: (String, Vec<u8>)| (f.0@, f.1@)) =~= Seq::<(Seq<char>, Seq<u8>)>::empty());
    }
    while i < entries.len()
        invariant
            i <= entries@.len(),
            all.len() == entries@.len(),
            forall|j: int| 0 <= j < all.len() ==> #[trigger] all[j] == (
                entries@[j].0,
                match entries@[j].1 {
                    Some(p) => Some(p@),
                    None => None,
                },
                entries@[j].2@,
            ),
            files@.map_values(|f: (String, Vec<u8>)| (f.0@, f.1@)) == kept_entries(all.take(i as int)).map_values(
                |k: (Seq<char>, Seq<u8>, Option<System>)| (k.0, k.1),
            ),
            forall|s: System| #[trigger] installed.count_spec(s) == scheme_count(kept_entries(all.take(i as int)), s),
            forall|s: System| #[trigger] installed.count_spec(s) <= i,
        decreases entries@.len() - i,
    {
        let (file, path, body) = &entries[i];
        let ghost previous = kept_entries(all.take(i as int));
        let ghost before = files@.map_values(|f: (String, Vec<u8>)| (f.0@, f.1@));
        proof {
            assert(all.take(i + 1).drop_last() =~= all.take(i as int));
            assert(all.take(i + 1).last() == all[i as int]);
        }
        if *file {
            if let Some(path) = path {
                match destination(path.as_str()) {
                    Some(d) => {
                        let target = match &d {
                            Destination::Scheme(system, name) => {
                                let mut chars = crate::text::chars_of(system.as_str());
                                proof {
                                    reveal_strlit("/");
                                }
                                crate::text::push_str(&mut chars, "/");
                                crate::text::push_str(&mut chars, name.as_str());
                                string_of(chars.as_slice())
                            },
                            Destination::License => {
                                proof {
                                    reveal_strlit("LICENSE");
                                }
                                "LICENSE".to_owned()
                            },
                        };
                        let ghost dv = destination_view(Some(d))->0;
                        proof {
                            assert(target@ == target_spec(dv));
                        }
                        files.push((target, body.clone()));
                        if let Destination::Scheme(system, _) = d {
                            installed.add(system);
                        }
                        proof {
                            let now = kept_entries(all.take(i + 1));
                            assert(now == previous.push((target_spec(dv), body@, system_of_destination(dv))));
                            assert(files@.map_values(|f: (String, Vec<u8>)| (f.0@, f.1@)) =~= before.push(
                                (target_spec(dv), body@),
                            ));
                            assert(now.map_values(|k: (Seq<char>, Seq<u8>, Option<System>)| (k.0, k.1)) =~= previous.map_values(
                                |k: (Seq<char>, Seq<u8>, Option<System>)| (k.0, k.1),
                            ).push((target_spec(dv), body@)));
                            assert(now.drop_last() == previous);
                        }
                    },
                    None => {},
                }
            }
        }
        i = i + 1;
    }
    proof {
        assert(all.take(entries@.len() as int) =~= all);
    }
    if installed.total() == 0 {
        return Err(RemoteError::Empty { url: SOURCE.to_owned() });
    }
    Ok(Unpacked { files, installed })
}

/// Nothing an archive unpacks to is written outside the cache: every kept file is the
/// licence, or one ordinary file name directly inside a system's directory.
pub proof fn lemma_unpacked_stays_in_the_cache(entries: Seq<(bool, Option<Seq<char>>, Seq<u8>)>, k: int)
    requires
        0 <= k < kept_entries(entries).len(),
    ensures
        kept_entries(entries)[k].0 == "LICENSE"@ || exists|system: System, file: Seq<char>|
            {
                &&& #[trigger] kept_entries(entries)[k].0 == crate::scheme::system_name(system) + "/"@ + file
                &&& file.len() > 0
                &&& !file.contains('/')
                &&& file != seq!['.']
                &&& file != seq!['.', '.']
            },
    decreases entries.len(),
{
    let before = kept_entries(entries.drop_last());
    if k < before.len() {
        lemma_unpacked_stays_in_the_cache(entries.drop_last(), k);
        assert(kept_entries(entries)[k] == before[k]);
    } else {
        let (file, path, body) = entries.last();
        let p = path->0;
        let d = destination_spec(p)->0;
        lemma_destination_stays_in_the_cache(p);
        match d {
            DestinationView::Scheme(system, name) => {
                assert(kept_entries(entries)[k].0 == crate::scheme::system_name(system) + "/"@ + name);
            },
            DestinationView::License => {},
        }
    }
}

/// Whether `path`, relative to the cache, is where the cache keeps a file: `LICENSE`, or a
/// scheme of `system` as `<system>/<file>` with `file` ending in `.yaml` or `.yml`.
pub open spec fn cache_file(path: Seq<char>, system: Option<System>) -> bool {
    ||| path == "LICENSE"@ && system is None
    ||| exists|file: Seq<char>|
        system is Some && path == crate::scheme::system_name(system->0) + "/"@ + file && (#[trigger] extension_of(file)
            == Some("yaml"@) || extension_of(file) == Some("yml"@))
}

/// How many of `kept` are schemes.
pub open spec fn scheme_files(kept: Seq<(Seq<char>, Seq<u8>, Option<System>)>) -> nat
    decreases kept.len(),
{
    if kept.len() == 0 {
        0
    } else {
        scheme_files(kept.drop_last()) + if kept.last().2 is Some {
            1nat
        } else {
            0nat
        }
    }
}

proof fn lemma_scheme_total(kept: Seq<(Seq<char>, Seq<u8>, Option<System>)>)
    ensures
        scheme_total(kept) == scheme_files(kept),
    decreases kept.len(),
{
    if kept.len() > 0 {
        lemma_scheme_total(kept.drop_last());
        let d = kept.drop_last();
        assert(scheme_count(kept, System::Base16) == scheme_count(d, System::Base16) + if kept.last().2 == Some(System::Base16) { 1nat } else { 0nat });
        assert(scheme_count(kept, System::Base24) == scheme_count(d, System::Base24) + if kept.last().2 == Some(System::Base24) { 1nat } else { 0nat });
        assert(scheme_count(kept, System::Tinted8) == scheme_count(d, System::Tinted8) + if kept.last().2 == Some(System::Tinted8) { 1nat } else { 0nat });
        match kept.last().2 {
            Some(System::Base16) => {},
            Some(System::Base24) => {},
            Some(System::Tinted8) => {},
            None => {},
        }
    }
}

proof fn lemma_kept_entries_placed(entries: Seq<(bool, Option<Seq<char>>, Seq<u8>)>)
    ensures
        forall|k: int| 0 <= k < kept_entries(entries).len() ==> cache_file(#[trigger] kept_entries(entries)[k].0, kept_entries(entries)[k].2),
    decreases entries.len(),
{
    if entries.len() > 0 {
        lemma_kept_entries_placed(entries.drop_last());
        let before = kept_entries(entries.drop_last());
        let all = kept_entries(entries);
        let (file, path, body) = entries.last();
        if path is Some && file && destination_spec(path->0) is Some {
            let d = destination_spec(path->0)->0;
            assert(all == before.push((target_spec(d), body, system_of_destination(d))));
            assert forall|k: int| 0 <= k < all.len() implies cache_file(#[trigger] all[k].0, all[k].2) by {
                if k < before.len() {
                    assert(all[k] == before[k]);
                } else {
                    match d {
                        DestinationView::Scheme(system, f) => {
                            let parts = normal_parts(path->0)->0;
                            assert(f == parts[2]);
                            assert(extension_of(f) == Some("yaml"@) || extension_of(f) == Some("yml"@));
                        },
                        DestinationView::License => {},
                    }
                }
            }
        } else {
            assert(all == before);
        }
    }
}

/// Unpacking keeps only files the cache places: every file it returns goes to `LICENSE` or
/// to `<system>/<file>.yaml` or `.yml`, and the schemes it counts are exactly the scheme
/// files among them.
pub proof fn lemma_unpacked_places(bytes: Seq<u8>, result: Result<Unpacked, RemoteError>)
    requires
        unpacked(bytes, result),
        result is Ok,
    ensures
        archive_entries(bytes) is Ok,
        forall|k: int|
            0 <= k < kept_entries(archive_entries(bytes)->Ok_0).len() ==> cache_file(
                #[trigger] kept_entries(archive_entries(bytes)->Ok_0)[k].0,
                kept_entries(archive_entries(bytes)->Ok_0)[k].2,
            ),
        result->Ok_0.files_view().len() == kept_entries(archive_entries(bytes)->Ok_0).len(),
        forall|k: int|
            0 <= k < result->Ok_0.files_view().len() ==> #[trigger] result->Ok_0.files_view()[k].0 == kept_entries(
                archive_entries(bytes)->Ok_0,
            )[k].0,
        result->Ok_0.count_view(System::Base16) + result->Ok_0.count_view(System::Base24) + result->Ok_0.count_view(
            System::Tinted8,
        ) == scheme_files(kept_entries(archive_entries(bytes)->Ok_0)),
{
    let kept = kept_entries(archive_entries(bytes)->Ok_0);
    lemma_kept_entries_placed(archive_entries(bytes)->Ok_0);
    lemma_scheme_total(kept);
    assert(result->Ok_0.count_view(System::Base16) == scheme_count(kept, System::Base16));
    assert(result->Ok_0.count_view(System::Base24) == scheme_count(kept, System::Base24));
    assert(result->Ok_0.count_view(System::Tinted8) == scheme_count(kept, System::Tinted8));
}

} // verus!
