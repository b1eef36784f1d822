//! Reading the document into definitions, and everything checkable while doing so.

use vstd::prelude::*;
use vstd::string::*;

use crate::path_map::{keyed, lemma_sorted_insert_sorted, lookup, sorted_insert, strictly_sorted, PathMap};
use crate::text::{chars_of, same_chars, signed_chars, signed_decimal, string_of};
use crate::theme::problem::{problem_views, Problem, ProblemView};
use crate::theme::{dark_text, is_hex_literal, light_text, rgb_chars};
use crate::token::{is_path_spec, is_segment_spec, joined, segment_char, TokenPath};
use crate::toml::{kind_name_spec, line_number, line_of, TomlEntry, TomlTable, TomlValue};

verus! {

/// A theme value: a literal, or exactly one reference filling the whole string.
#[derive(Debug)]
pub enum RawValue {
    Literal(String),
    Reference(TokenPath),
}

/// A raw value as plain values.
pub enum RawView {
    Literal(Seq<char>),
    Reference(Seq<char>),
}

impl View for RawValue {
    type V = RawView;

    open spec fn view(&self) -> RawView {
        match self {
            RawValue::Literal(text) => RawView::Literal(text@),
            RawValue::Reference(path) => RawView::Reference(path@),
        }
    }
}

/// One token as the file writes it, before references are followed.
#[derive(Debug)]
pub struct Definition {
    pub value: RawValue,
    pub line: usize,
}

impl View for Definition {
    type V = (RawView, usize);

    open spec fn view(&self) -> (RawView, usize) {
        (self.value@, self.line)
    }
}

/// What reading a document found, as plain values.
pub struct WalkedView {
    /// Every token defined, in path order.
    pub definitions: Seq<(Seq<char>, (RawView, usize))>,
    /// Every namespace opened, and its line, in path order.
    pub namespaces: Seq<(Seq<char>, usize)>,
    /// Every problem visible without following a reference, in the order met.
    pub problems: Seq<ProblemView>,
}

/// The entries with their values as plain values.
pub open spec fn definition_views(entries: Seq<(Seq<char>, Definition)>) -> Seq<(Seq<char>, (RawView, usize))> {
    entries.map_values(|e: (Seq<char>, Definition)| (e.0, e.1@))
}

/// `sorted_insert` commutes with taking views of the values.
pub proof fn lemma_insert_views(entries: Seq<(Seq<char>, Definition)>, key: Seq<char>, value: Definition)
    ensures
        definition_views(sorted_insert(entries, key, value)) == sorted_insert(
            definition_views(entries),
            key,
            value@,
        ),
    decreases entries.len(),
{
    let views = definition_views(entries);
    if entries.len() == 0 {
        assert(definition_views(seq![(key, value)]) =~= seq![(key, value@)]);
    } else if entries[0].0 == key {
        assert(definition_views(seq![(key, value)] + entries.drop_first()) =~= seq![(key, value@)]
            + views.drop_first());
    } else if crate::path_map::text_less(key, entries[0].0) {
        assert(definition_views(seq![(key, value)] + entries) =~= seq![(key, value@)] + views);
    } else {
        lemma_insert_views(entries.drop_first(), key, value);
        assert(views.drop_first() =~= definition_views(entries.drop_first()));
        assert(definition_views(seq![entries[0]] + sorted_insert(entries.drop_first(), key, value))
            =~= seq![views[0]] + definition_views(sorted_insert(entries.drop_first(), key, value)));
    }
}

/// `meta`.
pub open spec fn meta_text() -> Seq<char> {
    seq!['m', 'e', 't', 'a']
}

/// `text`.
pub open spec fn text_text() -> Seq<char> {
    seq!['t', 'e', 'x', 't']
}

/// `ansi`.
pub open spec fn ansi_text() -> Seq<char> {
    seq!['a', 'n', 's', 'i']
}

/// `meta.key`.
pub open spec fn meta_path(key: Seq<char>) -> Seq<char> {
    joined(meta_text(), key)
}

/// Whether `path` sits in the namespace `root`, which is one segment.
pub open spec fn in_root(path: Seq<char>, root: Seq<char>) -> bool {
    path == root || (root.len() < path.len() && path.take(root.len() as int) == root
        && path[root.len() as int] == '.')
}

/// Whether `path` sits in a namespace whose values are never colours: `meta` or `text`.
pub open spec fn is_opaque(path: Seq<char>) -> bool {
    in_root(path, meta_text()) || in_root(path, text_text())
}

/// Whether `key` names one of the sixteen ANSI slots: `0` through `15`, no leading zeros.
pub open spec fn is_slot(key: Seq<char>) -> bool {
    (key.len() == 1 && '0' <= key[0] && key[0] <= '9') || (key.len() == 2 && key[0] == '1' && '0'
        <= key[1] && key[1] <= '5')
}

/// Whether `text` holds `{{` anywhere.
pub open spec fn has_open(text: Seq<char>) -> bool {
    exists|i: int| 0 <= i && i + 1 < text.len() && #[trigger] opens_at(text, i)
}

/// Whether `{{` starts at `i` in `text`.
pub open spec fn opens_at(text: Seq<char>, i: int) -> bool {
    text[i] == '{' && text[i + 1] == '{'
}

/// The token a whole-string `{{reference}}` names.
pub open spec fn reference_spec(text: Seq<char>) -> Option<Seq<char>> {
    if text.len() >= 4 && text[0] == '{' && text[1] == '{' && text[text.len() - 2] == '}'
        && text[text.len() - 1] == '}' && is_path_spec(text.subrange(2, text.len() - 2)) {
        Some(text.subrange(2, text.len() - 2))
    } else {
        None
    }
}

/// `c`, lowercased when it is a capital hex digit.
pub open spec fn lower_char(c: char) -> char {
    if c == 'A' {
        'a'
    } else if c == 'B' {
        'b'
    } else if c == 'C' {
        'c'
    } else if c == 'D' {
        'd'
    } else if c == 'E' {
        'e'
    } else if c == 'F' {
        'f'
    } else {
        c
    }
}

/// `text` with its capital hex digits lowercased: for a hex literal, which holds no other
/// letters, its ASCII lowercase.
pub open spec fn lowercase(text: Seq<char>) -> Seq<char> {
    text.map_values(|c: char| lower_char(c))
}

/// `prefix.key`, or the key read as a whole path at the top of the document.
pub open spec fn child_spec(prefix: Option<Seq<char>>, key: Seq<char>) -> Option<Seq<char>> {
    match prefix {
        Some(p) => if is_segment_spec(key) {
            Some(joined(p, key))
        } else {
            None
        },
        None => if is_path_spec(key) {
            Some(key)
        } else {
            None
        },
    }
}

/// `w` with one more problem.
pub open spec fn with_problem(w: WalkedView, p: ProblemView) -> WalkedView {
    WalkedView { problems: w.problems.push(p), ..w }
}

/// `w` with `path` defined.
pub open spec fn with_definition(w: WalkedView, path: Seq<char>, value: RawView, line: usize) -> WalkedView {
    WalkedView { definitions: sorted_insert(w.definitions, path, (value, line)), ..w }
}

/// `w` with the namespace `path` opened on `line`.
pub open spec fn with_namespace(w: WalkedView, path: Seq<char>, line: usize) -> WalkedView {
    WalkedView { namespaces: sorted_insert(w.namespaces, path, line), ..w }
}

/// A string value, classified by the namespace it sits in.
pub open spec fn string_value(w: WalkedView, path: Seq<char>, text: Seq<char>, line: usize) -> WalkedView {
    if is_opaque(path) {
        with_definition(w, path, RawView::Literal(text), line)
    } else if reference_spec(text) is Some {
        with_definition(w, path, RawView::Reference(reference_spec(text)->0), line)
    } else if is_hex_literal(text) {
        with_definition(w, path, RawView::Literal(lowercase(text)), line)
    } else {
        let problem = if has_open(text) {
            ProblemView::Reference { path, line: line as nat, value: text }
        } else {
            ProblemView::Hex { path, line: line as nat, value: text }
        };
        with_definition(with_problem(w, problem), path, RawView::Literal(text), line)
    }
}

/// `meta.format`, the one value written as a number.
pub open spec fn format_value(w: WalkedView, path: Seq<char>, value: TomlValue, line: usize) -> WalkedView {
    let found = match value {
        TomlValue::Int(n) => signed_decimal(n as int),
        _ => kind_name_spec(value),
    };
    let w1 = if value == TomlValue::Int(1) {
        w
    } else {
        with_problem(w, ProblemView::MetaFormat { line: line as nat, found })
    };
    with_definition(w1, path, RawView::Literal(found), line)
}

/// Reading the table entries `entries[i..]`, whose table's path is `prefix`.
pub open spec fn walk_entries(
    bytes: Seq<u8>,
    entries: Seq<TomlEntry>,
    i: int,
    prefix: Option<Seq<char>>,
    w: WalkedView,
) -> WalkedView
    decreases entries, entries.len() - i,
{
    if i < 0 || i >= entries.len() {
        w
    } else {
        let entry = entries[i];
        let line = line_number(bytes, entry.offset);
        let key = entry.key@;
        let w1 = match child_spec(prefix, key) {
            None => with_problem(w, ProblemView::Key { key, line: line as nat }),
            Some(path) => if prefix == Some(ansi_text()) && (!is_slot(key)
                || entry.value.is_table_like()) {
                with_problem(w, ProblemView::AnsiSlot { key, line: line as nat })
            } else {
                walk_item(bytes, path, entry.value, line, w)
            },
        };
        walk_entries(bytes, entries, i + 1, prefix, w1)
    }
}

/// Reading the inline table entries `entries[i..]` under `path`, all on `line`.
pub open spec fn walk_inline(
    bytes: Seq<u8>,
    entries: Seq<TomlEntry>,
    i: int,
    path: Seq<char>,
    line: usize,
    w: WalkedView,
) -> WalkedView
    decreases entries, entries.len() - i,
{
    if i < 0 || i >= entries.len() {
        w
    } else {
        let entry = entries[i];
        let key = entry.key@;
        let w1 = if is_segment_spec(key) {
            walk_item(bytes, joined(path, key), entry.value, line, w)
        } else {
            with_problem(w, ProblemView::Key { key, line: line as nat })
        };
        walk_inline(bytes, entries, i + 1, path, line, w1)
    }
}

/// Reading one key, which is either a namespace or a token.
pub open spec fn walk_item(
    bytes: Seq<u8>,
    path: Seq<char>,
    value: TomlValue,
    line: usize,
    w: WalkedView,
) -> WalkedView
    decreases value, 0int,
{
    match value {
        TomlValue::Table(table) => walk_entries(
            bytes,
            table.entries@,
            0,
            Some(path),
            with_namespace(w, path, line),
        ),
        TomlValue::Inline(table) => walk_inline(
            bytes,
            table.entries@,
            0,
            path,
            line,
            with_namespace(w, path, line),
        ),
        _ => if path == meta_path(seq!['f', 'o', 'r', 'm', 'a', 't']) {
            format_value(w, path, value, line)
        } else {
            match value {
                TomlValue::Str(text) => string_value(w, path, text@, line),
                _ => with_problem(
                    w,
                    ProblemView::Type { path, line: line as nat, found: kind_name_spec(value) },
                ),
            }
        },
    }
}

proof fn lemma_string_value_sorted(w: WalkedView, path: Seq<char>, text: Seq<char>, line: usize)
    requires
        strictly_sorted(w.definitions),
    ensures
        strictly_sorted(string_value(w, path, text, line).definitions),
{
    if is_opaque(path) {
        lemma_sorted_insert_sorted(w.definitions, path, (RawView::Literal(text), line));
    } else if reference_spec(text) is Some {
        lemma_sorted_insert_sorted(w.definitions, path, (RawView::Reference(reference_spec(text)->0), line));
    } else if is_hex_literal(text) {
        lemma_sorted_insert_sorted(w.definitions, path, (RawView::Literal(lowercase(text)), line));
    } else {
        lemma_sorted_insert_sorted(w.definitions, path, (RawView::Literal(text), line));
    }
}

proof fn lemma_walk_entries_sorted(bytes: Seq<u8>, entries: Seq<TomlEntry>, i: int, prefix: Option<Seq<char>>, w: WalkedView)
    requires
        strictly_sorted(w.definitions),
    ensures
        strictly_sorted(walk_entries(bytes, entries, i, prefix, w).definitions),
    decreases entries, entries.len() - i,
{
    if 0 <= i < entries.len() {
        let entry = entries[i];
        let line = line_number(bytes, entry.offset);
        let key = entry.key@;
        let w1 = match child_spec(prefix, key) {
            None => with_problem(w, ProblemView::Key { key, line: line as nat }),
            Some(path) => if prefix == Some(ansi_text()) && (!is_slot(key) || entry.value.is_table_like()) {
                with_problem(w, ProblemView::AnsiSlot { key, line: line as nat })
            } else {
                lemma_walk_item_sorted(bytes, path, entry.value, line, w);
                walk_item(bytes, path, entry.value, line, w)
            },
        };
        lemma_walk_entries_sorted(bytes, entries, i + 1, prefix, w1);
    }
}

proof fn lemma_walk_inline_sorted(
    bytes: Seq<u8>,
    entries: Seq<TomlEntry>,
    i: int,
    path: Seq<char>,
    line: usize,
    w: WalkedView,
)
    requires
        strictly_sorted(w.definitions),
    ensures
        strictly_sorted(walk_inline(bytes, entries, i, path, line, w).definitions),
    decreases entries, entries.len() - i,
{
    if 0 <= i < entries.len() {
        let entry = entries[i];
        let key = entry.key@;
        let w1 = if is_segment_spec(key) {
            lemma_walk_item_sorted(bytes, joined(path, key), entry.value, line, w);
            walk_item(bytes, joined(path, key), entry.value, line, w)
        } else {
            with_problem(w, ProblemView::Key { key, line: line as nat })
        };
        lemma_walk_inline_sorted(bytes, entries, i + 1, path, line, w1);
    }
}

proof fn lemma_walk_item_sorted(bytes: Seq<u8>, path: Seq<char>, value: TomlValue, line: usize, w: WalkedView)
    requires
        strictly_sorted(w.definitions),
    ensures
        strictly_sorted(walk_item(bytes, path, value, line, w).definitions),
    decreases value, 0int,
{
    match value {
        TomlValue::Table(table) => lemma_walk_entries_sorted(bytes, table.entries@, 0, Some(path), with_namespace(w, path, line)),
        TomlValue::Inline(table) => lemma_walk_inline_sorted(bytes, table.entries@, 0, path, line, with_namespace(w, path, line)),
        _ => if path == meta_path(seq!['f', 'o', 'r', 'm', 'a', 't']) {
            let found = match value {
                TomlValue::Int(n) => signed_decimal(n as int),
                _ => kind_name_spec(value),
            };
            lemma_sorted_insert_sorted(w.definitions, path, (RawView::Literal(found), line));
        } else {
            match value {
                TomlValue::Str(text) => lemma_string_value_sorted(w, path, text@, line),
                _ => {},
            }
        },
    }
}

/// Reading a document yields its definitions sorted by path, each path once.
pub proof fn lemma_walk_sorted(bytes: Seq<u8>, document: TomlTable)
    ensures
        strictly_sorted(walk_spec(bytes, document).definitions),
{
    lemma_walk_entries_sorted(
        bytes,
        document.entries@,
        0,
        None,
        WalkedView { definitions: Seq::empty(), namespaces: Seq::empty(), problems: Seq::empty() },
    );
}

/// What reading `document`, which is `source` parsed, finds.
pub open spec fn walk_spec(bytes: Seq<u8>, document: TomlTable) -> WalkedView {
    walk_entries(
        bytes,
        document.entries@,
        0,
        None,
        WalkedView { definitions: Seq::empty(), namespaces: Seq::empty(), problems: Seq::empty() },
    )
}

/// What reading a document found: the definitions and namespaces keyed by path, and the
/// problems in the order met.
#[derive(Debug)]
pub struct Walked {
    /// Every token the file defines, still holding references.
    pub definitions: PathMap<Definition>,
    /// Every namespace the file opens, and the line it opens on.
    pub namespaces: PathMap<usize>,
    /// Every problem visible without following a reference.
    pub problems: Vec<Problem>,
}

impl Walked {
    /// The walk as plain values.
    pub open spec fn walked_view(&self) -> WalkedView {
        WalkedView {
            definitions: definition_views(self.definitions.view_entries()),
            namespaces: self.namespaces.view_entries(),
            problems: problem_views(self.problems@),
        }
    }

    /// Both maps keep their keys in order.
    pub open spec fn well_formed(&self) -> bool {
        self.definitions.well_formed() && self.namespaces.well_formed()
    }

    fn add_problem(&mut self, problem: Problem)
        ensures
            final(self).definitions == old(self).definitions,
            final(self).namespaces == old(self).namespaces,
            final(self).walked_view() == with_problem(old(self).walked_view(), problem@),
    {
        self.problems.push(problem);
        proof {
            assert(problem_views(self.problems@) =~= problem_views(old(self).problems@).push(problem@));
        }
    }

    fn add_definition(&mut self, path: TokenPath, value: RawValue, line: usize)
        requires
            old(self).well_formed(),
        ensures
            final(self).well_formed(),
            final(self).walked_view() == with_definition(old(self).walked_view(), path@, value@, line),
    {
        let ghost p = path@;
        let definition = Definition { value, line };
        proof {
            lemma_insert_views(self.definitions.view_entries(), p, definition);
        }
        self.definitions.insert(path, definition);
    }

    fn add_namespace(&mut self, path: TokenPath, line: usize)
        requires
            old(self).well_formed(),
        ensures
            final(self).well_formed(),
            final(self).walked_view() == with_namespace(old(self).walked_view(), path@, line),
    {
        self.namespaces.insert(path, line);
    }
}

/// The path of an optional prefix, as a plain value.
pub open spec fn prefix_view(prefix: Option<&TokenPath>) -> Option<Seq<char>> {
    match prefix {
        Some(p) => Some(p@),
        None => None,
    }
}

/// Whether `path` is `word` or sits under it, `word` being one segment.
fn in_namespace(path: &TokenPath, word: &[char]) -> (inside: bool)
    requires
        is_segment_spec(word@),
    ensures
        inside == in_root(path@, word@),
{
    let root = chars_of(path.root());
    let same = same_chars(root.as_slice(), word);
    proof {
        let p = path@;
        let w = word@;
        let r = root@;
        if same {
            assert(r == w);
            if r.len() < p.len() {
                assert(p[r.len() as int] == '.');
                assert(p.take(w.len() as int) == w);
            } else {
                assert(p =~= r);
            }
        } else if in_root(p, w) {
            assert(w.len() <= p.len());
            assert(forall|k: int| 0 <= k < w.len() ==> p[k] == w[k]) by {
                if p != w {
                    assert forall|k: int| 0 <= k < w.len() implies p[k] == w[k] by {
                        assert(p.take(w.len() as int)[k] == p[k]);
                    }
                }
            }
            if r.len() < w.len() {
                assert(r.len() < p.len());
                assert(p[r.len() as int] == '.');
                assert(p[r.len() as int] == w[r.len() as int]);
                assert(segment_char(w[r.len() as int]));
            } else if r.len() > w.len() {
                assert(p != w);
                assert(p[w.len() as int] == '.');
                assert(r[w.len() as int] == p.take(r.len() as int)[w.len() as int]);
                assert(segment_char(r[w.len() as int]));
            } else {
                assert forall|k: int| 0 <= k < r.len() implies r[k] == w[k] by {
                    assert(r[k] == p.take(r.len() as int)[k]);
                }
                assert(r =~= w);
            }
        }
    }
    same
}

/// The characters of `meta`.
fn meta_chars() -> (chars: Vec<char>)
    ensures
        chars@ == meta_text(),
{
    let mut chars = Vec::new();
    chars.push('m');
    chars.push('e');
    chars.push('t');
    chars.push('a');
    proof {
        assert(chars@ =~= meta_text());
    }
    chars
}

/// Whether `path` sits in a namespace whose values are never colours.
fn is_opaque_path(path: &TokenPath) -> (opaque: bool)
    ensures
        opaque == is_opaque(path@),
{
    let meta = meta_chars();
    let mut text = Vec::new();
    text.push('t');
    text.push('e');
    text.push('x');
    text.push('t');
    proof {
        assert(text@ =~= text_text());
    }
    in_namespace(path, meta.as_slice()) || in_namespace(path, text.as_slice())
}

/// The characters of `meta.format`.
fn meta_format_chars() -> (chars: Vec<char>)
    ensures
        chars@ == meta_path(seq!['f', 'o', 'r', 'm', 'a', 't']),
{
    let mut chars = meta_chars();
    chars.push('.');
    chars.push('f');
    chars.push('o');
    chars.push('r');
    chars.push('m');
    chars.push('a');
    chars.push('t');
    proof {
        assert(chars@ =~= meta_path(seq!['f', 'o', 'r', 'm', 'a', 't']));
    }
    chars
}

/// Whether `key` names one of the sixteen ANSI slots.
fn is_slot_key(key: &[char]) -> (slot: bool)
    ensures
        slot == is_slot(key@),
{
    (key.len() == 1 && '0' <= key[0] && key[0] <= '9') || (key.len() == 2 && key[0] == '1'
        && '0' <= key[1] && key[1] <= '5')
}

/// Whether `text` holds `{{`.
fn contains_open(text: &[char]) -> (found: bool)
    ensures
        found == has_open(text@),
{
    if text.len() < 2 {
        return false;
    }
    let mut i: usize = 0;
    while i < text.len() - 1
        invariant
            text@.len() >= 2,
            forall|j: int| 0 <= j < i && j + 1 < text@.len() ==> !#[trigger] opens_at(text@, j),
        decreases text@.len() - i,
    {
        if text[i] == '{' && text[i + 1] == '{' {
            assert(opens_at(text@, i as int));
            return true;
        }
        i = i + 1;
    }
    false
}

/// The token path a whole-string `{{reference}}` names.
fn reference(text: &[char]) -> (target: Option<TokenPath>)
    ensures
        target is Some <==> reference_spec(text@) is Some,
        target matches Some(t) ==> t@ == reference_spec(text@)->0,
{
    let n = text.len();
    if n < 4 || text[0] != '{' || text[1] != '{' || text[n - 2] != '}' || text[n - 1] != '}' {
        return None;
    }
    let mut inner = Vec::new();
    let mut i: usize = 2;
    while i < n - 2
        invariant
            2 <= i <= n - 2,
            n == text@.len(),
            n >= 4,
            inner@ == text@.subrange(2, i as int),
        decreases n - 2 - i,
    {
        inner.push(text[i]);
        proof {
            assert(text@.subrange(2, i + 1) =~= text@.subrange(2, i as int).push(text@[i as int]));
        }
        i = i + 1;
    }
    TokenPath::parse_chars(inner.as_slice())
}

/// `text` with its capital hex digits lowercased.
fn lowercase_chars(text: &[char]) -> (lower: Vec<char>)
    ensures
        lower@ == lowercase(text@),
{
    let mut lower = Vec::new();
    let mut i: usize = 0;
    while i < text.len()
        invariant
            i <= text@.len(),
            lower@ == lowercase(text@.take(i as int)),
        decreases text@.len() - i,
    {
        let c = text[i];
        let l = if c == 'A' {
            'a'
        } else if c == 'B' {
            'b'
        } else if c == 'C' {
            'c'
        } else if c == 'D' {
            'd'
        } else if c == 'E' {
            'e'
        } else if c == 'F' {
            'f'
        } else {
            c
        };
        lower.push(l);
        proof {
            assert(text@.take(i + 1) =~= text@.take(i as int).push(c));
            assert(lowercase(text@.take(i + 1)) =~= lowercase(text@.take(i as int)).push(lower_char(c)));
        }
        i = i + 1;
    }
    proof {
        assert(text@.take(text@.len() as int) =~= text@);
    }
    lower
}

/// `prefix.key`, or `None` when `key` is not a valid segment (or, at the top, a path).
fn child(prefix: Option<&TokenPath>, key: &str) -> (path: Option<TokenPath>)
    ensures
        path is Some <==> child_spec(prefix_view(prefix), key@) is Some,
        path matches Some(p) ==> p@ == child_spec(prefix_view(prefix), key@)->0,
{
    match prefix {
        Some(prefix) => prefix.child(key),
        None => TokenPath::parse(key),
    }
}

/// Classifies a string value by the namespace it sits in, and records it.
fn walk_string(walked: &mut Walked, path: TokenPath, text: &str, line: usize)
    requires
        old(walked).well_formed(),
    ensures
        final(walked).well_formed(),
        final(walked).walked_view() == string_value(old(walked).walked_view(), path@, text@, line),
{
    let chars = chars_of(text);
    if is_opaque_path(&path) {
        walked.add_definition(path, RawValue::Literal(text.to_owned()), line);
        return;
    }
    match reference(chars.as_slice()) {
        Some(target) => {
            walked.add_definition(path, RawValue::Reference(target), line);
            return;
        },
        None => {},
    }
    if rgb_chars(chars.as_slice()).is_some() {
        let lower = lowercase_chars(chars.as_slice());
        walked.add_definition(path, RawValue::Literal(string_of(lower.as_slice())), line);
        return;
    }
    let problem = if contains_open(chars.as_slice()) {
        Problem::Reference { path: path.clone(), line, value: text.to_owned() }
    } else {
        Problem::Hex { path: path.clone(), line, value: text.to_owned() }
    };
    walked.add_problem(problem);
    walked.add_definition(path, RawValue::Literal(text.to_owned()), line);
}

/// Records `meta.format`, which is the one value written as a number.
///
/// A version it cannot read is still recorded, so that a file carrying one is a theme with a
/// bad `format` rather than a theme missing `format`.
fn walk_format(walked: &mut Walked, path: TokenPath, value: &TomlValue, line: usize)
    requires
        old(walked).well_formed(),
    ensures
        final(walked).well_formed(),
        final(walked).walked_view() == format_value(old(walked).walked_view(), path@, *value, line),
{
    let found = match value {
        TomlValue::Int(n) => string_of(signed_chars(*n).as_slice()),
        _ => value.kind_name(),
    };
    let is_one = match value {
        TomlValue::Int(n) => *n == 1,
        _ => false,
    };
    if !is_one {
        walked.add_problem(Problem::MetaFormat { line, found: found.clone() });
    }
    walked.add_definition(path, RawValue::Literal(found), line);
}

/// Walks the entries of a table whose own path is `prefix`.
fn walk_table(bytes: &[u8], entries: &Vec<TomlEntry>, prefix: Option<&TokenPath>, walked: &mut Walked)
    requires
        old(walked).well_formed(),
    ensures
        final(walked).well_formed(),
        final(walked).walked_view() == walk_entries(
            bytes@,
            entries@,
            0,
            prefix_view(prefix),
            old(walked).walked_view(),
        ),
    decreases entries@,
{
    let ghost pre = prefix_view(prefix);
    let mut ansi = Vec::new();
    ansi.push('a');
    ansi.push('n');
    ansi.push('s');
    ansi.push('i');
    proof {
        assert(ansi@ =~= ansi_text());
    }
    let under_ansi = match prefix {
        Some(p) => {
            let chars = p.chars();
            same_chars(chars.as_slice(), ansi.as_slice())
        },
        None => false,
    };
    let mut i: usize = 0;
    while i < entries.len()
        invariant
            i <= entries@.len(),
            walked.well_formed(),
            pre == prefix_view(prefix),
            under_ansi == (pre == Some(ansi_text())),
            walk_entries(bytes@, entries@, i as int, pre, walked.walked_view()) == walk_entries(
                bytes@,
                entries@,
                0,
                pre,
                old(walked).walked_view(),
            ),
        decreases entries@.len() - i,
    {
        let entry = &entries[i];
        let line = line_of(bytes, entry.offset);
        match child(prefix, entry.key.as_str()) {
            None => {
                walked.add_problem(Problem::Key { key: entry.key.clone(), line });
            },
            Some(path) => {
                let key = chars_of(entry.key.as_str());
                let table_like = match &entry.value {
                    TomlValue::Table(_) => true,
                    TomlValue::Inline(_) => true,
                    _ => false,
                };
                if under_ansi && (!is_slot_key(key.as_slice()) || table_like) {
                    walked.add_problem(Problem::AnsiSlot { key: entry.key.clone(), line });
                } else {
                    proof {
                        assert(decreases_to!(entries@ => entries@[i as int]));
                    }
                    walk_value(bytes, path, &entry.value, line, walked);
                }
            },
        }
        i = i + 1;
    }
}

/// Walks the entries of an inline table under `path`, all on `line`.
fn walk_inline_table(
    bytes: &[u8],
    entries: &Vec<TomlEntry>,
    path: &TokenPath,
    line: usize,
    walked: &mut Walked,
)
    requires
        old(walked).well_formed(),
    ensures
        final(walked).well_formed(),
        final(walked).walked_view() == walk_inline(
            bytes@,
            entries@,
            0,
            path@,
            line,
            old(walked).walked_view(),
        ),
    decreases entries@,
{
    let mut i: usize = 0;
    while i < entries.len()
        invariant
            i <= entries@.len(),
            walked.well_formed(),
            walk_inline(bytes@, entries@, i as int, path@, line, walked.walked_view())
                == walk_inline(bytes@, entries@, 0, path@, line, old(walked).walked_view()),
        decreases entries@.len() - i,
    {
        let entry = &entries[i];
        match path.child(entry.key.as_str()) {
            None => {
                walked.add_problem(Problem::Key { key: entry.key.clone(), line });
            },
            Some(nested) => {
                proof {
                    assert(decreases_to!(entries@ => entries@[i as int]));
                }
                walk_value(bytes, nested, &entry.value, line, walked);
            },
        }
        i = i + 1;
    }
}

/// Records one key, which is either a namespace or a token.
fn walk_value(bytes: &[u8], path: TokenPath, value: &TomlValue, line: usize, walked: &mut Walked)
    requires
        old(walked).well_formed(),
    ensures
        final(walked).well_formed(),
        final(walked).walked_view() == walk_item(
            bytes@,
            path@,
            *value,
            line,
            old(walked).walked_view(),
        ),
    decreases *value,
{
    match value {
        TomlValue::Table(table) => {
            walked.add_namespace(path.clone(), line);
            walk_table(bytes, &table.entries, Some(&path), walked);
        },
        TomlValue::Inline(table) => {
            walked.add_namespace(path.clone(), line);
            walk_inline_table(bytes, &table.entries, &path, line, walked);
        },
        _ => {
            let format = meta_format_chars();
            let chars = path.chars();
            if same_chars(chars.as_slice(), format.as_slice()) {
                walk_format(walked, path, value, line);
            } else {
                match value {
                    TomlValue::Str(text) => walk_string(walked, path, text.as_str(), line),
                    _ => {
                        let found = value.kind_name();
                        walked.add_problem(Problem::Type { path, line, found });
                    },
                }
            }
        },
    }
}

/// Reads `document`, which is `source` parsed: every definition and namespace it writes, and
/// every problem visible without following a reference.
pub fn walk(source: &str, document: &TomlTable) -> (walked: Walked)
    ensures
        walked.well_formed(),
        walked.walked_view() == walk_spec(source.spec_bytes(), *document),
{
    let mut walked = Walked {
        definitions: PathMap::new(),
        namespaces: PathMap::new(),
        problems: Vec::new(),
    };
    proof {
        assert(walked.walked_view().definitions =~= Seq::empty());
        assert(walked.walked_view().namespaces =~= Seq::empty());
        assert(walked.walked_view().problems =~= Seq::empty());
        assert(walked.walked_view() == WalkedView {
            definitions: Seq::empty(),
            namespaces: Seq::empty(),
            problems: Seq::empty(),
        });
    }
    walk_table(source.as_bytes(), &document.entries, None, &mut walked);
    walked
}

/// `format`.
pub open spec fn format_text() -> Seq<char> {
    seq!['f', 'o', 'r', 'm', 'a', 't']
}

/// `name`.
pub open spec fn name_text() -> Seq<char> {
    seq!['n', 'a', 'm', 'e']
}

/// `variant`.
pub open spec fn variant_key() -> Seq<char> {
    seq!['v', 'a', 'r', 'i', 'a', 'n', 't']
}

/// `author`.
pub open spec fn author_text() -> Seq<char> {
    seq!['a', 'u', 't', 'h', 'o', 'r']
}

/// The key of `path` when it is `meta.key`, one level under `[meta]`.
pub open spec fn meta_key(path: Seq<char>) -> Option<Seq<char>> {
    if path.len() > 5 && path.take(5) == meta_text().push('.') && forall|k: int|
        5 <= k < path.len() ==> #[trigger] path[k] != '.' {
        Some(path.skip(5))
    } else {
        None
    }
}

/// Whether `key` is one the format defines under `[meta]`.
pub open spec fn known_meta(key: Seq<char>) -> bool {
    key == format_text() || key == name_text() || key == variant_key() || key == author_text()
}

/// A `[meta]` key for each written path one level under `[meta]` the format does not define.
pub open spec fn unknown_meta(written: Seq<(Seq<char>, usize)>) -> Seq<ProblemView>
    decreases written.len(),
{
    if written.len() == 0 {
        Seq::empty()
    } else {
        let before = unknown_meta(written.drop_last());
        match meta_key(written.last().0) {
            Some(key) => if known_meta(key) {
                before
            } else {
                before.push(ProblemView::MetaUnknown { key, line: written.last().1 as nat })
            },
            None => before,
        }
    }
}

/// The paths and lines of `definitions`.
pub open spec fn written_lines(definitions: Seq<(Seq<char>, (RawView, usize))>) -> Seq<(Seq<char>, usize)> {
    definitions.map_values(|e: (Seq<char>, (RawView, usize))| (e.0, e.1.1))
}

/// `[meta]` missing `key`, when it is.
pub open spec fn missing_meta(definitions: Seq<(Seq<char>, (RawView, usize))>, key: Seq<char>) -> Seq<ProblemView> {
    if lookup(definitions, meta_path(key)) is Some {
        Seq::empty()
    } else {
        seq![ProblemView::MetaMissing { key }]
    }
}

/// A `meta.variant` that is neither `dark` nor `light`, when it is.
pub open spec fn variant_problem(definitions: Seq<(Seq<char>, (RawView, usize))>) -> Seq<ProblemView> {
    match lookup(definitions, meta_path(variant_key())) {
        Some((RawView::Literal(value), line)) => if value != dark_text() && value != light_text() {
            seq![ProblemView::MetaVariant { line: line as nat, value }]
        } else {
            Seq::empty()
        },
        _ => Seq::empty(),
    }
}

/// Every problem with `[meta]`, which is the one table the format fixes the keys of.
pub open spec fn meta_problems_spec(
    definitions: Seq<(Seq<char>, (RawView, usize))>,
    namespaces: Seq<(Seq<char>, usize)>,
) -> Seq<ProblemView> {
    unknown_meta(written_lines(definitions) + namespaces) + missing_meta(definitions, format_text())
        + missing_meta(definitions, name_text()) + missing_meta(definitions, variant_key())
        + variant_problem(definitions)
}

/// The key of `path` when it is `meta.key`.
fn meta_key_of(path: &TokenPath) -> (key: Option<Vec<char>>)
    ensures
        key is Some <==> meta_key(path@) is Some,
        key matches Some(k) ==> k@ == meta_key(path@)->0,
{
    let chars = path.chars();
    let n = chars.len();
    if n <= 5 || chars[0] != 'm' || chars[1] != 'e' || chars[2] != 't' || chars[3] != 'a' || chars[4] != '.' {
        proof {
            if n > 5 {
                assert(chars@.take(5)[0] == chars@[0]);
                assert(chars@.take(5)[1] == chars@[1]);
                assert(chars@.take(5)[2] == chars@[2]);
                assert(chars@.take(5)[3] == chars@[3]);
                assert(chars@.take(5)[4] == chars@[4]);
            }
        }
        return None;
    }
    let mut key: Vec<char> = Vec::new();
    let mut i: usize = 5;
    while i < n
        invariant
            5 <= i <= n,
            n == chars@.len(),
            chars@ == path@,
            key@ == chars@.subrange(5, i as int),
            forall|k: int| 5 <= k < i ==> chars@[k] != '.',
        decreases n - i,
    {
        if chars[i] == '.' {
            proof {
                assert(chars@[i as int] == '.');
                assert(!(forall|k: int| 5 <= k < chars@.len() ==> #[trigger] chars@[k] != '.'));
            }
            return None;
        }
        key.push(chars[i]);
        proof {
            assert(chars@.subrange(5, i + 1) =~= chars@.subrange(5, i as int).push(chars@[i as int]));
        }
        i = i + 1;
    }
    proof {
        assert(chars@.take(5) =~= meta_text().push('.'));
        assert(chars@.subrange(5, n as int) =~= chars@.skip(5));
    }
    Some(key)
}

/// Whether `key` is one the format defines under `[meta]`.
fn is_known_meta(key: &[char]) -> (known: bool)
    ensures
        known == known_meta(key@),
{
    let mut words: Vec<Vec<char>> = Vec::new();
    let mut format = Vec::new();
    format.push('f');
    format.push('o');
    format.push('r');
    format.push('m');
    format.push('a');
    format.push('t');
    let mut name = Vec::new();
    name.push('n');
    name.push('a');
    name.push('m');
    name.push('e');
    let mut variant = Vec::new();
    variant.push('v');
    variant.push('a');
    variant.push('r');
    variant.push('i');
    variant.push('a');
    variant.push('n');
    variant.push('t');
    let mut author = Vec::new();
    author.push('a');
    author.push('u');
    author.push('t');
    author.push('h');
    author.push('o');
    author.push('r');
    proof {
        assert(format@ =~= format_text());
        assert(name@ =~= name_text());
        assert(variant@ =~= variant_key());
        assert(author@ =~= author_text());
    }
    same_chars(key, format.as_slice()) || same_chars(key, name.as_slice()) || same_chars(
        key,
        variant.as_slice(),
    ) || same_chars(key, author.as_slice())
}

/// `meta.key`.
fn meta_path_of(key: &[char]) -> (path: TokenPath)
    requires
        is_segment_spec(key@),
    ensures
        path@ == meta_path(key@),
{
    let mut chars = meta_chars();
    chars.push('.');
    crate::text::push_all(&mut chars, key);
    proof {
        assert(chars@ =~= meta_path(key@));
        crate::token::lemma_join_is_path(meta_text(), key@);
        crate::token::lemma_segment_is_path(meta_text());
    }
    TokenPath::from_chars(chars.as_slice())
}

/// Looking up a path among the definitions' views finds the view of what it finds.
pub proof fn lemma_lookup_views(entries: Seq<(Seq<char>, Definition)>, key: Seq<char>)
    ensures
        lookup(definition_views(entries), key) == match lookup(entries, key) {
            Some(d) => Some(d@),
            None => None,
        },
    decreases entries.len(),
{
    if entries.len() > 0 {
        assert(definition_views(entries).drop_first() =~= definition_views(entries.drop_first()));
        lemma_lookup_views(entries.drop_first(), key);
    }
}

/// Every problem with `[meta]`: each key one level under it the format does not define, in
/// path order among the definitions and then the namespaces; each of `format`, `name` and
/// `variant` missing; and a variant that is neither `dark` nor `light`.
pub fn meta_problems(definitions: &PathMap<Definition>, namespaces: &PathMap<usize>) -> (problems: Vec<Problem>)
    requires
        definitions.well_formed(),
        namespaces.well_formed(),
    ensures
        problem_views(problems@) == meta_problems_spec(
            definition_views(definitions.view_entries()),
            namespaces.view_entries(),
        ),
{
    let ghost defs = definition_views(definitions.view_entries());
    let ghost written = written_lines(defs);
    let ghost ns = namespaces.view_entries();
    let mut problems: Vec<Problem> = Vec::new();
    proof {
        assert(problem_views(problems@) =~= Seq::<ProblemView>::empty());
        assert(written.take(0) =~= Seq::<(Seq<char>, usize)>::empty());
    }
    let mut i: usize = 0;
    while i < definitions.len()
        invariant
            i <= definitions.view_entries().len(),
            defs == definition_views(definitions.view_entries()),
            written == written_lines(defs),
            problem_views(problems@) == unknown_meta(written.take(i as int)),
        decreases definitions.view_entries().len() - i,
    {
        let entry = definitions.entry(i);
        proof {
            assert(written.take(i + 1).drop_last() =~= written.take(i as int));
            assert(written.take(i + 1).last() == (entry.0@, entry.1.line));
        }
        match meta_key_of(&entry.0) {
            Some(key) => {
                if !is_known_meta(key.as_slice()) {
                    let ghost before = problem_views(problems@);
                    problems.push(Problem::MetaUnknown { key: string_of(key.as_slice()), line: entry.1.line });
                    proof {
                        assert(problem_views(problems@) =~= before.push(problems@.last()@));
                    }
                }
            },
            None => {},
        }
        i = i + 1;
    }
    proof {
        assert(written.take(written.len() as int) =~= written);
        assert(written + ns.take(0) =~= written);
    }
    let mut j: usize = 0;
    while j < namespaces.len()
        invariant
            j <= ns.len(),
            ns == namespaces.view_entries(),
            problem_views(problems@) == unknown_meta(written + ns.take(j as int)),
        decreases ns.len() - j,
    {
        let entry = namespaces.entry(j);
        proof {
            assert((written + ns.take(j + 1)).drop_last() =~= written + ns.take(j as int));
            assert((written + ns.take(j + 1)).last() == (entry.0@, entry.1));
        }
        match meta_key_of(&entry.0) {
            Some(key) => {
                if !is_known_meta(key.as_slice()) {
                    let ghost before = problem_views(problems@);
                    problems.push(Problem::MetaUnknown { key: string_of(key.as_slice()), line: entry.1 });
                    proof {
                        assert(problem_views(problems@) =~= before.push(problems@.last()@));
                    }
                }
            },
            None => {},
        }
        j = j + 1;
    }
    proof {
        assert(ns.take(ns.len() as int) =~= ns);
    }
    let ghost unknown = problem_views(problems@);
    let mut format = Vec::new();
    format.push('f');
    format.push('o');
    format.push('r');
    format.push('m');
    format.push('a');
    format.push('t');
    let mut name = Vec::new();
    name.push('n');
    name.push('a');
    name.push('m');
    name.push('e');
    let mut variant = Vec::new();
    variant.push('v');
    variant.push('a');
    variant.push('r');
    variant.push('i');
    variant.push('a');
    variant.push('n');
    variant.push('t');
    proof {
        assert(format@ =~= format_text());
        assert(name@ =~= name_text());
        assert(variant@ =~= variant_key());
        lemma_lookup_views(definitions.view_entries(), meta_path(format_text()));
        lemma_lookup_views(definitions.view_entries(), meta_path(name_text()));
        lemma_lookup_views(definitions.view_entries(), meta_path(variant_key()));
    }
    let format_path = meta_path_of(format.as_slice());
    if !definitions.contains(&format_path) {
        problems.push(Problem::MetaMissing { key: string_of(format.as_slice()) });
    }
    proof {
        assert(problem_views(problems@) =~= unknown + missing_meta(defs, format_text()));
    }
    let ghost after_format = problem_views(problems@);
    let name_path = meta_path_of(name.as_slice());
    if !definitions.contains(&name_path) {
        problems.push(Problem::MetaMissing { key: string_of(name.as_slice()) });
    }
    proof {
        assert(problem_views(problems@) =~= after_format + missing_meta(defs, name_text()));
    }
    let ghost after_name = problem_views(problems@);
    let variant_path = meta_path_of(variant.as_slice());
    let found = definitions.get(&variant_path);
    if found.is_none() {
        problems.push(Problem::MetaMissing { key: string_of(variant.as_slice()) });
    }
    proof {
        assert(problem_views(problems@) =~= after_name + missing_meta(defs, variant_key()));
    }
    let ghost after_variant = problem_views(problems@);
    match found {
        Some(definition) => match &definition.value {
            RawValue::Literal(value) => {
                let chars = chars_of(value.as_str());
                if crate::theme::Variant::parse_chars(chars.as_slice()).is_none() {
                    problems.push(Problem::MetaVariant { line: definition.line, value: value.clone() });
                }
                proof {
                    assert(problem_views(problems@) =~= after_variant + variant_problem(defs));
                }
            },
            RawValue::Reference(_) => {
                proof {
                    assert(problem_views(problems@) =~= after_variant + variant_problem(defs));
                }
            },
        },
        None => {
            proof {
                assert(problem_views(problems@) =~= after_variant + variant_problem(defs));
            }
        },
    }
    problems
}

} // verus!
